//! Content metadata: digests, sizes, and manifest entries.

use vstd::prelude::*;

use crate::order::bytes_eq;

verus! {

/// A content digest: sixteen bytes of MD5.
pub struct Digest {
    pub bytes: Vec<u8>,
}

impl View for Digest {
    type V = Seq<u8>;

    open spec fn view(&self) -> Seq<u8> {
        self.bytes@
    }
}

impl Digest {
    /// A digest holds exactly sixteen bytes.
    pub open spec fn wf(&self) -> bool {
        self.bytes@.len() == 16
    }
}

impl Clone for Digest {
    fn clone(&self) -> (r: Self)
        ensures
            r@ == self@,
    {
        Digest { bytes: self.bytes.clone() }
    }
}

/// Size and digest of one version of a file's content.
pub struct FileMeta {
    pub size: u32,
    pub hash: Digest,
}

/// Mathematical value of a [`FileMeta`].
#[verifier::ext_equal]
pub ghost struct MetaV {
    pub size: u32,
    pub hash: Seq<u8>,
}

impl MetaV {
    pub open spec fn wf(&self) -> bool {
        self.hash.len() == 16
    }
}

impl View for FileMeta {
    type V = MetaV;

    open spec fn view(&self) -> MetaV {
        MetaV { size: self.size, hash: self.hash@ }
    }
}

impl FileMeta {
    pub open spec fn wf(&self) -> bool {
        self@.wf()
    }
}

impl Clone for FileMeta {
    fn clone(&self) -> (r: Self)
        ensures
            r@ == self@,
    {
        FileMeta { size: self.size, hash: self.hash.clone() }
    }
}

/// Raw and compressed metadata of the same asset.
pub struct MetaPair {
    pub raw: FileMeta,
    pub compressed: FileMeta,
}

/// Mathematical value of a [`MetaPair`].
#[verifier::ext_equal]
pub ghost struct PairV {
    pub raw: MetaV,
    pub compressed: MetaV,
}

impl PairV {
    pub open spec fn wf(&self) -> bool {
        self.raw.wf() && self.compressed.wf()
    }
}

impl View for MetaPair {
    type V = PairV;

    open spec fn view(&self) -> PairV {
        PairV { raw: self.raw@, compressed: self.compressed@ }
    }
}

impl MetaPair {
    pub open spec fn wf(&self) -> bool {
        self@.wf()
    }
}

impl Clone for MetaPair {
    fn clone(&self) -> (r: Self)
        ensures
            r@ == self@,
    {
        MetaPair { raw: self.raw.clone(), compressed: self.compressed.clone() }
    }
}

/// One manifest record: raw and compressed metadata plus a line checksum
/// guarding the persisted text against corruption.
pub struct FileEntry {
    pub raw: FileMeta,
    pub compressed: FileMeta,
    pub checksum: Digest,
}

/// Mathematical value of a [`FileEntry`].
#[verifier::ext_equal]
pub ghost struct EntryV {
    pub raw: MetaV,
    pub compressed: MetaV,
    pub checksum: Seq<u8>,
}

impl EntryV {
    pub open spec fn wf(&self) -> bool {
        self.raw.wf() && self.compressed.wf() && self.checksum.len() == 16
    }

    /// The raw and compressed halves, without the checksum.
    pub open spec fn pair(&self) -> PairV {
        PairV { raw: self.raw, compressed: self.compressed }
    }
}

impl View for FileEntry {
    type V = EntryV;

    open spec fn view(&self) -> EntryV {
        EntryV { raw: self.raw@, compressed: self.compressed@, checksum: self.checksum@ }
    }
}

impl FileEntry {
    pub open spec fn wf(&self) -> bool {
        self@.wf()
    }
}

impl Clone for FileEntry {
    fn clone(&self) -> (r: Self)
        ensures
            r@ == self@,
    {
        FileEntry {
            raw: self.raw.clone(),
            compressed: self.compressed.clone(),
            checksum: self.checksum.clone(),
        }
    }
}

/// Equality of two digests.
pub fn digest_eq(a: &Digest, b: &Digest) -> (r: bool)
    ensures
        r == (a@ == b@),
{
    let r = bytes_eq(a.bytes.as_slice(), b.bytes.as_slice());
    proof {
        if a@ =~= b@ {
            assert(a@ == b@);
        }
    }
    r
}

/// Equality of two metadata values.
pub fn meta_eq(a: &FileMeta, b: &FileMeta) -> (r: bool)
    ensures
        r == (a@ == b@),
{
    if a.size != b.size {
        return false;
    }
    digest_eq(&a.hash, &b.hash)
}

} // verus!
