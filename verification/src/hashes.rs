//! Trusted bindings to the digest and checksum collaborators.
//!
//! The path fingerprint and the content digest are external primitives: the
//! library names their results and reasons about them as pure functions of
//! the input bytes, which both are.

use vstd::prelude::*;

use crate::meta::{Digest, FileMeta};

verus! {

/// The 32-bit fingerprint of a logical path, a function of the bytes alone.
pub uninterp spec fn crc_of(path: Seq<u8>) -> u32;

/// Relies on `assembly_pack::crc::calculate_crc`: the CRC-32/MPEG-2 path
/// fingerprint, computed from the path bytes alone.
pub assume_specification [ assembly_pack::crc::calculate_crc ](path: &[u8]) -> (r: u32)
    ensures
        r == crc_of(path@),
;

/// The MD5 digest of a byte string, a function of the bytes alone.
pub uninterp spec fn md5_of(data: Seq<u8>) -> Seq<u8>;

/// Relies on `assembly_pack::md5::MD5Sum::compute`: the MD5 digest of the
/// given bytes; sixteen bytes, a function of the input alone.
#[verifier::external_body]
pub fn md5_bytes(data: &[u8]) -> (r: Digest)
    ensures
        r@ == md5_of(data@),
        r@.len() == 16,
{
    Digest { bytes: assembly_pack::md5::MD5Sum::compute(data).0.to_vec() }
}

/// Outcome of digesting a file on disk.
pub enum Probe {
    /// The file exists and was digested.
    Found(FileMeta),
    /// The file does not exist.
    Missing,
    /// The file could not be read.
    Failed,
}

/// Relies on `assembly_pack::md5::md5sum`: reads the file at `path` and
/// returns its size and MD5 digest. What comes back depends on the disk, so
/// only well-formedness is stated.
#[verifier::external_body]
pub(crate) fn digest_file(path: &[u8]) -> (r: Probe)
    ensures
        r matches Probe::Found(m) ==> m.wf(),
{
    let Ok(p) = std::str::from_utf8(path) else {
        return Probe::Failed;
    };
    match assembly_pack::md5::md5sum(std::path::Path::new(p)) {
        Ok(m) => Probe::Found(
            FileMeta { size: m.size, hash: Digest { bytes: m.hash.0.to_vec() } },
        ),
        Err(e) if e.kind() == std::io::ErrorKind::NotFound => Probe::Missing,
        Err(_) => Probe::Failed,
    }
}

} // verus!
