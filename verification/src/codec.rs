//! Decimal and hexadecimal text codecs.
//!
//! The manifest and quickcheck files are line-oriented text; sizes and
//! version numbers appear as decimal numbers and digests as 32 lowercase hex
//! digits. Encoding and decoding are verified to round-trip.

use vstd::prelude::*;

verus! {

/// ASCII decimal digit.
pub open spec fn is_dec_digit(b: u8) -> bool {
    48 <= b <= 57
}

/// ASCII hex digit in the canonical lowercase form the codec emits and
/// accepts.
pub open spec fn is_hex_digit(b: u8) -> bool {
    is_dec_digit(b) || (97 <= b <= 102)
}

/// The decimal digit string of `n`, most significant digit first.
pub open spec fn dec_digits(n: nat) -> Seq<u8>
    decreases n,
{
    if n < 10 {
        seq![(48 + n) as u8]
    } else {
        dec_digits(n / 10) + seq![(48 + n % 10) as u8]
    }
}

/// The numeric value of a digit string (most significant first).
pub open spec fn dec_val(s: Seq<u8>) -> nat
    decreases s.len(),
{
    if s.len() == 0 {
        0
    } else {
        dec_val(s.drop_last()) * 10 + (if s.last() >= 48 {
            (s.last() - 48) as nat
        } else {
            0
        })
    }
}

/// End of the maximal run of decimal digits starting at `i`.
pub open spec fn dec_run_end(s: Seq<u8>, i: int) -> int
    decreases s.len() - i,
{
    if i < 0 {
        i
    } else if i >= s.len() || !is_dec_digit(s[i]) {
        i
    } else {
        dec_run_end(s, i + 1)
    }
}

pub proof fn lemma_dec_run_end_bounds(s: Seq<u8>, i: int)
    requires
        0 <= i <= s.len(),
    ensures
        i <= dec_run_end(s, i) <= s.len(),
        forall|j: int| i <= j < dec_run_end(s, i) ==> is_dec_digit(s[j]),
        dec_run_end(s, i) < s.len() ==> !is_dec_digit(s[dec_run_end(s, i)]),
    decreases s.len() - i,
{
    if i < s.len() && is_dec_digit(s[i]) {
        lemma_dec_run_end_bounds(s, i + 1);
    }
}

/// Every digit of `dec_digits` is an ASCII digit, and the string is nonempty.
pub proof fn lemma_dec_digits_wf(n: nat)
    ensures
        dec_digits(n).len() >= 1,
        forall|j: int| 0 <= j < dec_digits(n).len() ==> is_dec_digit(#[trigger] dec_digits(n)[j]),
    decreases n,
{
    if n >= 10 {
        lemma_dec_digits_wf(n / 10);
    }
}

/// Decoding inverts encoding.
pub proof fn lemma_dec_round_trip(n: nat)
    ensures
        dec_val(dec_digits(n)) == n,
    decreases n,
{
    if n < 10 {
        let s = dec_digits(n);
        assert(s.drop_last() =~= Seq::<u8>::empty());
        assert(dec_val(s.drop_last()) == 0);
        assert(s.last() == (48 + n) as u8);
        assert(dec_val(s) == n);
    } else {
        lemma_dec_round_trip(n / 10);
        let s = dec_digits(n);
        assert(s.drop_last() =~= dec_digits(n / 10));
        assert(dec_val(s.drop_last()) == n / 10);
        assert(s.last() == (48 + n % 10) as u8);
        assert(dec_val(s) == dec_val(s.drop_last()) * 10 + (s.last() - 48) as nat);
        vstd::arithmetic::div_mod::lemma_fundamental_div_mod(n as int, 10);
        assert(n == 10 * (n / 10) + n % 10);
        assert(dec_val(s) == n);
    }
}

/// Appending a digit multiplies the value by ten and adds the digit.
pub proof fn lemma_dec_val_push(s: Seq<u8>, d: u8)
    requires
        d >= 48,
    ensures
        dec_val(s + seq![d]) == dec_val(s) * 10 + (d - 48),
{
    let t = s + seq![d];
    assert(t.drop_last() =~= s);
    assert(t.last() == d);
}

/// A digit string's value never shrinks as it is extended.
pub proof fn lemma_dec_val_prefix_le(s: Seq<u8>, i: int, j: int, k: int)
    requires
        0 <= i <= j <= k <= s.len(),
    ensures
        dec_val(s.subrange(i, j)) <= dec_val(s.subrange(i, k)),
    decreases k - j,
{
    if j < k {
        let a = s.subrange(i, j);
        let b = s.subrange(i, j + 1);
        assert(b.drop_last() =~= a);
        assert(dec_val(b) == dec_val(a) * 10 + (if b.last() >= 48 {
            (b.last() - 48) as nat
        } else {
            0
        }));
        assert(dec_val(a) <= dec_val(a) * 10) by (nonlinear_arith);
        lemma_dec_val_prefix_le(s, i, j + 1, k);
    } else {
        assert(s.subrange(i, j) =~= s.subrange(i, k));
    }
}

/// Append the decimal digits of `n` to `out`.
pub fn push_dec_u64(out: &mut Vec<u8>, n: u64)
    ensures
        final(out)@ == old(out)@ + dec_digits(n as nat),
    decreases n,
{
    if n < 10 {
        out.push(48 + n as u8);
        assert(out@ =~= old(out)@ + dec_digits(n as nat));
    } else {
        push_dec_u64(out, n / 10);
        out.push(48 + (n % 10) as u8);
        assert(out@ =~= old(out)@ + dec_digits(n as nat));
    }
}

/// Append the decimal digits of `n` to `out`.
pub fn push_dec_u32(out: &mut Vec<u8>, n: u32)
    ensures
        final(out)@ == old(out)@ + dec_digits(n as nat),
{
    push_dec_u64(out, n as u64);
}

/// Parse the maximal decimal digit run starting at `i` as a `u64`.
///
/// Fails exactly when there is no digit at `i` or the run's value does not
/// fit in a `u64`.
pub fn parse_dec_u64(s: &[u8], i: usize) -> (r: Option<(u64, usize)>)
    requires
        i <= s@.len(),
    ensures
        ({
            let e = dec_run_end(s@, i as int);
            match r {
                Some((v, j)) => j == e && i < e && v as nat == dec_val(
                    s@.subrange(i as int, e),
                ),
                None => i as int == e || dec_val(s@.subrange(i as int, e)) > u64::MAX,
            }
        }),
{
    proof {
        lemma_dec_run_end_bounds(s@, i as int);
    }
    let ghost e = dec_run_end(s@, i as int);
    if i >= s.len() || !(48 <= s[i] && s[i] <= 57) {
        return None;
    }
    let mut v: u128 = 0;
    let mut j: usize = i;
    while j < s.len() && 48 <= s[j] && s[j] <= 57
        invariant
            i <= j <= e <= s@.len(),
            s@.len() == s.len(),
            v as nat == dec_val(s@.subrange(i as int, j as int)),
            v <= u64::MAX,
            e == dec_run_end(s@, i as int),
            forall|k: int| i <= k < e ==> is_dec_digit(s@[k]),
            e < s@.len() ==> !is_dec_digit(s@[e]),
        decreases s@.len() - j,
    {
        assert(j < e);
        let d = s[j];
        let v2: u128 = v * 10 + (d - 48) as u128;
        proof {
            lemma_dec_val_push(s@.subrange(i as int, j as int), d);
            assert(s@.subrange(i as int, j as int + 1) =~= s@.subrange(i as int, j as int)
                + seq![d]);
        }
        if v2 > u64::MAX as u128 {
            proof {
                lemma_dec_val_prefix_le(s@, i as int, j as int + 1, e);
            }
            return None;
        }
        v = v2;
        j = j + 1;
    }
    proof {
        assert(j == e);
        assert(e > i) by {
            lemma_dec_run_end_bounds(s@, i as int + 1);
        }
    }
    Some((v as u64, j))
}

/// Parse the maximal decimal digit run starting at `i` as a `u32`.
///
/// Fails exactly when there is no digit at `i` or the run's value does not
/// fit in a `u32`.
pub fn parse_dec_u32(s: &[u8], i: usize) -> (r: Option<(u32, usize)>)
    requires
        i <= s@.len(),
    ensures
        ({
            let e = dec_run_end(s@, i as int);
            match r {
                Some((v, j)) => j == e && i < e && v as nat == dec_val(
                    s@.subrange(i as int, e),
                ),
                None => i as int == e || dec_val(s@.subrange(i as int, e)) > u32::MAX,
            }
        }),
{
    proof {
        lemma_dec_run_end_bounds(s@, i as int);
    }
    match parse_dec_u64(s, i) {
        None => {
            proof {
                let e = dec_run_end(s@, i as int);
                if i as int != e {
                    assert(dec_val(s@.subrange(i as int, e)) > u64::MAX);
                }
            }
            None
        },
        Some((v, j)) => {
            if v > u32::MAX as u64 {
                None
            } else {
                Some((v as u32, j))
            }
        },
    }
}

/// The lowercase hex digit for a value below sixteen.
pub open spec fn hex_digit(v: u8) -> u8 {
    if v < 10 {
        (48 + v) as u8
    } else {
        (87 + v) as u8
    }
}

/// The value of a hex digit byte.
pub open spec fn hex_digit_val(b: u8) -> u8 {
    if 48 <= b <= 57 {
        (b - 48) as u8
    } else if 97 <= b <= 102 {
        (b - 87) as u8
    } else {
        0
    }
}

/// The lowercase hex string of a byte string: two digits per byte.
pub open spec fn hex_of(bytes: Seq<u8>) -> Seq<u8> {
    Seq::new(bytes.len() * 2, |i: int| hex_digit(if i % 2 == 0 {
        bytes[i / 2] / 16
    } else {
        bytes[i / 2] % 16
    }))
}

/// Append the lowercase hex digits of `bytes` to `out`.
pub fn push_hex(out: &mut Vec<u8>, bytes: &[u8])
    ensures
        final(out)@ == old(out)@ + hex_of(bytes@),
{
    let n = bytes.len();
    let mut i: usize = 0;
    while i < n
        invariant
            0 <= i <= n,
            n == bytes@.len(),
            out@ =~= old(out)@ + hex_of(bytes@).subrange(0, 2 * i),
        decreases n - i,
    {
        let b = bytes[i];
        let hi = b / 16;
        let lo = b % 16;
        let c1 = if hi < 10 {
            48 + hi
        } else {
            87 + hi
        };
        let c2 = if lo < 10 {
            48 + lo
        } else {
            87 + lo
        };
        out.push(c1);
        out.push(c2);
        proof {
            assert(hex_of(bytes@).subrange(0, 2 * (i + 1)) =~= hex_of(bytes@).subrange(
                0,
                2 * i as int,
            ) + seq![c1, c2]);
        }
        i = i + 1;
    }
    proof {
        assert(hex_of(bytes@).subrange(0, 2 * n as int) =~= hex_of(bytes@));
    }
}

/// Parse exactly `count` bytes from `2 * count` hex digits at `i`.
///
/// Fails exactly when fewer than `2 * count` bytes remain or some byte in
/// that window is not a hex digit.
pub fn parse_hex(s: &[u8], i: usize, count: usize) -> (r: Option<(Vec<u8>, usize)>)
    requires
        i <= s@.len(),
        count <= 16,
    ensures
        ({
            let w = 2 * count;
            match r {
                Some((v, j)) => {
                    &&& j == i + w
                    &&& i + w <= s@.len()
                    &&& (forall|k: int| i <= k < i + w ==> is_hex_digit(s@[k]))
                    &&& v@.len() == count
                    &&& (forall|t: int|
                        0 <= t < count ==> v@[t] == hex_digit_val(s@[i + 2 * t]) * 16
                            + hex_digit_val(s@[i + 2 * t + 1]))
                },
                None => i + w > s@.len() || exists|k: int|
                    i <= k < i + w && !is_hex_digit(#[trigger] s@[k]),
            }
        }),
{
    let w = 2 * count;
    let n_total = s.len();
    if n_total - i < w {
        return None;
    }
    let mut v: Vec<u8> = Vec::new();
    let mut k: usize = 0;
    while k < count
        invariant
            0 <= k <= count,
            count <= 16,
            w == 2 * count,
            i + w <= n_total,
            n_total == s@.len(),
            v@.len() == k,
            forall|t: int| i <= t < i + 2 * k ==> is_hex_digit(s@[t]),
            forall|t: int|
                0 <= t < k ==> v@[t] == hex_digit_val(s@[i + 2 * t]) * 16 + hex_digit_val(
                    s@[i + 2 * t + 1],
                ),
        decreases count - k,
    {
        let c1 = s[i + 2 * k];
        let c2 = s[i + 2 * k + 1];
        let hi: u8;
        let lo: u8;
        if 48 <= c1 && c1 <= 57 {
            hi = c1 - 48;
        } else if 97 <= c1 && c1 <= 102 {
            hi = c1 - 87;
        } else {
            return None;
        }
        if 48 <= c2 && c2 <= 57 {
            lo = c2 - 48;
        } else if 97 <= c2 && c2 <= 102 {
            lo = c2 - 87;
        } else {
            return None;
        }
        let b = hi * 16 + lo;
        v.push(b);
        k = k + 1;
    }
    Some((v, i + w))
}

/// A hex digit decodes to the value it encodes.
pub proof fn lemma_hex_digit_round_trip(x: u8)
    requires
        x < 16,
    ensures
        hex_digit_val(hex_digit(x)) == x,
        is_hex_digit(hex_digit(x)),
{
}

/// Parsing the hex string of `bytes` gives back `bytes`.
///
/// `v` is any sequence satisfying the nibble equations that `parse_hex`
/// establishes over a window holding `hex_of(bytes)`.
pub proof fn lemma_hex_round_trip(bytes: Seq<u8>, v: Seq<u8>, s: Seq<u8>, i: int)
    requires
        0 <= i,
        i + 2 * bytes.len() <= s.len(),
        forall|t: int| 0 <= t < 2 * bytes.len() ==> s[i + t] == hex_of(bytes)[t],
        v.len() == bytes.len(),
        forall|t: int|
            0 <= t < bytes.len() ==> v[t] == hex_digit_val(s[i + 2 * t]) * 16 + hex_digit_val(
                s[i + 2 * t + 1],
            ),
    ensures
        v =~= bytes,
{
    assert forall|t: int| 0 <= t < bytes.len() implies v[t] == bytes[t] by {
        assert(s[i + 2 * t] == hex_of(bytes)[2 * t]);
        assert(s[i + 2 * t + 1] == hex_of(bytes)[2 * t + 1]);
        assert((2 * t) / 2 == t && (2 * t) % 2 == 0 && (2 * t + 1) / 2 == t && (2 * t + 1) % 2
            == 1);
        lemma_hex_digit_round_trip(bytes[t] / 16);
        lemma_hex_digit_round_trip(bytes[t] % 16);
        assert(bytes[t] == (bytes[t] / 16) * 16 + bytes[t] % 16) by {
            vstd::arithmetic::div_mod::lemma_fundamental_div_mod(bytes[t] as int, 16);
        }
    }
}

/// Every byte of a hex string is a hex digit.
pub proof fn lemma_hex_of_digits(bytes: Seq<u8>)
    ensures
        forall|t: int| 0 <= t < 2 * bytes.len() ==> is_hex_digit(#[trigger] hex_of(bytes)[t]),
{
    assert forall|t: int| 0 <= t < 2 * bytes.len() implies is_hex_digit(
        #[trigger] hex_of(bytes)[t],
    ) by {
        if t % 2 == 0 {
            lemma_hex_digit_round_trip(bytes[t / 2] / 16);
        } else {
            lemma_hex_digit_round_trip(bytes[t / 2] % 16);
        }
    }
}


/// A nonempty digit string with no redundant leading zero has a positive
/// value when it does not start with `0`.
pub proof fn lemma_dec_val_positive(s: Seq<u8>)
    requires
        s.len() >= 1,
        forall|i: int| 0 <= i < s.len() ==> is_dec_digit(#[trigger] s[i]),
        s[0] != 48,
    ensures
        dec_val(s) >= 1,
    decreases s.len(),
{
    if s.len() == 1 {
        assert(s.drop_last() =~= Seq::<u8>::empty());
    } else {
        let t = s.drop_last();
        assert(t[0] == s[0]);
        lemma_dec_val_positive(t);
        assert(dec_val(s) == dec_val(t) * 10 + (if s.last() >= 48 {
            (s.last() - 48) as nat
        } else {
            0
        }));
        assert(dec_val(t) * 10 >= 10) by (nonlinear_arith)
            requires
                dec_val(t) >= 1,
        ;
    }
}

/// A digit string without a redundant leading zero is the canonical digit
/// string of its value: decimal text in this form is unambiguous.
pub proof fn lemma_dec_digits_exact(s: Seq<u8>)
    requires
        s.len() >= 1,
        forall|i: int| 0 <= i < s.len() ==> is_dec_digit(#[trigger] s[i]),
        s.len() > 1 ==> s[0] != 48,
    ensures
        s =~= dec_digits(dec_val(s)),
    decreases s.len(),
{
    if s.len() == 1 {
        assert(s.drop_last() =~= Seq::<u8>::empty());
        assert(dec_val(s.drop_last()) == 0);
        assert(s.last() == s[0]);
        assert(is_dec_digit(s[0]));
        assert(dec_val(s) == (s[0] - 48) as nat);
        assert(dec_digits(dec_val(s)) =~= seq![s[0]]);
        assert(s =~= seq![s[0]]);
    } else {
        let t = s.drop_last();
        let d = s.last();
        assert(t[0] == s[0]);
        assert(forall|i: int| 0 <= i < t.len() ==> is_dec_digit(#[trigger] t[i])) by {
            assert(forall|i: int| 0 <= i < t.len() ==> t[i] == s[i]);
        }
        lemma_dec_digits_exact(t);
        lemma_dec_val_positive(t);
        let v = dec_val(s);
        let vt = dec_val(t);
        assert(v == vt * 10 + (d - 48));
        assert(v >= 10) by (nonlinear_arith)
            requires
                vt >= 1,
                v == vt * 10 + (d - 48),
                d >= 48,
        ;
        vstd::arithmetic::div_mod::lemma_fundamental_div_mod_converse_div(
            v as int,
            10,
            vt as int,
            (d - 48) as int,
        );
        vstd::arithmetic::div_mod::lemma_fundamental_div_mod_converse_mod(
            v as int,
            10,
            vt as int,
            (d - 48) as int,
        );
        assert(v / 10 == vt && v % 10 == (d - 48) as nat);
        assert(dec_digits(v) == dec_digits(vt) + seq![(48 + v % 10) as u8]);
        assert(s =~= t + seq![d]);
    }
}

/// The canonical digit string never starts with a redundant zero.
pub proof fn lemma_dec_digits_no_leading_zero(n: nat)
    ensures
        dec_digits(n).len() > 1 ==> dec_digits(n)[0] != 48,
    decreases n,
{
    if n >= 10 {
        assert(n / 10 >= 1) by (nonlinear_arith)
            requires
                n >= 10,
        ;
        lemma_dec_digits_wf(n / 10);
        assert(dec_digits(n) == dec_digits(n / 10) + seq![(48 + n % 10) as u8]);
        assert(dec_digits(n)[0] == dec_digits(n / 10)[0]);
        if n / 10 < 10 {
            assert(dec_digits(n / 10) == seq![(48 + n / 10) as u8]);
            assert(dec_digits(n / 10)[0] == (48 + n / 10) as u8);
        } else {
            lemma_dec_digits_no_leading_zero(n / 10);
            lemma_dec_digits_wf(n / 10 / 10);
            assert(dec_digits(n / 10) == dec_digits(n / 10 / 10) + seq![(48 + (n / 10) % 10) as u8]);
            assert(dec_digits(n / 10).len() > 1);
        }
    }
}

/// A window of hex digits that decodes to `v` is the hex string of `v`:
/// lowercase hex text is unambiguous.
pub proof fn lemma_hex_window_exact(s: Seq<u8>, i: int, v: Seq<u8>)
    requires
        0 <= i,
        i + 2 * v.len() <= s.len(),
        forall|k: int| i <= k < i + 2 * v.len() ==> is_hex_digit(#[trigger] s[k]),
        forall|t: int|
            0 <= t < v.len() ==> v[t] == hex_digit_val(s[i + 2 * t]) * 16 + hex_digit_val(
                s[i + 2 * t + 1],
            ),
    ensures
        s.subrange(i, i + 2 * v.len()) =~= hex_of(v),
{
    assert forall|w: int| 0 <= w < 2 * v.len() implies s.subrange(i, i + 2 * v.len())[w]
        == hex_of(v)[w] by {
        let t = w / 2;
        vstd::arithmetic::div_mod::lemma_fundamental_div_mod(w, 2);
        assert(0 <= t < v.len());
        let c1 = s[i + 2 * t];
        let c2 = s[i + 2 * t + 1];
        assert(is_hex_digit(c1) && is_hex_digit(c2));
        assert(hex_digit_val(c1) < 16 && hex_digit_val(c2) < 16);
        assert(v[t] == hex_digit_val(c1) * 16 + hex_digit_val(c2));
        assert(v[t] / 16 == hex_digit_val(c1) && v[t] % 16 == hex_digit_val(c2)) by {
            vstd::arithmetic::div_mod::lemma_fundamental_div_mod_converse_div(
                v[t] as int,
                16,
                hex_digit_val(c1) as int,
                hex_digit_val(c2) as int,
            );
            vstd::arithmetic::div_mod::lemma_fundamental_div_mod_converse_mod(
                v[t] as int,
                16,
                hex_digit_val(c1) as int,
                hex_digit_val(c2) as int,
            );
        }
        assert(hex_digit(hex_digit_val(c1)) == c1);
        assert(hex_digit(hex_digit_val(c2)) == c2);
        if w % 2 == 0 {
            assert(w == 2 * t);
            assert(hex_of(v)[w] == hex_digit(v[t] / 16));
        } else {
            assert(w == 2 * t + 1);
            assert(hex_of(v)[w] == hex_digit(v[t] % 16));
        }
    }
}

} // verus!
