//! Length-prefixed framing of opaque byte blobs.
//!
//! A frame is the ASCII decimal byte count of the payload, a single NUL
//! terminator, then exactly that many payload bytes. The decimal prefix is
//! self-delimiting: a NUL can never occur among ASCII digits, so no prior
//! agreement on a width is needed.

use vstd::prelude::*;
use vstd::slice::{slice_subrange, slice_to_vec};
use crate::bytes::push_bytes;

verus! {

/// An ASCII decimal digit.
pub open spec fn is_dec_digit(b: u8) -> bool {
    0x30 <= b <= 0x39
}

/// All bytes of `s` are ASCII decimal digits.
pub open spec fn all_dec_digits(s: Seq<u8>) -> bool {
    forall|i: int| 0 <= i < s.len() ==> is_dec_digit(#[trigger] s[i])
}

/// The number denoted by a sequence of ASCII decimal digits.
pub open spec fn dec_val(s: Seq<u8>) -> int
    decreases s.len(),
{
    if s.len() == 0 {
        0
    } else {
        dec_val(s.drop_last()) * 10 + (s.last() - 0x30)
    }
}

/// The shortest ASCII decimal spelling of `v`.
pub open spec fn dec_fmt(v: nat) -> Seq<u8>
    decreases v,
{
    if v < 10 {
        seq![(0x30 + v) as u8]
    } else {
        dec_fmt(v / 10) + seq![(0x30 + v % 10) as u8]
    }
}

/// The index of the first NUL byte of `s`, or `s.len()` if there is none.
pub open spec fn nul_pos(s: Seq<u8>) -> int
    decreases s.len(),
{
    if s.len() == 0 {
        0
    } else if s[0] == 0 {
        0
    } else {
        1 + nul_pos(s.drop_first())
    }
}

/// The length prefix of `s` is well formed: a NUL exists and at least one
/// byte stands before it, all of them decimal digits.
pub open spec fn prefix_ok(s: Seq<u8>) -> bool {
    &&& nul_pos(s) < s.len()
    &&& nul_pos(s) >= 1
    &&& all_dec_digits(s.subrange(0, nul_pos(s)))
}

/// The index one past the framed payload: prefix, NUL, payload.
pub open spec fn frame_end(s: Seq<u8>) -> int
    recommends
        prefix_ok(s),
{
    nul_pos(s) + 1 + dec_val(s.subrange(0, nul_pos(s)))
}

/// Parse one frame from the front of `s`: the payload and the remainder.
/// A malformed prefix and a short payload both fail.
pub open spec fn parse_frame(s: Seq<u8>) -> Option<(Seq<u8>, Seq<u8>)> {
    if !prefix_ok(s) {
        None
    } else if s.len() < frame_end(s) {
        None
    } else {
        Some(
            (
                s.subrange(nul_pos(s) + 1, frame_end(s)),
                s.subrange(frame_end(s), s.len() as int),
            ),
        )
    }
}

/// The frame that carries `payload`.
pub open spec fn frame_bytes(payload: Seq<u8>) -> Seq<u8> {
    dec_fmt(payload.len()) + seq![0u8] + payload
}

/// How reading a frame can fail.
#[derive(Debug, PartialEq, Eq, Structural)]
pub enum CodecError {
    /// No NUL before the end of the input, or an empty or non-decimal prefix.
    MalformedPrefix,
    /// The input ends before the announced payload length.
    ShortPayload,
}

proof fn lemma_dec_fmt_digits(v: nat)
    ensures
        dec_fmt(v).len() >= 1,
        all_dec_digits(dec_fmt(v)),
    decreases v,
{
    if v >= 10 {
        lemma_dec_fmt_digits(v / 10);
        assert forall|i: int| 0 <= i < dec_fmt(v).len() implies is_dec_digit(
            #[trigger] dec_fmt(v)[i],
        ) by {
            if i < dec_fmt(v / 10).len() {
                assert(dec_fmt(v)[i] == dec_fmt(v / 10)[i]);
            }
        }
    }
}

proof fn lemma_dec_val_fmt(v: nat)
    ensures
        dec_val(dec_fmt(v)) == v,
    decreases v,
{
    if v < 10 {
        assert(dec_fmt(v).drop_last() =~= Seq::<u8>::empty());
        assert(dec_fmt(v).last() == (0x30 + v) as u8);
        assert((0x30 + v) as u8 == 0x30 + v);
        assert(dec_fmt(v).len() == 1);
        assert(dec_val(dec_fmt(v)) == dec_val(dec_fmt(v).drop_last()) * 10 + (dec_fmt(
            v,
        ).last() - 0x30));
        assert(dec_val(dec_fmt(v)) == v);
    } else {
        lemma_dec_val_fmt(v / 10);
        assert(dec_fmt(v).drop_last() =~= dec_fmt(v / 10));
        assert(dec_fmt(v).last() == (0x30 + v % 10) as u8);
        assert((0x30 + v % 10) as u8 == 0x30 + v % 10);
        assert(dec_val(dec_fmt(v)) == (v / 10) * 10 + v % 10);
    }
}

pub proof fn lemma_nul_pos_props(s: Seq<u8>)
    ensures
        0 <= nul_pos(s) <= s.len(),
        forall|i: int| 0 <= i < nul_pos(s) ==> s[i] != 0,
        nul_pos(s) < s.len() ==> s[nul_pos(s)] == 0,
    decreases s.len(),
{
    if s.len() > 0 && s[0] != 0 {
        lemma_nul_pos_props(s.drop_first());
        assert forall|i: int| 0 <= i < nul_pos(s) implies s[i] != 0 by {
            if i > 0 {
                assert(s.drop_first()[i - 1] == s[i]);
            }
        }
    }
}

pub proof fn lemma_nul_pos_concat(a: Seq<u8>, b: Seq<u8>)
    requires
        forall|i: int| 0 <= i < a.len() ==> a[i] != 0,
    ensures
        nul_pos(a + seq![0u8] + b) == a.len(),
    decreases a.len(),
{
    let s = a + seq![0u8] + b;
    if a.len() == 0 {
        assert(s[0] == 0);
    } else {
        assert(s[0] == a[0]);
        assert(s.drop_first() =~= a.drop_first() + seq![0u8] + b);
        lemma_nul_pos_concat(a.drop_first(), b);
    }
}

/// Framing round trip: parsing a frame followed by anything else yields the
/// framed payload and leaves the rest untouched.
pub proof fn lemma_frame_round_trip(payload: Seq<u8>, rest: Seq<u8>)
    ensures
        parse_frame(frame_bytes(payload) + rest) == Some((payload, rest)),
{
    let pre = dec_fmt(payload.len());
    let s = frame_bytes(payload) + rest;
    lemma_dec_fmt_digits(payload.len());
    assert forall|i: int| 0 <= i < pre.len() implies pre[i] != 0 by {
        assert(is_dec_digit(pre[i]));
    }
    assert(s =~= pre + seq![0u8] + (payload + rest));
    lemma_nul_pos_concat(pre, payload + rest);
    assert(s.subrange(0, pre.len() as int) =~= pre);
    lemma_dec_val_fmt(payload.len());
    assert(prefix_ok(s));
    assert(frame_end(s) == pre.len() + 1 + payload.len());
    assert(s.subrange(nul_pos(s) + 1, frame_end(s)) =~= payload);
    assert(s.subrange(frame_end(s), s.len() as int) =~= rest);
}

/// Framing round trip for a frame that stands alone.
pub proof fn lemma_frame_round_trip_exact(payload: Seq<u8>)
    ensures
        parse_frame(frame_bytes(payload)) == Some((payload, Seq::<u8>::empty())),
{
    lemma_frame_round_trip(payload, Seq::<u8>::empty());
    assert(frame_bytes(payload) + Seq::<u8>::empty() =~= frame_bytes(payload));
}

fn dec_fmt_exec(v: usize) -> (r: Vec<u8>)
    ensures
        r@ == dec_fmt(v as nat),
    decreases v,
{
    if v < 10 {
        let mut r: Vec<u8> = Vec::new();
        r.push(0x30 + (v as u8));
        proof {
            assert(r@ =~= dec_fmt(v as nat));
        }
        r
    } else {
        let mut r = dec_fmt_exec(v / 10);
        r.push(0x30 + ((v % 10) as u8));
        proof {
            assert(r@ =~= dec_fmt(v as nat));
        }
        r
    }
}

/// Frame a blob for the wire: decimal byte count, NUL, then the bytes.
pub fn write_tarball(tarball: &Vec<u8>) -> (r: Vec<u8>)
    ensures
        r@ == frame_bytes(tarball@),
{
    let mut out = dec_fmt_exec(tarball.len());
    out.push(0u8);
    push_bytes(&mut out, tarball.as_slice());
    proof {
        assert(out@ =~= frame_bytes(tarball@));
    }
    out
}

proof fn lemma_dec_val_nonneg(s: Seq<u8>)
    requires
        all_dec_digits(s),
    ensures
        dec_val(s) >= 0,
    decreases s.len(),
{
    if s.len() > 0 {
        assert(all_dec_digits(s.drop_last())) by {
            assert(forall|i: int|
                0 <= i < s.len() - 1 ==> #[trigger] s.drop_last()[i] == s[i]);
        }
        lemma_dec_val_nonneg(s.drop_last());
        assert(is_dec_digit(s.last()));
    }
}

proof fn lemma_dec_val_prefix_le(s: Seq<u8>, i: int)
    requires
        all_dec_digits(s),
        0 <= i <= s.len(),
    ensures
        dec_val(s.subrange(0, i)) <= dec_val(s),
    decreases s.len() - i,
{
    if i < s.len() {
        let shorter = s.subrange(0, i);
        let longer = s.subrange(0, i + 1);
        assert(all_dec_digits(shorter));
        assert(longer.drop_last() =~= shorter);
        assert(is_dec_digit(longer.last()));
        lemma_dec_val_nonneg(shorter);
        assert(dec_val(longer) == dec_val(shorter) * 10 + (longer.last() - 0x30));
        lemma_dec_val_prefix_le(s, i + 1);
    } else {
        assert(s.subrange(0, i) =~= s);
    }
}

/// Read one frame from the front of an in-memory blob. On success the
/// payload and the number of bytes consumed come back.
pub fn read_tarball(input: &[u8]) -> (r: Result<(Vec<u8>, usize), CodecError>)
    ensures
        r == Err::<(Vec<u8>, usize), CodecError>(CodecError::MalformedPrefix) <==> !prefix_ok(
            input@,
        ),
        r == Err::<(Vec<u8>, usize), CodecError>(CodecError::ShortPayload) <==> (prefix_ok(input@)
            && input@.len() < frame_end(input@)),
        r matches Ok(pu) ==> {
            &&& parse_frame(input@) == Some(
                (pu.0@, input@.subrange(pu.1 as int, input@.len() as int)),
            )
            &&& pu.1 <= input@.len()
        },
{
    proof {
        lemma_nul_pos_props(input@);
    }
    let len = input.len();
    let mut k: usize = 0;
    while k < len && input[k] != 0
        invariant
            0 <= k <= len,
            len == input@.len(),
            forall|i: int| 0 <= i < k ==> input@[i] != 0,
        decreases len - k,
    {
        k = k + 1;
    }
    if k == len {
        proof {
            assert(nul_pos(input@) == len);
        }
        return Err(CodecError::MalformedPrefix);
    }
    proof {
        assert(input@[k as int] == 0);
        assert(nul_pos(input@) == k);
    }
    if k == 0 {
        return Err(CodecError::MalformedPrefix);
    }
    let ghost pre = input@.subrange(0, k as int);
    let mut n: usize = 0;
    let mut i: usize = 0;
    let mut overflowed = false;
    let ghost mut ov_end: int = 0;
    while i < k
        invariant
            0 <= i <= k < len,
            1 <= k,
            len == input@.len(),
            nul_pos(input@) == k as int,
            pre == input@.subrange(0, k as int),
            all_dec_digits(input@.subrange(0, i as int)),
            !overflowed ==> n == dec_val(input@.subrange(0, i as int)),
            overflowed ==> 0 <= ov_end <= i && dec_val(input@.subrange(0, ov_end))
                > usize::MAX,
        decreases k - i,
    {
        let b = input[i];
        if b < 0x30 || b > 0x39 {
            proof {
                assert(pre[i as int] == input@[i as int]);
                assert(!is_dec_digit(pre[i as int]));
            }
            return Err(CodecError::MalformedPrefix);
        }
        proof {
            assert(input@.subrange(0, (i + 1) as int).drop_last() =~= input@.subrange(
                0,
                i as int,
            ));
            assert(all_dec_digits(input@.subrange(0, (i + 1) as int)));
        }
        if !overflowed {
            let next = match n.checked_mul(10) {
                Some(m) => m.checked_add((b - 0x30) as usize),
                None => None,
            };
            match next {
                Some(m) => {
                    n = m;
                },
                None => {
                    overflowed = true;
                    proof {
                        ov_end = i + 1;
                        assert(dec_val(input@.subrange(0, i + 1)) == dec_val(
                            input@.subrange(0, i as int),
                        ) * 10 + (b - 0x30));
                    }
                },
            }
        }
        i = i + 1;
    }
    proof {
        assert(input@.subrange(0, i as int) =~= pre);
        assert(prefix_ok(input@));
    }
    if overflowed {
        proof {
            lemma_dec_val_prefix_le(pre, ov_end);
            assert(pre.subrange(0, ov_end) =~= input@.subrange(0, ov_end));
            assert(input@.len() < frame_end(input@));
        }
        return Err(CodecError::ShortPayload);
    }
    if n > len - k - 1 {
        proof {
            assert(input@.len() < frame_end(input@));
        }
        return Err(CodecError::ShortPayload);
    }
    let start = k + 1;
    let payload = slice_to_vec(slice_subrange(input, start, start + n));
    proof {
        assert(input@.len() >= frame_end(input@));
        assert(payload@ =~= input@.subrange(nul_pos(input@) + 1, frame_end(input@)));
    }
    Ok((payload, start + n))
}

/// A well formed prefix as handed over by a delimiter-inclusive line read:
/// at least one decimal digit, then the NUL terminator.
pub open spec fn parse_prefix(s: Seq<u8>) -> Option<int> {
    if s.len() >= 2 && s.last() == 0 && all_dec_digits(s.subrange(0, s.len() - 1)) {
        Some(dec_val(s.subrange(0, s.len() - 1)))
    } else {
        None
    }
}

/// Parse a frame prefix (digits plus trailing NUL) to the payload length.
/// `None` when the prefix is malformed or the length does not fit `usize`.
pub fn parse_frame_prefix(prefix: &[u8]) -> (r: Option<usize>)
    ensures
        r matches Some(n) ==> parse_prefix(prefix@) == Some(n as int),
        r is None ==> !(parse_prefix(prefix@) matches Some(v) && v <= usize::MAX),
{
    let len = prefix.len();
    if len < 2 {
        return None;
    }
    if prefix[len - 1] != 0 {
        return None;
    }
    let ghost digits = prefix@.subrange(0, prefix@.len() - 1);
    let mut n: usize = 0;
    let mut i: usize = 0;
    while i < len - 1
        invariant
            0 <= i <= len - 1,
            len == prefix@.len(),
            len >= 2,
            digits == prefix@.subrange(0, prefix@.len() - 1),
            all_dec_digits(prefix@.subrange(0, i as int)),
            n == dec_val(prefix@.subrange(0, i as int)),
        decreases len - 1 - i,
    {
        let b = prefix[i];
        if b < 0x30 || b > 0x39 {
            proof {
                assert(digits[i as int] == prefix@[i as int]);
                assert(!is_dec_digit(digits[i as int]));
            }
            return None;
        }
        proof {
            assert(prefix@.subrange(0, (i + 1) as int).drop_last() =~= prefix@.subrange(
                0,
                i as int,
            ));
            assert(all_dec_digits(prefix@.subrange(0, (i + 1) as int)));
        }
        let next = match n.checked_mul(10) {
            Some(m) => m.checked_add((b - 0x30) as usize),
            None => None,
        };
        match next {
            Some(m) => {
                n = m;
            },
            None => {
                proof {
                    let part = prefix@.subrange(0, (i + 1) as int);
                    assert(dec_val(part) == dec_val(prefix@.subrange(0, i as int)) * 10 + (b
                        - 0x30));
                    assert(dec_val(part) > usize::MAX);
                    if all_dec_digits(digits) {
                        lemma_dec_val_prefix_le(digits, i + 1);
                        assert(digits.subrange(0, (i + 1) as int) =~= part);
                    }
                }
                return None;
            },
        }
        i = i + 1;
    }
    proof {
        assert(prefix@.subrange(0, i as int) =~= digits);
    }
    Some(n)
}

} // verus!
