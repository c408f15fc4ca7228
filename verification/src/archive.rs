//! A byte-level model of the tar archives this crate exchanges.
//!
//! The model covers the classic 512-byte header blocks: octal numeric
//! fields cut at the first NUL and trimmed of spaces, the header checksum
//! computed with the checksum field read as eight spaces, the `ustar`
//! name/prefix path convention, and payloads padded to whole blocks. An
//! archive ends at the first all-zero block; writers emit two of them.

use vstd::prelude::*;
use vstd::slice::{slice_subrange, slice_to_vec};
use crate::bytes::{push_bytes, push_zero_bytes, zero_bytes};
use crate::tarball_codec::nul_pos;

verus! {

/// An ASCII octal digit.
pub open spec fn is_octal_digit(b: u8) -> bool {
    0x30 <= b <= 0x37
}

/// All bytes of `s` are ASCII octal digits.
pub open spec fn all_octal_digits(s: Seq<u8>) -> bool {
    forall|i: int| 0 <= i < s.len() ==> is_octal_digit(#[trigger] s[i])
}

/// The number denoted by a sequence of ASCII octal digits.
pub open spec fn octal_fold(s: Seq<u8>) -> int
    decreases s.len(),
{
    if s.len() == 0 {
        0
    } else {
        octal_fold(s.drop_last()) * 8 + (s.last() - 0x30)
    }
}

/// `v % 8^w` spelled as `w` zero-padded ASCII octal digits.
pub open spec fn octal_fmt(v: nat, w: nat) -> Seq<u8>
    decreases w,
{
    if w == 0 {
        Seq::empty()
    } else {
        octal_fmt(v / 8, (w - 1) as nat) + seq![(0x30 + v % 8) as u8]
    }
}

/// `8^w`.
pub open spec fn pow8(w: nat) -> nat
    decreases w,
{
    if w == 0 {
        1
    } else {
        8 * pow8((w - 1) as nat)
    }
}

/// The number of leading space bytes of `s`.
pub open spec fn lstrip_start(s: Seq<u8>) -> int
    decreases s.len(),
{
    if s.len() > 0 && s[0] == 0x20 {
        1 + lstrip_start(s.drop_first())
    } else {
        0
    }
}

/// The index before the trailing space bytes of `s`.
pub open spec fn rstrip_end(s: Seq<u8>) -> int
    decreases s.len(),
{
    if s.len() > 0 && s.last() == 0x20 {
        rstrip_end(s.drop_last())
    } else {
        s.len() as int
    }
}

/// `s` with leading and trailing spaces removed.
pub open spec fn trimmed(s: Seq<u8>) -> Seq<u8> {
    if lstrip_start(s) < rstrip_end(s) {
        s.subrange(lstrip_start(s), rstrip_end(s))
    } else {
        Seq::empty()
    }
}

/// A numeric tar header field: the bytes before the first NUL, trimmed of
/// spaces, read as octal. At least one digit must remain.
pub open spec fn parse_octal_field(f: Seq<u8>) -> Option<int> {
    let t = trimmed(f.subrange(0, nul_pos(f)));
    if t.len() > 0 && all_octal_digits(t) {
        Some(octal_fold(t))
    } else {
        None
    }
}

/// The size field of a header, bytes 124 to 136.
pub open spec fn size_field(h: Seq<u8>) -> Seq<u8> {
    h.subrange(124, 136)
}

/// The checksum field of a header, bytes 148 to 156.
pub open spec fn cksum_field(h: Seq<u8>) -> Seq<u8> {
    h.subrange(148, 156)
}

/// The payload size a header announces. The base-256 extension (high bit
/// of the first size byte) is not part of this model.
pub open spec fn header_size(h: Seq<u8>) -> Option<nat> {
    if h[124] >= 0x80 {
        None
    } else {
        match parse_octal_field(size_field(h)) {
            Some(v) => if v >= 0 {
                Some(v as nat)
            } else {
                None
            },
            None => None,
        }
    }
}

/// The header bytes as they enter the checksum: the checksum field itself
/// reads as eight spaces.
pub open spec fn cksum_input(h: Seq<u8>) -> Seq<u8> {
    Seq::new(512, |i: int| if 148 <= i < 156 { 0x20u8 } else { h[i] })
}

/// The sum of a sequence of bytes.
pub open spec fn sum_bytes(s: Seq<u8>) -> nat
    decreases s.len(),
{
    if s.len() == 0 {
        0
    } else {
        sum_bytes(s.drop_last()) + (s.last() as nat)
    }
}

/// The checksum a header ought to carry.
pub open spec fn header_cksum(h: Seq<u8>) -> nat {
    sum_bytes(cksum_input(h))
}

/// The stored checksum parses and matches the computed one.
pub open spec fn cksum_ok(h: Seq<u8>) -> bool {
    parse_octal_field(cksum_field(h)) == Some(header_cksum(h) as int)
}

/// A parseable header block: full length, valid checksum, readable size.
pub open spec fn wf_header(h: Seq<u8>) -> bool {
    &&& h.len() == 512
    &&& cksum_ok(h)
    &&& header_size(h) is Some
}

/// The entry is a regular file: type flag `'0'` or the old NUL spelling.
pub open spec fn is_regular(h: Seq<u8>) -> bool {
    h[156] == 0 || h[156] == 0x30
}

/// The bytes of `s` before the first NUL.
pub open spec fn cut_nul(s: Seq<u8>) -> Seq<u8> {
    s.subrange(0, nul_pos(s))
}

/// The header carries the POSIX `ustar` magic and version, which makes the
/// prefix field significant.
pub open spec fn is_posix_ustar(h: Seq<u8>) -> bool {
    &&& h[257] == 0x75
    &&& h[258] == 0x73
    &&& h[259] == 0x74
    &&& h[260] == 0x61
    &&& h[261] == 0x72
    &&& h[262] == 0
    &&& h[263] == 0x30
    &&& h[264] == 0x30
}

/// The path a header names: the NUL-cut name field, preceded by the
/// NUL-cut prefix field and a slash when the `ustar` prefix is in use.
pub open spec fn header_path(h: Seq<u8>) -> Seq<u8> {
    let name = cut_nul(h.subrange(0, 100));
    let prefix = cut_nul(h.subrange(345, 500));
    if is_posix_ustar(h) && prefix.len() > 0 {
        prefix + seq![0x2fu8] + name
    } else {
        name
    }
}

/// One tar entry: its 512-byte header block and its payload bytes.
pub struct TarEntry {
    pub header: Vec<u8>,
    pub payload: Vec<u8>,
}

/// The mathematical shape of a tar entry.
pub ghost struct EntryModel {
    pub header: Seq<u8>,
    pub payload: Seq<u8>,
}

impl View for TarEntry {
    type V = EntryModel;

    open spec fn view(&self) -> EntryModel {
        EntryModel { header: self.header@, payload: self.payload@ }
    }
}

/// The models of a sequence of entries.
pub open spec fn entry_models(s: Seq<TarEntry>) -> Seq<EntryModel> {
    s.map_values(|e: TarEntry| e@)
}

/// A well-formed entry: parseable header whose size equals the payload length.
pub open spec fn wf_entry(e: EntryModel) -> bool {
    &&& wf_header(e.header)
    &&& header_size(e.header) == Some(e.payload.len())
}

/// All entries of `es` are well formed.
pub open spec fn wf_entries(es: Seq<EntryModel>) -> bool {
    forall|i: int| 0 <= i < es.len() ==> wf_entry(#[trigger] es[i])
}

/// The zero bytes that pad a payload of `n` bytes to a whole block.
pub open spec fn pad_len(n: nat) -> nat {
    if n % 512 == 0 {
        0
    } else {
        (512 - n % 512) as nat
    }
}

/// The bytes one entry occupies: header, payload, padding.
pub open spec fn entry_bytes(e: EntryModel) -> Seq<u8> {
    e.header + e.payload + zero_bytes(pad_len(e.payload.len()))
}

/// The bytes of the entries of an archive, without the trailer.
pub open spec fn entries_bytes(es: Seq<EntryModel>) -> Seq<u8>
    decreases es.len(),
{
    if es.len() == 0 {
        Seq::empty()
    } else {
        entry_bytes(es[0]) + entries_bytes(es.drop_first())
    }
}

/// The bytes of a whole archive: the entries, then two zero blocks.
pub open spec fn tar_bytes(es: Seq<EntryModel>) -> Seq<u8> {
    entries_bytes(es) + zero_bytes(1024)
}

/// Parse an archive from the front of `s`: entries until the first
/// all-zero block or the end of the input; anything after a zero block is
/// trailer and is ignored. A short or unreadable header fails, as does a
/// payload cut off before its padded end.
pub open spec fn parse_tar(s: Seq<u8>) -> Option<Seq<EntryModel>>
    decreases s.len(),
{
    if s.len() == 0 {
        Some(Seq::empty())
    } else if s.len() < 512 {
        None
    } else {
        let h = s.subrange(0, 512);
        if h == zero_bytes(512) {
            Some(Seq::empty())
        } else if !(cksum_ok(h) && header_size(h) is Some) {
            None
        } else {
            let size = header_size(h).unwrap();
            let total = 512 + size + pad_len(size);
            if s.len() < total {
                None
            } else {
                match parse_tar(s.skip(total as int)) {
                    Some(rest) => Some(
                        seq![
                            EntryModel { header: h, payload: s.subrange(512, 512 + size as int) },
                        ] + rest,
                    ),
                    None => None,
                }
            }
        }
    }
}

pub proof fn lemma_octal_fmt_shape(v: nat, w: nat)
    ensures
        octal_fmt(v, w).len() == w,
        all_octal_digits(octal_fmt(v, w)),
    decreases w,
{
    if w > 0 {
        lemma_octal_fmt_shape(v / 8, (w - 1) as nat);
        assert forall|i: int| 0 <= i < octal_fmt(v, w).len() implies is_octal_digit(
            #[trigger] octal_fmt(v, w)[i],
        ) by {
            if i < octal_fmt(v / 8, (w - 1) as nat).len() {
                assert(octal_fmt(v, w)[i] == octal_fmt(v / 8, (w - 1) as nat)[i]);
            } else {
                assert(octal_fmt(v, w)[i] == (0x30 + v % 8) as u8);
            }
        }
    }
}

pub proof fn lemma_octal_fold_fmt(v: nat, w: nat)
    requires
        v < pow8(w),
    ensures
        octal_fold(octal_fmt(v, w)) == v,
    decreases w,
{
    if w == 0 {
        assert(pow8(0) == 1);
        assert(octal_fmt(v, 0) =~= Seq::<u8>::empty());
    } else {
        assert(pow8(w) == 8 * pow8((w - 1) as nat));
        lemma_octal_fold_fmt(v / 8, (w - 1) as nat);
        assert(octal_fmt(v, w).drop_last() =~= octal_fmt(v / 8, (w - 1) as nat));
        assert(octal_fmt(v, w).last() == (0x30 + v % 8) as u8);
        assert((0x30 + v % 8) as u8 == 0x30 + v % 8);
        assert(octal_fold(octal_fmt(v, w)) == (v / 8) * 8 + v % 8);
    }
}

pub proof fn lemma_octal_fold_bounds(s: Seq<u8>)
    requires
        all_octal_digits(s),
    ensures
        0 <= octal_fold(s) < pow8(s.len() as nat),
    decreases s.len(),
{
    if s.len() > 0 {
        assert(all_octal_digits(s.drop_last())) by {
            assert(forall|i: int|
                0 <= i < s.len() - 1 ==> #[trigger] s.drop_last()[i] == s[i]);
        }
        lemma_octal_fold_bounds(s.drop_last());
        assert(is_octal_digit(s.last()));
        assert(pow8(s.len() as nat) == 8 * pow8(s.drop_last().len() as nat));
    }
}

pub proof fn lemma_pow8_monotone(a: nat, b: nat)
    requires
        a <= b,
    ensures
        pow8(a) <= pow8(b),
        pow8(a) >= 1,
    decreases b,
{
    if a == b {
        if a > 0 {
            lemma_pow8_monotone((a - 1) as nat, (a - 1) as nat);
        }
    } else {
        lemma_pow8_monotone(a, (b - 1) as nat);
    }
}

pub proof fn lemma_lstrip_props(s: Seq<u8>)
    ensures
        0 <= lstrip_start(s) <= s.len(),
        forall|i: int| 0 <= i < lstrip_start(s) ==> s[i] == 0x20,
        lstrip_start(s) < s.len() ==> s[lstrip_start(s)] != 0x20,
    decreases s.len(),
{
    if s.len() > 0 && s[0] == 0x20 {
        lemma_lstrip_props(s.drop_first());
        assert forall|i: int| 0 <= i < lstrip_start(s) implies s[i] == 0x20 by {
            if i > 0 {
                assert(s.drop_first()[i - 1] == s[i]);
            }
        }
        if lstrip_start(s) < s.len() {
            assert(s.drop_first()[lstrip_start(s) - 1] == s[lstrip_start(s)]);
        }
    }
}

pub proof fn lemma_rstrip_props(s: Seq<u8>)
    ensures
        0 <= rstrip_end(s) <= s.len(),
        forall|i: int| rstrip_end(s) <= i < s.len() ==> s[i] == 0x20,
        rstrip_end(s) > 0 ==> s[rstrip_end(s) - 1] != 0x20,
    decreases s.len(),
{
    if s.len() > 0 && s.last() == 0x20 {
        lemma_rstrip_props(s.drop_last());
        assert forall|i: int| rstrip_end(s) <= i < s.len() implies s[i] == 0x20 by {
            if i < s.len() - 1 {
                assert(s.drop_last()[i] == s[i]);
            }
        }
        if rstrip_end(s) > 0 {
            assert(s.drop_last()[rstrip_end(s) - 1] == s[rstrip_end(s) - 1]);
        }
    }
}

/// The checksum of a header as an executable computation.
fn compute_cksum(h: &[u8]) -> (r: u32)
    requires
        h@.len() == 512,
    ensures
        r as int == header_cksum(h@),
{
    let ghost input = cksum_input(h@);
    let mut acc: u32 = 0;
    let mut i: usize = 0;
    while i < 512
        invariant
            0 <= i <= 512,
            h@.len() == 512,
            input == cksum_input(h@),
            acc as int == sum_bytes(input.subrange(0, i as int)),
            acc <= 255 * i,
        decreases 512 - i,
    {
        let b: u8 = if 148 <= i && i < 156 {
            0x20
        } else {
            h[i]
        };
        proof {
            assert(input[i as int] == b);
            assert(input.subrange(0, (i + 1) as int).drop_last() =~= input.subrange(
                0,
                i as int,
            ));
        }
        acc = acc + (b as u32);
        i = i + 1;
    }
    proof {
        assert(input.subrange(0, 512) =~= input);
    }
    acc
}

/// Parse a numeric header field: NUL-cut, space-trimmed octal digits.
#[verifier::loop_isolation(false)]
fn parse_octal_field_exec(f: &[u8]) -> (r: Option<u64>)
    requires
        f@.len() <= 12,
    ensures
        match r {
            Some(v) => parse_octal_field(f@) == Some(v as int),
            None => parse_octal_field(f@) is None,
        },
{
    let len = f.len();
    let mut k: usize = 0;
    while k < len && f[k] != 0
        invariant
            0 <= k <= len,
            len == f@.len(),
            forall|i: int| 0 <= i < k ==> f@[i] != 0,
        decreases len - k,
    {
        k = k + 1;
    }
    proof {
        crate::tarball_codec::lemma_nul_pos_props(f@);
        assert(nul_pos(f@) == k);
    }
    let ghost c = f@.subrange(0, k as int);
    let mut i: usize = 0;
    while i < k && f[i] == 0x20
        invariant
            0 <= i <= k <= len,
            len == f@.len(),
            forall|j: int| 0 <= j < i ==> f@[j] == 0x20,
        decreases k - i,
    {
        i = i + 1;
    }
    proof {
        lemma_lstrip_props(c);
        assert(forall|j: int| 0 <= j < c.len() ==> c[j] == #[trigger] f@[j]);
        assert(lstrip_start(c) == i);
    }
    let mut j: usize = k;
    while j > i && f[j - 1] == 0x20
        invariant
            i <= j <= k <= len,
            len == f@.len(),
            forall|l: int| j <= l < k ==> f@[l] == 0x20,
        decreases j,
    {
        j = j - 1;
    }
    proof {
        lemma_rstrip_props(c);
        assert(forall|l: int| 0 <= l < c.len() ==> c[l] == #[trigger] f@[l]);
        if j > i {
            assert(c[j - 1] != 0x20);
            assert(rstrip_end(c) == j);
        }
    }
    if i == j {
        proof {
            if i == k {
                assert(lstrip_start(c) == c.len());
                assert(rstrip_end(c) <= c.len());
                assert(trimmed(c) =~= Seq::<u8>::empty());
            } else {
                assert(c[i as int] != 0x20);
                assert(false);
            }
        }
        return None;
    }
    let ghost t = c.subrange(i as int, j as int);
    proof {
        assert(trimmed(c) == t);
    }
    let mut acc: u64 = 0;
    let mut m: usize = i;
    while m < j
        invariant
            i <= m <= j <= k <= len,
            len == f@.len(),
            j - i <= 12,
            t == c.subrange(i as int, j as int),
            c == f@.subrange(0, k as int),
            all_octal_digits(t.subrange(0, m - i)),
            acc as int == octal_fold(t.subrange(0, m - i)),
            acc < pow8((m - i) as nat),
        decreases j - m,
    {
        let b = f[m];
        if b < 0x30 || b > 0x37 {
            proof {
                assert(t[m - i] == f@[m as int]);
                assert(!is_octal_digit(t[m - i]));
            }
            return None;
        }
        proof {
            assert(t.subrange(0, m - i + 1).drop_last() =~= t.subrange(0, m - i));
            assert(t[m - i] == f@[m as int]);
            assert(all_octal_digits(t.subrange(0, m - i + 1)));
            lemma_pow8_monotone(((m - i) as nat) + 1, 12);
            assert(pow8(((m - i) as nat) + 1) == 8 * pow8((m - i) as nat));
            reveal_with_fuel(pow8, 13);
            assert(pow8(12) == 68719476736);
        }
        acc = acc * 8 + ((b - 0x30) as u64);
        m = m + 1;
    }
    proof {
        assert(t.subrange(0, m - i) =~= t);
    }
    Some(acc)
}

/// Check a header block and read the payload size it announces.
/// Succeeds exactly when the checksum verifies and the size field parses.
pub fn check_header(h: &[u8]) -> (r: Option<u64>)
    requires
        h@.len() == 512,
    ensures
        match r {
            Some(v) => cksum_ok(h@) && header_size(h@) == Some(v as nat),
            None => !(cksum_ok(h@) && header_size(h@) is Some),
        },
{
    let stored = parse_octal_field_exec(slice_subrange(h, 148, 156));
    proof {
        assert(h@.subrange(148, 156) == cksum_field(h@));
    }
    let stored = match stored {
        Some(v) => v,
        None => {
            return None;
        },
    };
    let computed = compute_cksum(h);
    if stored != computed as u64 {
        return None;
    }
    if h[124] >= 0x80 {
        proof {
            assert(header_size(h@) is None);
        }
        return None;
    }
    let size = parse_octal_field_exec(slice_subrange(h, 124, 136));
    proof {
        assert(h@.subrange(124, 136) == size_field(h@));
    }
    match size {
        Some(v) => Some(v),
        None => None,
    }
}

/// Whether a 512-byte block is all zero, which ends an archive.
pub fn is_zero_block(b: &[u8]) -> (r: bool)
    requires
        b@.len() == 512,
    ensures
        r == (b@ == zero_bytes(512)),
{
    let mut i: usize = 0;
    while i < 512
        invariant
            0 <= i <= 512,
            b@.len() == 512,
            forall|j: int| 0 <= j < i ==> b@[j] == 0,
        decreases 512 - i,
    {
        if b[i] != 0 {
            proof {
                assert(b@[i as int] != zero_bytes(512)[i as int]);
            }
            return false;
        }
        i = i + 1;
    }
    proof {
        assert(b@ =~= zero_bytes(512));
    }
    true
}

/// The index of the first NUL of a slice, or its length.
fn find_nul(f: &[u8]) -> (k: usize)
    ensures
        k as int == nul_pos(f@),
{
    let len = f.len();
    let mut k: usize = 0;
    while k < len && f[k] != 0
        invariant
            0 <= k <= len,
            len == f@.len(),
            forall|i: int| 0 <= i < k ==> f@[i] != 0,
        decreases len - k,
    {
        k = k + 1;
    }
    proof {
        crate::tarball_codec::lemma_nul_pos_props(f@);
    }
    k
}

/// The bytes of `f` before its first NUL, as a fresh vector.
fn cut_nul_exec(f: &[u8]) -> (r: Vec<u8>)
    ensures
        r@ == cut_nul(f@),
{
    let k = find_nul(f);
    proof {
        crate::tarball_codec::lemma_nul_pos_props(f@);
    }
    slice_to_vec(slice_subrange(f, 0, k))
}

/// The path a header names.
pub fn header_path_exec(h: &[u8]) -> (r: Vec<u8>)
    requires
        h@.len() == 512,
    ensures
        r@ == header_path(h@),
{
    let name = cut_nul_exec(slice_subrange(h, 0, 100));
    let ustar = h[257] == 0x75 && h[258] == 0x73 && h[259] == 0x74 && h[260] == 0x61 && h[261]
        == 0x72 && h[262] == 0 && h[263] == 0x30 && h[264] == 0x30;
    if ustar {
        let mut prefix = cut_nul_exec(slice_subrange(h, 345, 500));
        if prefix.len() > 0 {
            prefix.push(0x2f);
            push_bytes(&mut prefix, name.as_slice());
            proof {
                assert(prefix@ =~= header_path(h@));
            }
            return prefix;
        }
    }
    name
}

/// Whether a header marks a regular file.
pub fn is_regular_exec(h: &[u8]) -> (r: bool)
    requires
        h@.len() == 512,
    ensures
        r == is_regular(h@),
{
    h[156] == 0 || h[156] == 0x30
}

/// A fresh copy of an entry.
pub fn clone_entry(e: &TarEntry) -> (r: TarEntry)
    ensures
        r@ == e@,
{
    TarEntry {
        header: slice_to_vec(e.header.as_slice()),
        payload: slice_to_vec(e.payload.as_slice()),
    }
}

/// Every entry an archive parses to is well formed.
pub proof fn lemma_parse_tar_wf(s: Seq<u8>)
    ensures
        parse_tar(s) matches Some(es) ==> wf_entries(es),
    decreases s.len(),
{
    if s.len() >= 512 {
        let h = s.subrange(0, 512);
        if h != zero_bytes(512) && cksum_ok(h) && header_size(h) is Some {
            let size = header_size(h).unwrap();
            let total = 512 + size + pad_len(size);
            if s.len() >= total {
                lemma_parse_tar_wf(s.skip(total as int));
                if parse_tar(s) is Some {
                    let es = parse_tar(s).unwrap();
                    let rest = parse_tar(s.skip(total as int)).unwrap();
                    assert forall|i: int| 0 <= i < es.len() implies wf_entry(
                        #[trigger] es[i],
                    ) by {
                        if i == 0 {
                            assert(es[0].header == h);
                            assert(es[0].payload.len() == size);
                        } else {
                            assert(es[i] == rest[i - 1]);
                        }
                    }
                }
            }
        }
    }
}

/// Parse a whole in-memory archive into its entries.
/// Succeeds exactly when the archive model parses.
#[verifier::loop_isolation(false)]
pub fn parse_tar_exec(bytes: &[u8]) -> (r: Option<Vec<TarEntry>>)
    ensures
        match r {
            Some(v) => parse_tar(bytes@) == Some(entry_models(v@)),
            None => parse_tar(bytes@) is None,
        },
{
    let len = bytes.len();
    let mut acc: Vec<TarEntry> = Vec::new();
    let mut off: usize = 0;
    proof {
        assert(bytes@.skip(0) =~= bytes@);
        match parse_tar(bytes@) {
            Some(rest) => {
                assert(entry_models(acc@) + rest =~= rest);
            },
            None => {},
        }
    }
    loop
        invariant
            0 <= off <= len,
            len == bytes@.len(),
            match parse_tar(bytes@.skip(off as int)) {
                Some(rest) => parse_tar(bytes@) == Some(entry_models(acc@) + rest),
                None => parse_tar(bytes@) is None,
            },
        decreases len - off,
    {
        let ghost s0 = bytes@.skip(off as int);
        let remaining = len - off;
        if remaining == 0 {
            proof {
                assert(s0.len() == 0);
                assert(entry_models(acc@) + Seq::<EntryModel>::empty() =~= entry_models(
                    acc@,
                ));
            }
            return Some(acc);
        }
        if remaining < 512 {
            return None;
        }
        let hdr_slice = slice_subrange(bytes, off, off + 512);
        proof {
            assert(hdr_slice@ =~= s0.subrange(0, 512));
        }
        if is_zero_block(hdr_slice) {
            proof {
                assert(entry_models(acc@) + Seq::<EntryModel>::empty() =~= entry_models(
                    acc@,
                ));
            }
            return Some(acc);
        }
        let size_u64 = match check_header(hdr_slice) {
            Some(v) => v,
            None => {
                return None;
            },
        };
        let body = remaining - 512;
        if size_u64 > body as u64 {
            proof {
                let size = header_size(s0.subrange(0, 512)).unwrap();
                assert(s0.len() < 512 + size + pad_len(size));
            }
            return None;
        }
        let size = size_u64 as usize;
        let pad: usize = if size % 512 == 0 {
            0
        } else {
            512 - size % 512
        };
        proof {
            assert(pad == pad_len(size as nat));
        }
        if pad > body - size {
            proof {
                let sz = header_size(s0.subrange(0, 512)).unwrap();
                assert(s0.len() < 512 + sz + pad_len(sz));
            }
            return None;
        }
        let header = slice_to_vec(hdr_slice);
        let payload = slice_to_vec(slice_subrange(bytes, off + 512, off + 512 + size));
        let ghost old_acc = acc@;
        let ghost em = EntryModel { header: hdr_slice@, payload: payload@ };
        acc.push(TarEntry { header, payload });
        let new_off = off + 512 + size + pad;
        proof {
            let sz = size as nat;
            let total = 512 + sz + pad_len(sz);
            assert(s0.len() >= total);
            assert(s0.subrange(512, 512 + sz as int) =~= payload@);
            assert(s0.skip(total as int) =~= bytes@.skip(new_off as int));
            assert(entry_models(acc@) =~= entry_models(old_acc).push(em));
            match parse_tar(bytes@.skip(new_off as int)) {
                Some(rest) => {
                    assert(parse_tar(s0) == Some(seq![em] + rest));
                    assert(entry_models(old_acc) + (seq![em] + rest) =~= entry_models(
                        acc@,
                    ) + rest);
                },
                None => {
                    assert(parse_tar(s0) is None);
                },
            }
        }
        off = new_off;
    }
}

pub proof fn lemma_entries_bytes_snoc(es: Seq<EntryModel>, e: EntryModel)
    ensures
        entries_bytes(es.push(e)) == entries_bytes(es) + entry_bytes(e),
    decreases es.len(),
{
    if es.len() == 0 {
        assert(es.push(e).drop_first() =~= Seq::<EntryModel>::empty());
        assert(es.push(e)[0] == e);
        assert(entries_bytes(es.push(e)) == entry_bytes(e) + entries_bytes(
            Seq::<EntryModel>::empty(),
        ));
        assert(entry_bytes(e) + Seq::<u8>::empty() =~= entry_bytes(e));
        assert(Seq::<u8>::empty() + entry_bytes(e) =~= entry_bytes(e));
    } else {
        assert(es.push(e).drop_first() =~= es.drop_first().push(e));
        lemma_entries_bytes_snoc(es.drop_first(), e);
        assert(es.push(e)[0] == es[0]);
        assert(entries_bytes(es.push(e)) == entry_bytes(es[0]) + (entries_bytes(
            es.drop_first(),
        ) + entry_bytes(e)));
        assert(entry_bytes(es[0]) + (entries_bytes(es.drop_first()) + entry_bytes(e))
            =~= (entry_bytes(es[0]) + entries_bytes(es.drop_first())) + entry_bytes(e));
    }
}

/// Write entries out as a tar archive: each header, payload and padding in
/// order, then the two all-zero trailer blocks.
#[verifier::loop_isolation(false)]
pub fn serialize_tar(entries: &Vec<TarEntry>) -> (r: Vec<u8>)
    ensures
        r@ == tar_bytes(entry_models(entries@)),
{
    let mut out: Vec<u8> = Vec::new();
    let mut i: usize = 0;
    while i < entries.len()
        invariant
            0 <= i <= entries@.len(),
            out@ == entries_bytes(entry_models(entries@.subrange(0, i as int))),
        decreases entries@.len() - i,
    {
        let e = &entries[i];
        push_bytes(&mut out, e.header.as_slice());
        push_bytes(&mut out, e.payload.as_slice());
        let plen = e.payload.len();
        let pad: usize = if plen % 512 == 0 {
            0
        } else {
            512 - plen % 512
        };
        push_zero_bytes(&mut out, pad);
        proof {
            let prev = entry_models(entries@.subrange(0, i as int));
            let em = entries@[i as int]@;
            lemma_entries_bytes_snoc(prev, em);
            assert(entry_models(entries@.subrange(0, i + 1)) =~= prev.push(em));
            assert(out@ =~= entries_bytes(prev) + entry_bytes(em));
        }
        i = i + 1;
    }
    push_zero_bytes(&mut out, 1024);
    proof {
        assert(entries@.subrange(0, entries@.len() as int) =~= entries@);
    }
    out
}

proof fn lemma_sum_bytes_bound(s: Seq<u8>)
    ensures
        sum_bytes(s) <= 255 * s.len(),
    decreases s.len(),
{
    if s.len() > 0 {
        lemma_sum_bytes_bound(s.drop_last());
    }
}

proof fn lemma_trimmed_of_zeros(w: nat)
    ensures
        parse_octal_field(zero_bytes(w)) is None,
{
    let f = zero_bytes(w);
    if w == 0 {
        assert(nul_pos(f) == 0);
        assert(f.subrange(0, 0) =~= Seq::<u8>::empty());
        assert(trimmed(Seq::<u8>::empty()) =~= Seq::<u8>::empty());
    } else {
        assert(f[0] == 0);
        assert(nul_pos(f) == 0);
        assert(f.subrange(0, 0) =~= Seq::<u8>::empty());
        assert(trimmed(Seq::<u8>::empty()) =~= Seq::<u8>::empty());
    }
}

/// A header that satisfies the checksum can never be the zero block.
pub proof fn lemma_wf_header_nonzero(h: Seq<u8>)
    requires
        wf_header(h),
    ensures
        h != zero_bytes(512),
{
    if h == zero_bytes(512) {
        assert(cksum_field(h) =~= zero_bytes(8));
        lemma_trimmed_of_zeros(8);
        assert(parse_octal_field(cksum_field(h)) is None);
    }
}

/// Round trip: an archive written from well-formed entries parses back to
/// exactly those entries.
pub proof fn lemma_parse_tar_bytes(es: Seq<EntryModel>)
    requires
        wf_entries(es),
    ensures
        parse_tar(tar_bytes(es)) == Some(es),
    decreases es.len(),
{
    let s = tar_bytes(es);
    if es.len() == 0 {
        assert(s =~= zero_bytes(1024));
        assert(s.subrange(0, 512) =~= zero_bytes(512));
    } else {
        let e0 = es[0];
        assert(wf_entry(e0));
        let sz = e0.payload.len();
        let pad = pad_len(sz);
        let eb = entry_bytes(e0);
        assert(eb.len() == 512 + sz + pad);
        let rest_bytes = tar_bytes(es.drop_first());
        assert(s =~= eb + rest_bytes);
        assert(s.len() == eb.len() + rest_bytes.len());
        assert(rest_bytes.len() >= 1024);
        let h = s.subrange(0, 512);
        assert(h =~= e0.header);
        lemma_wf_header_nonzero(e0.header);
        assert(h != zero_bytes(512));
        assert(header_size(h) == Some(sz));
        let total = 512 + sz + pad_len(sz);
        assert(s.len() >= total);
        assert(s.subrange(512, 512 + sz as int) =~= e0.payload);
        assert(s.skip(total as int) =~= rest_bytes);
        assert(wf_entries(es.drop_first())) by {
            assert(forall|i: int|
                0 <= i < es.drop_first().len() ==> #[trigger] es.drop_first()[i] == es[i
                    + 1]);
        }
        lemma_parse_tar_bytes(es.drop_first());
        assert(parse_tar(s) == Some(
            seq![EntryModel { header: h, payload: s.subrange(512, 512 + sz as int) }]
                + es.drop_first(),
        ));
        assert(EntryModel { header: h, payload: s.subrange(512, 512 + sz as int) } == e0);
        assert(seq![e0] + es.drop_first() =~= es);
    }
}

/// `h` with `field` written at offset `at`.
pub open spec fn store_bytes(h: Seq<u8>, at: int, field: Seq<u8>) -> Seq<u8> {
    Seq::new(h.len(), |i: int| if at <= i < at + field.len() { field[i - at] } else { h[i] })
}

/// A 12-byte size field: eleven zero-padded octal digits and a NUL.
pub open spec fn size_field_bytes(v: nat) -> Seq<u8> {
    octal_fmt(v, 11) + seq![0u8]
}

/// An 8-byte checksum field: seven zero-padded octal digits and a NUL.
pub open spec fn cksum_field_bytes(v: nat) -> Seq<u8> {
    octal_fmt(v, 7) + seq![0u8]
}

/// `h` with its checksum recomputed and stored.
pub open spec fn with_cksum(h: Seq<u8>) -> Seq<u8> {
    store_bytes(h, 148, cksum_field_bytes(header_cksum(h)))
}

/// `h` with its size field set to `v` and its checksum recomputed.
pub open spec fn with_size(h: Seq<u8>, v: nat) -> Seq<u8> {
    with_cksum(store_bytes(h, 124, size_field_bytes(v)))
}

/// The size field can carry any value below `8^11`.
pub proof fn lemma_pow8_11_value()
    ensures
        pow8(11) == 8589934592,
{
    reveal_with_fuel(pow8, 12);
}

/// An octal numeric field of digits and one trailing NUL parses to its value.
proof fn lemma_parse_octal_of_fmt(v: nat, w: nat)
    requires
        1 <= w,
        v < pow8(w),
    ensures
        parse_octal_field(octal_fmt(v, w) + seq![0u8]) == Some(v as int),
{
    let fmt = octal_fmt(v, w);
    let f = fmt + seq![0u8];
    lemma_octal_fmt_shape(v, w);
    assert forall|i: int| 0 <= i < fmt.len() implies fmt[i] != 0 by {
        assert(is_octal_digit(fmt[i]));
    }
    assert(f =~= fmt + seq![0u8] + Seq::<u8>::empty());
    crate::tarball_codec::lemma_nul_pos_concat(fmt, Seq::<u8>::empty());
    assert(nul_pos(f) == w);
    assert(f.subrange(0, w as int) =~= fmt);
    assert(is_octal_digit(fmt[0]));
    assert(lstrip_start(fmt) == 0);
    assert(is_octal_digit(fmt.last()));
    assert(rstrip_end(fmt) == fmt.len());
    assert(trimmed(fmt) =~= fmt);
    lemma_octal_fold_fmt(v, w);
}

/// Storing a field leaves the checksum input unchanged when the field sits
/// inside the checksum byte range.
proof fn lemma_cksum_input_store(h: Seq<u8>, field: Seq<u8>)
    requires
        h.len() == 512,
        field.len() == 8,
    ensures
        cksum_input(store_bytes(h, 148, field)) == cksum_input(h),
{
    assert(cksum_input(store_bytes(h, 148, field)) =~= cksum_input(h));
}

/// What `with_size` does to a header: the rewritten header is well formed,
/// announces exactly the new size, and agrees with the old header on every
/// byte outside the size and checksum fields; in particular the path, the
/// type flag, and the link, mode, owner and time fields are untouched.
pub proof fn lemma_with_size_props(h: Seq<u8>, v: nat)
    requires
        h.len() == 512,
        v < pow8(11),
    ensures
        with_size(h, v).len() == 512,
        wf_header(with_size(h, v)),
        header_size(with_size(h, v)) == Some(v),
        is_regular(with_size(h, v)) == is_regular(h),
        header_path(with_size(h, v)) == header_path(h),
        forall|i: int|
            0 <= i < 512 && !(124 <= i < 136) && !(148 <= i < 156) ==> with_size(h, v)[i]
                == h[i],
{
    let x = store_bytes(h, 124, size_field_bytes(v));
    let r = with_size(h, v);
    lemma_octal_fmt_shape(v, 11);
    lemma_octal_fmt_shape(header_cksum(x), 7);
    assert(x.len() == 512);
    assert(r.len() == 512);

    // Bytes outside the two fields are unchanged.
    assert forall|i: int|
        0 <= i < 512 && !(124 <= i < 136) && !(148 <= i < 156) implies r[i] == h[i] by {
        assert(x[i] == h[i]);
    }

    // The size field parses to v.
    lemma_parse_octal_of_fmt(v, 11);
    assert(size_field(r) =~= size_field_bytes(v));
    assert(size_field_bytes(v) =~= octal_fmt(v, 11) + seq![0u8]);
    assert(r[124] == octal_fmt(v, 11)[0]);
    assert(is_octal_digit(octal_fmt(v, 11)[0]));
    assert(header_size(r) == Some(v));

    // The checksum field parses to the checksum of the rewritten header.
    lemma_cksum_input_store(x, cksum_field_bytes(header_cksum(x)));
    assert(r == store_bytes(x, 148, cksum_field_bytes(header_cksum(x))));
    assert(header_cksum(r) == header_cksum(x));
    lemma_sum_bytes_bound(cksum_input(x));
    assert(cksum_input(x).len() == 512);
    assert(header_cksum(x) <= 255 * 512);
    assert(pow8(7) == 2097152) by {
        reveal_with_fuel(pow8, 8);
    }
    lemma_parse_octal_of_fmt(header_cksum(x), 7);
    assert(cksum_field(r) =~= cksum_field_bytes(header_cksum(x)));
    assert(cksum_field_bytes(header_cksum(x)) =~= octal_fmt(header_cksum(x), 7)
        + seq![0u8]);
    assert(cksum_ok(r));

    // The type flag and the path fields sit outside both stored ranges.
    assert(r[156] == h[156]);
    assert(r.subrange(0, 100) =~= h.subrange(0, 100));
    assert(r.subrange(345, 500) =~= h.subrange(345, 500));
    assert(r[257] == h[257] && r[258] == h[258] && r[259] == h[259] && r[260] == h[260]
        && r[261] == h[261] && r[262] == h[262] && r[263] == h[263] && r[264] == h[264]);
    assert(header_path(r) == header_path(h));
}

/// Write `w` zero-padded octal digits of `v`.
fn octal_fmt_exec(v: u64, w: usize) -> (r: Vec<u8>)
    ensures
        r@ == octal_fmt(v as nat, w as nat),
    decreases w,
{
    if w == 0 {
        let r: Vec<u8> = Vec::new();
        proof {
            assert(r@ =~= octal_fmt(v as nat, 0));
        }
        r
    } else {
        let mut r = octal_fmt_exec(v / 8, w - 1);
        r.push(0x30 + ((v % 8) as u8));
        proof {
            assert(r@ =~= octal_fmt(v as nat, w as nat));
        }
        r
    }
}

/// A copy of the header with its size field set to `v` and its checksum
/// recomputed, as the index builder needs for digest entries.
pub fn with_size_exec(h: &[u8], v: u64) -> (r: Vec<u8>)
    requires
        h@.len() == 512,
        v < 8589934592,
    ensures
        r@ == with_size(h@, v as nat),
{
    proof {
        assert(pow8(11) == 8589934592) by {
            reveal_with_fuel(pow8, 12);
        }
    }
    let mut x: Vec<u8> = slice_to_vec(slice_subrange(h, 0, 124));
    let mut size_field_v = octal_fmt_exec(v, 11);
    size_field_v.push(0u8);
    push_bytes(&mut x, size_field_v.as_slice());
    push_bytes(&mut x, slice_subrange(h, 136, 512));
    proof {
        lemma_octal_fmt_shape(v as nat, 11);
        assert(x@ =~= store_bytes(h@, 124, size_field_bytes(v as nat)));
    }
    let c = compute_cksum(x.as_slice());
    let mut out: Vec<u8> = slice_to_vec(slice_subrange(x.as_slice(), 0, 148));
    let mut cksum_field_v = octal_fmt_exec(c as u64, 7);
    cksum_field_v.push(0u8);
    push_bytes(&mut out, cksum_field_v.as_slice());
    push_bytes(&mut out, slice_subrange(x.as_slice(), 156, 512));
    proof {
        lemma_octal_fmt_shape(c as nat, 7);
        assert(out@ =~= with_size(h@, v as nat));
    }
    out
}

} // verus!
