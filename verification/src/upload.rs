//! Sender-side protocol pieces: reading the want-list off the wire and
//! building the parts tarball.
//!
//! The want-list arrives as newline-delimited paths; empty lines carry
//! nothing. The parts tarball holds exactly the source entries whose paths
//! are wanted, in source order — never in request order — and unknown
//! paths are silently absent: the receiver discovers them at finalisation.

use vstd::prelude::*;
use vstd::slice::{slice_subrange, slice_to_vec};
use crate::archive::{
    clone_entry, entry_models, header_path, header_path_exec, lemma_parse_tar_wf, parse_tar,
    parse_tar_exec, serialize_tar, tar_bytes, wf_entry, EntryModel, TarEntry,
};
use crate::bytes::bytes_eq;

verus! {

/// How the sender side fails.
#[derive(Debug, PartialEq, Eq, Structural)]
pub enum UploadIndexError {
    /// A stream or file could not be read or written. Only callers that
    /// perform I/O around this module report it.
    Io,
    /// The source bytes do not parse as a tar archive.
    BadArchive,
}

/// The index of the first line feed of `s`, or `s.len()` if there is none.
pub open spec fn lf_pos(s: Seq<u8>) -> int
    decreases s.len(),
{
    if s.len() == 0 {
        0
    } else if s[0] == 0x0a {
        0
    } else {
        1 + lf_pos(s.drop_first())
    }
}

pub proof fn lemma_lf_pos_props(s: Seq<u8>)
    ensures
        0 <= lf_pos(s) <= s.len(),
        forall|i: int| 0 <= i < lf_pos(s) ==> s[i] != 0x0a,
        lf_pos(s) < s.len() ==> s[lf_pos(s)] == 0x0a,
    decreases s.len(),
{
    if s.len() > 0 && s[0] != 0x0a {
        lemma_lf_pos_props(s.drop_first());
        assert forall|i: int| 0 <= i < lf_pos(s) implies s[i] != 0x0a by {
            if i > 0 {
                assert(s.drop_first()[i - 1] == s[i]);
            }
        }
    }
}

/// The non-empty lines of `s`, split at line feeds, in order.
pub open spec fn split_lines(s: Seq<u8>) -> Seq<Seq<u8>>
    decreases s.len(),
{
    if s.len() == 0 {
        Seq::empty()
    } else {
        let k = lf_pos(s);
        let line = s.subrange(0, k);
        let rest = if 0 <= k && k < s.len() {
            split_lines(s.skip(k + 1))
        } else {
            Seq::empty()
        };
        if line.len() == 0 {
            rest
        } else {
            seq![line] + rest
        }
    }
}

/// The lines of `ps` joined, each terminated by one line feed.
pub open spec fn join_lines(ps: Seq<Seq<u8>>) -> Seq<u8>
    decreases ps.len(),
{
    if ps.len() == 0 {
        Seq::empty()
    } else {
        ps[0] + seq![0x0au8] + join_lines(ps.drop_first())
    }
}

proof fn lemma_lf_pos_concat(a: Seq<u8>, b: Seq<u8>)
    requires
        forall|i: int| 0 <= i < a.len() ==> a[i] != 0x0a,
    ensures
        lf_pos(a + seq![0x0au8] + b) == a.len(),
    decreases a.len(),
{
    let s = a + seq![0x0au8] + b;
    if a.len() == 0 {
        assert(s[0] == 0x0a);
    } else {
        assert(s[0] == a[0]);
        assert(s.drop_first() =~= a.drop_first() + seq![0x0au8] + b);
        lemma_lf_pos_concat(a.drop_first(), b);
    }
}

/// Want-list round trip: writing paths as lines and splitting them again
/// yields the same paths, provided each path is non-empty and free of line
/// feeds — which the line protocol itself demands.
pub proof fn lemma_want_list_round_trip(ps: Seq<Seq<u8>>)
    requires
        forall|i: int| 0 <= i < ps.len() ==> (#[trigger] ps[i]).len() > 0,
        forall|i: int, j: int|
            0 <= i < ps.len() && 0 <= j < ps[i].len() ==> #[trigger] ps[i][j] != 0x0a,
    ensures
        split_lines(join_lines(ps)) == ps,
    decreases ps.len(),
{
    if ps.len() > 0 {
        let s = join_lines(ps);
        let rest = join_lines(ps.drop_first());
        assert(forall|j: int| 0 <= j < ps[0].len() ==> #[trigger] ps[0][j] != 0x0a);
        assert(s =~= ps[0] + seq![0x0au8] + rest);
        lemma_lf_pos_concat(ps[0], rest);
        assert(lf_pos(s) == ps[0].len());
        assert(s.subrange(0, ps[0].len() as int) =~= ps[0]);
        assert(s.skip(ps[0].len() + 1 as int) =~= rest);
        assert(forall|i: int, j: int|
            0 <= i < ps.drop_first().len() && 0 <= j < ps.drop_first()[i].len()
                ==> #[trigger] ps.drop_first()[i][j] == ps[i + 1][j]);
        lemma_want_list_round_trip(ps.drop_first());
        assert(seq![ps[0]] + ps.drop_first() =~= ps);
    }
}

/// Split the wire want-list into its non-empty lines.
#[verifier::loop_isolation(false)]
pub fn parse_want_list(input: &[u8]) -> (r: Vec<Vec<u8>>)
    ensures
        r.deep_view() == split_lines(input@),
{
    let len = input.len();
    let mut out: Vec<Vec<u8>> = Vec::new();
    let mut pos: usize = 0;
    proof {
        assert(input@.skip(0) =~= input@);
        assert(out.deep_view() + split_lines(input@) =~= split_lines(input@));
    }
    while pos < len
        invariant
            0 <= pos <= len,
            split_lines(input@) =~= out.deep_view() + split_lines(input@.skip(pos as int)),
        decreases len - pos,
    {
        let ghost s0 = input@.skip(pos as int);
        let mut k = pos;
        while k < len && input[k] != 0x0a
            invariant
                pos <= k <= len,
                forall|j: int| pos <= j < k ==> input@[j] != 0x0a,
            decreases len - k,
        {
            k = k + 1;
        }
        proof {
            lemma_lf_pos_props(s0);
            let kp = k - pos;
            assert(s0.len() == len - pos);
            if lf_pos(s0) < kp {
                assert(s0[lf_pos(s0)] == 0x0a);
                assert(s0[lf_pos(s0)] == input@[pos + lf_pos(s0)]);
                assert(false);
            }
            if kp < lf_pos(s0) {
                assert(k < len);
                assert(s0[kp] == input@[k as int]);
                assert(s0[kp] != 0x0a);
                assert(false);
            }
            assert(lf_pos(s0) == kp);
        }
        let seg = slice_to_vec(slice_subrange(input, pos, k));
        let ghost old_out = out.deep_view();
        if seg.len() > 0 {
            out.push(seg);
            proof {
                assert(out.deep_view() =~~= old_out.push(s0.subrange(0, k - pos)));
            }
        } else {
            proof {
                assert(s0.subrange(0, k - pos).len() == 0);
            }
        }
        let new_pos = if k < len {
            k + 1
        } else {
            len
        };
        proof {
            if k < len {
                assert(s0.skip(k - pos + 1) =~= input@.skip(new_pos as int));
                if seg.len() > 0 {
                    assert(old_out.push(s0.subrange(0, k - pos)) + split_lines(
                        input@.skip(new_pos as int),
                    ) =~= old_out + (seq![s0.subrange(0, k - pos)] + split_lines(
                        input@.skip(new_pos as int),
                    )));
                }
            } else {
                assert(input@.skip(new_pos as int).len() == 0);
                if seg.len() > 0 {
                    assert(old_out.push(s0.subrange(0, k - pos)) + split_lines(
                        input@.skip(new_pos as int),
                    ) =~= old_out + (seq![s0.subrange(0, k - pos)] + Seq::<
                        Seq<u8>,
                    >::empty()));
                }
            }
        }
        pos = new_pos;
    }
    proof {
        assert(input@.skip(len as int).len() == 0);
        assert(out.deep_view() + split_lines(input@.skip(len as int)) =~= out.deep_view());
    }
    out
}

/// Whether a path stands in the want-list.
pub fn contains_path(want: &Vec<Vec<u8>>, p: &Vec<u8>) -> (r: bool)
    ensures
        r == want.deep_view().contains(p@),
{
    let mut i: usize = 0;
    while i < want.len()
        invariant
            0 <= i <= want@.len(),
            forall|j: int| 0 <= j < i ==> want@[j]@ != p@,
        decreases want@.len() - i,
    {
        if bytes_eq(want[i].as_slice(), p.as_slice()) {
            proof {
                assert(want.deep_view()[i as int] =~= p@);
            }
            return true;
        }
        i = i + 1;
    }
    proof {
        assert forall|j: int| 0 <= j < want.deep_view().len() implies want.deep_view()[j]
            != p@ by {
            assert(want.deep_view()[j] == want@[j]@);
        }
    }
    false
}

/// The source entries whose paths are wanted, in source order.
pub open spec fn wanted_models(es: Seq<EntryModel>, want: Seq<Seq<u8>>) -> Seq<EntryModel> {
    es.filter(|e: EntryModel| want.contains(header_path(e.header)))
}

/// With nothing wanted, the parts tarball holds no entry.
pub proof fn lemma_wanted_models_empty(es: Seq<EntryModel>, want: Seq<Seq<u8>>)
    requires
        want.len() == 0,
    ensures
        wanted_models(es, want) == Seq::<EntryModel>::empty(),
    decreases es.len(),
{
    reveal(Seq::<_>::filter);
    if es.len() > 0 {
        lemma_wanted_models_empty(es.drop_last(), want);
    }
}

/// Build the parts tarball: exactly the source entries whose paths stand
/// in the want-list, in source order. Fails exactly when the source bytes
/// do not parse as a tar archive.
#[verifier::loop_isolation(false)]
pub fn build_parts(tar_source: &Vec<u8>, want: &Vec<Vec<u8>>) -> (r: Result<
    Vec<u8>,
    UploadIndexError,
>)
    ensures
        match r {
            Ok(v) => parse_tar(tar_source@) is Some && v@ == tar_bytes(
                wanted_models(parse_tar(tar_source@).unwrap(), want.deep_view()),
            ),
            Err(e) => e == UploadIndexError::BadArchive && parse_tar(tar_source@) is None,
        },
{
    let entries = match parse_tar_exec(tar_source.as_slice()) {
        Some(e) => e,
        None => {
            return Err(UploadIndexError::BadArchive);
        },
    };
    proof {
        lemma_parse_tar_wf(tar_source@);
    }
    let ghost src_models = entry_models(entries@);
    let ghost wanted = want.deep_view();
    let mut picked: Vec<TarEntry> = Vec::new();
    let mut i: usize = 0;
    proof {
        reveal(Seq::<_>::filter);
        assert(src_models.subrange(0, 0) =~= Seq::<EntryModel>::empty());
        assert(entry_models(picked@) =~= src_models.subrange(0, 0).filter(
            |e: EntryModel| wanted.contains(header_path(e.header)),
        ));
    }
    while i < entries.len()
        invariant
            0 <= i <= entries@.len(),
            entry_models(entries@) == src_models,
            crate::archive::wf_entries(src_models),
            wanted == want.deep_view(),
            entry_models(picked@) == src_models.subrange(0, i as int).filter(
                |e: EntryModel| wanted.contains(header_path(e.header)),
            ),
        decreases entries@.len() - i,
    {
        let e = &entries[i];
        proof {
            assert(src_models[i as int] == e@);
            assert(wf_entry(src_models[i as int]));
        }
        let path = header_path_exec(e.header.as_slice());
        let ghost old_picked = entry_models(picked@);
        let take = contains_path(want, &path);
        if take {
            picked.push(clone_entry(e));
        }
        proof {
            reveal(Seq::<_>::filter);
            let pred = |em: EntryModel| wanted.contains(header_path(em.header));
            let prefix = src_models.subrange(0, i as int);
            let prefix1 = src_models.subrange(0, i + 1);
            assert(prefix1.drop_last() =~= prefix);
            assert(prefix1.last() == src_models[i as int]);
            if take {
                assert(entry_models(picked@) =~= old_picked.push(src_models[i as int]));
            }
            assert(entry_models(picked@) == prefix1.filter(pred));
        }
        i = i + 1;
    }
    proof {
        assert(src_models.subrange(0, src_models.len() as int) =~= src_models);
    }
    let ser = serialize_tar(&picked);
    Ok(ser)
}

} // verus!
