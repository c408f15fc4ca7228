//! End-to-end guarantees of a transfer, stated over the models that the
//! executable functions' contracts pin down.
//!
//! The receiver's pipeline, at the model level, is: derive the archive
//! entries of the index, merge what the local library contributes, ask the
//! sender for the paths still unresolved, merge the parts tarball, and
//! finalise. The lemmas here show that this pipeline reconstructs the
//! source exactly, that a covering library short-circuits the transfer,
//! which paths go on the want-list, and that the outcome does not depend
//! on the run or on the order in which the library was scanned.

use vstd::prelude::*;
use crate::archive::{
    header_path, is_regular, lemma_pow8_11_value, lemma_with_size_props, tar_bytes,
    wf_entries, wf_entry, with_size, EntryModel,
};
use crate::bytes::zero_bytes;
use crate::index::{index_entry_model, index_models, sha1_of};
use crate::receive::{
    aentries_of, aentry_of, aentry_path, all_concrete, concrete_of, concretes_of,
    concretes_seq, entries_of_concretes, find_concrete, lookup_paths, merge_models,
    merge_one, AEntryModel, ConcreteModel,
};
use crate::upload::{join_lines, lemma_wanted_models_empty, wanted_models};

verus! {

/// Paths are unique keys within one tarball.
pub open spec fn paths_distinct(es: Seq<EntryModel>) -> bool {
    forall|i: int, j: int|
        #![trigger es[i], es[j]]
        0 <= i < j < es.len() ==> header_path(es[i].header) != header_path(es[j].header)
}

/// Every library entry that claims the path of a source entry carries
/// exactly that source entry: its header and its content. This is what
/// "the destination covers part of the source" means; the receiver does
/// not verify it (recovered content is not re-hashed), so a library that
/// lies about a path defeats reconstruction.
pub open spec fn local_matches_source(src: Seq<EntryModel>, local: Seq<ConcreteModel>) -> bool {
    forall|j: int, i: int|
        #![trigger local[j], src[i]]
        0 <= j < local.len() && 0 <= i < src.len() && local[j].path == header_path(
            src[i].header,
        ) ==> local[j] == concrete_of(src[i])
}

proof fn lemma_find_concrete_is_match(l: Seq<ConcreteModel>, p: Seq<u8>)
    ensures
        find_concrete(l, p) matches Some(c) ==> c.path == p && exists|k: int|
            0 <= k < l.len() && l[k] == c,
    decreases l.len(),
{
    if l.len() > 0 {
        if l[0].path == p {
            assert(l[0] == find_concrete(l, p).unwrap());
        } else {
            lemma_find_concrete_is_match(l.drop_first(), p);
            if find_concrete(l, p) is Some {
                let c = find_concrete(l, p).unwrap();
                let k = choose|k: int|
                    0 <= k < l.drop_first().len() && l.drop_first()[k] == c;
                assert(l[k + 1] == c);
            }
        }
    }
}

proof fn lemma_find_concrete_all_eq(l: Seq<ConcreteModel>, p: Seq<u8>, c0: ConcreteModel)
    requires
        forall|k: int| 0 <= k < l.len() && (#[trigger] l[k]).path == p ==> l[k] == c0,
        exists|k: int| 0 <= k < l.len() && (#[trigger] l[k]).path == p,
    ensures
        find_concrete(l, p) == Some(c0),
    decreases l.len(),
{
    if l[0].path == p {
        assert(l[0] == c0);
    } else {
        let k0 = choose|k: int| 0 <= k < l.len() && (#[trigger] l[k]).path == p;
        assert(l.drop_first()[k0 - 1] == l[k0]);
        assert forall|k: int|
            0 <= k < l.drop_first().len() && (#[trigger] l.drop_first()[k]).path
                == p implies l.drop_first()[k] == c0 by {
            assert(l.drop_first()[k] == l[k + 1]);
        }
        lemma_find_concrete_all_eq(l.drop_first(), p, c0);
    }
}

proof fn lemma_filter_member(s: Seq<EntryModel>, pred: spec_fn(EntryModel) -> bool, k: int)
    requires
        0 <= k < s.filter(pred).len(),
    ensures
        exists|m: int| 0 <= m < s.len() && s[m] == s.filter(pred)[k],
    decreases s.len(),
{
    reveal(Seq::<_>::filter);
    if s.len() > 0 {
        let sub = s.drop_last().filter(pred);
        if pred(s.last()) {
            if k < sub.len() {
                lemma_filter_member(s.drop_last(), pred, k);
                let m = choose|m: int|
                    0 <= m < s.drop_last().len() && s.drop_last()[m] == sub[k];
                assert(s[m] == s.filter(pred)[k]);
            } else {
                assert(s.filter(pred)[k] == s.last());
                assert(s[s.len() - 1] == s.last());
            }
        } else {
            lemma_filter_member(s.drop_last(), pred, k);
            let m = choose|m: int|
                0 <= m < s.drop_last().len() && s.drop_last()[m] == sub[k];
            assert(s[m] == s.filter(pred)[k]);
        }
    }
}

proof fn lemma_lookup_paths_contains(es: Seq<AEntryModel>, i: int)
    requires
        0 <= i < es.len(),
        es[i] is Lookup,
    ensures
        lookup_paths(es).contains(aentry_path(es[i])),
{
    let pred = |e: AEntryModel| e is Lookup;
    es.lemma_filter_contains(pred, i);
    let k = choose|k: int|
        0 <= k < es.filter(pred).len() && es.filter(pred)[k] == es[i];
    assert(lookup_paths(es)[k] == aentry_path(es[i]));
}

/// Transfer round trip. Against an honest library, the receiver's two
/// merge passes resolve every entry, and what it writes out is, entry for
/// entry, the source tarball: same headers, same payloads, same order.
pub proof fn lemma_transfer_round_trip(src: Seq<EntryModel>, local: Seq<ConcreteModel>)
    requires
        wf_entries(src),
        paths_distinct(src),
        local_matches_source(src, local),
    ensures
        ({
            let aes1 = merge_models(aentries_of(index_models(src)), local);
            let parts = wanted_models(src, lookup_paths(aes1));
            let aes2 = merge_models(aes1, concretes_of(parts));
            &&& all_concrete(aes2)
            &&& concretes_seq(aes2) == concretes_of(src)
            &&& entries_of_concretes(concretes_seq(aes2)) == src
            &&& tar_bytes(entries_of_concretes(concretes_seq(aes2))) == tar_bytes(src)
        }),
{
    let aes0 = aentries_of(index_models(src));
    let aes1 = merge_models(aes0, local);
    let w1 = lookup_paths(aes1);
    let parts = wanted_models(src, w1);
    let remote = concretes_of(parts);
    let aes2 = merge_models(aes1, remote);
    assert(aes0.len() == src.len());
    assert(aes1.len() == src.len());
    assert(aes2.len() == src.len());
    assert forall|i: int| 0 <= i < src.len() implies #[trigger] aes2[i]
        == AEntryModel::Concrete(concrete_of(src[i])) by {
        let e = src[i];
        assert(wf_entry(e));
        let h = e.header;
        let p = header_path(h);
        assert(index_models(src)[i] == index_entry_model(e));
        assert(aes0[i] == aentry_of(index_entry_model(e)));
        assert(aes1[i] == merge_one(aes0[i], local));
        assert(aes2[i] == merge_one(aes1[i], remote));
        if !is_regular(h) {
            assert(index_entry_model(e) == e);
            assert(aes0[i] == AEntryModel::Concrete(concrete_of(e)));
        } else {
            lemma_pow8_11_value();
            lemma_with_size_props(h, 20);
            let ih = with_size(h, 20);
            assert(is_regular(ih));
            assert(header_path(ih) == p);
            assert(aes0[i] == AEntryModel::Lookup {
                header: ih,
                path: p,
                digest: sha1_of(e.payload),
            });
            if find_concrete(local, p) is Some {
                let c = find_concrete(local, p).unwrap();
                lemma_find_concrete_is_match(local, p);
                let k = choose|k: int| 0 <= k < local.len() && local[k] == c;
                assert(local[k].path == header_path(src[i].header));
                assert(local[k] == concrete_of(src[i]));
                assert(aes1[i] == AEntryModel::Concrete(concrete_of(src[i])));
            } else {
                assert(aes1[i] == aes0[i]);
                assert(aes1[i] is Lookup);
                assert(aentry_path(aes1[i]) == p);
                lemma_lookup_paths_contains(aes1, i);
                assert(w1.contains(p));
                let pred = |em: EntryModel| w1.contains(header_path(em.header));
                assert(pred(src[i]));
                src.lemma_filter_contains(pred, i);
                assert(parts == src.filter(pred));
                let k0 = choose|k: int| 0 <= k < parts.len() && parts[k] == src[i];
                assert(remote[k0] == concrete_of(src[i]));
                assert(remote[k0].path == p);
                assert forall|k: int|
                    0 <= k < remote.len() && (#[trigger] remote[k]).path == p implies
                    remote[k] == concrete_of(src[i]) by {
                    assert(remote[k] == concrete_of(parts[k]));
                    lemma_filter_member(src, pred, k);
                    let m = choose|m: int| 0 <= m < src.len() && src[m] == parts[k];
                    assert(header_path(src[m].header) == p);
                    if m < i {
                        assert(header_path(src[m].header) != header_path(src[i].header));
                        assert(false);
                    }
                    if i < m {
                        assert(header_path(src[i].header) != header_path(src[m].header));
                        assert(false);
                    }
                };
                lemma_find_concrete_all_eq(remote, p, concrete_of(src[i]));
                assert(aes2[i] == AEntryModel::Concrete(concrete_of(src[i])));
            }
        }
    }
    assert(all_concrete(aes2));
    assert(concretes_seq(aes2) =~= concretes_of(src));
    assert(entries_of_concretes(concretes_of(src)) =~= src);
}

/// The index the builder writes always parses back to its own entries:
/// the receiver can ingest every index this crate produces. The one fact
/// taken from outside is the digest length, which the digest boundary
/// states of every call.
pub proof fn lemma_index_parses_back(src: Seq<EntryModel>)
    requires
        wf_entries(src),
        forall|i: int|
            0 <= i < src.len() && is_regular((#[trigger] src[i]).header) ==> sha1_of(
                src[i].payload,
            ).len() == 20,
    ensures
        wf_entries(index_models(src)),
        crate::archive::parse_tar(tar_bytes(index_models(src))) == Some(index_models(src)),
{
    let im = index_models(src);
    assert forall|i: int| 0 <= i < im.len() implies wf_entry(#[trigger] im[i]) by {
        assert(im[i] == index_entry_model(src[i]));
        assert(wf_entry(src[i]));
        if is_regular(src[i].header) {
            lemma_pow8_11_value();
            lemma_with_size_props(src[i].header, 20);
        }
    }
    crate::archive::lemma_parse_tar_bytes(im);
}

proof fn lemma_filter_all_false<A>(s: Seq<A>, pred: spec_fn(A) -> bool)
    requires
        forall|i: int| 0 <= i < s.len() ==> !pred(#[trigger] s[i]),
    ensures
        s.filter(pred) == Seq::<A>::empty(),
    decreases s.len(),
{
    reveal(Seq::<_>::filter);
    if s.len() > 0 {
        lemma_filter_all_false(s.drop_last(), pred);
    }
}

/// Which paths the receiver asks for: exactly the regular entries the
/// local library does not cover, in index order.
pub proof fn lemma_partial_locality(src: Seq<EntryModel>, local: Seq<ConcreteModel>)
    requires
        wf_entries(src),
    ensures
        lookup_paths(merge_models(aentries_of(index_models(src)), local)) == src.filter(
            |e: EntryModel| is_regular(e.header) && find_concrete(
                local,
                header_path(e.header),
            ) is None,
        ).map_values(|e: EntryModel| header_path(e.header)),
    decreases src.len(),
{
    reveal(Seq::<_>::filter);
    let missing = |e: EntryModel| is_regular(e.header) && find_concrete(
        local,
        header_path(e.header),
    ) is None;
    let pathf = |e: EntryModel| header_path(e.header);
    let aes1 = merge_models(aentries_of(index_models(src)), local);
    let islk = |e: AEntryModel| e is Lookup;
    if src.len() == 0 {
        assert(aes1 =~= Seq::<AEntryModel>::empty());
        assert(aes1.filter(islk) == Seq::<AEntryModel>::empty());
        assert(lookup_paths(aes1) =~= Seq::<Seq<u8>>::empty());
        assert(src.filter(missing) == Seq::<EntryModel>::empty());
        assert(src.filter(missing).map_values(pathf) =~= Seq::<Seq<u8>>::empty());
    } else {
        let s0 = src.drop_last();
        assert(wf_entries(s0)) by {
            assert(forall|i: int|
                0 <= i < s0.len() ==> #[trigger] s0[i] == src[i]);
        }
        lemma_partial_locality(s0, local);
        let aes1p = merge_models(aentries_of(index_models(s0)), local);
        assert(aes1p =~= aes1.drop_last()) by {
            assert(forall|i: int|
                0 <= i < s0.len() ==> #[trigger] s0[i] == src[i]);
        }
        let e = src.last();
        assert(wf_entry(e)) by {
            assert(src[src.len() - 1] == e);
        }
        let a_last = aes1[src.len() - 1];
        assert(a_last == merge_one(aentry_of(index_entry_model(e)), local));
        // The last archive entry is a Lookup exactly when the source entry
        // is regular and the library does not cover its path.
        if is_regular(e.header) {
            lemma_pow8_11_value();
            lemma_with_size_props(e.header, 20);
        }
        assert((a_last is Lookup) == missing(e));
        if a_last is Lookup {
            assert(aentry_path(a_last) == pathf(e));
        }
        assert(aes1.drop_last() =~= aes1p);
        assert(aes1.last() == a_last);
        assert(src.filter(missing) == if missing(e) {
            s0.filter(missing).push(e)
        } else {
            s0.filter(missing)
        });
        assert(aes1.filter(islk) == if a_last is Lookup {
            aes1p.filter(islk).push(a_last)
        } else {
            aes1p.filter(islk)
        });
        if missing(e) {
            assert(lookup_paths(aes1) =~= lookup_paths(aes1p).push(aentry_path(a_last)));
            assert(src.filter(missing).map_values(pathf) =~= s0.filter(
                missing,
            ).map_values(pathf).push(pathf(e)));
        } else {
            assert(lookup_paths(aes1) =~= lookup_paths(aes1p));
            assert(src.filter(missing).map_values(pathf) =~= s0.filter(
                missing,
            ).map_values(pathf));
        }
    }
}

/// Local short circuit: when the library covers every regular entry, no
/// path is asked for — the want-list bytes are empty — and the parts
/// tarball the sender would build is the empty tar.
pub proof fn lemma_local_short_circuit(src: Seq<EntryModel>, local: Seq<ConcreteModel>)
    requires
        wf_entries(src),
        forall|i: int|
            0 <= i < src.len() && is_regular((#[trigger] src[i]).header) ==> find_concrete(
                local,
                header_path(src[i].header),
            ) is Some,
    ensures
        ({
            let w1 = lookup_paths(merge_models(aentries_of(index_models(src)), local));
            &&& w1 == Seq::<Seq<u8>>::empty()
            &&& join_lines(w1) == Seq::<u8>::empty()
            &&& wanted_models(src, w1) == Seq::<EntryModel>::empty()
            &&& tar_bytes(wanted_models(src, w1)) == zero_bytes(1024)
        }),
{
    lemma_partial_locality(src, local);
    let missing = |e: EntryModel| is_regular(e.header) && find_concrete(
        local,
        header_path(e.header),
    ) is None;
    lemma_filter_all_false(src, missing);
    let w1 = lookup_paths(merge_models(aentries_of(index_models(src)), local));
    assert(w1 =~= Seq::<Seq<u8>>::empty());
    lemma_wanted_models_empty(src, w1);
    assert(tar_bytes(Seq::<EntryModel>::empty()) =~= zero_bytes(1024));
}

/// Reconstruction is a pure function of its inputs: two runs over the same
/// entry list and the same two mappings end in the same state. Together
/// with the builder's determinism this gives run-to-run idempotence.
pub proof fn lemma_receiver_deterministic(
    es_a: Seq<AEntryModel>,
    es_b: Seq<AEntryModel>,
    local_a: Seq<ConcreteModel>,
    local_b: Seq<ConcreteModel>,
    remote_a: Seq<ConcreteModel>,
    remote_b: Seq<ConcreteModel>,
)
    requires
        es_a == es_b,
        local_a == local_b,
        remote_a == remote_b,
    ensures
        merge_models(merge_models(es_a, local_a), remote_a) == merge_models(
            merge_models(es_b, local_b),
            remote_b,
        ),
{
}

/// The whole wire, composed: an index blob as the builder promises it
/// decompresses and parses to exactly the index entries, the parts
/// tarball the sender frames parses to exactly the entries it packed, and
/// after both merge passes the receiver writes back the source tarball,
/// byte for byte.
pub proof fn lemma_wire_round_trip(
    src: Seq<EntryModel>,
    local: Seq<ConcreteModel>,
    index_blob: Seq<u8>,
)
    requires
        wf_entries(src),
        paths_distinct(src),
        local_matches_source(src, local),
        forall|i: int|
            0 <= i < src.len() && is_regular((#[trigger] src[i]).header) ==> sha1_of(
                src[i].payload,
            ).len() == 20,
        crate::gzip::gunzip_of(index_blob) == Some(tar_bytes(index_models(src))),
    ensures
        ({
            let idx = index_models(src);
            let aes1 = merge_models(aentries_of(idx), local);
            let parts = wanted_models(src, lookup_paths(aes1));
            let aes2 = merge_models(aes1, concretes_of(parts));
            &&& crate::archive::parse_tar(crate::gzip::gunzip_of(index_blob).unwrap())
                == Some(idx)
            &&& crate::archive::parse_tar(tar_bytes(parts)) == Some(parts)
            &&& all_concrete(aes2)
            &&& tar_bytes(entries_of_concretes(concretes_seq(aes2))) == tar_bytes(src)
        }),
{
    lemma_index_parses_back(src);
    lemma_transfer_round_trip(src, local);
    let aes1 = merge_models(aentries_of(index_models(src)), local);
    let w1 = lookup_paths(aes1);
    let pred = |em: EntryModel| w1.contains(header_path(em.header));
    let parts = wanted_models(src, w1);
    assert(parts == src.filter(pred));
    assert forall|k: int| 0 <= k < parts.len() implies wf_entry(#[trigger] parts[k]) by {
        lemma_filter_member(src, pred, k);
        let m = choose|m: int| 0 <= m < src.len() && src[m] == parts[k];
        assert(wf_entry(src[m]));
    }
    crate::archive::lemma_parse_tar_bytes(parts);
}

/// The reconstructed tarball does not depend on how the library was laid
/// out or in which order its candidates were scanned: any two honest
/// libraries — even ones covering different subsets — lead to the same
/// output, the source itself.
pub proof fn lemma_library_order_independent(
    src: Seq<EntryModel>,
    local_a: Seq<ConcreteModel>,
    local_b: Seq<ConcreteModel>,
)
    requires
        wf_entries(src),
        paths_distinct(src),
        local_matches_source(src, local_a),
        local_matches_source(src, local_b),
    ensures
        ({
            let aes1_a = merge_models(aentries_of(index_models(src)), local_a);
            let aes2_a = merge_models(
                aes1_a,
                concretes_of(wanted_models(src, lookup_paths(aes1_a))),
            );
            let aes1_b = merge_models(aentries_of(index_models(src)), local_b);
            let aes2_b = merge_models(
                aes1_b,
                concretes_of(wanted_models(src, lookup_paths(aes1_b))),
            );
            concretes_seq(aes2_a) == concretes_seq(aes2_b)
        }),
{
    lemma_transfer_round_trip(src, local_a);
    lemma_transfer_round_trip(src, local_b);
}

} // verus!
