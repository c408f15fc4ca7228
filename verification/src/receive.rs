//! Receiver-side protocol pieces: ingesting the index, scanning the local
//! library, merging recovered content, and assembling the final tarball.
//!
//! The index turns into an ordered list of archive entries: a regular-file
//! entry becomes a Lookup carrying the digest read from the index, every
//! other entry a Concrete carrying its verbatim bytes. Two merge passes —
//! local library first, then the peer's parts tarball — replace Lookups by
//! Concretes; a Lookup may become Concrete exactly once and is never
//! demoted. Finalisation demands that nothing is left to look up.

use vstd::prelude::*;
use vstd::slice::slice_to_vec;
use crate::archive::{
    entry_models, header_path, header_path_exec, is_regular, is_regular_exec,
    lemma_parse_tar_wf, parse_tar, parse_tar_exec, serialize_tar, tar_bytes, wf_entry,
    EntryModel, TarEntry,
};
use crate::bytes::bytes_eq;
use crate::gzip::{gunzip_of, gzip_decompress};

verus! {

/// How the receiver side fails.
#[derive(Debug)]
pub enum ReceiveIndexError {
    /// A stream or file could not be read or written. Only callers that
    /// perform I/O around this module report it.
    Io,
    /// A frame on the wire did not carry a well-formed length prefix or
    /// was cut short.
    MalformedFrame,
    /// The index frame did not decompress or did not parse as a tar.
    BadIndex,
    /// The parts frame did not parse as a tar.
    BadParts,
    /// A path on the want-list is not valid UTF-8 and cannot go on the
    /// line-oriented wire.
    NonUtf8Path(Vec<u8>),
    /// An entry was still unresolved at finalisation; carries its path.
    NonConcreteEntry(Vec<u8>),
}

/// An entry whose content is fully materialised and ready to be written.
pub struct ConcreteEntry {
    pub header: Vec<u8>,
    pub path: Vec<u8>,
    pub bytes: Vec<u8>,
}

/// The mathematical shape of a concrete entry.
pub ghost struct ConcreteModel {
    pub header: Seq<u8>,
    pub path: Seq<u8>,
    pub bytes: Seq<u8>,
}

impl View for ConcreteEntry {
    type V = ConcreteModel;

    open spec fn view(&self) -> ConcreteModel {
        ConcreteModel { header: self.header@, path: self.path@, bytes: self.bytes@ }
    }
}

/// One entry of the archive under reconstruction.
pub enum ArchiveEntry {
    /// Content in hand.
    Concrete(ConcreteEntry),
    /// Content still to be found; carries the digest read from the index.
    Lookup { header: Vec<u8>, path: Vec<u8>, digest: Vec<u8> },
}

/// The mathematical shape of an archive entry.
pub ghost enum AEntryModel {
    Concrete(ConcreteModel),
    Lookup { header: Seq<u8>, path: Seq<u8>, digest: Seq<u8> },
}

impl View for ArchiveEntry {
    type V = AEntryModel;

    open spec fn view(&self) -> AEntryModel {
        match self {
            ArchiveEntry::Concrete(c) => AEntryModel::Concrete(c@),
            ArchiveEntry::Lookup { header, path, digest } => AEntryModel::Lookup {
                header: header@,
                path: path@,
                digest: digest@,
            },
        }
    }
}

/// The models of a sequence of archive entries.
pub open spec fn aentry_models(s: Seq<ArchiveEntry>) -> Seq<AEntryModel> {
    s.map_values(|e: ArchiveEntry| e@)
}

/// The models of a sequence of concrete entries.
pub open spec fn concrete_models(s: Seq<ConcreteEntry>) -> Seq<ConcreteModel> {
    s.map_values(|e: ConcreteEntry| e@)
}

/// One wanted (path, digest) pair.
pub struct WantEntry {
    pub path: Vec<u8>,
    pub digest: Vec<u8>,
}

/// The mathematical shape of a wanted pair.
pub ghost struct WantModel {
    pub path: Seq<u8>,
    pub digest: Seq<u8>,
}

impl View for WantEntry {
    type V = WantModel;

    open spec fn view(&self) -> WantModel {
        WantModel { path: self.path@, digest: self.digest@ }
    }
}

/// The models of a sequence of wanted pairs.
pub open spec fn want_entry_models(s: Seq<WantEntry>) -> Seq<WantModel> {
    s.map_values(|e: WantEntry| e@)
}

/// The archive entry an index entry turns into: regular files become
/// Lookups of their digest, everything else is Concrete at once.
pub open spec fn aentry_of(e: EntryModel) -> AEntryModel {
    if is_regular(e.header) {
        AEntryModel::Lookup {
            header: e.header,
            path: header_path(e.header),
            digest: e.payload,
        }
    } else {
        AEntryModel::Concrete(
            ConcreteModel {
                header: e.header,
                path: header_path(e.header),
                bytes: e.payload,
            },
        )
    }
}

/// The archive entries of a parsed index, in index order.
pub open spec fn aentries_of(es: Seq<EntryModel>) -> Seq<AEntryModel> {
    es.map_values(|e: EntryModel| aentry_of(e))
}

/// The wanted (path, digest) pairs of a parsed index: one per regular
/// entry, in index order.
pub open spec fn want_pairs_of(es: Seq<EntryModel>) -> Seq<WantModel> {
    es.filter(|e: EntryModel| is_regular(e.header)).map_values(
        |e: EntryModel| WantModel { path: header_path(e.header), digest: e.payload },
    )
}

/// The concrete entry a parsed tar entry materialises into.
pub open spec fn concrete_of(e: EntryModel) -> ConcreteModel {
    ConcreteModel { header: e.header, path: header_path(e.header), bytes: e.payload }
}

/// All entries of a parsed tar as concrete entries, in order.
pub open spec fn concretes_of(es: Seq<EntryModel>) -> Seq<ConcreteModel> {
    es.map_values(|e: EntryModel| concrete_of(e))
}

/// Ingest an index blob: decompress it, parse the tar, and hand back the
/// ordered archive entries together with the wanted pairs. Fails exactly
/// when the blob is not gzip or its content is not a tar archive.
#[verifier::loop_isolation(false)]
pub fn archive_entries_for_index(index: &Vec<u8>) -> (r: Result<
    (Vec<ArchiveEntry>, Vec<WantEntry>),
    ReceiveIndexError,
>)
    ensures
        match r {
            Ok(p) => {
                &&& gunzip_of(index@) is Some
                &&& parse_tar(gunzip_of(index@).unwrap()) is Some
                &&& aentry_models(p.0@) == aentries_of(
                    parse_tar(gunzip_of(index@).unwrap()).unwrap(),
                )
                &&& want_entry_models(p.1@) == want_pairs_of(
                    parse_tar(gunzip_of(index@).unwrap()).unwrap(),
                )
            },
            Err(e) => {
                &&& e is BadIndex
                &&& (gunzip_of(index@) is None || parse_tar(
                    gunzip_of(index@).unwrap(),
                ) is None)
            },
        },
{
    let tar = match gzip_decompress(index) {
        Some(t) => t,
        None => {
            return Err(ReceiveIndexError::BadIndex);
        },
    };
    let entries = match parse_tar_exec(tar.as_slice()) {
        Some(e) => e,
        None => {
            return Err(ReceiveIndexError::BadIndex);
        },
    };
    proof {
        lemma_parse_tar_wf(tar@);
    }
    let ghost src_models = entry_models(entries@);
    let mut aentries: Vec<ArchiveEntry> = Vec::new();
    let mut want: Vec<WantEntry> = Vec::new();
    let mut i: usize = 0;
    proof {
        reveal(Seq::<_>::filter);
        assert(src_models.subrange(0, 0) =~= Seq::<EntryModel>::empty());
        assert(aentry_models(aentries@) =~= aentries_of(src_models.subrange(0, 0)));
        assert(want_entry_models(want@) =~= want_pairs_of(src_models.subrange(0, 0)));
    }
    while i < entries.len()
        invariant
            0 <= i <= entries@.len(),
            entry_models(entries@) == src_models,
            crate::archive::wf_entries(src_models),
            aentry_models(aentries@) == aentries_of(src_models.subrange(0, i as int)),
            want_entry_models(want@) == want_pairs_of(src_models.subrange(0, i as int)),
        decreases entries@.len() - i,
    {
        let e = &entries[i];
        proof {
            assert(src_models[i as int] == e@);
            assert(wf_entry(src_models[i as int]));
        }
        let path = header_path_exec(e.header.as_slice());
        let header = slice_to_vec(e.header.as_slice());
        let content = slice_to_vec(e.payload.as_slice());
        let ghost old_a = aentry_models(aentries@);
        let ghost old_w = want_entry_models(want@);
        if is_regular_exec(e.header.as_slice()) {
            let digest2 = slice_to_vec(content.as_slice());
            aentries.push(
                ArchiveEntry::Lookup { header, path: slice_to_vec(path.as_slice()), digest: content },
            );
            want.push(WantEntry { path, digest: digest2 });
            proof {
                assert(aentry_models(aentries@) =~= old_a.push(aentry_of(src_models[i as int])));
                assert(want_entry_models(want@) =~= old_w.push(
                    WantModel {
                        path: header_path(src_models[i as int].header),
                        digest: src_models[i as int].payload,
                    },
                ));
            }
        } else {
            aentries.push(ArchiveEntry::Concrete(ConcreteEntry { header, path, bytes: content }));
            proof {
                assert(aentry_models(aentries@) =~= old_a.push(aentry_of(src_models[i as int])));
            }
        }
        proof {
            reveal(Seq::<_>::filter);
            let prefix = src_models.subrange(0, i as int);
            let prefix1 = src_models.subrange(0, i + 1);
            assert(prefix1.drop_last() =~= prefix);
            assert(prefix1.last() == src_models[i as int]);
            assert(aentries_of(prefix1) =~= aentries_of(prefix).push(
                aentry_of(src_models[i as int]),
            ));
            let pred = |e: EntryModel| is_regular(e.header);
            if is_regular(src_models[i as int].header) {
                assert(prefix1.filter(pred) =~= prefix.filter(pred).push(
                    src_models[i as int],
                ));
                assert(want_pairs_of(prefix1) =~= want_pairs_of(prefix).push(
                    WantModel {
                        path: header_path(src_models[i as int].header),
                        digest: src_models[i as int].payload,
                    },
                ));
            } else {
                assert(prefix1.filter(pred) =~= prefix.filter(pred));
                assert(want_pairs_of(prefix1) =~= want_pairs_of(prefix));
            }
        }
        i = i + 1;
    }
    proof {
        assert(src_models.subrange(0, src_models.len() as int) =~= src_models);
    }
    Ok((aentries, want))
}

/// Ingest the parts blob: parse it as an uncompressed tar and materialise
/// every entry. Fails exactly when the blob is not a tar archive.
#[verifier::loop_isolation(false)]
pub fn find_remote_entries(parts: &Vec<u8>) -> (r: Result<Vec<ConcreteEntry>, ReceiveIndexError>)
    ensures
        match r {
            Ok(v) => parse_tar(parts@) is Some && concrete_models(v@) == concretes_of(
                parse_tar(parts@).unwrap(),
            ),
            Err(e) => e is BadParts && parse_tar(parts@) is None,
        },
{
    let entries = match parse_tar_exec(parts.as_slice()) {
        Some(e) => e,
        None => {
            return Err(ReceiveIndexError::BadParts);
        },
    };
    proof {
        lemma_parse_tar_wf(parts@);
    }
    let ghost src_models = entry_models(entries@);
    let mut out: Vec<ConcreteEntry> = Vec::new();
    let mut i: usize = 0;
    proof {
        assert(src_models.subrange(0, 0) =~= Seq::<EntryModel>::empty());
        assert(concrete_models(out@) =~= concretes_of(src_models.subrange(0, 0)));
    }
    while i < entries.len()
        invariant
            0 <= i <= entries@.len(),
            entry_models(entries@) == src_models,
            crate::archive::wf_entries(src_models),
            concrete_models(out@) == concretes_of(src_models.subrange(0, i as int)),
        decreases entries@.len() - i,
    {
        let e = &entries[i];
        proof {
            assert(src_models[i as int] == e@);
            assert(wf_entry(src_models[i as int]));
        }
        let path = header_path_exec(e.header.as_slice());
        let ghost old_out = concrete_models(out@);
        out.push(
            ConcreteEntry {
                header: slice_to_vec(e.header.as_slice()),
                path,
                bytes: slice_to_vec(e.payload.as_slice()),
            },
        );
        proof {
            assert(concrete_models(out@) =~= old_out.push(concrete_of(src_models[i as int])));
            let prefix1 = src_models.subrange(0, i + 1);
            assert(concretes_of(prefix1) =~= concretes_of(src_models.subrange(0, i as int)).push(
                concrete_of(src_models[i as int]),
            ));
        }
        i = i + 1;
    }
    proof {
        assert(src_models.subrange(0, src_models.len() as int) =~= src_models);
    }
    Ok(out)
}

/// A fresh copy of a concrete entry.
pub fn clone_concrete(c: &ConcreteEntry) -> (r: ConcreteEntry)
    ensures
        r@ == c@,
{
    ConcreteEntry {
        header: slice_to_vec(c.header.as_slice()),
        path: slice_to_vec(c.path.as_slice()),
        bytes: slice_to_vec(c.bytes.as_slice()),
    }
}

/// Whether the pair (path, digest) stands in the wanted list.
fn contains_want(wanted: &Vec<WantEntry>, path: &Vec<u8>, digest: &Vec<u8>) -> (r: bool)
    ensures
        r == want_entry_models(wanted@).contains(
            WantModel { path: path@, digest: digest@ },
        ),
{
    let mut i: usize = 0;
    while i < wanted.len()
        invariant
            0 <= i <= wanted@.len(),
            forall|j: int| 0 <= j < i ==> #[trigger] wanted@[j]@ != (WantModel {
                path: path@,
                digest: digest@,
            }),
        decreases wanted@.len() - i,
    {
        let w = &wanted[i];
        if bytes_eq(w.path.as_slice(), path.as_slice()) && bytes_eq(
            w.digest.as_slice(),
            digest.as_slice(),
        ) {
            proof {
                assert(want_entry_models(wanted@)[i as int] == (WantModel {
                    path: path@,
                    digest: digest@,
                }));
            }
            return true;
        }
        i = i + 1;
    }
    proof {
        assert forall|j: int| 0 <= j < want_entry_models(wanted@).len() implies
            want_entry_models(wanted@)[j] != (WantModel {
            path: path@,
            digest: digest@,
        }) by {
            assert(want_entry_models(wanted@)[j] == wanted@[j]@);
        }
    }
    false
}

/// The paths a candidate can contribute: those of its own (path, digest)
/// pairs that stand in the wanted list, in candidate-index order.
pub open spec fn extract_paths(cand: Seq<WantModel>, wanted: Seq<WantModel>) -> Seq<
    Seq<u8>,
> {
    cand.filter(|w: WantModel| wanted.contains(w)).map_values(|w: WantModel| w.path)
}

/// Read a candidate's index and intersect its pairs with the wanted list.
/// Fails exactly when the candidate index is not gzip or not a tar.
#[verifier::loop_isolation(false)]
pub fn candidate_extract_list(wanted: &Vec<WantEntry>, candidate_index: &Vec<u8>) -> (r:
    Result<Vec<Vec<u8>>, ReceiveIndexError>)
    ensures
        match r {
            Ok(v) => {
                &&& gunzip_of(candidate_index@) is Some
                &&& parse_tar(gunzip_of(candidate_index@).unwrap()) is Some
                &&& v.deep_view() == extract_paths(
                    want_pairs_of(parse_tar(gunzip_of(candidate_index@).unwrap()).unwrap()),
                    want_entry_models(wanted@),
                )
            },
            Err(e) => {
                &&& e is BadIndex
                &&& (gunzip_of(candidate_index@) is None || parse_tar(
                    gunzip_of(candidate_index@).unwrap(),
                ) is None)
            },
        },
{
    let (_aentries, cand_want) = match archive_entries_for_index(candidate_index) {
        Ok(p) => p,
        Err(e) => {
            return Err(e);
        },
    };
    let ghost cand = want_entry_models(cand_want@);
    let ghost wm = want_entry_models(wanted@);
    let ghost pred = |w: WantModel| wm.contains(w);
    let mut out: Vec<Vec<u8>> = Vec::new();
    let mut i: usize = 0;
    proof {
        reveal(Seq::<_>::filter);
        assert(cand.subrange(0, 0) =~= Seq::<WantModel>::empty());
        assert(out.deep_view() =~~= extract_paths(cand.subrange(0, 0), wm));
    }
    while i < cand_want.len()
        invariant
            0 <= i <= cand_want@.len(),
            cand == want_entry_models(cand_want@),
            wm == want_entry_models(wanted@),
            pred == (|w: WantModel| wm.contains(w)),
            out.deep_view() == extract_paths(cand.subrange(0, i as int), wm),
        decreases cand_want@.len() - i,
    {
        let w = &cand_want[i];
        proof {
            assert(cand[i as int] == w@);
        }
        let ghost old_out = out.deep_view();
        if contains_want(wanted, &w.path, &w.digest) {
            out.push(slice_to_vec(w.path.as_slice()));
            proof {
                assert(out.deep_view() =~~= old_out.push(cand[i as int].path));
            }
        }
        proof {
            reveal(Seq::<_>::filter);
            let prefix = cand.subrange(0, i as int);
            let prefix1 = cand.subrange(0, i + 1);
            assert(prefix1.drop_last() =~= prefix);
            assert(prefix1.last() == cand[i as int]);
            if pred(cand[i as int]) {
                assert(prefix1.filter(pred) =~= prefix.filter(pred).push(cand[i as int]));
                assert(extract_paths(prefix1, wm) =~= extract_paths(prefix, wm).push(
                    cand[i as int].path,
                ));
            } else {
                assert(prefix1.filter(pred) =~= prefix.filter(pred));
                assert(extract_paths(prefix1, wm) =~= extract_paths(prefix, wm));
            }
        }
        i = i + 1;
    }
    proof {
        assert(cand.subrange(0, cand.len() as int) =~= cand);
    }
    Ok(out)
}

/// The concrete entries of a parsed tar whose paths stand in `paths`, in
/// tar order.
pub open spec fn extracted_concretes(es: Seq<EntryModel>, paths: Seq<Seq<u8>>) -> Seq<
    ConcreteModel,
> {
    concretes_of(es.filter(|e: EntryModel| paths.contains(header_path(e.header))))
}

/// Materialise the entries of a candidate tarball whose paths are in the
/// extract list. Fails exactly when the bytes are not a tar archive.
#[verifier::loop_isolation(false)]
pub fn extract_concrete(candidate: &Vec<u8>, extract: &Vec<Vec<u8>>) -> (r: Result<
    Vec<ConcreteEntry>,
    ReceiveIndexError,
>)
    ensures
        match r {
            Ok(v) => parse_tar(candidate@) is Some && concrete_models(v@)
                == extracted_concretes(parse_tar(candidate@).unwrap(), extract.deep_view()),
            Err(e) => e is BadParts && parse_tar(candidate@) is None,
        },
{
    let entries = match parse_tar_exec(candidate.as_slice()) {
        Some(e) => e,
        None => {
            return Err(ReceiveIndexError::BadParts);
        },
    };
    proof {
        lemma_parse_tar_wf(candidate@);
    }
    let ghost src_models = entry_models(entries@);
    let ghost paths = extract.deep_view();
    let ghost pred = |e: EntryModel| paths.contains(header_path(e.header));
    let mut out: Vec<ConcreteEntry> = Vec::new();
    let mut i: usize = 0;
    proof {
        reveal(Seq::<_>::filter);
        assert(src_models.subrange(0, 0) =~= Seq::<EntryModel>::empty());
        assert(concrete_models(out@) =~= extracted_concretes(src_models.subrange(0, 0), paths));
    }
    while i < entries.len()
        invariant
            0 <= i <= entries@.len(),
            entry_models(entries@) == src_models,
            crate::archive::wf_entries(src_models),
            paths == extract.deep_view(),
            pred == (|e: EntryModel| paths.contains(header_path(e.header))),
            concrete_models(out@) == extracted_concretes(src_models.subrange(0, i as int), paths),
        decreases entries@.len() - i,
    {
        let e = &entries[i];
        proof {
            assert(src_models[i as int] == e@);
            assert(wf_entry(src_models[i as int]));
        }
        let path = header_path_exec(e.header.as_slice());
        let ghost old_out = concrete_models(out@);
        let take = crate::upload::contains_path(extract, &path);
        if take {
            out.push(
                ConcreteEntry {
                    header: slice_to_vec(e.header.as_slice()),
                    path,
                    bytes: slice_to_vec(e.payload.as_slice()),
                },
            );
            proof {
                assert(concrete_models(out@) =~= old_out.push(concrete_of(src_models[i as int])));
            }
        }
        proof {
            reveal(Seq::<_>::filter);
            let prefix = src_models.subrange(0, i as int);
            let prefix1 = src_models.subrange(0, i + 1);
            assert(prefix1.drop_last() =~= prefix);
            assert(prefix1.last() == src_models[i as int]);
            if take {
                assert(prefix1.filter(pred) =~= prefix.filter(pred).push(src_models[i as int]));
                assert(extracted_concretes(prefix1, paths) =~= extracted_concretes(
                    prefix,
                    paths,
                ).push(concrete_of(src_models[i as int])));
            } else {
                assert(prefix1.filter(pred) =~= prefix.filter(pred));
                assert(extracted_concretes(prefix1, paths) =~= extracted_concretes(
                    prefix,
                    paths,
                ));
            }
        }
        i = i + 1;
    }
    proof {
        assert(src_models.subrange(0, src_models.len() as int) =~= src_models);
    }
    Ok(out)
}

/// Scan one candidate pair of the library: read its index, intersect with
/// the wanted pairs, and — only when the intersection is not empty —
/// materialise the matching entries of its tarball. A failing candidate
/// reports its error and contributes nothing; the caller may skip it.
pub fn find_entries(wanted: &Vec<WantEntry>, candidate: &Vec<u8>, candidate_index: &Vec<u8>)
    -> (r: Result<Vec<ConcreteEntry>, ReceiveIndexError>)
    ensures
        match r {
            Ok(v) => {
                &&& gunzip_of(candidate_index@) is Some
                &&& parse_tar(gunzip_of(candidate_index@).unwrap()) is Some
                &&& {
                    let ex = extract_paths(
                        want_pairs_of(
                            parse_tar(gunzip_of(candidate_index@).unwrap()).unwrap(),
                        ),
                        want_entry_models(wanted@),
                    );
                    if ex.len() == 0 {
                        concrete_models(v@) == Seq::<ConcreteModel>::empty()
                    } else {
                        parse_tar(candidate@) is Some && concrete_models(v@)
                            == extracted_concretes(parse_tar(candidate@).unwrap(), ex)
                    }
                }
            },
            Err(e) => {
                ||| (e is BadIndex && (gunzip_of(candidate_index@) is None || parse_tar(
                    gunzip_of(candidate_index@).unwrap(),
                ) is None))
                ||| (e is BadParts && gunzip_of(candidate_index@) is Some && parse_tar(
                    gunzip_of(candidate_index@).unwrap(),
                ) is Some && extract_paths(
                    want_pairs_of(parse_tar(gunzip_of(candidate_index@).unwrap()).unwrap()),
                    want_entry_models(wanted@),
                ).len() > 0 && parse_tar(candidate@) is None)
            },
        },
{
    let extract = match candidate_extract_list(wanted, candidate_index) {
        Ok(v) => v,
        Err(e) => {
            return Err(e);
        },
    };
    if extract.len() == 0 {
        let empty: Vec<ConcreteEntry> = Vec::new();
        proof {
            assert(concrete_models(empty@) =~= Seq::<ConcreteModel>::empty());
            assert(extract.deep_view().len() == 0);
        }
        return Ok(empty);
    }
    extract_concrete(candidate, &extract)
}

/// The first entry of `l` with the given path, if any. With duplicate
/// paths in a library, the earliest match wins.
pub open spec fn find_concrete(l: Seq<ConcreteModel>, p: Seq<u8>) -> Option<ConcreteModel>
    decreases l.len(),
{
    if l.len() == 0 {
        None
    } else if l[0].path == p {
        Some(l[0])
    } else {
        find_concrete(l.drop_first(), p)
    }
}

/// The path of an archive entry, resolved or not.
pub open spec fn aentry_path(e: AEntryModel) -> Seq<u8> {
    match e {
        AEntryModel::Concrete(c) => c.path,
        AEntryModel::Lookup { path, .. } => path,
    }
}

/// What one merge pass does to one entry: a Lookup whose path the mapping
/// covers becomes that Concrete; everything else is untouched.
pub open spec fn merge_one(e: AEntryModel, l: Seq<ConcreteModel>) -> AEntryModel {
    match e {
        AEntryModel::Lookup { header, path, digest } => match find_concrete(l, path) {
            Some(c) => AEntryModel::Concrete(c),
            None => e,
        },
        AEntryModel::Concrete(_) => e,
    }
}

/// One merge pass over the whole entry list, in place and in order.
pub open spec fn merge_models(es: Seq<AEntryModel>, l: Seq<ConcreteModel>) -> Seq<
    AEntryModel,
> {
    es.map_values(|e: AEntryModel| merge_one(e, l))
}

/// The paths of the entries that are still Lookups, in entry order: the
/// want-list that remains after a pass.
pub open spec fn lookup_paths(es: Seq<AEntryModel>) -> Seq<Seq<u8>> {
    es.filter(|e: AEntryModel| e is Lookup).map_values(|e: AEntryModel| aentry_path(e))
}

/// A merge pass never demotes an entry: once Concrete, an entry keeps its
/// value through every later pass, whatever the mapping holds.
pub proof fn lemma_concrete_never_demoted(es: Seq<AEntryModel>, l: Seq<ConcreteModel>, i: int)
    requires
        0 <= i < es.len(),
        !(es[i] is Lookup),
    ensures
        merge_models(es, l)[i] == es[i],
{
}

/// Find the first entry of the mapping with this path.
#[verifier::loop_isolation(false)]
fn find_concrete_exec(lookup: &Vec<ConcreteEntry>, p: &Vec<u8>) -> (r: Option<usize>)
    ensures
        match r {
            Some(ix) => ix < lookup@.len() && find_concrete(concrete_models(lookup@), p@)
                == Some(lookup@[ix as int]@),
            None => find_concrete(concrete_models(lookup@), p@) is None,
        },
{
    let ghost l = concrete_models(lookup@);
    let mut i: usize = 0;
    proof {
        assert(l.skip(0) =~= l);
    }
    while i < lookup.len()
        invariant
            0 <= i <= lookup@.len(),
            l == concrete_models(lookup@),
            find_concrete(l, p@) == find_concrete(l.skip(i as int), p@),
        decreases lookup@.len() - i,
    {
        proof {
            assert(l.skip(i as int)[0] == l[i as int]);
            assert(l[i as int] == lookup@[i as int]@);
        }
        if bytes_eq(lookup[i].path.as_slice(), p.as_slice()) {
            return Some(i);
        }
        proof {
            assert(l.skip(i as int).drop_first() =~= l.skip(i + 1));
        }
        i = i + 1;
    }
    proof {
        assert(l.skip(l.len() as int).len() == 0);
    }
    None
}

/// What one merge pass reports: the bytes merged (a diagnostic figure,
/// saturating at the machine limit) and the want-list that remains.
pub struct MergeResult {
    pub merged: usize,
    pub want_list: Vec<Vec<u8>>,
}

/// Walk the entries in order and replace each Lookup whose path the
/// mapping covers with the mapped Concrete. The entries that stay Lookups
/// give the remaining want-list, in entry order.
#[verifier::loop_isolation(false)]
pub fn merge_entries(entries: &mut Vec<ArchiveEntry>, lookup: &Vec<ConcreteEntry>) -> (r:
    MergeResult)
    ensures
        aentry_models(final(entries)@) == merge_models(
            aentry_models(old(entries)@),
            concrete_models(lookup@),
        ),
        r.want_list.deep_view() == lookup_paths(
            merge_models(aentry_models(old(entries)@), concrete_models(lookup@)),
        ),
{
    let ghost l = concrete_models(lookup@);
    let ghost orig = aentry_models(old(entries)@);
    let mut merged: usize = 0;
    let mut want_list: Vec<Vec<u8>> = Vec::new();
    let mut i: usize = 0;
    proof {
        reveal(Seq::<_>::filter);
        assert(orig.subrange(0, 0) =~= Seq::<AEntryModel>::empty());
        assert(want_list.deep_view() =~~= lookup_paths(
            merge_models(orig.subrange(0, 0), l),
        ));
    }
    while i < entries.len()
        invariant
            0 <= i <= entries@.len(),
            entries@.len() == old(entries)@.len(),
            l == concrete_models(lookup@),
            orig == aentry_models(old(entries)@),
            forall|j: int| i <= j < entries@.len() ==> entries@[j] == old(entries)@[j],
            forall|j: int|
                0 <= j < i ==> (#[trigger] entries@[j])@ == merge_one(orig[j], l),
            want_list.deep_view() == lookup_paths(merge_models(orig.subrange(0, i as int), l)),
        decreases entries@.len() - i,
    {
        proof {
            assert(orig[i as int] == old(entries)@[i as int]@);
        }
        let path_opt: Option<Vec<u8>> = match &entries[i] {
            ArchiveEntry::Lookup { path, .. } => Some(slice_to_vec(path.as_slice())),
            ArchiveEntry::Concrete(_) => None,
        };
        let ghost old_want = want_list.deep_view();
        match path_opt {
            Some(p) => {
                match find_concrete_exec(lookup, &p) {
                    Some(ix) => {
                        let c = clone_concrete(&lookup[ix]);
                        merged = merged.saturating_add(c.bytes.len());
                        entries.set(i, ArchiveEntry::Concrete(c));
                        proof {
                            assert(entries@[i as int]@ == merge_one(orig[i as int], l));
                        }
                    },
                    None => {
                        want_list.push(p);
                        proof {
                            assert(entries@[i as int]@ == merge_one(orig[i as int], l));
                            assert(want_list.deep_view() =~~= old_want.push(
                                aentry_path(merge_one(orig[i as int], l)),
                            ));
                        }
                    },
                }
            },
            None => {
                proof {
                    assert(entries@[i as int]@ == merge_one(orig[i as int], l));
                }
            },
        }
        proof {
            reveal(Seq::<_>::filter);
            let pred = |e: AEntryModel| e is Lookup;
            let prefix = merge_models(orig.subrange(0, i as int), l);
            let prefix1 = merge_models(orig.subrange(0, i + 1), l);
            assert(orig.subrange(0, i + 1).drop_last() =~= orig.subrange(0, i as int));
            assert(prefix1.drop_last() =~= prefix);
            assert(prefix1.last() == merge_one(orig[i as int], l));
            if merge_one(orig[i as int], l) is Lookup {
                assert(prefix1.filter(pred) =~= prefix.filter(pred).push(prefix1.last()));
                assert(lookup_paths(prefix1) =~= lookup_paths(prefix).push(
                    aentry_path(prefix1.last()),
                ));
            } else {
                assert(prefix1.filter(pred) =~= prefix.filter(pred));
                assert(lookup_paths(prefix1) =~= lookup_paths(prefix));
            }
        }
        i = i + 1;
    }
    proof {
        assert(orig.subrange(0, orig.len() as int) =~= orig);
        assert(aentry_models(entries@) =~= merge_models(orig, l));
    }
    MergeResult { merged, want_list }
}

/// Relies on str::from_utf8: it succeeds exactly on well-formed UTF-8,
/// which is what `vstd::utf8::valid_utf8` describes.
#[verifier::external_body]
fn utf8_check(b: &[u8]) -> (r: bool)
    ensures
        r == vstd::utf8::valid_utf8(b@),
{
    core::str::from_utf8(b).is_ok()
}

/// Every path of the list is valid UTF-8, as the line wire demands.
pub open spec fn all_utf8_paths(ps: Seq<Seq<u8>>) -> bool {
    forall|i: int| 0 <= i < ps.len() ==> vstd::utf8::valid_utf8(#[trigger] ps[i])
}

proof fn lemma_join_lines_snoc(ps: Seq<Seq<u8>>, p: Seq<u8>)
    ensures
        crate::upload::join_lines(ps.push(p)) == crate::upload::join_lines(ps) + p
            + seq![0x0au8],
    decreases ps.len(),
{
    if ps.len() == 0 {
        assert(ps.push(p).drop_first() =~= Seq::<Seq<u8>>::empty());
        assert(ps.push(p)[0] == p);
        assert(crate::upload::join_lines(ps.push(p)) == p + seq![0x0au8]
            + crate::upload::join_lines(Seq::<Seq<u8>>::empty()));
        assert(crate::upload::join_lines(Seq::<Seq<u8>>::empty()) == Seq::<u8>::empty());
        assert(p + seq![0x0au8] + Seq::<u8>::empty() =~= crate::upload::join_lines(ps) + p
            + seq![0x0au8]);
    } else {
        let rest = ps.drop_first();
        assert(ps.push(p).drop_first() =~= rest.push(p));
        lemma_join_lines_snoc(rest, p);
        assert(ps.push(p)[0] == ps[0]);
        assert(crate::upload::join_lines(ps.push(p)) == ps[0] + seq![0x0au8]
            + crate::upload::join_lines(rest.push(p)));
        assert(crate::upload::join_lines(ps) == ps[0] + seq![0x0au8]
            + crate::upload::join_lines(rest));
        assert(ps[0] + seq![0x0au8] + (crate::upload::join_lines(rest) + p + seq![0x0au8])
            =~= (ps[0] + seq![0x0au8] + crate::upload::join_lines(rest)) + p
            + seq![0x0au8]);
    }
}

/// Lay the remaining want-list out for the wire: each path as one
/// LF-terminated line, in want-list order. A path that is not valid UTF-8
/// is a fatal error naming that path.
#[verifier::loop_isolation(false)]
pub fn request_remaining_entries(want_list: &Vec<Vec<u8>>) -> (r: Result<
    Vec<u8>,
    ReceiveIndexError,
>)
    ensures
        match r {
            Ok(v) => all_utf8_paths(want_list.deep_view()) && v@ == crate::upload::join_lines(
                want_list.deep_view(),
            ),
            Err(e) => e matches ReceiveIndexError::NonUtf8Path(p) && exists|i: int|
                0 <= i < want_list.deep_view().len() && want_list.deep_view()[i] == p@
                    && !vstd::utf8::valid_utf8(p@),
        },
{
    let ghost ps = want_list.deep_view();
    let mut out: Vec<u8> = Vec::new();
    let mut i: usize = 0;
    proof {
        assert(ps.subrange(0, 0) =~= Seq::<Seq<u8>>::empty());
        assert(out@ =~= crate::upload::join_lines(ps.subrange(0, 0)));
    }
    while i < want_list.len()
        invariant
            0 <= i <= want_list@.len(),
            ps == want_list.deep_view(),
            forall|j: int| 0 <= j < i ==> vstd::utf8::valid_utf8(#[trigger] ps[j]),
            out@ == crate::upload::join_lines(ps.subrange(0, i as int)),
        decreases want_list@.len() - i,
    {
        let p = &want_list[i];
        if !utf8_check(p.as_slice()) {
            proof {
                assert(ps[i as int] =~= p@);
            }
            return Err(ReceiveIndexError::NonUtf8Path(slice_to_vec(p.as_slice())));
        }
        crate::bytes::push_bytes(&mut out, p.as_slice());
        out.push(0x0a);
        proof {
            assert(ps.subrange(0, i + 1) =~= ps.subrange(0, i as int).push(ps[i as int]));
            lemma_join_lines_snoc(ps.subrange(0, i as int), ps[i as int]);
            assert(ps[i as int] =~= p@);
            assert(out@ =~= crate::upload::join_lines(ps.subrange(0, i as int)) + p@
                + seq![0x0au8]);
        }
        i = i + 1;
    }
    proof {
        assert(ps.subrange(0, ps.len() as int) =~= ps);
    }
    Ok(out)
}

/// No entry of the list is still a Lookup.
pub open spec fn all_concrete(es: Seq<AEntryModel>) -> bool {
    forall|i: int| 0 <= i < es.len() ==> !((#[trigger] es[i]) is Lookup)
}

/// The concrete entries of a fully resolved list, in order. On a list
/// that still holds a Lookup the value of that position is unspecified.
pub open spec fn concretes_seq(es: Seq<AEntryModel>) -> Seq<ConcreteModel> {
    es.map_values(
        |e: AEntryModel| match e {
            AEntryModel::Concrete(c) => c,
            AEntryModel::Lookup { .. } => vstd::pervasive::arbitrary::<ConcreteModel>(),
        },
    )
}

/// Demand that every entry is resolved. The first entry that is still a
/// Lookup makes the whole reconstruction fail, named by its path.
#[verifier::loop_isolation(false)]
pub fn finalise_entries(entries: &Vec<ArchiveEntry>) -> (r: Result<
    Vec<ConcreteEntry>,
    ReceiveIndexError,
>)
    ensures
        match r {
            Ok(v) => all_concrete(aentry_models(entries@)) && concrete_models(v@)
                == concretes_seq(aentry_models(entries@)),
            Err(e) => e matches ReceiveIndexError::NonConcreteEntry(p) && exists|i: int|
                0 <= i < entries@.len() && ((#[trigger] entries@[i])@ matches
                    AEntryModel::Lookup { path, .. } && path == p@),
        },
{
    let ghost ms = aentry_models(entries@);
    let mut out: Vec<ConcreteEntry> = Vec::new();
    let mut i: usize = 0;
    proof {
        assert(ms.subrange(0, 0) =~= Seq::<AEntryModel>::empty());
        assert(concrete_models(out@) =~= concretes_seq(ms.subrange(0, 0)));
    }
    while i < entries.len()
        invariant
            0 <= i <= entries@.len(),
            ms == aentry_models(entries@),
            forall|j: int| 0 <= j < i ==> !((#[trigger] ms[j]) is Lookup),
            concrete_models(out@) == concretes_seq(ms.subrange(0, i as int)),
        decreases entries@.len() - i,
    {
        proof {
            assert(ms[i as int] == entries@[i as int]@);
        }
        let ghost old_out = concrete_models(out@);
        match &entries[i] {
            ArchiveEntry::Concrete(c) => {
                out.push(clone_concrete(c));
                proof {
                    assert(concrete_models(out@) =~= old_out.push(c@));
                    assert(ms.subrange(0, i + 1) =~= ms.subrange(0, i as int).push(
                        ms[i as int],
                    ));
                    assert(concretes_seq(ms.subrange(0, i + 1)) =~= concretes_seq(
                        ms.subrange(0, i as int),
                    ).push(c@));
                }
            },
            ArchiveEntry::Lookup { path, .. } => {
                return Err(ReceiveIndexError::NonConcreteEntry(slice_to_vec(path.as_slice())));
            },
        }
        i = i + 1;
    }
    proof {
        assert(ms.subrange(0, ms.len() as int) =~= ms);
    }
    Ok(out)
}

/// The tar entry a concrete entry writes out as.
pub open spec fn entry_of_concrete(c: ConcreteModel) -> EntryModel {
    EntryModel { header: c.header, payload: c.bytes }
}

/// The tar entries of a list of concrete entries, in order.
pub open spec fn entries_of_concretes(cs: Seq<ConcreteModel>) -> Seq<EntryModel> {
    cs.map_values(|c: ConcreteModel| entry_of_concrete(c))
}

/// Write the resolved entries out as the final tarball, in list order.
#[verifier::loop_isolation(false)]
pub fn serialise_entries_to_writer(entries: &Vec<ConcreteEntry>) -> (r: Vec<u8>)
    ensures
        r@ == tar_bytes(entries_of_concretes(concrete_models(entries@))),
{
    let ghost cs = concrete_models(entries@);
    let mut tmp: Vec<TarEntry> = Vec::new();
    let mut i: usize = 0;
    proof {
        assert(cs.subrange(0, 0) =~= Seq::<ConcreteModel>::empty());
        assert(entry_models(tmp@) =~= entries_of_concretes(cs.subrange(0, 0)));
    }
    while i < entries.len()
        invariant
            0 <= i <= entries@.len(),
            cs == concrete_models(entries@),
            entry_models(tmp@) == entries_of_concretes(cs.subrange(0, i as int)),
        decreases entries@.len() - i,
    {
        let e = &entries[i];
        proof {
            assert(cs[i as int] == e@);
        }
        let ghost old_tmp = entry_models(tmp@);
        tmp.push(
            TarEntry {
                header: slice_to_vec(e.header.as_slice()),
                payload: slice_to_vec(e.bytes.as_slice()),
            },
        );
        proof {
            assert(entry_models(tmp@) =~= old_tmp.push(entry_of_concrete(cs[i as int])));
            assert(cs.subrange(0, i + 1) =~= cs.subrange(0, i as int).push(cs[i as int]));
            assert(entries_of_concretes(cs.subrange(0, i + 1)) =~= entries_of_concretes(
                cs.subrange(0, i as int),
            ).push(entry_of_concrete(cs[i as int])));
        }
        i = i + 1;
    }
    proof {
        assert(cs.subrange(0, cs.len() as int) =~= cs);
    }
    serialize_tar(&tmp)
}

/// Require every entry to be resolved, then lay the reconstructed tarball
/// out as bytes. The caller persists these bytes and the retained index
/// blob side by side.
pub fn finalise_output(entries: &Vec<ArchiveEntry>) -> (r: Result<Vec<u8>, ReceiveIndexError>)
    ensures
        match r {
            Ok(v) => all_concrete(aentry_models(entries@)) && v@ == tar_bytes(
                entries_of_concretes(concretes_seq(aentry_models(entries@))),
            ),
            Err(e) => e matches ReceiveIndexError::NonConcreteEntry(p) && exists|i: int|
                0 <= i < entries@.len() && ((#[trigger] entries@[i])@ matches
                    AEntryModel::Lookup { path, .. } && path == p@),
        },
{
    let resolved = match finalise_entries(entries) {
        Ok(v) => v,
        Err(e) => {
            return Err(e);
        },
    };
    Ok(serialise_entries_to_writer(&resolved))
}

/// The file-name suffix that marks a candidate index of the library.
pub open spec fn idx_suffix() -> Seq<u8> {
    seq![0x2eu8, 0x69u8, 0x64u8, 0x78u8]
}

/// A candidate index name: a non-empty stem followed by ".idx".
pub open spec fn is_index_name(s: Seq<u8>) -> bool {
    s.len() > 4 && s.subrange(s.len() - 4, s.len() as int) == idx_suffix()
}

/// The partner tarball's name of a candidate index: the name with its
/// ".idx" suffix stripped. A name without that suffix — or nothing but
/// the suffix — is no candidate.
pub fn index_partner(name: &Vec<u8>) -> (r: Option<Vec<u8>>)
    ensures
        match r {
            Some(stem) => is_index_name(name@) && stem@ == name@.subrange(
                0,
                name@.len() - 4,
            ),
            None => !is_index_name(name@),
        },
{
    let n = name.len();
    if n <= 4 {
        return None;
    }
    let suffix_ok = name[n - 4] == 0x2e && name[n - 3] == 0x69 && name[n - 2] == 0x64
        && name[n - 1] == 0x78;
    if !suffix_ok {
        proof {
            if is_index_name(name@) {
                let sfx = name@.subrange(name@.len() - 4, name@.len() as int);
                assert(sfx[0] == name@[n - 4] && sfx[1] == name@[n - 3] && sfx[2]
                    == name@[n - 2] && sfx[3] == name@[n - 1]);
                assert(sfx[0] == 0x2e && sfx[1] == 0x69 && sfx[2] == 0x64 && sfx[3]
                    == 0x78);
                assert(false);
            }
        }
        return None;
    }
    proof {
        assert(name@.subrange(name@.len() - 4, name@.len() as int) =~= idx_suffix());
    }
    Some(slice_to_vec(vstd::slice::slice_subrange(name.as_slice(), 0, n - 4)))
}

} // verus!
