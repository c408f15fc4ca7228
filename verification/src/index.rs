//! Building the index of a source tarball.
//!
//! The index is a tar stream with one entry per source entry, in source
//! order: a regular file's payload is replaced by the 20-byte SHA-1 digest
//! of its content, with the header's size field rewritten to 20 and the
//! checksum recomputed; every other entry is copied verbatim. The whole
//! stream is then gzip-compressed.

use vstd::prelude::*;
use crate::archive::{
    clone_entry, entry_models, header_path, header_size, is_regular, is_regular_exec,
    lemma_parse_tar_wf, lemma_pow8_11_value, lemma_with_size_props, parse_tar,
    parse_tar_exec, serialize_tar,
    tar_bytes, wf_entries, wf_entry, with_size, with_size_exec, EntryModel, TarEntry,
};
use crate::gzip::{gunzip_of, gzip_compress};

verus! {

/// The SHA-1 digest of a byte sequence. The digest is a pure function of
/// the bytes, which this name records; the algorithm itself is not written
/// out here.
pub uninterp spec fn sha1_of(s: Seq<u8>) -> Seq<u8>;

/// Relies on sha1::Sha1 (through digest::Digest::digest): the SHA-1 digest
/// of the input bytes, always 20 bytes long.
#[verifier::external_body]
fn sha1_digest(data: &Vec<u8>) -> (r: Vec<u8>)
    ensures
        r@ == sha1_of(data@),
        r@.len() == 20,
{
    <sha1::Sha1 as sha1::Digest>::digest(data.as_slice()).to_vec()
}

/// The index entry derived from one source entry.
pub open spec fn index_entry_model(e: EntryModel) -> EntryModel {
    if is_regular(e.header) {
        EntryModel { header: with_size(e.header, 20), payload: sha1_of(e.payload) }
    } else {
        e
    }
}

/// The index entries derived from the source entries, in source order.
pub open spec fn index_models(es: Seq<EntryModel>) -> Seq<EntryModel> {
    es.map_values(|e: EntryModel| index_entry_model(e))
}

/// Entry-count preservation with positional pairing: the index holds one
/// entry per source entry, at the same position and under the same path.
pub proof fn lemma_index_entry_count(es: Seq<EntryModel>)
    requires
        wf_entries(es),
    ensures
        index_models(es).len() == es.len(),
        forall|i: int|
            0 <= i < es.len() ==> header_path(#[trigger] index_models(es)[i].header)
                == header_path(es[i].header),
{
    assert forall|i: int|
        0 <= i < es.len() implies header_path(#[trigger] index_models(es)[i].header)
        == header_path(es[i].header) by {
        assert(index_models(es)[i] == index_entry_model(es[i]));
        if is_regular(es[i].header) {
            lemma_pow8_11_value();
            lemma_with_size_props(es[i].header, 20);
        }
    }
}

/// Digest substitution: a regular source entry appears in the index with
/// the digest of its payload as content and a header whose size field
/// announces the digest length, everything else unchanged.
pub proof fn lemma_index_digest(es: Seq<EntryModel>, i: int)
    requires
        wf_entries(es),
        0 <= i < es.len(),
        is_regular(es[i].header),
    ensures
        index_models(es)[i].payload == sha1_of(es[i].payload),
        header_size(index_models(es)[i].header) == Some(20nat),
        header_path(index_models(es)[i].header) == header_path(es[i].header),
        is_regular(index_models(es)[i].header),
{
    assert(index_models(es)[i] == index_entry_model(es[i]));
    lemma_pow8_11_value();
    lemma_with_size_props(es[i].header, 20);
}

/// Non-regular passthrough: every other source entry stands in the index
/// header-byte-equal and payload-byte-equal.
pub proof fn lemma_index_passthrough(es: Seq<EntryModel>, i: int)
    requires
        0 <= i < es.len(),
        !is_regular(es[i].header),
    ensures
        index_models(es)[i] == es[i],
{
    assert(index_models(es)[i] == index_entry_model(es[i]));
}

/// Index determinism: any two results of building the index of the same
/// source bytes decompress to the same index tar. Only the gzip container
/// around it may differ between runs (its header carries a timestamp).
pub proof fn lemma_index_deterministic(t: Seq<u8>, r1: Seq<u8>, r2: Seq<u8>)
    requires
        parse_tar(t) is Some,
        gunzip_of(r1) == Some(tar_bytes(index_models(parse_tar(t).unwrap()))),
        gunzip_of(r2) == Some(tar_bytes(index_models(parse_tar(t).unwrap()))),
    ensures
        gunzip_of(r1) == gunzip_of(r2),
{
}

/// Build the index of a source tarball held in memory: parse it, derive
/// the index entries, write them as a tar stream and gzip the result.
/// Succeeds exactly when the source parses as a tar archive.
pub fn create(tar_source: &Vec<u8>) -> (r: Option<Vec<u8>>)
    ensures
        match r {
            Some(v) => parse_tar(tar_source@) is Some && gunzip_of(v@) == Some(
                tar_bytes(index_models(parse_tar(tar_source@).unwrap())),
            ),
            None => parse_tar(tar_source@) is None,
        },
{
    let entries = match parse_tar_exec(tar_source.as_slice()) {
        Some(e) => e,
        None => {
            return None;
        },
    };
    proof {
        lemma_parse_tar_wf(tar_source@);
    }
    let ghost src_models = entry_models(entries@);
    let ghost im = index_models(src_models);
    let mut out: Vec<TarEntry> = Vec::new();
    let mut i: usize = 0;
    while i < entries.len()
        invariant
            0 <= i <= entries@.len(),
            entry_models(entries@) == src_models,
            wf_entries(src_models),
            im == index_models(src_models),
            entry_models(out@) =~= im.subrange(0, i as int),
        decreases entries@.len() - i,
    {
        let e = &entries[i];
        proof {
            assert(src_models[i as int] == e@);
            assert(wf_entry(src_models[i as int]));
        }
        let new_entry: TarEntry;
        if is_regular_exec(e.header.as_slice()) {
            let digest = sha1_digest(&e.payload);
            let header2 = with_size_exec(e.header.as_slice(), 20);
            new_entry = TarEntry { header: header2, payload: digest };
            proof {
                assert(new_entry@ == index_entry_model(src_models[i as int]));
            }
        } else {
            new_entry = clone_entry(e);
            proof {
                assert(new_entry@ == index_entry_model(src_models[i as int]));
            }
        }
        let ghost old_out = out@;
        out.push(new_entry);
        proof {
            assert(entry_models(out@) =~= entry_models(old_out).push(
                index_entry_model(src_models[i as int]),
            ));
            assert(im[i as int] == index_entry_model(src_models[i as int]));
            assert(entry_models(out@) =~= im.subrange(0, i + 1));
        }
        i = i + 1;
    }
    proof {
        assert(im.subrange(0, im.len() as int) =~= im);
    }
    let ser = serialize_tar(&out);
    Some(gzip_compress(&ser))
}

} // verus!
