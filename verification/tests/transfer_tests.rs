use catbus::index::create;
use catbus::receive::{
    archive_entries_for_index, find_entries, find_remote_entries, finalise_output,
    index_partner, merge_entries, request_remaining_entries, ConcreteEntry, MergeResult,
    ReceiveIndexError,
};
use catbus::tarball_codec::{read_tarball, write_tarball};
use catbus::upload::{build_parts, parse_want_list};

fn build_tar(entries: &[(&str, Option<&[u8]>)]) -> Vec<u8> {
    let mut b = tar::Builder::new(Vec::new());
    for (path, content) in entries {
        match content {
            Some(data) => {
                let mut h = tar::Header::new_ustar();
                h.set_path(path).unwrap();
                h.set_size(data.len() as u64);
                h.set_mode(0o644);
                h.set_cksum();
                b.append(&h, *data).unwrap();
            },
            None => {
                let mut h = tar::Header::new_ustar();
                h.set_path(path).unwrap();
                h.set_size(0);
                h.set_mode(0o755);
                h.set_entry_type(tar::EntryType::dir());
                h.set_cksum();
                b.append(&h, &b""[..]).unwrap();
            },
        }
    }
    b.into_inner().unwrap()
}

/// What a finished transfer leaves behind, plus what crossed the wire.
struct TransferOutcome {
    output_tar: Vec<u8>,
    output_idx: Vec<u8>,
    want_wire: Vec<u8>,
    parts_tar: Vec<u8>,
}

/// Drive both state machines against each other in memory. `sender_source`
/// is what the sender builds parts from (normally the same bytes the index
/// was built from); `library` holds (tarball, index) pairs of the
/// destination directory.
fn run_transfer(
    index_source: &Vec<u8>,
    sender_source: &Vec<u8>,
    library: &[(Vec<u8>, Vec<u8>)],
) -> Result<TransferOutcome, ReceiveIndexError> {
    // Sender: frame and send the index.
    let index = create(index_source).unwrap();
    let frame1 = write_tarball(&index);

    // Receiver: ingest the index frame. The persisted .idx bytes are the
    // index exactly as the builder produced it.
    let (index_blob, used) = read_tarball(frame1.as_slice()).unwrap();
    assert_eq!(used, frame1.len());
    assert_eq!(index_blob, index);
    let (mut aentries, want) = archive_entries_for_index(&index_blob)?;

    // Receiver: scan the library (one candidate pair at a time; a failing
    // candidate contributes nothing).
    let mut local: Vec<ConcreteEntry> = Vec::new();
    for (cand_tar, cand_idx) in library {
        if let Ok(found) = find_entries(&want, cand_tar, cand_idx) {
            for c in found {
                local.push(c);
            }
        }
    }

    // First merge pass, then the want-list toward the sender.
    let MergeResult { want_list, .. } = merge_entries(&mut aentries, &local);
    let want_wire = request_remaining_entries(&want_list)?;

    // Sender: read the want lines, build and frame the parts tarball.
    let wanted = parse_want_list(want_wire.as_slice());
    let parts = build_parts(sender_source, &wanted).unwrap();
    let frame2 = write_tarball(&parts);

    // Receiver: ingest the parts frame, merge, finalise.
    let (parts_blob, _) = read_tarball(frame2.as_slice()).unwrap();
    let remote = find_remote_entries(&parts_blob)?;
    merge_entries(&mut aentries, &remote);
    let output_tar = finalise_output(&aentries)?;
    Ok(TransferOutcome { output_tar, output_idx: index_blob, want_wire, parts_tar: parts })
}

fn count_tar_entries(bytes: &[u8]) -> usize {
    catbus::archive::parse_tar_exec(bytes).unwrap().len()
}

#[test]
fn single_file_no_locality() {
    let source = build_tar(&[("hello.txt", Some(b"hello\n"))]);
    let out = run_transfer(&source, &source, &[]).unwrap();
    assert_eq!(out.want_wire, b"hello.txt\n".to_vec());
    assert_eq!(count_tar_entries(&out.parts_tar), 1);
    assert_eq!(out.output_tar, source);
    let idx_entries = catbus::receive::archive_entries_for_index(&out.output_idx).unwrap().1;
    assert_eq!(idx_entries.len(), 1);
    assert_eq!(
        idx_entries[0].digest,
        <sha1::Sha1 as sha1::Digest>::digest(b"hello\n").to_vec()
    );
}

#[test]
fn directory_and_file() {
    let source = build_tar(&[("dir/", None), ("dir/a", Some(b"AAA"))]);
    let out = run_transfer(&source, &source, &[]).unwrap();
    // Only the regular file travels on the want-list; the directory rides
    // in the index itself.
    assert_eq!(out.want_wire, b"dir/a\n".to_vec());
    assert_eq!(out.output_tar, source);
    let entries = catbus::archive::parse_tar_exec(out.output_tar.as_slice()).unwrap();
    assert_eq!(
        catbus::archive::header_path_exec(entries[0].header.as_slice()),
        b"dir/".to_vec()
    );
    assert_eq!(
        catbus::archive::header_path_exec(entries[1].header.as_slice()),
        b"dir/a".to_vec()
    );
}

#[test]
fn full_local_hit_short_circuits() {
    let prior = build_tar(&[("hello.txt", Some(b"hello\n")), ("world.txt", Some(b"world\n"))]);
    let prior_idx = create(&prior).unwrap();
    let source = build_tar(&[("hello.txt", Some(b"hello\n")), ("world.txt", Some(b"world\n"))]);
    let out = run_transfer(&source, &source, &[(prior, prior_idx)]).unwrap();
    // Nothing crosses upstream; the parts frame is the empty tar.
    assert_eq!(out.want_wire, Vec::<u8>::new());
    assert_eq!(count_tar_entries(&out.parts_tar), 0);
    assert_eq!(out.parts_tar, vec![0u8; 1024]);
    assert_eq!(out.output_tar, source);
}

#[test]
fn partial_local_hit() {
    let prior = build_tar(&[("hello.txt", Some(b"hello\n"))]);
    let prior_idx = create(&prior).unwrap();
    let source = build_tar(&[("hello.txt", Some(b"hello\n")), ("world.txt", Some(b"world\n"))]);
    let out = run_transfer(&source, &source, &[(prior, prior_idx)]).unwrap();
    assert_eq!(out.want_wire, b"world.txt\n".to_vec());
    let parts = catbus::archive::parse_tar_exec(out.parts_tar.as_slice()).unwrap();
    assert_eq!(parts.len(), 1);
    assert_eq!(
        catbus::archive::header_path_exec(parts[0].header.as_slice()),
        b"world.txt".to_vec()
    );
    assert_eq!(out.output_tar, source);
}

#[test]
fn malformed_frame_is_fatal() {
    // A downstream that begins with a non-decimal length prefix.
    let bad = b"12x\0and more bytes".to_vec();
    assert!(read_tarball(bad.as_slice()).is_err());
}

#[test]
fn missing_part_fails_finalisation_naming_the_path() {
    let full = build_tar(&[("hello.txt", Some(b"hello\n")), ("world.txt", Some(b"world\n"))]);
    // The sender has lost world.txt: its source tar no longer contains it.
    let partial = build_tar(&[("hello.txt", Some(b"hello\n"))]);
    match run_transfer(&full, &partial, &[]) {
        Err(ReceiveIndexError::NonConcreteEntry(path)) => {
            assert_eq!(path, b"world.txt".to_vec());
        },
        Err(_) => panic!("expected a non-concrete-entry failure"),
        Ok(_) => panic!("finalisation must fail when a part never arrives"),
    }
}

#[test]
fn receiver_is_idempotent() {
    let prior = build_tar(&[("hello.txt", Some(b"hello\n"))]);
    let prior_idx = create(&prior).unwrap();
    let source = build_tar(&[("hello.txt", Some(b"hello\n")), ("world.txt", Some(b"world\n"))]);
    let library = [(prior, prior_idx)];
    let a = run_transfer(&source, &source, &library).unwrap();
    let b = run_transfer(&source, &source, &library).unwrap();
    assert_eq!(a.output_tar, b.output_tar);
    assert_eq!(a.output_idx, b.output_idx);
    assert_eq!(a.want_wire, b.want_wire);
}

#[test]
fn library_order_does_not_matter() {
    let one = build_tar(&[("hello.txt", Some(b"hello\n"))]);
    let one_idx = create(&one).unwrap();
    let two = build_tar(&[("world.txt", Some(b"world\n"))]);
    let two_idx = create(&two).unwrap();
    let source = build_tar(&[("hello.txt", Some(b"hello\n")), ("world.txt", Some(b"world\n"))]);
    let forward = [(one.clone(), one_idx.clone()), (two.clone(), two_idx.clone())];
    let backward = [(two, two_idx), (one, one_idx)];
    let a = run_transfer(&source, &source, &forward).unwrap();
    let b = run_transfer(&source, &source, &backward).unwrap();
    assert_eq!(a.output_tar, b.output_tar);
    assert_eq!(a.output_tar, source);
    // In both layouts everything was found locally.
    assert_eq!(a.want_wire, Vec::<u8>::new());
    assert_eq!(b.want_wire, Vec::<u8>::new());
}

#[test]
fn corrupt_candidate_is_skipped_not_fatal() {
    let source = build_tar(&[("hello.txt", Some(b"hello\n"))]);
    let junk_pair = (b"not a tarball".to_vec(), b"not gzip either".to_vec());
    let out = run_transfer(&source, &source, &[junk_pair]).unwrap();
    // The bad candidate contributed nothing; the peer filled the gap.
    assert_eq!(out.want_wire, b"hello.txt\n".to_vec());
    assert_eq!(out.output_tar, source);
}

#[test]
fn non_utf8_want_path_is_fatal() {
    let bad_path: Vec<u8> = vec![0xff, 0xfe, 0x2f];
    match request_remaining_entries(&vec![bad_path.clone()]) {
        Err(ReceiveIndexError::NonUtf8Path(p)) => assert_eq!(p, bad_path),
        _ => panic!("a non-UTF-8 path must be rejected"),
    }
}

#[test]
fn want_list_wire_round_trip() {
    let want = vec![b"a.txt".to_vec(), b"dir/b.txt".to_vec()];
    let wire = request_remaining_entries(&want).unwrap();
    assert_eq!(wire, b"a.txt\ndir/b.txt\n".to_vec());
    assert_eq!(parse_want_list(wire.as_slice()), want);
}

#[test]
fn want_list_parsing_skips_empty_lines() {
    let parsed = parse_want_list(b"a\n\nb\n");
    assert_eq!(parsed, vec![b"a".to_vec(), b"b".to_vec()]);
}

#[test]
fn parts_of_unknown_paths_are_silently_absent() {
    let source = build_tar(&[("hello.txt", Some(b"hello\n"))]);
    let want = vec![b"hello.txt".to_vec(), b"missing.txt".to_vec()];
    let parts = build_parts(&source, &want).unwrap();
    let entries = catbus::archive::parse_tar_exec(parts.as_slice()).unwrap();
    assert_eq!(entries.len(), 1);
}

#[test]
fn parts_of_garbage_source_fail() {
    let garbage = b"not a tar".to_vec();
    let want = vec![b"x".to_vec()];
    assert!(matches!(
        build_parts(&garbage, &want),
        Err(catbus::upload::UploadIndexError::BadArchive)
    ));
}

#[test]
fn parts_frame_of_garbage_is_rejected() {
    let garbage = b"still not a tar".to_vec();
    assert!(matches!(
        find_remote_entries(&garbage),
        Err(ReceiveIndexError::BadParts)
    ));
}

#[test]
fn index_partner_names() {
    assert_eq!(index_partner(&b"prior.tar.idx".to_vec()), Some(b"prior.tar".to_vec()));
    assert_eq!(index_partner(&b"x.idx".to_vec()), Some(b"x".to_vec()));
    assert_eq!(index_partner(&b"prior.tar".to_vec()), None);
    assert_eq!(index_partner(&b".idx".to_vec()), None);
    assert_eq!(index_partner(&b"".to_vec()), None);
}
