use catbus::archive::{check_header, parse_tar_exec};
use catbus::index::create;
use catbus::receive::{archive_entries_for_index, ArchiveEntry};

fn build_tar(entries: &[(&str, Option<&[u8]>)]) -> Vec<u8> {
    let mut b = tar::Builder::new(Vec::new());
    for (path, content) in entries {
        match content {
            Some(data) => {
                let mut h = tar::Header::new_ustar();
                h.set_path(path).unwrap();
                h.set_size(data.len() as u64);
                h.set_mode(0o644);
                h.set_cksum();
                b.append(&h, *data).unwrap();
            },
            None => {
                let mut h = tar::Header::new_ustar();
                h.set_path(path).unwrap();
                h.set_size(0);
                h.set_mode(0o755);
                h.set_entry_type(tar::EntryType::dir());
                h.set_cksum();
                b.append(&h, &b""[..]).unwrap();
            },
        }
    }
    b.into_inner().unwrap()
}

fn gunzip(data: &[u8]) -> Vec<u8> {
    let mut dec = libflate::gzip::Decoder::new(data).unwrap();
    let mut out = Vec::new();
    std::io::Read::read_to_end(&mut dec, &mut out).unwrap();
    out
}

fn sha1_of_bytes(data: &[u8]) -> Vec<u8> {
    <sha1::Sha1 as sha1::Digest>::digest(data).to_vec()
}

#[test]
fn index_replaces_regular_payloads_by_digests() {
    let source = build_tar(&[
        ("hello.txt", Some(b"hello\n")),
        ("dir/", None),
        ("world.txt", Some(b"world\n")),
    ]);
    let index = create(&source).unwrap();
    let index_tar = gunzip(&index);
    let src_entries = parse_tar_exec(source.as_slice()).unwrap();
    let idx_entries = parse_tar_exec(index_tar.as_slice()).unwrap();

    // Entry-count preservation with positional pairing.
    assert_eq!(idx_entries.len(), src_entries.len());

    // Digest substitution for regular files, size field rewritten to 20.
    assert_eq!(idx_entries[0].payload, sha1_of_bytes(b"hello\n"));
    assert_eq!(idx_entries[0].payload.len(), 20);
    assert_eq!(check_header(idx_entries[0].header.as_slice()), Some(20));
    assert_eq!(idx_entries[2].payload, sha1_of_bytes(b"world\n"));
    assert_eq!(check_header(idx_entries[2].header.as_slice()), Some(20));

    // A digest is not the content itself.
    assert_ne!(idx_entries[0].payload, b"hello\n".to_vec());

    // Non-regular passthrough: header and payload byte-equal.
    assert_eq!(idx_entries[1].header, src_entries[1].header);
    assert_eq!(idx_entries[1].payload, src_entries[1].payload);
}

#[test]
fn index_is_deterministic_after_decompression() {
    let source = build_tar(&[("a.txt", Some(b"AAA")), ("b.txt", Some(b"BBB"))]);
    let first = create(&source).unwrap();
    let second = create(&source).unwrap();
    // The gzip container may carry a timestamp; the index tar below it is
    // byte-identical across runs.
    assert_eq!(gunzip(&first), gunzip(&second));
}

#[test]
fn real_tar_reads_the_index() {
    let source = build_tar(&[("hello.txt", Some(b"hello\n")), ("dir/", None)]);
    let index_tar = gunzip(&create(&source).unwrap());
    let mut archive = tar::Archive::new(index_tar.as_slice());
    let mut entries = archive.entries().unwrap();

    let mut first = entries.next().unwrap().unwrap();
    assert_eq!(first.path().unwrap().to_str().unwrap(), "hello.txt");
    assert_eq!(first.header().entry_size().unwrap(), 20);
    let mut digest = Vec::new();
    std::io::Read::read_to_end(&mut first, &mut digest).unwrap();
    assert_eq!(digest, sha1_of_bytes(b"hello\n"));

    let second = entries.next().unwrap().unwrap();
    assert_eq!(second.path().unwrap().to_str().unwrap(), "dir/");
    assert!(second.header().entry_type().is_dir());
    assert!(entries.next().is_none());
}

#[test]
fn index_of_garbage_fails() {
    let garbage = b"this is not a tar archive at all".to_vec();
    assert!(create(&garbage).is_none());
}

#[test]
fn index_ingest_splits_lookups_and_concretes() {
    let source = build_tar(&[("hello.txt", Some(b"hello\n")), ("dir/", None)]);
    let index = create(&source).unwrap();
    let (aentries, want) = archive_entries_for_index(&index).unwrap();
    assert_eq!(aentries.len(), 2);
    match &aentries[0] {
        ArchiveEntry::Lookup { path, digest, .. } => {
            assert_eq!(path, &b"hello.txt".to_vec());
            assert_eq!(digest, &sha1_of_bytes(b"hello\n"));
        },
        ArchiveEntry::Concrete(_) => panic!("regular entry must become a Lookup"),
    }
    match &aentries[1] {
        ArchiveEntry::Concrete(c) => {
            assert_eq!(c.path, b"dir/".to_vec());
            assert_eq!(c.bytes, Vec::<u8>::new());
        },
        ArchiveEntry::Lookup { .. } => panic!("directory must stay Concrete"),
    }
    assert_eq!(want.len(), 1);
    assert_eq!(want[0].path, b"hello.txt".to_vec());
    assert_eq!(want[0].digest, sha1_of_bytes(b"hello\n"));
}

#[test]
fn index_ingest_rejects_non_gzip() {
    let garbage = b"plainly not gzip".to_vec();
    assert!(matches!(
        archive_entries_for_index(&garbage),
        Err(catbus::receive::ReceiveIndexError::BadIndex)
    ));
}

#[test]
fn index_ingest_rejects_gzip_of_non_tar() {
    let mut enc = libflate::gzip::Encoder::new(Vec::new()).unwrap();
    std::io::Write::write_all(&mut enc, b"gzip but not a tar").unwrap();
    let blob = enc.finish().into_result().unwrap();
    assert!(matches!(
        archive_entries_for_index(&blob),
        Err(catbus::receive::ReceiveIndexError::BadIndex)
    ));
}
