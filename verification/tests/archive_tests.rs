use catbus::archive::{check_header, header_path_exec, is_regular_exec, parse_tar_exec, serialize_tar};

fn build_tar(entries: &[(&str, Option<&[u8]>)]) -> Vec<u8> {
    let mut b = tar::Builder::new(Vec::new());
    for (path, content) in entries {
        match content {
            Some(data) => {
                let mut h = tar::Header::new_ustar();
                h.set_path(path).unwrap();
                h.set_size(data.len() as u64);
                h.set_mode(0o644);
                h.set_cksum();
                b.append(&h, *data).unwrap();
            },
            None => {
                let mut h = tar::Header::new_ustar();
                h.set_path(path).unwrap();
                h.set_size(0);
                h.set_mode(0o755);
                h.set_entry_type(tar::EntryType::dir());
                h.set_cksum();
                b.append(&h, &b""[..]).unwrap();
            },
        }
    }
    b.into_inner().unwrap()
}

#[test]
fn parses_real_tar_output() {
    let bytes = build_tar(&[("hello.txt", Some(b"hello\n")), ("dir/", None)]);
    let entries = parse_tar_exec(bytes.as_slice()).unwrap();
    assert_eq!(entries.len(), 2);
    assert_eq!(entries[0].payload, b"hello\n".to_vec());
    assert_eq!(header_path_exec(entries[0].header.as_slice()), b"hello.txt".to_vec());
    assert!(is_regular_exec(entries[0].header.as_slice()));
    assert_eq!(entries[1].payload, Vec::<u8>::new());
    assert_eq!(header_path_exec(entries[1].header.as_slice()), b"dir/".to_vec());
    assert!(!is_regular_exec(entries[1].header.as_slice()));
    assert_eq!(check_header(entries[0].header.as_slice()), Some(6));
}

#[test]
fn serialize_is_byte_identical_round_trip() {
    let bytes = build_tar(&[("a.txt", Some(b"AAA")), ("b/", None), ("c.bin", Some(&[0u8; 600]))]);
    let entries = parse_tar_exec(bytes.as_slice()).unwrap();
    let again = serialize_tar(&entries);
    assert_eq!(again, bytes);
}

#[test]
fn real_tar_reads_our_output() {
    let bytes = build_tar(&[("x.txt", Some(b"some content here"))]);
    let entries = parse_tar_exec(bytes.as_slice()).unwrap();
    let ours = serialize_tar(&entries);
    let mut archive = tar::Archive::new(ours.as_slice());
    let mut seen = 0;
    for entry in archive.entries().unwrap() {
        let mut entry = entry.unwrap();
        assert_eq!(entry.path().unwrap().to_str().unwrap(), "x.txt");
        let mut content = Vec::new();
        std::io::Read::read_to_end(&mut entry, &mut content).unwrap();
        assert_eq!(content, b"some content here".to_vec());
        seen += 1;
    }
    assert_eq!(seen, 1);
}

#[test]
fn corrupt_checksum_is_rejected() {
    let mut bytes = build_tar(&[("a.txt", Some(b"AAA"))]);
    // Flip a byte of the stored checksum field (offset 148).
    bytes[148] = bytes[148].wrapping_add(1);
    assert!(parse_tar_exec(bytes.as_slice()).is_none());
}

#[test]
fn truncated_payload_is_rejected() {
    let bytes = build_tar(&[("a.txt", Some(b"AAA"))]);
    // Cut the archive inside the payload block.
    let cut = &bytes[..600];
    assert!(parse_tar_exec(cut).is_none());
}

#[test]
fn empty_input_is_empty_archive() {
    let entries = parse_tar_exec(&[]).unwrap();
    assert_eq!(entries.len(), 0);
}

#[test]
fn long_path_uses_ustar_prefix() {
    let long_dir = "a".repeat(90);
    let long_path = format!("{}/{}", long_dir, "b".repeat(60));
    let bytes = build_tar(&[(&long_path, Some(b"deep"))]);
    let entries = parse_tar_exec(bytes.as_slice()).unwrap();
    assert_eq!(
        header_path_exec(entries[0].header.as_slice()),
        long_path.as_bytes().to_vec()
    );
}
