use conflict_scanner::erf::{ErfError, ErfFile, ErfVersion};

fn utf16_field(s: &str, width: usize) -> Vec<u8> {
    let mut v = Vec::new();
    for u in s.encode_utf16() {
        v.extend_from_slice(&u.to_le_bytes());
    }
    assert!(v.len() <= width);
    v.resize(width, 0);
    v
}

fn header_bytes(magic: &str, version: &str) -> Vec<u8> {
    let mut v = utf16_field(magic, 8);
    v.extend(utf16_field(version, 8));
    v
}

fn counts_record(file_count: u32, year: u32, day: u32, module_id: u32) -> Vec<u8> {
    let mut v = Vec::new();
    v.extend_from_slice(&file_count.to_le_bytes());
    v.extend_from_slice(&year.to_le_bytes());
    v.extend_from_slice(&day.to_le_bytes());
    v.extend_from_slice(&module_id.to_le_bytes());
    v
}

/// A V2.0 archive: each entry is (name, offset, length); packed and logical
/// lengths share one field.
fn v20_archive(entries: &[(&str, u32, u32)], payload: &[u8]) -> Vec<u8> {
    let mut v = header_bytes("ERF ", "V2.0");
    v.extend(counts_record(entries.len() as u32, 2009, 123, 0xDEAD_BEEF));
    for &(name, offset, length) in entries {
        v.extend(utf16_field(name, 64));
        v.extend_from_slice(&offset.to_le_bytes());
        v.extend_from_slice(&length.to_le_bytes());
    }
    v.extend_from_slice(payload);
    v
}

/// A V2.2 archive: each entry is (name, offset, packed_length, length).
fn v22_archive(entries: &[(&str, u32, u32, u32)], payload: &[u8]) -> Vec<u8> {
    let mut v = header_bytes("ERF ", "V2.2");
    v.extend(counts_record(entries.len() as u32, 2011, 45, 7));
    for &(name, offset, packed, length) in entries {
        v.extend(utf16_field(name, 64));
        v.extend_from_slice(&offset.to_le_bytes());
        v.extend_from_slice(&packed.to_le_bytes());
        v.extend_from_slice(&length.to_le_bytes());
    }
    v.extend_from_slice(payload);
    v
}

#[test]
fn header_magic_mismatch_reports_found() {
    let data = v20_archive(&[], &[]);
    let mut bad = utf16_field("XYZ ", 8);
    bad.extend_from_slice(&data[8..]);
    match ErfFile::from_reader(&bad) {
        Err(ErfError::InvalidHeader { expected, found }) => {
            assert_eq!(expected, "ERF ");
            assert_eq!(found, "XYZ ");
        }
        other => panic!("expected InvalidHeader, got {:?}", other),
    }
}

#[test]
fn unsupported_version_reports_found() {
    let bytes = header_bytes("ERF ", "V3.0");
    match ErfFile::from_reader(&bytes) {
        Err(ErfError::UnsupportedVersion(v)) => assert_eq!(v, "V3.0"),
        other => panic!("expected UnsupportedVersion, got {:?}", other),
    }
}

#[test]
fn read_header_decodes_both_fields() {
    let bytes = header_bytes("ERF ", "V2.2");
    let (magic, version) = ErfFile::read_header(&bytes).unwrap();
    assert_eq!(magic, "ERF ");
    assert_eq!(version, "V2.2");
}

#[test]
fn header_too_short_is_truncated() {
    assert!(matches!(
        ErfFile::from_reader(&[0u8; 10]),
        Err(ErfError::Truncated)
    ));
}

#[test]
fn counts_record_missing_is_truncated() {
    let bytes = header_bytes("ERF ", "V2.0");
    assert!(matches!(
        ErfFile::from_reader(&bytes),
        Err(ErfError::Truncated)
    ));
}

#[test]
fn v20_parse_reads_fields_and_entries() {
    // one entry of 4 bytes right after the 72-byte record (header 32 + 72 = 104)
    let data = v20_archive(&[("hello.gda", 104, 4)], b"wxyz");
    let erf = ErfFile::from_reader(&data).unwrap();
    assert_eq!(erf.version, ErfVersion::V20);
    assert_eq!(erf.year, 2009);
    assert_eq!(erf.day, 123);
    // the module identifier is semantically absent before V2.2
    assert_eq!(erf.module_id, 0);
    assert_eq!(erf.toc.len(), 1);
    assert_eq!(erf.toc[0].name, "hello.gda");
    assert_eq!(erf.toc[0].offset, 104);
    assert_eq!(erf.toc[0].packed_length, 4);
    assert_eq!(erf.toc[0].length, 4);
}

#[test]
fn v20_packed_always_equals_length() {
    let data = v20_archive(&[("a.gda", 104, 9), ("b.gda", 113, 2)], &[0u8; 200]);
    let erf = ErfFile::from_reader(&data).unwrap();
    for e in &erf.toc {
        assert_eq!(e.packed_length, e.length);
    }
}

#[test]
fn v22_packed_and_length_may_differ() {
    let data = v22_archive(&[("c.gda", 108, 5, 9)], &[7u8; 200]);
    let erf = ErfFile::from_reader(&data).unwrap();
    assert_eq!(erf.version, ErfVersion::V22);
    assert_eq!(erf.module_id, 7);
    assert_eq!(erf.toc[0].packed_length, 5);
    assert_eq!(erf.toc[0].length, 9);
}

#[test]
fn get_resource_returns_declared_length() {
    let payload = b"0123456789";
    let data = v20_archive(&[("res.gda", 104, 6)], payload);
    let erf = ErfFile::from_reader(&data).unwrap();
    let bytes = erf.get_resource("res.gda", &data).unwrap();
    assert_eq!(bytes.len(), 6);
    assert_eq!(bytes, b"012345");
}

#[test]
fn get_resource_is_idempotent() {
    let data = v20_archive(&[("res.gda", 104, 3)], b"abcdef");
    let erf = ErfFile::from_reader(&data).unwrap();
    let first = erf.get_resource("res.gda", &data).unwrap();
    let second = erf.get_resource("res.gda", &data).unwrap();
    assert_eq!(first, second);
    assert_eq!(erf.toc.len(), 1);
}

#[test]
fn get_resource_is_case_insensitive() {
    let data = v20_archive(&[("Foo.Dat", 104, 4)], b"DATA");
    let erf = ErfFile::from_reader(&data).unwrap();
    let a = erf.get_resource("Foo.Dat", &data).unwrap();
    let b = erf.get_resource("foo.dat", &data).unwrap();
    let c = erf.get_resource("FOO.DAT", &data).unwrap();
    assert_eq!(a, b);
    assert_eq!(b, c);
    assert_eq!(a, b"DATA");
}

#[test]
fn duplicate_names_last_entry_wins() {
    // both entries fold to "dup.gda"; lookup must take the later one
    let data = v20_archive(&[("dup.gda", 176, 2), ("DUP.GDA", 178, 2)], b"aabb");
    let erf = ErfFile::from_reader(&data).unwrap();
    assert_eq!(erf.toc.len(), 2);
    let bytes = erf.get_resource("dup.gda", &data).unwrap();
    assert_eq!(bytes, b"bb");
}

#[test]
fn empty_toc_name_reports_index() {
    let data = v20_archive(&[("ok.gda", 0, 0), ("", 0, 0)], &[]);
    match ErfFile::from_reader(&data) {
        Err(ErfError::EmptyTocName { index }) => assert_eq!(index, 1),
        other => panic!("expected EmptyTocName, got {:?}", other),
    }
}

#[test]
fn truncated_toc_record_is_truncated() {
    let mut data = v20_archive(&[("a.gda", 0, 0)], &[]);
    data.truncate(100); // cuts into the only 72-byte record
    assert!(matches!(
        ErfFile::from_reader(&data),
        Err(ErfError::Truncated)
    ));
}

#[test]
fn missing_resource_reports_requested_name() {
    let data = v20_archive(&[("here.gda", 104, 0)], &[]);
    let erf = ErfFile::from_reader(&data).unwrap();
    match erf.get_resource("absent.gda", &data) {
        Err(ErfError::InvalidResourceName(n)) => assert_eq!(n, "absent.gda"),
        other => panic!("expected InvalidResourceName, got {:?}", other),
    }
}

#[test]
fn resource_past_end_is_truncated() {
    let data = v20_archive(&[("far.gda", 104, 50)], b"short");
    let erf = ErfFile::from_reader(&data).unwrap();
    assert!(matches!(
        erf.get_resource("far.gda", &data),
        Err(ErfError::Truncated)
    ));
}

#[test]
fn parse_with_known_version_skips_header_check() {
    let mut data = v20_archive(&[("p.gda", 104, 1)], b"x");
    // parse trusts the caller's version tag and never reads the header,
    // so a scrambled magic field does not matter here
    data[0] = 0xFF;
    let erf = ErfFile::parse(&data, ErfVersion::V20).unwrap();
    assert_eq!(erf.toc[0].name, "p.gda");
    assert_eq!(erf.version, ErfVersion::V20);
}

#[test]
fn non_ascii_toc_name_survives() {
    let data = v20_archive(&[("caf\u{E9}.gda", 104, 2)], b"zz");
    let erf = ErfFile::from_reader(&data).unwrap();
    assert_eq!(erf.toc[0].name, "caf\u{E9}.gda");
    let bytes = erf.get_resource("caf\u{E9}.gda", &data).unwrap();
    assert_eq!(bytes, b"zz");
}
