use cerebro_gateway::files::make_entry;
use cerebro_gateway::files::prepare_write;
use cerebro_gateway::files::render_file_content;
use cerebro_gateway::files::sort_entries;
use cerebro_gateway::files::write_response;
use cerebro_gateway::files::EntryKind;
use cerebro_gateway::files::FileEntry;
use cerebro_gateway::GatewayError;

fn entry(name: &str) -> FileEntry {
    make_entry(name.to_string(), name.to_string(), false, 1, None)
}

#[test]
fn listing_sorts_case_insensitively() {
    let sorted = sort_entries(vec![entry("B.txt"), entry("a.txt")]);
    assert_eq!(sorted[0].name, "a.txt");
    assert_eq!(sorted[1].name, "B.txt");
}

#[test]
fn listing_sort_is_ascending() {
    let sorted = sort_entries(vec![
        entry("zeta"),
        entry("Alpha"),
        entry("beta"),
        entry("ALPHA2"),
    ]);
    let names: Vec<&str> = sorted.iter().map(|e| e.name.as_str()).collect();
    assert_eq!(names, vec!["Alpha", "ALPHA2", "beta", "zeta"]);
}

#[test]
fn directories_report_size_zero() {
    let d = make_entry("src".to_string(), "src".to_string(), true, 4096, Some(7));
    assert_eq!(d.kind, EntryKind::Directory);
    assert_eq!(d.size, 0);
    assert_eq!(d.modified_at, Some(7));
    let f = make_entry("a".to_string(), "a".to_string(), false, 4096, None);
    assert_eq!(f.kind, EntryKind::File);
    assert_eq!(f.size, 4096);
}

#[test]
fn read_utf8_returns_text() {
    let (enc, content) = render_file_content(b"hello".to_vec(), None).unwrap();
    assert_eq!(enc, "utf8");
    assert_eq!(content, "hello");
}

#[test]
fn read_non_utf8_requires_base64() {
    let raw = vec![0xffu8, 0xfe, 0x00];
    assert!(matches!(
        render_file_content(raw.clone(), None),
        Err(GatewayError::EncodingError)
    ));
    let (enc, content) = render_file_content(raw, Some("base64")).unwrap();
    assert_eq!(enc, "base64");
    assert_eq!(content, "//4A");
}

#[test]
fn read_encoding_name_ignores_case() {
    let (enc, content) = render_file_content(b"foo".to_vec(), Some("Base64")).unwrap();
    assert_eq!(enc, "base64");
    assert_eq!(content, "Zm9v");
    let (enc2, _) = render_file_content(b"foo".to_vec(), Some("utf8")).unwrap();
    assert_eq!(enc2, "utf8");
}

#[test]
fn write_existing_without_overwrite_fails() {
    assert!(matches!(
        prepare_write("data", None, true, Some(false)),
        Err(GatewayError::AlreadyExists)
    ));
}

#[test]
fn write_overwrite_default_is_true() {
    let bytes = prepare_write("data", None, true, None).unwrap();
    assert_eq!(bytes, b"data".to_vec());
    let bytes2 = prepare_write("data", None, true, Some(true)).unwrap();
    assert_eq!(bytes2, b"data".to_vec());
}

#[test]
fn write_base64_decodes_content() {
    let bytes = prepare_write("Zm9v", Some("base64"), false, None).unwrap();
    assert_eq!(bytes, b"foo".to_vec());
    assert!(matches!(
        prepare_write("not base64!", Some("base64"), false, None),
        Err(GatewayError::EncodingError)
    ));
}

#[test]
fn write_response_reports_creation() {
    let r = write_response("a.txt".to_string(), 4, false);
    assert!(r.created);
    assert_eq!(r.bytes, 4);
    let r2 = write_response("a.txt".to_string(), 4, true);
    assert!(!r2.created);
}
