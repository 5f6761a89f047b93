use drive_inventory::codec::{encode_state, parse_state};
use drive_inventory::{FileRecord, Page};

fn chars(s: &str) -> Vec<char> {
    s.chars().collect()
}

fn full_record() -> FileRecord {
    FileRecord {
        id: "id-1".to_string(),
        mime_type: "text/plain".to_string(),
        parents: vec!["p1".to_string(), "p2".to_string()],
        name: "a \"quoted\" \\ name".to_string(),
        quota_bytes_used: Some(18446744073709551615),
        size: Some(12345),
        sha256_checksum: Some("abc123".to_string()),
    }
}

fn bare_record() -> FileRecord {
    FileRecord {
        id: "id-2".to_string(),
        mime_type: "application/vnd.google-apps.folder".to_string(),
        parents: vec![],
        name: "folder".to_string(),
        quota_bytes_used: None,
        size: None,
        sha256_checksum: None,
    }
}

fn assert_same_record(a: &FileRecord, b: &FileRecord) {
    assert_eq!(a.id, b.id);
    assert_eq!(a.mime_type, b.mime_type);
    assert_eq!(a.parents, b.parents);
    assert_eq!(a.name, b.name);
    assert_eq!(a.quota_bytes_used, b.quota_bytes_used);
    assert_eq!(a.size, b.size);
    assert_eq!(a.sha256_checksum, b.sha256_checksum);
}

#[test]
fn encode_then_parse_returns_the_same_pages() {
    let pages = vec![
        Page { files: vec![full_record(), bare_record()], next_page_token: Some("tok".to_string()) },
        Page { files: vec![], next_page_token: None },
    ];
    let text = encode_state(&pages);
    let back = parse_state(&chars(&text)).expect("canonical text must parse");
    assert_eq!(back.len(), 2);
    assert_eq!(back[0].files.len(), 2);
    assert_same_record(&back[0].files[0], &full_record());
    assert_same_record(&back[0].files[1], &bare_record());
    assert_eq!(back[0].next_page_token.as_deref(), Some("tok"));
    assert!(back[1].files.is_empty());
    assert_eq!(back[1].next_page_token, None);
}

#[test]
fn empty_state_round_trips() {
    let pages: Vec<Page> = vec![];
    let text = encode_state(&pages);
    assert_eq!(text, "[]");
    let back = parse_state(&chars(&text)).unwrap();
    assert!(back.is_empty());
}

#[test]
fn encoding_is_the_expected_document() {
    let pages = vec![Page {
        files: vec![FileRecord {
            id: "a".to_string(),
            mime_type: "m".to_string(),
            parents: vec!["r".to_string()],
            name: "n".to_string(),
            quota_bytes_used: Some(7),
            size: None,
            sha256_checksum: None,
        }],
        next_page_token: None,
    }];
    assert_eq!(
        encode_state(&pages),
        "[{\"files\":[{\"id\":\"a\",\"mimeType\":\"m\",\"parents\":[\"r\"],\"name\":\"n\",\"quotaBytesUsed\":\"7\"}]}]"
    );
}

#[test]
fn null_parents_decode_to_an_empty_sequence() {
    let text = "[{\"files\":[{\"id\":\"a\",\"mimeType\":\"m\",\"parents\":null,\"name\":\"n\"}]}]";
    let back = parse_state(&chars(text)).expect("null parents must not be a decode error");
    assert_eq!(back.len(), 1);
    assert_eq!(back[0].files.len(), 1);
    assert!(back[0].files[0].parents.is_empty());
    assert_eq!(back[0].files[0].quota_bytes_used, None);
}

#[test]
fn quota_bytes_are_decoded_from_string_form() {
    let text =
        "[{\"files\":[{\"id\":\"a\",\"mimeType\":\"m\",\"parents\":[],\"name\":\"n\",\"quotaBytesUsed\":\"2048\"}]}]";
    let back = parse_state(&chars(text)).unwrap();
    assert_eq!(back[0].files[0].quota_bytes_used, Some(2048));
}

#[test]
fn malformed_documents_are_rejected() {
    for text in [
        "",
        "[",
        "{}",
        "[}]",
        "[{\"files\":}]",
        "[{\"files\":[]}] ",
        "[{\"files\":[],\"nextPageToken\":3}]",
        "[{\"files\":[{\"id\":\"a\"}]}]",
        "[{\"files\":[{\"id\":\"a\",\"mimeType\":\"m\",\"parents\":[],\"name\":\"n\",\"quotaBytesUsed\":\"99999999999999999999\"}]}]",
    ] {
        assert!(parse_state(&chars(text)).is_none(), "accepted: {text:?}");
    }
}

#[test]
fn round_trip_preserves_escaped_characters() {
    let pages = vec![Page {
        files: vec![FileRecord {
            id: "weird \\\" id".to_string(),
            mime_type: "m".to_string(),
            parents: vec![],
            name: "line\nbreak and \\\\ slashes".to_string(),
            quota_bytes_used: None,
            size: None,
            sha256_checksum: None,
        }],
        next_page_token: Some("a\"b".to_string()),
    }];
    let text = encode_state(&pages);
    let back = parse_state(&chars(&text)).unwrap();
    assert_eq!(back[0].files[0].id, pages[0].files[0].id);
    assert_eq!(back[0].files[0].name, pages[0].files[0].name);
    assert_eq!(back[0].next_page_token, pages[0].next_page_token);
}
