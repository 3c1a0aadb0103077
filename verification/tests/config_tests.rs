use remote_store::config::append_section;
use remote_store::config::delete_section;
use remote_store::config::extract_section;
use remote_store::config::has_section;
use remote_store::config::parse;
use remote_store::config::serialize;
use remote_store::config::ConfigError;
use remote_store::config::RemoteEntry;

fn entry(name: &str, kind: &str, fields: &[(&str, &str)]) -> RemoteEntry {
    RemoteEntry {
        name: name.to_string(),
        kind: kind.to_string(),
        fields: fields.iter().map(|(k, v)| (k.to_string(), v.to_string())).collect(),
    }
}

#[test]
fn parse_single_section() {
    let doc = "[gdrive]\ntype = drive\ntoken = xxx\n";
    let entries = parse(doc);
    assert_eq!(entries.len(), 1);
    assert_eq!(entries[0].name, "gdrive");
    assert_eq!(entries[0].kind, "drive");
    assert_eq!(entries[0].fields, vec![("token".to_string(), "xxx".to_string())]);
}

#[test]
fn parse_skips_comments_and_blanks() {
    let doc = "# a comment\n; another\n\n[s3box]\ntype=s3\n  region = eu  \n";
    let entries = parse(doc);
    assert_eq!(entries.len(), 1);
    assert_eq!(entries[0].name, "s3box");
    assert_eq!(entries[0].kind, "s3");
    assert_eq!(entries[0].fields, vec![("region".to_string(), "eu".to_string())]);
}

#[test]
fn parse_drops_section_without_type() {
    let entries = parse("[foo]\nfield = 1\n");
    assert_eq!(entries.len(), 0);
}

#[test]
fn parse_keeps_typed_sections_in_order() {
    let doc = "[a]\ntype = alpha\n[skipme]\nx = 1\n[b]\ntype = beta\n";
    let entries = parse(doc);
    assert_eq!(entries.len(), 2);
    assert_eq!(entries[0].name, "a");
    assert_eq!(entries[1].name, "b");
    assert_eq!(entries[1].kind, "beta");
}

#[test]
fn parse_multiline_pem_value() {
    let doc = "[srv]\ntype = sftp\nkey_pem = -----BEGIN CERT-----\nAAAA\nBBBB\n-----END CERT-----\n";
    let entries = parse(doc);
    assert_eq!(entries.len(), 1);
    assert_eq!(
        entries[0].fields,
        vec![(
            "key_pem".to_string(),
            "-----BEGIN CERT-----\nAAAA\nBBBB\n-----END CERT-----".to_string()
        )]
    );
}

#[test]
fn parse_last_type_wins() {
    let doc = "[a]\ntype = one\ntype = two\n";
    let entries = parse(doc);
    assert_eq!(entries.len(), 1);
    assert_eq!(entries[0].kind, "two");
}

#[test]
fn extract_returns_all_pairs_including_type() {
    let doc = "[gdrive]\ntype = drive\ntoken = xxx\n";
    let got = extract_section(doc, "gdrive").unwrap();
    assert_eq!(
        got,
        vec![
            ("type".to_string(), "drive".to_string()),
            ("token".to_string(), "xxx".to_string())
        ]
    );
}

#[test]
fn extract_missing_section_fails() {
    let doc = "[gdrive]\ntype = drive\ntoken = xxx\n";
    assert_eq!(extract_section(doc, "dropbox"), Err(ConfigError::SectionNotFound));
}

#[test]
fn extract_reenters_split_section() {
    let doc = "[a]\nx = 1\n[b]\ny = 2\n[a]\nz = 3\n";
    let got = extract_section(doc, "a").unwrap();
    assert_eq!(
        got,
        vec![
            ("x".to_string(), "1".to_string()),
            ("z".to_string(), "3".to_string())
        ]
    );
}

#[test]
fn extract_multiline_pem_value() {
    let doc = "[srv]\ntype = sftp\npubkey = -----BEGIN KEY-----\nQQQ\n-----END KEY-----\n";
    let got = extract_section(doc, "srv").unwrap();
    assert_eq!(got.len(), 2);
    assert_eq!(got[1].0, "pubkey");
    assert_eq!(got[1].1, "-----BEGIN KEY-----\nQQQ\n-----END KEY-----");
}

#[test]
fn delete_removes_only_target_section() {
    let doc = "[bar]\nx = 1\n[foo]\ny = 2\n[baz]\nz = 3\n";
    let got = delete_section(doc, "foo");
    assert_eq!(got, "[bar]\nx = 1\n[baz]\nz = 3\n");
}

#[test]
fn delete_missing_section_is_a_no_op() {
    let doc = "[bar]\nx = 1\n\n# comment\n[baz]\nz = 3\n";
    assert_eq!(delete_section(doc, "foo"), doc);
}

#[test]
fn delete_is_idempotent() {
    let doc = "[bar]\nx = 1\n[foo]\ny = 2\n[baz]\nz = 3\n";
    let once = delete_section(doc, "foo");
    let twice = delete_section(&once, "foo");
    assert_eq!(twice, once);
}

#[test]
fn delete_keeps_other_sections_byte_for_byte() {
    let before = "[one]\na = 1\n\n  # note \n[two]\nb = 2\n[three]\nc = 3";
    let got = delete_section(before, "two");
    assert_eq!(got, "[one]\na = 1\n\n  # note \n[three]\nc = 3");
}

#[test]
fn append_writes_section_at_end() {
    let doc = "[old]\ntype = drive\n";
    let fields = vec![
        ("access_key".to_string(), "AK".to_string()),
        ("secret".to_string(), "SK".to_string()),
    ];
    let got = append_section(doc, "newbox", "s3", &fields).unwrap();
    assert_eq!(
        got,
        "[old]\ntype = drive\n\n[newbox]\ntype = s3\naccess_key = AK\nsecret = SK\n"
    );
}

#[test]
fn append_then_parse_finds_new_remote() {
    let fields = vec![
        ("access_key".to_string(), "AK".to_string()),
        ("secret".to_string(), "SK".to_string()),
    ];
    let got = append_section("", "newbox", "s3", &fields).unwrap();
    let entries = parse(&got);
    assert_eq!(entries.len(), 1);
    assert_eq!(entries[0].name, "newbox");
    assert_eq!(entries[0].kind, "s3");
    assert_eq!(
        entries[0].fields,
        vec![
            ("access_key".to_string(), "AK".to_string()),
            ("secret".to_string(), "SK".to_string())
        ]
    );
}

#[test]
fn append_rejects_duplicate_name() {
    let doc = "[newbox]\ntype = s3\n";
    let fields: Vec<(String, String)> = Vec::new();
    assert_eq!(
        append_section(doc, "newbox", "s3", &fields),
        Err(ConfigError::DuplicateRemoteName)
    );
}

#[test]
fn append_skips_remote_name_field() {
    let fields = vec![
        ("remote_name".to_string(), "newbox".to_string()),
        ("token".to_string(), "t".to_string()),
    ];
    let got = append_section("", "newbox", "s3", &fields).unwrap();
    assert_eq!(got, "\n[newbox]\ntype = s3\ntoken = t\n");
}

#[test]
fn append_keeps_boolean_literals_unquoted() {
    let fields = vec![("readonly".to_string(), "true".to_string())];
    let got = append_section("", "box", "s3", &fields).unwrap();
    assert_eq!(got, "\n[box]\ntype = s3\nreadonly = true\n");
}

#[test]
fn has_section_sees_headers_only() {
    let doc = "x = [foo]\n[bar]\ntype = b\n";
    assert!(!has_section(doc, "foo"));
    assert!(has_section(doc, "bar"));
}

#[test]
fn serialize_then_parse_round_trips() {
    let doc = vec![
        entry("alpha", "drive", &[("token", "abc"), ("team", "x")]),
        entry("beta", "s3", &[("access_key", "AK")]),
        entry(
            "gamma",
            "sftp",
            &[("user", "u"), ("key_pem", "-----BEGIN CERT-----\nAA\n-----END CERT-----")],
        ),
    ];
    let text = serialize(&doc);
    let back = parse(&text);
    assert_eq!(back.len(), 3);
    for (a, b) in doc.iter().zip(back.iter()) {
        assert_eq!(a.name, b.name);
        assert_eq!(a.kind, b.kind);
        assert_eq!(a.fields, b.fields);
    }
}

#[test]
fn serialize_empty_document_is_empty_text() {
    let doc: Vec<RemoteEntry> = Vec::new();
    assert_eq!(serialize(&doc), "");
    assert_eq!(parse("").len(), 0);
}
