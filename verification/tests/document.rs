use recent_files::codec::encode_document;
use recent_files::codec::parse_document;
use recent_files::store::interpret_read;
use recent_files::store::load_list;
use recent_files::store::next_document;
use recent_files::store::render_document;
use recent_files::store::store_file_name;
use recent_files::store::LoadOrigin;
use recent_files::store::ReadOutcome;

fn s(text: &str) -> String {
    String::from(text)
}

#[test]
fn encode_empty_list_is_exact() {
    let list: Vec<String> = Vec::new();
    assert_eq!(encode_document(&list), s("{\"files\":[]}"));
}

#[test]
fn encode_two_entries_is_exact() {
    let list = vec![s("/a"), s("/b")];
    assert_eq!(encode_document(&list), s("{\"files\":[\"/a\",\"/b\"]}"));
}

#[test]
fn encode_escapes_quote_backslash_and_control() {
    let list = vec![s("a\"b\\c\u{1}")];
    assert_eq!(
        encode_document(&list),
        s("{\"files\":[\"a\\\"b\\\\c\\u0001\"]}")
    );
}

#[test]
fn parse_canonical_document() {
    let parsed = parse_document("{\"files\":[\"/a\",\"/b\"]}");
    assert_eq!(parsed, Some(vec![s("/a"), s("/b")]));
}

#[test]
fn parse_pretty_printed_document() {
    let text = "{\n  \"files\": [\n    \"/a\",\n    \"/b\"\n  ]\n}";
    assert_eq!(parse_document(text), Some(vec![s("/a"), s("/b")]));
}

#[test]
fn parse_decodes_escapes() {
    let parsed = parse_document("{\"files\":[\"a\\nb\\t\\\"\\\\\\/\\u0041\"]}");
    assert_eq!(parsed, Some(vec![s("a\nb\t\"\\/A")]));
}

#[test]
fn parse_rejects_garbage() {
    assert_eq!(parse_document("not a document at all"), None);
    assert_eq!(parse_document(""), None);
    assert_eq!(parse_document("{\"files\":[\"unterminated]}"), None);
    assert_eq!(parse_document("{\"other\":[]}"), None);
    assert_eq!(parse_document("{\"files\":[1,2]}"), None);
    assert_eq!(parse_document("{\"files\":[]} trailing"), None);
}

#[test]
fn round_trip_plain_and_awkward_entries() {
    let lists = vec![
        Vec::new(),
        vec![s("/a")],
        vec![s("/a"), s("/b"), s("/c")],
        vec![s("with \"quotes\" and \\slashes\\")],
        vec![s("control\u{1}\u{1f}chars"), s("newline\nand tab\t")],
        vec![s("unicode \u{e9}\u{4e16}\u{754c}"), s("")],
    ];
    for list in lists {
        let doc = render_document(&list);
        let back = load_list(&ReadOutcome::Content(doc));
        assert_eq!(back, list);
    }
}

#[test]
fn missing_file_loads_empty_as_fresh_start() {
    let (list, origin) = interpret_read(&ReadOutcome::Missing);
    assert!(list.is_empty());
    assert_eq!(origin, LoadOrigin::FreshStart);
}

#[test]
fn unreadable_file_loads_empty() {
    let (list, origin) = interpret_read(&ReadOutcome::Unreadable);
    assert!(list.is_empty());
    assert_eq!(origin, LoadOrigin::UnreadableFile);
}

#[test]
fn corrupt_file_loads_empty() {
    let garbage = ReadOutcome::Content(s("][ this is no document"));
    let (list, origin) = interpret_read(&garbage);
    assert!(list.is_empty());
    assert_eq!(origin, LoadOrigin::MalformedDocument);
    assert!(load_list(&garbage).is_empty());
}

#[test]
fn well_formed_file_reports_its_origin() {
    let good = ReadOutcome::Content(s("{\"files\":[\"/a\"]}"));
    let (list, origin) = interpret_read(&good);
    assert_eq!(list, vec![s("/a")]);
    assert_eq!(origin, LoadOrigin::WellFormedDocument);
}

#[test]
fn add_twice_then_repeat_keeps_latest_first() {
    let doc1 = next_document(&ReadOutcome::Missing, &s("/a"));
    let doc2 = next_document(&ReadOutcome::Content(doc1), &s("/b"));
    let doc3 = next_document(&ReadOutcome::Content(doc2), &s("/a"));
    let listed = load_list(&ReadOutcome::Content(doc3));
    assert_eq!(listed, vec![s("/a"), s("/b")]);
}

#[test]
fn adds_past_capacity_evict_from_the_tail() {
    let mut outcome = ReadOutcome::Missing;
    for k in 0..12 {
        let doc = next_document(&outcome, &format!("/f{}", k));
        outcome = ReadOutcome::Content(doc);
    }
    let listed = load_list(&outcome);
    assert_eq!(listed.len(), 10);
    assert_eq!(listed[0], s("/f11"));
    assert_eq!(listed[9], s("/f2"));
}

#[test]
fn store_file_name_is_fixed() {
    assert_eq!(store_file_name(), s("recent_files.json"));
}
