use recent_files::policy::promote;

fn s(text: &str) -> String {
    String::from(text)
}

#[test]
fn promote_keeps_front_entry_in_place() {
    let current = vec![s("/a"), s("/b"), s("/c")];
    let result = promote(&current, &s("/a"));
    assert_eq!(result, vec![s("/a"), s("/b"), s("/c")]);
}

#[test]
fn promote_moves_inner_entry_to_front() {
    let current = vec![s("/a"), s("/b"), s("/c")];
    let result = promote(&current, &s("/b"));
    assert_eq!(result, vec![s("/b"), s("/a"), s("/c")]);
}

#[test]
fn promote_prepends_novel_entry() {
    let current = vec![s("/a"), s("/b")];
    let result = promote(&current, &s("/z"));
    assert_eq!(result, vec![s("/z"), s("/a"), s("/b")]);
}

#[test]
fn promote_evicts_oldest_entry_at_capacity() {
    let current: Vec<String> = (0..10).map(|k| format!("/e{}", k)).collect();
    let result = promote(&current, &s("/e10"));
    assert_eq!(result.len(), 10);
    assert_eq!(result[0], s("/e10"));
    for k in 0..9 {
        assert_eq!(result[k + 1], format!("/e{}", k));
    }
    assert!(!result.contains(&s("/e9")));
}

#[test]
fn promote_heals_duplicates_of_the_entry() {
    let current = vec![s("/a"), s("/a"), s("/b")];
    let result = promote(&current, &s("/a"));
    assert_eq!(result, vec![s("/a"), s("/b")]);
}

#[test]
fn promote_accepts_empty_entry_text() {
    let current = vec![s("/a")];
    let result = promote(&current, &s(""));
    assert_eq!(result, vec![s(""), s("/a")]);
}

#[test]
fn promote_on_empty_list_yields_single_entry() {
    let current: Vec<String> = Vec::new();
    let result = promote(&current, &s("/only"));
    assert_eq!(result, vec![s("/only")]);
}
