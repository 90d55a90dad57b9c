use mdnote::errors::AppError;
use mdnote::store::Store;

fn ida() -> String {
    "1A000000000000000000000000".to_string()
}

fn idb() -> String {
    "1B000000000000000000000000".to_string()
}

fn idc() -> String {
    "1C000000000000000000000000".to_string()
}

#[test]
fn search_exact_title_ranked_first_with_markers() {
    let mut s = Store::new();
    s.create_note_with(
        ida(),
        10,
        None,
        "quarterly report".to_string(),
        "the quarterly report is due".to_string(),
    )
    .unwrap();
    s.create_note_with(
        idb(),
        20,
        None,
        "groceries".to_string(),
        "a report of eggs and milk".to_string(),
    )
    .unwrap();
    s.create_note_with(idc(), 30, None, "unrelated".to_string(), "nothing here".to_string())
        .unwrap();
    let hits = s.search_notes("quarterly report".to_string(), 10).unwrap();
    // The unrelated note carries no term at all and is not a hit.
    assert!(hits.iter().all(|h| h.id != idc()));
    // The note whose title holds the exact text ranks above the rest.
    assert_eq!(hits[0].id, ida());
    // The snippet marks the matched term with the delimiter pair.
    assert!(hits[0].snippet.contains("==quarterly=="));
}

#[test]
fn search_rejects_empty_query() {
    let s = Store::new();
    assert!(matches!(s.search_notes("".to_string(), 10), Err(AppError::SqliteError(_))));
    assert!(matches!(s.search_notes("!!! ...".to_string(), 10), Err(AppError::SqliteError(_))));
}

#[test]
fn search_is_case_insensitive() {
    let mut s = Store::new();
    s.create_note_with(ida(), 10, None, "Alpha".to_string(), "BETA gamma".to_string())
        .unwrap();
    let hits = s.search_notes("beta".to_string(), 10).unwrap();
    assert_eq!(hits.len(), 1);
    assert_eq!(hits[0].id, ida());
}

#[test]
fn search_requires_every_term() {
    let mut s = Store::new();
    s.create_note_with(ida(), 10, None, "alpha".to_string(), "beta".to_string()).unwrap();
    s.create_note_with(idb(), 20, None, "alpha".to_string(), "delta".to_string()).unwrap();
    let hits = s.search_notes("alpha beta".to_string(), 10).unwrap();
    assert_eq!(hits.len(), 1);
    assert_eq!(hits[0].id, ida());
}

#[test]
fn search_honors_limit() {
    let mut s = Store::new();
    s.create_note_with(ida(), 10, None, "word".to_string(), "".to_string()).unwrap();
    s.create_note_with(idb(), 20, None, "word".to_string(), "".to_string()).unwrap();
    s.create_note_with(idc(), 30, None, "word".to_string(), "".to_string()).unwrap();
    let hits = s.search_notes("word".to_string(), 2).unwrap();
    assert_eq!(hits.len(), 2);
}

#[test]
fn search_title_hit_outranks_content_hit() {
    let mut s = Store::new();
    s.create_note_with(ida(), 10, None, "plain".to_string(), "the keyword is here".to_string())
        .unwrap();
    s.create_note_with(idb(), 20, None, "keyword".to_string(), "plain body".to_string())
        .unwrap();
    let hits = s.search_notes("keyword".to_string(), 10).unwrap();
    assert_eq!(hits.len(), 2);
    assert_eq!(hits[0].id, idb());
    assert!(hits[0].rank < hits[1].rank);
}

#[test]
fn search_snippet_leads_when_match_in_title_only() {
    let mut s = Store::new();
    s.create_note_with(ida(), 10, None, "solo".to_string(), "short body".to_string())
        .unwrap();
    let hits = s.search_notes("solo".to_string(), 10).unwrap();
    assert_eq!(hits.len(), 1);
    assert_eq!(hits[0].snippet, "short body");
}

#[test]
fn search_snippet_truncates_with_ellipsis() {
    let mut s = Store::new();
    let long = format!("{} keyword {}", "a".repeat(50), "b".repeat(50));
    s.create_note_with(ida(), 10, None, "t".to_string(), long).unwrap();
    let hits = s.search_notes("keyword".to_string(), 10).unwrap();
    assert_eq!(hits.len(), 1);
    let snip = &hits[0].snippet;
    assert!(snip.starts_with("..."));
    assert!(snip.ends_with("..."));
    assert!(snip.contains("==keyword=="));
}
