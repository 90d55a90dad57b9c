use mdnote::errors::AppError;
use mdnote::scan::scan_content;
use mdnote::store::Store;

fn na() -> String {
    "0A000000000000000000000000".to_string()
}

fn nb() -> String {
    "0B000000000000000000000000".to_string()
}

fn nc() -> String {
    "0C000000000000000000000000".to_string()
}

fn wrapped(id: &str) -> String {
    format!("[[{}]]", id)
}

fn store_with_three() -> Store {
    let mut s = Store::new();
    s.create_note_with(na(), 10, None, "note a".to_string(), "".to_string()).unwrap();
    s.create_note_with(nb(), 20, None, "note b".to_string(), "".to_string()).unwrap();
    s.create_note_with(nc(), 30, None, "note c".to_string(), "".to_string()).unwrap();
    s
}

#[test]
fn sync_replaces_prior_edges_and_skips_self() {
    let mut s = store_with_three();
    s.add_link(na(), nc(), None).unwrap();
    let content = format!("see {} and {}", wrapped(&nb()), wrapped(&na()));
    s.sync_backlinks(na(), content).unwrap();
    let out = s.get_outgoing_links(na());
    assert_eq!(out.len(), 1);
    assert_eq!(out[0].id, nb());
    // A second sync against different content replaces the set again.
    s.sync_backlinks(na(), wrapped(&nc())).unwrap();
    let out = s.get_outgoing_links(na());
    assert_eq!(out.len(), 1);
    assert_eq!(out[0].id, nc());
}

#[test]
fn sync_context_window_holds_surrounding_text() {
    let mut s = store_with_three();
    let content = format!("intro {} outro", wrapped(&nb()));
    s.sync_backlinks(na(), content.clone()).unwrap();
    let back = s.get_backlinks(nb());
    assert_eq!(back.len(), 1);
    assert_eq!(back[0].source_id, na());
    // Short content: the window is clipped to the whole text.
    assert_eq!(back[0].context.as_deref(), Some(content.as_str()));
}

#[test]
fn sync_last_match_wins_per_target() {
    let mut s = store_with_three();
    let content = format!("first {} then {} end", wrapped(&nb()), wrapped(&nb()));
    s.sync_backlinks(na(), content.clone()).unwrap();
    let back = s.get_backlinks(nb());
    assert_eq!(back.len(), 1);
    let ctx = back[0].context.clone().unwrap();
    // The kept context comes from the second match: it reaches the end.
    assert!(ctx.ends_with(" end"));
}

#[test]
fn backlinks_report_live_title() {
    let mut s = store_with_three();
    s.add_link(na(), nb(), Some("ctx".to_string())).unwrap();
    s.update_note_with(na(), 40, Some("renamed".to_string()), None, None).unwrap();
    let back = s.get_backlinks(nb());
    assert_eq!(back.len(), 1);
    assert_eq!(back[0].source_title, "renamed");
}

#[test]
fn dangling_edges_are_skipped() {
    let mut s = store_with_three();
    let ghost_id = "0D000000000000000000000000".to_string();
    s.add_link(ghost_id.clone(), nb(), None).unwrap();
    s.add_link(na(), ghost_id.clone(), None).unwrap();
    assert!(s.get_backlinks(nb()).is_empty());
    assert!(s.get_outgoing_links(na()).is_empty());
}

#[test]
fn add_link_upserts_context() {
    let mut s = store_with_three();
    s.add_link(na(), nb(), Some("one".to_string())).unwrap();
    s.add_link(na(), nb(), Some("two".to_string())).unwrap();
    let back = s.get_backlinks(nb());
    assert_eq!(back.len(), 1);
    assert_eq!(back[0].context.as_deref(), Some("two"));
}

#[test]
fn remove_link_is_idempotent() {
    let mut s = store_with_three();
    s.add_link(na(), nb(), None).unwrap();
    s.remove_link(na(), nb()).unwrap();
    assert!(s.get_backlinks(nb()).is_empty());
    assert!(s.remove_link(na(), nb()).is_ok());
}

#[test]
fn delete_note_purges_edges_both_ways() {
    let mut s = store_with_three();
    s.add_link(na(), nb(), None).unwrap();
    s.add_link(nb(), nc(), None).unwrap();
    s.create_tag_with("0T000000000000000000000000".to_string(), "x".to_string(), None)
        .unwrap();
    s.add_tag_to_note(nb(), "0T000000000000000000000000".to_string()).unwrap();
    s.delete_note(nb()).unwrap();
    assert!(s.get_backlinks(nb()).is_empty());
    assert!(s.get_outgoing_links(na()).is_empty());
    assert!(s.get_outgoing_links(nb()).is_empty());
    assert_eq!(s.list_tags()[0].note_count, 0);
    // The index no longer serves the deleted note.
    let hits = s.search_notes("note".to_string(), 10).unwrap();
    assert!(hits.iter().all(|h| h.id != nb()));
    assert!(matches!(s.get_note(nb()), Err(AppError::NotFound(_))));
}

#[test]
fn scan_finds_non_overlapping_references() {
    let a = "0A000000000000000000000000";
    let b = "0B000000000000000000000000";
    let text = format!("{}{} tail", wrapped(a), wrapped(b));
    let found = scan_content(&text);
    assert_eq!(found.len(), 2);
    assert_eq!(found[0].target, a);
    assert_eq!(found[1].target, b);
}

#[test]
fn scan_rejects_foreign_characters() {
    // U is outside the identifier alphabet, so this is no reference.
    let text = "[[UU000000000000000000000000]] and [[short]]".to_string();
    assert!(scan_content(&text).is_empty());
}

#[test]
fn clear_outgoing_links_empties_one_source() {
    let mut s = store_with_three();
    s.add_link(na(), nb(), None).unwrap();
    s.add_link(nc(), nb(), None).unwrap();
    s.clear_outgoing_links(na()).unwrap();
    assert!(s.get_outgoing_links(na()).is_empty());
    assert_eq!(s.get_backlinks(nb()).len(), 1);
    assert_eq!(s.get_backlinks(nb())[0].source_id, nc());
}
