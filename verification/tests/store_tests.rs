use mdnote::errors::AppError;
use mdnote::store::Store;

fn id_a() -> String {
    "AAAAAAAAAAAAAAAAAAAAAAAAAA".to_string()
}

fn id_b() -> String {
    "BBBBBBBBBBBBBBBBBBBBBBBBBB".to_string()
}

fn id_c() -> String {
    "CCCCCCCCCCCCCCCCCCCCCCCCCC".to_string()
}

fn id_f() -> String {
    "FFFFFFFFFFFFFFFFFFFFFFFFFF".to_string()
}

fn id_t() -> String {
    "TTTTTTTTTTTTTTTTTTTTTTTTTT".to_string()
}

#[test]
fn create_then_fetch_identical() {
    let mut s = Store::new();
    let created = s
        .create_note_with(id_a(), 1000, None, "hello".to_string(), "world".to_string())
        .unwrap();
    assert_eq!(created.created_at, created.updated_at);
    let fetched = s.get_note(id_a()).unwrap();
    assert_eq!(fetched.id, created.id);
    assert_eq!(fetched.folder_id, created.folder_id);
    assert_eq!(fetched.title, created.title);
    assert_eq!(fetched.content, created.content);
    assert_eq!(fetched.created_at, created.created_at);
    assert_eq!(fetched.updated_at, created.updated_at);
}

#[test]
fn update_title_only_preserves_rest() {
    let mut s = Store::new();
    s.create_folder_with(id_f(), 5, "stuff".to_string(), None).unwrap();
    s.create_note_with(id_a(), 10, Some(id_f()), "old".to_string(), "body".to_string())
        .unwrap();
    let updated = s
        .update_note_with(id_a(), 20, Some("new".to_string()), None, None)
        .unwrap();
    assert_eq!(updated.title, "new");
    assert_eq!(updated.content, "body");
    assert_eq!(updated.folder_id, Some(id_f()));
    assert_eq!(updated.created_at, 10);
    assert_eq!(updated.updated_at, 20);
}

#[test]
fn update_folder_tristate() {
    let mut s = Store::new();
    s.create_folder_with(id_f(), 5, "stuff".to_string(), None).unwrap();
    s.create_note_with(id_a(), 10, Some(id_f()), "t".to_string(), "c".to_string())
        .unwrap();
    // Omitted entirely: prior value kept.
    let kept = s.update_note_with(id_a(), 11, None, None, None).unwrap();
    assert_eq!(kept.folder_id, Some(id_f()));
    // Present with none: cleared.
    let cleared = s.update_note_with(id_a(), 12, None, None, Some(None)).unwrap();
    assert_eq!(cleared.folder_id, None);
    // Present with a value: set.
    let set = s
        .update_note_with(id_a(), 13, None, None, Some(Some(id_f())))
        .unwrap();
    assert_eq!(set.folder_id, Some(id_f()));
}

#[test]
fn update_rejects_missing_folder() {
    let mut s = Store::new();
    s.create_note_with(id_a(), 10, None, "t".to_string(), "c".to_string()).unwrap();
    let err = s
        .update_note_with(id_a(), 11, None, None, Some(Some(id_f())))
        .unwrap_err();
    assert!(matches!(err, AppError::SqliteError(_)));
}

#[test]
fn listing_default_root_only() {
    let mut s = Store::new();
    s.create_folder_with(id_f(), 1, "f".to_string(), None).unwrap();
    s.create_note_with(id_a(), 10, None, "root".to_string(), "r".to_string()).unwrap();
    s.create_note_with(id_b(), 20, Some(id_f()), "filed".to_string(), "f".to_string())
        .unwrap();
    let r = s.list_notes(None, None, 50, 0);
    assert_eq!(r.total, 1);
    assert_eq!(r.notes.len(), 1);
    assert_eq!(r.notes[0].id, id_a());
}

#[test]
fn listing_tag_filter_spans_folders() {
    let mut s = Store::new();
    s.create_folder_with(id_f(), 1, "f".to_string(), None).unwrap();
    s.create_note_with(id_a(), 10, None, "root".to_string(), "r".to_string()).unwrap();
    s.create_note_with(id_b(), 20, Some(id_f()), "filed".to_string(), "f".to_string())
        .unwrap();
    s.create_tag_with(id_t(), "urgent".to_string(), None).unwrap();
    s.add_tag_to_note(id_a(), id_t()).unwrap();
    s.add_tag_to_note(id_b(), id_t()).unwrap();
    let r = s.list_notes(None, Some(id_t()), 50, 0);
    assert_eq!(r.total, 2);
    let ids: Vec<String> = r.notes.iter().map(|n| n.id.clone()).collect();
    assert!(ids.contains(&id_a()));
    assert!(ids.contains(&id_b()));
}

#[test]
fn listing_orders_and_pages() {
    let mut s = Store::new();
    s.create_note_with(id_a(), 10, None, "a".to_string(), "a".to_string()).unwrap();
    s.create_note_with(id_b(), 30, None, "b".to_string(), "b".to_string()).unwrap();
    s.create_note_with(id_c(), 20, None, "c".to_string(), "c".to_string()).unwrap();
    let r = s.list_notes(None, None, 50, 0);
    assert_eq!(r.total, 3);
    let ids: Vec<String> = r.notes.iter().map(|n| n.id.clone()).collect();
    assert_eq!(ids, vec![id_b(), id_c(), id_a()]);
    let page = s.list_notes(None, None, 1, 1);
    assert_eq!(page.total, 3);
    assert_eq!(page.notes.len(), 1);
    assert_eq!(page.notes[0].id, id_c());
}

#[test]
fn excerpt_truncates_long_content() {
    let mut s = Store::new();
    let long: String = "x".repeat(300);
    s.create_note_with(id_a(), 10, None, "t".to_string(), long).unwrap();
    let r = s.list_notes(None, None, 50, 0);
    assert_eq!(r.notes[0].excerpt.chars().count(), 200);
}

#[test]
fn delete_folder_detaches_notes() {
    let mut s = Store::new();
    s.create_folder_with(id_f(), 1, "f".to_string(), None).unwrap();
    s.create_note_with(id_a(), 10, Some(id_f()), "a".to_string(), "a".to_string())
        .unwrap();
    s.create_note_with(id_b(), 20, Some(id_f()), "b".to_string(), "b".to_string())
        .unwrap();
    s.create_note_with(id_c(), 30, None, "c".to_string(), "c".to_string()).unwrap();
    let resp = s.delete_folder(id_f(), false).unwrap();
    assert!(resp.success);
    assert_eq!(resp.moved_notes, 2);
    assert_eq!(s.get_note(id_a()).unwrap().folder_id, None);
    assert_eq!(s.get_note(id_b()).unwrap().folder_id, None);
    assert!(s.list_folders().is_empty());
}

#[test]
fn delete_folder_removes_notes() {
    let mut s = Store::new();
    s.create_folder_with(id_f(), 1, "f".to_string(), None).unwrap();
    s.create_note_with(id_a(), 10, Some(id_f()), "a".to_string(), "a".to_string())
        .unwrap();
    s.create_note_with(id_c(), 30, None, "c".to_string(), "c".to_string()).unwrap();
    let resp = s.delete_folder(id_f(), true).unwrap();
    assert_eq!(resp.moved_notes, 0);
    assert!(matches!(s.get_note(id_a()), Err(AppError::NotFound(_))));
    assert!(s.get_note(id_c()).is_ok());
}

#[test]
fn delete_missing_folder_not_found() {
    let mut s = Store::new();
    assert!(matches!(s.delete_folder(id_f(), false), Err(AppError::NotFound(_))));
}

#[test]
fn folder_counts_in_listing() {
    let mut s = Store::new();
    s.create_folder_with(id_f(), 1, "f".to_string(), None).unwrap();
    s.create_note_with(id_a(), 10, Some(id_f()), "a".to_string(), "a".to_string())
        .unwrap();
    s.create_note_with(id_b(), 20, None, "b".to_string(), "b".to_string()).unwrap();
    let folders = s.list_folders();
    assert_eq!(folders.len(), 1);
    assert_eq!(folders[0].name, "f");
    assert_eq!(folders[0].note_count, 1);
}

#[test]
fn create_note_rejects_missing_folder() {
    let mut s = Store::new();
    let err = s
        .create_note_with(id_a(), 10, Some(id_f()), "t".to_string(), "c".to_string())
        .unwrap_err();
    assert!(matches!(err, AppError::SqliteError(_)));
    assert!(matches!(s.get_note(id_a()), Err(AppError::NotFound(_))));
}

#[test]
fn duplicate_tag_name_rejected() {
    let mut s = Store::new();
    s.create_tag_with(id_t(), "work".to_string(), None).unwrap();
    let err = s
        .create_tag_with(id_a(), "work".to_string(), None)
        .unwrap_err();
    assert!(matches!(err, AppError::SqliteError(_)));
}

#[test]
fn tag_default_color_applied() {
    let mut s = Store::new();
    let t = s.create_tag_with(id_t(), "work".to_string(), None).unwrap();
    assert_eq!(t.color, "#3b82f6");
    let u = s
        .create_tag_with(id_a(), "play".to_string(), Some("#ff0000".to_string()))
        .unwrap();
    assert_eq!(u.color, "#ff0000");
}

#[test]
fn add_tag_twice_is_noop() {
    let mut s = Store::new();
    s.create_note_with(id_a(), 10, None, "t".to_string(), "c".to_string()).unwrap();
    s.create_tag_with(id_t(), "work".to_string(), None).unwrap();
    s.add_tag_to_note(id_a(), id_t()).unwrap();
    s.add_tag_to_note(id_a(), id_t()).unwrap();
    let tags = s.list_tags();
    assert_eq!(tags.len(), 1);
    assert_eq!(tags[0].note_count, 1);
    assert_eq!(s.get_note_tags(id_a()).len(), 1);
}

#[test]
fn remove_missing_assoc_is_ok() {
    let mut s = Store::new();
    assert!(s.remove_tag_from_note(id_a(), id_t()).is_ok());
}

#[test]
fn add_tag_to_missing_note_not_found() {
    let mut s = Store::new();
    s.create_tag_with(id_t(), "work".to_string(), None).unwrap();
    assert!(matches!(s.add_tag_to_note(id_a(), id_t()), Err(AppError::NotFound(_))));
}

#[test]
fn delete_tag_cascades_assocs() {
    let mut s = Store::new();
    s.create_note_with(id_a(), 10, None, "t".to_string(), "c".to_string()).unwrap();
    s.create_tag_with(id_t(), "work".to_string(), None).unwrap();
    s.add_tag_to_note(id_a(), id_t()).unwrap();
    s.delete_tag(id_t()).unwrap();
    assert!(s.list_tags().is_empty());
    assert!(s.get_note_tags(id_a()).is_empty());
    assert!(matches!(s.delete_tag(id_t()), Err(AppError::NotFound(_))));
}

#[test]
fn missing_note_not_found() {
    let mut s = Store::new();
    assert!(matches!(s.get_note(id_a()), Err(AppError::NotFound(_))));
    assert!(matches!(
        s.update_note_with(id_a(), 1, None, None, None),
        Err(AppError::NotFound(_))
    ));
    assert!(matches!(s.delete_note(id_a()), Err(AppError::NotFound(_))));
}

#[test]
fn generated_ids_are_well_formed() {
    let mut s = Store::new();
    let missing = s.create_note(
        Some("NOSUCHFOLDER00000000000000".to_string()),
        "t".to_string(),
        "c".to_string(),
    );
    assert!(missing.is_err());
    let n = s.create_note(None, "t".to_string(), "c".to_string()).unwrap();
    assert_eq!(n.id.chars().count(), 26);
    for c in n.id.chars() {
        assert!(c.is_ascii_digit() || (c.is_ascii_uppercase() && !"ILOU".contains(c)));
    }
    assert_eq!(n.created_at, n.updated_at);
}

#[test]
fn update_refreshes_timestamp() {
    let mut s = Store::new();
    s.create_note_with(id_a(), 100, None, "t".to_string(), "c".to_string()).unwrap();
    let u = s
        .update_note_with(id_a(), 250, None, Some("c2".to_string()), None)
        .unwrap();
    assert_eq!(u.updated_at, 250);
    assert_eq!(u.created_at, 100);
}

#[test]
fn update_folder_partial_and_missing() {
    let mut s = Store::new();
    s.create_folder_with(id_f(), 1, "old".to_string(), None).unwrap();
    s.create_folder_with(id_c(), 2, "parent".to_string(), None).unwrap();
    let renamed = s.update_folder(id_f(), Some("new".to_string()), None).unwrap();
    assert_eq!(renamed.name, "new");
    assert_eq!(renamed.parent_id, None);
    assert_eq!(renamed.created_at, 1);
    let moved = s.update_folder(id_f(), None, Some(Some(id_c()))).unwrap();
    assert_eq!(moved.name, "new");
    assert_eq!(moved.parent_id, Some(id_c()));
    let cleared = s.update_folder(id_f(), None, Some(None)).unwrap();
    assert_eq!(cleared.parent_id, None);
    assert!(matches!(
        s.update_folder(id_a(), None, None),
        Err(AppError::NotFound(_))
    ));
}
