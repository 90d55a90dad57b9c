use mdnote::idgen::check_valid_id;
use mdnote::settings::{parse_i32, settings_from_pairs, Settings};
use mdnote::store::Store;

#[test]
fn migrations_apply_exactly_once() {
    let mut s = Store::new();
    let first = s.run_migrations();
    assert_eq!(first, vec![1, 2, 3, 4, 5]);
    assert_eq!(s.applied.len(), 5);
    // A second run — a restart — applies nothing and changes no bookkeeping.
    let second = s.run_migrations();
    assert!(second.is_empty());
    assert_eq!(s.applied, vec![1, 2, 3, 4, 5]);
}

#[test]
fn migrations_resume_from_partial_record() {
    let mut s = Store::new();
    s.applied = vec![1, 2];
    let newly = s.run_migrations();
    assert_eq!(newly, vec![3, 4, 5]);
    assert_eq!(s.applied, vec![1, 2, 3, 4, 5]);
}

#[test]
fn settings_defaults_apply() {
    let d = Settings::default();
    assert_eq!(d.theme, "system");
    assert_eq!(d.font_size, 16);
    assert_eq!(d.font_family, "Inter");
    assert_eq!(d.auto_save_delay, 500);
    assert!(d.spell_check);
}

#[test]
fn settings_read_overrides_and_ignores_junk() {
    let pairs = vec![
        ("theme".to_string(), "dark".to_string()),
        ("font_size".to_string(), "18".to_string()),
        ("auto_save_delay".to_string(), "soon".to_string()),
        ("spell_check".to_string(), "false".to_string()),
        ("mystery".to_string(), "ignored".to_string()),
    ];
    let s = settings_from_pairs(&pairs);
    assert_eq!(s.theme, "dark");
    assert_eq!(s.font_size, 18);
    assert_eq!(s.font_family, "Inter");
    assert_eq!(s.auto_save_delay, 500);
    assert!(!s.spell_check);
}

#[test]
fn settings_last_write_wins() {
    let pairs = vec![
        ("theme".to_string(), "dark".to_string()),
        ("theme".to_string(), "light".to_string()),
    ];
    let s = settings_from_pairs(&pairs);
    assert_eq!(s.theme, "light");
}

#[test]
fn parse_i32_accepts_and_rejects() {
    assert_eq!(parse_i32(&"42".to_string()), Some(42));
    assert_eq!(parse_i32(&"-42".to_string()), Some(-42));
    assert_eq!(parse_i32(&"+7".to_string()), Some(7));
    assert_eq!(parse_i32(&"007".to_string()), Some(7));
    assert_eq!(parse_i32(&"2147483647".to_string()), Some(2147483647));
    assert_eq!(parse_i32(&"-2147483648".to_string()), Some(-2147483648));
    assert_eq!(parse_i32(&"2147483648".to_string()), None);
    assert_eq!(parse_i32(&"-2147483649".to_string()), None);
    assert_eq!(parse_i32(&"".to_string()), None);
    assert_eq!(parse_i32(&"-".to_string()), None);
    assert_eq!(parse_i32(&"12x".to_string()), None);
    assert_eq!(parse_i32(&" 12".to_string()), None);
    assert_eq!(parse_i32(&"99999999999999999999".to_string()), None);
}

#[test]
fn identifier_shape_is_checked() {
    assert!(check_valid_id(&"0123456789ABCDEFGHJKMNPQRS".to_string()));
    assert!(!check_valid_id(&"0123456789ABCDEFGHJKMNPQR".to_string()));
    assert!(!check_valid_id(&"0123456789ABCDEFGHJKMNPQRU".to_string()));
    assert!(!check_valid_id(&"0123456789abcdefghjkmnpqrs".to_string()));
}
