use regsnap::paths::game_registry_backup_file;
use regsnap::hive::get_hkey_from_name;
use regsnap::Entry;
use regsnap::HiveId;
use regsnap::NativeValue;
use regsnap::RawValue;

#[test]
fn sz_decodes_to_sz() {
    let e = Entry::from_native(&NativeValue::Sz(Some("hello".to_string())));
    assert_eq!(e, Entry::Sz("hello".to_string()));
    assert!(e.is_set());
}

#[test]
fn expand_sz_decodes_to_expand_sz() {
    let e = Entry::from_native(&NativeValue::ExpandSz(Some("%PATH%".to_string())));
    assert_eq!(e, Entry::ExpandSz("%PATH%".to_string()));
}

#[test]
fn multi_sz_decodes_to_multi_sz() {
    let e = Entry::from_native(&NativeValue::MultiSz(Some("a\nb".to_string())));
    assert_eq!(e, Entry::MultiSz("a\nb".to_string()));
}

#[test]
fn dword_decodes_to_dword_only() {
    let e = Entry::from_native(&NativeValue::Dword(Some(7)));
    assert_eq!(e, Entry::Dword(7));
    assert!(!matches!(e, Entry::Qword(_)));
    assert!(!matches!(e, Entry::Sz(_)));
}

#[test]
fn qword_decodes_to_qword_only() {
    let e = Entry::from_native(&NativeValue::Qword(Some(1 << 40)));
    assert_eq!(e, Entry::Qword(1 << 40));
    assert!(!matches!(e, Entry::Dword(_)));
}

#[test]
fn unsupported_type_decodes_to_unset() {
    let e = Entry::from_native(&NativeValue::Unsupported);
    assert_eq!(e, Entry::Unset);
    assert!(!e.is_set());
}

#[test]
fn failed_decode_falls_back_to_default() {
    assert_eq!(
        Entry::from_native(&NativeValue::Sz(None)),
        Entry::Sz(String::new())
    );
    assert_eq!(Entry::from_native(&NativeValue::Dword(None)), Entry::Dword(0));
    assert_eq!(Entry::from_native(&NativeValue::Qword(None)), Entry::Qword(0));
}

#[test]
fn unset_entry_converts_to_no_value() {
    assert_eq!(Entry::Unset.to_raw(), None);
}

#[test]
fn set_entries_convert_to_their_native_form() {
    assert_eq!(
        Entry::Sz("x".to_string()).to_raw(),
        Some(RawValue::Sz("x".to_string()))
    );
    assert_eq!(Entry::Dword(3).to_raw(), Some(RawValue::Dword(3)));
    assert_eq!(Entry::Qword(9).to_raw(), Some(RawValue::Qword(9)));
}

#[test]
fn value_round_trip_all_variants() {
    let entries = vec![
        Entry::Sz("short".to_string()),
        Entry::ExpandSz("%TEMP%\\x".to_string()),
        Entry::MultiSz("one\ntwo".to_string()),
        Entry::Dword(42),
        Entry::Qword(u64::MAX),
    ];
    for e in entries {
        let raw = e.to_raw().expect("set entry must have a native form");
        let back = Entry::from_native(&raw.into_native());
        assert_eq!(back, e);
    }
}

#[test]
fn hive_names_resolve_in_closed_set_only() {
    assert_eq!(
        get_hkey_from_name("HKEY_CURRENT_USER"),
        Some(HiveId::CurrentUser)
    );
    assert_eq!(
        get_hkey_from_name("HKEY_LOCAL_MACHINE"),
        Some(HiveId::LocalMachine)
    );
    assert_eq!(get_hkey_from_name("BOGUS_ROOT"), None);
    assert_eq!(get_hkey_from_name("hkey_current_user"), None);
    assert_eq!(get_hkey_from_name(""), None);
}

#[test]
fn backup_file_location_is_deterministic() {
    let p = game_registry_backup_file("/backups", "My Game");
    assert_eq!(p, "/backups/My Game/other/registry.yaml");
}
