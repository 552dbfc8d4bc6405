use regsnap::Entries;
use regsnap::Entry;
use regsnap::Hives;
use regsnap::Keys;
use regsnap::HiveId;
use regsnap::NativeValue;
use regsnap::RawValue;
use regsnap::RegKeyData;
use regsnap::RegNode;
use regsnap::RegStore;
use regsnap::StoreKey;

fn get_entry<'a>(h: &'a Hives, hive: &str, key: &str, name: &str) -> Option<&'a Entry> {
    for (hn, keys) in &h.0 {
        if hn == hive {
            for (kn, entries) in &keys.0 {
                if kn == key {
                    for (en, e) in &entries.0 {
                        if en == name {
                            return Some(e);
                        }
                    }
                }
            }
        }
    }
    None
}

fn store_get<'a>(s: &'a RegStore, hive: HiveId, path: &str, name: &str) -> Option<&'a RawValue> {
    for k in &s.keys {
        if k.hive == hive && k.path == path {
            for (n, v) in &k.values {
                if n == name {
                    return Some(v);
                }
            }
        }
    }
    None
}

fn sample_tree() -> RegNode {
    RegNode::Key(RegKeyData {
        values: vec![
            ("greeting".to_string(), NativeValue::Sz(Some("hello".to_string()))),
            ("blob".to_string(), NativeValue::Unsupported),
            ("count".to_string(), NativeValue::Dword(Some(7))),
        ],
        children: vec![
            (
                "Sub".to_string(),
                RegNode::Key(RegKeyData {
                    values: vec![("big".to_string(), NativeValue::Qword(Some(1 << 40)))],
                    children: vec![],
                }),
            ),
            ("Locked".to_string(), RegNode::Inaccessible),
        ],
    })
}

#[test]
fn capture_records_set_values_at_their_paths() {
    let mut hives = Hives::default();
    let tree = sample_tree();
    let r = hives.store_key_from_full_path("HKEY_CURRENT_USER\\Software\\App", &tree);
    // The locked child makes the walk report failure...
    assert!(r.is_err());
    // ...but everything readable is in the snapshot (partial-failure continuation).
    assert_eq!(
        get_entry(&hives, "HKEY_CURRENT_USER", "Software\\App", "greeting"),
        Some(&Entry::Sz("hello".to_string()))
    );
    assert_eq!(
        get_entry(&hives, "HKEY_CURRENT_USER", "Software\\App", "count"),
        Some(&Entry::Dword(7))
    );
    assert_eq!(
        get_entry(&hives, "HKEY_CURRENT_USER", "Software\\App\\Sub", "big"),
        Some(&Entry::Qword(1 << 40))
    );
    // The unsupported value decodes to unset and is excluded.
    assert_eq!(
        get_entry(&hives, "HKEY_CURRENT_USER", "Software\\App", "blob"),
        None
    );
}

#[test]
fn capture_reports_found_for_direct_values() {
    let mut hives = Hives::default();
    let tree = RegNode::Key(RegKeyData {
        values: vec![("v".to_string(), NativeValue::Sz(Some("x".to_string())))],
        children: vec![],
    });
    let info = hives
        .store_key_from_full_path("HKEY_CURRENT_USER\\K", &tree)
        .unwrap();
    assert!(info.found);
}

#[test]
fn capture_found_ignores_descendants() {
    let mut hives = Hives::default();
    let tree = RegNode::Key(RegKeyData {
        values: vec![("b".to_string(), NativeValue::Unsupported)],
        children: vec![(
            "Sub".to_string(),
            RegNode::Key(RegKeyData {
                values: vec![("v".to_string(), NativeValue::Dword(Some(1)))],
                children: vec![],
            }),
        )],
    });
    let info = hives
        .store_key_from_full_path("HKEY_CURRENT_USER\\K", &tree)
        .unwrap();
    assert!(!info.found);
    assert_eq!(
        get_entry(&hives, "HKEY_CURRENT_USER", "K\\Sub", "v"),
        Some(&Entry::Dword(1))
    );
}

#[test]
fn bogus_root_fails_before_any_enumeration() {
    let mut hives = Hives::default();
    let tree = sample_tree();
    let r = hives.store_key_from_full_path("BOGUS_ROOT\\Foo", &tree);
    assert!(r.is_err());
    assert!(hives.0.is_empty());
}

#[test]
fn path_without_separator_is_malformed() {
    let mut hives = Hives::default();
    let tree = sample_tree();
    let r = hives.store_key_from_full_path("HKEY_CURRENT_USER", &tree);
    assert!(r.is_err());
    assert!(hives.0.is_empty());
}

#[test]
fn alternate_separator_captures_identically() {
    let tree1 = sample_tree();
    let tree2 = sample_tree();
    let mut with_slash = Hives::default();
    let mut with_backslash = Hives::default();
    let _ = with_slash.store_key_from_full_path("HKEY_CURRENT_USER/Software/App", &tree1);
    let _ = with_backslash.store_key_from_full_path("HKEY_CURRENT_USER\\Software\\App", &tree2);
    assert_eq!(with_slash, with_backslash);
}

#[test]
fn first_captured_value_wins() {
    let mut hives = Hives::default();
    let first = RegNode::Key(RegKeyData {
        values: vec![("v".to_string(), NativeValue::Dword(Some(1)))],
        children: vec![],
    });
    let second = RegNode::Key(RegKeyData {
        values: vec![("v".to_string(), NativeValue::Dword(Some(2)))],
        children: vec![],
    });
    hives.store_key_from_full_path("HKEY_CURRENT_USER\\K", &first).unwrap();
    hives.store_key_from_full_path("HKEY_CURRENT_USER\\K", &second).unwrap();
    assert_eq!(
        get_entry(&hives, "HKEY_CURRENT_USER", "K", "v"),
        Some(&Entry::Dword(1))
    );
}

#[test]
fn restore_writes_set_entries() {
    let mut hives = Hives::default();
    let tree = RegNode::Key(RegKeyData {
        values: vec![
            ("s".to_string(), NativeValue::Sz(Some("txt".to_string()))),
            ("d".to_string(), NativeValue::Dword(Some(3))),
        ],
        children: vec![],
    });
    hives.store_key_from_full_path("HKEY_LOCAL_MACHINE\\Software\\App", &tree).unwrap();
    let mut store = RegStore::default();
    hives.restore(&mut store).unwrap();
    assert_eq!(
        store_get(&store, HiveId::LocalMachine, "Software\\App", "s"),
        Some(&RawValue::Sz("txt".to_string()))
    );
    assert_eq!(
        store_get(&store, HiveId::LocalMachine, "Software\\App", "d"),
        Some(&RawValue::Dword(3))
    );
}

#[test]
fn restore_keeps_unrelated_existing_values() {
    let mut store = RegStore {
        keys: vec![StoreKey {
            hive: HiveId::CurrentUser,
            path: "K".to_string(),
            values: vec![
                ("old".to_string(), RawValue::Sz("keep me".to_string())),
                ("v".to_string(), RawValue::Dword(0)),
            ],
        }],
    };
    let mut hives = Hives::default();
    let tree = RegNode::Key(RegKeyData {
        values: vec![("v".to_string(), NativeValue::Dword(Some(5)))],
        children: vec![],
    });
    hives.store_key_from_full_path("HKEY_CURRENT_USER\\K", &tree).unwrap();
    hives.restore(&mut store).unwrap();
    // The unrelated pre-existing value survives; the snapshot's value overwrites.
    assert_eq!(
        store_get(&store, HiveId::CurrentUser, "K", "old"),
        Some(&RawValue::Sz("keep me".to_string()))
    );
    assert_eq!(
        store_get(&store, HiveId::CurrentUser, "K", "v"),
        Some(&RawValue::Dword(5))
    );
}

#[test]
fn restore_skips_unset_entry_but_continues() {
    let hives = Hives(vec![(
        "HKEY_CURRENT_USER".to_string(),
        Keys(vec![(
            "K".to_string(),
            Entries(vec![
                ("dead".to_string(), Entry::Unset),
                ("live".to_string(), Entry::Dword(1)),
            ]),
        )]),
    )]);
    let mut store = RegStore::default();
    let r = hives.restore(&mut store);
    assert!(r.is_err());
    assert_eq!(store_get(&store, HiveId::CurrentUser, "K", "dead"), None);
    assert_eq!(
        store_get(&store, HiveId::CurrentUser, "K", "live"),
        Some(&RawValue::Dword(1))
    );
}

#[test]
fn restore_skips_unknown_hive_but_continues() {
    let hives = Hives(vec![
        (
            "STALE_ROOT".to_string(),
            Keys(vec![(
                "K".to_string(),
                Entries(vec![("v".to_string(), Entry::Dword(1))]),
            )]),
        ),
        (
            "HKEY_CURRENT_USER".to_string(),
            Keys(vec![(
                "K".to_string(),
                Entries(vec![("v".to_string(), Entry::Dword(2))]),
            )]),
        ),
    ]);
    let mut store = RegStore::default();
    let r = hives.restore(&mut store);
    assert!(r.is_err());
    assert_eq!(
        store_get(&store, HiveId::CurrentUser, "K", "v"),
        Some(&RawValue::Dword(2))
    );
    assert_eq!(store.keys.len(), 1);
}

#[test]
fn round_trip_reproduces_all_pairs() {
    let tree = RegNode::Key(RegKeyData {
        values: vec![
            ("a".to_string(), NativeValue::Sz(Some("short".to_string()))),
            ("b".to_string(), NativeValue::ExpandSz(Some("%TEMP%".to_string()))),
            ("c".to_string(), NativeValue::MultiSz(Some("x\ny".to_string()))),
            ("d".to_string(), NativeValue::Dword(Some(32))),
            ("e".to_string(), NativeValue::Qword(Some(64))),
        ],
        children: vec![(
            "Deep".to_string(),
            RegNode::Key(RegKeyData {
                values: vec![("f".to_string(), NativeValue::Dword(Some(1)))],
                children: vec![],
            }),
        )],
    });
    let mut captured = Hives::default();
    captured
        .store_key_from_full_path("HKEY_CURRENT_USER\\Software\\App", &tree)
        .unwrap();
    let mut store = RegStore::default();
    captured.restore(&mut store).unwrap();

    // Re-decode every value in the store and compare against the snapshot.
    let mut pairs: usize = 0;
    for key in &store.keys {
        assert_eq!(key.hive, HiveId::CurrentUser);
        for (name, raw) in &key.values {
            let decoded = Entry::from_native(&raw.clone().into_native());
            assert_eq!(
                Some(&decoded),
                get_entry(&captured, "HKEY_CURRENT_USER", &key.path, name)
            );
            pairs += 1;
        }
    }
    assert_eq!(pairs, 6);

    // And every snapshot entry landed in the store.
    for (hive, keys) in &captured.0 {
        assert_eq!(hive, "HKEY_CURRENT_USER");
        for (path, entries) in &keys.0 {
            for (name, entry) in &entries.0 {
                let raw = store_get(&store, HiveId::CurrentUser, path, name).unwrap();
                assert_eq!(&Entry::from_native(&raw.clone().into_native()), entry);
            }
        }
    }
}

#[test]
fn empty_value_name_is_a_valid_entry() {
    let mut hives = Hives::default();
    let tree = RegNode::Key(RegKeyData {
        values: vec![(String::new(), NativeValue::Sz(Some("default".to_string())))],
        children: vec![],
    });
    let info = hives
        .store_key_from_full_path("HKEY_CURRENT_USER\\K", &tree)
        .unwrap();
    assert!(info.found);
    assert_eq!(
        get_entry(&hives, "HKEY_CURRENT_USER", "K", ""),
        Some(&Entry::Sz("default".to_string()))
    );
    let mut store = RegStore::default();
    hives.restore(&mut store).unwrap();
    assert_eq!(
        store_get(&store, HiveId::CurrentUser, "K", ""),
        Some(&RawValue::Sz("default".to_string()))
    );
}

#[test]
fn trailing_separator_means_empty_key_path() {
    let mut hives = Hives::default();
    let tree = RegNode::Key(RegKeyData {
        values: vec![("v".to_string(), NativeValue::Dword(Some(1)))],
        children: vec![],
    });
    let info = hives
        .store_key_from_full_path("HKEY_CURRENT_USER\\", &tree)
        .unwrap();
    assert!(info.found);
    assert_eq!(
        get_entry(&hives, "HKEY_CURRENT_USER", "", "v"),
        Some(&Entry::Dword(1))
    );
}
