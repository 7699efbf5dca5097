use kbdreg::errors::RegistryError;
use kbdreg::key::RegistryKey;
use kbdreg::store::RegStore;
use kbdreg::value::RegistryValueData;

#[test]
fn test_registry_keys() {
    let mut store = RegStore::new();

    let local_machine_key = RegistryKey::local_machine();
    assert_eq!(local_machine_key.get_path(), "HKEY_LOCAL_MACHINE");
    assert_eq!(local_machine_key.get_name(), "HKEY_LOCAL_MACHINE");
    assert!(local_machine_key.is_root_key());

    local_machine_key.create_subkey(&mut store, "SYSTEM").unwrap();
    let system_key = local_machine_key.get_subkey(&store, "SYSTEM").unwrap();
    assert_eq!(system_key.get_path(), "HKEY_LOCAL_MACHINE\\SYSTEM");
    assert_eq!(system_key.get_name(), "SYSTEM");
    assert!(!system_key.is_root_key());

    let local_machine_key_2 = system_key.get_parent(&store).unwrap();
    assert_eq!(local_machine_key_2, local_machine_key);

    system_key.create_subkey(&mut store, "CurrentControlSet").unwrap();
    let ccs = system_key.get_subkey(&store, "CurrentControlSet").unwrap();
    assert_eq!(
        ccs.get_path(),
        "HKEY_LOCAL_MACHINE\\SYSTEM\\CurrentControlSet"
    );
    assert_eq!(ccs.get_name(), "CurrentControlSet");
    assert!(!ccs.is_root_key());

    let system_key_2 = ccs.get_parent(&store).unwrap();
    assert_eq!(system_key_2, system_key);
}

#[test]
fn test_registry_value_read() {
    let mut store = RegStore::new();
    let current_user = RegistryKey::current_user();
    current_user
        .create_subkey(&mut store, "Volatile Environment")
        .unwrap();

    let key = RegistryKey::from_path(&store, "HKCU\\Volatile Environment").unwrap();
    key.set_value(
        &mut store,
        Some("USERNAME"),
        RegistryValueData::String("someone".to_string()),
    )
    .unwrap();

    let value = key.get_value(&store, Some("USERNAME")).unwrap();

    assert_eq!(value.get_key(), &key);
    assert_eq!(value.get_name(), Some("USERNAME"));

    match value.get_value() {
        RegistryValueData::String(s) => {
            println!("Username is: {}", s);
        }
        _ => panic!("Expected string value!"),
    }
}

#[test]
fn resolve_path_matches_manual_open() {
    let mut store = RegStore::new();
    RegistryKey::local_machine()
        .create_subkey(&mut store, "SYSTEM")
        .unwrap();

    let resolved = RegistryKey::from_path(&store, "HKLM\\SYSTEM").unwrap();
    let manual = RegistryKey::local_machine()
        .get_subkey(&store, "SYSTEM")
        .unwrap();
    assert_eq!(resolved, manual);

    // the identity rule is case-insensitive on the path
    let other_case = RegistryKey::from_path(&store, "hklm\\system").unwrap();
    assert_eq!(other_case, manual);
}

#[test]
fn open_missing_child_is_not_found() {
    let store = RegStore::new();
    let root = RegistryKey::local_machine();
    let missing = root.get_subkey(&store, "NoSuchKey");
    assert_eq!(missing.unwrap_err(), RegistryError::NotFound);
}

#[test]
fn try_get_missing_value_is_empty_result() {
    let mut store = RegStore::new();
    let root = RegistryKey::local_machine();
    let key = root.create_subkey(&mut store, "Software").unwrap();

    let direct = key.get_value(&store, Some("Absent"));
    assert_eq!(direct.unwrap_err(), RegistryError::NotFound);

    let tolerant = key.try_get_value(&store, Some("Absent")).unwrap();
    assert!(tolerant.is_none());
}

#[test]
fn parent_of_root_is_invalid_operation() {
    let store = RegStore::new();
    let root = RegistryKey::users();
    let parent = root.get_parent(&store);
    assert_eq!(parent.unwrap_err(), RegistryError::InvalidOperation);
}

#[test]
fn parent_resolves_shortened_path() {
    let mut store = RegStore::new();
    RegistryKey::local_machine()
        .create_subkey(&mut store, "A\\B")
        .unwrap();

    let deep = RegistryKey::from_path(&store, "HKLM\\A\\B").unwrap();
    let parent = deep.get_parent(&store).unwrap();
    let direct = RegistryKey::from_path(&store, "HKLM\\A").unwrap();
    assert_eq!(parent, direct);
}

#[test]
fn unknown_root_name_is_invalid_name() {
    let store = RegStore::new();
    let r = RegistryKey::from_path(&store, "HKEY_NOWHERE\\X");
    assert_eq!(r.unwrap_err(), RegistryError::InvalidName);
}

#[test]
fn set_value_overwrites_silently() {
    let mut store = RegStore::new();
    let key = RegistryKey::classes_root()
        .create_subkey(&mut store, "K")
        .unwrap();

    key.set_value(&mut store, Some("V"), RegistryValueData::Dword(1))
        .unwrap();
    key.set_value(&mut store, Some("v"), RegistryValueData::Dword(2))
        .unwrap();

    let read = key.get_value(&store, Some("V")).unwrap();
    match read.get_value() {
        RegistryValueData::Dword(x) => assert_eq!(*x, 2),
        _ => panic!("Expected a 32-bit value!"),
    }
}

#[test]
fn default_value_is_distinct_from_named() {
    let mut store = RegStore::new();
    let key = RegistryKey::current_config()
        .create_subkey(&mut store, "K")
        .unwrap();

    key.set_value(&mut store, None, RegistryValueData::Qword(7))
        .unwrap();
    assert!(key.try_get_value(&store, Some("x")).unwrap().is_none());

    let read = key.get_value(&store, None).unwrap();
    assert_eq!(read.get_name(), None);
    match read.get_value() {
        RegistryValueData::Qword(x) => assert_eq!(*x, 7),
        _ => panic!("Expected a 64-bit value!"),
    }
}

#[test]
fn count_and_enumerate_children() {
    let mut store = RegStore::new();
    let key = RegistryKey::local_machine()
        .create_subkey(&mut store, "Parent")
        .unwrap();
    key.create_subkey(&mut store, "one").unwrap();
    key.create_subkey(&mut store, "two").unwrap();
    key.create_subkey(&mut store, "three").unwrap();
    // a grandchild is not an immediate child
    key.create_subkey(&mut store, "one\\nested").unwrap();

    assert_eq!(key.count_children(&store).unwrap(), 3);

    let mut names = Vec::new();
    let mut it = key.iter_children_names();
    while let Some(n) = it.next(&store) {
        names.push(n.unwrap());
    }
    assert_eq!(names, vec!["one", "two", "three"]);

    let mut opened = Vec::new();
    let mut kids = key.iter_children();
    while let Some(k) = kids.next(&store) {
        opened.push(k.unwrap().get_name());
    }
    assert_eq!(opened, vec!["one", "two", "three"]);
}

#[test]
fn enumerating_no_children_ends_immediately() {
    let mut store = RegStore::new();
    let key = RegistryKey::local_machine()
        .create_subkey(&mut store, "Empty")
        .unwrap();

    assert_eq!(key.count_children(&store).unwrap(), 0);

    let mut it = key.iter_children_names();
    assert!(it.next(&store).is_none());
    assert!(it.next(&store).is_none());

    let mut kids = key.iter_children();
    assert!(kids.next(&store).is_none());
}

fn store_with_layouts() -> (RegStore, RegistryKey) {
    let mut store = RegStore::new();
    let layouts = RegistryKey::local_machine()
        .create_subkey(
            &mut store,
            "SYSTEM\\CurrentControlSet\\Control\\Keyboard Layouts",
        )
        .unwrap();
    (store, layouts)
}

#[test]
fn next_free_layout_id_prefers_lowest_gap() {
    let (mut store, layouts) = store_with_layouts();
    for (name, id) in [
        ("00000409", "0f00"),
        ("00010409", "0f01"),
        ("00020409", "0f03"),
    ] {
        let child = layouts.create_subkey(&mut store, name).unwrap();
        child
            .set_value(
                &mut store,
                Some("Layout Id"),
                RegistryValueData::String(id.to_string()),
            )
            .unwrap();
    }

    let next = kbdreg::layout::get_next_layout_id(&store).unwrap();
    assert_eq!(next, 0x0F02);
}

#[test]
fn next_free_layout_id_skips_children_without_id() {
    let (mut store, layouts) = store_with_layouts();
    layouts.create_subkey(&mut store, "00000409").unwrap();
    let with_id = layouts.create_subkey(&mut store, "a0000407").unwrap();
    with_id
        .set_value(
            &mut store,
            Some("Layout Id"),
            RegistryValueData::String("0f00".to_string()),
        )
        .unwrap();

    let next = kbdreg::layout::get_next_layout_id(&store).unwrap();
    assert_eq!(next, 0x0F01);
}

#[test]
fn next_free_layout_id_without_container_is_not_found() {
    let store = RegStore::new();
    let r = kbdreg::layout::get_next_layout_id(&store);
    assert_eq!(r.unwrap_err(), RegistryError::NotFound);
}

#[test]
fn next_free_key_name_steps_over_taken_names() {
    let (mut store, layouts) = store_with_layouts();

    let first = kbdreg::layout::get_next_layout_key(&store, 0x0409).unwrap();
    assert_eq!(first, "f0000409");

    layouts.create_subkey(&mut store, &first).unwrap();
    let second = kbdreg::layout::get_next_layout_key(&store, 0x0409).unwrap();
    assert_eq!(second, "f00f0409");
}

#[test]
fn next_free_key_name_matches_case_insensitively() {
    let (mut store, layouts) = store_with_layouts();
    layouts.create_subkey(&mut store, "F0000409").unwrap();
    let next = kbdreg::layout::get_next_layout_key(&store, 0x0409).unwrap();
    assert_eq!(next, "f00f0409");
}

#[test]
fn list_rows_filters_system_layouts() {
    let (mut store, layouts) = store_with_layouts();
    let sys = layouts.create_subkey(&mut store, "00000409").unwrap();
    sys.set_value(
        &mut store,
        Some("Layout Text"),
        RegistryValueData::String("US".to_string()),
    )
    .unwrap();
    let custom = layouts.create_subkey(&mut store, "a0000407").unwrap();
    custom
        .set_value(
            &mut store,
            Some("Layout Id"),
            RegistryValueData::String("0f00".to_string()),
        )
        .unwrap();
    custom
        .set_value(
            &mut store,
            Some("Layout File"),
            RegistryValueData::String("custom.dll".to_string()),
        )
        .unwrap();

    let (all_rows, skipped_all) = kbdreg::layout::list_layout_rows(&store, true).unwrap();
    assert_eq!(all_rows.len(), 2);
    assert_eq!(skipped_all, 0);
    assert_eq!(all_rows[0].key_name, "00000409");
    assert_eq!(all_rows[0].name.as_deref(), Some("US"));
    assert_eq!(all_rows[0].id, None);

    let (custom_rows, skipped) = kbdreg::layout::list_layout_rows(&store, false).unwrap();
    assert_eq!(custom_rows.len(), 1);
    assert_eq!(skipped, 1);
    assert_eq!(custom_rows[0].key_name, "a0000407");
    assert_eq!(custom_rows[0].id.as_deref(), Some("0f00"));
    assert_eq!(custom_rows[0].file.as_deref(), Some("custom.dll"));
    assert_eq!(custom_rows[0].display, None);
}
