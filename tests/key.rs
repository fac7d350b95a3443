use prc_patch::hash::hash_label;
use prc_patch::{add_hash, add_hashes, get, try_get, Hash40, HashRegistry, PrcKey, PrcKeyError, PrcKeyType};

fn h(s: &str) -> u64 {
    prc::hash40::hash40(s).0
}

fn parse(s: &str) -> PrcKey {
    match s.parse::<PrcKey>() {
        Ok(key) => key,
        Err(e) => panic!("Failed to parse key: {:?}", e),
    }
}

#[test]
fn hash_test() {
    let key = parse("test_struct.test_field.test_field_2");
    let test = format!("{:#x}.{:#x}.{:#x}", h("test_struct"), h("test_field"), h("test_field_2"));
    assert_eq!(test, key.to_str(&HashRegistry::new(), true));
}

#[test]
fn unhash_test() {
    let mut names = HashRegistry::new();
    add_hashes(&mut names, vec!["test_struct", "test_field", "test_field_2"]);
    let key = parse("test_struct.test_field.test_field_2");
    assert_eq!("test_struct.test_field.test_field_2", key.to_string(&names));
}

#[test]
fn unhash_list_test() {
    let mut names = HashRegistry::new();
    add_hashes(&mut names, vec!["test_list", "test_struct", "test_field", "test_field_2"]);
    let key = parse("test_list[1].test_struct.test_field[3].test_field_2");
    assert_eq!("test_list[1].test_struct.test_field[3].test_field_2", key.to_string(&names));
}

#[test]
fn hash_list_test() {
    let key = parse("test_list[1].test_struct.test_field[3].test_field_2");
    let test = format!(
        "{:#x}[1].{:#x}.{:#x}[3].{:#x}",
        h("test_list"),
        h("test_struct"),
        h("test_field"),
        h("test_field_2")
    );
    assert_eq!(test, key.to_str(&HashRegistry::new(), true));
}

#[test]
fn hash_label_matches_hash40() {
    assert_eq!(hash_label("test_field").0, h("test_field"));
    assert_ne!(hash_label("test_field").0, hash_label("other").0);
}

#[test]
fn parse_selectors_in_order() {
    let key = parse("a[2].b");
    assert!(matches!(key.ty, PrcKeyType::StructField(x) if x.0 == h("a")));
    let second = key.next.as_ref().unwrap();
    assert!(matches!(second.ty, PrcKeyType::ListIndex(2)));
    let third = second.next.as_ref().unwrap();
    assert!(matches!(third.ty, PrcKeyType::StructField(x) if x.0 == h("b")));
    assert!(third.next.is_none());
}

#[test]
fn parse_leading_dot_and_bare_index() {
    let key = parse(".a");
    assert!(matches!(key.ty, PrcKeyType::StructField(x) if x.0 == h("a")));
    let key = parse("[4].x");
    assert!(matches!(key.ty, PrcKeyType::ListIndex(4)));
}

#[test]
fn parse_malformed_paths() {
    assert!(matches!(PrcKey::from_str(""), Err(PrcKeyError::Malformed)));
    assert!(matches!(PrcKey::from_str("."), Err(PrcKeyError::Malformed)));
    assert!(matches!(PrcKey::from_str("list[3"), Err(PrcKeyError::Malformed)));
    assert!(matches!(PrcKey::from_str("list[x]"), Err(PrcKeyError::Malformed)));
    assert!(matches!(PrcKey::from_str("list[]"), Err(PrcKeyError::Malformed)));
    assert!(matches!(PrcKey::from_str("list[99999999999999999999999]"), Err(PrcKeyError::Malformed)));
}

#[test]
fn render_round_trip_registered() {
    let mut names = HashRegistry::new();
    add_hashes(&mut names, vec!["list", "x"]);
    let key = parse("list[1].x");
    assert_eq!("list[1].x", key.to_string(&names));
}

#[test]
fn render_unregistered_falls_back_to_hex() {
    let mut names = HashRegistry::new();
    add_hash(&mut names, "known");
    let key = parse("known.unknown");
    assert_eq!(format!("known.{:#x}", h("unknown")), key.to_string(&names));
}

#[test]
fn registry_lookup() {
    let mut names = HashRegistry::new();
    assert!(try_get(&names, Hash40(h("name"))).is_none());
    assert_eq!(get(&names, Hash40(255)), "0xff");
    assert_eq!(get(&names, Hash40(0)), "0x0");
    add_hash(&mut names, "name");
    assert_eq!(try_get(&names, Hash40(h("name"))), Some("name".to_string()));
    assert_eq!(get(&names, Hash40(h("name"))), "name");
}
