use prc_patch::hash::hash_label;
use prc_patch::path::{apply_path_diff, generate_path_diff};
use prc_patch::{add_hashes, Error, HashRegistry, ParamKind, ParamList, ParamStruct, PrcKey};

fn st(entries: Vec<(&str, ParamKind)>) -> ParamKind {
    ParamKind::Struct(ParamStruct(entries.into_iter().map(|(k, v)| (hash_label(k), v)).collect()))
}

fn list(items: Vec<ParamKind>) -> ParamKind {
    ParamKind::List(ParamList(items))
}

fn show(p: &ParamKind) -> String {
    format!("{:?}", p)
}

fn sample(second: i32) -> ParamKind {
    st(vec![("list", list(vec![st(vec![("x", ParamKind::I32(1))]), st(vec![("x", ParamKind::I32(second))])]))])
}

#[test]
fn path_diff_names_changed_leaf() {
    let d = generate_path_diff(&sample(2), &sample(5)).unwrap();
    assert_eq!(d.len(), 1);
    let mut names = HashRegistry::new();
    add_hashes(&mut names, vec!["list", "x"]);
    assert_eq!(d[0].0.to_string(&names), "list[1].x");
    assert_eq!(show(&d[0].1), show(&ParamKind::I32(5)));
}

#[test]
fn path_diff_of_equal_trees_is_empty() {
    let t = st(vec![("a", ParamKind::I32(1)), ("b", list(vec![ParamKind::I32(2)]))]);
    assert!(generate_path_diff(&t, &t.deep_clone()).unwrap().is_empty());
}

#[test]
fn path_diff_first_match_under_duplicate_keys() {
    let t = st(vec![("a", ParamKind::I32(1)), ("a", ParamKind::I32(2))]);
    let d = generate_path_diff(&t, &t.deep_clone()).unwrap();
    assert_eq!(d.len(), 1);
    assert_eq!(show(&d[0].1), show(&ParamKind::I32(1)));
}

#[test]
fn path_diff_pairs_first_duplicate() {
    let s = st(vec![("a", ParamKind::I32(1)), ("a", ParamKind::I32(2))]);
    let t = st(vec![("a", ParamKind::I32(1)), ("a", ParamKind::I32(3))]);
    let d = generate_path_diff(&s, &t).unwrap();
    assert_eq!(d.len(), 1);
    assert_eq!(show(&d[0].1), show(&ParamKind::I32(1)));
}

#[test]
fn path_diff_composite_against_leaf_fails() {
    let s = st(vec![("a", list(vec![ParamKind::I32(1)]))]);
    let t = st(vec![("a", ParamKind::I32(1))]);
    assert!(matches!(generate_path_diff(&s, &t), Err(Error::NotSamePType)));
}

#[test]
fn apply_path_diff_reproduces_target() {
    let mut s = sample(2);
    let d = generate_path_diff(&s, &sample(5)).unwrap();
    apply_path_diff(&d, &mut s);
    assert_eq!(show(&s), show(&sample(5)));
}

#[test]
fn apply_path_diff_skips_unresolved_and_composites() {
    let mut s = sample(2);
    let before = show(&s);
    let d = vec![
        (PrcKey::from_str("missing.x").unwrap(), ParamKind::I32(9)),
        (PrcKey::from_str("list[7].x").unwrap(), ParamKind::I32(9)),
        (PrcKey::from_str("list[0]").unwrap(), ParamKind::I32(9)),
        (PrcKey::from_str("list").unwrap(), ParamKind::I32(9)),
    ];
    apply_path_diff(&d, &mut s);
    assert_eq!(show(&s), before);
}
