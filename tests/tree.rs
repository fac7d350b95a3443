use prc_patch::hash::hash_label;
use prc_patch::patch::apply_patch;
use prc_patch::{generate_diff, generate_patch, Error, Hash40, ParamKind, ParamList, ParamStruct};

fn h(s: &str) -> Hash40 {
    hash_label(s)
}

fn dummy() -> ParamKind {
    ParamKind::Hash(h("dummy"))
}

fn st(entries: Vec<(&str, ParamKind)>) -> ParamKind {
    ParamKind::Struct(ParamStruct(entries.into_iter().map(|(k, v)| (h(k), v)).collect()))
}

fn list(items: Vec<ParamKind>) -> ParamKind {
    ParamKind::List(ParamList(items))
}

fn show(p: &ParamKind) -> String {
    format!("{:?}", p)
}

#[test]
fn diff_of_equal_trees_is_none() {
    let t = st(vec![("a", ParamKind::I32(1)), ("b", list(vec![ParamKind::U8(1), ParamKind::U8(2)]))]);
    assert!(generate_diff(&t, &t.deep_clone()).unwrap().is_none());
}

#[test]
fn duplicate_key_backfill() {
    let source = st(vec![("a", ParamKind::I32(1)), ("a", ParamKind::I32(2))]);
    let target = st(vec![("a", ParamKind::I32(1)), ("a", ParamKind::I32(3))]);
    let d = generate_diff(&source, &target).unwrap().unwrap();
    assert_eq!(show(&d), show(&st(vec![("a", ParamKind::I32(1)), ("a", ParamKind::I32(3))])));
}

#[test]
fn first_duplicate_changed_only() {
    let source = st(vec![("a", ParamKind::I32(1)), ("a", ParamKind::I32(2))]);
    let target = st(vec![("a", ParamKind::I32(7)), ("a", ParamKind::I32(2))]);
    let d = generate_diff(&source, &target).unwrap().unwrap();
    assert_eq!(show(&d), show(&st(vec![("a", ParamKind::I32(7))])));
}

#[test]
fn list_padding() {
    let source = list((0..5).map(ParamKind::I32).collect());
    let mut t: Vec<ParamKind> = (0..5).map(ParamKind::I32).collect();
    t[1] = ParamKind::I32(10);
    let d = generate_diff(&source, &list(t)).unwrap().unwrap();
    let expected = list(vec![dummy(), ParamKind::I32(10), dummy(), dummy(), dummy()]);
    assert_eq!(show(&d), show(&expected));
}

#[test]
fn shorter_target_list_is_padded() {
    let source = list(vec![ParamKind::I32(0), ParamKind::I32(1), ParamKind::I32(2)]);
    let target = list(vec![ParamKind::I32(5)]);
    let d = generate_diff(&source, &target).unwrap().unwrap();
    assert_eq!(show(&d), show(&list(vec![ParamKind::I32(5), dummy(), dummy()])));
}

#[test]
fn added_entries_are_verbatim() {
    let source = st(vec![("a", ParamKind::I32(1))]);
    let target = st(vec![("a", ParamKind::I32(1)), ("b", ParamKind::Bool(true))]);
    let d = generate_diff(&source, &target).unwrap().unwrap();
    assert_eq!(show(&d), show(&st(vec![("b", ParamKind::Bool(true))])));
    let grown = list(vec![ParamKind::I8(1), ParamKind::I8(2)]);
    let d = generate_diff(&list(vec![ParamKind::I8(1)]), &grown).unwrap().unwrap();
    assert_eq!(show(&d), show(&list(vec![dummy(), ParamKind::I8(2)])));
}

#[test]
fn tag_mismatch_is_an_error() {
    let r = generate_diff(&ParamKind::I32(1), &ParamKind::U32(1));
    assert!(matches!(r, Err(Error::NotSamePType)));
    let mut src = st(vec![("a", ParamKind::I32(1))]);
    let r = apply_patch(&st(vec![("a", ParamKind::Str("x".to_string()))]), &mut src);
    assert!(matches!(r, Err(Error::NotSamePType)));
    assert_eq!(show(&src), show(&st(vec![("a", ParamKind::I32(1))])));
}

#[test]
fn short_list_apply_fails_without_mutation() {
    let mut src = list((0..5).map(ParamKind::U16).collect());
    let before = show(&src);
    let patch = list(vec![ParamKind::U16(9), dummy(), dummy()]);
    assert!(matches!(apply_patch(&patch, &mut src), Err(Error::ShortPatchList)));
    assert_eq!(show(&src), before);
}

#[test]
fn apply_diff_reproduces_target() {
    let source = st(vec![
        ("a", ParamKind::I32(1)),
        ("a", ParamKind::I32(2)),
        ("l", list(vec![ParamKind::U8(1), ParamKind::U8(2), ParamKind::U8(3)])),
        ("s", st(vec![("x", ParamKind::Str("old".to_string()))])),
    ]);
    let target = st(vec![
        ("a", ParamKind::I32(1)),
        ("a", ParamKind::I32(3)),
        ("l", list(vec![ParamKind::U8(1), ParamKind::U8(20), ParamKind::U8(3), ParamKind::U8(4)])),
        ("s", st(vec![("x", ParamKind::Str("new".to_string()))])),
        ("n", ParamKind::Float(0x3f800000)),
    ]);
    let d = generate_diff(&source, &target).unwrap().unwrap();
    let mut copy = source.deep_clone();
    apply_patch(&d, &mut copy).unwrap();
    assert_eq!(show(&copy), show(&target));
}

#[test]
fn dummy_entries_leave_positions_alone() {
    let mut src = list(vec![ParamKind::I32(1), ParamKind::I32(2)]);
    apply_patch(&list(vec![dummy(), ParamKind::I32(5)]), &mut src).unwrap();
    assert_eq!(show(&src), show(&list(vec![ParamKind::I32(1), ParamKind::I32(5)])));
}

#[test]
fn generate_patch_returns_struct() {
    let source = ParamStruct(vec![(h("a"), ParamKind::I32(1))]);
    let target = ParamStruct(vec![(h("a"), ParamKind::I32(2))]);
    let p = generate_patch(&source, &target).unwrap().unwrap();
    assert_eq!(format!("{:?}", p), format!("{:?}", ParamStruct(vec![(h("a"), ParamKind::I32(2))])));
    assert!(generate_patch(&source, &source.deep_clone()).unwrap().is_none());
}
