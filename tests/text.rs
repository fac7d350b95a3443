use prc_patch::hash::hash_label;
use prc_patch::text::{parse_record, parse_value, split_record};
use prc_patch::{HashRegistry, ParamKind, PrcKeyError};

fn show(p: &Option<ParamKind>) -> String {
    format!("{:?}", p)
}

fn value(text: &str) -> Option<ParamKind> {
    parse_value(text, text.parse::<f32>().ok().map(f32::to_bits))
}

#[test]
fn hex_ff_is_unsigned_byte() {
    assert_eq!(show(&value("0xFF")), show(&Some(ParamKind::U8(255))));
}

#[test]
fn hex_100_is_sixteen_bits() {
    assert_eq!(show(&value("0x100")), show(&Some(ParamKind::I16(256))));
}

#[test]
fn hex_probe_order() {
    assert_eq!(show(&value("0x7f")), show(&Some(ParamKind::I8(127))));
    assert_eq!(show(&value("0xFFFF")), show(&Some(ParamKind::U16(65535))));
    assert_eq!(show(&value("0x10000")), show(&Some(ParamKind::I32(65536))));
    assert_eq!(show(&value("0xFFFFFFFF")), show(&Some(ParamKind::U32(0xFFFF_FFFF))));
    assert_eq!(show(&value("0x1234567890")), show(&Some(ParamKind::Hash(prc_patch::Hash40(0x12_3456_7890)))));
    assert!(value("0x10000000000").is_none());
    assert!(value("0xZZ").is_none());
    assert!(value("0x").is_none());
}

#[test]
fn decimal_probe_order() {
    assert_eq!(show(&value("-5")), show(&Some(ParamKind::I8(-5))));
    assert_eq!(show(&value("-128")), show(&Some(ParamKind::I8(-128))));
    assert_eq!(show(&value("200")), show(&Some(ParamKind::U8(200))));
    assert_eq!(show(&value("-200")), show(&Some(ParamKind::I16(-200))));
    assert_eq!(show(&value("40000")), show(&Some(ParamKind::U16(40000))));
    assert_eq!(show(&value("-40000")), show(&Some(ParamKind::I32(-40000))));
    assert_eq!(show(&value("3000000000")), show(&Some(ParamKind::U32(3_000_000_000))));
}

#[test]
fn float_then_hash_fallback() {
    assert_eq!(show(&value("1.5")), show(&Some(ParamKind::Float(1.5f32.to_bits()))));
    assert_eq!(show(&value("5000000000")), show(&Some(ParamKind::Float(5_000_000_000f32.to_bits()))));
    assert_eq!(show(&value("some_label")), show(&Some(ParamKind::Hash(hash_label("some_label")))));
    assert_eq!(show(&parse_value("1.5", None)), show(&Some(ParamKind::Hash(hash_label("1.5")))));
}

#[test]
fn strings_and_booleans() {
    assert_eq!(show(&value("\"hello\"")), show(&Some(ParamKind::Str("hello".to_string()))));
    assert_eq!(show(&value("true")), show(&Some(ParamKind::Bool(true))));
    assert_eq!(show(&value("false")), show(&Some(ParamKind::Bool(false))));
}

#[test]
fn records_split_on_first_equals() {
    let (p, v) = split_record("  a.b[2] = \"x=y\" ").unwrap();
    assert_eq!(p, "a.b[2]");
    assert_eq!(v, "\"x=y\"");
    assert!(split_record("no separator").is_none());
}

#[test]
fn record_with_bad_path_or_value() {
    assert!(matches!(parse_record("a[1", "5", None), Err(PrcKeyError::Malformed)));
    assert!(matches!(parse_record("a", "0xZZ", None), Ok(None)));
    let (k, v) = parse_record("a[1]", "5", Some(5f32.to_bits())).unwrap().unwrap();
    assert_eq!(k.to_str(&HashRegistry::new(), true), format!("{:#x}[1]", hash_label("a").0));
    assert_eq!(format!("{:?}", v), format!("{:?}", ParamKind::I8(5)));
}
