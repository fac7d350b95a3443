//! The records of a text patch: `<path> = <value>`, and the value grammar.
use vstd::prelude::*;

use crate::hash::{hash40_of, hash_chars};
use crate::hash::string_from_chars;
use crate::key::{PrcKey, PrcKeyError, all_digits, chars_of, dec_value, find_char, is_digit, lemma_dec_mono, parse_path, pos, slice_chars};
use crate::value::{Hash40, ParamKind, Value};

verus! {

pub open spec fn hex_digit_value(c: char) -> int {
    if '0' <= c && c <= '9' {
        c as int - 48
    } else if 'a' <= c && c <= 'f' {
        c as int - 87
    } else if 'A' <= c && c <= 'F' {
        c as int - 55
    } else {
        -1
    }
}

pub open spec fn all_hex(s: Seq<char>) -> bool {
    forall|i: int| 0 <= i < s.len() ==> hex_digit_value(s[i]) >= 0
}

/// The number that the hexadecimal digits `s` denote.
pub open spec fn hex_value(s: Seq<char>) -> nat
    decreases s.len(),
{
    if s.len() == 0 {
        0
    } else {
        hex_value(s.drop_last()) * 16 + hex_digit_value(s.last()) as nat
    }
}

/// The integer that an optional sign and one or more decimal digits denote.
pub open spec fn int_value(s: Seq<char>) -> Option<int> {
    let neg = s.len() > 0 && s[0] == '-';
    let ds = if s.len() > 0 && (s[0] == '-' || s[0] == '+') { s.drop_first() } else { s };
    if ds.len() > 0 && all_digits(ds) {
        Some(if neg { -(dec_value(ds) as int) } else { dec_value(ds) as int })
    } else {
        None
    }
}

/// The narrowest of signed then unsigned 8, 16 and 32 bits that holds `v`.
pub open spec fn int_param(v: int) -> Option<Value> {
    if -128 <= v <= 127 {
        Some(Value::I8(v as i8))
    } else if 0 <= v <= 255 {
        Some(Value::U8(v as u8))
    } else if -32768 <= v <= 32767 {
        Some(Value::I16(v as i16))
    } else if 0 <= v <= 65535 {
        Some(Value::U16(v as u16))
    } else if -2147483648 <= v <= 2147483647 {
        Some(Value::I32(v as i32))
    } else if 0 <= v <= 4294967295 {
        Some(Value::U32(v as u32))
    } else {
        None
    }
}

/// The value that the text `s` of a patch record denotes, where
/// `float_bits` is what parsing `s` as a 32-bit float gave.
pub open spec fn parse_value_spec(s: Seq<char>, float_bits: Option<u32>) -> Option<Value> {
    if s.len() >= 2 && s[0] == '"' && s.last() == '"' {
        Some(Value::Str(s.subrange(1, s.len() - 1)))
    } else if s == seq!['t', 'r', 'u', 'e'] {
        Some(Value::Bool(true))
    } else if s == seq!['f', 'a', 'l', 's', 'e'] {
        Some(Value::Bool(false))
    } else if s.len() >= 2 && s[0] == '0' && s[1] == 'x' {
        let h = s.skip(2);
        if h.len() > 0 && all_hex(h) {
            match int_param(hex_value(h) as int) {
                Some(v) => Some(v),
                None => if hex_value(h) < 0x100_0000_0000 {
                    Some(Value::Hash(hex_value(h) as u64))
                } else {
                    None
                },
            }
        } else {
            None
        }
    } else {
        match int_value(s) {
            Some(v) if int_param(v) is Some => int_param(v),
            _ => match float_bits {
                Some(b) => Some(Value::Float(b)),
                None => Some(Value::Hash(hash40_of(s))),
            },
        }
    }
}


proof fn lemma_hex_mono(s: Seq<char>, i: int)
    requires
        0 <= i <= s.len(),
        all_hex(s),
    ensures
        hex_value(s.take(i)) <= hex_value(s),
    decreases s.len() - i,
{
    if i < s.len() {
        lemma_hex_mono(s, i + 1);
        assert(s.take(i + 1).drop_last() =~= s.take(i));
    } else {
        assert(s.take(i) =~= s);
    }
}

/// The value of the hexadecimal digits `h`, where it is below 2^40.
fn hex_capped(h: &Vec<char>) -> (r: Option<u64>)
    requires
        all_hex(h@),
    ensures
        match r {
            Some(v) => v == hex_value(h@) && v < 0x100_0000_0000,
            None => hex_value(h@) >= 0x100_0000_0000,
        },
{
    let mut value: u64 = 0;
    let mut k: usize = 0;
    while k < h.len()
        invariant
            0 <= k <= h.len(),
            all_hex(h@),
            value == hex_value(h@.take(k as int)),
            value < 0x100_0000_0000,
        decreases h.len() - k,
    {
        let c = h[k];
        let d: u64 = if '0' <= c && c <= '9' {
            (c as u32 - 48) as u64
        } else if 'a' <= c && c <= 'f' {
            (c as u32 - 87) as u64
        } else {
            (c as u32 - 55) as u64
        };
        proof {
            assert(hex_digit_value(h@[k as int]) >= 0);
            assert(h@.take(k + 1).drop_last() =~= h@.take(k as int));
            assert(h@.take(k + 1).last() == c);
            assert(hex_value(h@.take(k + 1)) == value * 16 + d);
        }
        if value * 16 + d >= 0x100_0000_0000 {
            proof {
                lemma_hex_mono(h@, k + 1);
            }
            return None;
        }
        value = value * 16 + d;
        k = k + 1;
    }
    proof {
        assert(h@.take(k as int) =~= h@);
    }
    Some(value)
}

/// The value of the decimal digits `ds`, where it is at most 2^32.
fn dec_capped(ds: &Vec<char>) -> (r: Option<u64>)
    requires
        all_digits(ds@),
    ensures
        match r {
            Some(v) => v == dec_value(ds@) && v <= 0x1_0000_0000,
            None => dec_value(ds@) > 0x1_0000_0000,
        },
{
    let mut value: u64 = 0;
    let mut k: usize = 0;
    while k < ds.len()
        invariant
            0 <= k <= ds.len(),
            all_digits(ds@),
            value == dec_value(ds@.take(k as int)),
            value <= 0x1_0000_0000,
        decreases ds.len() - k,
    {
        proof {
            assert(is_digit(ds@[k as int]));
        }
        let d: u64 = (ds[k] as u32 - 48) as u64;
        proof {
            assert(ds@.take(k + 1).drop_last() =~= ds@.take(k as int));
            assert(ds@.take(k + 1).last() == ds@[k as int]);
            assert(dec_value(ds@.take(k + 1)) == value * 10 + d);
        }
        if value * 10 + d > 0x1_0000_0000 {
            proof {
                lemma_dec_mono(ds@, k + 1);
            }
            return None;
        }
        value = value * 10 + d;
        k = k + 1;
    }
    proof {
        assert(ds@.take(k as int) =~= ds@);
    }
    Some(value)
}

/// The narrowest integer param that holds the value with magnitude `mag`,
/// negated where `neg`.
fn int_param_of(neg: bool, mag: u64) -> (r: Option<ParamKind>)
    requires
        mag <= 0x1_0000_0000,
    ensures
        match r {
            Some(p) => int_param(if neg { -(mag as int) } else { mag as int }) == Some(p.model()),
            None => int_param(if neg { -(mag as int) } else { mag as int }) is None,
        },
{
    if neg {
        if mag <= 128 {
            Some(ParamKind::I8((0 - mag as i64) as i8))
        } else if mag <= 32768 {
            Some(ParamKind::I16((0 - mag as i64) as i16))
        } else if mag <= 2147483648 {
            Some(ParamKind::I32((0 - mag as i64) as i32))
        } else {
            None
        }
    } else if mag <= 127 {
        Some(ParamKind::I8(mag as i8))
    } else if mag <= 255 {
        Some(ParamKind::U8(mag as u8))
    } else if mag <= 32767 {
        Some(ParamKind::I16(mag as i16))
    } else if mag <= 65535 {
        Some(ParamKind::U16(mag as u16))
    } else if mag <= 2147483647 {
        Some(ParamKind::I32(mag as i32))
    } else if mag <= 4294967295 {
        Some(ParamKind::U32(mag as u32))
    } else {
        None
    }
}

/// Whether every character of `s` is a hexadecimal digit.
fn is_all_hex(s: &Vec<char>) -> (r: bool)
    ensures
        r == all_hex(s@),
{
    let mut i: usize = 0;
    while i < s.len()
        invariant
            0 <= i <= s.len(),
            forall|j: int| 0 <= j < i ==> hex_digit_value(s@[j]) >= 0,
        decreases s.len() - i,
    {
        let c = s[i];
        if !(('0' <= c && c <= '9') || ('a' <= c && c <= 'f') || ('A' <= c && c <= 'F')) {
            proof {
                assert(hex_digit_value(s@[i as int]) < 0);
            }
            return false;
        }
        i = i + 1;
    }
    true
}

/// Whether every character of `s` is a decimal digit.
fn is_all_digits(s: &Vec<char>) -> (r: bool)
    ensures
        r == all_digits(s@),
{
    let mut i: usize = 0;
    while i < s.len()
        invariant
            0 <= i <= s.len(),
            forall|j: int| 0 <= j < i ==> is_digit(s@[j]),
        decreases s.len() - i,
    {
        if !('0' <= s[i] && s[i] <= '9') {
            proof {
                assert(!is_digit(s@[i as int]));
            }
            return false;
        }
        i = i + 1;
    }
    true
}

/// Parses the value text of a patch record: a quoted string, `true` or
/// `false`, a `0x` literal (the narrowest integer, else a 40-bit hash), a
/// decimal integer (the narrowest that holds it), else the float that
/// `float_bits` holds, else the hash of the text itself. `float_bits` is
/// what parsing `text` as a 32-bit float gave.
pub fn parse_value(text: &str, float_bits: Option<u32>) -> (r: Option<ParamKind>)
    ensures
        match r {
            Some(p) => parse_value_spec(text@, float_bits) == Some(p.model()),
            None => parse_value_spec(text@, float_bits) is None,
        },
{
    let c = chars_of(text);
    let n = c.len();
    if n >= 2 && c[0] == '"' && c[n - 1] == '"' {
        let inner = slice_chars(&c, 1, n - 1);
        return Some(ParamKind::Str(string_from_chars(&inner)));
    }
    if n == 4 && c[0] == 't' && c[1] == 'r' && c[2] == 'u' && c[3] == 'e' {
        proof {
            assert(c@ =~= seq!['t', 'r', 'u', 'e']);
        }
        return Some(ParamKind::Bool(true));
    }
    proof {
        assert(n == 4 && c@ == seq!['t', 'r', 'u', 'e'] ==> c@[0] == 't' && c@[1] == 'r' && c@[2] == 'u' && c@[3] == 'e');
    }
    if n == 5 && c[0] == 'f' && c[1] == 'a' && c[2] == 'l' && c[3] == 's' && c[4] == 'e' {
        proof {
            assert(c@ =~= seq!['f', 'a', 'l', 's', 'e']);
        }
        return Some(ParamKind::Bool(false));
    }
    proof {
        assert(n == 5 && c@ == seq!['f', 'a', 'l', 's', 'e'] ==> c@[0] == 'f' && c@[1] == 'a' && c@[2] == 'l' && c@[3] == 's' && c@[4] == 'e');
        assert(c@ == seq!['t', 'r', 'u', 'e'] ==> c@.len() == 4);
        assert(c@ == seq!['f', 'a', 'l', 's', 'e'] ==> c@.len() == 5);
    }
    if n >= 2 && c[0] == '0' && c[1] == 'x' {
        let h = slice_chars(&c, 2, n);
        proof {
            assert(h@ =~= c@.skip(2));
        }
        if h.len() > 0 && is_all_hex(&h) {
            return match hex_capped(&h) {
                Some(v) => {
                    proof {
                        assert(v <= 0x1_0000_0000 || int_param(v as int) is None);
                    }
                    if v <= 0x1_0000_0000 {
                        match int_param_of(false, v) {
                            Some(p) => Some(p),
                            None => Some(ParamKind::Hash(Hash40(v))),
                        }
                    } else {
                        Some(ParamKind::Hash(Hash40(v)))
                    }
                },
                None => None,
            };
        }
        return None;
    }
    let neg = n > 0 && c[0] == '-';
    let start: usize = if n > 0 && (c[0] == '-' || c[0] == '+') { 1 } else { 0 };
    let ds = slice_chars(&c, start, n);
    proof {
        assert(ds@ =~= (if c@.len() > 0 && (c@[0] == '-' || c@[0] == '+') { c@.drop_first() } else { c@ }));
    }
    if ds.len() > 0 && is_all_digits(&ds) {
        match dec_capped(&ds) {
            Some(m) => {
                if let Some(p) = int_param_of(neg, m) {
                    return Some(p);
                }
            },
            None => {},
        }
    }
    match float_bits {
        Some(b) => Some(ParamKind::Float(b)),
        None => Some(ParamKind::Hash(hash_chars(&c))),
    }
}


pub open spec fn is_space(c: char) -> bool {
    c == ' ' || c == '\t' || c == '\r'
}

/// `s` without leading and trailing spaces, tabs and carriage returns.
pub open spec fn trim(s: Seq<char>) -> Seq<char>
    decreases s.len(),
{
    if s.len() > 0 && is_space(s[0]) {
        trim(s.drop_first())
    } else if s.len() > 0 && is_space(s.last()) {
        trim(s.drop_last())
    } else {
        s
    }
}

/// `s` without leading and trailing spaces.
fn trim_chars(s: &Vec<char>) -> (r: Vec<char>)
    ensures
        r@ == trim(s@),
{
    let mut a: usize = 0;
    let mut b: usize = s.len();
    proof {
        assert(s@.subrange(0, s@.len() as int) =~= s@);
    }
    while a < b && (s[a] == ' ' || s[a] == '\t' || s[a] == '\r')
        invariant
            0 <= a <= b == s.len(),
            trim(s@) == trim(s@.subrange(a as int, b as int)),
        decreases b - a,
    {
        proof {
            assert(s@.subrange(a as int, b as int).drop_first() =~= s@.subrange(a + 1, b as int));
        }
        a = a + 1;
    }
    while a < b && (s[b - 1] == ' ' || s[b - 1] == '\t' || s[b - 1] == '\r')
        invariant
            0 <= a <= b <= s.len(),
            trim(s@) == trim(s@.subrange(a as int, b as int)),
            a < b ==> !is_space(s@[a as int]),
        decreases b - a,
    {
        proof {
            assert(s@.subrange(a as int, b as int).drop_last() =~= s@.subrange(a as int, b - 1));
        }
        b = b - 1;
    }
    slice_chars(s, a, b)
}

/// The path and value texts of the record `line`: split on its first `=`,
/// each trimmed; `None` where it has no `=`.
pub open spec fn split_spec(line: Seq<char>) -> Option<(Seq<char>, Seq<char>)> {
    let p = pos(line, '=');
    if 0 <= p < line.len() {
        Some((trim(line.take(p)), trim(line.skip(p + 1))))
    } else {
        None
    }
}

/// Splits a record of a text patch into its path and value texts.
pub fn split_record(line: &str) -> (r: Option<(String, String)>)
    ensures
        match r {
            Some((p, v)) => split_spec(line@) == Some((p@, v@)),
            None => split_spec(line@) is None,
        },
{
    let c = chars_of(line);
    let p = find_char(&c, '=');
    if p >= c.len() {
        return None;
    }
    let left = slice_chars(&c, 0, p);
    let right = slice_chars(&c, p + 1, c.len());
    proof {
        assert(left@ =~= c@.take(p as int));
        assert(right@ =~= c@.skip(p + 1));
    }
    let path = trim_chars(&left);
    let value = trim_chars(&right);
    Some((string_from_chars(&path), string_from_chars(&value)))
}

/// The change that a record with path text `path` and value text `value`
/// denotes: an error where the path is malformed, `None` where the value
/// is none of the accepted forms. `float_bits` is what parsing `value` as a
/// 32-bit float gave.
pub fn parse_record(path: &str, value: &str, float_bits: Option<u32>) -> (r: Result<Option<(PrcKey, ParamKind)>, PrcKeyError>)
    ensures
        match parse_path(path@) {
            Ok(sels) => if sels.len() == 0 {
                r == Err::<Option<(PrcKey, ParamKind)>, PrcKeyError>(PrcKeyError::Malformed)
            } else {
                match parse_value_spec(value@, float_bits) {
                    Some(v) => r matches Ok(Some((k, p))) && k.selectors() == sels && p.model() == v,
                    None => r matches Ok(None),
                }
            },
            Err(e) => r == Err::<Option<(PrcKey, ParamKind)>, PrcKeyError>(e),
        },
{
    match PrcKey::from_str(path) {
        Err(e) => Err(e),
        Ok(k) => match parse_value(value, float_bits) {
            Some(p) => Ok(Some((k, p))),
            None => Ok(None),
        },
    }
}

} // verus!
