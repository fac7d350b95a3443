//! Paths into a tree: their grammar, parsing and rendering.
use vstd::prelude::*;
use vstd::std_specs::iter::IteratorSpec;

use crate::hash::{
    HashRegistry, dec_digits, get, hash40_of, hash_chars, hex_of, label_of, push_dec_digits,
    push_hex_digits, string_from_chars,
};
use crate::value::Hash40;

verus! {

/// One selector of a path: a struct field by name hash, or a list index.
#[derive(Debug, Clone, Copy, PartialEq, Eq, Structural)]
pub enum PrcKeyType {
    StructField(Hash40),
    ListIndex(usize),
}

/// A path into a tree: a selector and the rest of the path, if any.
#[derive(Debug)]
pub struct PrcKey {
    pub ty: PrcKeyType,
    pub next: Option<Box<PrcKey>>,
}

/// Why a path could not be parsed.
#[derive(Debug, Clone, Copy, PartialEq, Eq, Structural)]
pub enum PrcKeyError {
    Malformed,
}

impl PrcKey {
    /// The selectors of this path, from its root.
    pub open spec fn selectors(self) -> Seq<PrcKeyType>
        decreases self,
    {
        match self.next {
            Some(n) => seq![self.ty] + n.selectors(),
            None => seq![self.ty],
        }
    }
}

/// Entry `i` is the first `c` in `s`.
pub open spec fn is_first(s: Seq<char>, c: char, i: int) -> bool {
    0 <= i < s.len() && s[i] == c && forall|j: int| 0 <= j < i ==> s[j] != c
}

/// The position of the first `c` in `s`, or `s.len()` where there is none.
pub open spec fn pos(s: Seq<char>, c: char) -> int {
    if s.contains(c) {
        choose|i: int| is_first(s, c, i)
    } else {
        s.len() as int
    }
}

/// `s` without its leading `[` characters.
pub open spec fn strip_open(s: Seq<char>) -> Seq<char>
    decreases s.len(),
{
    if s.len() > 0 && s[0] == '[' {
        strip_open(s.drop_first())
    } else {
        s
    }
}

pub open spec fn is_digit(c: char) -> bool {
    '0' <= c && c <= '9'
}

/// The number that the decimal digits `s` denote.
pub open spec fn dec_value(s: Seq<char>) -> nat
    decreases s.len(),
{
    if s.len() == 0 {
        0
    } else {
        dec_value(s.drop_last()) * 10 + (s.last() as nat - 48) as nat
    }
}

pub open spec fn all_digits(s: Seq<char>) -> bool {
    forall|i: int| 0 <= i < s.len() ==> is_digit(s[i])
}

/// A list index: an optional `+` and one or more decimal digits whose value
/// fits a `usize`.
pub open spec fn parse_index(s: Seq<char>) -> Option<usize> {
    let ds = if s.len() > 0 && s[0] == '+' { s.drop_first() } else { s };
    if ds.len() > 0 && all_digits(ds) && dec_value(ds) <= usize::MAX {
        Some(dec_value(ds) as usize)
    } else {
        None
    }
}

/// The selectors that the path text `s` denotes, after one leading `.` is
/// dropped; none for an empty text.
pub open spec fn parse_path(s: Seq<char>) -> Result<Seq<PrcKeyType>, PrcKeyError>
    decreases s.len(),
{
    let t = if s.len() > 0 && s[0] == '.' { s.drop_first() } else { s };
    if t.len() == 0 {
        Ok(Seq::empty())
    } else {
        let d = pos(t, '.');
        let b = pos(t, '[');
        if d == b {
            Ok(seq![PrcKeyType::StructField(Hash40(hash40_of(t)))])
        } else if d < b {
            if 0 <= d <= t.len() && (0 < d || t.len() < s.len()) {
                match parse_path(t.skip(d)) {
                    Ok(r) => Ok(seq![PrcKeyType::StructField(Hash40(hash40_of(t.take(d))))] + r),
                    Err(e) => Err(e),
                }
            } else {
                Err(PrcKeyError::Malformed)
            }
        } else {
            let parent = t.take(b);
            let li = t.skip(b);
            let e = pos(li, ']');
            if e >= li.len() {
                Err(PrcKeyError::Malformed)
            } else {
                match parse_index(strip_open(li.take(e))) {
                    None => Err(PrcKeyError::Malformed),
                    Some(n) => if 0 <= e < li.len() && 0 <= b < t.len() {
                        match parse_path(li.skip(e + 1)) {
                            Err(er) => Err(er),
                            Ok(r) => if parent.len() == 0 {
                                Ok(seq![PrcKeyType::ListIndex(n)] + r)
                            } else {
                                Ok(seq![PrcKeyType::StructField(Hash40(hash40_of(parent))), PrcKeyType::ListIndex(n)] + r)
                            },
                        }
                    } else {
                        Err(PrcKeyError::Malformed)
                    },
                }
            }
        }
    }
}

/// The text of one selector: `.name` for a field, `[index]` for an index.
pub open spec fn render_selector(sel: PrcKeyType, names: Map<u64, Seq<char>>, hashed: bool) -> Seq<char> {
    match sel {
        PrcKeyType::StructField(h) => seq!['.'] + if hashed {
            hex_of(h.0 as nat)
        } else {
            label_of(names, h.0)
        },
        PrcKeyType::ListIndex(n) => seq!['['] + dec_digits(n as nat) + seq![']'],
    }
}

/// The text of a sequence of selectors.
pub open spec fn render(sels: Seq<PrcKeyType>, names: Map<u64, Seq<char>>, hashed: bool) -> Seq<char>
    decreases sels.len(),
{
    if sels.len() == 0 {
        Seq::empty()
    } else {
        render_selector(sels[0], names, hashed) + render(sels.drop_first(), names, hashed)
    }
}

/// `s` without its leading `.` characters.
pub open spec fn strip_dots(s: Seq<char>) -> Seq<char>
    decreases s.len(),
{
    if s.len() > 0 && s[0] == '.' {
        strip_dots(s.drop_first())
    } else {
        s
    }
}


/// The characters of `s`.
pub fn chars_of(s: &str) -> (r: Vec<char>)
    ensures
        r@ == s@,
{
    let mut out: Vec<char> = Vec::new();
    let mut it = s.chars();
    loop
        invariant
            s@ == out@ + it.remaining(),
            it.obeys_prophetic_iter_laws(),
            it.decrease() is Some,
        ensures
            out@ == s@,
        decreases it.decrease()->0,
    {
        match it.next() {
            Some(c) => {
                out.push(c);
                proof {
                    assert(s@ =~= out@ + it.remaining());
                }
            },
            None => {
                proof {
                    assert(out@ =~= s@);
                }
                break;
            },
        }
    }
    out
}

/// The position of the first `c` in `s`, or its length where there is none.
pub(crate) fn find_char(s: &Vec<char>, c: char) -> (r: usize)
    ensures
        r == pos(s@, c),
        r <= s@.len(),
        r < s@.len() ==> s@[r as int] == c,
        forall|j: int| 0 <= j < r ==> s@[j] != c,
{
    let mut i: usize = 0;
    while i < s.len()
        invariant
            0 <= i <= s.len(),
            forall|j: int| 0 <= j < i ==> s@[j] != c,
        decreases s.len() - i,
    {
        if s[i] == c {
            proof {
                assert(is_first(s@, c, i as int));
                assert(s@.contains(c));
                let k = choose|k: int| is_first(s@, c, k);
                assert(k == i) by {
                    if k < i {
                    } else if k > i {
                        assert(s@[i as int] != c);
                    }
                }
            }
            return i;
        }
        i = i + 1;
    }
    proof {
        assert(!s@.contains(c));
    }
    i
}

/// The characters of `v` from `a` up to `b`.
pub(crate) fn slice_chars(v: &Vec<char>, a: usize, b: usize) -> (r: Vec<char>)
    requires
        a <= b <= v@.len(),
    ensures
        r@ == v@.subrange(a as int, b as int),
{
    let mut out: Vec<char> = Vec::new();
    let mut i: usize = a;
    while i < b
        invariant
            a <= i <= b,
            b <= v@.len(),
            out@ == v@.subrange(a as int, i as int),
        decreases b - i,
    {
        out.push(v[i]);
        proof {
            assert(out@ =~= v@.subrange(a as int, i + 1));
        }
        i = i + 1;
    }
    out
}

pub proof fn lemma_dec_mono(s: Seq<char>, i: int)
    requires
        0 <= i <= s.len(),
        forall|j: int| 0 <= j < s.len() ==> is_digit(s[j]),
    ensures
        dec_value(s.take(i)) <= dec_value(s),
    decreases s.len() - i,
{
    if i < s.len() {
        lemma_dec_mono(s, i + 1);
        assert(s.take(i + 1).drop_last() =~= s.take(i));
    } else {
        assert(s.take(i) =~= s);
    }
}

/// The list index that `s` denotes, if it is one.
#[verifier::loop_isolation(false)]
fn parse_index_chars(s: &Vec<char>) -> (r: Option<usize>)
    ensures
        r == parse_index(s@),
{
    let start: usize = if s.len() > 0 && s[0] == '+' { 1 } else { 0 };
    let ds = slice_chars(s, start, s.len());
    proof {
        assert(ds@ =~= (if s@.len() > 0 && s@[0] == '+' { s@.drop_first() } else { s@ }));
    }
    if ds.len() == 0 {
        return None;
    }
    let mut i: usize = 0;
    while i < ds.len()
        invariant
            0 <= i <= ds.len(),
            forall|j: int| 0 <= j < i ==> is_digit(ds@[j]),
        decreases ds.len() - i,
    {
        if !('0' <= ds[i] && ds[i] <= '9') {
            proof {
                assert(!is_digit(ds@[i as int]));
                assert(!all_digits(ds@));
            }
            return None;
        }
        i = i + 1;
    }
    let mut value: usize = 0;
    let mut k: usize = 0;
    while k < ds.len()
        invariant
            0 <= k <= ds.len(),
            forall|j: int| 0 <= j < ds@.len() ==> is_digit(ds@[j]),
            value as nat == dec_value(ds@.take(k as int)),
        decreases ds.len() - k,
    {
        proof {
            assert(is_digit(ds@[k as int]));
        }
        let d: usize = (ds[k] as u32 - 48) as usize;
        proof {
            assert(ds@.take(k + 1).drop_last() =~= ds@.take(k as int));
            assert(ds@.take(k + 1).last() == ds@[k as int]);
            assert(dec_value(ds@.take(k + 1)) == value * 10 + d);
        }
        match value.checked_mul(10) {
            Some(v10) => match v10.checked_add(d) {
                Some(v) => {
                    value = v;
                },
                None => {
                    proof {
                        lemma_dec_mono(ds@, k + 1);
                    }
                    return None;
                },
            },
            None => {
                proof {
                    lemma_dec_mono(ds@, k + 1);
                }
                return None;
            },
        }
        k = k + 1;
    }
    proof {
        assert(ds@.take(k as int) =~= ds@);
    }
    Some(value)
}

/// The number of leading `c` characters of `s`.
fn leading(s: &Vec<char>, c: char) -> (r: usize)
    ensures
        r <= s@.len(),
        forall|j: int| 0 <= j < r ==> s@[j] == c,
        r < s@.len() ==> s@[r as int] != c,
{
    let mut i: usize = 0;
    while i < s.len() && s[i] == c
        invariant
            0 <= i <= s.len(),
            forall|j: int| 0 <= j < i ==> s@[j] == c,
        decreases s.len() - i,
    {
        i = i + 1;
    }
    i
}

proof fn lemma_strip_open(s: Seq<char>, n: int)
    requires
        0 <= n <= s.len(),
        forall|j: int| 0 <= j < n ==> s[j] == '[',
        n < s.len() ==> s[n] != '[',
    ensures
        strip_open(s) == s.skip(n),
    decreases n,
{
    if n > 0 {
        lemma_strip_open(s.drop_first(), n - 1);
        assert(s.drop_first().skip(n - 1) =~= s.skip(n));
    } else {
        assert(s.skip(0) =~= s);
    }
}

proof fn lemma_strip_dots(s: Seq<char>, n: int)
    requires
        0 <= n <= s.len(),
        forall|j: int| 0 <= j < n ==> s[j] == '.',
        n < s.len() ==> s[n] != '.',
    ensures
        strip_dots(s) == s.skip(n),
    decreases n,
{
    if n > 0 {
        lemma_strip_dots(s.drop_first(), n - 1);
        assert(s.drop_first().skip(n - 1) =~= s.skip(n));
    } else {
        assert(s.skip(0) =~= s);
    }
}

/// The selectors that the path text `index` denotes.
#[verifier::rlimit(50)]
fn get_key(index: &Vec<char>) -> (r: Result<Vec<PrcKeyType>, PrcKeyError>)
    ensures
        match parse_path(index@) {
            Ok(sels) => r matches Ok(v) && v@ == sels,
            Err(e) => r == Err::<Vec<PrcKeyType>, PrcKeyError>(e),
        },
    decreases index@.len(),
{
    let t = if index.len() > 0 && index[0] == '.' {
        slice_chars(index, 1, index.len())
    } else {
        slice_chars(index, 0, index.len())
    };
    proof {
        assert(t@ =~= (if index@.len() > 0 && index@[0] == '.' { index@.drop_first() } else { index@ }));
    }
    if t.len() == 0 {
        return Ok(Vec::new());
    }
    let d = find_char(&t, '.');
    let b = find_char(&t, '[');
    if d == b {
        let mut out: Vec<PrcKeyType> = Vec::new();
        out.push(PrcKeyType::StructField(hash_chars(&t)));
        proof {
            assert(out@ =~= seq![PrcKeyType::StructField(Hash40(hash40_of(t@)))]);
        }
        return Ok(out);
    }
    if d < b {
        proof {
            if d == 0 {
                assert(t@[0] == '.');
            }
        }
        let rest = slice_chars(&t, d, t.len());
        proof {
            assert(rest@ =~= t@.skip(d as int));
        }
        let parent = slice_chars(&t, 0, d);
        let mut out: Vec<PrcKeyType> = Vec::new();
        out.push(PrcKeyType::StructField(hash_chars(&parent)));
        match get_key(&rest) {
            Err(e) => Err(e),
            Ok(mut r) => {
                let ghost rv = r@;
                out.append(&mut r);
                proof {
                    assert(out@ =~= seq![PrcKeyType::StructField(Hash40(hash40_of(t@.take(d as int))))] + rv);
                }
                Ok(out)
            },
        }
    } else {
        let parent = slice_chars(&t, 0, b);
        let li = slice_chars(&t, b, t.len());
        let e = find_char(&li, ']');
        if e >= li.len() {
            return Err(PrcKeyError::Malformed);
        }
        let inner = slice_chars(&li, 0, e);
        let n_open = leading(&inner, '[');
        let digits = slice_chars(&inner, n_open, inner.len());
        proof {
            lemma_strip_open(inner@, n_open as int);
            assert(inner@ =~= li@.take(e as int));
        }
        match parse_index_chars(&digits) {
            None => Err(PrcKeyError::Malformed),
            Some(n) => {
                let rest = slice_chars(&li, e + 1, li.len());
                proof {
                    assert(rest@ =~= li@.skip(e + 1));
                    assert(li@ =~= t@.skip(b as int));
                    assert(parent@ =~= t@.take(b as int));
                }
                match get_key(&rest) {
                    Err(er) => Err(er),
                    Ok(mut r) => {
                        let ghost rv = r@;
                        let mut out: Vec<PrcKeyType> = Vec::new();
                        if parent.len() > 0 {
                            out.push(PrcKeyType::StructField(hash_chars(&parent)));
                        }
                        out.push(PrcKeyType::ListIndex(n));
                        out.append(&mut r);
                        proof {
                            if parent@.len() == 0 {
                                assert(out@ =~= seq![PrcKeyType::ListIndex(n)] + rv);
                            } else {
                                assert(out@ =~= seq![PrcKeyType::StructField(Hash40(hash40_of(parent@))), PrcKeyType::ListIndex(n)] + rv);
                            }
                        }
                        Ok(out)
                    },
                }
            },
        }
    }
}


/// The path whose selectors are `sels`.
pub(crate) fn chain(sels: &Vec<PrcKeyType>) -> (r: PrcKey)
    requires
        sels@.len() > 0,
    ensures
        r.selectors() == sels@,
{
    let n = sels.len();
    let mut cur = PrcKey { ty: sels[n - 1], next: None };
    proof {
        assert(cur.selectors() =~= sels@.skip(n - 1));
    }
    let mut i: usize = n - 1;
    while i > 0
        invariant
            0 <= i < sels@.len(),
            n == sels@.len(),
            cur.selectors() == sels@.skip(i as int),
        decreases i,
    {
        i = i - 1;
        cur = PrcKey { ty: sels[i], next: Some(Box::new(cur)) };
        proof {
            assert(cur.selectors() =~= sels@.skip(i as int));
        }
    }
    proof {
        assert(sels@.skip(0) =~= sels@);
    }
    cur
}

impl PrcKey {
    /// Parses a path: a malformed one, or one with no selector, is an error.
    pub fn from_str(s: &str) -> (r: Result<PrcKey, PrcKeyError>)
        ensures
            match parse_path(s@) {
                Ok(sels) => if sels.len() == 0 {
                    r == Err::<PrcKey, PrcKeyError>(PrcKeyError::Malformed)
                } else {
                    r matches Ok(k) && k.selectors() == sels
                },
                Err(e) => r == Err::<PrcKey, PrcKeyError>(e),
            },
    {
        let chars = chars_of(s);
        match get_key(&chars) {
            Ok(sels) => {
                if sels.len() == 0 {
                    Err(PrcKeyError::Malformed)
                } else {
                    Ok(chain(&sels))
                }
            },
            Err(e) => Err(e),
        }
    }

    /// Appends the text of this path to `out`: each field as `.name`, with
    /// its name resolved unless `hashed`, and each index as `[index]`.
    pub fn write_str(&self, registry: &HashRegistry, hashed: bool, out: &mut Vec<char>)
        ensures
            final(out)@ == old(out)@ + render(self.selectors(), registry.view(), hashed),
        decreases self,
    {
        match self.ty {
            PrcKeyType::StructField(h) => {
                out.push('.');
                if hashed {
                    out.push('0');
                    out.push('x');
                    push_hex_digits(h.0, out);
                } else {
                    let name = get(registry, h);
                    let mut c = chars_of(name.as_str());
                    out.append(&mut c);
                }
            },
            PrcKeyType::ListIndex(n) => {
                out.push('[');
                push_dec_digits(n, out);
                out.push(']');
            },
        }
        let ghost mid = out@;
        proof {
            assert(mid =~= old(out)@ + render_selector(self.ty, registry.view(), hashed));
        }
        match &self.next {
            Some(n) => {
                n.write_str(registry, hashed, out);
                proof {
                    assert(self.selectors().drop_first() =~= n.selectors());
                    assert(self.selectors()[0] == self.ty);
                    assert(render(self.selectors(), registry.view(), hashed) == render_selector(self.ty, registry.view(), hashed)
                        + render(n.selectors(), registry.view(), hashed));
                }
            },
            None => {
                proof {
                    assert(self.selectors().drop_first() =~= Seq::<PrcKeyType>::empty());
                    assert(self.selectors()[0] == self.ty);
                    assert(render(Seq::<PrcKeyType>::empty(), registry.view(), hashed) == Seq::<char>::empty());
                    assert(render(self.selectors(), registry.view(), hashed) =~= render_selector(self.ty, registry.view(), hashed));
                }
            },
        }
        proof {
            assert(out@ =~= old(out)@ + render(self.selectors(), registry.view(), hashed));
        }
    }

    /// The text of this path without its leading dots; field names stay
    /// hexadecimal where `hashed`.
    pub fn to_str(&self, registry: &HashRegistry, hashed: bool) -> (r: String)
        ensures
            r@ == strip_dots(render(self.selectors(), registry.view(), hashed)),
    {
        let mut out: Vec<char> = Vec::new();
        self.write_str(registry, hashed, &mut out);
        let n = leading(&out, '.');
        let trimmed = slice_chars(&out, n, out.len());
        proof {
            assert(out@ =~= render(self.selectors(), registry.view(), hashed));
            lemma_strip_dots(out@, n as int);
        }
        string_from_chars(&trimmed)
    }

    /// The text of this path, with field names resolved through `registry`.
    pub fn to_string(&self, registry: &HashRegistry) -> (r: String)
        ensures
            r@ == strip_dots(render(self.selectors(), registry.view(), false)),
    {
        self.to_str(registry, false)
    }
}

impl core::str::FromStr for PrcKey {
    type Err = PrcKeyError;

    fn from_str(s: &str) -> Result<PrcKey, PrcKeyError> {
        PrcKey::from_str(s)
    }
}


proof fn lemma_pos_at(s: Seq<char>, c: char, i: int)
    requires
        0 <= i < s.len(),
        s[i] == c,
        forall|j: int| 0 <= j < i ==> s[j] != c,
    ensures
        pos(s, c) == i,
{
    assert(is_first(s, c, i));
    assert(s.contains(c));
    let k = choose|k: int| is_first(s, c, k);
    if k < i {
        assert(s[k] == c);
    } else if k > i {
        assert(s[i] != c);
    }
}

proof fn lemma_pos_range(s: Seq<char>, c: char)
    ensures
        0 <= pos(s, c) <= s.len(),
        pos(s, c) < s.len() ==> is_first(s, c, pos(s, c)),
        pos(s, c) == s.len() ==> !s.contains(c),
{
    if s.contains(c) {
        lemma_first_exists(s, c);
    }
}

proof fn lemma_first_exists(s: Seq<char>, c: char)
    requires
        s.contains(c),
    ensures
        exists|i: int| is_first(s, c, i),
    decreases s.len(),
{
    let p = s.drop_last();
    if p.contains(c) {
        lemma_first_exists(p, c);
        let i = choose|i: int| is_first(p, c, i);
        assert forall|j: int| 0 <= j < i implies s[j] != c by {
            assert(s[j] == p[j]);
        }
        assert(s[i] == p[i]);
        assert(is_first(s, c, i));
    } else {
        let k = choose|k: int| 0 <= k < s.len() && s[k] == c;
        if k < s.len() - 1 {
            assert(p[k] == c);
        }
        assert forall|j: int| 0 <= j < s.len() - 1 implies s[j] != c by {
            if s[j] == c {
                assert(p[j] == c);
            }
        }
        assert(is_first(s, c, s.len() - 1));
    }
}

proof fn lemma_pos_none(s: Seq<char>, c: char)
    requires
        forall|j: int| 0 <= j < s.len() ==> s[j] != c,
    ensures
        pos(s, c) == s.len(),
{
    assert(!s.contains(c));
}

proof fn lemma_dec_digits(n: nat)
    ensures
        dec_digits(n).len() > 0,
        all_digits(dec_digits(n)),
        dec_value(dec_digits(n)) == n,
    decreases n,
{
    assert(((((n % 10) + 48) as u8) as char) as nat == n % 10 + 48);
    if n < 10 {
        let d = dec_digits(n);
        assert(d.drop_last() =~= Seq::<char>::empty());
        assert(d.last() as nat == n + 48);
        assert(dec_value(d) == dec_value(d.drop_last()) * 10 + (d.last() as nat - 48));
        assert(dec_value(d) == n);
    }
    if n >= 10 {
        lemma_dec_digits(n / 10);
        vstd::arithmetic::div_mod::lemma_fundamental_div_mod(n as int, 10);
        let d = dec_digits(n);
        assert(d.drop_last() =~= dec_digits(n / 10));
        assert(d.last() as nat == n % 10 + 48);
        assert(dec_value(d) == dec_value(dec_digits(n / 10)) * 10 + (n % 10));
        assert(dec_value(d) == n);
        assert(all_digits(d)) by {
            assert forall|i: int| 0 <= i < d.len() implies is_digit(d[i]) by {
                if i < d.len() - 1 {
                    assert(d[i] == dec_digits(n / 10)[i]);
                }
            }
        }
    }
}

/// A field name that renders and parses back as itself: non-empty and free
/// of `.` and `[`.
pub open spec fn plain_name(n: Seq<char>) -> bool {
    n.len() > 0 && forall|i: int| 0 <= i < n.len() ==> n[i] != '.' && n[i] != '['
}

/// Each field of `sels` is registered in `names` under a plain name that
/// hashes back to it.
pub open spec fn names_resolve(sels: Seq<PrcKeyType>, names: Map<u64, Seq<char>>) -> bool {
    forall|i: int|
        0 <= i < sels.len() ==> match #[trigger] sels[i] {
            PrcKeyType::StructField(h) => names.contains_key(h.0) && hash40_of(names[h.0]) == h.0 && plain_name(
                names[h.0],
            ),
            PrcKeyType::ListIndex(_) => true,
        }
}

/// The text of an index selector, `[digits]` and what follows it, parses as
/// that index followed by what the rest parses as.
proof fn lemma_parse_index_text(n: usize, rest: Seq<char>)
    ensures
        ({
            let li = seq!['['] + dec_digits(n as nat) + seq![']'] + rest;
            &&& pos(li, ']') == dec_digits(n as nat).len() + 1
            &&& strip_open(li.take(pos(li, ']'))) == dec_digits(n as nat)
            &&& parse_index(dec_digits(n as nat)) == Some(n)
            &&& li.skip(pos(li, ']') + 1) == rest
        }),
{
    let ds = dec_digits(n as nat);
    lemma_dec_digits(n as nat);
    let li = seq!['['] + ds + seq![']'] + rest;
    assert forall|j: int| 0 <= j < ds.len() + 1 implies li[j] != ']' by {
        if j > 0 {
            assert(li[j] == ds[j - 1]);
            assert(is_digit(ds[j - 1]));
        }
    }
    assert(li[ds.len() as int + 1] == ']');
    lemma_pos_at(li, ']', ds.len() as int + 1);
    let open = li.take(ds.len() as int + 1);
    assert(open.drop_first() =~= ds);
    assert(is_digit(ds[0]));
    assert(strip_open(open) == strip_open(ds));
    assert(li.skip(ds.len() as int + 2) =~= rest);
    assert(ds[0] != '+');
}

proof fn lemma_plain_prefix(name: Seq<char>, rr: Seq<char>)
    requires
        plain_name(name),
    ensures
        forall|j: int| 0 <= j < name.len() ==> (name + rr)[j] != '.' && (name + rr)[j] != '[',
        (name + rr).take(name.len() as int) == name,
        (name + rr).skip(name.len() as int) == rr,
{
    assert forall|j: int| 0 <= j < name.len() implies (name + rr)[j] != '.' && (name + rr)[j] != '[' by {
        assert((name + rr)[j] == name[j]);
    }
    assert((name + rr).take(name.len() as int) =~= name);
    assert((name + rr).skip(name.len() as int) =~= rr);
}

proof fn lemma_field_alone(name: Seq<char>)
    requires
        plain_name(name),
    ensures
        parse_path(seq!['.'] + name) == Ok::<Seq<PrcKeyType>, PrcKeyError>(seq![PrcKeyType::StructField(Hash40(hash40_of(name)))]),
{
    let s = seq!['.'] + name;
    assert(s.drop_first() =~= name);
    lemma_plain_prefix(name, Seq::empty());
    assert(name + Seq::<char>::empty() =~= name);
    lemma_pos_none(name, '.');
    lemma_pos_none(name, '[');
}

proof fn lemma_field_then_field(name: Seq<char>, rr: Seq<char>, rest: Seq<PrcKeyType>)
    requires
        plain_name(name),
        rr.len() > 0,
        rr[0] == '.',
        parse_path(rr) == Ok::<Seq<PrcKeyType>, PrcKeyError>(rest),
    ensures
        parse_path(seq!['.'] + name + rr) == Ok::<Seq<PrcKeyType>, PrcKeyError>(
            seq![PrcKeyType::StructField(Hash40(hash40_of(name)))] + rest,
        ),
{
    let s = seq!['.'] + name + rr;
    let t = name + rr;
    assert(s.drop_first() =~= t);
    lemma_plain_prefix(name, rr);
    assert(t[name.len() as int] == '.');
    lemma_pos_at(t, '.', name.len() as int);
    lemma_pos_range(t, '[');
}

proof fn lemma_field_then_index(name: Seq<char>, n: usize, rr2: Seq<char>, rest2: Seq<PrcKeyType>)
    requires
        plain_name(name),
        parse_path(rr2) == Ok::<Seq<PrcKeyType>, PrcKeyError>(rest2),
    ensures
        parse_path(seq!['.'] + name + (seq!['['] + dec_digits(n as nat) + seq![']'] + rr2)) == Ok::<
            Seq<PrcKeyType>,
            PrcKeyError,
        >(seq![PrcKeyType::StructField(Hash40(hash40_of(name))), PrcKeyType::ListIndex(n)] + rest2),
{
    let rr = seq!['['] + dec_digits(n as nat) + seq![']'] + rr2;
    let s = seq!['.'] + name + rr;
    let t = name + rr;
    assert(s.drop_first() =~= t);
    lemma_plain_prefix(name, rr);
    assert(t[name.len() as int] == '[');
    lemma_pos_at(t, '[', name.len() as int);
    lemma_pos_range(t, '.');
    lemma_parse_index_text(n, rr2);
}

proof fn lemma_index_first(n: usize, rr: Seq<char>, rest: Seq<PrcKeyType>)
    requires
        parse_path(rr) == Ok::<Seq<PrcKeyType>, PrcKeyError>(rest),
    ensures
        parse_path(seq!['['] + dec_digits(n as nat) + seq![']'] + rr) == Ok::<Seq<PrcKeyType>, PrcKeyError>(
            seq![PrcKeyType::ListIndex(n)] + rest,
        ),
{
    let r = seq!['['] + dec_digits(n as nat) + seq![']'] + rr;
    assert(r[0] == '[');
    lemma_pos_at(r, '[', 0);
    lemma_pos_range(r, '.');
    assert(r.skip(0) =~= r);
    assert(r.take(0) =~= Seq::<char>::empty());
    lemma_parse_index_text(n, rr);
}

proof fn lemma_names_resolve_rest(sels: Seq<PrcKeyType>, names: Map<u64, Seq<char>>)
    requires
        names_resolve(sels, names),
        sels.len() > 0,
    ensures
        names_resolve(sels.drop_first(), names),
        match sels[0] {
            PrcKeyType::StructField(h) => names.contains_key(h.0) && hash40_of(names[h.0]) == h.0 && plain_name(names[h.0]),
            PrcKeyType::ListIndex(_) => true,
        },
{
    let rest = sels.drop_first();
    assert forall|i: int| 0 <= i < rest.len() implies match #[trigger] rest[i] {
        PrcKeyType::StructField(h) => names.contains_key(h.0) && hash40_of(names[h.0]) == h.0 && plain_name(names[h.0]),
        PrcKeyType::ListIndex(_) => true,
    } by {
        assert(rest[i] == sels[i + 1]);
    }
    assert(sels[0] == sels[0]);
}

/// Rendering a path whose field names resolve to plain names, then parsing
/// the text, gives back the path.
pub proof fn lemma_parse_render(sels: Seq<PrcKeyType>, names: Map<u64, Seq<char>>)
    requires
        names_resolve(sels, names),
    ensures
        parse_path(render(sels, names, false)) == Ok::<Seq<PrcKeyType>, PrcKeyError>(sels),
    decreases sels.len(),
{
    let r = render(sels, names, false);
    if sels.len() == 0 {
        assert(r =~= Seq::<char>::empty());
        assert(sels =~= Seq::<PrcKeyType>::empty());
        return;
    }
    let rest = sels.drop_first();
    lemma_names_resolve_rest(sels, names);
    lemma_parse_render(rest, names);
    let rr = render(rest, names, false);
    match sels[0] {
        PrcKeyType::StructField(h) => {
            let name = names[h.0];
            assert(r == seq!['.'] + name + rr);
            if rest.len() == 0 {
                assert(rr =~= Seq::<char>::empty());
                assert(r =~= seq!['.'] + name);
                lemma_field_alone(name);
                assert(sels =~= seq![PrcKeyType::StructField(Hash40(hash40_of(name)))]);
            } else {
                match rest[0] {
                    PrcKeyType::StructField(h2) => {
                        lemma_field_then_field(name, rr, rest);
                        assert(sels =~= seq![PrcKeyType::StructField(Hash40(hash40_of(name)))] + rest);
                    },
                    PrcKeyType::ListIndex(n) => {
                        let rest2 = rest.drop_first();
                        lemma_names_resolve_rest(rest, names);
                        lemma_parse_render(rest2, names);
                        let rr2 = render(rest2, names, false);
                        assert(rr =~= seq!['['] + dec_digits(n as nat) + seq![']'] + rr2);
                        lemma_field_then_index(name, n, rr2, rest2);
                        assert(sels =~= seq![PrcKeyType::StructField(Hash40(hash40_of(name))), PrcKeyType::ListIndex(n)] + rest2);
                    },
                }
            }
        },
        PrcKeyType::ListIndex(n) => {
            assert(r =~= seq!['['] + dec_digits(n as nat) + seq![']'] + rr);
            lemma_index_first(n, rr, rest);
            assert(sels =~= seq![PrcKeyType::ListIndex(n)] + rest);
        },
    }
}


proof fn lemma_parse_without_dot(t: Seq<char>)
    requires
        t.len() > 0,
        t[0] != '.',
    ensures
        parse_path(t) == parse_path(seq!['.'] + t),
{
    assert((seq!['.'] + t).drop_first() =~= t);
    lemma_pos_range(t, '.');
    lemma_pos_range(t, '[');
}

/// Parsing the text of a path (as `PrcKey::to_string` renders it) whose
/// field names are registered under plain names gives back its selectors.
pub proof fn lemma_text_round_trip(sels: Seq<PrcKeyType>, names: Map<u64, Seq<char>>)
    requires
        names_resolve(sels, names),
    ensures
        parse_path(strip_dots(render(sels, names, false))) == Ok::<Seq<PrcKeyType>, PrcKeyError>(sels),
{
    lemma_parse_render(sels, names);
    let r = render(sels, names, false);
    if sels.len() > 0 {
        lemma_names_resolve_rest(sels, names);
        let rr = render(sels.drop_first(), names, false);
        match sels[0] {
            PrcKeyType::StructField(h) => {
                let name = names[h.0];
                assert(r == seq!['.'] + name + rr);
                assert(r.drop_first() =~= name + rr);
                assert((name + rr)[0] == name[0]);
                assert(strip_dots(r.drop_first()) == r.drop_first());
                assert(strip_dots(r) == name + rr);
                assert(seq!['.'] + (name + rr) =~= r);
                lemma_parse_without_dot(name + rr);
            },
            PrcKeyType::ListIndex(n) => {
                assert(r =~= seq!['['] + dec_digits(n as nat) + seq![']'] + rr);
                assert(strip_dots(r) == r);
            },
        }
    } else {
        assert(r =~= Seq::<char>::empty());
    }
}

} // verus!
