//! Name hashes, the registry that resolves them, and number rendering.
use vstd::prelude::*;

use crate::value::Hash40;

verus! {

broadcast use vstd::std_specs::hash::group_hash_axioms;

/// The 40-bit hash of a label, as the hash40 algorithm computes it.
pub uninterp spec fn hash40_of(s: Seq<char>) -> u64;

/// Relies on `hash40::hash40` (re-exported by prc): the hash of a label is a
/// function of its characters alone.
#[verifier::external_body]
pub fn hash_label(s: &str) -> (r: Hash40)
    ensures
        r.0 == hash40_of(s@),
{
    Hash40(prc::hash40::hash40(s).0)
}

/// Relies on std's `FromIterator<char>` for `String`: the string holds the
/// characters in order.
#[verifier::external_body]
pub(crate) fn string_from_chars(c: &Vec<char>) -> (r: String)
    ensures
        r@ == c@,
{
    c.iter().collect()
}

/// The hash of a label given as characters.
pub fn hash_chars(c: &Vec<char>) -> (r: Hash40)
    ensures
        r.0 == hash40_of(c@),
{
    let s = string_from_chars(c);
    hash_label(s.as_str())
}

/// A lowercase hexadecimal digit.
pub open spec fn hex_digit(d: nat) -> char {
    if d < 10 {
        ((d + 48) as u8) as char
    } else {
        ((d + 87) as u8) as char
    }
}

/// The hexadecimal digits of `n`, most significant first, without leading zeros.
pub open spec fn hex_digits(n: nat) -> Seq<char>
    decreases n,
{
    if n < 16 {
        seq![hex_digit(n)]
    } else {
        hex_digits(n / 16).push(hex_digit(n % 16))
    }
}

/// `n` as a `0x`-prefixed lowercase hexadecimal literal.
pub open spec fn hex_of(n: nat) -> Seq<char> {
    seq!['0', 'x'] + hex_digits(n)
}

/// The decimal digits of `n`, most significant first, without leading zeros.
pub open spec fn dec_digits(n: nat) -> Seq<char>
    decreases n,
{
    if n < 10 {
        seq![((n + 48) as u8) as char]
    } else {
        dec_digits(n / 10).push((((n % 10) + 48) as u8) as char)
    }
}

/// Appends the hexadecimal digits of `n` to `out`.
pub fn push_hex_digits(n: u64, out: &mut Vec<char>)
    ensures
        final(out)@ == old(out)@ + hex_digits(n as nat),
    decreases n,
{
    if n >= 16 {
        push_hex_digits(n / 16, out);
    }
    let d: u64 = n % 16;
    let c: char = if d < 10 {
        ((d + 48) as u8) as char
    } else {
        ((d + 87) as u8) as char
    };
    out.push(c);
    proof {
        assert(old(out)@ + hex_digits(n as nat) =~= out@);
    }
}

/// Appends the decimal digits of `n` to `out`.
pub fn push_dec_digits(n: usize, out: &mut Vec<char>)
    ensures
        final(out)@ == old(out)@ + dec_digits(n as nat),
    decreases n,
{
    if n >= 10 {
        push_dec_digits(n / 10, out);
    }
    let d: usize = n % 10;
    out.push(((d + 48) as u8) as char);
    proof {
        assert(old(out)@ + dec_digits(n as nat) =~= out@);
    }
}

/// The names that field hashes resolve to, for rendering paths.
pub struct HashRegistry {
    pub names: std::collections::HashMap<u64, String>,
}

impl HashRegistry {
    pub closed spec fn view(&self) -> Map<u64, Seq<char>> {
        Map::new(|k: u64| self.names@.contains_key(k), |k: u64| self.names@[k]@)
    }

    /// A registry that resolves no hash.
    pub fn new() -> (r: HashRegistry)
        ensures
            r.view() == Map::<u64, Seq<char>>::empty(),
    {
        let r = HashRegistry { names: std::collections::HashMap::new() };
        proof {
            assert(r.view() =~= Map::<u64, Seq<char>>::empty());
        }
        r
    }
}

/// What `hash` renders as: its registered name, else its hexadecimal literal.
pub open spec fn label_of(names: Map<u64, Seq<char>>, hash: u64) -> Seq<char> {
    if names.contains_key(hash) {
        names[hash]
    } else {
        hex_of(hash as nat)
    }
}

/// Registers `string` under its hash, replacing any earlier name there.
pub fn add_hash(registry: &mut HashRegistry, string: &str)
    ensures
        final(registry).view() == old(registry).view().insert(hash40_of(string@), string@),
{
    let h = hash_label(string);
    registry.names.insert(h.0, string.to_owned());
    proof {
        assert(registry.view() =~= old(registry).view().insert(hash40_of(string@), string@));
    }
}

/// The registry `names` after each of `strings` was registered, in order.
pub open spec fn add_all(names: Map<u64, Seq<char>>, strings: Seq<Seq<char>>) -> Map<u64, Seq<char>>
    decreases strings.len(),
{
    if strings.len() == 0 {
        names
    } else {
        add_all(names, strings.drop_last()).insert(hash40_of(strings.last()), strings.last())
    }
}

/// Registers each of `strings`, in order.
pub fn add_hashes(registry: &mut HashRegistry, strings: Vec<&str>)
    ensures
        final(registry).view() == add_all(old(registry).view(), strings@.map_values(|s: &str| s@)),
{
    let ghost all = strings@.map_values(|s: &str| s@);
    let mut i: usize = 0;
    while i < strings.len()
        invariant
            0 <= i <= strings.len(),
            all == strings@.map_values(|s: &str| s@),
            registry.view() == add_all(old(registry).view(), all.take(i as int)),
        decreases strings.len() - i,
    {
        add_hash(registry, strings[i]);
        proof {
            assert(all.take(i + 1).drop_last() =~= all.take(i as int));
        }
        i = i + 1;
    }
    proof {
        assert(all.take(i as int) =~= all);
    }
}

/// The name registered for `hash`, if any.
pub fn try_get(registry: &HashRegistry, hash: Hash40) -> (r: Option<String>)
    ensures
        match r {
            Some(s) => registry.view().contains_key(hash.0) && s@ == registry.view()[hash.0],
            None => !registry.view().contains_key(hash.0),
        },
{
    match registry.names.get(&hash.0) {
        Some(s) => Some(s.clone()),
        None => None,
    }
}

/// The name registered for `hash`, else its hexadecimal literal.
pub fn get(registry: &HashRegistry, hash: Hash40) -> (r: String)
    ensures
        r@ == label_of(registry.view(), hash.0),
{
    match try_get(registry, hash) {
        Some(s) => s,
        None => {
            let mut out: Vec<char> = Vec::new();
            out.push('0');
            out.push('x');
            push_hex_digits(hash.0, &mut out);
            proof {
                assert(out@ =~= hex_of(hash.0 as nat));
            }
            string_from_chars(&out)
        },
    }
}

} // verus!
