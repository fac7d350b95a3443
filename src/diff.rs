//! The tree-shaped diff: a patch whose shape is a subset of the source's,
//! aligned by key occurrence in structs and by position in lists.
use vstd::prelude::*;

use crate::Error;
use crate::hash::{hash40_of, hash_label};
use crate::value::{Hash40, ParamKind, ParamList, ParamStruct, Value, diff_model, lemma_list_model, lemma_struct_model, list_model, struct_model};

verus! {

broadcast use vstd::std_specs::hash::group_hash_axioms;

/// The hash of the label "dummy".
pub open spec fn dummy_hash() -> u64 {
    hash40_of(seq!['d', 'u', 'm', 'm', 'y'])
}

/// The sentinel of a list patch that leaves its position unchanged.
pub open spec fn dummy() -> Value {
    Value::Hash(dummy_hash())
}

/// The number of entries with key `k` in `s`.
pub open spec fn count_key(s: Seq<(u64, Value)>, k: u64) -> nat
    decreases s.len(),
{
    if s.len() == 0 {
        0
    } else {
        count_key(s.drop_last(), k) + if s.last().0 == k { 1nat } else { 0nat }
    }
}

/// Entry `i` of `s` is the occurrence of key `k` with ordinal `j`.
pub open spec fn is_nth(s: Seq<(u64, Value)>, k: u64, j: nat, i: int) -> bool {
    0 <= i < s.len() && s[i].0 == k && count_key(s.take(i), k) == j
}

pub open spec fn has_nth(s: Seq<(u64, Value)>, k: u64, j: nat) -> bool {
    exists|i: int| is_nth(s, k, j, i)
}

/// The value of the occurrence of key `k` with ordinal `j`.
pub open spec fn nth_value(s: Seq<(u64, Value)>, k: u64, j: nat) -> Value {
    s[choose|i: int| is_nth(s, k, j, i)].1
}

/// The source occurrences of `k` with ordinals `from..to`, copied verbatim.
pub open spec fn backfill(ss: Seq<(u64, Value)>, k: u64, from: nat, to: nat) -> Result<
    Seq<(u64, Value)>,
    Error,
>
    decreases to,
{
    if to <= from {
        Ok(Seq::empty())
    } else {
        match backfill(ss, k, from, (to - 1) as nat) {
            Err(e) => Err(e),
            Ok(out) => if has_nth(ss, k, (to - 1) as nat) {
                Ok(out.push((k, nth_value(ss, k, (to - 1) as nat))))
            } else {
                Err(Error::BadReturn)
            },
        }
    }
}

/// The diff of `s` to `t`: `None` where they are equal.
pub open spec fn diff_spec(s: Value, t: Value) -> Result<Option<Value>, Error>
    decreases t,
{
    if s.tag() != t.tag() {
        Err(Error::NotSamePType)
    } else {
        match (s, t) {
            (Value::Struct(ss), Value::Struct(ts)) => match diff_struct_prefix(ss, ts, ts.len()) {
                Err(e) => Err(e),
                Ok((out, _)) => if out.len() == 0 {
                    Ok(None)
                } else {
                    Ok(Some(Value::Struct(out)))
                },
            },
            (Value::List(sl), Value::List(tl)) => match diff_list_prefix(sl, tl, tl.len()) {
                Err(e) => Err(e),
                Ok((out, changed)) => if out.len() == 0 || !changed {
                    Ok(None)
                } else {
                    Ok(Some(Value::List(out + padding(sl.len() - tl.len()))))
                },
            },
            _ => if s == t {
                Ok(None)
            } else {
                Ok(Some(t))
            },
        }
    }
}

/// `n` dummy sentinels (none where `n` is not positive).
pub open spec fn padding(n: int) -> Seq<Value> {
    Seq::new(if n > 0 { n as nat } else { 0 }, |i: int| dummy())
}

/// The list diff over the first `n` target elements, and whether any of
/// them is a real change.
pub open spec fn diff_list_prefix(sl: Seq<Value>, tl: Seq<Value>, n: nat) -> Result<
    (Seq<Value>, bool),
    Error,
>
    decreases tl, n,
{
    if n == 0 || n > tl.len() {
        Ok((Seq::empty(), false))
    } else {
        match diff_list_prefix(sl, tl, (n - 1) as nat) {
            Err(e) => Err(e),
            Ok((out, changed)) => {
                let i = n - 1;
                if i < sl.len() {
                    match diff_spec(sl[i], tl[i]) {
                        Err(e) => Err(e),
                        Ok(Some(d)) => Ok((out.push(d), true)),
                        Ok(None) => Ok((out.push(dummy()), changed)),
                    }
                } else {
                    Ok((out.push(tl[i]), true))
                }
            },
        }
    }
}

/// The struct diff over the first `n` target entries, with the number of
/// occurrences of each key emitted so far.
pub open spec fn diff_struct_prefix(ss: Seq<(u64, Value)>, ts: Seq<(u64, Value)>, n: nat) -> Result<
    (Seq<(u64, Value)>, Map<u64, usize>),
    Error,
>
    decreases ts, n,
{
    if n == 0 || n > ts.len() {
        Ok((Seq::empty(), Map::empty()))
    } else {
        match diff_struct_prefix(ss, ts, (n - 1) as nat) {
            Err(e) => Err(e),
            Ok((out, emitted)) => {
                let k = ts[n - 1].0;
                let j = count_key(ts.take(n - 1), k);
                if has_nth(ss, k, j) {
                    match diff_spec(nth_value(ss, k, j), ts[n - 1].1) {
                        Err(e) => Err(e),
                        Ok(None) => Ok((out, emitted)),
                        Ok(Some(d)) => {
                            let e: nat = if emitted.contains_key(k) {
                                emitted[k] as nat
                            } else {
                                0
                            };
                            match backfill(ss, k, e, j) {
                                Err(er) => Err(er),
                                Ok(b) => Ok((out + b.push((k, d)), emitted.insert(k, (j + 1) as usize))),
                            }
                        },
                    }
                } else {
                    Ok((out.push(ts[n - 1]), emitted))
                }
            },
        }
    }
}


pub proof fn lemma_count_step(s: Seq<(u64, Value)>, k: u64, i: int)
    requires
        0 <= i < s.len(),
    ensures
        count_key(s.take(i + 1), k) == count_key(s.take(i), k) + if s[i].0 == k { 1nat } else { 0nat },
{
    assert(s.take(i + 1).drop_last() =~= s.take(i));
}

pub proof fn lemma_count_le(s: Seq<(u64, Value)>, k: u64)
    ensures
        count_key(s, k) <= s.len(),
    decreases s.len(),
{
    if s.len() > 0 {
        lemma_count_le(s.drop_last(), k);
    }
}

pub proof fn lemma_count_mono(s: Seq<(u64, Value)>, k: u64, a: int, b: int)
    requires
        0 <= a <= b <= s.len(),
    ensures
        count_key(s.take(a), k) <= count_key(s.take(b), k),
    decreases b - a,
{
    if a < b {
        lemma_count_mono(s, k, a, b - 1);
        lemma_count_step(s, k, b - 1);
    }
}

/// An occurrence ordinal names at most one entry.
pub proof fn lemma_nth_unique(s: Seq<(u64, Value)>, k: u64, j: nat, i: int)
    requires
        is_nth(s, k, j, i),
    ensures
        has_nth(s, k, j),
        nth_value(s, k, j) == s[i].1,
        (choose|c: int| is_nth(s, k, j, c)) == i,
{
    let c = choose|c: int| is_nth(s, k, j, c);
    if c < i {
        lemma_count_step(s, k, c);
        lemma_count_mono(s, k, c + 1, i);
    } else if i < c {
        lemma_count_step(s, k, i);
        lemma_count_mono(s, k, i + 1, c);
    }
}

proof fn lemma_backfill_err(ss: Seq<(u64, Value)>, k: u64, from: nat, to: nat, m: nat)
    requires
        backfill(ss, k, from, to) is Err,
        to <= m,
    ensures
        backfill(ss, k, from, m) == backfill(ss, k, from, to),
    decreases m,
{
    if m > to {
        lemma_backfill_err(ss, k, from, to, (m - 1) as nat);
    }
}

proof fn lemma_list_prefix_err(sl: Seq<Value>, tl: Seq<Value>, n: nat, m: nat)
    requires
        diff_list_prefix(sl, tl, n) is Err,
        n <= m <= tl.len(),
    ensures
        diff_list_prefix(sl, tl, m) == diff_list_prefix(sl, tl, n),
    decreases m,
{
    if m > n {
        lemma_list_prefix_err(sl, tl, n, (m - 1) as nat);
    }
}

proof fn lemma_struct_prefix_err(ss: Seq<(u64, Value)>, ts: Seq<(u64, Value)>, n: nat, m: nat)
    requires
        diff_struct_prefix(ss, ts, n) is Err,
        n <= m <= ts.len(),
    ensures
        diff_struct_prefix(ss, ts, m) == diff_struct_prefix(ss, ts, n),
    decreases m,
{
    if m > n {
        lemma_struct_prefix_err(ss, ts, n, (m - 1) as nat);
    }
}

/// The index of the occurrence of `key` with ordinal `count` in `struc`.
pub fn find_instance_of(struc: &Vec<(Hash40, ParamKind)>, key: Hash40, count: usize) -> (r: Option<usize>)
    ensures
        match r {
            Some(i) => is_nth(struct_model(struc@), key.0, count as nat, i as int),
            None => !has_nth(struct_model(struc@), key.0, count as nat),
        },
{
    let ghost ms = struct_model(struc@);
    proof {
        lemma_struct_model(struc@);
    }
    let mut current: usize = 0;
    let mut i: usize = 0;
    while i < struc.len()
        invariant
            0 <= i <= struc.len(),
            ms == struct_model(struc@),
            ms.len() == struc@.len(),
            forall|x: int| 0 <= x < ms.len() ==> #[trigger] ms[x] == (struc@[x].0.0, struc@[x].1.model()),
            current == count_key(ms.take(i as int), key.0),
            current <= count,
            forall|x: int| 0 <= x < i ==> !is_nth(ms, key.0, count as nat, x),
        decreases struc.len() - i,
    {
        proof {
            lemma_count_step(ms, key.0, i as int);
        }
        if struc[i].0.0 == key.0 {
            if current == count {
                return Some(i);
            }
            current = current + 1;
        }
        i = i + 1;
    }
    None
}

fn dummy_param() -> (r: ParamKind)
    ensures
        r.model() == dummy(),
{
    let h = hash_label("dummy");
    proof {
        reveal_strlit("dummy");
        assert("dummy"@ =~= seq!['d', 'u', 'm', 'm', 'y']);
    }
    ParamKind::Hash(h)
}

/// Appends to `out` the occurrences of `key` in `source` with ordinals `from..to`.
fn backfill_into(source: &ParamStruct, key: Hash40, from: usize, to: usize, out: &mut Vec<(Hash40, ParamKind)>) -> (r: Result<(), Error>)
    requires
        from <= to,
    ensures
        match backfill(struct_model(source.0@), key.0, from as nat, to as nat) {
            Ok(b) => r is Ok && struct_model(final(out)@) == struct_model(old(out)@) + b,
            Err(e) => r == Err::<(), Error>(e),
        },
{
    let ghost ss = struct_model(source.0@);
    let ghost out0 = struct_model(out@);
    proof {
        lemma_struct_model(source.0@);
        assert(struct_model(out@).skip(out0.len() as int) =~= Seq::<(u64, Value)>::empty());
        assert(struct_model(out@).take(out0.len() as int) =~= out0);
    }
    let mut x: usize = from;
    while x < to
        invariant
            from <= x <= to,
            ss == struct_model(source.0@),
            ss.len() == source.0@.len(),
            forall|y: int| 0 <= y < ss.len() ==> #[trigger] ss[y] == (source.0@[y].0.0, source.0@[y].1.model()),
            backfill(ss, key.0, from as nat, x as nat) == Ok::<_, Error>(
                struct_model(out@).skip(out0.len() as int),
            ),
            struct_model(out@).take(out0.len() as int) == out0,
            out0.len() <= struct_model(out@).len(),
        decreases to - x,
    {
        match find_instance_of(&source.0, key, x) {
            Some(sidx) => {
                proof {
                    lemma_nth_unique(ss, key.0, x as nat, sidx as int);
                }
                let c = (key, source.0[sidx].1.deep_clone());
                proof {
                    assert(out@.push(c).drop_last() =~= out@);
                    assert(struct_model(out@.push(c)).skip(out0.len() as int) =~=
                        struct_model(out@).skip(out0.len() as int).push((key.0, c.1.model())));
                    assert(struct_model(out@.push(c)).take(out0.len() as int) =~=
                        struct_model(out@).take(out0.len() as int));
                }
                out.push(c);
            },
            None => {
                proof {
                    lemma_backfill_err(ss, key.0, from as nat, (x + 1) as nat, to as nat);
                }
                return Err(Error::BadReturn);
            },
        }
        x = x + 1;
    }
    proof {
        assert(struct_model(out@) =~= out0 + struct_model(out@).skip(out0.len() as int));
    }
    Ok(())
}

/// The diff of two structs: the entries of `result` that changed or were
/// added, with earlier unchanged occurrences of a repeated key copied from
/// `source` where a later occurrence changed.
#[verifier::loop_isolation(false)]
pub fn generate_diff_struct(source: &ParamStruct, result: &ParamStruct) -> (r: Result<Option<ParamKind>, Error>)
    ensures
        diff_model(r) == diff_spec(
            Value::Struct(struct_model(source.0@)),
            Value::Struct(struct_model(result.0@)),
        ),
    decreases result,
{
    let ghost ss = struct_model(source.0@);
    let ghost ts = struct_model(result.0@);
    proof {
        lemma_struct_model(source.0@);
        lemma_struct_model(result.0@);
    }
    let mut out: Vec<(Hash40, ParamKind)> = Vec::new();
    let mut seen: std::collections::HashMap<u64, usize> = std::collections::HashMap::new();
    let mut emitted: std::collections::HashMap<u64, usize> = std::collections::HashMap::new();
    let mut i: usize = 0;
    while i < result.0.len()
        invariant
            0 <= i <= result.0.len(),
            ss == struct_model(source.0@),
            ts == struct_model(result.0@),
            ts.len() == result.0@.len(),
            ss.len() == source.0@.len(),
            forall|x: int| 0 <= x < ts.len() ==> #[trigger] ts[x] == (result.0@[x].0.0, result.0@[x].1.model()),
            forall|k: u64| emitted@.contains_key(k) ==> emitted@[k] <= count_key(ts.take(i as int), k),
            diff_struct_prefix(ss, ts, i as nat) == Ok::<_, Error>((struct_model(out@), emitted@)),
            forall|k: u64| seen@.contains_key(k) ==> seen@[k] == count_key(ts.take(i as int), k),
            forall|k: u64| !seen@.contains_key(k) ==> count_key(ts.take(i as int), k) == 0,
        decreases result.0.len() - i,
    {
        let key = result.0[i].0;
        let j: usize = match seen.get(&key.0) {
            Some(c) => *c,
            None => 0,
        };
        proof {
            lemma_count_le(ts.take(i as int), key.0);
            lemma_count_step(ts, key.0, i as int);
            assert forall|k: u64| k != key.0 implies count_key(ts.take(i + 1), k) == count_key(ts.take(i as int), k) by {
                lemma_count_step(ts, k, i as int);
            }
        }
        seen.insert(key.0, j + 1);
        match find_instance_of(&source.0, key, j) {
            Some(idx) => {
                proof {
                    lemma_nth_unique(ss, key.0, j as nat, idx as int);
                    assert(decreases_to!(result.0 => result.0[i as int]));
                }
                match generate_diff(&source.0[idx].1, &result.0[i].1) {
                    Err(e) => {
                        proof {
                            lemma_struct_prefix_err(ss, ts, (i + 1) as nat, ts.len());
                        }
                        return Err(e);
                    },
                    Ok(None) => {},
                    Ok(Some(d)) => {
                        let e: usize = match emitted.get(&key.0) {
                            Some(c) => *c,
                            None => 0,
                        };
                        let ghost out0 = struct_model(out@);
                        match backfill_into(source, key, e, j, &mut out) {
                            Ok(()) => {},
                            Err(er) => {
                                proof {
                                    lemma_struct_prefix_err(ss, ts, (i + 1) as nat, ts.len());
                                }
                                return Err(er);
                            },
                        }
                        let c = (key, d);
                        proof {
                            assert(out@.push(c).drop_last() =~= out@);
                        }
                        out.push(c);
                        emitted.insert(key.0, j + 1);
                    },
                }
            },
            None => {
                let c = (key, result.0[i].1.deep_clone());
                proof {
                    assert(out@.push(c).drop_last() =~= out@);
                }
                out.push(c);
            },
        }
        proof {
            assert(ts.take(i + 1).drop_last() =~= ts.take(i as int));
        }
        i = i + 1;
    }
    proof {
        assert(ts.take(i as int) =~= ts);
    }
    if out.len() == 0 {
        Ok(None)
    } else {
        Ok(Some(ParamKind::Struct(ParamStruct(out))))
    }
}

/// The diff of two lists: as long as the longer of them, with a dummy
/// sentinel at each unchanged position.
pub fn generate_diff_list(source: &ParamList, modded: &ParamList) -> (r: Result<Option<ParamKind>, Error>)
    ensures
        diff_model(r) == diff_spec(
            Value::List(list_model(source.0@)),
            Value::List(list_model(modded.0@)),
        ),
    decreases modded,
{
    let ghost sl = list_model(source.0@);
    let ghost tl = list_model(modded.0@);
    proof {
        lemma_list_model(source.0@);
        lemma_list_model(modded.0@);
    }
    let mut list: Vec<ParamKind> = Vec::new();
    let mut is_non_dummy = false;
    let mut i: usize = 0;
    while i < modded.0.len()
        invariant
            0 <= i <= modded.0.len(),
            sl == list_model(source.0@),
            tl == list_model(modded.0@),
            sl.len() == source.0@.len(),
            tl.len() == modded.0@.len(),
            forall|x: int| 0 <= x < sl.len() ==> #[trigger] sl[x] == source.0@[x].model(),
            forall|x: int| 0 <= x < tl.len() ==> #[trigger] tl[x] == modded.0@[x].model(),
            diff_list_prefix(sl, tl, i as nat) == Ok::<_, Error>((list_model(list@), is_non_dummy)),
        decreases modded.0.len() - i,
    {
        let c: ParamKind;
        if i < source.0.len() {
            proof {
                assert(decreases_to!(modded.0 => modded.0[i as int]));
            }
            match generate_diff(&source.0[i], &modded.0[i]) {
                Err(e) => {
                    proof {
                        lemma_list_prefix_err(sl, tl, (i + 1) as nat, tl.len());
                    }
                    return Err(e);
                },
                Ok(Some(d)) => {
                    c = d;
                    is_non_dummy = true;
                },
                Ok(None) => {
                    c = dummy_param();
                },
            }
        } else {
            c = modded.0[i].deep_clone();
            is_non_dummy = true;
        }
        proof {
            assert(list@.push(c).drop_last() =~= list@);
        }
        list.push(c);
        i = i + 1;
    }
    if list.len() == 0 || !is_non_dummy {
        return Ok(None);
    }
    let ghost body = list_model(list@);
    let mut k: usize = modded.0.len();
    while k < source.0.len()
        invariant
            modded.0.len() <= k,
            k <= source.0.len() || k == modded.0.len(),
            list_model(list@) == body + padding(k - modded.0.len()),
        decreases source.0.len() - k,
    {
        let c = dummy_param();
        proof {
            assert(list@.push(c).drop_last() =~= list@);
            assert(body + padding(k + 1 - modded.0.len()) =~= (body + padding(k - modded.0.len())).push(dummy()));
        }
        list.push(c);
        k = k + 1;
    }
    proof {
        assert(padding(k - modded.0.len()) =~= padding(sl.len() - tl.len()));
    }
    Ok(Some(ParamKind::List(ParamList(list))))
}

/// The diff of `source` to `result`: `None` where they are equal, an error
/// where their tags differ at some compared position.
pub fn generate_diff(source: &ParamKind, result: &ParamKind) -> (r: Result<Option<ParamKind>, Error>)
    ensures
        diff_model(r) == diff_spec(source.model(), result.model()),
    decreases result,
{
    if source.get_tag() != result.get_tag() {
        return Err(Error::NotSamePType);
    }
    match (source, result) {
        (ParamKind::Struct(a), ParamKind::Struct(b)) => {
            proof {
                assert(decreases_to!(*result => (*result)->Struct_0));
            }
            generate_diff_struct(a, b)
        },
        (ParamKind::List(a), ParamKind::List(b)) => {
            proof {
                assert(decreases_to!(*result => (*result)->List_0));
            }
            generate_diff_list(a, b)
        },
        _ => {
            if source.leaf_eq(result) {
                Ok(None)
            } else {
                Ok(Some(result.deep_clone()))
            }
        },
    }
}


/// A tree diffed with itself gives no patch.
pub proof fn lemma_diff_self(t: Value)
    ensures
        diff_spec(t, t) == Ok::<Option<Value>, Error>(None),
    decreases t,
{
    match t {
        Value::Struct(ts) => {
            lemma_diff_struct_self(ts, ts.len());
        },
        Value::List(tl) => {
            lemma_diff_list_self(tl, tl.len());
        },
        _ => {},
    }
}

proof fn lemma_diff_struct_self(ts: Seq<(u64, Value)>, n: nat)
    requires
        n <= ts.len(),
    ensures
        diff_struct_prefix(ts, ts, n) == Ok::<_, Error>((Seq::<(u64, Value)>::empty(), Map::<u64, usize>::empty())),
    decreases ts, n,
{
    if n > 0 {
        lemma_diff_struct_self(ts, (n - 1) as nat);
        let k = ts[n - 1].0;
        let j = count_key(ts.take(n - 1), k);
        assert(is_nth(ts, k, j, n - 1));
        lemma_nth_unique(ts, k, j, n - 1);
        assert(decreases_to!(ts => ts[n - 1]));
        lemma_diff_self(ts[n - 1].1);
    }
}

proof fn lemma_diff_list_self(tl: Seq<Value>, n: nat)
    requires
        n <= tl.len(),
    ensures
        diff_list_prefix(tl, tl, n) matches Ok((out, changed)) && !changed && out.len() == n,
    decreases tl, n,
{
    if n > 0 {
        lemma_diff_list_self(tl, (n - 1) as nat);
        lemma_diff_self(tl[n - 1]);
    }
}


proof fn lemma_nth_below(s: Seq<(u64, Value)>, k: u64, x: nat, m: int)
    requires
        0 <= m <= s.len(),
        count_key(s.take(m), k) > x,
    ensures
        has_nth(s, k, x),
    decreases m,
{
    if m > 0 {
        lemma_count_step(s, k, m - 1);
        if count_key(s.take(m - 1), k) > x {
            lemma_nth_below(s, k, x, m - 1);
        } else {
            assert(is_nth(s, k, x, m - 1));
        }
    } else {
        assert(s.take(0) =~= Seq::<(u64, Value)>::empty());
    }
}

/// Where occurrence `j` of a key exists, so does every earlier one.
pub proof fn lemma_nth_earlier(s: Seq<(u64, Value)>, k: u64, j: nat, x: nat)
    requires
        has_nth(s, k, j),
        x < j,
    ensures
        has_nth(s, k, x),
{
    let i = choose|i: int| is_nth(s, k, j, i);
    lemma_nth_below(s, k, x, i);
}

proof fn lemma_backfill_ok(ss: Seq<(u64, Value)>, k: u64, from: nat, to: nat)
    requires
        has_nth(ss, k, to),
    ensures
        backfill(ss, k, from, to) is Ok,
    decreases to,
{
    if to > from {
        lemma_nth_earlier(ss, k, to, (to - 1) as nat);
        lemma_backfill_ok(ss, k, from, (to - 1) as nat);
    }
}

/// The diff never reports a missing occurrence: every occurrence that it
/// copies from the source exists.
pub proof fn lemma_diff_no_bad_return(s: Value, t: Value)
    ensures
        diff_spec(s, t) != Err::<Option<Value>, Error>(Error::BadReturn),
    decreases t,
{
    if s.tag() == t.tag() {
        match (s, t) {
            (Value::Struct(ss), Value::Struct(ts)) => lemma_struct_no_bad_return(ss, ts, ts.len()),
            (Value::List(sl), Value::List(tl)) => lemma_list_no_bad_return(sl, tl, tl.len()),
            _ => {},
        }
    }
}

proof fn lemma_struct_no_bad_return(ss: Seq<(u64, Value)>, ts: Seq<(u64, Value)>, n: nat)
    ensures
        diff_struct_prefix(ss, ts, n) != Err::<(Seq<(u64, Value)>, Map<u64, usize>), Error>(Error::BadReturn),
    decreases ts, n,
{
    if n > 0 && n <= ts.len() {
        lemma_struct_no_bad_return(ss, ts, (n - 1) as nat);
        let k = ts[n - 1].0;
        let j = count_key(ts.take(n - 1), k);
        if has_nth(ss, k, j) {
            assert(decreases_to!(ts => ts[n - 1]));
            lemma_diff_no_bad_return(nth_value(ss, k, j), ts[n - 1].1);
            if let Ok((out, emitted)) = diff_struct_prefix(ss, ts, (n - 1) as nat) {
                let e: nat = if emitted.contains_key(k) { emitted[k] as nat } else { 0 };
                lemma_backfill_ok(ss, k, e, j);
            }
        }
    }
}

proof fn lemma_list_no_bad_return(sl: Seq<Value>, tl: Seq<Value>, n: nat)
    ensures
        diff_list_prefix(sl, tl, n) != Err::<(Seq<Value>, bool), Error>(Error::BadReturn),
    decreases tl, n,
{
    if n > 0 && n <= tl.len() {
        lemma_list_no_bad_return(sl, tl, (n - 1) as nat);
        if n - 1 < sl.len() {
            lemma_diff_no_bad_return(sl[n - 1], tl[n - 1]);
        }
    }
}

} // verus!
