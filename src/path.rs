//! The path-addressed diff: a flat list of changed leaves and their paths,
//! and its best-effort application.
use vstd::prelude::*;

use crate::Error;
use crate::key::{PrcKey, PrcKeyType, chain};
use crate::value::{Hash40, ParamKind, Value, lemma_list_model, lemma_struct_model, list_model, struct_model};

verus! {

/// A path-addressed change: the selectors of a leaf and its new value.
pub type PathEntry = (Seq<PrcKeyType>, Value);

/// Entry `i` is the first with key `k`.
pub open spec fn is_first_key(s: Seq<(u64, Value)>, k: u64, i: int) -> bool {
    0 <= i < s.len() && s[i].0 == k && forall|j: int| 0 <= j < i ==> s[j].0 != k
}

/// Each path of `sub` with `sel` put in front.
pub open spec fn prefixed(sel: PrcKeyType, sub: Seq<PathEntry>) -> Seq<PathEntry> {
    Seq::new(sub.len(), |i: int| (seq![sel] + sub[i].0, sub[i].1))
}

/// What one source child `sv`, paired with the target child `tv` under
/// selector `sel`, adds to the path diff.
pub open spec fn child_diff(sel: PrcKeyType, sv: Value, tv: Value, sub: Result<Seq<PathEntry>, Error>) -> Result<
    Seq<PathEntry>,
    Error,
> {
    if sv == tv {
        Ok(Seq::empty())
    } else if sv.is_leaf() && tv.is_leaf() {
        Ok(seq![(seq![sel], tv)])
    } else {
        match sub {
            Ok(s) => Ok(prefixed(sel, s)),
            Err(e) => Err(e),
        }
    }
}

/// The path diff of `s` to `t`: the leaves of `t` that differ from those of
/// `s`, found by walking the entries of `s` depth first.
pub open spec fn path_diff_spec(s: Value, t: Value) -> Result<Seq<PathEntry>, Error>
    decreases s,
{
    if s.tag() != t.tag() {
        Err(Error::NotSamePType)
    } else {
        match (s, t) {
            (Value::Struct(ss), Value::Struct(ts)) => path_struct_prefix(ss, ts, ss.len()),
            (Value::List(sl), Value::List(tl)) => path_list_prefix(sl, tl, sl.len()),
            _ => Ok(Seq::empty()),
        }
    }
}

/// The path diff over the first `n` source entries of a struct; each is
/// paired with the first target entry of its key.
pub open spec fn path_struct_prefix(ss: Seq<(u64, Value)>, ts: Seq<(u64, Value)>, n: nat) -> Result<
    Seq<PathEntry>,
    Error,
>
    decreases ss, n,
{
    if n == 0 || n > ss.len() {
        Ok(Seq::empty())
    } else {
        match path_struct_prefix(ss, ts, (n - 1) as nat) {
            Err(e) => Err(e),
            Ok(acc) => {
                let k = ss[n - 1].0;
                if exists|i: int| is_first_key(ts, k, i) {
                    let tv = ts[choose|i: int| is_first_key(ts, k, i)].1;
                    let sv = ss[n - 1].1;
                    match child_diff(PrcKeyType::StructField(Hash40(k)), sv, tv, path_diff_spec(sv, tv)) {
                        Err(e) => Err(e),
                        Ok(c) => Ok(acc + c),
                    }
                } else {
                    Ok(acc)
                }
            },
        }
    }
}

/// The path diff over the first `n` source elements of a list; each is
/// paired with the target element at its index.
pub open spec fn path_list_prefix(sl: Seq<Value>, tl: Seq<Value>, n: nat) -> Result<Seq<PathEntry>, Error>
    decreases sl, n,
{
    if n == 0 || n > sl.len() {
        Ok(Seq::empty())
    } else {
        match path_list_prefix(sl, tl, (n - 1) as nat) {
            Err(e) => Err(e),
            Ok(acc) => {
                let i = n - 1;
                if i < tl.len() {
                    match child_diff(PrcKeyType::ListIndex(i as usize), sl[i], tl[i], path_diff_spec(sl[i], tl[i])) {
                        Err(e) => Err(e),
                        Ok(c) => Ok(acc + c),
                    }
                } else {
                    Ok(acc)
                }
            },
        }
    }
}

/// `v` with the leaf at `path` set to `x`; unchanged where the path does
/// not resolve or ends at a composite.
pub open spec fn set_path(v: Value, path: Seq<PrcKeyType>, x: Value) -> Value
    decreases path.len(),
{
    if path.len() == 0 {
        v
    } else {
        match (v, path[0]) {
            (Value::Struct(es), PrcKeyType::StructField(h)) => if exists|i: int| is_first_key(es, h.0, i) {
                let i = choose|i: int| is_first_key(es, h.0, i);
                let child = es[i].1;
                if path.len() == 1 {
                    if child.is_leaf() {
                        Value::Struct(es.update(i, (h.0, x)))
                    } else {
                        v
                    }
                } else {
                    Value::Struct(es.update(i, (h.0, set_path(child, path.drop_first(), x))))
                }
            } else {
                v
            },
            (Value::List(ls), PrcKeyType::ListIndex(n)) => if n < ls.len() {
                let child = ls[n as int];
                if path.len() == 1 {
                    if child.is_leaf() {
                        Value::List(ls.update(n as int, x))
                    } else {
                        v
                    }
                } else {
                    Value::List(ls.update(n as int, set_path(child, path.drop_first(), x)))
                }
            } else {
                v
            },
            _ => v,
        }
    }
}

/// `v` after the first `n` entries of `diff` were applied in order.
pub open spec fn apply_paths(v: Value, diff: Seq<PathEntry>, n: nat) -> Value
    decreases n,
{
    if n == 0 || n > diff.len() {
        v
    } else {
        set_path(apply_paths(v, diff, (n - 1) as nat), diff[n - 1].0, diff[n - 1].1)
    }
}


/// The model of path-addressed changes whose paths are selector vectors.
pub open spec fn entries_model(v: Seq<(Vec<PrcKeyType>, ParamKind)>) -> Seq<PathEntry> {
    Seq::new(v.len(), |i: int| (v[i].0@, v[i].1.model()))
}

/// The model of path-addressed changes.
pub open spec fn keyed_model(v: Seq<(PrcKey, ParamKind)>) -> Seq<PathEntry> {
    Seq::new(v.len(), |i: int| (v[i].0.selectors(), v[i].1.model()))
}

/// The index of the first entry of `s` with key `k`.
fn first_key_index(s: &Vec<(Hash40, ParamKind)>, k: Hash40) -> (r: Option<usize>)
    ensures
        match r {
            Some(i) => is_first_key(struct_model(s@), k.0, i as int),
            None => !(exists|i: int| is_first_key(struct_model(s@), k.0, i)),
        },
{
    proof {
        lemma_struct_model(s@);
    }
    let ghost ms = struct_model(s@);
    let mut i: usize = 0;
    while i < s.len()
        invariant
            0 <= i <= s.len(),
            ms == struct_model(s@),
            ms.len() == s@.len(),
            forall|x: int| 0 <= x < ms.len() ==> #[trigger] ms[x] == (s@[x].0.0, s@[x].1.model()),
            forall|j: int| 0 <= j < i ==> ms[j].0 != k.0,
        decreases s.len() - i,
    {
        if s[i].0.0 == k.0 {
            proof {
                assert(is_first_key(ms, k.0, i as int));
            }
            return Some(i);
        }
        i = i + 1;
    }
    None
}

proof fn lemma_path_struct_err(ss: Seq<(u64, Value)>, ts: Seq<(u64, Value)>, n: nat, m: nat)
    requires
        path_struct_prefix(ss, ts, n) is Err,
        n <= m <= ss.len(),
    ensures
        path_struct_prefix(ss, ts, m) == path_struct_prefix(ss, ts, n),
    decreases m,
{
    if m > n {
        lemma_path_struct_err(ss, ts, n, (m - 1) as nat);
    }
}

proof fn lemma_path_list_err(sl: Seq<Value>, tl: Seq<Value>, n: nat, m: nat)
    requires
        path_list_prefix(sl, tl, n) is Err,
        n <= m <= sl.len(),
    ensures
        path_list_prefix(sl, tl, m) == path_list_prefix(sl, tl, n),
    decreases m,
{
    if m > n {
        lemma_path_list_err(sl, tl, n, (m - 1) as nat);
    }
}

/// Appends to `out` the path diff of one child pair under selector `sel`.
#[verifier::loop_isolation(false)]
fn child_step(sel: PrcKeyType, sv: &ParamKind, tv: &ParamKind, out: &mut Vec<(Vec<PrcKeyType>, ParamKind)>) -> (r: Result<(), Error>)
    ensures
        match child_diff(sel, sv.model(), tv.model(), path_diff_spec(sv.model(), tv.model())) {
            Ok(c) => r is Ok && entries_model(final(out)@) == entries_model(old(out)@) + c,
            Err(e) => r == Err::<(), Error>(e),
        },
    decreases sv, 1nat,
{
    if sv.deep_eq(tv) {
        proof {
            assert(entries_model(out@) =~= entries_model(out@) + Seq::<PathEntry>::empty());
        }
        return Ok(());
    }
    let sv_leaf = !matches!(sv, ParamKind::List(_)) && !matches!(sv, ParamKind::Struct(_));
    let tv_leaf = !matches!(tv, ParamKind::List(_)) && !matches!(tv, ParamKind::Struct(_));
    if sv_leaf && tv_leaf {
        let mut path: Vec<PrcKeyType> = Vec::new();
        path.push(sel);
        let e = (path, tv.deep_clone());
        proof {
            assert(path@ =~= seq![sel]);
        }
        out.push(e);
        proof {
            assert(entries_model(out@) =~= entries_model(old(out)@) + seq![(seq![sel], tv.model())]);
        }
        return Ok(());
    }
    match generate_path_entries(sv, tv) {
        Err(e) => Err(e),
        Ok(sub) => {
            let ghost start = entries_model(out@);
            let mut i: usize = 0;
            while i < sub.len()
                invariant
                    0 <= i <= sub.len(),
                    entries_model(out@) == start + prefixed(sel, entries_model(sub@)).take(i as int),
                decreases sub.len() - i,
            {
                let mut path: Vec<PrcKeyType> = Vec::new();
                path.push(sel);
                let mut j: usize = 0;
                while j < sub[i].0.len()
                    invariant
                        0 <= i < sub.len(),
                        0 <= j <= sub@[i as int].0@.len(),
                        path@ == seq![sel] + sub@[i as int].0@.take(j as int),
                    decreases sub@[i as int].0@.len() - j,
                {
                    path.push(sub[i].0[j]);
                    proof {
                        assert(sub@[i as int].0@.take(j + 1) =~= sub@[i as int].0@.take(j as int).push(sub@[i as int].0@[j as int]));
                    }
                    j = j + 1;
                }
                proof {
                    assert(sub@[i as int].0@.take(j as int) =~= sub@[i as int].0@);
                }
                let e = (path, sub[i].1.deep_clone());
                let ghost before = out@;
                out.push(e);
                proof {
                    assert(out@ =~= before.push(e));
                    assert(entries_model(out@) =~= entries_model(before).push((seq![sel] + sub@[i as int].0@, sub@[i as int].1.model())));
                }
                proof {
                    assert(entries_model(out@) =~= start + prefixed(sel, entries_model(sub@)).take(i + 1));
                }
                i = i + 1;
            }
            proof {
                assert(prefixed(sel, entries_model(sub@)).take(i as int) =~= prefixed(sel, entries_model(sub@)));
            }
            Ok(())
        },
    }
}

/// The path diff of `source` to `target`, with each path as its selectors.
#[verifier::loop_isolation(false)]
pub fn generate_path_entries(source: &ParamKind, target: &ParamKind) -> (r: Result<Vec<(Vec<PrcKeyType>, ParamKind)>, Error>)
    ensures
        match path_diff_spec(source.model(), target.model()) {
            Ok(d) => r matches Ok(v) && entries_model(v@) == d,
            Err(e) => r == Err::<Vec<(Vec<PrcKeyType>, ParamKind)>, Error>(e),
        },
    decreases source, 0nat,
{
    if source.get_tag() != target.get_tag() {
        return Err(Error::NotSamePType);
    }
    let mut out: Vec<(Vec<PrcKeyType>, ParamKind)> = Vec::new();
    proof {
        assert(entries_model(out@) =~= Seq::<PathEntry>::empty());
    }
    match (source, target) {
        (ParamKind::Struct(a), ParamKind::Struct(b)) => {
            let ghost ss = struct_model(a.0@);
            let ghost ts = struct_model(b.0@);
            proof {
                lemma_struct_model(a.0@);
                lemma_struct_model(b.0@);
            }
            let mut i: usize = 0;
            while i < a.0.len()
                invariant
                    0 <= i <= a.0.len(),
                    path_struct_prefix(ss, ts, i as nat) == Ok::<_, Error>(entries_model(out@)),
                decreases a.0.len() - i,
            {
                match first_key_index(&b.0, a.0[i].0) {
                    Some(j) => {
                        proof {
                            assert(decreases_to!(*source => (*source)->Struct_0));
                            assert(decreases_to!((*source)->Struct_0 => (*source)->Struct_0.0));
                            assert(decreases_to!(a.0 => a.0[i as int]));
                            assert(decreases_to!(a.0[i as int] => a.0[i as int].1));
                        }
                        match child_step(PrcKeyType::StructField(a.0[i].0), &a.0[i].1, &b.0[j].1, &mut out) {
                            Err(e) => {
                                proof {
                                    lemma_path_struct_err(ss, ts, (i + 1) as nat, ss.len());
                                }
                                return Err(e);
                            },
                            Ok(()) => {},
                        }
                    },
                    None => {},
                }
                i = i + 1;
            }
            Ok(out)
        },
        (ParamKind::List(a), ParamKind::List(b)) => {
            let ghost sl = list_model(a.0@);
            let ghost tl = list_model(b.0@);
            proof {
                lemma_list_model(a.0@);
                lemma_list_model(b.0@);
            }
            let mut i: usize = 0;
            while i < a.0.len()
                invariant
                    0 <= i <= a.0.len(),
                    path_list_prefix(sl, tl, i as nat) == Ok::<_, Error>(entries_model(out@)),
                decreases a.0.len() - i,
            {
                if i < b.0.len() {
                    proof {
                        assert(decreases_to!(*source => (*source)->List_0));
                        assert(decreases_to!((*source)->List_0 => (*source)->List_0.0));
                        assert(decreases_to!(a.0 => a.0[i as int]));
                    }
                    match child_step(PrcKeyType::ListIndex(i), &a.0[i], &b.0[i], &mut out) {
                        Err(e) => {
                            proof {
                                lemma_path_list_err(sl, tl, (i + 1) as nat, sl.len());
                            }
                            return Err(e);
                        },
                        Ok(()) => {},
                    }
                }
                i = i + 1;
            }
            Ok(out)
        },
        _ => Ok(out),
    }
}


/// Every path of a path diff has at least one selector.
pub proof fn lemma_paths_nonempty(s: Value, t: Value)
    ensures
        path_diff_spec(s, t) matches Ok(d) ==> forall|i: int| 0 <= i < d.len() ==> #[trigger] d[i].0.len() > 0,
{
    match (s, t) {
        (Value::Struct(ss), Value::Struct(ts)) => lemma_struct_paths_nonempty(ss, ts, ss.len()),
        (Value::List(sl), Value::List(tl)) => lemma_list_paths_nonempty(sl, tl, sl.len()),
        _ => {},
    }
}

proof fn lemma_child_nonempty(sel: PrcKeyType, sv: Value, tv: Value, sub: Result<Seq<PathEntry>, Error>)
    ensures
        child_diff(sel, sv, tv, sub) matches Ok(c) ==> forall|i: int| 0 <= i < c.len() ==> #[trigger] c[i].0.len() > 0,
{
    if let Ok(c) = child_diff(sel, sv, tv, sub) {
        assert forall|i: int| 0 <= i < c.len() implies #[trigger] c[i].0.len() > 0 by {
            if sv != tv && !(sv.is_leaf() && tv.is_leaf()) {
                let sb = sub->Ok_0;
                assert(c[i] == (seq![sel] + sb[i].0, sb[i].1));
            }
        }
    }
}

proof fn lemma_struct_paths_nonempty(ss: Seq<(u64, Value)>, ts: Seq<(u64, Value)>, n: nat)
    ensures
        path_struct_prefix(ss, ts, n) matches Ok(d) ==> forall|i: int| 0 <= i < d.len() ==> #[trigger] d[i].0.len() > 0,
    decreases n,
{
    if n > 0 && n <= ss.len() {
        lemma_struct_paths_nonempty(ss, ts, (n - 1) as nat);
        let k = ss[n - 1].0;
        if exists|i: int| is_first_key(ts, k, i) {
            let tv = ts[choose|i: int| is_first_key(ts, k, i)].1;
            let sel = PrcKeyType::StructField(Hash40(k));
            let sub = path_diff_spec(ss[n - 1].1, tv);
            lemma_child_nonempty(sel, ss[n - 1].1, tv, sub);
            if let Ok(d) = path_struct_prefix(ss, ts, n) {
                let acc = path_struct_prefix(ss, ts, (n - 1) as nat)->Ok_0;
                let c = child_diff(sel, ss[n - 1].1, tv, sub)->Ok_0;
                assert(d == acc + c);
                assert forall|i: int| 0 <= i < d.len() implies #[trigger] d[i].0.len() > 0 by {
                    if i >= acc.len() {
                        assert(d[i] == c[i - acc.len()]);
                    }
                }
            }
        }
    }
}

proof fn lemma_list_paths_nonempty(sl: Seq<Value>, tl: Seq<Value>, n: nat)
    ensures
        path_list_prefix(sl, tl, n) matches Ok(d) ==> forall|i: int| 0 <= i < d.len() ==> #[trigger] d[i].0.len() > 0,
    decreases n,
{
    if n > 0 && n <= sl.len() {
        lemma_list_paths_nonempty(sl, tl, (n - 1) as nat);
        let x = n - 1;
        if x < tl.len() {
            let sel = PrcKeyType::ListIndex(x as usize);
            let sub = path_diff_spec(sl[x], tl[x]);
            lemma_child_nonempty(sel, sl[x], tl[x], sub);
            if let Ok(d) = path_list_prefix(sl, tl, n) {
                let acc = path_list_prefix(sl, tl, (n - 1) as nat)->Ok_0;
                let c = child_diff(sel, sl[x], tl[x], sub)->Ok_0;
                assert(d == acc + c);
                assert forall|i: int| 0 <= i < d.len() implies #[trigger] d[i].0.len() > 0 by {
                    if i >= acc.len() {
                        assert(d[i] == c[i - acc.len()]);
                    }
                }
            }
        }
    }
}

/// The path diff of `source` to `target`: for each leaf of `target` that
/// differs from the leaf of `source` at the same place, its path and value.
pub fn generate_path_diff(source: &ParamKind, target: &ParamKind) -> (r: Result<Vec<(PrcKey, ParamKind)>, Error>)
    ensures
        match path_diff_spec(source.model(), target.model()) {
            Ok(d) => r matches Ok(v) && keyed_model(v@) == d,
            Err(e) => r == Err::<Vec<(PrcKey, ParamKind)>, Error>(e),
        },
{
    proof {
        lemma_paths_nonempty(source.model(), target.model());
    }
    match generate_path_entries(source, target) {
        Err(e) => Err(e),
        Ok(entries) => {
            let mut out: Vec<(PrcKey, ParamKind)> = Vec::new();
            let mut i: usize = 0;
            while i < entries.len()
                invariant
                    0 <= i <= entries.len(),
                    forall|x: int| 0 <= x < entries@.len() ==> #[trigger] entries_model(entries@)[x].0.len() > 0,
                    keyed_model(out@) == entries_model(entries@).take(i as int),
                decreases entries.len() - i,
            {
                proof {
                    assert(entries_model(entries@)[i as int].0.len() > 0);
                }
                let k = chain(&entries[i].0);
                let e = (k, entries[i].1.deep_clone());
                let ghost before = out@;
                out.push(e);
                proof {
                    assert(out@ =~= before.push(e));
                    assert(e.0.selectors() == entries@[i as int].0@);
                    assert(e.1.model() == entries@[i as int].1.model());
                    assert(keyed_model(before).len() == before.len());
                    assert(entries_model(entries@).take(i as int).len() == i);
                    assert(before.len() == i);
                    assert(out@[i as int] == e);
                    assert(keyed_model(out@)[i as int] == (e.0.selectors(), e.1.model()));
                    assert(entries_model(entries@)[i as int] == (entries@[i as int].0@, entries@[i as int].1.model()));
                    assert(keyed_model(out@).drop_last() =~= keyed_model(before));
                    assert(keyed_model(out@) =~= entries_model(entries@).take(i + 1));
                }
                i = i + 1;
            }
            proof {
                assert(entries_model(entries@).take(i as int) =~= entries_model(entries@));
            }
            Ok(out)
        },
    }
}

/// Sets the leaf of `v` at `key` to `x`; leaves `v` unchanged where the path
/// does not resolve or ends at a composite.
fn set_in_place(v: &mut ParamKind, key: &PrcKey, x: &ParamKind)
    ensures
        final(v).model() == set_path(old(v).model(), key.selectors(), x.model()),
    decreases key,
{
    let ghost path = key.selectors();
    proof {
        assert(path[0] == key.ty);
        match &key.next {
            Some(n) => {
                assert(path.drop_first() =~= n.selectors());
            },
            None => {
                assert(path.len() == 1);
            },
        }
    }
    let mut taken = ParamKind::Bool(false);
    core::mem::swap(v, &mut taken);
    match (key.ty, taken) {
        (PrcKeyType::StructField(h), ParamKind::Struct(mut s)) => {
            proof {
                lemma_struct_model(s.0@);
            }
            let ghost es = struct_model(s.0@);
            let ghost before = s.0@;
            match first_key_index(&s.0, h) {
                Some(j) => {
                    let (k, mut elem) = s.0.remove(j);
                    match &key.next {
                        None => {
                            if !matches!(elem, ParamKind::List(_)) && !matches!(elem, ParamKind::Struct(_)) {
                                elem = x.deep_clone();
                            }
                        },
                        Some(n) => {
                            proof {
                                assert(decreases_to!(*key => key.next));
                            }
                            set_in_place(&mut elem, n, x);
                        },
                    }
                    s.0.insert(j, (k, elem));
                    proof {
                        assert(s.0@ =~= before.update(j as int, (k, elem)));
                        lemma_struct_model(s.0@);
                        if key.next is None && !es[j as int].1.is_leaf() {
                            assert(struct_model(s.0@) =~= es);
                        } else {
                            assert(struct_model(s.0@) =~= es.update(j as int, (h.0, elem.model())));
                        }
                    }
                },
                None => {},
            }
            *v = ParamKind::Struct(s);
        },
        (PrcKeyType::ListIndex(n), ParamKind::List(mut l)) => {
            proof {
                lemma_list_model(l.0@);
            }
            let ghost ls = list_model(l.0@);
            let ghost before = l.0@;
            if n < l.0.len() {
                let mut elem = l.0.remove(n);
                match &key.next {
                    None => {
                        if !matches!(elem, ParamKind::List(_)) && !matches!(elem, ParamKind::Struct(_)) {
                            elem = x.deep_clone();
                        }
                    },
                    Some(nx) => {
                        proof {
                            assert(decreases_to!(*key => key.next));
                        }
                        set_in_place(&mut elem, nx, x);
                    },
                }
                l.0.insert(n, elem);
                proof {
                    assert(l.0@ =~= before.update(n as int, elem));
                    lemma_list_model(l.0@);
                    if key.next is None && !ls[n as int].is_leaf() {
                        assert(list_model(l.0@) =~= ls);
                    } else {
                        assert(list_model(l.0@) =~= ls.update(n as int, elem.model()));
                    }
                }
            }
            *v = ParamKind::List(l);
        },
        (_, other) => {
            *v = other;
        },
    }
}

/// Applies each path-addressed change of `diff` to `source`, in order; a
/// change whose path does not resolve to a leaf is skipped.
pub fn apply_path_diff(diff: &Vec<(PrcKey, ParamKind)>, source: &mut ParamKind)
    ensures
        final(source).model() == apply_paths(old(source).model(), keyed_model(diff@), diff@.len()),
{
    let ghost start = source.model();
    let mut i: usize = 0;
    while i < diff.len()
        invariant
            0 <= i <= diff.len(),
            start == old(source).model(),
            source.model() == apply_paths(start, keyed_model(diff@), i as nat),
        decreases diff.len() - i,
    {
        set_in_place(source, &diff[i].0, &diff[i].1);
        i = i + 1;
    }
}

} // verus!
