//! Applying a tree-shaped patch to a source tree.
use vstd::prelude::*;

use crate::Error;
use crate::diff::{count_key, dummy, find_instance_of, has_nth, is_nth, lemma_count_le, lemma_count_step, lemma_nth_unique};
use crate::hash::hash_label;
use crate::value::{ParamKind, ParamList, ParamStruct, Value, lemma_list_model, lemma_struct_model, list_model, struct_model};

verus! {

broadcast use vstd::std_specs::hash::group_hash_axioms;

/// The tree that applying patch `p` to `s` gives.
pub open spec fn apply_spec(p: Value, s: Value) -> Result<Value, Error>
    decreases p,
{
    if p.tag() != s.tag() {
        Err(Error::NotSamePType)
    } else {
        match (p, s) {
            (Value::Struct(ps), Value::Struct(ss)) => match apply_struct_prefix(ps, ss, ps.len()) {
                Ok(r) => Ok(Value::Struct(r)),
                Err(e) => Err(e),
            },
            (Value::List(pl), Value::List(sl)) => if pl.len() < sl.len() {
                Err(Error::ShortPatchList)
            } else {
                match apply_list_prefix(pl, sl, pl.len()) {
                    Ok(r) => Ok(Value::List(r)),
                    Err(e) => Err(e),
                }
            },
            _ => Ok(p),
        }
    }
}

/// The entries of struct `ss` after the first `n` entries of patch `ps`
/// were applied: each to the same occurrence of its key, or appended.
pub open spec fn apply_struct_prefix(ps: Seq<(u64, Value)>, ss: Seq<(u64, Value)>, n: nat) -> Result<
    Seq<(u64, Value)>,
    Error,
>
    decreases ps, n,
{
    if n == 0 || n > ps.len() {
        Ok(ss)
    } else {
        match apply_struct_prefix(ps, ss, (n - 1) as nat) {
            Err(e) => Err(e),
            Ok(cur) => {
                let k = ps[n - 1].0;
                let j = count_key(ps.take(n - 1), k);
                if has_nth(cur, k, j) {
                    let idx = choose|i: int| is_nth(cur, k, j, i);
                    match apply_spec(ps[n - 1].1, cur[idx].1) {
                        Err(e) => Err(e),
                        Ok(v) => Ok(cur.update(idx, (k, v))),
                    }
                } else {
                    Ok(cur.push(ps[n - 1]))
                }
            },
        }
    }
}

/// The elements of list `sl` after the first `n` elements of patch `pl`
/// were applied: a dummy sentinel leaves its position alone.
pub open spec fn apply_list_prefix(pl: Seq<Value>, sl: Seq<Value>, n: nat) -> Result<Seq<Value>, Error>
    decreases pl, n,
{
    if n == 0 || n > pl.len() {
        Ok(sl)
    } else {
        match apply_list_prefix(pl, sl, (n - 1) as nat) {
            Err(e) => Err(e),
            Ok(cur) => {
                let i = n - 1;
                if pl[i] == dummy() {
                    Ok(cur)
                } else if i < cur.len() {
                    match apply_spec(pl[i], cur[i]) {
                        Err(e) => Err(e),
                        Ok(v) => Ok(cur.update(i, v)),
                    }
                } else {
                    Ok(cur.push(pl[i]))
                }
            },
        }
    }
}

proof fn lemma_apply_struct_err(ps: Seq<(u64, Value)>, ss: Seq<(u64, Value)>, n: nat, m: nat)
    requires
        apply_struct_prefix(ps, ss, n) is Err,
        n <= m <= ps.len(),
    ensures
        apply_struct_prefix(ps, ss, m) == apply_struct_prefix(ps, ss, n),
    decreases m,
{
    if m > n {
        lemma_apply_struct_err(ps, ss, n, (m - 1) as nat);
    }
}

proof fn lemma_apply_list_err(pl: Seq<Value>, sl: Seq<Value>, n: nat, m: nat)
    requires
        apply_list_prefix(pl, sl, n) is Err,
        n <= m <= pl.len(),
    ensures
        apply_list_prefix(pl, sl, m) == apply_list_prefix(pl, sl, n),
    decreases m,
{
    if m > n {
        lemma_apply_list_err(pl, sl, n, (m - 1) as nat);
    }
}


/// Applies `patch` to the struct `source` in place; on an error `source` is
/// left in an unspecified state.
#[verifier::loop_isolation(false)]
fn apply_struct_in_place(patch: &ParamStruct, source: &mut ParamStruct) -> (r: Result<(), Error>)
    ensures
        match apply_struct_prefix(struct_model(patch.0@), struct_model(old(source).0@), patch.0@.len()) {
            Ok(v) => r is Ok && struct_model(final(source).0@) == v,
            Err(e) => r == Err::<(), Error>(e),
        },
    decreases patch,
{
    let ghost ps = struct_model(patch.0@);
    let ghost ss0 = struct_model(source.0@);
    proof {
        lemma_struct_model(patch.0@);
    }
    let mut seen: std::collections::HashMap<u64, usize> = std::collections::HashMap::new();
    let mut i: usize = 0;
    while i < patch.0.len()
        invariant
            0 <= i <= patch.0.len(),
            apply_struct_prefix(ps, ss0, i as nat) == Ok::<_, Error>(struct_model(source.0@)),
            forall|k: u64| seen@.contains_key(k) ==> seen@[k] == count_key(ps.take(i as int), k),
            forall|k: u64| !seen@.contains_key(k) ==> count_key(ps.take(i as int), k) == 0,
        decreases patch.0.len() - i,
    {
        let key = patch.0[i].0;
        let j: usize = match seen.get(&key.0) {
            Some(c) => *c,
            None => 0,
        };
        proof {
            lemma_count_le(ps.take(i as int), key.0);
            lemma_count_step(ps, key.0, i as int);
            assert forall|k: u64| k != key.0 implies count_key(ps.take(i + 1), k) == count_key(ps.take(i as int), k) by {
                lemma_count_step(ps, k, i as int);
            }
            lemma_struct_model(source.0@);
        }
        seen.insert(key.0, j + 1);
        let ghost cur = struct_model(source.0@);
        let ghost before = source.0@;
        match find_instance_of(&source.0, key, j) {
            Some(idx) => {
                proof {
                    lemma_nth_unique(cur, key.0, j as nat, idx as int);
                    assert(decreases_to!(patch.0 => patch.0[i as int]));
                    assert(decreases_to!(patch.0[i as int] => patch.0[i as int].1));
                }
                let (k, mut elem) = source.0.remove(idx);
                let res = apply_in_place(&patch.0[i].1, &mut elem);
                source.0.insert(idx, (k, elem));
                match res {
                    Err(e) => {
                        proof {
                            lemma_apply_struct_err(ps, ss0, (i + 1) as nat, ps.len());
                        }
                        return Err(e);
                    },
                    Ok(()) => {},
                }
                proof {
                    assert(source.0@ =~= before.update(idx as int, (k, elem)));
                    lemma_struct_model(source.0@);
                    assert(struct_model(source.0@) =~= cur.update(idx as int, (key.0, elem.model())));
                }
            },
            None => {
                let c = (key, patch.0[i].1.deep_clone());
                proof {
                    assert(source.0@.push(c).drop_last() =~= source.0@);
                }
                source.0.push(c);
            },
        }
        proof {
            assert(ps.take(i + 1).drop_last() =~= ps.take(i as int));
        }
        i = i + 1;
    }
    Ok(())
}

/// Applies `patch` to the list `source` in place, given that the patch is
/// at least as long; on an error `source` is left in an unspecified state.
#[verifier::loop_isolation(false)]
fn apply_list_in_place(patch: &ParamList, source: &mut ParamList) -> (r: Result<(), Error>)
    ensures
        match apply_list_prefix(list_model(patch.0@), list_model(old(source).0@), patch.0@.len()) {
            Ok(v) => r is Ok && list_model(final(source).0@) == v,
            Err(e) => r == Err::<(), Error>(e),
        },
    decreases patch,
{
    let ghost pl = list_model(patch.0@);
    let ghost sl0 = list_model(source.0@);
    proof {
        lemma_list_model(patch.0@);
    }
    let dummy_hash = hash_label("dummy");
    proof {
        reveal_strlit("dummy");
        assert("dummy"@ =~= seq!['d', 'u', 'm', 'm', 'y']);
    }
    let mut i: usize = 0;
    while i < patch.0.len()
        invariant
            0 <= i <= patch.0.len(),
            apply_list_prefix(pl, sl0, i as nat) == Ok::<_, Error>(list_model(source.0@)),
        decreases patch.0.len() - i,
    {
        proof {
            lemma_list_model(source.0@);
        }
        let is_dummy = match &patch.0[i] {
            ParamKind::Hash(h) => h.0 == dummy_hash.0,
            _ => false,
        };
        if !is_dummy {
            let ghost cur = list_model(source.0@);
            let ghost before = source.0@;
            if i < source.0.len() {
                proof {
                    assert(decreases_to!(patch.0 => patch.0[i as int]));
                }
                let mut elem = source.0.remove(i);
                let res = apply_in_place(&patch.0[i], &mut elem);
                source.0.insert(i, elem);
                match res {
                    Err(e) => {
                        proof {
                            lemma_apply_list_err(pl, sl0, (i + 1) as nat, pl.len());
                        }
                        return Err(e);
                    },
                    Ok(()) => {},
                }
                proof {
                    assert(source.0@ =~= before.update(i as int, elem));
                    lemma_list_model(source.0@);
                    assert(list_model(source.0@) =~= cur.update(i as int, elem.model()));
                }
            } else {
                let c = patch.0[i].deep_clone();
                proof {
                    assert(source.0@.push(c).drop_last() =~= source.0@);
                }
                source.0.push(c);
            }
        }
        i = i + 1;
    }
    Ok(())
}


/// Applies `patch` to `source` in place; on an error `source` is left in an
/// unspecified state.
fn apply_in_place(patch: &ParamKind, source: &mut ParamKind) -> (r: Result<(), Error>)
    ensures
        match apply_spec(patch.model(), old(source).model()) {
            Ok(v) => r is Ok && final(source).model() == v,
            Err(e) => r == Err::<(), Error>(e),
        },
    decreases patch,
{
    if patch.get_tag() != source.get_tag() {
        return Err(Error::NotSamePType);
    }
    let mut taken = ParamKind::Bool(false);
    core::mem::swap(source, &mut taken);
    proof {
        if let ParamKind::Struct(p) = patch {
            lemma_struct_model(p.0@);
        }
        if let ParamKind::List(p) = patch {
            lemma_list_model(p.0@);
        }
        if let ParamKind::List(l) = &taken {
            lemma_list_model(l.0@);
        }
    }
    match (patch, taken) {
        (ParamKind::Struct(p), ParamKind::Struct(mut s)) => {
            proof {
                assert(decreases_to!(*patch => (*patch)->Struct_0));
            }
            let r = apply_struct_in_place(p, &mut s);
            *source = ParamKind::Struct(s);
            r
        },
        (ParamKind::List(p), ParamKind::List(mut l)) => {
            if p.0.len() < l.0.len() {
                *source = ParamKind::List(l);
                return Err(Error::ShortPatchList);
            }
            proof {
                assert(decreases_to!(*patch => (*patch)->List_0));
            }
            let r = apply_list_in_place(p, &mut l);
            *source = ParamKind::List(l);
            r
        },
        (_, _) => {
            *source = patch.deep_clone();
            Ok(())
        },
    }
}

/// Applies a tree-shaped patch to `source`. On an error `source` is left
/// as it was.
pub fn apply_patch(patch: &ParamKind, source: &mut ParamKind) -> (r: Result<(), Error>)
    ensures
        match apply_spec(patch.model(), old(source).model()) {
            Ok(v) => r is Ok && final(source).model() == v,
            Err(e) => r == Err::<(), Error>(e) && final(source).model() == old(source).model(),
        },
{
    let mut work = source.deep_clone();
    let r = apply_in_place(patch, &mut work);
    if r.is_ok() {
        *source = work;
    }
    r
}

/// Applies a struct patch to the struct `source`. On an error `source` is
/// left as it was.
pub fn apply_patch_struct(patch: &ParamStruct, source: &mut ParamStruct) -> (r: Result<(), Error>)
    ensures
        match apply_spec(Value::Struct(struct_model(patch.0@)), Value::Struct(struct_model(old(source).0@))) {
            Ok(v) => r is Ok && Value::Struct(struct_model(final(source).0@)) == v,
            Err(e) => r == Err::<(), Error>(e) && struct_model(final(source).0@) == struct_model(old(source).0@),
        },
{
    proof {
        lemma_struct_model(patch.0@);
    }
    let mut work = source.deep_clone();
    let r = apply_struct_in_place(patch, &mut work);
    if r.is_ok() {
        *source = work;
    }
    r
}

/// Applies a list patch to the list `source`. On an error `source` is left
/// as it was.
pub fn apply_patch_list(patch: &ParamList, source: &mut ParamList) -> (r: Result<(), Error>)
    ensures
        match apply_spec(Value::List(list_model(patch.0@)), Value::List(list_model(old(source).0@))) {
            Ok(v) => r is Ok && Value::List(list_model(final(source).0@)) == v,
            Err(e) => r == Err::<(), Error>(e) && list_model(final(source).0@) == list_model(old(source).0@),
        },
{
    proof {
        lemma_list_model(patch.0@);
        lemma_list_model(source.0@);
    }
    if patch.0.len() < source.0.len() {
        return Err(Error::ShortPatchList);
    }
    let mut work = source.deep_clone();
    let r = apply_list_in_place(patch, &mut work);
    if r.is_ok() {
        *source = work;
    }
    r
}

} // verus!
