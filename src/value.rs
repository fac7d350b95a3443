//! The parameter tree and its mathematical model.
use vstd::prelude::*;

use crate::Error;

verus! {

/// A 40-bit name hash, the key of a struct entry.
#[derive(Debug, Clone, Copy, PartialEq, Eq, Structural)]
pub struct Hash40(pub u64);

/// An ordered list of params; position is its only identity.
#[derive(Debug)]
pub struct ParamList(pub Vec<ParamKind>);

/// An ordered sequence of keyed params; keys may repeat.
#[derive(Debug)]
pub struct ParamStruct(pub Vec<(Hash40, ParamKind)>);

/// A node of a parameter tree. A float is held as its IEEE-754 bits.
#[derive(Debug)]
pub enum ParamKind {
    Bool(bool),
    I8(i8),
    U8(u8),
    I16(i16),
    U16(u16),
    I32(i32),
    U32(u32),
    Float(u32),
    Hash(Hash40),
    Str(String),
    List(ParamList),
    Struct(ParamStruct),
}

/// The mathematical model of a tree node.
pub enum Value {
    Bool(bool),
    I8(i8),
    U8(u8),
    I16(i16),
    U16(u16),
    I32(i32),
    U32(u32),
    Float(u32),
    Hash(u64),
    Str(Seq<char>),
    List(Seq<Value>),
    Struct(Seq<(u64, Value)>),
}

/// The tag of a node: which of the variants it is.
#[derive(Debug, Clone, Copy, PartialEq, Eq, Structural)]
pub enum ParamTag {
    Bool,
    I8,
    U8,
    I16,
    U16,
    I32,
    U32,
    Float,
    Hash,
    Str,
    List,
    Struct,
}

pub open spec fn list_model(s: Seq<ParamKind>) -> Seq<Value>
    decreases s,
{
    if s.len() == 0 {
        Seq::empty()
    } else {
        list_model(s.drop_last()).push(s.last().model())
    }
}

pub open spec fn struct_model(s: Seq<(Hash40, ParamKind)>) -> Seq<(u64, Value)>
    decreases s,
{
    if s.len() == 0 {
        Seq::empty()
    } else {
        struct_model(s.drop_last()).push((s.last().0.0, s.last().1.model()))
    }
}

impl ParamKind {
    pub open spec fn model(self) -> Value
        decreases self,
    {
        match self {
            ParamKind::Bool(b) => Value::Bool(b),
            ParamKind::I8(x) => Value::I8(x),
            ParamKind::U8(x) => Value::U8(x),
            ParamKind::I16(x) => Value::I16(x),
            ParamKind::U16(x) => Value::U16(x),
            ParamKind::I32(x) => Value::I32(x),
            ParamKind::U32(x) => Value::U32(x),
            ParamKind::Float(x) => Value::Float(x),
            ParamKind::Hash(h) => Value::Hash(h.0),
            ParamKind::Str(s) => Value::Str(s@),
            ParamKind::List(l) => Value::List(list_model(l.0@)),
            ParamKind::Struct(s) => Value::Struct(struct_model(s.0@)),
        }
    }
}


impl Value {
    pub open spec fn tag(self) -> ParamTag {
        match self {
            Value::Bool(_) => ParamTag::Bool,
            Value::I8(_) => ParamTag::I8,
            Value::U8(_) => ParamTag::U8,
            Value::I16(_) => ParamTag::I16,
            Value::U16(_) => ParamTag::U16,
            Value::I32(_) => ParamTag::I32,
            Value::U32(_) => ParamTag::U32,
            Value::Float(_) => ParamTag::Float,
            Value::Hash(_) => ParamTag::Hash,
            Value::Str(_) => ParamTag::Str,
            Value::List(_) => ParamTag::List,
            Value::Struct(_) => ParamTag::Struct,
        }
    }

    pub open spec fn is_leaf(self) -> bool {
        !(self is List) && !(self is Struct)
    }
}

pub proof fn lemma_list_model(s: Seq<ParamKind>)
    ensures
        list_model(s).len() == s.len(),
        forall|i: int| 0 <= i < s.len() ==> #[trigger] list_model(s)[i] == s[i].model(),
    decreases s.len(),
{
    if s.len() > 0 {
        lemma_list_model(s.drop_last());
    }
}

pub proof fn lemma_struct_model(s: Seq<(Hash40, ParamKind)>)
    ensures
        struct_model(s).len() == s.len(),
        forall|i: int| 0 <= i < s.len() ==> #[trigger] struct_model(s)[i] == (s[i].0.0, s[i].1.model()),
    decreases s.len(),
{
    if s.len() > 0 {
        lemma_struct_model(s.drop_last());
    }
}

/// The model of a diff result.
pub open spec fn diff_model(r: Result<Option<ParamKind>, Error>) -> Result<Option<Value>, Error> {
    match r {
        Ok(Some(p)) => Ok(Some(p.model())),
        Ok(None) => Ok(None),
        Err(e) => Err(e),
    }
}

impl ParamKind {
    /// The tag of this node.
    pub fn get_tag(&self) -> (r: ParamTag)
        ensures
            r == self.model().tag(),
    {
        match self {
            ParamKind::Bool(_) => ParamTag::Bool,
            ParamKind::I8(_) => ParamTag::I8,
            ParamKind::U8(_) => ParamTag::U8,
            ParamKind::I16(_) => ParamTag::I16,
            ParamKind::U16(_) => ParamTag::U16,
            ParamKind::I32(_) => ParamTag::I32,
            ParamKind::U32(_) => ParamTag::U32,
            ParamKind::Float(_) => ParamTag::Float,
            ParamKind::Hash(_) => ParamTag::Hash,
            ParamKind::Str(_) => ParamTag::Str,
            ParamKind::List(_) => ParamTag::List,
            ParamKind::Struct(_) => ParamTag::Struct,
        }
    }

    /// Whether two nodes are equal, where this one is a leaf.
    pub fn leaf_eq(&self, other: &ParamKind) -> (r: bool)
        requires
            self.model().is_leaf(),
        ensures
            r == (self.model() == other.model()),
    {
        match (self, other) {
            (ParamKind::Bool(a), ParamKind::Bool(b)) => *a == *b,
            (ParamKind::I8(a), ParamKind::I8(b)) => *a == *b,
            (ParamKind::U8(a), ParamKind::U8(b)) => *a == *b,
            (ParamKind::I16(a), ParamKind::I16(b)) => *a == *b,
            (ParamKind::U16(a), ParamKind::U16(b)) => *a == *b,
            (ParamKind::I32(a), ParamKind::I32(b)) => *a == *b,
            (ParamKind::U32(a), ParamKind::U32(b)) => *a == *b,
            (ParamKind::Float(a), ParamKind::Float(b)) => *a == *b,
            (ParamKind::Hash(a), ParamKind::Hash(b)) => a.0 == b.0,
            (ParamKind::Str(a), ParamKind::Str(b)) => *a == *b,
            _ => false,
        }
    }

    /// Whether two trees are structurally equal.
    pub fn deep_eq(&self, other: &ParamKind) -> (r: bool)
        ensures
            r == (self.model() == other.model()),
        decreases self,
    {
        match (self, other) {
            (ParamKind::List(a), ParamKind::List(b)) => {
                proof {
                    lemma_list_model(a.0@);
                    lemma_list_model(b.0@);
                }
                if a.0.len() != b.0.len() {
                    return false;
                }
                let mut i: usize = 0;
                while i < a.0.len()
                    invariant
                        0 <= i <= a.0.len(),
                        a.0.len() == b.0.len(),
                        *self == ParamKind::List(*a),
                        *other == ParamKind::List(*b),
                        list_model(a.0@).len() == a.0@.len(),
                        list_model(b.0@).len() == b.0@.len(),
                        forall|x: int| 0 <= x < a.0@.len() ==> #[trigger] list_model(a.0@)[x] == a.0@[x].model(),
                        forall|x: int| 0 <= x < b.0@.len() ==> #[trigger] list_model(b.0@)[x] == b.0@[x].model(),
                        forall|x: int| 0 <= x < i ==> #[trigger] list_model(a.0@)[x] == list_model(b.0@)[x],
                    decreases a.0.len() - i,
                {
                    proof {
                        assert(decreases_to!(*self => (*self)->List_0));
                        assert(decreases_to!((*self)->List_0 => (*self)->List_0.0));
                        assert(decreases_to!(a.0 => a.0[i as int]));
                    }
                    if !a.0[i].deep_eq(&b.0[i]) {
                        proof {
                            assert(list_model(a.0@)[i as int] != list_model(b.0@)[i as int]);
                        }
                        return false;
                    }
                    i = i + 1;
                }
                proof {
                    assert(list_model(a.0@) =~= list_model(b.0@));
                }
                true
            },
            (ParamKind::Struct(a), ParamKind::Struct(b)) => {
                proof {
                    lemma_struct_model(a.0@);
                    lemma_struct_model(b.0@);
                }
                if a.0.len() != b.0.len() {
                    return false;
                }
                let mut i: usize = 0;
                while i < a.0.len()
                    invariant
                        0 <= i <= a.0.len(),
                        a.0.len() == b.0.len(),
                        *self == ParamKind::Struct(*a),
                        *other == ParamKind::Struct(*b),
                        struct_model(a.0@).len() == a.0@.len(),
                        struct_model(b.0@).len() == b.0@.len(),
                        forall|x: int| 0 <= x < a.0@.len() ==> #[trigger] struct_model(a.0@)[x] == (a.0@[x].0.0, a.0@[x].1.model()),
                        forall|x: int| 0 <= x < b.0@.len() ==> #[trigger] struct_model(b.0@)[x] == (b.0@[x].0.0, b.0@[x].1.model()),
                        forall|x: int| 0 <= x < i ==> #[trigger] struct_model(a.0@)[x] == struct_model(b.0@)[x],
                    decreases a.0.len() - i,
                {
                    proof {
                        assert(decreases_to!(*self => (*self)->Struct_0));
                        assert(decreases_to!((*self)->Struct_0 => (*self)->Struct_0.0));
                        assert(decreases_to!(a.0 => a.0[i as int]));
                        assert(decreases_to!(a.0[i as int] => a.0[i as int].1));
                    }
                    if a.0[i].0.0 != b.0[i].0.0 || !a.0[i].1.deep_eq(&b.0[i].1) {
                        proof {
                            assert(struct_model(a.0@)[i as int] != struct_model(b.0@)[i as int]);
                        }
                        return false;
                    }
                    i = i + 1;
                }
                proof {
                    assert(struct_model(a.0@) =~= struct_model(b.0@));
                }
                true
            },
            (ParamKind::List(_), _) => false,
            (ParamKind::Struct(_), _) => false,
            _ => self.leaf_eq(other),
        }
    }

    /// A copy of this node, owned independently of it.
    pub fn deep_clone(&self) -> (r: ParamKind)
        ensures
            r.model() == self.model(),
        decreases self,
    {
        match self {
            ParamKind::Bool(b) => ParamKind::Bool(*b),
            ParamKind::I8(x) => ParamKind::I8(*x),
            ParamKind::U8(x) => ParamKind::U8(*x),
            ParamKind::I16(x) => ParamKind::I16(*x),
            ParamKind::U16(x) => ParamKind::U16(*x),
            ParamKind::I32(x) => ParamKind::I32(*x),
            ParamKind::U32(x) => ParamKind::U32(*x),
            ParamKind::Float(x) => ParamKind::Float(*x),
            ParamKind::Hash(h) => ParamKind::Hash(*h),
            ParamKind::Str(s) => ParamKind::Str(s.clone()),
            ParamKind::List(l) => {
                proof {
                    assert(decreases_to!(*self => (*self)->List_0));
                }
                ParamKind::List(l.deep_clone())
            },
            ParamKind::Struct(s) => {
                proof {
                    assert(decreases_to!(*self => (*self)->Struct_0));
                }
                ParamKind::Struct(s.deep_clone())
            },
        }
    }
}

impl ParamList {
    /// A copy of this list, owned independently of it.
    pub fn deep_clone(&self) -> (r: ParamList)
        ensures
            list_model(r.0@) == list_model(self.0@),
        decreases self,
    {
        let mut out: Vec<ParamKind> = Vec::new();
        let mut i: usize = 0;
        while i < self.0.len()
            invariant
                0 <= i <= self.0.len(),
                list_model(out@) == list_model(self.0@.take(i as int)),
            decreases self.0.len() - i,
        {
            proof {
                assert(decreases_to!(self.0 => self.0[i as int]));
            }
            let c = self.0[i].deep_clone();
            proof {
                assert(out@.push(c).drop_last() =~= out@);
                assert(self.0@.take(i + 1).drop_last() =~= self.0@.take(i as int));
            }
            out.push(c);
            i = i + 1;
        }
        proof {
            assert(self.0@.take(i as int) =~= self.0@);
        }
        ParamList(out)
    }
}

impl ParamStruct {
    /// A copy of this struct, owned independently of it.
    pub fn deep_clone(&self) -> (r: ParamStruct)
        ensures
            struct_model(r.0@) == struct_model(self.0@),
        decreases self,
    {
        let mut out: Vec<(Hash40, ParamKind)> = Vec::new();
        let mut i: usize = 0;
        while i < self.0.len()
            invariant
                0 <= i <= self.0.len(),
                struct_model(out@) == struct_model(self.0@.take(i as int)),
            decreases self.0.len() - i,
        {
            proof {
                assert(decreases_to!(self.0 => self.0[i as int]));
                assert(decreases_to!(self.0[i as int] => self.0[i as int].1));
            }
            let c = (self.0[i].0, self.0[i].1.deep_clone());
            proof {
                assert(out@.push(c).drop_last() =~= out@);
                assert(self.0@.take(i + 1).drop_last() =~= self.0@.take(i as int));
            }
            out.push(c);
            i = i + 1;
        }
        proof {
            assert(self.0@.take(i as int) =~= self.0@);
        }
        ParamStruct(out)
    }
}

} // verus!
