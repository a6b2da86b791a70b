//! The runtime value model: the tagged union of script values, its type tags,
//! and the restricted subset of values usable as map keys.

pub mod display;
pub mod operations;

use vstd::prelude::*;

use crate::error::ASSyntaxError;
use crate::error::SynErr;

verus! {

/// Mathematical model of a type tag.
pub enum Ty {
    Any,
    Bool,
    Int,
    String,
    List,
    Mapping,
    Label,
    VarRef,
    Null,
    Object(Seq<char>),
}

/// Mathematical model of a map key.
pub enum KeyVal {
    Bool(bool),
    Int(i64),
    Str(Seq<char>),
}

/// Mathematical model of a runtime value.
pub enum Val {
    Empty,
    Bool(bool),
    Int(i64),
    Str(Seq<char>),
    List(Seq<Val>),
    Mapping(Seq<(KeyVal, Val)>),
    Label(Option<Seq<char>>),
    VarRef { name: Seq<char>, flag: bool },
    Null,
    Object { spec: Seq<char>, fields: Seq<(Seq<char>, Val)> },
}

/// Type tag for AdventureScript values. `Any` is used only in command
/// signatures, never as a runtime value's tag.
#[derive(Debug)]
pub enum ASType {
    Any,
    Bool,
    Int,
    String,
    List,
    Mapping,
    Label,
    VarRef,
    Null,
    Object(String),
}

impl View for ASType {
    type V = Ty;

    open spec fn view(&self) -> Ty {
        match self {
            ASType::Any => Ty::Any,
            ASType::Bool => Ty::Bool,
            ASType::Int => Ty::Int,
            ASType::String => Ty::String,
            ASType::List => Ty::List,
            ASType::Mapping => Ty::Mapping,
            ASType::Label => Ty::Label,
            ASType::VarRef => Ty::VarRef,
            ASType::Null => Ty::Null,
            ASType::Object(s) => Ty::Object(s@),
        }
    }
}

/// A value usable as a key in a `Map`: the restricted subset of
/// `ASVariable` with total structural equality.
#[derive(Debug)]
pub enum KeyVar {
    Bool(bool),
    Int(i64),
    String(String),
}

impl View for KeyVar {
    type V = KeyVal;

    open spec fn view(&self) -> KeyVal {
        match self {
            KeyVar::Bool(b) => KeyVal::Bool(*b),
            KeyVar::Int(i) => KeyVal::Int(*i),
            KeyVar::String(s) => KeyVal::Str(s@),
        }
    }
}

/// An AdventureScript runtime value.
///
/// `Empty` is an internal sentinel produced by the evaluator for an empty
/// operand segment, used only to detect unary-operator position; it never
/// escapes evaluation.
#[derive(Debug)]
pub enum ASVariable {
    Empty,
    Bool(bool),
    Int(i64),
    String(String),
    List(Vec<ASVariable>),
    Mapping(Vec<(KeyVar, ASVariable)>),
    Label(Option<String>),
    VarRef { name: String, flag: bool },
    Null,
    Object { spec: String, fields: Vec<(String, ASVariable)> },
}

/// The model of a value.
pub open spec fn val_of(v: ASVariable) -> Val
    decreases v,
    via val_of_decreases
{
    match v {
        ASVariable::Empty => Val::Empty,
        ASVariable::Bool(b) => Val::Bool(b),
        ASVariable::Int(i) => Val::Int(i),
        ASVariable::String(s) => Val::Str(s@),
        ASVariable::List(l) => Val::List(vals_of(l@)),
        ASVariable::Mapping(m) => Val::Mapping(entries_of(m@)),
        ASVariable::Label(n) => Val::Label(
            match n {
                Option::Some(s) => Option::Some(s@),
                Option::None => Option::None,
            },
        ),
        ASVariable::VarRef { name, flag } => Val::VarRef { name: name@, flag },
        ASVariable::Null => Val::Null,
        ASVariable::Object { spec, fields } => Val::Object {
            spec: spec@,
            fields: fields_of(fields@),
        },
    }
}

/// The models of the elements of a list.
pub open spec fn vals_of(l: Seq<ASVariable>) -> Seq<Val>
    decreases l,
{
    if l.len() == 0 {
        Seq::empty()
    } else {
        vals_of(l.drop_last()).push(val_of(l.last()))
    }
}

/// The models of the entries of a map.
pub open spec fn entries_of(m: Seq<(KeyVar, ASVariable)>) -> Seq<(KeyVal, Val)>
    decreases m,
    via entries_of_decreases
{
    if m.len() == 0 {
        Seq::empty()
    } else {
        entries_of(m.drop_last()).push((m.last().0@, val_of(m.last().1)))
    }
}

/// The models of the fields of an object.
pub open spec fn fields_of(m: Seq<(String, ASVariable)>) -> Seq<(Seq<char>, Val)>
    decreases m,
    via fields_of_decreases
{
    if m.len() == 0 {
        Seq::empty()
    } else {
        fields_of(m.drop_last()).push((m.last().0@, val_of(m.last().1)))
    }
}

#[via_fn]
proof fn val_of_decreases(v: ASVariable) {
    match v {
        ASVariable::List(l) => {
            assert(decreases_to!(v => l));
            assert(decreases_to!(l => l@));
        },
        ASVariable::Mapping(m) => {
            assert(decreases_to!(v => m));
            assert(decreases_to!(m => m@));
        },
        ASVariable::Object { spec, fields } => {
            assert(decreases_to!(v => fields));
            assert(decreases_to!(fields => fields@));
        },
        _ => {},
    }
}

#[via_fn]
proof fn entries_of_decreases(m: Seq<(KeyVar, ASVariable)>) {
    if m.len() > 0 {
        assert(decreases_to!(m => m.last()));
        assert(decreases_to!(m.last() => m.last().1));
    }
}

#[via_fn]
proof fn fields_of_decreases(m: Seq<(String, ASVariable)>) {
    if m.len() > 0 {
        assert(decreases_to!(m => m.last()));
        assert(decreases_to!(m.last() => m.last().1));
    }
}

/// The model of a list is the pointwise model of its elements.
pub proof fn lemma_vals_of(l: Seq<ASVariable>)
    ensures
        vals_of(l).len() == l.len(),
        forall|i: int| 0 <= i < l.len() ==> vals_of(l)[i] == val_of(#[trigger] l[i]),
    decreases l.len(),
{
    if l.len() > 0 {
        lemma_vals_of(l.drop_last());
        assert forall|i: int| 0 <= i < l.len() implies vals_of(l)[i] == val_of(#[trigger] l[i]) by {
            if i < l.len() - 1 {
                assert(l.drop_last()[i] == l[i]);
            } else {
                assert(l[i] == l.last());
            }
        }
    }
}

/// The model of a map's entries is the pointwise model of its pairs.
pub proof fn lemma_entries_of(m: Seq<(KeyVar, ASVariable)>)
    ensures
        entries_of(m).len() == m.len(),
        forall|i: int|
            0 <= i < m.len() ==> entries_of(m)[i] == ((#[trigger] m[i]).0@, val_of(m[i].1)),
    decreases m.len(),
{
    if m.len() > 0 {
        lemma_entries_of(m.drop_last());
        assert forall|i: int|
            0 <= i < m.len() implies entries_of(m)[i] == ((#[trigger] m[i]).0@, val_of(m[i].1)) by {
            if i < m.len() - 1 {
                assert(m.drop_last()[i] == m[i]);
            } else {
                assert(m[i] == m.last());
            }
        }
    }
}

/// The model of an object's fields is the pointwise model of its pairs.
pub proof fn lemma_fields_of(m: Seq<(String, ASVariable)>)
    ensures
        fields_of(m).len() == m.len(),
        forall|i: int|
            0 <= i < m.len() ==> fields_of(m)[i] == ((#[trigger] m[i]).0@, val_of(m[i].1)),
    decreases m.len(),
{
    if m.len() > 0 {
        lemma_fields_of(m.drop_last());
        assert forall|i: int|
            0 <= i < m.len() implies fields_of(m)[i] == ((#[trigger] m[i]).0@, val_of(m[i].1)) by {
            if i < m.len() - 1 {
                assert(m.drop_last()[i] == m[i]);
            } else {
                assert(m[i] == m.last());
            }
        }
    }
}

impl View for ASVariable {
    type V = Val;

    open spec fn view(&self) -> Val {
        val_of(*self)
    }
}

impl Val {
    /// The type tag of a model value. `Empty` has no tag.
    pub open spec fn ty(self) -> Ty {
        match self {
            Val::Empty => Ty::Null,
            Val::Bool(_) => Ty::Bool,
            Val::Int(_) => Ty::Int,
            Val::Str(_) => Ty::String,
            Val::List(_) => Ty::List,
            Val::Mapping(_) => Ty::Mapping,
            Val::Label(_) => Ty::Label,
            Val::VarRef { .. } => Ty::VarRef,
            Val::Null => Ty::Null,
            Val::Object { spec, .. } => Ty::Object(spec),
        }
    }
}

impl ASVariable {
    /// Get an `ASType` representing the variable's type.
    ///
    /// The internal `Empty` sentinel has no type and is excluded here:
    /// asking for its type is a programming error.
    pub fn get_type(&self) -> (t: ASType)
        requires
            !(self is Empty),
        ensures
            t@ == self@.ty(),
    {
        match self {
            ASVariable::Bool(_) => ASType::Bool,
            ASVariable::Int(_) => ASType::Int,
            ASVariable::String(_) => ASType::String,
            ASVariable::List(_) => ASType::List,
            ASVariable::Mapping(_) => ASType::Mapping,
            ASVariable::Label(_) => ASType::Label,
            ASVariable::VarRef { .. } => ASType::VarRef,
            ASVariable::Null => ASType::Null,
            ASVariable::Object { spec, .. } => ASType::Object(clone_string(spec)),
            ASVariable::Empty => ASType::Null,
        }
    }
}


/// Well-formedness of a model value: map and object keys are unique, and the
/// internal `Empty` sentinel does not occur inside a container.
pub open spec fn val_wf(v: Val) -> bool
    decreases v,
{
    match v {
        Val::List(x) => forall|i: int| 0 <= i < x.len() ==> val_wf(#[trigger] x[i]) && !(x[i] is Empty),
        Val::Mapping(x) => (forall|i: int|
            0 <= i < x.len() ==> val_wf((#[trigger] x[i]).1) && !(x[i].1 is Empty)) && (forall|
            i: int,
            j: int,
        |
            0 <= i < j < x.len() ==> (#[trigger] x[i]).0 != (#[trigger] x[j]).0),
        Val::Object { spec, fields } => (forall|i: int|
            0 <= i < fields.len() ==> val_wf((#[trigger] fields[i]).1) && !(fields[i].1 is Empty))
            && (forall|i: int, j: int|
            0 <= i < j < fields.len() ==> (#[trigger] fields[i]).0 != (#[trigger] fields[j]).0),
        _ => true,
    }
}

/// Structural equality of two model values: equality everywhere, except that
/// map entries are compared without regard to order.
pub open spec fn val_equiv(a: Val, b: Val) -> bool
    decreases a,
{
    match (a, b) {
        (Val::List(x), Val::List(y)) => x.len() == y.len() && (forall|i: int|
            0 <= i < x.len() ==> val_equiv(#[trigger] x[i], y[i])),
        (Val::Mapping(x), Val::Mapping(y)) => x.len() == y.len() && (forall|i: int|
            0 <= i < x.len() ==> exists|j: int|
                0 <= j < y.len() && (#[trigger] x[i]).0 == (#[trigger] y[j]).0 && val_equiv(
                    x[i].1,
                    y[j].1,
                )),
        (Val::Object { spec: s1, fields: f1 }, Val::Object { spec: s2, fields: f2 }) => s1 == s2
            && f1.len() == f2.len() && (forall|i: int|
            0 <= i < f1.len() ==> exists|j: int|
                0 <= j < f2.len() && (#[trigger] f1[i]).0 == (#[trigger] f2[j]).0 && val_equiv(
                    f1[i].1,
                    f2[j].1,
                )),
        _ => a == b,
    }
}

/// The model of the restricted key subset of a value: `Some` exactly for
/// `Bool`, `Int` and `String` values.
pub open spec fn key_of(v: Val) -> Option<KeyVal> {
    match v {
        Val::Bool(b) => Option::Some(KeyVal::Bool(b)),
        Val::Int(i) => Option::Some(KeyVal::Int(i)),
        Val::Str(s) => Option::Some(KeyVal::Str(s)),
        _ => Option::None,
    }
}

impl KeyVar {
    /// Creates a `KeyVar` from an `ASVariable`, failing `InvalidMapKey` on
    /// every variant other than `Bool`, `Int` and `String`.
    pub fn new(val: ASVariable) -> (r: Result<KeyVar, ASSyntaxError>)
        requires
            !(val is Empty),
        ensures
            match r {
                Ok(k) => key_of(val@) == Option::Some(k@),
                Err(e) => key_of(val@) is None && e@ == SynErr::InvalidMapKey {
                    key_type: val@.ty(),
                },
            },
    {
        match val {
            ASVariable::Bool(c) => Ok(KeyVar::Bool(c)),
            ASVariable::Int(c) => Ok(KeyVar::Int(c)),
            ASVariable::String(c) => Ok(KeyVar::String(c)),
            _ => Err(ASSyntaxError::InvalidMapKey { key_type: val.get_type() }),
        }
    }

    /// Creates an `ASVariable` carrying the same value as the key.
    pub fn get(&self) -> (r: ASVariable)
        ensures
            key_of(r@) == Option::Some(self@),
            !(r is Empty),
    {
        match self {
            KeyVar::Int(c) => ASVariable::Int(*c),
            KeyVar::String(c) => ASVariable::String(clone_string(c)),
            KeyVar::Bool(c) => ASVariable::Bool(*c),
        }
    }

    /// The type tag of the key.
    pub fn get_type(&self) -> (t: ASType)
        ensures
            t@ == self@.ty(),
    {
        match self {
            KeyVar::Int(_) => ASType::Int,
            KeyVar::String(_) => ASType::String,
            KeyVar::Bool(_) => ASType::Bool,
        }
    }

    /// Compares two keys for equality.
    pub fn key_eq(&self, other: &KeyVar) -> (r: bool)
        ensures
            r == (self@ == other@),
    {
        match (self, other) {
            (KeyVar::Bool(a), KeyVar::Bool(b)) => a == b,
            (KeyVar::Int(a), KeyVar::Int(b)) => a == b,
            (KeyVar::String(a), KeyVar::String(b)) => crate::text::str_eq(a.as_str(), b.as_str()),
            _ => false,
        }
    }

    /// Clones the key, keeping its value.
    pub fn duplicate(&self) -> (r: KeyVar)
        ensures
            r@ == self@,
    {
        match self {
            KeyVar::Bool(b) => KeyVar::Bool(*b),
            KeyVar::Int(i) => KeyVar::Int(*i),
            KeyVar::String(s) => KeyVar::String(clone_string(s)),
        }
    }
}

impl KeyVal {
    /// The type tag of a model key.
    pub open spec fn ty(self) -> Ty {
        match self {
            KeyVal::Bool(_) => Ty::Bool,
            KeyVal::Int(_) => Ty::Int,
            KeyVal::Str(_) => Ty::String,
        }
    }
}

impl ASVariable {
    /// Returns a `KeyVar` equivalent to the value, failing `InvalidMapKey`
    /// for a value of a variant not usable as a map key.
    pub fn as_key(self) -> (r: Result<KeyVar, ASSyntaxError>)
        requires
            !(self is Empty),
        ensures
            match r {
                Ok(k) => key_of(self@) == Option::Some(k@),
                Err(e) => key_of(self@) is None && e@ == SynErr::InvalidMapKey {
                    key_type: self@.ty(),
                },
            },
    {
        KeyVar::new(self)
    }
}

/// The default model value for a type tag.
pub open spec fn default_val(t: Ty) -> Val {
    match t {
        Ty::Any | Ty::Null | Ty::VarRef | Ty::Label => Val::Null,
        Ty::Bool => Val::Bool(false),
        Ty::Int => Val::Int(0),
        Ty::String => Val::Str(Seq::empty()),
        Ty::List => Val::List(Seq::empty()),
        Ty::Mapping => Val::Mapping(Seq::empty()),
        Ty::Object(_) => Val::Null,
    }
}

impl ASType {
    /// Returns the default value for a variable of this type: `false` for
    /// `Bool`, zero for `Int`, an empty string, list or map for those types,
    /// and `Null` for the types with no natural default. Object types have no
    /// initializer here.
    pub fn default_for_type(&self) -> (r: ASVariable)
        requires
            !(self is Object),
        ensures
            r@ == default_val(self@),
            !(r is Empty),
    {
        match self {
            ASType::Any | ASType::Null | ASType::VarRef | ASType::Label => ASVariable::Null,
            ASType::Bool => ASVariable::Bool(false),
            ASType::Int => ASVariable::Int(0),
            ASType::String => ASVariable::String(String::new()),
            ASType::List => ASVariable::List(Vec::new()),
            ASType::Mapping => ASVariable::Mapping(Vec::new()),
            ASType::Object(_) => ASVariable::Null,
        }
    }
}

/// Compares two type tags for equality.
pub fn type_eq(a: &ASType, b: &ASType) -> (r: bool)
    ensures
        r == (a@ == b@),
{
    match (a, b) {
        (ASType::Any, ASType::Any) => true,
        (ASType::Bool, ASType::Bool) => true,
        (ASType::Int, ASType::Int) => true,
        (ASType::String, ASType::String) => true,
        (ASType::List, ASType::List) => true,
        (ASType::Mapping, ASType::Mapping) => true,
        (ASType::Label, ASType::Label) => true,
        (ASType::VarRef, ASType::VarRef) => true,
        (ASType::Null, ASType::Null) => true,
        (ASType::Object(x), ASType::Object(y)) => crate::text::str_eq(x.as_str(), y.as_str()),
        _ => false,
    }
}

/// Clones a string, keeping its characters.
fn clone_string(s: &String) -> (r: String)
    ensures
        r@ == s@,
{
    s.clone()
}

impl ASVariable {
    /// Clones the value, keeping its model.
    pub fn duplicate(&self) -> (r: ASVariable)
        ensures
            r@ == self@,
        decreases *self,
    {
        match self {
            ASVariable::Empty => ASVariable::Empty,
            ASVariable::Bool(b) => ASVariable::Bool(*b),
            ASVariable::Int(i) => ASVariable::Int(*i),
            ASVariable::String(s) => ASVariable::String(clone_string(s)),
            ASVariable::List(l) => {
                let mut out: Vec<ASVariable> = Vec::new();
                let mut i: usize = 0;
                while i < l.len()
                    invariant
                        0 <= i <= l@.len(),
                        out@.len() == i,
                        forall|j: int| 0 <= j < i ==> val_of(out@[j]) == val_of(#[trigger] l@[j]),
                        *self == ASVariable::List(*l),
                    decreases l@.len() - i,
                {
                    proof {
                        assert(decreases_to!(*self => (*self)->List_0));
                        assert((*self)->List_0 == *l);
                        assert(decreases_to!(*l => l@));
                        assert(decreases_to!(l@ => l@[i as int]));
                    }
                    let d = l[i].duplicate();
                    out.push(d);
                    i = i + 1;
                }
                proof {
                    lemma_vals_of(out@);
                    lemma_vals_of(l@);
                    assert forall|k: int| 0 <= k < out@.len() implies vals_of(out@)[k] == vals_of(
                        l@,
                    )[k] by {
                        assert(vals_of(out@)[k] == val_of(out@[k]));
                        assert(vals_of(l@)[k] == val_of(l@[k]));
                    }
                    assert(vals_of(out@) =~= vals_of(l@));
                }
                ASVariable::List(out)
            },
            ASVariable::Mapping(m) => {
                let mut out: Vec<(KeyVar, ASVariable)> = Vec::new();
                let mut i: usize = 0;
                while i < m.len()
                    invariant
                        0 <= i <= m@.len(),
                        out@.len() == i,
                        forall|j: int|
                            0 <= j < i ==> out@[j].0@ == (#[trigger] m@[j]).0@ && val_of(out@[j].1)
                                == val_of(m@[j].1),
                        *self == ASVariable::Mapping(*m),
                    decreases m@.len() - i,
                {
                    proof {
                        assert(decreases_to!(*self => (*self)->Mapping_0));
                        assert((*self)->Mapping_0 == *m);
                        assert(decreases_to!(*m => m@));
                        assert(decreases_to!(m@ => m@[i as int]));
                        assert(decreases_to!(m@[i as int] => m@[i as int].1));
                    }
                    let k = m[i].0.duplicate();
                    let v = m[i].1.duplicate();
                    out.push((k, v));
                    i = i + 1;
                }
                proof {
                    lemma_entries_of(out@);
                    lemma_entries_of(m@);
                    assert forall|k: int| 0 <= k < out@.len() implies entries_of(out@)[k]
                        == entries_of(m@)[k] by {
                        assert(entries_of(out@)[k] == (out@[k].0@, val_of(out@[k].1)));
                        assert(entries_of(m@)[k] == (m@[k].0@, val_of(m@[k].1)));
                    }
                    assert(entries_of(out@) =~= entries_of(m@));
                }
                ASVariable::Mapping(out)
            },
            ASVariable::Label(n) => ASVariable::Label(
                match n {
                    Option::Some(s) => Option::Some(clone_string(s)),
                    Option::None => Option::None,
                },
            ),
            ASVariable::VarRef { name, flag } => ASVariable::VarRef {
                name: clone_string(name),
                flag: *flag,
            },
            ASVariable::Null => ASVariable::Null,
            ASVariable::Object { spec, fields } => {
                let mut out: Vec<(String, ASVariable)> = Vec::new();
                let mut i: usize = 0;
                while i < fields.len()
                    invariant
                        0 <= i <= fields@.len(),
                        out@.len() == i,
                        forall|j: int|
                            0 <= j < i ==> out@[j].0@ == (#[trigger] fields@[j]).0@ && val_of(
                                out@[j].1,
                            ) == val_of(fields@[j].1),
                        *self == (ASVariable::Object { spec: *spec, fields: *fields }),
                    decreases fields@.len() - i,
                {
                    proof {
                        assert(decreases_to!(*self => (*self)->Object_fields));
                        assert((*self)->Object_fields == *fields);
                        assert(decreases_to!(*fields => fields@));
                        assert(decreases_to!(fields@ => fields@[i as int]));
                        assert(decreases_to!(fields@[i as int] => fields@[i as int].1));
                    }
                    let k = clone_string(&fields[i].0);
                    let v = fields[i].1.duplicate();
                    out.push((k, v));
                    i = i + 1;
                }
                proof {
                    lemma_fields_of(out@);
                    lemma_fields_of(fields@);
                    assert forall|k: int| 0 <= k < out@.len() implies fields_of(out@)[k]
                        == fields_of(fields@)[k] by {
                        assert(fields_of(out@)[k] == (out@[k].0@, val_of(out@[k].1)));
                        assert(fields_of(fields@)[k] == (fields@[k].0@, val_of(fields@[k].1)));
                    }
                    assert(fields_of(out@) =~= fields_of(fields@));
                }
                ASVariable::Object { spec: clone_string(spec), fields: out }
            },
        }
    }
}

impl ASVariable {
    /// Structural equality, comparing map entries without regard to order.
    pub fn equals(&self, other: &ASVariable) -> (r: bool)
        requires
            val_wf(self@),
            val_wf(other@),
        ensures
            r == val_equiv(self@, other@),
        decreases *self,
    {
        match (self, other) {
            (ASVariable::Empty, ASVariable::Empty) => true,
            (ASVariable::Bool(a), ASVariable::Bool(b)) => a == b,
            (ASVariable::Int(a), ASVariable::Int(b)) => a == b,
            (ASVariable::String(a), ASVariable::String(b)) => crate::text::str_eq(
                a.as_str(),
                b.as_str(),
            ),
            (ASVariable::Label(a), ASVariable::Label(b)) => match (a, b) {
                (Option::None, Option::None) => true,
                (Option::Some(x), Option::Some(y)) => crate::text::str_eq(x.as_str(), y.as_str()),
                _ => false,
            },
            (
                ASVariable::VarRef { name: n1, flag: f1 },
                ASVariable::VarRef { name: n2, flag: f2 },
            ) => *f1 == *f2 && crate::text::str_eq(n1.as_str(), n2.as_str()),
            (ASVariable::Null, ASVariable::Null) => true,
            (ASVariable::List(x), ASVariable::List(y)) => {
                proof {
                    lemma_vals_of(x@);
                    lemma_vals_of(y@);
                }
                if x.len() != y.len() {
                    return false;
                }
                let mut i: usize = 0;
                while i < x.len()
                    invariant
                        0 <= i <= x@.len(),
                        x@.len() == y@.len(),
                        vals_of(x@).len() == x@.len(),
                        vals_of(y@).len() == y@.len(),
                        forall|j: int| 0 <= j < x@.len() ==> vals_of(x@)[j] == val_of(#[trigger] x@[j]),
                        forall|j: int| 0 <= j < y@.len() ==> vals_of(y@)[j] == val_of(#[trigger] y@[j]),
                        forall|j: int|
                            0 <= j < i ==> val_equiv(val_of(#[trigger] x@[j]), val_of(y@[j])),
                        *self == ASVariable::List(*x),
                        *other == ASVariable::List(*y),
                        val_wf(self@),
                        val_wf(other@),
                    decreases x@.len() - i,
                {
                    proof {
                        assert(decreases_to!(*self => *x));
                        assert(decreases_to!(*x => x@));
                        assert(decreases_to!(x@ => x@[i as int]));
                        assert(val_wf(val_of(x@[i as int]))) by {
                            assert(vals_of(x@)[i as int] == val_of(x@[i as int]));
                        }
                        assert(val_wf(val_of(y@[i as int]))) by {
                            assert(vals_of(y@)[i as int] == val_of(y@[i as int]));
                        }
                    }
                    if !x[i].equals(&y[i]) {
                        return false;
                    }
                    i = i + 1;
                }
                proof {
                    assert forall|ii: int|
                        0 <= ii < vals_of(x@).len() implies val_equiv(
                        #[trigger] vals_of(x@)[ii],
                        vals_of(y@)[ii],
                    ) by {
                        assert(vals_of(x@)[ii] == val_of(x@[ii]));
                        assert(vals_of(y@)[ii] == val_of(y@[ii]));
                    }
                }
                true
            },
            (ASVariable::Mapping(x), ASVariable::Mapping(y)) => {
                proof {
                    lemma_entries_of(x@);
                    lemma_entries_of(y@);
                }
                if x.len() != y.len() {
                    return false;
                }
                let mut i: usize = 0;
                while i < x.len()
                    invariant
                        0 <= i <= x@.len(),
                        x@.len() == y@.len(),
                        entries_of(x@).len() == x@.len(),
                        entries_of(y@).len() == y@.len(),
                        forall|j: int|
                            0 <= j < x@.len() ==> entries_of(x@)[j] == ((#[trigger] x@[j]).0@, val_of(
                                x@[j].1,
                            )),
                        forall|j: int|
                            0 <= j < y@.len() ==> entries_of(y@)[j] == ((#[trigger] y@[j]).0@, val_of(
                                y@[j].1,
                            )),
                        forall|ii: int|
                            0 <= ii < i ==> exists|jj: int|
                                0 <= jj < y@.len() && (#[trigger] x@[ii]).0@ == y@[jj].0@ && val_equiv(
                                    val_of(x@[ii].1),
                                    val_of(y@[jj].1),
                                ),
                        *self == ASVariable::Mapping(*x),
                        *other == ASVariable::Mapping(*y),
                        val_wf(self@),
                        val_wf(other@),
                    decreases x@.len() - i,
                {
                    let mut j: usize = 0;
                    let mut found: bool = false;
                    while j < y.len() && !found
                        invariant
                            0 <= j <= y@.len(),
                            0 <= i < x@.len(),
                            x@.len() == y@.len(),
                            entries_of(x@).len() == x@.len(),
                            entries_of(y@).len() == y@.len(),
                            forall|jj: int|
                                0 <= jj < y@.len() ==> entries_of(y@)[jj] == ((
                                    #[trigger] y@[jj]).0@,
                                val_of(y@[jj].1),
                                ),
                            forall|jj: int|
                                0 <= jj < x@.len() ==> entries_of(x@)[jj] == ((
                                    #[trigger] x@[jj]).0@,
                                val_of(x@[jj].1),
                                ),
                            !found ==> forall|jj: int| 0 <= jj < j ==> (#[trigger] y@[jj]).0@ != x@[i as int].0@,
                            found ==> exists|jj: int|
                                0 <= jj < y@.len() && (#[trigger] y@[jj]).0@ == x@[i as int].0@
                                    && val_equiv(val_of(x@[i as int].1), val_of(y@[jj].1)),
                            *self == ASVariable::Mapping(*x),
                            *other == ASVariable::Mapping(*y),
                            val_wf(self@),
                            val_wf(other@),
                        decreases y@.len() - j, (if found { 0int } else { 1int }),
                    {
                        if x[i].0.key_eq(&y[j].0) {
                            proof {
                                assert(decreases_to!(*self => *x));
                                assert(decreases_to!(*x => x@));
                                assert(decreases_to!(x@ => x@[i as int]));
                                assert(decreases_to!(x@[i as int] => x@[i as int].1));
                                assert(val_wf(val_of(x@[i as int].1))) by {
                                    assert(entries_of(x@)[i as int].1 == val_of(x@[i as int].1));
                                }
                                assert(val_wf(val_of(y@[j as int].1))) by {
                                    assert(entries_of(y@)[j as int].1 == val_of(y@[j as int].1));
                                }
                            }
                            if x[i].1.equals(&y[j].1) {
                                found = true;
                            } else {
                                // the key occurs exactly once in `other`, and its
                                // value does not match
                                proof {
                                    let ghost ex = entries_of(x@);
                                    let ghost ey = entries_of(y@);
                                    assert(!val_equiv(self@, other@)) by {
                                        if val_equiv(self@, other@) {
                                            assert(self@ == Val::Mapping(ex));
                                            assert(other@ == Val::Mapping(ey));
                                            assert(ex[i as int] == (x@[i as int].0@, val_of(
                                                x@[i as int].1,
                                            )));
                                            let jj = choose|jj: int|
                                                0 <= jj < ey.len() && ex[i as int].0 == (
                                                #[trigger] ey[jj]).0 && val_equiv(
                                                    ex[i as int].1,
                                                    ey[jj].1,
                                                );
                                            assert(ey[jj] == (y@[jj].0@, val_of(y@[jj].1)));
                                            if jj != j as int {
                                                // two entries of `other` would share a key
                                                assert(ey[jj].0 == ey[j as int].0);
                                                assert(false);
                                            }
                                        }
                                    }
                                }
                                return false;
                            }
                        } else {
                            j = j + 1;
                        }
                    }
                    if !found {
                        proof {
                            let ghost ex = entries_of(x@);
                            let ghost ey = entries_of(y@);
                            assert(!val_equiv(self@, other@)) by {
                                if val_equiv(self@, other@) {
                                    assert(self@ == Val::Mapping(ex));
                                    assert(other@ == Val::Mapping(ey));
                                    assert(ex[i as int] == (x@[i as int].0@, val_of(x@[i as int].1)));
                                    let jj = choose|jj: int|
                                        0 <= jj < ey.len() && ex[i as int].0 == (#[trigger] ey[jj]).0
                                            && val_equiv(ex[i as int].1, ey[jj].1);
                                    assert(ey[jj] == (y@[jj].0@, val_of(y@[jj].1)));
                                    assert(y@[jj].0@ != x@[i as int].0@);
                                    assert(false);
                                }
                            }
                        }
                        return false;
                    }
                    i = i + 1;
                }
                proof {
                    assert forall|ii: int|
                        0 <= ii < entries_of(x@).len() implies exists|jj: int|
                        0 <= jj < entries_of(y@).len() && (#[trigger] entries_of(x@)[ii]).0
                            == entries_of(y@)[jj].0 && val_equiv(
                            entries_of(x@)[ii].1,
                            entries_of(y@)[jj].1,
                        ) by {
                        let jj = choose|jj: int|
                            0 <= jj < y@.len() && (#[trigger] x@[ii]).0@ == y@[jj].0@ && val_equiv(
                                val_of(x@[ii].1),
                                val_of(y@[jj].1),
                            );
                        assert(0 <= jj < entries_of(y@).len() && entries_of(x@)[ii].0 == entries_of(
                            y@,
                        )[jj].0 && val_equiv(entries_of(x@)[ii].1, entries_of(y@)[jj].1));
                    }
                }
                true
            },
            (
                ASVariable::Object { spec: s1, fields: f1 },
                ASVariable::Object { spec: s2, fields: f2 },
            ) => {
                proof {
                    lemma_fields_of(f1@);
                    lemma_fields_of(f2@);
                }
                if !crate::text::str_eq(s1.as_str(), s2.as_str()) {
                    return false;
                }
                if f1.len() != f2.len() {
                    return false;
                }
                let mut i: usize = 0;
                while i < f1.len()
                    invariant
                        0 <= i <= f1@.len(),
                        f1@.len() == f2@.len(),
                        s1@ == s2@,
                        fields_of(f1@).len() == f1@.len(),
                        fields_of(f2@).len() == f2@.len(),
                        forall|j: int|
                            0 <= j < f1@.len() ==> fields_of(f1@)[j] == ((#[trigger] f1@[j]).0@, val_of(
                                f1@[j].1,
                            )),
                        forall|j: int|
                            0 <= j < f2@.len() ==> fields_of(f2@)[j] == ((#[trigger] f2@[j]).0@, val_of(
                                f2@[j].1,
                            )),
                        forall|ii: int|
                            0 <= ii < i ==> exists|jj: int|
                                0 <= jj < f2@.len() && (#[trigger] f1@[ii]).0@ == f2@[jj].0@
                                    && val_equiv(val_of(f1@[ii].1), val_of(f2@[jj].1)),
                        *self == (ASVariable::Object { spec: *s1, fields: *f1 }),
                        *other == (ASVariable::Object { spec: *s2, fields: *f2 }),
                        val_wf(self@),
                        val_wf(other@),
                    decreases f1@.len() - i,
                {
                    let mut j: usize = 0;
                    let mut found: bool = false;
                    while j < f2.len() && !found
                        invariant
                            0 <= j <= f2@.len(),
                            0 <= i < f1@.len(),
                            f1@.len() == f2@.len(),
                            fields_of(f1@).len() == f1@.len(),
                            fields_of(f2@).len() == f2@.len(),
                            forall|jj: int|
                                0 <= jj < f2@.len() ==> fields_of(f2@)[jj] == ((
                                #[trigger] f2@[jj]).0@,
                                val_of(f2@[jj].1),
                                ),
                            forall|jj: int|
                                0 <= jj < f1@.len() ==> fields_of(f1@)[jj] == ((
                                #[trigger] f1@[jj]).0@,
                                val_of(f1@[jj].1),
                                ),
                            !found ==> forall|jj: int| 0 <= jj < j ==> (#[trigger] f2@[jj]).0@ != f1@[i as int].0@,
                            found ==> exists|jj: int|
                                0 <= jj < f2@.len() && (#[trigger] f2@[jj]).0@ == f1@[i as int].0@
                                    && val_equiv(val_of(f1@[i as int].1), val_of(f2@[jj].1)),
                            *self == (ASVariable::Object { spec: *s1, fields: *f1 }),
                            *other == (ASVariable::Object { spec: *s2, fields: *f2 }),
                            val_wf(self@),
                            val_wf(other@),
                        decreases f2@.len() - j, (if found { 0int } else { 1int }),
                    {
                        if crate::text::str_eq(f1[i].0.as_str(), f2[j].0.as_str()) {
                            proof {
                                assert(decreases_to!(*self => *f1));
                                assert(decreases_to!(*f1 => f1@));
                                assert(decreases_to!(f1@ => f1@[i as int]));
                                assert(decreases_to!(f1@[i as int] => f1@[i as int].1));
                                assert(val_wf(val_of(f1@[i as int].1))) by {
                                    assert(fields_of(f1@)[i as int].1 == val_of(f1@[i as int].1));
                                }
                                assert(val_wf(val_of(f2@[j as int].1))) by {
                                    assert(fields_of(f2@)[j as int].1 == val_of(f2@[j as int].1));
                                }
                            }
                            if f1[i].1.equals(&f2[j].1) {
                                found = true;
                            } else {
                                proof {
                                    let ghost ex = fields_of(f1@);
                                    let ghost ey = fields_of(f2@);
                                    assert(!val_equiv(self@, other@)) by {
                                        if val_equiv(self@, other@) {
                                            assert(self@ == (Val::Object { spec: s1@, fields: ex }));
                                            assert(other@ == (Val::Object { spec: s2@, fields: ey }));
                                            assert(ex[i as int] == (f1@[i as int].0@, val_of(
                                                f1@[i as int].1,
                                            )));
                                            let jj = choose|jj: int|
                                                0 <= jj < ey.len() && ex[i as int].0 == (
                                                #[trigger] ey[jj]).0 && val_equiv(
                                                    ex[i as int].1,
                                                    ey[jj].1,
                                                );
                                            assert(ey[jj] == (f2@[jj].0@, val_of(f2@[jj].1)));
                                            if jj != j as int {
                                                // two fields of `other` would share a name
                                                assert(ey[jj].0 == ey[j as int].0);
                                                assert(false);
                                            }
                                        }
                                    }
                                }
                                return false;
                            }
                        } else {
                            j = j + 1;
                        }
                    }
                    if !found {
                        proof {
                            let ghost ex = fields_of(f1@);
                            let ghost ey = fields_of(f2@);
                            assert(!val_equiv(self@, other@)) by {
                                if val_equiv(self@, other@) {
                                    assert(self@ == (Val::Object { spec: s1@, fields: ex }));
                                    assert(other@ == (Val::Object { spec: s2@, fields: ey }));
                                    assert(ex[i as int] == (f1@[i as int].0@, val_of(f1@[i as int].1)));
                                    let jj = choose|jj: int|
                                        0 <= jj < ey.len() && ex[i as int].0 == (#[trigger] ey[jj]).0
                                            && val_equiv(ex[i as int].1, ey[jj].1);
                                    assert(ey[jj] == (f2@[jj].0@, val_of(f2@[jj].1)));
                                    assert(f2@[jj].0@ != f1@[i as int].0@);
                                    assert(false);
                                }
                            }
                        }
                        return false;
                    }
                    i = i + 1;
                }
                proof {
                    assert forall|ii: int|
                        0 <= ii < fields_of(f1@).len() implies exists|jj: int|
                        0 <= jj < fields_of(f2@).len() && (#[trigger] fields_of(f1@)[ii]).0
                            == fields_of(f2@)[jj].0 && val_equiv(
                            fields_of(f1@)[ii].1,
                            fields_of(f2@)[jj].1,
                        ) by {
                        let jj = choose|jj: int|
                            0 <= jj < f2@.len() && (#[trigger] f1@[ii]).0@ == f2@[jj].0@ && val_equiv(
                                val_of(f1@[ii].1),
                                val_of(f2@[jj].1),
                            );
                        assert(0 <= jj < fields_of(f2@).len() && fields_of(f1@)[ii].0 == fields_of(
                            f2@,
                        )[jj].0 && val_equiv(fields_of(f1@)[ii].1, fields_of(f2@)[jj].1));
                    }
                }
                true
            },
            _ => false,
        }
    }
}

} // verus!
