//! Per-type method tables: the built-in methods the evaluator can apply to a
//! value through a `.name(k)` suffix, and their argument validation.

use vstd::prelude::*;

use crate::error::ASError;
use crate::error::ASVarError;
use crate::error::ErrV;
use crate::error::VarErr;
use crate::info::GameInfo;
use crate::text::chars_to_string;
use crate::text::string_to_chars;
use crate::variables::entries_of;
use crate::variables::lemma_entries_of;
use crate::variables::lemma_vals_of;
use crate::variables::val_equiv;
use crate::variables::val_of;
use crate::variables::val_wf;
use crate::variables::vals_of;
use crate::variables::ASType;
use crate::variables::ASVariable;
use crate::variables::Val;

verus! {

/// How evaluation may change the interpreter state: everything is kept,
/// except that flags read for the first time appear initialized to `false`.
pub open spec fn eval_state_ok(pre: GameInfo, post: GameInfo) -> bool {
    &&& post.wf()
    &&& post.script_view() == pre.script_view()
    &&& post.script_name == pre.script_name
    &&& post.pointer == pre.pointer
    &&& post.quitting == pre.quitting
    &&& post.vars_view() == pre.vars_view()
    &&& post.screentext == pre.screentext
    &&& post.debug == pre.debug
    &&& post.allow_save == pre.allow_save
    &&& forall|k: Seq<char>|
        pre.flags_view().contains_key(k) ==> #[trigger] post.flags_view().contains_key(k)
            && post.flags_view()[k] == pre.flags_view()[k]
    &&& forall|k: Seq<char>|
        #[trigger] post.flags_view().contains_key(k) ==> pre.flags_view().contains_key(k) || (
        post.flags_view()[k] == false)
}

/// Keeping the state is a state change evaluation allows.
pub proof fn lemma_eval_state_refl(a: GameInfo)
    requires
        a.wf(),
    ensures
        eval_state_ok(a, a),
{
}

/// Allowed state changes compose.
pub proof fn lemma_eval_state_trans(a: GameInfo, b: GameInfo, c: GameInfo)
    requires
        eval_state_ok(a, b),
        eval_state_ok(b, c),
    ensures
        eval_state_ok(a, c),
{
}

/// Reading a variable or flag is a state change evaluation allows.
pub proof fn lemma_flag_read_ok(pre: GameInfo, post: GameInfo, name: Seq<char>, b: bool)
    requires
        post.wf(),
        post.script_view() == pre.script_view(),
        post.script_name == pre.script_name,
        post.pointer == pre.pointer,
        post.quitting == pre.quitting,
        post.vars_view() == pre.vars_view(),
        post.screentext == pre.screentext,
        post.debug == pre.debug,
        post.allow_save == pre.allow_save,
        post.flags_view() == pre.flags_view().insert(name, b),
        b == (if pre.flags_view().contains_key(name) {
            pre.flags_view()[name]
        } else {
            false
        }),
    ensures
        eval_state_ok(pre, post),
{
}

/// The built-in behavior a method name is bound to.
pub enum MethodKind {
    /// Renders the value as display text; strings render quoted.
    Stringify,
    /// Indexes a list, failing on a negative or out-of-range index.
    ListGet,
    /// The position of the first list element equal to the argument.
    ListIndexOf,
    /// Looks a key up in a map, failing on an ineligible or missing key.
    MapGet,
}

/// The model of a method entry.
pub struct MethodV {
    /// The name the script calls the method by.
    pub name: Seq<char>,
    /// The built-in behavior bound to the name.
    pub kind: MethodKind,
    /// The declared argument types.
    pub argtypes: Seq<crate::variables::Ty>,
    /// How many leading arguments are required.
    pub required_args: usize,
    /// Whether calling the method should raise a deprecation advisory.
    pub deprecated: bool,
}

/// The models of a list of type tags.
pub open spec fn types_view(s: Seq<ASType>) -> Seq<crate::variables::Ty>
    decreases s.len(),
{
    if s.len() == 0 {
        Seq::empty()
    } else {
        types_view(s.drop_last()).push(s.last()@)
    }
}

/// The model of a type list is the pointwise model of its entries.
pub proof fn lemma_types_view(s: Seq<ASType>)
    ensures
        types_view(s).len() == s.len(),
        forall|i: int| 0 <= i < s.len() ==> types_view(s)[i] == (#[trigger] s[i])@,
    decreases s.len(),
{
    if s.len() > 0 {
        lemma_types_view(s.drop_last());
        assert forall|i: int| 0 <= i < s.len() implies types_view(s)[i] == (#[trigger] s[i])@ by {
            if i < s.len() - 1 {
                assert(s.drop_last()[i] == s[i]);
            } else {
                assert(s[i] == s.last());
            }
        }
    }
}

/// A method callable on values of one type.
pub struct Method {
    /// The name the script calls the method by.
    pub name: String,
    /// The built-in behavior bound to the name.
    pub kind: MethodKind,
    /// The declared argument types.
    pub argtypes: Vec<ASType>,
    /// How many leading arguments are required.
    pub required_args: usize,
    /// Whether calling the method should raise a deprecation advisory.
    pub deprecated: bool,
}

impl View for Method {
    type V = MethodV;

    open spec fn view(&self) -> MethodV {
        MethodV {
            name: self.name@,
            kind: self.kind,
            argtypes: types_view(self.argtypes@),
            required_args: self.required_args,
            deprecated: self.deprecated,
        }
    }
}

/// The models of a method list.
pub open spec fn methods_view(s: Seq<Method>) -> Seq<MethodV>
    decreases s.len(),
{
    if s.len() == 0 {
        Seq::empty()
    } else {
        methods_view(s.drop_last()).push(s.last()@)
    }
}

/// The model of a method list is the pointwise model of its entries.
pub proof fn lemma_methods_view(s: Seq<Method>)
    ensures
        methods_view(s).len() == s.len(),
        forall|i: int| 0 <= i < s.len() ==> methods_view(s)[i] == (#[trigger] s[i])@,
    decreases s.len(),
{
    if s.len() > 0 {
        lemma_methods_view(s.drop_last());
        assert forall|i: int| 0 <= i < s.len() implies methods_view(s)[i] == (#[trigger] s[i])@ by {
            if i < s.len() - 1 {
                assert(s.drop_last()[i] == s[i]);
            } else {
                assert(s[i] == s.last());
            }
        }
    }
}

/// Appending a method appends its model.
pub proof fn lemma_methods_push(s: Seq<Method>, m: Method)
    ensures
        methods_view(s.push(m)) == methods_view(s).push(m@),
{
    assert(s.push(m).drop_last() =~= s);
    assert(s.push(m).last() == m);
}

/// The shared stringifier entry every type's table ends with.
pub open spec fn str_method() -> MethodV {
    MethodV {
        name: "str"@,
        kind: MethodKind::Stringify,
        argtypes: Seq::empty(),
        required_args: 0,
        deprecated: false,
    }
}

/// The method table owed to a type: lists get `get` and `index_of`, maps
/// get `get`, and every type gets the shared stringifier last.
pub open spec fn table_spec(t: crate::variables::Ty) -> Seq<MethodV> {
    match t {
        crate::variables::Ty::List => seq![
            MethodV {
                name: "get"@,
                kind: MethodKind::ListGet,
                argtypes: seq![crate::variables::Ty::Int],
                required_args: 1,
                deprecated: false,
            },
            MethodV {
                name: "index_of"@,
                kind: MethodKind::ListIndexOf,
                argtypes: seq![crate::variables::Ty::Any],
                required_args: 1,
                deprecated: false,
            },
            str_method(),
        ],
        crate::variables::Ty::Mapping => seq![
            MethodV {
                name: "get"@,
                kind: MethodKind::MapGet,
                argtypes: seq![crate::variables::Ty::Any],
                required_args: 1,
                deprecated: false,
            },
            str_method(),
        ],
        _ => seq![str_method()],
    }
}

/// Indexes a list, as the `get` method of lists does.
pub fn list_get(list: &Vec<ASVariable>, pos: i64) -> (r: Result<ASVariable, ASError>)
    requires
        val_wf(Val::List(vals_of(list@))),
    ensures
        match r {
            Ok(v) => 0 <= pos < list@.len() && v@ == vals_of(list@)[pos as int] && val_wf(v@) && !(
            v is Empty),
            Err(e) => {
                if pos < 0 {
                    e@ == ErrV::Var(VarErr::NegativeListIndex)
                } else {
                    pos >= list@.len() && e@ == ErrV::Var(
                        VarErr::WrongListIndex { num_items: list@.len() as usize, index: pos },
                    )
                }
            },
        },
{
    proof {
        lemma_vals_of(list@);
    }
    if pos < 0 {
        return Err(ASError::Var(ASVarError::NegativeListIndex));
    }
    if pos as u64 >= list.len() as u64 {
        return Err(
            ASError::Var(ASVarError::WrongListIndex { num_items: list.len(), index: pos }),
        );
    }
    let v = list[pos as usize].duplicate();
    Ok(v)
}

/// The position of the first element structurally equal to `target`, or the
/// absent value when none matches, as the `index_of` method of lists does.
pub fn list_index_of(list: &Vec<ASVariable>, target: &ASVariable) -> (r: ASVariable)
    requires
        val_wf(Val::List(vals_of(list@))),
        val_wf(target@),
        list@.len() <= 0x7fff_ffff_ffff_ffff,
    ensures
        match r {
            ASVariable::Int(i) => 0 <= i < list@.len() && val_equiv(
                vals_of(list@)[i as int],
                target@,
            ) && (forall|j: int| 0 <= j < i ==> !val_equiv(vals_of(list@)[j], target@)),
            ASVariable::Null => forall|j: int|
                0 <= j < list@.len() ==> !val_equiv(vals_of(list@)[j], target@),
            _ => false,
        },
{
    proof {
        lemma_vals_of(list@);
    }
    let mut i: usize = 0;
    while i < list.len()
        invariant
            0 <= i <= list@.len(),
            list@.len() <= 0x7fff_ffff_ffff_ffff,
            vals_of(list@).len() == list@.len(),
            forall|j: int| 0 <= j < list@.len() ==> vals_of(list@)[j] == val_of(#[trigger] list@[j]),
            val_wf(Val::List(vals_of(list@))),
            val_wf(target@),
            forall|j: int| 0 <= j < i ==> !val_equiv(vals_of(list@)[j], target@),
        decreases list@.len() - i,
    {
        proof {
            assert(val_wf(vals_of(list@)[i as int]));
        }
        if list[i].equals(target) {
            return ASVariable::Int(i as i64);
        }
        i = i + 1;
    }
    ASVariable::Null
}

/// Looks a key up in a map's entries, as the `get` method of maps does.
pub fn map_get(entries: &Vec<(crate::variables::KeyVar, ASVariable)>, key: &ASVariable) -> (r:
    Result<ASVariable, ASError>)
    requires
        val_wf(Val::Mapping(entries_of(entries@))),
        !(key is Empty),
    ensures
        match r {
            Ok(v) => val_wf(v@) && !(v is Empty) && (exists|j: int|
                0 <= j < entries@.len() && crate::variables::key_of(key@) == Option::Some(
                    (#[trigger] entries_of(entries@)[j]).0,
                ) && v@ == entries_of(entries@)[j].1),
            Err(e) => match crate::variables::key_of(key@) {
                Option::None => e@ == ErrV::Syntax(
                    crate::error::SynErr::InvalidMapKey { key_type: key@.ty() },
                ),
                Option::Some(k) => (forall|j: int|
                    0 <= j < entries@.len() ==> (#[trigger] entries_of(entries@)[j]).0 != k) && e@
                    == ErrV::Var(VarErr::WrongMapKey { key: k }),
            },
        },
{
    proof {
        lemma_entries_of(entries@);
    }
    let k = match key.duplicate().as_key() {
        Ok(k) => k,
        Err(e) => {
            return Err(ASError::Syntax(e));
        },
    };
    let mut i: usize = 0;
    while i < entries.len()
        invariant
            0 <= i <= entries@.len(),
            entries_of(entries@).len() == entries@.len(),
            forall|j: int|
                0 <= j < entries@.len() ==> entries_of(entries@)[j] == ((
                #[trigger] entries@[j]).0@, val_of(entries@[j].1)),
            val_wf(Val::Mapping(entries_of(entries@))),
            crate::variables::key_of(key@) == Option::Some(k@),
            forall|j: int| 0 <= j < i ==> (#[trigger] entries@[j]).0@ != k@,
        decreases entries@.len() - i,
    {
        if entries[i].0.key_eq(&k) {
            proof {
                assert(val_wf(entries_of(entries@)[i as int].1));
                assert((entries_of(entries@)[i as int]).0 == k@);
            }
            let v = entries[i].1.duplicate();
            return Ok(v);
        }
        i = i + 1;
    }
    proof {
        assert forall|j: int|
            0 <= j < entries@.len() implies (#[trigger] entries_of(entries@)[j]).0 != k@ by {
            assert(entries_of(entries@)[j] == (entries@[j].0@, val_of(entries@[j].1)));
            assert(entries@[j].0@ != k@);
        }
    }
    Err(ASError::Var(ASVarError::WrongMapKey { key: k }))
}

/// A table of methods for one type, with a name-to-name alias table.
pub struct TypeMethods {
    /// The methods, searched in order.
    pub methods: Vec<Method>,
    /// Aliases, each resolving to a method name.
    pub aliases: Vec<(String, String)>,
}

impl TypeMethods {
    /// An empty table.
    pub fn new() -> (r: Self)
        ensures
            r.methods@.len() == 0,
            r.aliases@.len() == 0,
    {
        TypeMethods { methods: Vec::new(), aliases: Vec::new() }
    }

    /// A table from parts.
    pub fn from(methods: Vec<Method>, aliases: Vec<(String, String)>) -> (r: Self)
        ensures
            r.methods@ == methods@,
            r.aliases@ == aliases@,
    {
        TypeMethods { methods, aliases }
    }

    /// The table every type shares: the `str` stringifier.
    pub fn basic() -> (r: Self)
        ensures
            methods_view(r.methods@) == seq![str_method()],
            r.aliases@.len() == 0,
    {
        let mut methods: Vec<Method> = Vec::new();
        methods.push(
            Method {
                name: String::from_str("str"),
                kind: MethodKind::Stringify,
                argtypes: Vec::new(),
                required_args: 0,
                deprecated: false,
            },
        );
        proof {
            lemma_methods_view(methods@);
            assert(types_view(Seq::<ASType>::empty()) =~= Seq::<crate::variables::Ty>::empty());
            assert(methods_view(methods@) =~= seq![str_method()]);
        }
        TypeMethods { methods, aliases: Vec::new() }
    }

    /// Adds another table's methods and aliases after this table's own: the
    /// result is the concatenation.
    pub fn extend(&mut self, other: Self)
        ensures
            methods_view(final(self).methods@) == methods_view(old(self).methods@) + methods_view(
                other.methods@,
            ),
            final(self).aliases@.len() == old(self).aliases@.len() + other.aliases@.len(),
            forall|j: int|
                0 <= j < old(self).aliases@.len() ==> #[trigger] final(self).aliases@[j] == old(
                    self,
                ).aliases@[j],
            forall|j: int|
                0 <= j < other.aliases@.len() ==> (#[trigger] final(self).aliases@[j + old(
                    self,
                ).aliases@.len()]).0@ == other.aliases@[j].0@ && final(self).aliases@[j + old(
                    self,
                ).aliases@.len()].1@ == other.aliases@[j].1@,
    {
        let om = other.methods;
        let oa = other.aliases;
        proof {
            lemma_methods_view(om@);
            lemma_methods_view(old(self).methods@);
        }
        let mut i: usize = 0;
        while i < om.len()
            invariant
                0 <= i <= om@.len(),
                methods_view(om@).len() == om@.len(),
                forall|k: int| 0 <= k < om@.len() ==> methods_view(om@)[k] == (#[trigger] om@[k])@,
                methods_view(self.methods@) == methods_view(old(self).methods@) + methods_view(
                    om@,
                ).subrange(0, i as int),
                self.aliases@ == old(self).aliases@,
            decreases om@.len() - i,
        {
            let m = Method {
                name: om[i].name.clone(),
                kind: om[i].kind.duplicate(),
                argtypes: clone_types(&om[i].argtypes),
                required_args: om[i].required_args,
                deprecated: om[i].deprecated,
            };
            proof {
                lemma_types_view(m.argtypes@);
                lemma_types_view(om@[i as int].argtypes@);
                assert forall|k: int|
                    0 <= k < types_view(m.argtypes@).len() implies types_view(m.argtypes@)[k]
                    == types_view(om@[i as int].argtypes@)[k] by {
                    assert(types_view(m.argtypes@)[k] == m.argtypes@[k]@);
                    assert(types_view(om@[i as int].argtypes@)[k] == om@[i as int].argtypes@[k]@);
                    assert(m.argtypes@[k]@ == om@[i as int].argtypes@[k]@);
                }
                assert(types_view(m.argtypes@) =~= types_view(om@[i as int].argtypes@));
                assert(m@ == om@[i as int]@);
                lemma_methods_push(self.methods@, m);
                assert((methods_view(old(self).methods@) + methods_view(om@).subrange(
                    0,
                    i as int,
                )).push(methods_view(om@)[i as int]) =~= methods_view(old(self).methods@)
                    + methods_view(om@).subrange(0, i + 1));
            }
            self.methods.push(m);
            i = i + 1;
        }
        proof {
            assert(methods_view(om@).subrange(0, om@.len() as int) =~= methods_view(om@));
        }
        let mut j: usize = 0;
        while j < oa.len()
            invariant
                0 <= j <= oa@.len(),
                methods_view(self.methods@) == methods_view(old(self).methods@) + methods_view(
                    om@,
                ),
                self.aliases@.len() == old(self).aliases@.len() + j,
                forall|k: int|
                    0 <= k < old(self).aliases@.len() ==> #[trigger] self.aliases@[k] == old(
                        self,
                    ).aliases@[k],
                forall|k: int|
                    0 <= k < j ==> (#[trigger] self.aliases@[k + old(self).aliases@.len()]).0@
                        == oa@[k].0@ && self.aliases@[k + old(self).aliases@.len()].1@
                        == oa@[k].1@,
            decreases oa@.len() - j,
        {
            self.aliases.push((oa[j].0.clone(), oa[j].1.clone()));
            j = j + 1;
        }
    }

    /// Finds a method by name, resolving one level of aliases at a time.
    pub fn get(&self, name: &str) -> (r: Option<&Method>)
        decreases self.aliases@.len(),
    {
        let mut i: usize = 0;
        while i < self.methods.len()
            decreases self.methods@.len() - i,
        {
            if crate::text::str_eq(self.methods[i].name.as_str(), name) {
                return Some(&self.methods[i]);
            }
            i = i + 1;
        }
        let mut j: usize = 0;
        while j < self.aliases.len()
            decreases self.aliases@.len() - j,
        {
            if crate::text::str_eq(self.aliases[j].0.as_str(), name) {
                return self.get_direct(self.aliases[j].1.as_str());
            }
            j = j + 1;
        }
        None
    }

    /// Finds a method by name without following aliases.
    fn get_direct(&self, name: &str) -> (r: Option<&Method>) {
        let mut i: usize = 0;
        while i < self.methods.len()
            decreases self.methods@.len() - i,
        {
            if crate::text::str_eq(self.methods[i].name.as_str(), name) {
                return Some(&self.methods[i]);
            }
            i = i + 1;
        }
        None
    }

    /// The method table for a type: lists get `get` and `index_of`, maps get
    /// `get`, and every type gets the shared stringifier.
    pub fn get_for_type(type_: &ASType) -> (r: Self)
        ensures
            methods_view(r.methods@) == table_spec(type_@),
            r.aliases@.len() == 0,
    {
        let mut methods: Vec<Method> = Vec::new();
        match type_ {
            ASType::List => {
                let mut get_args: Vec<ASType> = Vec::new();
                get_args.push(ASType::Int);
                proof {
                    lemma_types_view(get_args@);
                    assert(types_view(get_args@) =~= seq![crate::variables::Ty::Int]);
                }
                methods.push(
                    Method {
                        name: String::from_str("get"),
                        kind: MethodKind::ListGet,
                        argtypes: get_args,
                        required_args: 1,
                        deprecated: false,
                    },
                );
                let mut index_args: Vec<ASType> = Vec::new();
                index_args.push(ASType::Any);
                proof {
                    lemma_types_view(index_args@);
                    assert(types_view(index_args@) =~= seq![crate::variables::Ty::Any]);
                }
                methods.push(
                    Method {
                        name: String::from_str("index_of"),
                        kind: MethodKind::ListIndexOf,
                        argtypes: index_args,
                        required_args: 1,
                        deprecated: false,
                    },
                );
            },
            ASType::Mapping => {
                let mut get_args: Vec<ASType> = Vec::new();
                get_args.push(ASType::Any);
                proof {
                    lemma_types_view(get_args@);
                    assert(types_view(get_args@) =~= seq![crate::variables::Ty::Any]);
                }
                methods.push(
                    Method {
                        name: String::from_str("get"),
                        kind: MethodKind::MapGet,
                        argtypes: get_args,
                        required_args: 1,
                        deprecated: false,
                    },
                );
            },
            _ => {},
        }
        methods.push(
            Method {
                name: String::from_str("str"),
                kind: MethodKind::Stringify,
                argtypes: Vec::new(),
                required_args: 0,
                deprecated: false,
            },
        );
        proof {
            lemma_methods_view(methods@);
            assert(types_view(Seq::<ASType>::empty()) =~= Seq::<crate::variables::Ty>::empty());
            match type_ {
                ASType::List => {
                    assert(methods@[0]@.argtypes =~= seq![crate::variables::Ty::Int]);
                    assert(methods@[0]@ == table_spec(type_@)[0]);
                    assert(methods@[1]@.argtypes =~= seq![crate::variables::Ty::Any]);
                    assert(methods@[1]@ == table_spec(type_@)[1]);
                    assert(methods@[2]@ == table_spec(type_@)[2]);
                },
                ASType::Mapping => {
                    assert(methods@[0]@.argtypes =~= seq![crate::variables::Ty::Any]);
                    assert(methods@[0]@ == table_spec(type_@)[0]);
                    assert(methods@[1]@ == table_spec(type_@)[1]);
                },
                _ => {
                    assert(methods@[0]@ == table_spec(type_@)[0]);
                },
            }
            assert(methods_view(methods@) =~= table_spec(type_@));
        }
        TypeMethods { methods, aliases: Vec::new() }
    }
}

/// Clones a list of type tags.
fn clone_types(v: &Vec<ASType>) -> (r: Vec<ASType>)
    ensures
        r@.len() == v@.len(),
        forall|i: int| 0 <= i < v@.len() ==> #[trigger] r@[i]@ == v@[i]@,
{
    let mut out: Vec<ASType> = Vec::new();
    let mut i: usize = 0;
    while i < v.len()
        invariant
            0 <= i <= v@.len(),
            out@.len() == i,
            forall|j: int| 0 <= j < i ==> #[trigger] out@[j]@ == v@[j]@,
        decreases v@.len() - i,
    {
        let t = match &v[i] {
            ASType::Any => ASType::Any,
            ASType::Bool => ASType::Bool,
            ASType::Int => ASType::Int,
            ASType::String => ASType::String,
            ASType::List => ASType::List,
            ASType::Mapping => ASType::Mapping,
            ASType::Label => ASType::Label,
            ASType::VarRef => ASType::VarRef,
            ASType::Null => ASType::Null,
            ASType::Object(s) => ASType::Object(
                chars_to_string(&string_to_chars(s.as_str())),
            ),
        };
        out.push(t);
        i = i + 1;
    }
    out
}

impl MethodKind {
    /// Copies the tag.
    pub fn duplicate(&self) -> (r: MethodKind)
        ensures
            r == *self,
    {
        match self {
            MethodKind::Stringify => MethodKind::Stringify,
            MethodKind::ListGet => MethodKind::ListGet,
            MethodKind::ListIndexOf => MethodKind::ListIndexOf,
            MethodKind::MapGet => MethodKind::MapGet,
        }
    }
}

} // verus!
