//! User-facing text for values: each variant renders into the form the
//! interpreter shows to the player.

use vstd::prelude::*;

use crate::text::chars_to_string;
use crate::text::dec_rep_signed;
use crate::text::render_i64;
use crate::variables::entries_of;
use crate::variables::lemma_entries_of;
use crate::variables::lemma_vals_of;
use crate::variables::val_of;
use crate::variables::vals_of;
use crate::variables::ASVariable;
use crate::variables::KeyVal;
use crate::variables::KeyVar;
use crate::variables::Val;

verus! {

/// The rendered text of a map key.
pub open spec fn render_key(k: KeyVal) -> Seq<char> {
    match k {
        KeyVal::Bool(b) => if b {
            "true"@
        } else {
            "false"@
        },
        KeyVal::Int(i) => dec_rep_signed(i as int),
        KeyVal::Str(s) => s,
    }
}

/// The rendered text of a value: `None` for the absent value, `true` or
/// `false` for booleans, decimal digits for integers, the raw text for
/// strings, `[e1, e2, ...]` for lists, `{k1: v1, ...}` for maps in entry
/// order, `Label {name}` or `Null label` for labels, `Flag name` or
/// `Variable name` for references, and a type notice for objects. The
/// internal `Empty` sentinel renders as nothing.
pub open spec fn render_val(v: Val) -> Seq<char>
    decreases v, 1int,
{
    match v {
        Val::Empty => Seq::empty(),
        Val::Null => "None"@,
        Val::Bool(b) => if b {
            "true"@
        } else {
            "false"@
        },
        Val::Int(i) => dec_rep_signed(i as int),
        Val::Str(s) => s,
        Val::List(l) => "["@ + render_list_items(l) + "]"@,
        Val::Mapping(m) => "{"@ + render_map_items(m) + "}"@,
        Val::Label(n) => match n {
            Option::Some(name) => "Label {"@ + name + "}"@,
            Option::None => "Null label"@,
        },
        Val::VarRef { name, flag } => if flag {
            "Flag "@ + name
        } else {
            "Variable "@ + name
        },
        Val::Object { spec, .. } => "<Object type "@ + spec + ">"@,
    }
}

/// The rendered items of a list, separated by `", "`.
pub open spec fn render_list_items(l: Seq<Val>) -> Seq<char>
    decreases l, 0int,
{
    if l.len() == 0 {
        Seq::empty()
    } else if l.len() == 1 {
        render_val(l.last())
    } else {
        render_list_items(l.drop_last()) + ", "@ + render_val(l.last())
    }
}

/// The rendered entries of a map, `key: value`, separated by `", "`.
pub open spec fn render_map_items(m: Seq<(KeyVal, Val)>) -> Seq<char>
    decreases m, 0int,
{
    if m.len() == 0 {
        Seq::empty()
    } else if m.len() == 1 {
        render_key(m.last().0) + ": "@ + render_val(m.last().1)
    } else {
        render_map_items(m.drop_last()) + ", "@ + render_key(m.last().0) + ": "@ + render_val(
            m.last().1,
        )
    }
}

/// Appends a string slice to a character buffer.
fn append_chars(buf: &mut Vec<char>, s: &str)
    ensures
        final(buf)@ == old(buf)@ + s@,
{
    let chars = crate::text::string_to_chars(s);
    let mut i: usize = 0;
    while i < chars.len()
        invariant
            0 <= i <= chars@.len(),
            chars@ == s@,
            buf@ == old(buf)@ + s@.subrange(0, i as int),
        decreases chars@.len() - i,
    {
        buf.push(chars[i]);
        proof {
            assert((old(buf)@ + s@.subrange(0, i as int)).push(s@[i as int]) =~= old(buf)@
                + s@.subrange(0, i + 1));
        }
        i = i + 1;
    }
    proof {
        assert(s@.subrange(0, s@.len() as int) =~= s@);
        assert(old(buf)@ + s@ =~= buf@);
    }
}

/// Appends a character vector to a character buffer.
fn append_vec(buf: &mut Vec<char>, s: &Vec<char>)
    ensures
        final(buf)@ == old(buf)@ + s@,
{
    let mut i: usize = 0;
    while i < s.len()
        invariant
            0 <= i <= s@.len(),
            buf@ == old(buf)@ + s@.subrange(0, i as int),
        decreases s@.len() - i,
    {
        buf.push(s[i]);
        proof {
            assert((old(buf)@ + s@.subrange(0, i as int)).push(s@[i as int]) =~= old(buf)@
                + s@.subrange(0, i + 1));
        }
        i = i + 1;
    }
    proof {
        assert(s@.subrange(0, s@.len() as int) =~= s@);
        assert(old(buf)@ + s@ =~= buf@);
    }
}

/// Renders a key into a character buffer.
fn render_key_into(k: &KeyVar, buf: &mut Vec<char>)
    ensures
        final(buf)@ == old(buf)@ + render_key(k@),
{
    match k {
        KeyVar::Bool(b) => {
            if *b {
                append_chars(buf, "true");
            } else {
                append_chars(buf, "false");
            }
        },
        KeyVar::Int(i) => {
            let digits = render_i64(*i);
            append_vec(buf, &digits);
        },
        KeyVar::String(s) => {
            append_chars(buf, s.as_str());
        },
    }
}

impl ASVariable {
    /// Renders the value into a character buffer.
    fn render_into(&self, buf: &mut Vec<char>)
        ensures
            final(buf)@ == old(buf)@ + render_val(self@),
        decreases *self,
    {
        match self {
            ASVariable::Empty => {
                proof {
                    assert(old(buf)@ + render_val(self@) =~= old(buf)@);
                }
            },
            ASVariable::Null => append_chars(buf, "None"),
            ASVariable::Bool(b) => {
                if *b {
                    append_chars(buf, "true");
                } else {
                    append_chars(buf, "false");
                }
            },
            ASVariable::Int(i) => {
                let digits = render_i64(*i);
                append_vec(buf, &digits);
            },
            ASVariable::String(s) => append_chars(buf, s.as_str()),
            ASVariable::List(l) => {
                proof {
                    lemma_vals_of(l@);
                    reveal_strlit("[");
                    reveal_strlit("]");
                    reveal_strlit(", ");
                    assert(old(buf)@.push('[') =~= old(buf)@ + "["@);
                }
                buf.push('[');
                let ghost items = vals_of(l@);
                let mut i: usize = 0;
                while i < l.len()
                    invariant
                        0 <= i <= l@.len(),
                        items == vals_of(l@),
                        items.len() == l@.len(),
                        forall|j: int| 0 <= j < l@.len() ==> items[j] == val_of(#[trigger] l@[j]),
                        buf@ == old(buf)@ + "["@ + render_list_items(items.subrange(0, i as int)),
                        *self == ASVariable::List(*l),
                    decreases l@.len() - i,
                {
                    proof {
                        assert(decreases_to!(*self => (*self)->List_0));
                        assert((*self)->List_0 == *l);
                        assert(decreases_to!(*l => l@));
                        assert(decreases_to!(l@ => l@[i as int]));
                    }
                    if i > 0 {
                        append_chars(buf, ", ");
                    }
                    l[i].render_into(buf);
                    proof {
                        let pre = items.subrange(0, i as int);
                        let post = items.subrange(0, i + 1);
                        assert(post.drop_last() =~= pre);
                        assert(post.last() == val_of(l@[i as int]));
                        if i == 0 {
                            assert(render_list_items(post) == render_val(items[0]));
                            assert(old(buf)@ + "["@ + render_val(items[0]) =~= buf@);
                        } else {
                            assert(render_list_items(post) == render_list_items(pre) + ", "@
                                + render_val(items[i as int]));
                            assert(old(buf)@ + "["@ + render_list_items(post) =~= buf@);
                        }
                    }
                    i = i + 1;
                }
                proof {
                    reveal_strlit("]");
                }
                buf.push(']');
                proof {
                    assert(items.subrange(0, items.len() as int) =~= items);
                    assert(("["@ + render_list_items(items)).push(']') =~= "["@ + render_list_items(
                        items,
                    ) + "]"@);
                    assert((old(buf)@ + "["@ + render_list_items(items)).push(']') =~= old(buf)@
                        + render_val(self@));
                }
            },
            ASVariable::Mapping(m) => {
                proof {
                    lemma_entries_of(m@);
                    reveal_strlit("{");
                    reveal_strlit("}");
                    reveal_strlit(", ");
                    reveal_strlit(": ");
                    assert(old(buf)@.push('{') =~= old(buf)@ + "{"@);
                }
                buf.push('{');
                let ghost items = entries_of(m@);
                let mut i: usize = 0;
                while i < m.len()
                    invariant
                        0 <= i <= m@.len(),
                        items == entries_of(m@),
                        items.len() == m@.len(),
                        forall|j: int|
                            0 <= j < m@.len() ==> items[j] == ((#[trigger] m@[j]).0@, val_of(
                                m@[j].1,
                            )),
                        buf@ == old(buf)@ + "{"@ + render_map_items(items.subrange(0, i as int)),
                        *self == ASVariable::Mapping(*m),
                    decreases m@.len() - i,
                {
                    proof {
                        assert(decreases_to!(*self => (*self)->Mapping_0));
                        assert((*self)->Mapping_0 == *m);
                        assert(decreases_to!(*m => m@));
                        assert(decreases_to!(m@ => m@[i as int]));
                        assert(decreases_to!(m@[i as int] => m@[i as int].1));
                    }
                    if i > 0 {
                        append_chars(buf, ", ");
                    }
                    render_key_into(&m[i].0, buf);
                    append_chars(buf, ": ");
                    m[i].1.render_into(buf);
                    proof {
                        let pre = items.subrange(0, i as int);
                        let post = items.subrange(0, i + 1);
                        assert(post.drop_last() =~= pre);
                        assert(post.last() == (m@[i as int].0@, val_of(m@[i as int].1)));
                        if i == 0 {
                            assert(render_map_items(post) == render_key(items[0].0) + ": "@
                                + render_val(items[0].1));
                            assert(old(buf)@ + "{"@ + render_map_items(post) =~= buf@);
                        } else {
                            assert(render_map_items(post) == render_map_items(pre) + ", "@
                                + render_key(items[i as int].0) + ": "@ + render_val(
                                items[i as int].1,
                            ));
                            assert(old(buf)@ + "{"@ + render_map_items(post) =~= buf@);
                        }
                    }
                    i = i + 1;
                }
                proof {
                    reveal_strlit("}");
                }
                buf.push('}');
                proof {
                    assert(items.subrange(0, items.len() as int) =~= items);
                    assert(("{"@ + render_map_items(items)).push('}') =~= "{"@ + render_map_items(
                        items,
                    ) + "}"@);
                    assert((old(buf)@ + "{"@ + render_map_items(items)).push('}') =~= old(buf)@
                        + render_val(self@));
                }
            },
            ASVariable::Label(n) => match n {
                Option::Some(name) => {
                    append_chars(buf, "Label {");
                    append_chars(buf, name.as_str());
                    push_char_into(buf, '}');
                    proof {
                        reveal_strlit("}");
                        assert(seq!['}'] =~= "}"@);
                        assert(old(buf)@ + "Label {"@ + name@ + "}"@ =~= old(buf)@ + render_val(
                            self@,
                        ));
                    }
                },
                Option::None => append_chars(buf, "Null label"),
            },
            ASVariable::VarRef { name, flag } => {
                if *flag {
                    append_chars(buf, "Flag ");
                } else {
                    append_chars(buf, "Variable ");
                }
                append_chars(buf, name.as_str());
                proof {
                    if *flag {
                        assert(old(buf)@ + "Flag "@ + name@ =~= old(buf)@ + render_val(self@));
                    } else {
                        assert(old(buf)@ + "Variable "@ + name@ =~= old(buf)@ + render_val(self@));
                    }
                }
            },
            ASVariable::Object { spec, .. } => {
                append_chars(buf, "<Object type ");
                append_chars(buf, spec.as_str());
                push_char_into(buf, '>');
                proof {
                    reveal_strlit(">");
                    assert(seq!['>'] =~= ">"@);
                    assert(old(buf)@ + "<Object type "@ + spec@ + ">"@ =~= old(buf)@ + render_val(
                        self@,
                    ));
                }
            },
        }
    }

    /// The user-facing text of the value.
    pub fn to_text(&self) -> (r: String)
        ensures
            r@ == render_val(self@),
    {
        let mut buf: Vec<char> = Vec::new();
        self.render_into(&mut buf);
        proof {
            assert(Seq::<char>::empty() + render_val(self@) =~= render_val(self@));
        }
        chars_to_string(&buf)
    }
}

/// Appends one character, as sequence concatenation.
fn push_char_into(buf: &mut Vec<char>, c: char)
    ensures
        final(buf)@ == old(buf)@ + seq![c],
{
    buf.push(c);
    proof {
        assert(old(buf)@.push(c) =~= old(buf)@ + seq![c]);
    }
}

} // verus!
