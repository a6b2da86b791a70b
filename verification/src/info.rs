//! The interpreter control state: the script buffer, the instruction
//! pointer, the variable and flag stores, label resolution, and the quitting
//! flag that ends the session.

use vstd::prelude::*;

use crate::error::ASError;
use crate::error::ASOtherError;
use crate::error::ASSyntaxError;
use crate::error::ASVarError;
use crate::error::ErrV;
use crate::error::SynErr;
use crate::error::VarErr;
use crate::text::chars_to_string;
use crate::text::chars_eq;
use crate::text::push_char;
use crate::text::string_to_chars;
use crate::text::trim;
use crate::text::trim_chars;
use crate::text::trim_end;
use crate::text::trim_end_chars;
use crate::variables::val_wf;
use crate::variables::ASVariable;
use crate::variables::Val;

verus! {

/// An association store from names to values, with unique keys.
pub struct StrMap<V> {
    pairs: Vec<(String, V)>,
}

/// The mapping described by an association list, later entries winning.
pub open spec fn assoc_view<V>(s: Seq<(String, V)>) -> Map<Seq<char>, V>
    decreases s.len(),
{
    if s.len() == 0 {
        Map::empty()
    } else {
        assoc_view(s.drop_last()).insert(s.last().0@, s.last().1)
    }
}

impl<V> StrMap<V> {
    /// The names in the store are pairwise distinct.
    pub closed spec fn wf(&self) -> bool {
        forall|i: int, j: int|
            0 <= i < j < self.pairs@.len() ==> (#[trigger] self.pairs@[i]).0@ != (
            #[trigger] self.pairs@[j]).0@
    }

    /// The store as a mathematical map.
    pub closed spec fn view_map(&self) -> Map<Seq<char>, V> {
        assoc_view(self.pairs@)
    }

    /// The stored pairs, in insertion order.
    pub closed spec fn pairs_view(&self) -> Seq<(String, V)> {
        self.pairs@
    }

    /// An empty store.
    pub fn new() -> (r: Self)
        ensures
            r.wf(),
            r.view_map() == Map::<Seq<char>, V>::empty(),
            r.pairs_view().len() == 0,
    {
        StrMap { pairs: Vec::new() }
    }

    /// Looks a name up.
    pub fn get(&self, name: &str) -> (r: Option<&V>)
        requires
            self.wf(),
        ensures
            match r {
                Some(v) => self.view_map().contains_key(name@) && *v == self.view_map()[name@],
                None => !self.view_map().contains_key(name@),
            },
    {
        proof {
            lemma_assoc_view(self.pairs@, name@);
        }
        let mut i: usize = 0;
        while i < self.pairs.len()
            invariant
                0 <= i <= self.pairs@.len(),
                forall|j: int| 0 <= j < i ==> (#[trigger] self.pairs@[j]).0@ != name@,
                self.wf(),
                assoc_contains(self.pairs@, name@) == self.view_map().contains_key(name@),
                forall|j: int|
                    0 <= j < self.pairs@.len() && (#[trigger] self.pairs@[j]).0@ == name@
                        && self.wf() ==> self.view_map().contains_key(name@)
                        && self.view_map()[name@] == self.pairs@[j].1,
            decreases self.pairs@.len() - i,
        {
            if crate::text::str_eq(self.pairs[i].0.as_str(), name) {
                return Some(&self.pairs[i].1);
            }
            i = i + 1;
        }
        proof {
            assert(!assoc_contains(self.pairs@, name@)) by {
                if assoc_contains(self.pairs@, name@) {
                    let j = choose|j: int|
                        0 <= j < self.pairs@.len() && (#[trigger] self.pairs@[j]).0@ == name@;
                    assert(false);
                }
            }
        }
        None
    }

    /// Stores a value under a name, replacing any existing entry.
    pub fn set(&mut self, name: String, value: V)
        requires
            old(self).wf(),
        ensures
            final(self).wf(),
            final(self).view_map() == old(self).view_map().insert(name@, value),
    {
        let ghost oldpairs = self.pairs@;
        let mut i: usize = 0;
        while i < self.pairs.len()
            invariant
                0 <= i <= self.pairs@.len(),
                self.pairs@ == oldpairs,
                old(self).pairs_view() == oldpairs,
                old(self).wf(),
                forall|j: int| 0 <= j < i ==> (#[trigger] oldpairs[j]).0@ != name@,
            decreases self.pairs@.len() - i,
        {
            if crate::text::str_eq(self.pairs[i].0.as_str(), name.as_str()) {
                let ghost jj = i as int;
                self.pairs.set(i, (name, value));
                proof {
                    lemma_assoc_update(oldpairs, self.pairs@, jj, name@, value);
                }
                return ;
            }
            i = i + 1;
        }
        self.pairs.push((name, value));
        proof {
            assert(self.pairs@.drop_last() =~= oldpairs);
            assert(final(self).view_map() == old(self).view_map().insert(name@, value));
        }
    }

    /// Removes a name from the store. Reports whether it was present.
    pub fn remove(&mut self, name: &str) -> (present: bool)
        requires
            old(self).wf(),
        ensures
            final(self).wf(),
            present == old(self).view_map().contains_key(name@),
            final(self).view_map() == old(self).view_map().remove(name@),
    {
        let ghost oldpairs = self.pairs@;
        proof {
            lemma_assoc_view(oldpairs, name@);
        }
        let mut i: usize = 0;
        while i < self.pairs.len()
            invariant
                0 <= i <= self.pairs@.len(),
                self.pairs@ == oldpairs,
                old(self).pairs_view() == oldpairs,
                old(self).wf(),
                forall|j: int| 0 <= j < i ==> (#[trigger] oldpairs[j]).0@ != name@,
            decreases self.pairs@.len() - i,
        {
            if crate::text::str_eq(self.pairs[i].0.as_str(), name) {
                let ghost jj = i as int;
                self.pairs.remove(i);
                proof {
                    lemma_assoc_view(oldpairs, name@);
                    assert((oldpairs[jj]).0@ == name@);
                    lemma_assoc_remove(oldpairs, self.pairs@, jj, name@);
                }
                return true;
            }
            i = i + 1;
        }
        proof {
            assert(!assoc_contains(oldpairs, name@)) by {
                if assoc_contains(oldpairs, name@) {
                    let j = choose|j: int|
                        0 <= j < oldpairs.len() && (#[trigger] oldpairs[j]).0@ == name@;
                    assert(false);
                }
            }
            assert(old(self).view_map().remove(name@) =~= old(self).view_map());
        }
        false
    }

    /// Empties the store.
    pub fn clear(&mut self)
        ensures
            final(self).wf(),
            final(self).view_map() == Map::<Seq<char>, V>::empty(),
            final(self).pairs_view().len() == 0,
    {
        self.pairs = Vec::new();
    }

    /// The stored pairs, for a host that wants to walk the whole store.
    pub fn items(&self) -> (r: &Vec<(String, V)>)
        ensures
            r@ == self.pairs_view(),
    {
        &self.pairs
    }
}

/// Whether an association list holds a name.
pub open spec fn assoc_contains<V>(s: Seq<(String, V)>, name: Seq<char>) -> bool {
    exists|j: int| 0 <= j < s.len() && (#[trigger] s[j]).0@ == name
}

/// With unique names, the association view holds exactly the listed names,
/// each at its listed value.
proof fn lemma_assoc_view<V>(s: Seq<(String, V)>, name: Seq<char>)
    requires
        forall|i: int, j: int|
            0 <= i < j < s.len() ==> (#[trigger] s[i]).0@ != (#[trigger] s[j]).0@,
    ensures
        assoc_view(s).contains_key(name) == assoc_contains(s, name),
        forall|j: int|
            0 <= j < s.len() && (#[trigger] s[j]).0@ == name ==> assoc_view(s).contains_key(name)
                && assoc_view(s)[name] == s[j].1,
    decreases s.len(),
{
    if s.len() > 0 {
        assert(forall|i: int, j: int|
            0 <= i < j < s.drop_last().len() ==> (#[trigger] s.drop_last()[i]).0@ != (
            #[trigger] s.drop_last()[j]).0@) by {
            assert(forall|i: int| 0 <= i < s.len() - 1 ==> s.drop_last()[i] == #[trigger] s[i]);
        }
        lemma_assoc_view(s.drop_last(), name);
        assert(forall|i: int| 0 <= i < s.len() - 1 ==> s.drop_last()[i] == #[trigger] s[i]);
        if s.last().0@ == name {
            assert(s[s.len() - 1].0@ == name);
        } else {
            if assoc_contains(s, name) {
                let j = choose|j: int| 0 <= j < s.len() && (#[trigger] s[j]).0@ == name;
                assert(j < s.len() - 1);
                assert(s.drop_last()[j].0@ == name);
            }
            if assoc_contains(s.drop_last(), name) {
                let j = choose|j: int|
                    0 <= j < s.drop_last().len() && (#[trigger] s.drop_last()[j]).0@ == name;
                assert(s[j].0@ == name);
            }
        }
    }
}

/// Replacing the entry at the unique position of a name updates the view as
/// a map insertion.
proof fn lemma_assoc_update<V>(
    olds: Seq<(String, V)>,
    news: Seq<(String, V)>,
    j: int,
    name: Seq<char>,
    value: V,
)
    requires
        forall|a: int, b: int|
            0 <= a < b < olds.len() ==> (#[trigger] olds[a]).0@ != (#[trigger] olds[b]).0@,
        0 <= j < olds.len(),
        olds[j].0@ == name,
        news.len() == olds.len(),
        forall|a: int| 0 <= a < olds.len() && a != j ==> #[trigger] news[a] == olds[a],
        news[j].0@ == name,
        news[j].1 == value,
    ensures
        forall|a: int, b: int|
            0 <= a < b < news.len() ==> (#[trigger] news[a]).0@ != (#[trigger] news[b]).0@,
        assoc_view(news) == assoc_view(olds).insert(name, value),
    decreases olds.len(),
{
    if olds.len() > 0 {
        assert(forall|i: int|
            0 <= i < olds.len() - 1 ==> olds.drop_last()[i] == #[trigger] olds[i]);
        assert(forall|i: int|
            0 <= i < news.len() - 1 ==> news.drop_last()[i] == #[trigger] news[i]);
        if j == olds.len() - 1 {
            assert(news.drop_last() =~= olds.drop_last());
            assert(assoc_view(news) == assoc_view(olds.drop_last()).insert(name, value));
            assert(assoc_view(olds) == assoc_view(olds.drop_last()).insert(name, olds[j].1));
            assert(assoc_view(olds.drop_last()).insert(name, value) =~= assoc_view(
                olds.drop_last(),
            ).insert(name, olds[j].1).insert(name, value));
        } else {
            lemma_assoc_update(olds.drop_last(), news.drop_last(), j, name, value);
            assert(news.last() == olds.last());
            assert(olds.last().0@ != name);
            assert(assoc_view(news) == assoc_view(olds.drop_last()).insert(name, value).insert(
                olds.last().0@,
                olds.last().1,
            ));
            assert(assoc_view(olds.drop_last()).insert(name, value).insert(
                olds.last().0@,
                olds.last().1,
            ) =~= assoc_view(olds.drop_last()).insert(olds.last().0@, olds.last().1).insert(
                name,
                value,
            ));
        }
    }
}

/// Removing the entry at the unique position of a name updates the view as a
/// map removal.
proof fn lemma_assoc_remove<V>(olds: Seq<(String, V)>, news: Seq<(String, V)>, j: int, name: Seq<
    char,
>)
    requires
        forall|a: int, b: int|
            0 <= a < b < olds.len() ==> (#[trigger] olds[a]).0@ != (#[trigger] olds[b]).0@,
        0 <= j < olds.len(),
        olds[j].0@ == name,
        news == olds.remove(j),
    ensures
        forall|a: int, b: int|
            0 <= a < b < news.len() ==> (#[trigger] news[a]).0@ != (#[trigger] news[b]).0@,
        assoc_view(news) == assoc_view(olds).remove(name),
    decreases olds.len(),
{
    assert(news.len() == olds.len() - 1);
    assert(forall|a: int| 0 <= a < j ==> #[trigger] news[a] == olds[a]);
    assert(forall|a: int| j <= a < news.len() ==> #[trigger] news[a] == olds[a + 1]);
    if j == olds.len() - 1 {
        assert(news =~= olds.drop_last());
        lemma_assoc_absent(olds.drop_last(), name);
        assert(assoc_view(olds) == assoc_view(olds.drop_last()).insert(name, olds[j].1));
        assert(assoc_view(olds).remove(name) =~= assoc_view(olds.drop_last()));
    } else {
        assert(forall|i: int|
            0 <= i < olds.len() - 1 ==> olds.drop_last()[i] == #[trigger] olds[i]);
        assert(news.drop_last() =~= olds.drop_last().remove(j));
        lemma_assoc_remove(olds.drop_last(), news.drop_last(), j, name);
        assert(news.last() == olds.last());
        assert(olds.last().0@ != name);
        assert(assoc_view(news) == assoc_view(olds.drop_last()).remove(name).insert(
            olds.last().0@,
            olds.last().1,
        ));
        assert(assoc_view(olds.drop_last()).remove(name).insert(olds.last().0@, olds.last().1)
            =~= assoc_view(olds.drop_last()).insert(olds.last().0@, olds.last().1).remove(name));
    }
}

/// A name that occurs nowhere in a unique-keyed association list is not in
/// its view.
proof fn lemma_assoc_absent<V>(s: Seq<(String, V)>, name: Seq<char>)
    requires
        forall|i: int, j: int|
            0 <= i < j < s.len() ==> (#[trigger] s[i]).0@ != (#[trigger] s[j]).0@,
        forall|j: int| 0 <= j < s.len() ==> (#[trigger] s[j]).0@ != name,
    ensures
        !assoc_view(s).contains_key(name),
    decreases s.len(),
{
    if s.len() > 0 {
        assert(forall|i: int| 0 <= i < s.len() - 1 ==> s.drop_last()[i] == #[trigger] s[i]);
        lemma_assoc_absent(s.drop_last(), name);
        assert(s[s.len() - 1].0@ != name);
    }
}

/// The character sequences of a list of lines.
pub open spec fn lines_view(s: Seq<String>) -> Seq<Seq<char>>
    decreases s.len(),
{
    if s.len() == 0 {
        Seq::empty()
    } else {
        lines_view(s.drop_last()).push(s.last()@)
    }
}

/// The view of a line list is the pointwise view of its lines.
pub proof fn lemma_lines_view(s: Seq<String>)
    ensures
        lines_view(s).len() == s.len(),
        forall|i: int| 0 <= i < s.len() ==> lines_view(s)[i] == (#[trigger] s[i])@,
    decreases s.len(),
{
    if s.len() > 0 {
        lemma_lines_view(s.drop_last());
        assert forall|i: int| 0 <= i < s.len() implies lines_view(s)[i] == (#[trigger] s[i])@ by {
            if i < s.len() - 1 {
                assert(s.drop_last()[i] == s[i]);
            } else {
                assert(s[i] == s.last());
            }
        }
    }
}

/// Whether a script line is exactly the label line `{name}` after trimming.
pub open spec fn line_is_label(line: Seq<char>, name: Seq<char>) -> bool {
    trim(line) == seq!['{'] + name + seq!['}']
}

/// The line numbers whose lines are exactly `{name}`, in order.
pub open spec fn label_positions(script: Seq<Seq<char>>, name: Seq<char>) -> Seq<int>
    decreases script.len(),
{
    if script.len() == 0 {
        Seq::empty()
    } else if line_is_label(script.last(), name) {
        label_positions(script.drop_last(), name).push(script.len() - 1)
    } else {
        label_positions(script.drop_last(), name)
    }
}

/// The interpreter control state: the script buffer, the instruction
/// pointer, the quitting flag, and the variable and flag stores.
pub struct GameInfo {
    /// The name of the loaded script.
    pub script_name: String,
    /// The script's raw lines.
    pub script: Vec<String>,
    /// The instruction pointer: an index into the script lines.
    pub pointer: i64,
    /// Set once the session is over; the line driver stops on it.
    pub quitting: bool,
    /// The boolean-only flag store.
    pub flags: StrMap<bool>,
    /// The general variable store.
    pub variables: StrMap<ASVariable>,
    /// Whether the session runs in verbose/debug mode.
    pub debug: bool,
    /// Whether saving is currently allowed.
    pub allow_save: bool,
    /// The text shown since the last screen clear, for save files.
    pub screentext: String,
}

impl GameInfo {
    /// Validity of the whole state: unique store keys, well-formed stored
    /// values, and a script short enough to index with the pointer.
    pub open spec fn wf(&self) -> bool {
        &&& self.flags.wf()
        &&& self.variables.wf()
        &&& forall|k: Seq<char>|
            self.variables.view_map().contains_key(k) ==> val_wf(
                (#[trigger] self.variables.view_map()[k])@,
            ) && !(self.variables.view_map()[k] is Empty)
        &&& self.script_view().len() <= 0x7fff_ffff_ffff_ffff
    }

    /// The script lines, as character sequences.
    pub open spec fn script_view(&self) -> Seq<Seq<char>> {
        lines_view(self.script@)
    }

    /// The variable store as a map from names to value models.
    pub open spec fn vars_view(&self) -> Map<Seq<char>, Val> {
        self.variables.view_map().map_values(|v: ASVariable| v@)
    }

    /// The flag store as a map from names to booleans.
    pub open spec fn flags_view(&self) -> Map<Seq<char>, bool> {
        self.flags.view_map()
    }

    /// Creates a fresh session state: empty script, pointer at the first
    /// line, both stores empty, not quitting.
    pub fn create(debug: bool) -> (r: GameInfo)
        ensures
            r.wf(),
            r.script_view().len() == 0,
            r.pointer == 0,
            !r.quitting,
            r.flags_view() == Map::<Seq<char>, bool>::empty(),
            r.vars_view() =~= Map::<Seq<char>, Val>::empty(),
            r.debug == debug,
            r.allow_save,
            r.screentext@.len() == 0,
    {
        let r = GameInfo {
            script_name: String::from_str("start"),
            script: Vec::new(),
            pointer: 0,
            quitting: false,
            flags: StrMap::new(),
            variables: StrMap::new(),
            debug,
            allow_save: true,
            screentext: String::new(),
        };
        proof {
            lemma_lines_view(r.script@);
            assert(r.script_view() =~= Seq::<Seq<char>>::empty());
        }
        r
    }

    /// Replaces the script buffer with the given lines and rewinds the
    /// pointer, as when a collaborator has loaded a script file.
    pub fn set_script(&mut self, name: String, lines: Vec<String>)
        requires
            old(self).wf(),
            lines@.len() <= 0x7fff_ffff_ffff_ffff,
        ensures
            final(self).wf(),
            final(self).script_view() == lines.deep_view(),
            final(self).script_name == name,
            final(self).pointer == 0,
            final(self).quitting == old(self).quitting,
            final(self).vars_view() == old(self).vars_view(),
            final(self).flags_view() == old(self).flags_view(),
    {
        self.script_name = name;
        self.script = lines;
        self.pointer = 0;
        proof {
            lemma_lines_view(self.script@);
            assert(self.script.deep_view() =~= self.script@.map_values(|l: String| l.deep_view()));
            assert(self.script_view() =~= self.script.deep_view());
        }
    }

    /// The number of script lines.
    pub fn script_len(&self) -> (r: usize)
        ensures
            r == self.script_view().len(),
    {
        let r = self.script.len();
        proof {
            lemma_lines_view(self.script@);
        }
        r
    }

    /// The current line number, for user-facing reports: one past the
    /// pointer.
    pub fn line_number(&self) -> (r: i64)
        requires
            self.pointer < 0x7fff_ffff_ffff_ffff,
        ensures
            r == self.pointer + 1,
    {
        self.pointer + 1
    }

    /// The line at the pointer, with trailing whitespace removed; fails
    /// `EndOfScript` when the pointer is past the end of the script.
    pub fn get_line(&self) -> (r: Result<String, ASSyntaxError>)
        requires
            self.wf(),
        ensures
            match r {
                Ok(line) => 0 <= self.pointer < self.script_view().len() && line@ == trim_end(
                    self.script_view()[self.pointer as int],
                ),
                Err(e) => !(0 <= self.pointer < self.script_view().len()) && e@
                    == SynErr::EndOfScript,
            },
    {
        proof {
            lemma_lines_view(self.script@);
        }
        if self.pointer < 0 {
            return Err(ASSyntaxError::EndOfScript);
        }
        if self.pointer >= self.script.len() as i64 {
            return Err(ASSyntaxError::EndOfScript);
        }
        let idx = self.pointer as usize;
        let chars = string_to_chars(self.script[idx].as_str());
        let trimmed = trim_end_chars(&chars);
        proof {
            lemma_lines_view(self.script@);
        }
        Ok(chars_to_string(&trimmed))
    }

    /// The raw line at a position, if it exists.
    pub fn line_at(&self, pointer: i64) -> (r: Option<String>)
        requires
            self.wf(),
        ensures
            match r {
                Some(line) => 0 <= pointer < self.script_view().len() && line@
                    == self.script_view()[pointer as int],
                None => !(0 <= pointer < self.script_view().len()),
            },
    {
        proof {
            lemma_lines_view(self.script@);
        }
        if pointer < 0 {
            return None;
        }
        if pointer >= self.script.len() as i64 {
            return None;
        }
        let idx = pointer as usize;
        proof {
            lemma_lines_view(self.script@);
        }
        Some(self.script[idx].clone())
    }

    /// Appends text and a newline to the screen-text buffer. The host shows
    /// the same text on its sink.
    pub fn show(&mut self, text: &str)
        ensures
            *final(self) == (GameInfo {
                screentext: final(self).screentext,
                ..*old(self)
            }),
            final(self).screentext@ == old(self).screentext@ + text@ + seq!['\n'],
    {
        self.screentext.append(text);
        push_char(&mut self.screentext, '\n');
        proof {
            assert(old(self).screentext@ + text@ + seq!['\n'] =~= (old(self).screentext@
                + text@).push('\n'));
        }
    }

    /// Moves the pointer to the next line.
    pub fn next_line(&mut self)
        requires
            old(self).pointer < 0x7fff_ffff_ffff_ffff,
        ensures
            *final(self) == (GameInfo { pointer: (old(self).pointer + 1) as i64, ..*old(self) }),
    {
        self.pointer = self.pointer + 1;
    }

    /// Enters the terminal "quit" state; the line driver stops on it.
    pub fn quit(&mut self)
        ensures
            *final(self) == (GameInfo { quitting: true, ..*old(self) }),
    {
        self.quitting = true;
    }

    /// Jumps to a label. A null label is a no-op. A named label scans the
    /// whole script for lines that are exactly `{name}` after trimming:
    /// exactly one match moves the pointer there; no match fails
    /// `NonExistentLabel`; several matches fail `RepeatedLabel`, naming
    /// every matching line number.
    pub fn goto_label(&mut self, var: &ASVariable) -> (r: Result<(), ASError>)
        requires
            old(self).wf(),
        ensures
            final(self).wf(),
            match var {
                ASVariable::Label(n) => match n {
                    Option::None => r is Ok && *final(self) == *old(self),
                    Option::Some(name) => {
                        let pos = label_positions(old(self).script_view(), name@);
                        if pos.len() == 0 {
                            r matches Err(e) && e@ == ErrV::Syntax(SynErr::NonExistentLabel(name@))
                                && *final(self) == *old(self)
                        } else if pos.len() == 1 {
                            r is Ok && *final(self) == (GameInfo {
                                pointer: pos[0] as i64,
                                ..*old(self)
                            })
                        } else {
                            r matches Err(e) && (e@ matches ErrV::Syntax(SynErr::RepeatedLabel(
                                n2,
                                lines,
                            )) && n2 == name@ && lines.len() == pos.len() && (forall|k: int|
                                0 <= k < pos.len() ==> lines[k] == #[trigger] pos[k]))
                                && *final(self) == *old(self)
                        }
                    },
                },
                _ => r matches Err(e) && e@ is Other && *final(self) == *old(self),
            },
    {
        let name: &String = match var {
            ASVariable::Label(n) => match n {
                Option::None => {
                    return Ok(());
                },
                Option::Some(c) => c,
            },
            _ => {
                return Err(
                    ASError::Other(
                        ASOtherError::DevErr(
                            String::from_str("Used goto_label function with a non-label value"),
                        ),
                    ),
                );
            },
        };
        let mut wanted: Vec<char> = Vec::new();
        wanted.push('{');
        let name_chars = string_to_chars(name.as_str());
        let mut k: usize = 0;
        while k < name_chars.len()
            invariant
                0 <= k <= name_chars@.len(),
                name_chars@ == name@,
                wanted@ == seq!['{'] + name@.subrange(0, k as int),
            decreases name_chars@.len() - k,
        {
            wanted.push(name_chars[k]);
            proof {
                assert((seq!['{'] + name@.subrange(0, k as int)).push(name@[k as int]) =~= seq![
                    '{',
                ] + name@.subrange(0, k + 1));
            }
            k = k + 1;
        }
        wanted.push('}');
        proof {
            assert(name@.subrange(0, name@.len() as int) =~= name@);
            assert(wanted@ =~= seq!['{'] + name@ + seq!['}']);
            lemma_lines_view(self.script@);
        }
        let mut instances: Vec<i64> = Vec::new();
        let mut i: usize = 0;
        while i < self.script.len()
            invariant
                0 <= i <= self.script@.len(),
                self == old(self),
                wanted@ == seq!['{'] + name@ + seq!['}'],
                self.script_view().len() == self.script@.len(),
                self.script_view().len() <= 0x7fff_ffff_ffff_ffff,
                instances@.map_values(|x: i64| x as int) =~= label_positions(
                    self.script_view().subrange(0, i as int),
                    name@,
                ),
                forall|k: int| 0 <= k < instances@.len() ==> 0 <= #[trigger] instances@[k] < i,
            decreases self.script@.len() - i,
        {
            let line_chars = string_to_chars(self.script[i].as_str());
            let t = trim_chars(&line_chars);
            let ghost pre = self.script_view().subrange(0, i as int);
            let ghost post = self.script_view().subrange(0, i + 1);
            proof {
                lemma_lines_view(self.script@);
                assert(post.drop_last() =~= pre);
                assert(self.script_view()[i as int] == self.script@[i as int]@);
                assert(post.last() == self.script@[i as int]@);
            }
            if chars_eq(&t, &wanted) {
                instances.push(i as i64);
                proof {
                    assert(line_is_label(post.last(), name@));
                    assert(instances@.map_values(|x: i64| x as int) =~= label_positions(post, name@));
                }
            } else {
                proof {
                    assert(!line_is_label(post.last(), name@));
                    assert(instances@.map_values(|x: i64| x as int) =~= label_positions(post, name@));
                }
            }
            i = i + 1;
            proof {
                assert(self.script_view().subrange(0, i as int) == post);
            }
        }
        proof {
            assert(self.script_view().subrange(0, self.script_view().len() as int)
                =~= self.script_view());
        }
        if instances.len() == 0 {
            Err(
                ASError::Syntax(
                    ASSyntaxError::NonExistentLabel(chars_to_string(&string_to_chars(name.as_str()))),
                ),
            )
        } else if instances.len() == 1 {
            self.pointer = instances[0];
            proof {
                assert(label_positions(old(self).script_view(), name@)[0] == instances@.map_values(
                    |x: i64| x as int,
                )[0]);
            }
            Ok(())
        } else {
            let name_copy = chars_to_string(&string_to_chars(name.as_str()));
            proof {
                assert(forall|k: int|
                    0 <= k < instances@.len() ==> #[trigger] instances@[k] as int
                        == instances@.map_values(|x: i64| x as int)[k]);
            }
            Err(ASError::Syntax(ASSyntaxError::RepeatedLabel(name_copy, instances)))
        }
    }

    /// Reads a variable or flag. A flag not seen before is lazily
    /// initialized to `false` and read as such; an unset variable fails
    /// `VarNotFound`. Reading anything but a reference is a programming
    /// error.
    pub fn get_var(&mut self, var: &ASVariable) -> (r: Result<ASVariable, ASError>)
        requires
            old(self).wf(),
        ensures
            final(self).wf(),
            final(self).script_view() == old(self).script_view(),
            final(self).script_name == old(self).script_name,
            final(self).pointer == old(self).pointer,
            final(self).quitting == old(self).quitting,
            final(self).vars_view() == old(self).vars_view(),
            final(self).screentext == old(self).screentext,
            final(self).debug == old(self).debug,
            final(self).allow_save == old(self).allow_save,
            match var {
                ASVariable::VarRef { name, flag } => {
                    if *flag {
                        let b = if old(self).flags_view().contains_key(name@) {
                            old(self).flags_view()[name@]
                        } else {
                            false
                        };
                        r matches Ok(v) && v@ == Val::Bool(b) && final(self).flags_view() == old(
                            self,
                        ).flags_view().insert(name@, b)
                    } else {
                        final(self).flags_view() == old(self).flags_view() && (if old(
                            self,
                        ).vars_view().contains_key(name@) {
                            r matches Ok(v) && v@ == old(self).vars_view()[name@] && val_wf(v@) && !(
                            v is Empty)
                        } else {
                            r matches Err(e) && e@ == ErrV::Var(VarErr::VarNotFound(name@))
                        })
                    }
                },
                _ => r matches Err(e) && e@ is Other && final(self).flags_view() == old(
                    self,
                ).flags_view(),
            },
    {
        match var {
            ASVariable::VarRef { name, flag } => {
                if *flag {
                    let b: bool = match self.flags.get(name.as_str()) {
                        Some(v) => *v,
                        None => false,
                    };
                    let key = chars_to_string(&string_to_chars(name.as_str()));
                    self.flags.set(key, b);
                    Ok(ASVariable::Bool(b))
                } else {
                    match self.variables.get(name.as_str()) {
                        Some(v) => {
                            proof {
                                assert(old(self).vars_view()[name@] == old(
                                    self,
                                ).variables.view_map()[name@]@);
                            }
                            let out = v.duplicate();
                            Ok(out)
                        },
                        None => {
                            proof {
                                assert(!old(self).vars_view().contains_key(name@)) by {
                                    assert(old(self).vars_view().dom() =~= old(
                                        self,
                                    ).variables.view_map().dom());
                                }
                            }
                            Err(
                                ASError::Var(
                                    ASVarError::VarNotFound(
                                        chars_to_string(&string_to_chars(name.as_str())),
                                    ),
                                ),
                            )
                        },
                    }
                }
            },
            _ => Err(
                ASError::Other(
                    ASOtherError::DevErr(
                        String::from_str("Tried to get the variable value of a non-reference"),
                    ),
                ),
            ),
        }
    }

    /// Writes a variable or flag. A flag only accepts `Bool` values,
    /// failing `FlagNotBool` otherwise; a variable accepts any value
    /// unconditionally. Writing through anything but a reference is a
    /// programming error.
    pub fn set_var(&mut self, var: &ASVariable, value: ASVariable) -> (r: Result<(), ASError>)
        requires
            old(self).wf(),
            val_wf(value@),
            !(value is Empty),
        ensures
            final(self).wf(),
            final(self).script_view() == old(self).script_view(),
            final(self).pointer == old(self).pointer,
            final(self).quitting == old(self).quitting,
            final(self).screentext == old(self).screentext,
            match var {
                ASVariable::VarRef { name, flag } => {
                    if *flag {
                        match value {
                            ASVariable::Bool(b) => r is Ok && final(self).flags_view() == old(
                                self,
                            ).flags_view().insert(name@, b) && final(self).vars_view() == old(
                                self,
                            ).vars_view(),
                            _ => r matches Err(e) && e@ == ErrV::Var(VarErr::FlagNotBool(name@))
                                && final(self).flags_view() == old(self).flags_view() && final(self).vars_view() == old(self).vars_view(),
                        }
                    } else {
                        r is Ok && final(self).vars_view() =~= old(self).vars_view().insert(
                            name@,
                            value@,
                        ) && final(self).flags_view() == old(self).flags_view()
                    }
                },
                _ => r matches Err(e) && e@ is Other && final(self).vars_view() == old(
                    self,
                ).vars_view() && final(self).flags_view() == old(self).flags_view(),
            },
    {
        match var {
            ASVariable::VarRef { name, flag } => {
                if *flag {
                    match value {
                        ASVariable::Bool(b) => {
                            let key = chars_to_string(&string_to_chars(name.as_str()));
                            self.flags.set(key, b);
                            Ok(())
                        },
                        _ => Err(
                            ASError::Var(
                                ASVarError::FlagNotBool(
                                    chars_to_string(&string_to_chars(name.as_str())),
                                ),
                            ),
                        ),
                    }
                } else {
                    let key = chars_to_string(&string_to_chars(name.as_str()));
                    self.variables.set(key, value);
                    proof {
                        assert(final(self).vars_view() =~= old(self).vars_view().insert(
                            name@,
                            value@,
                        ));
                    }
                    Ok(())
                }
            },
            _ => Err(
                ASError::Other(
                    ASOtherError::DevErr(
                        String::from_str("Tried to set the variable value of a non-reference"),
                    ),
                ),
            ),
        }
    }

    /// Deletes a variable or flag slot. Deleting an absent flag is a no-op;
    /// deleting an absent variable fails `VarNotFound`.
    pub fn del_var(&mut self, var: &ASVariable) -> (r: Result<(), ASError>)
        requires
            old(self).wf(),
        ensures
            final(self).wf(),
            final(self).script_view() == old(self).script_view(),
            final(self).pointer == old(self).pointer,
            final(self).quitting == old(self).quitting,
            final(self).screentext == old(self).screentext,
            match var {
                ASVariable::VarRef { name, flag } => {
                    if *flag {
                        r is Ok && final(self).flags_view() == old(self).flags_view().remove(name@)
                            && final(self).vars_view() == old(self).vars_view()
                    } else {
                        if old(self).vars_view().contains_key(name@) {
                            r is Ok && final(self).vars_view() =~= old(self).vars_view().remove(
                                name@,
                            ) && final(self).flags_view() == old(self).flags_view()
                        } else {
                            r matches Err(e) && e@ == ErrV::Var(VarErr::VarNotFound(name@)) && final(self).vars_view() == old(self).vars_view() && final(self).flags_view()
                                == old(self).flags_view()
                        }
                    }
                },
                _ => r matches Err(e) && e@ is Other && final(self).vars_view() == old(
                    self,
                ).vars_view() && final(self).flags_view() == old(self).flags_view(),
            },
    {
        match var {
            ASVariable::VarRef { name, flag } => {
                if *flag {
                    self.flags.remove(name.as_str());
                    Ok(())
                } else {
                    proof {
                        assert(old(self).vars_view().dom() =~= old(
                            self,
                        ).variables.view_map().dom());
                    }
                    if self.variables.remove(name.as_str()) {
                        proof {
                            assert(final(self).vars_view() =~= old(self).vars_view().remove(name@));
                        }
                        Ok(())
                    } else {
                        Err(
                            ASError::Var(
                                ASVarError::VarNotFound(
                                    chars_to_string(&string_to_chars(name.as_str())),
                                ),
                            ),
                        )
                    }
                }
            },
            _ => Err(
                ASError::Other(
                    ASOtherError::DevErr(
                        String::from_str("Tried to delete the variable value of a non-reference"),
                    ),
                ),
            ),
        }
    }
}

/// What the host should do with one line of player input at a choice
/// prompt.
#[derive(Debug)]
pub enum QueryDecision {
    /// Save, then leave the prompt.
    SaveStop,
    /// Restore, then leave the prompt.
    RestoreStop,
    /// Quit the session.
    QuitStop,
    /// A picked choice number.
    Pick(u8),
    /// Unusable input: ask again.
    Again,
}

/// Decides one line of player input at a choice prompt: `s`, `r` and `q`
/// stop the prompt for saving, restoring or quitting; a number no greater
/// than the choice count picks that choice; anything else asks again.
pub fn query_decision(input: &str, n_choices: usize) -> (r: QueryDecision)
    ensures
        ({
            let t = trim(input@);
            if t == "s"@ {
                r is SaveStop
            } else if t == "r"@ {
                r is RestoreStop
            } else if t == "q"@ {
                r is QuitStop
            } else if t.len() > 0 && crate::text::all_digits(t) && crate::text::dec_val(t) <= 255
                && crate::text::dec_val(t) <= n_choices {
                r matches QueryDecision::Pick(n) && n == crate::text::dec_val(t)
            } else {
                r is Again
            }
        }),
{
    let chars = string_to_chars(input);
    let t = trim_chars(&chars);
    if chars_eq(&t, &string_to_chars("s")) {
        return QueryDecision::SaveStop;
    }
    if chars_eq(&t, &string_to_chars("r")) {
        return QueryDecision::RestoreStop;
    }
    if chars_eq(&t, &string_to_chars("q")) {
        return QueryDecision::QuitStop;
    }
    if t.len() == 0 {
        return QueryDecision::Again;
    }
    let mut i: usize = 0;
    while i < t.len()
        invariant
            0 <= i <= t@.len(),
            t@ == trim(input@),
            t@ != "s"@,
            t@ != "r"@,
            t@ != "q"@,
            t@.len() > 0,
            forall|j: int| 0 <= j < i ==> crate::text::is_digit(#[trigger] t@[j]),
        decreases t@.len() - i,
    {
        let u = t[i] as u32;
        if !(48 <= u && u <= 57) {
            proof {
                assert(!crate::text::is_digit(t@[i as int]));
            }
            return QueryDecision::Again;
        }
        i = i + 1;
    }
    match crate::text::parse_u64(&t) {
        Some(v) => {
            if v <= 255 && v <= n_choices as u64 {
                QueryDecision::Pick(v as u8)
            } else {
                QueryDecision::Again
            }
        },
        None => QueryDecision::Again,
    }
}

} // verus!
