//! The save-file data and its version gate: the snapshot a collaborator
//! captures and restores, and the interpreter-version range check that
//! guards restoring.

use vstd::prelude::*;

use crate::error::ASFileError;
use crate::error::FileErrors;
use crate::info::GameInfo;
use crate::variables::ASVariable;

verus! {

/// A parsed interpreter version: the release triple and the pre-release
/// text, empty for a full release.
pub struct Version {
    /// The major version.
    pub major: u64,
    /// The minor version.
    pub minor: u64,
    /// The patch version.
    pub patch: u64,
    /// The pre-release identifiers, empty for a release.
    pub pre: String,
}

/// A digit identifier without its leading zeros.
pub open spec fn strip_zeros(s: Seq<char>) -> Seq<char>
    decreases s.len(),
{
    if s.len() > 0 && s.first() == '0' {
        strip_zeros(s.drop_first())
    } else {
        s
    }
}

/// Strict lexicographic order, by code point.
pub open spec fn lex_lt(a: Seq<char>, b: Seq<char>) -> bool {
    lex_le(a, b) && a != b
}

/// Strict order on two pre-release identifiers, as semantic versioning
/// defines it: two numeric identifiers compare numerically (leading zeros
/// stripped, then by length, then digit by digit, which is numeric order);
/// a numeric identifier precedes an alphanumeric one; two alphanumeric
/// identifiers compare lexically by code point.
pub open spec fn ident_lt(a: Seq<char>, b: Seq<char>) -> bool {
    if crate::text::all_digits(a) && crate::text::all_digits(b) {
        let x = strip_zeros(a);
        let y = strip_zeros(b);
        x.len() < y.len() || (x.len() == y.len() && lex_lt(x, y))
    } else if crate::text::all_digits(a) {
        true
    } else if crate::text::all_digits(b) {
        false
    } else {
        lex_lt(a, b)
    }
}

/// Order on two identifier lists: pairwise left to right, a smaller prefix
/// preceding its extensions.
pub open spec fn idents_le(xs: Seq<Seq<char>>, ys: Seq<Seq<char>>) -> bool
    decreases xs.len(),
{
    if xs.len() == 0 {
        true
    } else if ys.len() == 0 {
        false
    } else if ident_lt(xs.first(), ys.first()) {
        true
    } else if ident_lt(ys.first(), xs.first()) {
        false
    } else {
        idents_le(xs.drop_first(), ys.drop_first())
    }
}

/// The ordering on versions, as semantic versioning defines precedence: the
/// release triple first; on an equal triple a release outranks any
/// pre-release, and pre-releases compare by their dot-separated
/// identifiers.
pub open spec fn ver_le(a: (int, int, int, Seq<char>), b: (int, int, int, Seq<char>)) -> bool {
    if a.0 != b.0 {
        a.0 < b.0
    } else if a.1 != b.1 {
        a.1 < b.1
    } else if a.2 != b.2 {
        a.2 < b.2
    } else if a.3.len() == 0 && b.3.len() > 0 {
        false
    } else if a.3.len() > 0 && b.3.len() == 0 {
        true
    } else {
        idents_le(
            crate::evaluate::split_spec(a.3, '.'),
            crate::evaluate::split_spec(b.3, '.'),
        )
    }
}

/// Lexicographic order on character sequences, by code point.
pub open spec fn lex_le(a: Seq<char>, b: Seq<char>) -> bool
    decreases a.len(),
{
    if a.len() == 0 {
        true
    } else if b.len() == 0 {
        false
    } else if a.first() != b.first() {
        (a.first() as u32) < (b.first() as u32)
    } else {
        lex_le(a.drop_first(), b.drop_first())
    }
}

impl Version {
    /// The model of the version.
    pub open spec fn view_tuple(&self) -> (int, int, int, Seq<char>) {
        (self.major as int, self.minor as int, self.patch as int, self.pre@)
    }

    /// Decides whether this version is at or below another.
    pub fn le(&self, other: &Version) -> (r: bool)
        ensures
            r == ver_le(self.view_tuple(), other.view_tuple()),
    {
        if self.major != other.major {
            self.major < other.major
        } else if self.minor != other.minor {
            self.minor < other.minor
        } else if self.patch != other.patch {
            self.patch < other.patch
        } else {
            let a = crate::text::string_to_chars(self.pre.as_str());
            let b = crate::text::string_to_chars(other.pre.as_str());
            if a.len() == 0 && b.len() > 0 {
                false
            } else if a.len() > 0 && b.len() == 0 {
                true
            } else {
                idents_le_chars(
                    &crate::evaluate::split_char(&a, '.'),
                    &crate::evaluate::split_char(&b, '.'),
                )
            }
        }
    }
}

/// Decides the identifier-list order.
fn idents_le_chars(xs: &Vec<Vec<char>>, ys: &Vec<Vec<char>>) -> (r: bool)
    ensures
        r == idents_le(
            crate::evaluate::charses_view(xs@),
            crate::evaluate::charses_view(ys@),
        ),
{
    proof {
        crate::evaluate::lemma_charses_view(xs@);
        crate::evaluate::lemma_charses_view(ys@);
    }
    let ghost xv = crate::evaluate::charses_view(xs@);
    let ghost yv = crate::evaluate::charses_view(ys@);
    let mut k: usize = 0;
    proof {
        assert(xv.subrange(0, xv.len() as int) =~= xv);
        assert(yv.subrange(0, yv.len() as int) =~= yv);
        assert(xv.skip(0) =~= xv);
        assert(yv.skip(0) =~= yv);
    }
    while k < xs.len() && k < ys.len()
        invariant
            0 <= k,
            k <= xv.len(),
            k <= yv.len(),
            xv == crate::evaluate::charses_view(xs@),
            yv == crate::evaluate::charses_view(ys@),
            xv.len() == xs@.len(),
            yv.len() == ys@.len(),
            forall|j: int| 0 <= j < xs@.len() ==> xv[j] == (#[trigger] xs@[j])@,
            forall|j: int| 0 <= j < ys@.len() ==> yv[j] == (#[trigger] ys@[j])@,
            idents_le(xv, yv) == idents_le(xv.skip(k as int), yv.skip(k as int)),
        decreases xv.len() - k,
    {
        let a_lt_b = ident_lt_chars(&xs[k], &ys[k]);
        let b_lt_a = ident_lt_chars(&ys[k], &xs[k]);
        proof {
            lemma_idents_step(xv, yv, k as int);
        }
        if a_lt_b {
            return true;
        }
        if b_lt_a {
            return false;
        }
        k = k + 1;
    }
    proof {
        if k as int >= xv.len() {
            assert(xv.skip(k as int).len() == 0);
        } else {
            assert(yv.skip(k as int).len() == 0);
            assert(xv.skip(k as int).len() > 0);
        }
    }
    k >= xs.len()
}

/// One pairwise step of the identifier-list order.
proof fn lemma_idents_step(xv: Seq<Seq<char>>, yv: Seq<Seq<char>>, k: int)
    requires
        0 <= k < xv.len(),
        k < yv.len(),
    ensures
        ident_lt(xv[k], yv[k]) ==> idents_le(xv.skip(k), yv.skip(k)),
        !ident_lt(xv[k], yv[k]) && ident_lt(yv[k], xv[k]) ==> !idents_le(xv.skip(k), yv.skip(k)),
        !ident_lt(xv[k], yv[k]) && !ident_lt(yv[k], xv[k]) ==> idents_le(xv.skip(k), yv.skip(k))
            == idents_le(xv.skip(k + 1), yv.skip(k + 1)),
{
    assert(xv.skip(k).len() > 0);
    assert(xv.skip(k).first() == xv[k]);
    assert(yv.skip(k).first() == yv[k]);
    assert(xv.skip(k).drop_first() =~= xv.skip(k + 1));
    assert(yv.skip(k).drop_first() =~= yv.skip(k + 1));
}

/// Decides the identifier order.
fn ident_lt_chars(a: &Vec<char>, b: &Vec<char>) -> (r: bool)
    ensures
        r == ident_lt(a@, b@),
{
    let a_num = digits_only(a);
    let b_num = digits_only(b);
    if a_num && b_num {
        let x = strip_zeros_chars(a);
        let y = strip_zeros_chars(b);
        if x.len() < y.len() {
            true
        } else if x.len() > y.len() {
            false
        } else {
            let le = lex_le_chars(&x, &y);
            let eq = crate::text::chars_eq(&x, &y);
            le && !eq
        }
    } else if a_num {
        true
    } else if b_num {
        false
    } else {
        let le = lex_le_chars(a, b);
        let eq = crate::text::chars_eq(a, b);
        le && !eq
    }
}

/// Decides whether every character is a digit.
fn digits_only(v: &Vec<char>) -> (r: bool)
    ensures
        r == crate::text::all_digits(v@),
{
    let mut i: usize = 0;
    while i < v.len()
        invariant
            0 <= i <= v@.len(),
            forall|j: int| 0 <= j < i ==> crate::text::is_digit(#[trigger] v@[j]),
        decreases v@.len() - i,
    {
        let u = v[i] as u32;
        if !(48 <= u && u <= 57) {
            proof {
                assert(!crate::text::is_digit(v@[i as int]));
            }
            return false;
        }
        i = i + 1;
    }
    true
}

/// Removes leading zeros.
fn strip_zeros_chars(v: &Vec<char>) -> (r: Vec<char>)
    ensures
        r@ == strip_zeros(v@),
{
    let mut lo: usize = 0;
    let mut stop: bool = false;
    proof {
        assert(v@.skip(0) =~= v@);
    }
    while lo < v.len() && !stop
        invariant
            0 <= lo <= v@.len(),
            strip_zeros(v@) == strip_zeros(v@.skip(lo as int)),
            stop ==> strip_zeros(v@.skip(lo as int)) == v@.skip(lo as int),
        decreases v@.len() - lo, (if stop { 0int } else { 1int }),
    {
        if v[lo] == '0' {
            proof {
                let suf = v@.skip(lo as int);
                assert(suf.first() == v@[lo as int]);
                assert(suf.drop_first() =~= v@.skip(lo + 1));
            }
            lo = lo + 1;
        } else {
            proof {
                let suf = v@.skip(lo as int);
                assert(suf.first() == v@[lo as int]);
                assert(strip_zeros(suf) == suf);
            }
            stop = true;
        }
    }
    proof {
        if lo == v@.len() {
            assert(v@.skip(lo as int) =~= Seq::<char>::empty());
            assert(strip_zeros(v@.skip(lo as int)) == v@.skip(lo as int));
        }
        assert(strip_zeros(v@) == v@.skip(lo as int));
    }
    crate::evaluate::slice_tail(v, lo)
}

/// Decides the lexicographic order on character vectors.
fn lex_le_chars(a: &Vec<char>, b: &Vec<char>) -> (r: bool)
    ensures
        r == lex_le(a@, b@),
{
    let mut i: usize = 0;
    proof {
        assert(a@.subrange(0, a@.len() as int) =~= a@);
        assert(b@.subrange(0, b@.len() as int) =~= b@);
    }
    loop
        invariant
            0 <= i <= a@.len(),
            i <= b@.len(),
            lex_le(a@, b@) == lex_le(
                a@.subrange(i as int, a@.len() as int),
                b@.subrange(i as int, b@.len() as int),
            ),
        decreases a@.len() - i,
    {
        let ghost sa = a@.subrange(i as int, a@.len() as int);
        let ghost sb = b@.subrange(i as int, b@.len() as int);
        if i >= a.len() {
            proof {
                assert(sa.len() == 0);
                assert(lex_le(sa, sb));
            }
            return true;
        }
        if i >= b.len() {
            proof {
                assert(sb.len() == 0 && sa.len() > 0);
                assert(!lex_le(sa, sb));
            }
            return false;
        }
        let ca = a[i];
        let cb = b[i];
        proof {
            assert(sa.first() == a@[i as int]);
            assert(sb.first() == b@[i as int]);
            assert(sa.drop_first() =~= a@.subrange(i + 1, a@.len() as int));
            assert(sb.drop_first() =~= b@.subrange(i + 1, b@.len() as int));
        }
        if ca != cb {
            return (ca as u32) < (cb as u32);
        }
        i = i + 1;
    }
}

/// The snapshot a save file captures: the versions, the script name, the
/// pointer, both stores, and the screen text.
pub struct Save {
    /// The interpreter version that wrote the save.
    pub as_ver: String,
    /// The game's own version.
    pub game_ver: String,
    /// The script the save was taken in.
    pub script: String,
    /// The instruction pointer.
    pub pointer: i64,
    /// The flag store's pairs.
    pub flags: Vec<(String, bool)>,
    /// The variable store's pairs.
    pub variables: Vec<(String, ASVariable)>,
    /// The screen text shown so far.
    pub screentext: String,
}

/// Checks a save's interpreter version against the supported range: a save
/// older than the oldest compatible version fails `SaveNotCompatible`, one
/// newer than the running version fails `SaveTooNew`.
pub fn check_save_version(save_ver: &Version, oldest: &Version, current: &Version) -> (r: Result<
    (),
    ASFileError,
>)
    ensures
        match r {
            Ok(_) => ver_le(oldest.view_tuple(), save_ver.view_tuple()) && ver_le(
                save_ver.view_tuple(),
                current.view_tuple(),
            ),
            Err(e) => {
                if !ver_le(oldest.view_tuple(), save_ver.view_tuple()) {
                    e@.details is SaveNotCompatible
                } else {
                    !ver_le(save_ver.view_tuple(), current.view_tuple()) && e@.details
                        is SaveTooNew
                }
            },
        },
{
    if !oldest.le(save_ver) {
        return Err(
            ASFileError {
                filename: String::from_str("save.ad2"),
                mode: String::from_str("reading"),
                details: FileErrors::SaveNotCompatible(render_version(save_ver)),
            },
        );
    }
    if !save_ver.le(current) {
        return Err(
            ASFileError {
                filename: String::from_str("save.ad2"),
                mode: String::from_str("reading"),
                details: FileErrors::SaveTooNew(render_version(save_ver)),
            },
        );
    }
    Ok(())
}

/// Renders a version as `major.minor.patch` with an optional `-pre` tail.
pub fn render_version(v: &Version) -> (r: String)
    ensures
        r@ == crate::text::dec_rep(v.major as int) + seq!['.'] + crate::text::dec_rep(
            v.minor as int,
        ) + seq!['.'] + crate::text::dec_rep(v.patch as int) + (if v.pre@.len() > 0 {
            seq!['-'] + v.pre@
        } else {
            Seq::<char>::empty()
        }),
{
    let mut out = crate::text::chars_to_string(&crate::text::render_u64(v.major));
    crate::text::push_char(&mut out, '.');
    out.append(crate::text::chars_to_string(&crate::text::render_u64(v.minor)).as_str());
    crate::text::push_char(&mut out, '.');
    out.append(crate::text::chars_to_string(&crate::text::render_u64(v.patch)).as_str());
    proof {
        assert(out@ =~= crate::text::dec_rep(v.major as int) + seq!['.'] + crate::text::dec_rep(
            v.minor as int,
        ) + seq!['.'] + crate::text::dec_rep(v.patch as int));
    }
    if !v.pre.as_str().is_empty() {
        crate::text::push_char(&mut out, '-');
        out.append(v.pre.as_str());
        proof {
            assert(out@ =~= crate::text::dec_rep(v.major as int) + seq!['.']
                + crate::text::dec_rep(v.minor as int) + seq!['.'] + crate::text::dec_rep(
                v.patch as int,
            ) + (seq!['-'] + v.pre@));
        }
    } else {
        proof {
            assert(out@ =~= crate::text::dec_rep(v.major as int) + seq!['.']
                + crate::text::dec_rep(v.minor as int) + seq!['.'] + crate::text::dec_rep(
                v.patch as int,
            ) + Seq::<char>::empty());
        }
    }
    out
}

/// Takes the snapshot a save file captures from the running state: exactly
/// the versions, script name, pointer, both stores' pairs, and the screen
/// text.
pub fn snapshot(info: &GameInfo, as_ver: String, game_ver: String) -> (r: Save)
    ensures
        r.as_ver == as_ver,
        r.game_ver == game_ver,
        r.pointer == info.pointer,
        r.script == info.script_name,
        r.screentext == info.screentext,
        r.flags@.len() == info.flags.pairs_view().len(),
        forall|j: int|
            0 <= j < r.flags@.len() ==> (#[trigger] r.flags@[j]).0@
                == info.flags.pairs_view()[j].0@ && r.flags@[j].1 == info.flags.pairs_view()[j].1,
        r.variables@.len() == info.variables.pairs_view().len(),
        forall|j: int|
            0 <= j < r.variables@.len() ==> (#[trigger] r.variables@[j]).0@
                == info.variables.pairs_view()[j].0@ && r.variables@[j].1@
                == info.variables.pairs_view()[j].1@,
{
    let mut flags: Vec<(String, bool)> = Vec::new();
    let fitems = info.flags.items();
    let mut i: usize = 0;
    while i < fitems.len()
        invariant
            0 <= i <= fitems@.len(),
            fitems@ == info.flags.pairs_view(),
            flags@.len() == i,
            forall|j: int|
                0 <= j < i ==> (#[trigger] flags@[j]).0@ == fitems@[j].0@ && flags@[j].1
                    == fitems@[j].1,
        decreases fitems@.len() - i,
    {
        flags.push((fitems[i].0.clone(), fitems[i].1));
        i = i + 1;
    }
    let mut variables: Vec<(String, ASVariable)> = Vec::new();
    let vitems = info.variables.items();
    let mut j: usize = 0;
    while j < vitems.len()
        invariant
            0 <= j <= vitems@.len(),
            vitems@ == info.variables.pairs_view(),
            variables@.len() == j,
            forall|k: int|
                0 <= k < j ==> (#[trigger] variables@[k]).0@ == vitems@[k].0@ && variables@[k].1@
                    == vitems@[k].1@,
        decreases vitems@.len() - j,
    {
        variables.push((vitems[j].0.clone(), vitems[j].1.duplicate()));
        j = j + 1;
    }
    Save {
        as_ver,
        game_ver,
        script: info.script_name.clone(),
        pointer: info.pointer,
        flags,
        variables,
        screentext: info.screentext.clone(),
    }
}

/// The mapping described by inserting pairs left to right into a map: the
/// last binding of a name wins.
pub open spec fn insert_flags(m: Map<Seq<char>, bool>, pairs: Seq<(String, bool)>) -> Map<
    Seq<char>,
    bool,
>
    decreases pairs.len(),
{
    if pairs.len() == 0 {
        m
    } else {
        insert_flags(m.insert(pairs.first().0@, pairs.first().1), pairs.drop_first())
    }
}

/// The mapping described by inserting value pairs left to right, by model.
pub open spec fn insert_vars(m: Map<Seq<char>, crate::variables::Val>, pairs: Seq<
    (String, ASVariable),
>) -> Map<Seq<char>, crate::variables::Val>
    decreases pairs.len(),
{
    if pairs.len() == 0 {
        m
    } else {
        insert_vars(m.insert(pairs.first().0@, pairs.first().1@), pairs.drop_first())
    }
}

/// Restores a snapshot into the running state: the pointer and the screen
/// text are replaced, and both stores are replaced by exactly the save's
/// pairs; the host loads the snapshot's script itself.
pub fn restore_snapshot(info: &mut GameInfo, save: Save) -> (r: Result<(), ASFileError>)
    requires
        old(info).wf(),
        forall|j: int|
            0 <= j < save.variables@.len() ==> crate::variables::val_wf(
                ((#[trigger] save.variables@[j]).1)@,
            ) && !(save.variables@[j].1 is Empty),
    ensures
        final(info).wf(),
        r is Ok,
        final(info).pointer == save.pointer,
        final(info).screentext == save.screentext,
        final(info).script_view() == old(info).script_view(),
        final(info).flags_view() == insert_flags(Map::empty(), save.flags@),
        final(info).vars_view() == insert_vars(Map::empty(), save.variables@),
{
    info.pointer = save.pointer;
    info.screentext = save.screentext;
    info.flags.clear();
    info.variables.clear();
    proof {
        assert(info.vars_view() =~= Map::<Seq<char>, crate::variables::Val>::empty());
    }
    let mut flags = save.flags;
    let ghost all_flags = flags@;
    while flags.len() > 0
        invariant
            info.wf(),
            info.pointer == save.pointer,
            info.screentext == save.screentext,
            info.script_view() == old(info).script_view(),
            info.vars_view() == Map::<Seq<char>, crate::variables::Val>::empty(),
            insert_flags(Map::empty(), all_flags) == insert_flags(info.flags_view(), flags@),
        decreases flags@.len(),
    {
        let ghost pre = flags@;
        let (name, value) = flags.remove(0);
        proof {
            assert(pre.first() == (name, value));
            assert(flags@ =~= pre.drop_first());
        }
        let fr = ASVariable::VarRef { name, flag: true };
        match info.set_var(&fr, ASVariable::Bool(value)) {
            Ok(_) => {
                proof {
                    assert(info.vars_view() =~= Map::<Seq<char>, crate::variables::Val>::empty());
                }
            },
            Err(_) => {
                return Err(
                    ASFileError {
                        filename: String::from_str("save.ad2"),
                        mode: String::from_str("reading"),
                        details: FileErrors::SaveLoadError(
                            String::from_str("a flag could not be restored"),
                        ),
                    },
                );
            },
        }
    }
    proof {
        assert(insert_flags(Map::empty(), all_flags) == info.flags_view());
    }
    let mut variables = save.variables;
    let ghost all_vars = variables@;
    while variables.len() > 0
        invariant
            info.wf(),
            info.pointer == save.pointer,
            info.screentext == save.screentext,
            info.script_view() == old(info).script_view(),
            info.flags_view() == insert_flags(Map::empty(), all_flags),
            insert_vars(Map::empty(), all_vars) == insert_vars(info.vars_view(), variables@),
            forall|j: int|
                0 <= j < variables@.len() ==> crate::variables::val_wf(
                    ((#[trigger] variables@[j]).1)@,
                ) && !(variables@[j].1 is Empty),
        decreases variables@.len(),
    {
        let ghost pre = variables@;
        let (name, value) = variables.remove(0);
        proof {
            assert(pre.first() == (name, value));
            assert(value == pre[0].1);
            assert(variables@ =~= pre.drop_first());
            assert(forall|j: int| 0 <= j < variables@.len() ==> variables@[j] == #[trigger] pre[j + 1]);
        }
        let vr = ASVariable::VarRef { name, flag: false };
        match info.set_var(&vr, value) {
            Ok(_) => {},
            Err(_) => {
                return Err(
                    ASFileError {
                        filename: String::from_str("save.ad2"),
                        mode: String::from_str("reading"),
                        details: FileErrors::SaveLoadError(
                            String::from_str("a variable could not be restored"),
                        ),
                    },
                );
            },
        }
    }
    proof {
        assert(insert_vars(Map::empty(), all_vars) == info.vars_view());
    }
    Ok(())
}

} // verus!
