//! The lexical simplifier: two composable passes that extract quoted strings
//! and bracketed groups into side-tables, so later stages never meet a
//! delimiter conflict. Each pass is specified as a left-to-right scan, one
//! character at a time, and the extraction is proved to be a faithful
//! decomposition of its input.

use vstd::prelude::*;

use crate::error::ASSyntaxError;
use crate::error::SynErr;
use crate::text::dec_rep;
use crate::text::push_char;
use crate::text::render_usize;
use crate::text::string_to_chars;

verus! {

/// One piece of the rewritten text of the string pass: a plain character, or
/// the placeholder `"N"` standing for table entry `N`.
pub enum StrPiece {
    Ch(char),
    Lit(int),
}

/// The state of the string-extraction scan.
pub struct StrScan {
    /// The quote character of the string currently open, if any.
    pub mode: Option<char>,
    /// The previous character, which cancels a quote when it is a backslash.
    pub prev: char,
    /// The rewritten text built so far, in structured form.
    pub pieces: Seq<StrPiece>,
    /// The extracted string interiors, in source order.
    pub table: Seq<Seq<char>>,
    /// The quote character each table entry was written with.
    pub quotes: Seq<char>,
    /// The interior of the string currently open.
    pub cur: Seq<char>,
}

/// The scan state before any character.
pub open spec fn str_scan_init() -> StrScan {
    StrScan {
        mode: Option::None,
        prev: '\u{0}',
        pieces: Seq::empty(),
        table: Seq::empty(),
        quotes: Seq::empty(),
        cur: Seq::empty(),
    }
}

/// One step of the string-extraction scan: an unescaped quote opens a string
/// or closes it when it repeats the opening character; a closed string
/// becomes a table entry and a `"N"` placeholder.
pub open spec fn str_step(st: StrScan, c: char) -> StrScan {
    match st.mode {
        Option::None => {
            if (c == '"' || c == '\'') && st.prev != '\\' {
                StrScan {
                    mode: Option::Some(c),
                    prev: c,
                    pieces: st.pieces,
                    table: st.table,
                    quotes: st.quotes,
                    cur: Seq::empty(),
                }
            } else {
                StrScan {
                    mode: Option::None,
                    prev: c,
                    pieces: st.pieces.push(StrPiece::Ch(c)),
                    table: st.table,
                    quotes: st.quotes,
                    cur: st.cur,
                }
            }
        },
        Option::Some(q) => {
            if c == q && st.prev != '\\' {
                StrScan {
                    mode: Option::None,
                    prev: c,
                    pieces: st.pieces.push(StrPiece::Lit(st.table.len() as int)),
                    table: st.table.push(st.cur),
                    quotes: st.quotes.push(q),
                    cur: Seq::empty(),
                }
            } else {
                StrScan {
                    mode: Option::Some(q),
                    prev: c,
                    pieces: st.pieces,
                    table: st.table,
                    quotes: st.quotes,
                    cur: st.cur.push(c),
                }
            }
        },
    }
}

/// The string-extraction scan over a whole text.
pub open spec fn str_scan(s: Seq<char>) -> StrScan
    decreases s.len(),
{
    if s.len() == 0 {
        str_scan_init()
    } else {
        str_step(str_scan(s.drop_last()), s.last())
    }
}

/// The rewritten text of one piece.
pub open spec fn str_render_piece(p: StrPiece) -> Seq<char> {
    match p {
        StrPiece::Ch(c) => seq![c],
        StrPiece::Lit(k) => seq!['"'] + dec_rep(k) + seq!['"'],
    }
}

/// The rewritten text of a piece sequence.
pub open spec fn str_render(ps: Seq<StrPiece>) -> Seq<char>
    decreases ps.len(),
{
    if ps.len() == 0 {
        Seq::empty()
    } else {
        str_render(ps.drop_last()) + str_render_piece(ps.last())
    }
}

/// The original text of one piece: a placeholder is re-substituted with its
/// table entry, wrapped in the quote character it was written with.
pub open spec fn str_rebuild_piece(p: StrPiece, table: Seq<Seq<char>>, quotes: Seq<char>) -> Seq<
    char,
> {
    match p {
        StrPiece::Ch(c) => seq![c],
        StrPiece::Lit(k) => if 0 <= k < table.len() && k < quotes.len() {
            seq![quotes[k]] + table[k] + seq![quotes[k]]
        } else {
            Seq::empty()
        },
    }
}

/// The original text of a piece sequence.
pub open spec fn str_rebuild(ps: Seq<StrPiece>, table: Seq<Seq<char>>, quotes: Seq<char>) -> Seq<
    char,
>
    decreases ps.len(),
{
    if ps.len() == 0 {
        Seq::empty()
    } else {
        str_rebuild(ps.drop_last(), table, quotes) + str_rebuild_piece(ps.last(), table, quotes)
    }
}

/// A scan state is well formed when its tables line up and every placeholder
/// refers to an existing entry.
pub open spec fn str_scan_wf(st: StrScan) -> bool {
    st.table.len() == st.quotes.len() && (forall|i: int|
        0 <= i < st.pieces.len() ==> ((#[trigger] st.pieces[i]) matches StrPiece::Lit(k) ==> 0 <= k
            < st.table.len()))
}

/// The text still owed by an open string: its opening quote and interior.
pub open spec fn str_pending(st: StrScan) -> Seq<char> {
    match st.mode {
        Option::Some(q) => seq![q] + st.cur,
        Option::None => Seq::empty(),
    }
}

/// Names the last character of a non-empty sequence.
proof fn last_char(s: Seq<char>) -> (c: char)
    requires
        s.len() > 0,
    ensures
        c == s.last(),
{
    s.last()
}

/// The step outcome when an unescaped quote opens a string.
proof fn lemma_str_step_open(st: StrScan, c: char)
    requires
        st.mode is None,
        (c == '"' || c == '\'') && st.prev != '\\',
    ensures
        str_step(st, c).mode == Option::Some(c),
        str_step(st, c).prev == c,
        str_step(st, c).pieces == st.pieces,
        str_step(st, c).table == st.table,
        str_step(st, c).quotes == st.quotes,
        str_step(st, c).cur == Seq::<char>::empty(),
{
}

/// The step outcome on a plain character outside any string.
proof fn lemma_str_step_plain(st: StrScan, c: char)
    requires
        st.mode is None,
        !((c == '"' || c == '\'') && st.prev != '\\'),
    ensures
        str_step(st, c).mode is None,
        str_step(st, c).prev == c,
        str_step(st, c).pieces == st.pieces.push(StrPiece::Ch(c)),
        str_step(st, c).table == st.table,
        str_step(st, c).quotes == st.quotes,
        str_step(st, c).cur == st.cur,
{
}

/// The step outcome when an unescaped quote closes the open string.
proof fn lemma_str_step_close(st: StrScan, c: char, q: char)
    requires
        st.mode == Option::Some(q),
        c == q && st.prev != '\\',
    ensures
        str_step(st, c).mode is None,
        str_step(st, c).prev == c,
        str_step(st, c).pieces == st.pieces.push(StrPiece::Lit(st.table.len() as int)),
        str_step(st, c).table == st.table.push(st.cur),
        str_step(st, c).quotes == st.quotes.push(q),
        str_step(st, c).cur == Seq::<char>::empty(),
{
}

/// The step outcome on a character inside an open string.
proof fn lemma_str_step_inside(st: StrScan, c: char, q: char)
    requires
        st.mode == Option::Some(q),
        !(c == q && st.prev != '\\'),
    ensures
        str_step(st, c).mode == Option::Some(q),
        str_step(st, c).prev == c,
        str_step(st, c).pieces == st.pieces,
        str_step(st, c).table == st.table,
        str_step(st, c).quotes == st.quotes,
        str_step(st, c).cur == st.cur.push(c),
{
}

/// Appending a piece appends its rewritten text.
proof fn lemma_str_render_push(ps: Seq<StrPiece>, p: StrPiece)
    ensures
        str_render(ps.push(p)) == str_render(ps) + str_render_piece(p),
{
    assert(ps.push(p).drop_last() =~= ps);
    assert(ps.push(p).last() == p);
}

/// Appending a piece appends its original text.
proof fn lemma_str_rebuild_push(ps: Seq<StrPiece>, p: StrPiece, table: Seq<Seq<char>>, quotes: Seq<
    char,
>)
    ensures
        str_rebuild(ps.push(p), table, quotes) == str_rebuild(ps, table, quotes)
            + str_rebuild_piece(p, table, quotes),
{
    assert(ps.push(p).drop_last() =~= ps);
    assert(ps.push(p).last() == p);
}

/// Extending the tables does not change the original text of pieces whose
/// placeholders they already cover.
proof fn lemma_str_rebuild_extend(
    ps: Seq<StrPiece>,
    table: Seq<Seq<char>>,
    quotes: Seq<char>,
    entry: Seq<char>,
    q: char,
)
    requires
        table.len() == quotes.len(),
        forall|i: int|
            0 <= i < ps.len() ==> ((#[trigger] ps[i]) matches StrPiece::Lit(k) ==> 0 <= k
                < table.len()),
    ensures
        str_rebuild(ps, table.push(entry), quotes.push(q)) == str_rebuild(ps, table, quotes),
    decreases ps.len(),
{
    if ps.len() > 0 {
        lemma_str_rebuild_extend(ps.drop_last(), table, quotes, entry, q);
        assert(forall|i: int|
            0 <= i < ps.drop_last().len() ==> ps.drop_last()[i] == #[trigger] ps[i]);
        assert(ps[ps.len() - 1] == ps.last());
        assert(str_rebuild_piece(ps.last(), table.push(entry), quotes.push(q))
            == str_rebuild_piece(ps.last(), table, quotes));
    }
}

/// The scan invariant: the state is well formed, and the rewritten pieces,
/// re-substituted, together with any still-open string, spell the scanned
/// text exactly.
proof fn lemma_str_scan_invariant(s: Seq<char>)
    ensures
        str_scan_wf(str_scan(s)),
        str_rebuild(str_scan(s).pieces, str_scan(s).table, str_scan(s).quotes) + str_pending(
            str_scan(s),
        ) == s,
    decreases s.len(),
{
    if s.len() == 0 {
        let st = str_scan(s);
        assert(str_rebuild(st.pieces, st.table, st.quotes) + str_pending(st) =~= s);
    } else {
        let prev = str_scan(s.drop_last());
        let c = last_char(s);
        lemma_str_scan_invariant(s.drop_last());
        assert(s =~= s.drop_last().push(c));
        let st = str_step(prev, c);
        assert(str_scan(s) == st);
        match prev.mode {
            Option::None => {
                assert(str_pending(prev) =~= Seq::<char>::empty());
                assert(str_rebuild(prev.pieces, prev.table, prev.quotes) =~= s.drop_last());
                if (c == '"' || c == '\'') && prev.prev != '\\' {
                    lemma_str_step_open(prev, c);
                    assert(str_pending(st) =~= seq![c]);
                    assert(str_rebuild(st.pieces, st.table, st.quotes) + str_pending(st) =~= s);
                } else {
                    lemma_str_step_plain(prev, c);
                    lemma_str_rebuild_push(prev.pieces, StrPiece::Ch(c), prev.table, prev.quotes);
                    assert(str_rebuild_piece(StrPiece::Ch(c), prev.table, prev.quotes) =~= seq![c]);
                    assert(str_rebuild(st.pieces, st.table, st.quotes) + str_pending(st) =~= s);
                    assert forall|i: int|
                        0 <= i < st.pieces.len() implies ((#[trigger] st.pieces[i]) matches
                    StrPiece::Lit(k) ==> 0 <= k < st.table.len()) by {
                        if i < st.pieces.len() - 1 {
                            assert(st.pieces[i] == prev.pieces[i]);
                        }
                    }
                }
            },
            Option::Some(q) => {
                if c == q && prev.prev != '\\' {
                    lemma_str_step_close(prev, c, q);
                    lemma_str_rebuild_extend(prev.pieces, prev.table, prev.quotes, prev.cur, q);
                    lemma_str_rebuild_push(
                        prev.pieces,
                        StrPiece::Lit(prev.table.len() as int),
                        prev.table.push(prev.cur),
                        prev.quotes.push(q),
                    );
                    assert(str_rebuild_piece(
                        StrPiece::Lit(prev.table.len() as int),
                        prev.table.push(prev.cur),
                        prev.quotes.push(q),
                    ) =~= seq![q] + prev.cur + seq![q]);
                    assert(str_rebuild(st.pieces, st.table, st.quotes) + str_pending(st) =~= s);
                    assert forall|i: int|
                        0 <= i < st.pieces.len() implies ((#[trigger] st.pieces[i]) matches
                    StrPiece::Lit(k) ==> 0 <= k < st.table.len()) by {
                        if i < st.pieces.len() - 1 {
                            assert(st.pieces[i] == prev.pieces[i]);
                        }
                    }
                } else {
                    lemma_str_step_inside(prev, c, q);
                    assert(str_pending(st) =~= str_pending(prev).push(c));
                    assert(str_rebuild(st.pieces, st.table, st.quotes) + str_pending(st) =~= s);
                }
            },
        }
    }
}

/// For every input the string pass accepts, re-substituting the literal table
/// into the rewritten text, entry by entry inside its original quote
/// characters, reconstructs the input exactly.
pub proof fn lemma_simplify_strings_roundtrip(s: Seq<char>)
    requires
        str_scan(s).mode is None,
    ensures
        str_rebuild(str_scan(s).pieces, str_scan(s).table, str_scan(s).quotes) == s,
        str_scan(s).table.len() == str_scan(s).quotes.len(),
{
    lemma_str_scan_invariant(s);
    assert(str_rebuild(str_scan(s).pieces, str_scan(s).table, str_scan(s).quotes) + Seq::<
        char,
    >::empty() =~= str_rebuild(str_scan(s).pieces, str_scan(s).table, str_scan(s).quotes));
}

/// Scans a line for unescaped single or double quotes, pairing each opening
/// quote with the next unescaped occurrence of the same character. Each
/// fully matched span is replaced with `"N"`, where `N` indexes the returned
/// table of interior contents, in source order. An unterminated quote fails
/// `UnclosedString`.
pub fn simplify_strings(text: &str) -> (r: Result<(String, Vec<String>), ASSyntaxError>)
    ensures
        match r {
            Ok((out, table)) => str_scan(text@).mode is None && out@ == str_render(
                str_scan(text@).pieces,
            ) && table.deep_view() == str_scan(text@).table,
            Err(e) => str_scan(text@).mode is Some && e@ == SynErr::UnclosedString,
        },
{
    let chars = string_to_chars(text);
    let mut mode: Option<char> = None;
    let mut prev: char = '\u{0}';
    let mut out = String::new();
    let mut table: Vec<String> = Vec::new();
    let mut cur = String::new();
    let mut i: usize = 0;
    while i < chars.len()
        invariant
            0 <= i <= chars@.len(),
            chars@ == text@,
            ({
                let st = str_scan(text@.subrange(0, i as int));
                mode == st.mode && prev == st.prev && out@ == str_render(st.pieces)
                    && table.deep_view() == st.table && cur@ == st.cur
            }),
        decreases chars@.len() - i,
    {
        let c = chars[i];
        let ghost st = str_scan(text@.subrange(0, i as int));
        let ghost st1 = str_scan(text@.subrange(0, i + 1));
        proof {
            assert(text@.subrange(0, i + 1).drop_last() =~= text@.subrange(0, i as int));
            assert(text@.subrange(0, i + 1).last() == text@[i as int]);
            assert(c == text@[i as int]);
            assert(st1 == str_step(st, c));
        }
        match mode {
            None => {
                if (c == '"' || c == '\'') && prev != '\\' {
                    proof {
                        lemma_str_step_open(st, c);
                    }
                    mode = Some(c);
                    cur = String::new();
                } else {
                    proof {
                        lemma_str_step_plain(st, c);
                        lemma_str_render_push(st.pieces, StrPiece::Ch(c));
                        assert(str_render_piece(StrPiece::Ch(c)) =~= seq![c]);
                        assert(str_render(st.pieces).push(c) =~= str_render(st.pieces) + seq![c]);
                    }
                    push_char(&mut out, c);
                    proof {
                        assert(out@ == str_render(st1.pieces));
                    }
                }
            },
            Some(q) => {
                if c == q && prev != '\\' {
                    proof {
                        lemma_str_step_close(st, c, q);
                        lemma_str_render_push(st.pieces, StrPiece::Lit(st.table.len() as int));
                        assert(table.deep_view().len() == table@.len()) by {
                            assert(table.deep_view() =~= table@.map_values(
                                |x: String| x.deep_view(),
                            ));
                        }
                    }
                    let digits = render_usize(table.len());
                    push_char(&mut out, '"');
                    let mut di: usize = 0;
                    while di < digits.len()
                        invariant
                            0 <= di <= digits@.len(),
                            out@ == str_render(st.pieces) + seq!['"'] + digits@.subrange(
                                0,
                                di as int,
                            ),
                        decreases digits@.len() - di,
                    {
                        let d = digits[di];
                        push_char(&mut out, d);
                        proof {
                            assert((str_render(st.pieces) + seq!['"'] + digits@.subrange(
                                0,
                                di as int,
                            )).push(d) =~= str_render(st.pieces) + seq!['"'] + digits@.subrange(
                                0,
                                di + 1,
                            ));
                        }
                        di = di + 1;
                    }
                    push_char(&mut out, '"');
                    proof {
                        assert(digits@.subrange(0, digits@.len() as int) =~= digits@);
                        assert((str_render(st.pieces) + seq!['"'] + dec_rep(
                            st.table.len() as int,
                        )).push('"') =~= str_render(st.pieces) + str_render_piece(
                            StrPiece::Lit(st.table.len() as int),
                        ));
                        assert(out@ == str_render(st1.pieces));
                    }
                    let entry = cur;
                    cur = String::new();
                    proof {
                        assert(table@.push(entry).map_values(|x: String| x.deep_view())
                            =~= table@.map_values(|x: String| x.deep_view()).push(entry@));
                        assert(table.deep_view() =~= table@.map_values(|x: String| x.deep_view()));
                    }
                    table.push(entry);
                    proof {
                        assert(table@.map_values(|x: String| x.deep_view()) =~= table.deep_view());
                        assert(table.deep_view() == st1.table);
                    }
                    mode = None;
                } else {
                    proof {
                        lemma_str_step_inside(st, c, q);
                    }
                    push_char(&mut cur, c);
                }
            },
        }
        prev = c;
        i = i + 1;
        proof {
            assert(text@.subrange(0, i as int) == text@.subrange(0, (i - 1) as int + 1));
        }
    }
    proof {
        assert(text@.subrange(0, text@.len() as int) =~= text@);
    }
    match mode {
        None => Ok((out, table)),
        Some(_) => Err(ASSyntaxError::UnclosedString),
    }
}


/// One piece of the rewritten text of the bracket pass: a plain character,
/// or a bracket pair whose interior is replaced by table index `N`.
pub enum BrPiece {
    Ch(char),
    Br(int, char),
}

/// The closing character matching an opening bracket.
pub open spec fn close_of(q: char) -> char {
    if q == '[' {
        ']'
    } else if q == '{' {
        '}'
    } else {
        ')'
    }
}

/// Whether a character opens a bracket group.
pub open spec fn is_open_bracket(c: char) -> bool {
    c == '[' || c == '{' || c == '('
}

/// The state of the bracket-extraction scan.
pub struct BrScan {
    /// The opening character of the bracket currently open, if any.
    pub mode: Option<char>,
    /// How many unmatched repetitions of the open character were absorbed.
    pub depth: nat,
    /// The rewritten text built so far, in structured form.
    pub pieces: Seq<BrPiece>,
    /// The extracted bracket interiors, in source order.
    pub table: Seq<Seq<char>>,
    /// The interior of the bracket currently open.
    pub cur: Seq<char>,
}

/// The scan state before any character.
pub open spec fn br_scan_init() -> BrScan {
    BrScan {
        mode: Option::None,
        depth: 0,
        pieces: Seq::empty(),
        table: Seq::empty(),
        cur: Seq::empty(),
    }
}

/// One step of the bracket-extraction scan: an opening character starts a
/// group; repeated identical open characters inside are absorbed rather than
/// prematurely closing it; the syntactically matching close character at
/// depth zero closes the group into a table entry, keeping the surrounding
/// bracket characters in the rewritten text.
pub open spec fn br_step(st: BrScan, c: char) -> BrScan {
    match st.mode {
        Option::None => {
            if is_open_bracket(c) {
                BrScan {
                    mode: Option::Some(c),
                    depth: 0,
                    pieces: st.pieces,
                    table: st.table,
                    cur: Seq::empty(),
                }
            } else {
                BrScan {
                    mode: Option::None,
                    depth: st.depth,
                    pieces: st.pieces.push(BrPiece::Ch(c)),
                    table: st.table,
                    cur: st.cur,
                }
            }
        },
        Option::Some(q) => {
            if c == q {
                BrScan {
                    mode: Option::Some(q),
                    depth: st.depth + 1,
                    pieces: st.pieces,
                    table: st.table,
                    cur: st.cur.push(c),
                }
            } else if c == close_of(q) {
                if st.depth > 0 {
                    BrScan {
                        mode: Option::Some(q),
                        depth: (st.depth - 1) as nat,
                        pieces: st.pieces,
                        table: st.table,
                        cur: st.cur.push(c),
                    }
                } else {
                    BrScan {
                        mode: Option::None,
                        depth: 0,
                        pieces: st.pieces.push(BrPiece::Br(st.table.len() as int, q)),
                        table: st.table.push(st.cur),
                        cur: Seq::empty(),
                    }
                }
            } else {
                BrScan {
                    mode: Option::Some(q),
                    depth: st.depth,
                    pieces: st.pieces,
                    table: st.table,
                    cur: st.cur.push(c),
                }
            }
        },
    }
}

/// The bracket-extraction scan over a whole text.
pub open spec fn br_scan(s: Seq<char>) -> BrScan
    decreases s.len(),
{
    if s.len() == 0 {
        br_scan_init()
    } else {
        br_step(br_scan(s.drop_last()), s.last())
    }
}

/// The rewritten text of one piece.
pub open spec fn br_render_piece(p: BrPiece) -> Seq<char> {
    match p {
        BrPiece::Ch(c) => seq![c],
        BrPiece::Br(k, q) => seq![q] + dec_rep(k) + seq![close_of(q)],
    }
}

/// The rewritten text of a piece sequence.
pub open spec fn br_render(ps: Seq<BrPiece>) -> Seq<char>
    decreases ps.len(),
{
    if ps.len() == 0 {
        Seq::empty()
    } else {
        br_render(ps.drop_last()) + br_render_piece(ps.last())
    }
}

/// The original text of one piece: a bracket pair is re-substituted with its
/// table entry between its original bracket characters.
pub open spec fn br_rebuild_piece(p: BrPiece, table: Seq<Seq<char>>) -> Seq<char> {
    match p {
        BrPiece::Ch(c) => seq![c],
        BrPiece::Br(k, q) => if 0 <= k < table.len() {
            seq![q] + table[k] + seq![close_of(q)]
        } else {
            Seq::empty()
        },
    }
}

/// The original text of a piece sequence.
pub open spec fn br_rebuild(ps: Seq<BrPiece>, table: Seq<Seq<char>>) -> Seq<char>
    decreases ps.len(),
{
    if ps.len() == 0 {
        Seq::empty()
    } else {
        br_rebuild(ps.drop_last(), table) + br_rebuild_piece(ps.last(), table)
    }
}

/// A scan state is well formed when every placeholder refers to an existing
/// table entry.
pub open spec fn br_scan_wf(st: BrScan) -> bool {
    forall|i: int|
        0 <= i < st.pieces.len() ==> ((#[trigger] st.pieces[i]) matches BrPiece::Br(k, q) ==> 0 <= k
            < st.table.len())
}

/// The text still owed by an open bracket: its opening character and
/// interior.
pub open spec fn br_pending(st: BrScan) -> Seq<char> {
    match st.mode {
        Option::Some(q) => seq![q] + st.cur,
        Option::None => Seq::empty(),
    }
}

/// Names the character under a present option.
proof fn opt_char(m: Option<char>) -> (q: char)
    requires
        m is Some,
    ensures
        m == Option::Some(q),
{
    m->0
}

/// The step outcome when a bracket opens.
proof fn lemma_br_step_open(st: BrScan, c: char)
    requires
        st.mode is None,
        c == '[' || c == '{' || c == '(',
    ensures
        br_step(st, c).mode == Option::Some(c),
        br_step(st, c).depth == 0,
        br_step(st, c).pieces == st.pieces,
        br_step(st, c).table == st.table,
        br_step(st, c).cur == Seq::<char>::empty(),
{
}

/// The step outcome on a plain character outside any bracket.
proof fn lemma_br_step_plain(st: BrScan, c: char)
    requires
        st.mode is None,
        !(c == '[' || c == '{' || c == '('),
    ensures
        br_step(st, c).mode is None,
        br_step(st, c).depth == st.depth,
        br_step(st, c).pieces == st.pieces.push(BrPiece::Ch(c)),
        br_step(st, c).table == st.table,
        br_step(st, c).cur == st.cur,
{
}

/// The step outcome when the open character repeats inside its own group.
proof fn lemma_br_step_nest(st: BrScan, c: char, q: char)
    requires
        st.mode == Option::Some(q),
        c == q,
    ensures
        br_step(st, c).mode == Option::Some(q),
        br_step(st, c).depth == st.depth + 1,
        br_step(st, c).pieces == st.pieces,
        br_step(st, c).table == st.table,
        br_step(st, c).cur == st.cur.push(c),
{
}

/// The step outcome when a close character cancels an absorbed repetition.
proof fn lemma_br_step_unnest(st: BrScan, c: char, q: char)
    requires
        st.mode == Option::Some(q),
        c != q,
        c == close_of(q),
        st.depth > 0,
    ensures
        br_step(st, c).mode == Option::Some(q),
        br_step(st, c).depth == st.depth - 1,
        br_step(st, c).pieces == st.pieces,
        br_step(st, c).table == st.table,
        br_step(st, c).cur == st.cur.push(c),
{
}

/// The step outcome when the matching close character closes the group.
proof fn lemma_br_step_close(st: BrScan, c: char, q: char)
    requires
        st.mode == Option::Some(q),
        c != q,
        c == close_of(q),
        st.depth == 0,
    ensures
        br_step(st, c).mode is None,
        br_step(st, c).depth == 0,
        br_step(st, c).pieces == st.pieces.push(BrPiece::Br(st.table.len() as int, q)),
        br_step(st, c).table == st.table.push(st.cur),
        br_step(st, c).cur == Seq::<char>::empty(),
{
}

/// The step outcome on any other character inside an open group.
proof fn lemma_br_step_inside(st: BrScan, c: char, q: char)
    requires
        st.mode == Option::Some(q),
        c != q,
        c != close_of(q),
    ensures
        br_step(st, c).mode == Option::Some(q),
        br_step(st, c).depth == st.depth,
        br_step(st, c).pieces == st.pieces,
        br_step(st, c).table == st.table,
        br_step(st, c).cur == st.cur.push(c),
{
}

/// Appending a piece appends its rewritten text.
proof fn lemma_br_render_push(ps: Seq<BrPiece>, p: BrPiece)
    ensures
        br_render(ps.push(p)) == br_render(ps) + br_render_piece(p),
{
    assert(ps.push(p).drop_last() =~= ps);
    assert(ps.push(p).last() == p);
}

/// Appending a piece appends its original text.
proof fn lemma_br_rebuild_push(ps: Seq<BrPiece>, p: BrPiece, table: Seq<Seq<char>>)
    ensures
        br_rebuild(ps.push(p), table) == br_rebuild(ps, table) + br_rebuild_piece(p, table),
{
    assert(ps.push(p).drop_last() =~= ps);
    assert(ps.push(p).last() == p);
}

/// Extending the table does not change the original text of pieces whose
/// placeholders it already covers.
proof fn lemma_br_rebuild_extend(ps: Seq<BrPiece>, table: Seq<Seq<char>>, entry: Seq<char>)
    requires
        forall|i: int|
            0 <= i < ps.len() ==> ((#[trigger] ps[i]) matches BrPiece::Br(k, q) ==> 0 <= k
                < table.len()),
    ensures
        br_rebuild(ps, table.push(entry)) == br_rebuild(ps, table),
    decreases ps.len(),
{
    if ps.len() > 0 {
        lemma_br_rebuild_extend(ps.drop_last(), table, entry);
        assert(forall|i: int|
            0 <= i < ps.drop_last().len() ==> ps.drop_last()[i] == #[trigger] ps[i]);
        assert(ps[ps.len() - 1] == ps.last());
        assert(br_rebuild_piece(ps.last(), table.push(entry)) == br_rebuild_piece(
            ps.last(),
            table,
        ));
    }
}

/// The scan invariant: the state is well formed, and the rewritten pieces,
/// re-substituted, together with any still-open bracket, spell the scanned
/// text exactly.
proof fn lemma_br_scan_invariant(s: Seq<char>)
    ensures
        br_scan_wf(br_scan(s)),
        br_rebuild(br_scan(s).pieces, br_scan(s).table) + br_pending(br_scan(s)) == s,
    decreases s.len(),
{
    if s.len() == 0 {
        let st = br_scan(s);
        assert(br_rebuild(st.pieces, st.table) + br_pending(st) =~= s);
    } else {
        let prev = br_scan(s.drop_last());
        let c = last_char(s);
        lemma_br_scan_invariant(s.drop_last());
        assert(s =~= s.drop_last().push(c));
        let st = br_step(prev, c);
        assert(br_scan(s) == st);
        match prev.mode {
            Option::None => {
                assert(br_pending(prev) =~= Seq::<char>::empty());
                assert(br_rebuild(prev.pieces, prev.table) =~= s.drop_last());
                if c == '[' || c == '{' || c == '(' {
                    lemma_br_step_open(prev, c);
                    assert(br_pending(st) =~= seq![c]);
                    assert(br_rebuild(st.pieces, st.table) + br_pending(st) =~= s);
                } else {
                    lemma_br_step_plain(prev, c);
                    lemma_br_rebuild_push(prev.pieces, BrPiece::Ch(c), prev.table);
                    assert(br_rebuild_piece(BrPiece::Ch(c), prev.table) =~= seq![c]);
                    assert(br_rebuild(st.pieces, st.table) + br_pending(st) =~= s);
                    assert forall|i: int|
                        0 <= i < st.pieces.len() implies ((#[trigger] st.pieces[i]) matches
                    BrPiece::Br(k, q) ==> 0 <= k < st.table.len()) by {
                        if i < st.pieces.len() - 1 {
                            assert(st.pieces[i] == prev.pieces[i]);
                        }
                    }
                }
            },
            Option::Some(_) => {
                let q = opt_char(prev.mode);
                if c == q {
                    lemma_br_step_nest(prev, c, q);
                    assert(br_pending(st) =~= br_pending(prev).push(c));
                    assert(br_rebuild(st.pieces, st.table) + br_pending(st) =~= s);
                } else if c == close_of(q) {
                    if prev.depth > 0 {
                        lemma_br_step_unnest(prev, c, q);
                        assert(br_pending(st) =~= br_pending(prev).push(c));
                        assert(br_rebuild(st.pieces, st.table) + br_pending(st) =~= s);
                    } else {
                        lemma_br_step_close(prev, c, q);
                        lemma_br_rebuild_extend(prev.pieces, prev.table, prev.cur);
                        lemma_br_rebuild_push(
                            prev.pieces,
                            BrPiece::Br(prev.table.len() as int, q),
                            prev.table.push(prev.cur),
                        );
                        assert(br_rebuild_piece(
                            BrPiece::Br(prev.table.len() as int, q),
                            prev.table.push(prev.cur),
                        ) =~= seq![q] + prev.cur + seq![close_of(q)]);
                        assert(br_rebuild(st.pieces, st.table) + br_pending(st) =~= s);
                        assert forall|i: int|
                            0 <= i < st.pieces.len() implies ((#[trigger] st.pieces[i]) matches
                        BrPiece::Br(k, qq) ==> 0 <= k < st.table.len()) by {
                            if i < st.pieces.len() - 1 {
                                assert(st.pieces[i] == prev.pieces[i]);
                            }
                        }
                    }
                } else {
                    lemma_br_step_inside(prev, c, q);
                    assert(br_pending(st) =~= br_pending(prev).push(c));
                    assert(br_rebuild(st.pieces, st.table) + br_pending(st) =~= s);
                }
            },
        }
    }
}

/// A text with no opening bracket character passes through the bracket scan
/// unchanged: nothing is extracted.
pub proof fn lemma_br_scan_plain(s: Seq<char>)
    requires
        forall|i: int| 0 <= i < s.len() ==> !is_open_bracket(#[trigger] s[i]),
    ensures
        br_scan(s).mode is None,
        br_render(br_scan(s).pieces) == s,
        br_scan(s).table == Seq::<Seq<char>>::empty(),
    decreases s.len(),
{
    if s.len() == 0 {
        assert(br_render(br_scan(s).pieces) =~= s);
        assert(br_scan(s).table =~= Seq::<Seq<char>>::empty());
    } else {
        assert(forall|i: int|
            0 <= i < s.drop_last().len() ==> !is_open_bracket(#[trigger] s.drop_last()[i]));
        lemma_br_scan_plain(s.drop_last());
        let c = last_char(s);
        assert(!is_open_bracket(s[s.len() - 1]));
        assert(!(c == '[' || c == '{' || c == '('));
        let prev = br_scan(s.drop_last());
        lemma_br_step_plain(prev, c);
        assert(br_scan(s) == br_step(prev, c));
        lemma_br_render_push(prev.pieces, BrPiece::Ch(c));
        assert(br_render_piece(BrPiece::Ch(c)) =~= seq![c]);
        assert(br_render(br_scan(s).pieces) =~= s) by {
            assert(s =~= s.drop_last().push(c));
        }
    }
}

/// For every input the bracket pass accepts, re-substituting the table into
/// the rewritten text, entry by entry between its original bracket
/// characters, reconstructs the input exactly. In particular no table entry
/// reaches outside its original span.
pub proof fn lemma_simplify_brackets_roundtrip(s: Seq<char>)
    requires
        br_scan(s).mode is None,
    ensures
        br_rebuild(br_scan(s).pieces, br_scan(s).table) == s,
{
    lemma_br_scan_invariant(s);
    assert(br_rebuild(br_scan(s).pieces, br_scan(s).table) + Seq::<char>::empty() =~= br_rebuild(
        br_scan(s).pieces,
        br_scan(s).table,
    ));
}

/// The whole-scan outcome of one plain character outside any bracket.
proof fn lemma_br_prefix_plain(prefix: Seq<char>, c: char)
    requires
        br_scan(prefix).mode is None,
        !(c == '[' || c == '{' || c == '('),
    ensures
        br_scan(prefix.push(c)).mode is None,
        br_scan(prefix.push(c)).depth == br_scan(prefix).depth,
        br_scan(prefix.push(c)).table == br_scan(prefix).table,
        br_scan(prefix.push(c)).cur == br_scan(prefix).cur,
        br_render(br_scan(prefix.push(c)).pieces) == br_render(br_scan(prefix).pieces).push(c),
{
    assert(prefix.push(c).drop_last() =~= prefix);
    assert(prefix.push(c).last() == c);
    let st = br_scan(prefix);
    assert(br_scan(prefix.push(c)) == br_step(st, c));
    lemma_br_step_plain(st, c);
    lemma_br_render_push(st.pieces, BrPiece::Ch(c));
    assert(br_render_piece(BrPiece::Ch(c)) =~= seq![c]);
    assert(br_render(st.pieces).push(c) =~= br_render(st.pieces) + seq![c]);
}

/// The whole-scan outcome of the matching close character at depth zero.
proof fn lemma_br_prefix_close(prefix: Seq<char>, c: char, q: char)
    requires
        br_scan(prefix).mode == Option::Some(q),
        c != q,
        c == close_of(q),
        br_scan(prefix).depth == 0,
    ensures
        br_scan(prefix.push(c)).mode is None,
        br_scan(prefix.push(c)).depth == 0,
        br_scan(prefix.push(c)).table == br_scan(prefix).table.push(br_scan(prefix).cur),
        br_scan(prefix.push(c)).cur == Seq::<char>::empty(),
        br_render(br_scan(prefix.push(c)).pieces) == br_render(br_scan(prefix).pieces) + seq![q]
            + dec_rep(br_scan(prefix).table.len() as int) + seq![close_of(q)],
{
    assert(prefix.push(c).drop_last() =~= prefix);
    assert(prefix.push(c).last() == c);
    let st = br_scan(prefix);
    assert(br_scan(prefix.push(c)) == br_step(st, c));
    lemma_br_step_close(st, c, q);
    lemma_br_render_push(st.pieces, BrPiece::Br(st.table.len() as int, q));
    assert(br_render_piece(BrPiece::Br(st.table.len() as int, q)) =~= seq![q] + dec_rep(
        st.table.len() as int,
    ) + seq![close_of(q)]);
}

/// Scans a line for `[`, `{` and `(` groups, tracking same-character nesting
/// depth so repeated identical open characters are absorbed, and requiring
/// the syntactically matching close character. Each fully matched span's
/// interior is replaced with an index into the returned table, keeping the
/// surrounding bracket characters. An unterminated bracket fails
/// `UnclosedBracket`, naming the open character.
#[verifier::rlimit(60)]
pub fn simplify_brackets(text: &str) -> (r: Result<(String, Vec<String>), ASSyntaxError>)
    ensures
        match r {
            Ok((out, table)) => br_scan(text@).mode is None && out@ == br_render(
                br_scan(text@).pieces,
            ) && table.deep_view() == br_scan(text@).table,
            Err(e) => br_scan(text@).mode is Some && e@ == (SynErr::UnclosedBracket {
                bracket: br_scan(text@).mode->0,
            }),
        },
{
    let chars = string_to_chars(text);
    let mut mode: Option<char> = None;
    let mut depth: usize = 0;
    let mut out = String::new();
    let mut table: Vec<String> = Vec::new();
    let mut cur = String::new();
    let mut i: usize = 0;
    while i < chars.len()
        invariant
            0 <= i <= chars@.len(),
            chars@ == text@,
            ({
                let st = br_scan(text@.subrange(0, i as int));
                mode == st.mode && depth == st.depth && out@ == br_render(st.pieces)
                    && table.deep_view() == st.table && cur@ == st.cur && st.depth <= i
            }),
        decreases chars@.len() - i,
    {
        let c = chars[i];
        let ghost st = br_scan(text@.subrange(0, i as int));
        let ghost st1 = br_scan(text@.subrange(0, i + 1));
        proof {
            assert(text@.subrange(0, i + 1).drop_last() =~= text@.subrange(0, i as int));
            assert(text@.subrange(0, i + 1).last() == text@[i as int]);
            assert(c == text@[i as int]);
            assert(st1 == br_step(st, c));
        }
        match mode {
            None => {
                if c == '[' || c == '{' || c == '(' {
                    proof {
                        lemma_br_step_open(st, c);
                    }
                    mode = Some(c);
                    depth = 0;
                    cur = String::new();
                } else {
                    proof {
                        lemma_br_prefix_plain(text@.subrange(0, i as int), c);
                        assert(text@.subrange(0, i as int).push(c) =~= text@.subrange(0, i + 1));
                        assert(br_render(st1.pieces) == br_render(st.pieces).push(c));
                    }
                    push_char(&mut out, c);
                    proof {
                        assert(out@ == br_render(st1.pieces));
                    }
                }
            },
            Some(q) => {
                if c == q {
                    proof {
                        lemma_br_step_nest(st, c, q);
                    }
                    depth = depth + 1;
                    push_char(&mut cur, c);
                } else {
                    let closing = if q == '[' {
                        ']'
                    } else if q == '{' {
                        '}'
                    } else {
                        ')'
                    };
                    proof {
                        assert(closing == close_of(q));
                    }
                    if c == closing {
                        if depth > 0 {
                            proof {
                                lemma_br_step_unnest(st, c, q);
                            }
                            depth = depth - 1;
                            push_char(&mut cur, c);
                        } else {
                            proof {
                                lemma_br_prefix_close(text@.subrange(0, i as int), c, q);
                                assert(text@.subrange(0, i as int).push(c) =~= text@.subrange(
                                    0,
                                    i + 1,
                                ));
                                assert(br_render(st1.pieces) == br_render(st.pieces) + seq![q]
                                    + dec_rep(st.table.len() as int) + seq![close_of(q)]);
                                assert(table.deep_view().len() == table@.len()) by {
                                    assert(table.deep_view() =~= table@.map_values(
                                        |x: String| x.deep_view(),
                                    ));
                                }
                            }
                            push_char(&mut out, q);
                            let digits = render_usize(table.len());
                            let mut di: usize = 0;
                            while di < digits.len()
                                invariant
                                    0 <= di <= digits@.len(),
                                    out@ == br_render(st.pieces) + seq![q] + digits@.subrange(
                                        0,
                                        di as int,
                                    ),
                                decreases digits@.len() - di,
                            {
                                let d = digits[di];
                                push_char(&mut out, d);
                                proof {
                                    assert((br_render(st.pieces) + seq![q] + digits@.subrange(
                                        0,
                                        di as int,
                                    )).push(d) =~= br_render(st.pieces) + seq![q]
                                        + digits@.subrange(0, di + 1));
                                }
                                di = di + 1;
                            }
                            push_char(&mut out, closing);
                            proof {
                                assert(digits@.subrange(0, digits@.len() as int) =~= digits@);
                                assert((br_render(st.pieces) + seq![q] + dec_rep(
                                    st.table.len() as int,
                                )).push(closing) =~= br_render(st.pieces) + seq![q] + dec_rep(
                                    st.table.len() as int,
                                ) + seq![close_of(q)]);
                                assert(out@ == br_render(st1.pieces));
                            }
                            let entry = cur;
                            cur = String::new();
                            proof {
                                assert(table@.push(entry).map_values(|x: String| x.deep_view())
                                    =~= table@.map_values(|x: String| x.deep_view()).push(entry@));
                                assert(table.deep_view() =~= table@.map_values(
                                    |x: String| x.deep_view(),
                                ));
                            }
                            table.push(entry);
                            proof {
                                assert(table@.map_values(|x: String| x.deep_view())
                                    =~= table.deep_view());
                                assert(table.deep_view() == st1.table);
                            }
                            mode = None;
                            depth = 0;
                        }
                    } else {
                        proof {
                            lemma_br_step_inside(st, c, q);
                        }
                        push_char(&mut cur, c);
                    }
                }
            },
        }
        i = i + 1;
        proof {
            assert(text@.subrange(0, i as int) == text@.subrange(0, (i - 1) as int + 1));
        }
    }
    proof {
        assert(text@.subrange(0, text@.len() as int) =~= text@);
    }
    match mode {
        None => Ok((out, table)),
        Some(q) => Err(ASSyntaxError::UnclosedBracket { bracket: q }),
    }
}

} // verus!
