//! The expression evaluator: tokenizes simplified text into operand
//! segments and operators, recognizes literals against the side-tables,
//! resolves unary operators, then folds the binary tiers in precedence
//! order. Sub-expressions, list and map literals and interpolated text
//! re-enter the evaluator through a bounded recursion budget.

use vstd::prelude::*;

use crate::error::ASError;
use crate::error::ASCmdError;
use crate::error::ASSyntaxError;
use crate::error::CommandErrors;
use crate::info::GameInfo;
use crate::methods::eval_state_ok;
use crate::methods::lemma_eval_state_refl;
use crate::methods::lemma_eval_state_trans;
use crate::methods::list_get;
use crate::methods::list_index_of;
use crate::methods::map_get;
use crate::methods::MethodKind;
use crate::methods::TypeMethods;
use crate::simplify::simplify_brackets;
use crate::simplify::simplify_strings;
use crate::text::chars_to_string;
use crate::text::check_ident;
use crate::text::is_digit;
use crate::text::parse_index;
use crate::text::parse_u64;
use crate::text::push_char;
use crate::text::string_to_chars;
use crate::text::trim_chars;
use crate::variables::entries_of;
use crate::variables::lemma_entries_of;
use crate::variables::lemma_vals_of;
use crate::variables::operations::CmpOp;
use crate::variables::val_of;
use crate::variables::val_wf;
use crate::variables::vals_of;
use crate::variables::ASVariable;
use crate::variables::KeyVar;
use crate::variables::Val;

verus! {

/// How deep the evaluator may recurse through sub-expressions, list and map
/// literals, method arguments and interpolation before it reports
/// `NestingTooDeep`.
pub const MAX_NESTING: u64 = 64;

/// An operator token.
#[derive(Clone, Copy, PartialEq, Eq, Structural)]
pub enum Op {
    Plus,
    Minus,
    Star,
    Slash,
    Caret,
    EqEq,
    BangEq,
    GtEq,
    LtEq,
    LtOp,
    GtOp,
    Bang,
}

/// The operator recognized at a position, with its width: two-character
/// operators are matched first, then single characters.
pub open spec fn op_at(c1: char, c2: Option<char>) -> Option<(Op, int)> {
    if c1 == '!' && c2 == Option::Some('=') {
        Option::Some((Op::BangEq, 2))
    } else if c1 == '=' && c2 == Option::Some('=') {
        Option::Some((Op::EqEq, 2))
    } else if c1 == '>' && c2 == Option::Some('=') {
        Option::Some((Op::GtEq, 2))
    } else if c1 == '<' && c2 == Option::Some('=') {
        Option::Some((Op::LtEq, 2))
    } else if c1 == '+' {
        Option::Some((Op::Plus, 1))
    } else if c1 == '-' {
        Option::Some((Op::Minus, 1))
    } else if c1 == '*' {
        Option::Some((Op::Star, 1))
    } else if c1 == '/' {
        Option::Some((Op::Slash, 1))
    } else if c1 == '^' {
        Option::Some((Op::Caret, 1))
    } else if c1 == '!' {
        Option::Some((Op::Bang, 1))
    } else if c1 == '<' {
        Option::Some((Op::LtOp, 1))
    } else if c1 == '>' {
        Option::Some((Op::GtOp, 1))
    } else {
        Option::None
    }
}

/// The segments and operators of a text's tokenization.
pub struct TokOut {
    /// The operand segments, one more than the operators.
    pub segs: Seq<Seq<char>>,
    /// The operators, in source order.
    pub ops: Seq<Op>,
}

/// Tokenization from a position on, with the segment read so far.
pub open spec fn tok_from(s: Seq<char>, i: int, cur: Seq<char>) -> TokOut
    decreases s.len() - i,
{
    if i < 0 || i >= s.len() {
        TokOut { segs: seq![cur], ops: Seq::empty() }
    } else {
        let c2 = if i + 1 < s.len() {
            Option::Some(s[i + 1])
        } else {
            Option::None
        };
        match op_at(s[i], c2) {
            Option::Some(ow) => {
                let rest = tok_from(s, i + ow.1, Seq::empty());
                TokOut { segs: seq![cur] + rest.segs, ops: seq![ow.0] + rest.ops }
            },
            Option::None => tok_from(s, i + 1, cur.push(s[i])),
        }
    }
}

/// The tokenization of a text: the operator scan recognizes, in source
/// order, two-character operators first, splitting the text into an
/// alternating sequence of operand segments and operators.
pub open spec fn tokenize_spec(s: Seq<char>) -> TokOut {
    tok_from(s, 0, Seq::empty())
}

/// Tokenization always yields one more segment than operators.
proof fn lemma_tok_from_len(s: Seq<char>, i: int, cur: Seq<char>)
    ensures
        tok_from(s, i, cur).segs.len() == tok_from(s, i, cur).ops.len() + 1,
    decreases s.len() - i,
{
    if 0 <= i < s.len() {
        let c2 = if i + 1 < s.len() {
            Option::Some(s[i + 1])
        } else {
            Option::None
        };
        match op_at(s[i], c2) {
            Option::Some(ow) => {
                lemma_tok_from_len(s, i + ow.1, Seq::empty());
            },
            Option::None => {
                lemma_tok_from_len(s, i + 1, cur.push(s[i]));
            },
        }
    }
}

/// The step of the scan at a position where an operator matches.
proof fn lemma_tok_step_op(s: Seq<char>, i: int, cur: Seq<char>, c1: char, c2: Option<char>)
    requires
        0 <= i < s.len(),
        c1 == s[i],
        c2 == (if i + 1 < s.len() {
            Option::Some(s[i + 1])
        } else {
            Option::<char>::None
        }),
        op_at(c1, c2) is Some,
    ensures
        ({
            let ow = op_at(c1, c2)->0;
            tok_from(s, i, cur).segs == seq![cur] + tok_from(s, i + ow.1, Seq::empty()).segs
                && tok_from(s, i, cur).ops == seq![ow.0] + tok_from(s, i + ow.1, Seq::empty()).ops
        }),
{
}

/// The step of the scan at a plain character.
proof fn lemma_tok_step_plain(s: Seq<char>, i: int, cur: Seq<char>, c1: char, c2: Option<char>)
    requires
        0 <= i < s.len(),
        c1 == s[i],
        c2 == (if i + 1 < s.len() {
            Option::Some(s[i + 1])
        } else {
            Option::<char>::None
        }),
        op_at(c1, c2) is None,
    ensures
        tok_from(s, i, cur) == tok_from(s, i + 1, cur.push(c1)),
{
}

/// The views of a vector of character vectors.
pub open spec fn charses_view(v: Seq<Vec<char>>) -> Seq<Seq<char>>
    decreases v.len(),
{
    if v.len() == 0 {
        Seq::empty()
    } else {
        charses_view(v.drop_last()).push(v.last()@)
    }
}

/// The view of such a vector is the pointwise view of its entries.
pub proof fn lemma_charses_view(v: Seq<Vec<char>>)
    ensures
        charses_view(v).len() == v.len(),
        forall|i: int| 0 <= i < v.len() ==> charses_view(v)[i] == (#[trigger] v[i])@,
    decreases v.len(),
{
    if v.len() > 0 {
        lemma_charses_view(v.drop_last());
        assert forall|i: int| 0 <= i < v.len() implies charses_view(v)[i] == (#[trigger] v[i])@ by {
            if i < v.len() - 1 {
                assert(v.drop_last()[i] == v[i]);
            } else {
                assert(v[i] == v.last());
            }
        }
    }
}

/// Appending an entry appends its view.
proof fn lemma_charses_push(v: Seq<Vec<char>>, x: Vec<char>)
    ensures
        charses_view(v.push(x)) == charses_view(v).push(x@),
{
    assert(v.push(x).drop_last() =~= v);
    assert(v.push(x).last() == x);
}

/// Splits text into operand segments and the operators between them,
/// recognizing two-character operators first at each position, in source
/// order.
fn tokenize(text: &Vec<char>) -> (r: (Vec<Vec<char>>, Vec<Op>))
    ensures
        r.0@.len() == r.1@.len() + 1,
        charses_view(r.0@) == tokenize_spec(text@).segs,
        r.1@ == tokenize_spec(text@).ops,
{
    let mut segs: Vec<Vec<char>> = Vec::new();
    let mut ops: Vec<Op> = Vec::new();
    let mut cur: Vec<char> = Vec::new();
    let mut i: usize = 0;
    proof {
        assert(charses_view(segs@) =~= Seq::<Seq<char>>::empty());
        assert(charses_view(segs@) + tokenize_spec(text@).segs =~= tokenize_spec(text@).segs);
        assert(ops@ + tokenize_spec(text@).ops =~= tokenize_spec(text@).ops);
    }
    while i < text.len()
        invariant
            segs@.len() == ops@.len(),
            0 <= i <= text@.len(),
            tokenize_spec(text@).segs == charses_view(segs@) + tok_from(
                text@,
                i as int,
                cur@,
            ).segs,
            tokenize_spec(text@).ops == ops@ + tok_from(text@, i as int, cur@).ops,
        decreases text@.len() - i,
    {
        let c = text[i];
        let c2: Option<char> = if i + 1 < text.len() {
            Some(text[i + 1])
        } else {
            None
        };
        let two: Option<Op> = match c2 {
            Some(cc) => {
                if c == '!' && cc == '=' {
                    Some(Op::BangEq)
                } else if c == '=' && cc == '=' {
                    Some(Op::EqEq)
                } else if c == '>' && cc == '=' {
                    Some(Op::GtEq)
                } else if c == '<' && cc == '=' {
                    Some(Op::LtEq)
                } else {
                    None
                }
            },
            None => None,
        };
        let one: Option<Op> = if c == '+' {
            Some(Op::Plus)
        } else if c == '-' {
            Some(Op::Minus)
        } else if c == '*' {
            Some(Op::Star)
        } else if c == '/' {
            Some(Op::Slash)
        } else if c == '^' {
            Some(Op::Caret)
        } else if c == '!' {
            Some(Op::Bang)
        } else if c == '<' {
            Some(Op::LtOp)
        } else if c == '>' {
            Some(Op::GtOp)
        } else {
            None
        };
        proof {
            assert(c == text@[i as int]);
            assert(c2 == (if i + 1 < text@.len() {
                Option::Some(text@[i + 1])
            } else {
                Option::<char>::None
            }));
        }
        match two {
            Some(op) => {
                proof {
                    assert(op_at(c, c2) == Option::Some((op, 2int)));
                    lemma_tok_step_op(text@, i as int, cur@, c, c2);
                    lemma_charses_push(segs@, cur);
                    assert(charses_view(segs@.push(cur)) + tok_from(
                        text@,
                        i + 2,
                        Seq::<char>::empty(),
                    ).segs =~= charses_view(segs@) + (seq![cur@] + tok_from(
                        text@,
                        i + 2,
                        Seq::<char>::empty(),
                    ).segs));
                    assert(ops@.push(op) + tok_from(text@, i + 2, Seq::<char>::empty()).ops
                        =~= ops@ + (seq![op] + tok_from(text@, i + 2, Seq::<char>::empty()).ops));
                }
                segs.push(cur);
                cur = Vec::new();
                ops.push(op);
                i = i + 2;
                proof {
                    assert(cur@ =~= Seq::<char>::empty());
                }
            },
            None => match one {
                Some(op) => {
                    proof {
                        assert(op_at(c, c2) == Option::Some((op, 1int)));
                        lemma_tok_step_op(text@, i as int, cur@, c, c2);
                        lemma_charses_push(segs@, cur);
                        assert(charses_view(segs@.push(cur)) + tok_from(
                            text@,
                            i + 1,
                            Seq::<char>::empty(),
                        ).segs =~= charses_view(segs@) + (seq![cur@] + tok_from(
                            text@,
                            i + 1,
                            Seq::<char>::empty(),
                        ).segs));
                        assert(ops@.push(op) + tok_from(text@, i + 1, Seq::<char>::empty()).ops
                            =~= ops@ + (seq![op] + tok_from(
                            text@,
                            i + 1,
                            Seq::<char>::empty(),
                        ).ops));
                    }
                    segs.push(cur);
                    cur = Vec::new();
                    ops.push(op);
                    i = i + 1;
                    proof {
                        assert(cur@ =~= Seq::<char>::empty());
                    }
                },
                None => {
                    proof {
                        assert(op_at(c, c2) is None);
                        lemma_tok_step_plain(text@, i as int, cur@, c, c2);
                    }
                    cur.push(c);
                    i = i + 1;
                },
            },
        }
    }
    proof {
        assert(tok_from(text@, i as int, cur@).segs =~= seq![cur@]);
        assert(tok_from(text@, i as int, cur@).ops =~= Seq::<Op>::empty());
        lemma_charses_push(segs@, cur);
        assert(charses_view(segs@) + seq![cur@] =~= charses_view(segs@).push(cur@));
        assert(ops@ + Seq::<Op>::empty() =~= ops@);
        lemma_tok_from_len(text@, 0, Seq::<char>::empty());
        lemma_charses_view(segs@.push(cur));
    }
    segs.push(cur);
    (segs, ops)
}

/// The pieces of a text split at a separator, from a position on, with the
/// piece read so far.
pub open spec fn split_from(s: Seq<char>, sep: char, i: int, cur: Seq<char>) -> Seq<Seq<char>>
    decreases s.len() - i,
{
    if i < 0 || i >= s.len() {
        seq![cur]
    } else if s[i] == sep {
        seq![cur] + split_from(s, sep, i + 1, Seq::empty())
    } else {
        split_from(s, sep, i + 1, cur.push(s[i]))
    }
}

/// The pieces of a text split at every occurrence of a separator.
pub open spec fn split_spec(s: Seq<char>, sep: char) -> Seq<Seq<char>> {
    split_from(s, sep, 0, Seq::empty())
}

/// The split step at a separator.
proof fn lemma_split_step_sep(s: Seq<char>, sep: char, i: int, cur: Seq<char>, c: char)
    requires
        0 <= i < s.len(),
        c == s[i],
        c == sep,
    ensures
        split_from(s, sep, i, cur) == seq![cur] + split_from(s, sep, i + 1, Seq::empty()),
{
}

/// The split step at a plain character.
proof fn lemma_split_step_plain(s: Seq<char>, sep: char, i: int, cur: Seq<char>, c: char)
    requires
        0 <= i < s.len(),
        c == s[i],
        c != sep,
    ensures
        split_from(s, sep, i, cur) == split_from(s, sep, i + 1, cur.push(c)),
{
}

/// Splits text at every occurrence of a separator character. Always yields
/// at least one piece.
pub fn split_char(text: &Vec<char>, sep: char) -> (r: Vec<Vec<char>>)
    ensures
        r@.len() >= 1,
        charses_view(r@) == split_spec(text@, sep),
{
    let mut out: Vec<Vec<char>> = Vec::new();
    let mut cur: Vec<char> = Vec::new();
    let mut i: usize = 0;
    proof {
        assert(charses_view(out@) =~= Seq::<Seq<char>>::empty());
        assert(charses_view(out@) + split_spec(text@, sep) =~= split_spec(text@, sep));
    }
    while i < text.len()
        invariant
            0 <= i <= text@.len(),
            split_spec(text@, sep) == charses_view(out@) + split_from(
                text@,
                sep,
                i as int,
                cur@,
            ),
        decreases text@.len() - i,
    {
        let c = text[i];
        proof {
            assert(c == text@[i as int]);
        }
        if c == sep {
            proof {
                lemma_split_step_sep(text@, sep, i as int, cur@, c);
                lemma_charses_push(out@, cur);
                assert(charses_view(out@.push(cur)) + split_from(
                    text@,
                    sep,
                    i + 1,
                    Seq::<char>::empty(),
                ) =~= charses_view(out@) + (seq![cur@] + split_from(
                    text@,
                    sep,
                    i + 1,
                    Seq::<char>::empty(),
                )));
            }
            out.push(cur);
            cur = Vec::new();
            proof {
                assert(cur@ =~= Seq::<char>::empty());
            }
        } else {
            proof {
                lemma_split_step_plain(text@, sep, i as int, cur@, c);
            }
            cur.push(c);
        }
        i = i + 1;
    }
    proof {
        assert(split_from(text@, sep, i as int, cur@) =~= seq![cur@]);
        lemma_charses_push(out@, cur);
        assert(charses_view(out@) + seq![cur@] =~= charses_view(out@).push(cur@));
    }
    out.push(cur);
    out
}

/// The position of the first occurrence of a character.
pub fn find_char(text: &Vec<char>, c: char) -> (r: Option<usize>)
    ensures
        match r {
            Some(i) => i < text@.len() && text@[i as int] == c && (forall|j: int|
                0 <= j < i ==> text@[j] != c),
            None => forall|j: int| 0 <= j < text@.len() ==> text@[j] != c,
        },
{
    let mut i: usize = 0;
    while i < text.len()
        invariant
            0 <= i <= text@.len(),
            forall|j: int| 0 <= j < i ==> text@[j] != c,
        decreases text@.len() - i,
    {
        if text[i] == c {
            return Some(i);
        }
        i = i + 1;
    }
    None
}

/// Builds the `InvalidVariableName` report for a malformed token.
fn invalid_name(token: &Vec<char>) -> (r: ASError)
    ensures
        r@ == crate::error::ErrV::Syntax(crate::error::SynErr::InvalidVariableName(token@)),
{
    ASError::Syntax(ASSyntaxError::InvalidVariableName(chars_to_string(token)))
}

/// Looks a decimal placeholder index up in a side-table: the characters
/// between the delimiters must be digits naming an existing entry.
fn table_lookup<'a>(interior: &Vec<char>, table: &'a Vec<String>) -> (r: Option<&'a String>)
    ensures
        match r {
            Some(e) => table_ref(interior@, crate::info::lines_view(table@)) matches Some(t) && e@
                == t,
            None => table_ref(interior@, crate::info::lines_view(table@)) is None,
        },
{
    proof {
        crate::info::lemma_lines_view(table@);
    }
    if interior.len() == 0 {
        return None;
    }
    let mut i: usize = 0;
    while i < interior.len()
        invariant
            0 <= i <= interior@.len(),
            forall|j: int| 0 <= j < i ==> is_digit(#[trigger] interior@[j]),
        decreases interior@.len() - i,
    {
        let u = interior[i] as u32;
        if !(48 <= u && u <= 57) {
            proof {
                assert(!is_digit(interior@[i as int]));
                assert(!crate::text::all_digits(interior@));
            }
            return None;
        }
        i = i + 1;
    }
    proof {
        crate::info::lemma_lines_view(table@);
    }
    let n = table.len();
    match parse_index(interior) {
        Some(k) => {
            if k < n {
                proof {
                    assert(crate::text::all_digits(interior@));
                    assert(crate::text::dec_val(interior@) == k);
                    assert(crate::info::lines_view(table@).len() == table@.len());
                    assert(crate::info::lines_view(table@)[k as int] == table@[k as int]@);
                    assert(table_ref(interior@, crate::info::lines_view(table@))
                        == Option::Some(crate::info::lines_view(table@)[k as int]));
                }
                Some(&table[k])
            } else {
                None
            }
        },
        None => None,
    }
}


/// The precedence tier an operator folds in: the power operator first, then
/// the multiplicative tier, the additive tier, and the comparison tier. The
/// bool-negation operator is unary only and folds in no binary tier.
pub open spec fn op_tier(op: Op) -> int {
    match op {
        Op::Caret => 0,
        Op::Star | Op::Slash => 1,
        Op::Plus | Op::Minus => 2,
        Op::EqEq | Op::BangEq | Op::GtEq | Op::LtEq | Op::LtOp | Op::GtOp => 3,
        Op::Bang => 4,
    }
}

/// The meaning of one binary operator on two model values.
pub open spec fn apply_op(op: Op, a: Val, b: Val) -> Result<Val, crate::error::SynErr> {
    match op {
        Op::Plus => crate::variables::operations::add_val(a, b),
        Op::Minus => crate::variables::operations::sub_val(a, b),
        Op::Star => crate::variables::operations::mul_val(a, b),
        Op::Slash => crate::variables::operations::div_val(a, b),
        Op::Caret => crate::variables::operations::pow_val(a, b),
        Op::EqEq => Ok(Val::Bool(crate::variables::val_equiv(a, b))),
        Op::BangEq => Ok(Val::Bool(!crate::variables::val_equiv(a, b))),
        Op::GtOp => crate::variables::operations::cmp_val(
            crate::variables::operations::CmpOp::Gt,
            a,
            b,
        ),
        Op::LtOp => crate::variables::operations::cmp_val(
            crate::variables::operations::CmpOp::Lt,
            a,
            b,
        ),
        Op::GtEq => crate::variables::operations::cmp_val(
            crate::variables::operations::CmpOp::Ge,
            a,
            b,
        ),
        Op::LtEq => crate::variables::operations::cmp_val(
            crate::variables::operations::CmpOp::Le,
            a,
            b,
        ),
        Op::Bang => Err(
            crate::error::SynErr::UnaryOperationNotDefined { op: "bool-negate"@, type1: a.ty() },
        ),
    }
}

/// The meaning of a unary operator on a model value.
pub open spec fn apply_unary(minus: bool, b: Val) -> Result<Val, crate::error::SynErr> {
    if minus {
        crate::variables::operations::neg_val(b)
    } else {
        crate::variables::operations::not_val(b)
    }
}

/// The unary resolution pass, scanning left to right from position `c`: a
/// target operator whose preceding operand is the empty sentinel is unary
/// and applies to the following operand, which is spliced back in place of
/// both.
pub open spec fn unary_fold(
    minus: bool,
    ops: Seq<Op>,
    vals: Seq<Val>,
    c: int,
    errtext: Seq<char>,
) -> Result<(Seq<Op>, Seq<Val>), crate::error::SynErr>
    decreases ops.len() - c,
{
    if c < 0 || c >= ops.len() || vals.len() != ops.len() + 1 {
        Ok((ops, vals))
    } else if (if minus {
        ops[c] is Minus
    } else {
        ops[c] is Bang
    }) && vals[c] is Empty {
        if vals[c + 1] is Empty {
            Err(crate::error::SynErr::InvalidVariableName(errtext))
        } else {
            match apply_unary(minus, vals[c + 1]) {
                Ok(v) => unary_fold(minus, ops.remove(c), vals.remove(c + 1).update(c, v), c, errtext),
                Err(e) => Err(e),
            }
        }
    } else {
        unary_fold(minus, ops, vals, c + 1, errtext)
    }
}

/// One binary tier, folding left to right from position `c`: each operator
/// of the tier combines its two neighboring operands into one value.
pub open spec fn tier_fold(
    tier: int,
    ops: Seq<Op>,
    vals: Seq<Val>,
    c: int,
    errtext: Seq<char>,
) -> Result<(Seq<Op>, Seq<Val>), crate::error::SynErr>
    decreases ops.len() - c,
{
    if c < 0 || c >= ops.len() || vals.len() != ops.len() + 1 {
        Ok((ops, vals))
    } else if op_tier(ops[c]) == tier {
        if vals[c] is Empty || vals[c + 1] is Empty {
            Err(crate::error::SynErr::InvalidVariableName(errtext))
        } else {
            match apply_op(ops[c], vals[c], vals[c + 1]) {
                Ok(v) => tier_fold(tier, ops.remove(c), vals.remove(c + 1).update(c, v), c, errtext),
                Err(e) => Err(e),
            }
        }
    } else {
        tier_fold(tier, ops, vals, c + 1, errtext)
    }
}

/// The whole resolution pipeline after tokenization and operand evaluation:
/// both unary passes, then the four binary tiers in precedence order, then
/// the single remaining value, which must not be the empty sentinel.
pub open spec fn eval_passes(ops: Seq<Op>, vals: Seq<Val>, errtext: Seq<char>) -> Result<
    Val,
    crate::error::SynErr,
> {
    match unary_fold(true, ops, vals, 0, errtext) {
        Err(e) => Err(e),
        Ok(s1) => match unary_fold(false, s1.0, s1.1, 0, errtext) {
            Err(e) => Err(e),
            Ok(s2) => match tier_fold(0, s2.0, s2.1, 0, errtext) {
                Err(e) => Err(e),
                Ok(s3) => match tier_fold(1, s3.0, s3.1, 0, errtext) {
                    Err(e) => Err(e),
                    Ok(s4) => match tier_fold(2, s4.0, s4.1, 0, errtext) {
                        Err(e) => Err(e),
                        Ok(s5) => match tier_fold(3, s5.0, s5.1, 0, errtext) {
                            Err(e) => Err(e),
                            Ok(s6) => if s6.1.len() == 0 || s6.1[0] is Empty {
                                Err(crate::error::SynErr::InvalidVariableName(errtext))
                            } else {
                                Ok(s6.1[0])
                            },
                        },
                    },
                },
            },
        },
    }
}

/// Removing an element removes its model.
pub proof fn lemma_vals_of_remove(s: Seq<ASVariable>, i: int)
    requires
        0 <= i < s.len(),
    ensures
        vals_of(s.remove(i)) == vals_of(s).remove(i),
{
    lemma_vals_of(s);
    lemma_vals_of(s.remove(i));
    assert forall|j: int|
        0 <= j < s.len() - 1 implies vals_of(s.remove(i))[j] == vals_of(s).remove(i)[j] by {
        if j < i {
            assert(s.remove(i)[j] == s[j]);
        } else {
            assert(s.remove(i)[j] == s[j + 1]);
        }
    }
    assert(vals_of(s.remove(i)) =~= vals_of(s).remove(i));
}

/// Replacing an element replaces its model.
pub proof fn lemma_vals_of_update(s: Seq<ASVariable>, i: int, x: ASVariable)
    requires
        0 <= i < s.len(),
    ensures
        vals_of(s.update(i, x)) == vals_of(s).update(i, val_of(x)),
{
    lemma_vals_of(s);
    lemma_vals_of(s.update(i, x));
    assert forall|j: int|
        0 <= j < s.len() implies vals_of(s.update(i, x))[j] == vals_of(s).update(i, val_of(x))[j] by {
        if j != i {
            assert(s.update(i, x)[j] == s[j]);
        } else {
            assert(s.update(i, x)[j] == x);
        }
    }
    assert(vals_of(s.update(i, x)) =~= vals_of(s).update(i, val_of(x)));
}

/// Names one element of a model sequence.
proof fn seq_index_val(s: Seq<Val>, i: int) -> (v: Val)
    requires
        0 <= i < s.len(),
    ensures
        v == s[i],
{
    s[i]
}

/// Inserting an element inserts its model.
pub proof fn lemma_vals_of_insert(s: Seq<ASVariable>, i: int, x: ASVariable)
    requires
        0 <= i <= s.len(),
    ensures
        vals_of(s.insert(i, x)) == vals_of(s).insert(i, val_of(x)),
{
    lemma_vals_of(s);
    lemma_vals_of(s.insert(i, x));
    assert forall|j: int|
        0 <= j < s.len() + 1 implies vals_of(s.insert(i, x))[j] == vals_of(s).insert(
        i,
        val_of(x),
    )[j] by {
        if j < i {
            assert(s.insert(i, x)[j] == s[j]);
        } else if j == i {
            assert(s.insert(i, x)[j] == x);
        } else {
            assert(s.insert(i, x)[j] == s[j - 1]);
        }
    }
    assert(vals_of(s.insert(i, x)) =~= vals_of(s).insert(i, val_of(x)));
}

/// A value and its model agree on being the empty sentinel.
proof fn lemma_empty_iff(x: ASVariable)
    ensures
        (x is Empty) == (val_of(x) is Empty),
{
}

/// The unary pass skips a position where it does not fire.
proof fn lemma_unary_skip(
    minus: bool,
    ops: Seq<Op>,
    vals: Seq<Val>,
    c: int,
    errtext: Seq<char>,
    opc: Op,
)
    requires
        0 <= c < ops.len(),
        vals.len() == ops.len() + 1,
        opc == ops[c],
        !((if minus {
            opc is Minus
        } else {
            opc is Bang
        }) && vals[c] is Empty),
    ensures
        unary_fold(minus, ops, vals, c, errtext) == unary_fold(minus, ops, vals, c + 1, errtext),
{
}

/// The unary pass at a position where it fires.
proof fn lemma_unary_fire(
    minus: bool,
    ops: Seq<Op>,
    vals: Seq<Val>,
    c: int,
    errtext: Seq<char>,
    opc: Op,
    b: Val,
)
    requires
        0 <= c < ops.len(),
        vals.len() == ops.len() + 1,
        opc == ops[c],
        b == vals[c + 1],
        (if minus {
            opc is Minus
        } else {
            opc is Bang
        }),
        vals[c] is Empty,
    ensures
        unary_fold(minus, ops, vals, c, errtext) == (if b is Empty {
            Result::<(Seq<Op>, Seq<Val>), crate::error::SynErr>::Err(
                crate::error::SynErr::InvalidVariableName(errtext),
            )
        } else {
            match apply_unary(minus, b) {
                Ok(v) => unary_fold(minus, ops.remove(c), vals.remove(c + 1).update(c, v), c, errtext),
                Err(e) => Err(e),
            }
        }),
{
}

/// A binary tier skips a position outside the tier.
proof fn lemma_tier_skip(tier: int, ops: Seq<Op>, vals: Seq<Val>, c: int, errtext: Seq<char>, opc: Op)
    requires
        0 <= c < ops.len(),
        vals.len() == ops.len() + 1,
        opc == ops[c],
        op_tier(opc) != tier,
    ensures
        tier_fold(tier, ops, vals, c, errtext) == tier_fold(tier, ops, vals, c + 1, errtext),
{
}

/// A binary tier folds a position inside the tier.
proof fn lemma_tier_fire(
    tier: int,
    ops: Seq<Op>,
    vals: Seq<Val>,
    c: int,
    errtext: Seq<char>,
    opc: Op,
    a: Val,
    b: Val,
)
    requires
        0 <= c < ops.len(),
        vals.len() == ops.len() + 1,
        opc == ops[c],
        a == vals[c],
        b == vals[c + 1],
        op_tier(opc) == tier,
    ensures
        tier_fold(tier, ops, vals, c, errtext) == (if a is Empty || b is Empty {
            Result::<(Seq<Op>, Seq<Val>), crate::error::SynErr>::Err(
                crate::error::SynErr::InvalidVariableName(errtext),
            )
        } else {
            match apply_op(opc, a, b) {
                Ok(v) => tier_fold(tier, ops.remove(c), vals.remove(c + 1).update(c, v), c, errtext),
                Err(e) => Err(e),
            }
        }),
{
}

/// A finished scan leaves the state unchanged.
proof fn lemma_fold_done(
    minus: bool,
    tier: int,
    ops: Seq<Op>,
    vals: Seq<Val>,
    c: int,
    errtext: Seq<char>,
)
    requires
        c >= ops.len(),
        vals.len() == ops.len() + 1,
    ensures
        unary_fold(minus, ops, vals, c, errtext) == Result::<
            (Seq<Op>, Seq<Val>),
            crate::error::SynErr,
        >::Ok((ops, vals)),
        tier_fold(tier, ops, vals, c, errtext) == Result::<
            (Seq<Op>, Seq<Val>),
            crate::error::SynErr,
        >::Ok((ops, vals)),
{
}


/// Runs one unary pass in place, returning the library error on failure.
fn unary_pass(
    minus: bool,
    values: &mut Vec<ASVariable>,
    operators: &mut Vec<Op>,
    errtext: &Vec<char>,
) -> (r: Result<(), ASError>)
    requires
        old(values)@.len() == old(operators)@.len() + 1,
        forall|j: int| 0 <= j < old(values)@.len() ==> val_wf((#[trigger] old(values)@[j])@),
    ensures
        match unary_fold(minus, old(operators)@, vals_of(old(values)@), 0, errtext@) {
            Ok(st) => r is Ok && final(operators)@ == st.0 && vals_of(final(values)@) == st.1
                && final(values)@.len() == final(operators)@.len() + 1 && (forall|j: int|
                0 <= j < final(values)@.len() ==> val_wf((#[trigger] final(values)@[j])@)),
            Err(e) => r matches Err(o) && o@ == crate::error::ErrV::Syntax(e),
        },
{
    let ghost o0 = old(operators)@;
    let ghost v0 = vals_of(old(values)@);
    let ghost et = errtext@;
    let mut c: usize = 0;
    while c < operators.len()
        invariant
            values@.len() == operators@.len() + 1,
            forall|j: int| 0 <= j < values@.len() ==> val_wf((#[trigger] values@[j])@),
            0 <= c,
            o0 == old(operators)@,
            v0 == vals_of(old(values)@),
            et == errtext@,
            unary_fold(minus, o0, v0, 0, et) == unary_fold(
                minus,
                operators@,
                vals_of(values@),
                c as int,
                et,
            ),
        decreases operators@.len() - c,
    {
        let op = operators[c];
        let fires = (match op {
            Op::Minus => minus,
            Op::Bang => !minus,
            _ => false,
        }) && (match &values[c] {
            ASVariable::Empty => true,
            _ => false,
        });
        proof {
            lemma_vals_of(values@);
            lemma_empty_iff(values@[c as int]);
            lemma_empty_iff(values@[c + 1]);
        }
        if !fires {
            proof {
                lemma_unary_skip(minus, operators@, vals_of(values@), c as int, et, op);
            }
            c = c + 1;
        } else {
            let ghost ops_pre = operators@;
            let ghost vals_pre = vals_of(values@);
            let b_is_empty = match &values[c + 1] {
                ASVariable::Empty => true,
                _ => false,
            };
            proof {
                let bb = seq_index_val(vals_pre, c + 1);
                lemma_unary_fire(minus, ops_pre, vals_pre, c as int, et, op, bb);
            }
            if b_is_empty {
                proof {
                    assert(vals_pre[c + 1] is Empty);
                    assert(unary_fold(minus, ops_pre, vals_pre, c as int, et) == Result::<
                        (Seq<Op>, Seq<Val>),
                        crate::error::SynErr,
                    >::Err(crate::error::SynErr::InvalidVariableName(et)));
                    assert(unary_fold(minus, o0, v0, 0, et) == Result::<
                        (Seq<Op>, Seq<Val>),
                        crate::error::SynErr,
                    >::Err(crate::error::SynErr::InvalidVariableName(et)));
                }
                return Err(invalid_name(errtext));
            }
            operators.remove(c);
            let ghost before_rm = values@;
            let b = values.remove(c + 1);
            proof {
                lemma_vals_of_remove(before_rm, c + 1);
                lemma_vals_of(before_rm);
                assert(val_of(b) == vals_pre[c + 1]);
                assert(vals_of(values@) == vals_pre.remove(c + 1));
            }
            let folded = if minus {
                b.neg()
            } else {
                b.not()
            };
            match folded {
                Ok(v) => {
                    let ghost before_set = values@;
                    values.set(c, v);
                    proof {
                        lemma_vals_of_update(before_set, c as int, v);
                        assert(apply_unary(minus, vals_pre[c + 1]) == Result::<
                            Val,
                            crate::error::SynErr,
                        >::Ok(val_of(v)));
                        assert(vals_of(values@) == vals_pre.remove(c + 1).update(
                            c as int,
                            val_of(v),
                        ));
                        assert(val_wf(val_of(v)));
                        assert forall|j: int|
                            0 <= j < values@.len() implies val_wf(
                            (#[trigger] values@[j])@,
                        ) by {
                            lemma_vals_of(values@);
                            lemma_vals_of(before_set);
                            if j != c {
                                assert(before_set.update(c as int, v)[j] == before_set[j]);
                                assert(before_set[j] == before_rm.remove(c + 1)[j]);
                                if j < c + 1 {
                                    assert(before_rm.remove(c + 1)[j] == before_rm[j]);
                                } else {
                                    assert(before_rm.remove(c + 1)[j] == before_rm[j + 1]);
                                }
                            }
                        }
                    }
                },
                Err(e) => {
                    return Err(ASError::Syntax(e));
                },
            }
        }
    }
    proof {
        lemma_vals_of(values@);
        lemma_fold_done(minus, 0, operators@, vals_of(values@), c as int, et);
    }
    Ok(())
}

/// Runs one binary tier in place, returning the library error on failure.
#[verifier::rlimit(80)]
fn tier_pass(
    tier: usize,
    values: &mut Vec<ASVariable>,
    operators: &mut Vec<Op>,
    errtext: &Vec<char>,
) -> (r: Result<(), ASError>)
    requires
        tier < 4,
        old(values)@.len() == old(operators)@.len() + 1,
        forall|j: int| 0 <= j < old(values)@.len() ==> val_wf((#[trigger] old(values)@[j])@),
    ensures
        match tier_fold(tier as int, old(operators)@, vals_of(old(values)@), 0, errtext@) {
            Ok(st) => r is Ok && final(operators)@ == st.0 && vals_of(final(values)@) == st.1
                && final(values)@.len() == final(operators)@.len() + 1 && (forall|j: int|
                0 <= j < final(values)@.len() ==> val_wf((#[trigger] final(values)@[j])@)),
            Err(e) => r matches Err(o) && o@ == crate::error::ErrV::Syntax(e),
        },
{
    let ghost o0 = old(operators)@;
    let ghost v0 = vals_of(old(values)@);
    let ghost et = errtext@;
    let mut c: usize = 0;
    while c < operators.len()
        invariant
            values@.len() == operators@.len() + 1,
            forall|j: int| 0 <= j < values@.len() ==> val_wf((#[trigger] values@[j])@),
            0 <= c,
            tier < 4,
            o0 == old(operators)@,
            v0 == vals_of(old(values)@),
            et == errtext@,
            tier_fold(tier as int, o0, v0, 0, et) == tier_fold(
                tier as int,
                operators@,
                vals_of(values@),
                c as int,
                et,
            ),
        decreases operators@.len() - c,
    {
        let op = operators[c];
        let in_tier = match op {
            Op::Caret => tier == 0,
            Op::Star | Op::Slash => tier == 1,
            Op::Plus | Op::Minus => tier == 2,
            Op::EqEq | Op::BangEq | Op::GtEq | Op::LtEq | Op::LtOp | Op::GtOp => tier == 3,
            Op::Bang => false,
        };
        proof {
            lemma_vals_of(values@);
            lemma_empty_iff(values@[c as int]);
            lemma_empty_iff(values@[c + 1]);
        }
        if !in_tier {
            proof {
                assert(op_tier(op) != tier as int);
                lemma_tier_skip(tier as int, operators@, vals_of(values@), c as int, et, op);
            }
            c = c + 1;
        } else {
            let ghost ops_pre = operators@;
            let ghost vals_pre = vals_of(values@);
            proof {
                assert(op_tier(op) == tier as int);
                let aa = seq_index_val(vals_pre, c as int);
                let bb = seq_index_val(vals_pre, c + 1);
                lemma_tier_fire(tier as int, ops_pre, vals_pre, c as int, et, op, aa, bb);
            }
            let lhs_empty = match &values[c] {
                ASVariable::Empty => true,
                _ => false,
            };
            let rhs_empty = match &values[c + 1] {
                ASVariable::Empty => true,
                _ => false,
            };
            if lhs_empty || rhs_empty {
                proof {
                    assert(tier_fold(tier as int, o0, v0, 0, et) == Result::<
                        (Seq<Op>, Seq<Val>),
                        crate::error::SynErr,
                    >::Err(crate::error::SynErr::InvalidVariableName(et)));
                }
                return Err(invalid_name(errtext));
            }
            operators.remove(c);
            let ghost before_rm = values@;
            let rhs = values.remove(c + 1);
            proof {
                lemma_vals_of_remove(before_rm, c + 1);
                lemma_vals_of(before_rm);
                assert(val_of(rhs) == vals_pre[c + 1]);
                assert(vals_of(values@) == vals_pre.remove(c + 1));
            }
            let ghost before_take = values@;
            let lhs = values.remove(c);
            proof {
                lemma_vals_of_remove(before_take, c as int);
                lemma_vals_of(before_take);
                assert(val_of(lhs) == vals_pre[c as int]) by {
                    assert(before_take[c as int] == before_rm.remove(c + 1)[c as int]);
                    assert(before_rm.remove(c + 1)[c as int] == before_rm[c as int]);
                }
            }
            let folded = apply_binary(lhs, rhs, op);
            match folded {
                Ok(v) => {
                    let ghost before_ins = values@;
                    values.insert(c, v);
                    proof {
                        lemma_vals_of_insert(before_ins, c as int, v);
                        assert(apply_op(op, vals_pre[c as int], vals_pre[c + 1]) == Result::<
                            Val,
                            crate::error::SynErr,
                        >::Ok(val_of(v)));
                        assert(vals_of(before_ins) == vals_of(before_take).remove(c as int));
                        assert(vals_of(before_take) == vals_pre.remove(c + 1));
                        assert(vals_of(values@) =~= vals_pre.remove(c + 1).update(
                            c as int,
                            val_of(v),
                        ));
                        assert(val_wf(val_of(v)));
                        assert forall|j: int|
                            0 <= j < values@.len() implies val_wf((#[trigger] values@[j])@) by {
                            lemma_vals_of(values@);
                            if j != c {
                                assert(values@[j] == before_ins.insert(c as int, v)[j]);
                                if j < c {
                                    assert(before_ins[j] == before_take[j]);
                                    assert(before_take[j] == before_rm.remove(c + 1)[j]);
                                    assert(before_rm.remove(c + 1)[j] == before_rm[j]);
                                } else {
                                    assert(before_ins[j - 1] == before_take[j]);
                                    assert(before_take[j] == before_rm.remove(c + 1)[j]);
                                    assert(before_rm.remove(c + 1)[j] == before_rm[j + 1]);
                                }
                            }
                        }
                    }
                },
                                Err(e) => {
                    return Err(ASError::Syntax(e));
                },
            }
        }
    }
    proof {
        lemma_vals_of(values@);
        lemma_fold_done(false, tier as int, operators@, vals_of(values@), c as int, et);
    }
    Ok(())
}

/// Resolves a tokenized expression: both unary passes, then the four
/// binary tiers in precedence order, each folding left to right, ending in
/// the single remaining value.
pub fn fold_operations(
    values: Vec<ASVariable>,
    operators: Vec<Op>,
    errtext: &Vec<char>,
) -> (r: Result<ASVariable, ASError>)
    requires
        values@.len() == operators@.len() + 1,
        forall|j: int| 0 <= j < values@.len() ==> val_wf((#[trigger] values@[j])@),
    ensures
        match eval_passes(operators@, vals_of(values@), errtext@) {
            Ok(v) => r matches Ok(o) && o@ == v && val_wf(o@) && !(o is Empty),
            Err(e) => r matches Err(o) && o@ == crate::error::ErrV::Syntax(e),
        },
{
    let mut values = values;
    let mut operators = operators;
    let r1 = unary_pass(true, &mut values, &mut operators, errtext);
    match r1 {
        Err(e) => {
            return Err(e);
        },
        Ok(_) => {},
    }
    let r2 = unary_pass(false, &mut values, &mut operators, errtext);
    match r2 {
        Err(e) => {
            return Err(e);
        },
        Ok(_) => {},
    }
    let r3 = tier_pass(0, &mut values, &mut operators, errtext);
    match r3 {
        Err(e) => {
            return Err(e);
        },
        Ok(_) => {},
    }
    let r4 = tier_pass(1, &mut values, &mut operators, errtext);
    match r4 {
        Err(e) => {
            return Err(e);
        },
        Ok(_) => {},
    }
    let r5 = tier_pass(2, &mut values, &mut operators, errtext);
    match r5 {
        Err(e) => {
            return Err(e);
        },
        Ok(_) => {},
    }
    let r6 = tier_pass(3, &mut values, &mut operators, errtext);
    match r6 {
        Err(e) => {
            return Err(e);
        },
        Ok(_) => {},
    }
    proof {
        lemma_vals_of(values@);
    }
    let result = values.remove(0);
    let result_empty = match &result {
        ASVariable::Empty => true,
        _ => false,
    };
    proof {
        lemma_empty_iff(result);
    }
    if result_empty {
        return Err(invalid_name(errtext));
    }
    Ok(result)
}

/// Evaluates a whole expression over the simplified text and its two
/// side-tables, producing a single value.
///
/// Evaluation never changes the script, the pointer or the variables; its
/// only state effect is initializing flags it reads for the first time to
/// `false`. A successful result is a well-formed value and never the
/// internal `Empty` sentinel.
pub fn expr(
    info: &mut GameInfo,
    text: &str,
    strings: &Vec<String>,
    brackets: &Vec<String>,
) -> (r: Result<ASVariable, ASError>)
    requires
        old(info).wf(),
    ensures
        eval_state_ok(*old(info), *final(info)),
        match r {
            Ok(v) => val_wf(v@) && !(v is Empty),
            Err(_) => true,
        },
        match r {
            Ok(v) => exists|vals: Seq<Val>|
                vals.len() == tokenize_spec(crate::text::trim(text@)).segs.len()
                    && #[trigger] eval_passes(
                    tokenize_spec(crate::text::trim(text@)).ops,
                    vals,
                    crate::text::trim(text@),
                ) == Result::<Val, crate::error::SynErr>::Ok(v@),
            Err(_) => true,
        },
        match expr_model(
            text@,
            crate::info::lines_view(strings@),
            crate::info::lines_view(brackets@),
        ) {
            Some(res) => match res {
                Ok(v) => r matches Ok(o) && o@ == v,
                Err(e) => r matches Err(o) && o@ == crate::error::ErrV::Syntax(e),
            },
            None => true,
        },
{
    let chars = string_to_chars(text);
    expr_depth(info, &chars, strings, brackets, MAX_NESTING)
}

/// One evaluator level: tokenize, evaluate each operand segment, resolve
/// unary operators, then fold the binary tiers.
fn expr_depth(
    info: &mut GameInfo,
    text: &Vec<char>,
    strings: &Vec<String>,
    brackets: &Vec<String>,
    depth: u64,
) -> (r: Result<ASVariable, ASError>)
    requires
        old(info).wf(),
    ensures
        eval_state_ok(*old(info), *final(info)),
        match r {
            Ok(v) => val_wf(v@) && !(v is Empty),
            Err(_) => true,
        },
        match r {
            Ok(v) => exists|vals: Seq<Val>|
                vals.len() == tokenize_spec(crate::text::trim(text@)).segs.len()
                    && #[trigger] eval_passes(
                    tokenize_spec(crate::text::trim(text@)).ops,
                    vals,
                    crate::text::trim(text@),
                ) == Result::<Val, crate::error::SynErr>::Ok(v@),
            Err(_) => true,
        },
        depth >= 2 ==> match expr_model(
            text@,
            crate::info::lines_view(strings@),
            crate::info::lines_view(brackets@),
        ) {
            Some(res) => match res {
                Ok(v) => r matches Ok(o) && o@ == v,
                Err(e) => r matches Err(o) && o@ == crate::error::ErrV::Syntax(e),
            },
            None => true,
        },
    decreases depth, 3int,
{
    proof {
        lemma_eval_state_refl(*old(info));
    }
    if depth == 0 {
        return Err(ASError::Syntax(ASSyntaxError::NestingTooDeep));
    }
    let trimmed = trim_chars(text);
    let (segs, ops_toks) = tokenize(&trimmed);
    let mut operators = ops_toks;
    let mut values: Vec<ASVariable> = Vec::new();
    let ghost sv = crate::info::lines_view(strings@);
    let ghost bv = crate::info::lines_view(brackets@);
    let mut si: usize = 0;
    proof {
        lemma_charses_view(segs@);
        assert(charses_view(segs@).subrange(0, 0) =~= Seq::<Seq<char>>::empty());
        assert(vals_of(values@) =~= Seq::<Val>::empty());
    }
    while si < segs.len()
        invariant
            old(info).wf(),
            info.wf(),
            eval_state_ok(*old(info), *info),
            values@.len() == si,
            0 <= si <= segs@.len(),
            forall|j: int| 0 <= j < si ==> val_wf((#[trigger] values@[j])@),
            depth >= 1,
            trimmed@ == crate::text::trim(text@),
            operators@ == tokenize_spec(trimmed@).ops,
            segs@.len() == operators@.len() + 1,
            charses_view(segs@) == tokenize_spec(trimmed@).segs,
            sv == crate::info::lines_view(strings@),
            bv == crate::info::lines_view(brackets@),
            charses_view(segs@).len() == segs@.len(),
            forall|j: int| 0 <= j < segs@.len() ==> charses_view(segs@)[j] == (#[trigger] segs@[j])@,
            depth >= 2 ==> (collect_models(charses_view(segs@).subrange(0, si as int), sv, bv)
                is Open || collect_models(charses_view(segs@).subrange(0, si as int), sv, bv)
                == ExprModel::Vals(vals_of(values@))),
        decreases segs@.len() - si,
    {
        let ghost pre = *info;
        let ghost cs = charses_view(segs@);
        let vr = eval_segment(info, &segs[si], strings, brackets, depth);
        proof {
            lemma_eval_state_trans(*old(info), pre, *info);
            lemma_collect_step(cs, si as int, sv, bv);
            assert(cs[si as int] == segs@[si as int]@);
            if vr is Err && depth >= 2 {
                // a failing segment decides the whole model, or leaves it open
                match collect_models(cs.subrange(0, si as int), sv, bv) {
                    ExprModel::Vals(_) => {
                        match seg_model(segs@[si as int]@, sv, bv) {
                            SegSpec::Fail(e) => {
                                assert(collect_models(cs.subrange(0, si + 1), sv, bv)
                                    == ExprModel::Fail(e));
                                lemma_collect_extend(cs, si + 1, sv, bv);
                            },
                            SegSpec::Open => {
                                assert(collect_models(cs.subrange(0, si + 1), sv, bv)
                                    == ExprModel::Open);
                                lemma_collect_extend(cs, si + 1, sv, bv);
                            },
                            SegSpec::Val(_) => {},
                        }
                    },
                    ExprModel::Open => {
                        lemma_collect_extend(cs, si as int, sv, bv);
                    },
                    ExprModel::Fail(_) => {},
                }
            }
        }
        let v = vr?;
        proof {
            crate::variables::operations::lemma_vals_of_push(values@, v);
            if depth >= 2 {
                match collect_models(cs.subrange(0, si as int), sv, bv) {
                    ExprModel::Vals(_) => {
                        match seg_model(segs@[si as int]@, sv, bv) {
                            SegSpec::Val(mv) => {
                                assert(v@ == mv);
                            },
                            SegSpec::Open => {
                                lemma_collect_extend(cs, si + 1, sv, bv);
                            },
                            SegSpec::Fail(_) => {},
                        }
                    },
                    ExprModel::Open => {
                        lemma_collect_extend(cs, si + 1, sv, bv);
                        assert(collect_models(cs.subrange(0, si as int), sv, bv) is Open);
                        assert(collect_models(cs.subrange(0, si + 1), sv, bv) is Open) by {
                            lemma_collect_step(cs, si as int, sv, bv);
                        }
                    },
                    ExprModel::Fail(_) => {},
                }
            }
        }
        values.push(v);
        si = si + 1;
    }
    proof {
        assert(values@.len() == segs@.len());
        lemma_vals_of(values@);
        lemma_charses_view(segs@);
    }
    let ghost w = vals_of(values@);
    let r = fold_operations(values, operators, &trimmed);
    proof {
        if r is Ok {
            assert(eval_passes(
                tokenize_spec(crate::text::trim(text@)).ops,
                w,
                crate::text::trim(text@),
            ) == Result::<Val, crate::error::SynErr>::Ok((r->Ok_0)@));
        }
        if depth >= 2 {
            let ghost cs = charses_view(segs@);
            assert(cs.subrange(0, si as int) =~= cs);
            match collect_models(cs, sv, bv) {
                ExprModel::Vals(vs) => {
                    assert(vs == w);
                    assert(expr_model(text@, sv, bv) == Option::Some(
                        eval_passes(tokenize_spec(trimmed@).ops, w, trimmed@),
                    ));
                },
                _ => {},
            }
        }
    }
    match r {
        Ok(v) => Ok(v),
        Err(e) => Err(e),
    }
}

/// Applies one binary operator to two non-sentinel operands.
fn apply_binary(lhs: ASVariable, rhs: ASVariable, op: Op) -> (r: Result<ASVariable, ASSyntaxError>)
    requires
        val_wf(lhs@),
        val_wf(rhs@),
        !(lhs is Empty),
        !(rhs is Empty),
    ensures
        match r {
            Ok(v) => val_wf(v@) && !(v is Empty),
            Err(_) => true,
        },
        match apply_op(op, lhs@, rhs@) {
            Ok(v) => r matches Ok(o) && o@ == v,
            Err(e) => r matches Err(o) && o@ == e,
        },
{
    let ghost lv = lhs@;
    let ghost rv = rhs@;
    match op {
        Op::Plus => {
            let r = lhs.add(rhs);
            proof {
                lemma_binary_wf_add(lv, rv);
            }
            r
        },
        Op::Minus => lhs.sub(rhs),
        Op::Star => {
            let r = lhs.mul(rhs);
            proof {
                lemma_binary_wf_mul(lv, rv);
            }
            r
        },
        Op::Slash => lhs.div(rhs),
        Op::Caret => lhs.pow(rhs),
        Op::EqEq => Ok(ASVariable::Bool(lhs.equals(&rhs))),
        Op::BangEq => Ok(ASVariable::Bool(!lhs.equals(&rhs))),
        Op::GtOp => lhs.compare(rhs, CmpOp::Gt),
        Op::LtOp => lhs.compare(rhs, CmpOp::Lt),
        Op::GtEq => lhs.compare(rhs, CmpOp::Ge),
        Op::LtEq => lhs.compare(rhs, CmpOp::Le),
        Op::Bang => {
            let r = crate::variables::operations::unary_op_err(
                String::from_str("bool-negate"),
                lhs,
            );
            match r {
                Ok(_) => Err(ASSyntaxError::NestingTooDeep),
                Err(e) => Err(e),
            }
        },
    }
}

/// A successful addition of well-formed values is well formed.
proof fn lemma_binary_wf_add(a: Val, b: Val)
    requires
        val_wf(a),
        val_wf(b),
    ensures
        (crate::variables::operations::add_val(a, b) matches Ok(v) ==> val_wf(v) && !(v is Empty)),
{
}

/// A successful multiplication of well-formed values is well formed.
proof fn lemma_binary_wf_mul(a: Val, b: Val)
    requires
        val_wf(a),
        val_wf(b),
    ensures
        (crate::variables::operations::mul_val(a, b) matches Ok(v) ==> val_wf(v) && !(v is Empty)),
{
    match (a, b) {
        (Val::List(x), Val::Int(y)) => {
            lemma_repeat_list_wf(x, y as int);
        },
        _ => {},
    }
}

/// Repetition keeps a well-formed list well formed.
proof fn lemma_repeat_list_wf(x: Seq<Val>, n: int)
    requires
        val_wf(Val::List(x)),
    ensures
        val_wf(Val::List(crate::variables::operations::seq_repeat(x, n))),
    decreases n,
{
    if n > 0 {
        lemma_repeat_list_wf(x, n - 1);
        let prev = crate::variables::operations::seq_repeat(x, n - 1);
        let whole = crate::variables::operations::seq_repeat(x, n);
        assert forall|i: int|
            0 <= i < whole.len() implies val_wf(#[trigger] whole[i]) && !(whole[i] is Empty) by {
            if i < prev.len() {
                assert(whole[i] == prev[i]);
            } else {
                assert(whole[i] == x[i - prev.len()]);
            }
        }
    }
}


/// No character of the text is a backslash.
pub open spec fn no_backslash(s: Seq<char>) -> bool {
    forall|i: int| 0 <= i < s.len() ==> (#[trigger] s[i]) != '\\'
}

/// No character of the text opens a bracket group.
pub open spec fn no_open_bracket(s: Seq<char>) -> bool {
    forall|i: int| 0 <= i < s.len() ==> !crate::simplify::is_open_bracket(#[trigger] s[i])
}

/// No character of the text is a colon.
pub open spec fn no_colon(s: Seq<char>) -> bool {
    forall|i: int| 0 <= i < s.len() ==> (#[trigger] s[i]) != ':'
}

/// No character of the text is a dot.
pub open spec fn no_dot(s: Seq<char>) -> bool {
    forall|i: int| 0 <= i < s.len() ==> (#[trigger] s[i]) != '.'
}

/// A backslash-free text interpolates to itself.
pub proof fn lemma_interp_plain_text(s: Seq<char>)
    requires
        no_backslash(s),
    ensures
        interp_model(s) == InterpSpec::Done(s),
    decreases s.len(),
{
    if s.len() == 0 {
        assert(s =~= Seq::<char>::empty());
    } else {
        let c = first_char(s);
        assert(c != '\\');
        assert(forall|i: int|
            0 <= i < s.drop_first().len() ==> (#[trigger] s.drop_first()[i]) != '\\') by {
            assert(forall|i: int|
                0 <= i < s.drop_first().len() ==> s.drop_first()[i] == #[trigger] s[i + 1]);
        }
        lemma_interp_plain_text(s.drop_first());
        lemma_interp_step_plain(s, c);
        assert(s.subrange(1, s.len() as int) =~= s.drop_first());
        assert(seq![c] + s.drop_first() =~= s);
    }
}

/// Names the first character of a non-empty sequence.
proof fn first_char(s: Seq<char>) -> (c: char)
    requires
        s.len() > 0,
    ensures
        c == s[0],
{
    s[0]
}

/// Whether a placeholder interior names an existing table entry: non-empty,
/// all digits, and in range.
pub open spec fn table_ref(interior: Seq<char>, table: Seq<Seq<char>>) -> Option<Seq<char>> {
    if interior.len() > 0 && crate::text::all_digits(interior) && crate::text::dec_val(interior) < table.len() {
        Option::Some(table[crate::text::dec_val(interior)])
    } else {
        Option::None
    }
}

/// Names one character of a sequence.
proof fn char_at(s: Seq<char>, i: int) -> (c: char)
    requires
        0 <= i < s.len(),
    ensures
        c == s[i],
{
    s[i]
}

/// A separator-free suffix splits into one piece.
proof fn lemma_split_plain(s: Seq<char>, sep: char, i: int, cur: Seq<char>)
    requires
        0 <= i <= s.len(),
        forall|j: int| i <= j < s.len() ==> (#[trigger] s[j]) != sep,
    ensures
        split_from(s, sep, i, cur) == seq![cur + s.subrange(i, s.len() as int)],
    decreases s.len() - i,
{
    if i < s.len() {
        let c = char_at(s, i);
        assert(c != sep);
        lemma_split_step_plain(s, sep, i, cur, c);
        lemma_split_plain(s, sep, i + 1, cur.push(c));
        assert(cur.push(c) + s.subrange(i + 1, s.len() as int) =~= cur + s.subrange(
            i,
            s.len() as int,
        ));
    } else {
        assert(cur + s.subrange(i, s.len() as int) =~= cur);
    }
}

/// Every split has at least one piece.
proof fn lemma_split_len_ge1(s: Seq<char>, sep: char, i: int, cur: Seq<char>)
    requires
        0 <= i <= s.len(),
    ensures
        split_from(s, sep, i, cur).len() >= 1,
    decreases s.len() - i,
{
    if i < s.len() {
        let c = char_at(s, i);
        if c == sep {
            lemma_split_step_sep(s, sep, i, cur, c);
            lemma_split_len_ge1(s, sep, i + 1, Seq::empty());
        } else {
            lemma_split_step_plain(s, sep, i, cur, c);
            lemma_split_len_ge1(s, sep, i + 1, cur.push(c));
        }
    }
}

/// A suffix holding the separator splits into at least two pieces.
proof fn lemma_split_sep_bound(s: Seq<char>, sep: char, i: int, cur: Seq<char>)
    requires
        0 <= i <= s.len(),
        exists|j: int| i <= j < s.len() && (#[trigger] s[j]) == sep,
    ensures
        split_from(s, sep, i, cur).len() >= 2,
    decreases s.len() - i,
{
    let w = choose|j: int| i <= j < s.len() && (#[trigger] s[j]) == sep;
    let c = char_at(s, i);
    if c == sep {
        lemma_split_step_sep(s, sep, i, cur, c);
        lemma_split_len_ge1(s, sep, i + 1, Seq::empty());
    } else {
        assert(w != i);
        lemma_split_step_plain(s, sep, i, cur, c);
        lemma_split_sep_bound(s, sep, i + 1, cur.push(c));
    }
}

/// The outcome of the literal-recognition model on one operand: a definite
/// value, a definite failure, or open because the operand descends into
/// evaluation (bracket or parenthesis placeholders, maps, method suffixes,
/// interpolated entries).
pub enum SegSpec {
    Val(Val),
    Fail(crate::error::SynErr),
    Open,
}

/// The literal-recognition model for a trimmed head token, in the
/// documented order: decimal integer (an overlong one falls through to the
/// reference case), case-insensitive booleans, the four placeholder shapes,
/// the `None` literal, the empty sentinel, flag references, then plain
/// references; anything else is an invalid token.
pub open spec fn head_model(
    h: Seq<char>,
    strings: Seq<Seq<char>>,
    brackets: Seq<Seq<char>>,
) -> SegSpec {
    if h.len() > 0 && crate::text::all_digits(h) {
        if crate::text::dec_val(h) <= 0x7fff_ffff_ffff_ffff {
            SegSpec::Val(Val::Int(crate::text::dec_val(h) as i64))
        } else {
            SegSpec::Val(Val::VarRef { name: h, flag: false })
        }
    } else if h == "true"@ || h == "True"@ {
        SegSpec::Val(Val::Bool(true))
    } else if h == "false"@ || h == "False"@ {
        SegSpec::Val(Val::Bool(false))
    } else if h.len() >= 2 && h[0] == '[' && h[h.len() - 1] == ']' {
        match table_ref(h.subrange(1, h.len() - 1), brackets) {
            Option::Some(_) => SegSpec::Open,
            Option::None => SegSpec::Fail(crate::error::SynErr::InvalidVariableName(h)),
        }
    } else if h.len() >= 2 && h[0] == '{' && h[h.len() - 1] == '}' {
        match table_ref(h.subrange(1, h.len() - 1), brackets) {
            Option::Some(entry) => {
                if no_backslash(entry) && no_open_bracket(entry) {
                    if no_colon(entry) {
                        if crate::text::is_ident(entry) {
                            SegSpec::Val(Val::Label(Option::Some(entry)))
                        } else {
                            SegSpec::Fail(crate::error::SynErr::InvalidLabelName(h))
                        }
                    } else {
                        SegSpec::Open
                    }
                } else {
                    SegSpec::Open
                }
            },
            Option::None => SegSpec::Fail(crate::error::SynErr::InvalidVariableName(h)),
        }
    } else if h.len() >= 2 && h[0] == '(' && h[h.len() - 1] == ')' {
        match table_ref(h.subrange(1, h.len() - 1), brackets) {
            Option::Some(_) => SegSpec::Open,
            Option::None => SegSpec::Fail(crate::error::SynErr::InvalidVariableName(h)),
        }
    } else if h.len() >= 2 && h[0] == '"' && h[h.len() - 1] == '"' {
        match table_ref(h.subrange(1, h.len() - 1), strings) {
            Option::Some(entry) => {
                if no_backslash(entry) {
                    SegSpec::Val(Val::Str(entry))
                } else {
                    SegSpec::Open
                }
            },
            Option::None => SegSpec::Fail(crate::error::SynErr::InvalidVariableName(h)),
        }
    } else if h == "None"@ {
        SegSpec::Val(Val::Null)
    } else if h.len() == 0 {
        SegSpec::Val(Val::Empty)
    } else if h[0] == '?' {
        if crate::text::is_ident(h.subrange(1, h.len() as int)) {
            SegSpec::Val(Val::VarRef { name: h.subrange(1, h.len() as int), flag: true })
        } else {
            SegSpec::Fail(
                crate::error::SynErr::InvalidVariableName(h.subrange(1, h.len() as int)),
            )
        }
    } else if crate::text::is_ident(h) {
        SegSpec::Val(Val::VarRef { name: h, flag: false })
    } else {
        SegSpec::Fail(crate::error::SynErr::InvalidVariableName(h))
    }
}

/// The model of one operand segment: a segment without a method suffix is
/// its trimmed head's literal; one with a suffix is open to evaluation.
pub open spec fn seg_model(
    seg: Seq<char>,
    strings: Seq<Seq<char>>,
    brackets: Seq<Seq<char>>,
) -> SegSpec {
    if no_dot(seg) {
        head_model(crate::text::trim(seg), strings, brackets)
    } else {
        SegSpec::Open
    }
}

/// The outcome of evaluating every operand segment, left to right: all
/// values, or the first definite failure, or open as soon as a segment
/// descends into evaluation.
pub enum ExprModel {
    Vals(Seq<Val>),
    Fail(crate::error::SynErr),
    Open,
}

/// Collects the segment models left to right.
pub open spec fn collect_models(
    segs: Seq<Seq<char>>,
    strings: Seq<Seq<char>>,
    brackets: Seq<Seq<char>>,
) -> ExprModel
    decreases segs.len(),
{
    if segs.len() == 0 {
        ExprModel::Vals(Seq::empty())
    } else {
        match collect_models(segs.drop_last(), strings, brackets) {
            ExprModel::Vals(vs) => match seg_model(segs.last(), strings, brackets) {
                SegSpec::Val(v) => ExprModel::Vals(vs.push(v)),
                SegSpec::Fail(e) => ExprModel::Fail(e),
                SegSpec::Open => ExprModel::Open,
            },
            ExprModel::Fail(e) => ExprModel::Fail(e),
            ExprModel::Open => ExprModel::Open,
        }
    }
}

/// Extending the segments keeps an already-decided non-value outcome.
proof fn lemma_collect_extend(
    segs: Seq<Seq<char>>,
    k: int,
    strings: Seq<Seq<char>>,
    brackets: Seq<Seq<char>>,
)
    requires
        0 <= k <= segs.len(),
        !(collect_models(segs.subrange(0, k), strings, brackets) is Vals),
    ensures
        collect_models(segs, strings, brackets) == collect_models(
            segs.subrange(0, k),
            strings,
            brackets,
        ),
    decreases segs.len() - k,
{
    if k < segs.len() {
        assert(segs.subrange(0, k + 1).drop_last() =~= segs.subrange(0, k));
        lemma_collect_extend(segs, k + 1, strings, brackets);
    } else {
        assert(segs.subrange(0, segs.len() as int) =~= segs);
    }
}

/// One collection step over a segment prefix.
proof fn lemma_collect_step(
    segs: Seq<Seq<char>>,
    k: int,
    strings: Seq<Seq<char>>,
    brackets: Seq<Seq<char>>,
)
    requires
        0 <= k < segs.len(),
    ensures
        collect_models(segs.subrange(0, k + 1), strings, brackets) == (match collect_models(
            segs.subrange(0, k),
            strings,
            brackets,
        ) {
            ExprModel::Vals(vs) => match seg_model(segs[k], strings, brackets) {
                SegSpec::Val(v) => ExprModel::Vals(vs.push(v)),
                SegSpec::Fail(e) => ExprModel::Fail(e),
                SegSpec::Open => ExprModel::Open,
            },
            ExprModel::Fail(e) => ExprModel::Fail(e),
            ExprModel::Open => ExprModel::Open,
        }),
{
    assert(segs.subrange(0, k + 1).drop_last() =~= segs.subrange(0, k));
    assert(segs.subrange(0, k + 1).last() == segs[k]);
}

/// The whole-expression model: tokenize the trimmed text, evaluate every
/// segment by the literal model, then run the resolution pipeline. `None`
/// when any segment is open to evaluation.
pub open spec fn expr_model(
    text: Seq<char>,
    strings: Seq<Seq<char>>,
    brackets: Seq<Seq<char>>,
) -> Option<Result<Val, crate::error::SynErr>> {
    let t = crate::text::trim(text);
    let tok = tokenize_spec(t);
    match collect_models(tok.segs, strings, brackets) {
        ExprModel::Vals(vs) => Option::Some(eval_passes(tok.ops, vs, t)),
        ExprModel::Fail(e) => Option::Some(Result::Err(e)),
        ExprModel::Open => Option::None,
    }
}

/// Evaluates one operand segment: the head is recognized as a literal in
/// order, then each `.name(k)` method suffix is applied left to right.
fn eval_segment(
    info: &mut GameInfo,
    seg: &Vec<char>,
    strings: &Vec<String>,
    brackets: &Vec<String>,
    depth: u64,
) -> (r: Result<ASVariable, ASError>)
    requires
        old(info).wf(),
        depth >= 1,
    ensures
        eval_state_ok(*old(info), *final(info)),
        match r {
            Ok(v) => val_wf(v@),
            Err(_) => true,
        },
        depth >= 2 ==> match seg_model(
            seg@,
            crate::info::lines_view(strings@),
            crate::info::lines_view(brackets@),
        ) {
            SegSpec::Val(v) => r matches Ok(o) && o@ == v,
            SegSpec::Fail(e) => r matches Err(o) && o@ == crate::error::ErrV::Syntax(e),
            SegSpec::Open => true,
        },
    decreases depth, 2int,
{
    proof {
        lemma_eval_state_refl(*old(info));
    }
    let pieces = split_char(seg, '.');
    proof {
        lemma_charses_view(pieces@);
        if pieces@.len() == 1 {
            assert(no_dot(seg@)) by {
                if !no_dot(seg@) {
                    let w = choose|j: int| 0 <= j < seg@.len() && (#[trigger] seg@[j]) == '.';
                    lemma_split_sep_bound(seg@, '.', 0, Seq::empty());
                    assert(split_spec(seg@, '.').len() >= 2);
                    assert(false);
                }
            }
            lemma_split_plain(seg@, '.', 0, Seq::empty());
            assert(seg@.subrange(0, seg@.len() as int) =~= seg@);
            assert(Seq::<char>::empty() + seg@ =~= seg@);
            assert(pieces@[0]@ == seg@);
        } else {
            assert(!no_dot(seg@)) by {
                if no_dot(seg@) {
                    lemma_split_plain(seg@, '.', 0, Seq::empty());
                    assert(split_spec(seg@, '.').len() == 1);
                    assert(false);
                }
            }
        }
    }
    let head = trim_chars(&pieces[0]);
    let parsed = eval_head(info, &head, strings, brackets, depth)?;
    if pieces.len() > 1 {
        let parsed_empty = match &parsed {
            ASVariable::Empty => true,
            _ => false,
        };
        if parsed_empty {
            return Err(invalid_name(&head));
        }
        let mut value = parsed;
        let mut mi: usize = 1;
        while mi < pieces.len()
            invariant
                old(info).wf(),
                info.wf(),
                eval_state_ok(*old(info), *info),
                val_wf(value@),
                !(value is Empty),
                depth >= 1,
                1 <= mi <= pieces@.len(),
                !no_dot(seg@),
            decreases pieces@.len() - mi,
        {
            let ghost pre = *info;
            let m = trim_chars(&pieces[mi]);
            let vr = apply_method(info, value, &m, strings, brackets, depth);
            proof {
                lemma_eval_state_trans(*old(info), pre, *info);
            }
            value = vr?;
            mi = mi + 1;
        }
        Ok(value)
    } else {
        Ok(parsed)
    }
}

/// Recognizes a head token: decimal integer; `true`/`false` in either case;
/// `[i]`, `{i}`, `(i)` and `"i"` placeholders into the side-tables; the
/// `None` literal; the empty sentinel; a `?flag` reference; or a plain
/// variable reference. Anything else is an invalid token.
fn eval_head(
    info: &mut GameInfo,
    head: &Vec<char>,
    strings: &Vec<String>,
    brackets: &Vec<String>,
    depth: u64,
) -> (r: Result<ASVariable, ASError>)
    requires
        old(info).wf(),
        depth >= 1,
    ensures
        eval_state_ok(*old(info), *final(info)),
        match r {
            Ok(v) => val_wf(v@),
            Err(_) => true,
        },
        depth >= 2 ==> match head_model(
            head@,
            crate::info::lines_view(strings@),
            crate::info::lines_view(brackets@),
        ) {
            SegSpec::Val(v) => r matches Ok(o) && o@ == v,
            SegSpec::Fail(e) => r matches Err(o) && o@ == crate::error::ErrV::Syntax(e),
            SegSpec::Open => true,
        },
    decreases depth, 1int,
{
    proof {
        lemma_eval_state_refl(*old(info));
    }
    let ghost sv = crate::info::lines_view(strings@);
    let ghost bv = crate::info::lines_view(brackets@);
    let ghost hm = head_model(head@, sv, bv);
    let n = head.len();
    // decimal integer
    if n > 0 {
        let mut all_dig = true;
        let mut i: usize = 0;
        while i < n
            invariant
                0 <= i <= n,
                n == head@.len(),
                all_dig == (forall|j: int| 0 <= j < i ==> is_digit(#[trigger] head@[j])),
            decreases n - i,
        {
            let u = head[i] as u32;
            if !(48 <= u && u <= 57) {
                all_dig = false;
                proof {
                    assert(!is_digit(head@[i as int]));
                }
            }
            i = i + 1;
        }
        if all_dig {
            match parse_u64(head) {
                Some(v) => {
                    if v <= 0x7fff_ffff_ffff_ffffu64 {
                        proof {
                            assert(hm == SegSpec::Val(Val::Int(v as i64)));
                        }
                        return Ok(ASVariable::Int(v as i64));
                    }
                },
                None => {},
            }
            // an overlong number falls through to the reference cases
        }
    }
    if eq_lit(head, "true") || eq_lit(head, "True") {
        proof {
            reveal_strlit("true");
            reveal_strlit("True");
            assert(!crate::text::is_digit(head@[0]));
            assert(hm == SegSpec::Val(Val::Bool(true)));
        }
        return Ok(ASVariable::Bool(true));
    }
    if eq_lit(head, "false") || eq_lit(head, "False") {
        proof {
            reveal_strlit("false");
            reveal_strlit("False");
            assert(!crate::text::is_digit(head@[0]));
            assert(hm == SegSpec::Val(Val::Bool(false)));
        }
        return Ok(ASVariable::Bool(false));
    }
    if n >= 2 && head[0] == '[' && head[n - 1] == ']' {
        proof {
            assert(!crate::text::is_digit(head@[0]));
        }
        let interior = slice_range(head, 1, n - 1);
        let entry = match table_lookup(&interior, brackets) {
            Some(e) => e.clone(),
            None => {
                proof {
                    assert(hm == SegSpec::Fail(
                        crate::error::SynErr::InvalidVariableName(head@),
                    ));
                }
                return Err(invalid_name(head));
            },
        };
        proof {
            assert(hm is Open);
        }
        let vr = parse_text_depth(info, &string_to_chars(entry.as_str()), depth - 1);
        let value = vr?;
        let ghost mid = *info;
        let r = eval_list(info, &string_to_chars(value.as_str()), strings, depth - 1);
        proof {
            lemma_eval_state_trans(*old(info), mid, *info);
        }
        return r;
    }
    if n >= 2 && head[0] == '{' && head[n - 1] == '}' {
        proof {
            assert(!crate::text::is_digit(head@[0]));
        }
        let interior = slice_range(head, 1, n - 1);
        let entry = match table_lookup(&interior, brackets) {
            Some(e) => e.clone(),
            None => {
                proof {
                    assert(hm == SegSpec::Fail(
                        crate::error::SynErr::InvalidVariableName(head@),
                    ));
                }
                return Err(invalid_name(head));
            },
        };
        proof {
            if no_backslash(entry@) && depth >= 2 {
                lemma_interp_plain_text(entry@);
            }
        }
        let value = parse_text_depth(info, &string_to_chars(entry.as_str()), depth - 1)?;
        proof {
            if no_backslash(entry@) && no_open_bracket(entry@) && depth >= 2 {
                crate::simplify::lemma_br_scan_plain(value@);
            }
        }
        let ghost mid = *info;
        let (mtext, mbrs) = match simplify_brackets(value.as_str()) {
            Ok(p) => p,
            Err(e) => {
                return Err(ASError::Syntax(e));
            },
        };
        let mchars = string_to_chars(mtext.as_str());
        let has_colon = match find_char(&mchars, ':') {
            Some(_) => true,
            None => false,
        };
        proof {
            if depth >= 2 && no_backslash(entry@) && no_open_bracket(entry@) {
                assert(value@ == entry@);
                assert(mtext@ == entry@);
                assert(has_colon == !no_colon(entry@));
            }
        }
        if has_colon {
            let r = eval_map(info, &mchars, strings, &mbrs, depth - 1);
            proof {
                lemma_eval_state_trans(*old(info), mid, *info);
                if depth >= 2 {
                    assert(hm is Open);
                }
            }
            return r;
        } else {
            let raw = string_to_chars(entry.as_str());
            if check_ident(&raw) {
                proof {
                    if depth >= 2 {
                        if no_backslash(entry@) && no_open_bracket(entry@) {
                            assert(hm == SegSpec::Val(Val::Label(Option::Some(entry@))));
                        } else {
                            assert(hm is Open);
                        }
                    }
                }
                return Ok(ASVariable::Label(Some(entry)));
            } else {
                proof {
                    if depth >= 2 {
                        if no_backslash(entry@) && no_open_bracket(entry@) {
                            assert(hm == SegSpec::Fail(
                                crate::error::SynErr::InvalidLabelName(head@),
                            ));
                        } else {
                            assert(hm is Open);
                        }
                    }
                }
                return Err(
                    ASError::Syntax(ASSyntaxError::InvalidLabelName(chars_to_string(head))),
                );
            }
        }
    }
    if n >= 2 && head[0] == '(' && head[n - 1] == ')' {
        proof {
            assert(!crate::text::is_digit(head@[0]));
        }
        let interior = slice_range(head, 1, n - 1);
        let entry = match table_lookup(&interior, brackets) {
            Some(e) => e.clone(),
            None => {
                proof {
                    assert(hm == SegSpec::Fail(
                        crate::error::SynErr::InvalidVariableName(head@),
                    ));
                }
                return Err(invalid_name(head));
            },
        };
        proof {
            assert(hm is Open);
        }
        let value = parse_text_depth(info, &string_to_chars(entry.as_str()), depth - 1)?;
        let ghost mid = *info;
        let (itext, ibrs) = match simplify_brackets(value.as_str()) {
            Ok(p) => p,
            Err(e) => {
                return Err(ASError::Syntax(e));
            },
        };
        let r = expr_depth(info, &string_to_chars(itext.as_str()), strings, &ibrs, depth - 1);
        proof {
            lemma_eval_state_trans(*old(info), mid, *info);
        }
        return match r {
            Ok(v) => Ok(v),
            Err(e) => Err(e),
        };
    }
    if n >= 2 && head[0] == '"' && head[n - 1] == '"' {
        proof {
            assert(!crate::text::is_digit(head@[0]));
        }
        let interior = slice_range(head, 1, n - 1);
        let entry = match table_lookup(&interior, strings) {
            Some(e) => e.clone(),
            None => {
                proof {
                    assert(hm == SegSpec::Fail(
                        crate::error::SynErr::InvalidVariableName(head@),
                    ));
                }
                return Err(invalid_name(head));
            },
        };
        proof {
            if no_backslash(entry@) && depth >= 2 {
                lemma_interp_plain_text(entry@);
                assert(hm == SegSpec::Val(Val::Str(entry@)));
            } else {
                assert(depth >= 2 ==> hm is Open);
            }
        }
        let value = parse_text_depth(info, &string_to_chars(entry.as_str()), depth - 1)?;
        return Ok(ASVariable::String(value));
    }
    if eq_lit(head, "None") {
        proof {
            reveal_strlit("None");
            assert(!crate::text::is_digit(head@[0]));
            assert(hm == SegSpec::Val(Val::Null));
        }
        return Ok(ASVariable::Null);
    }
    if n == 0 {
        proof {
            assert(hm == SegSpec::Val(Val::Empty));
        }
        return Ok(ASVariable::Empty);
    }
    if head[0] == '?' {
        proof {
            assert(!crate::text::is_digit(head@[0]));
        }
        let rest = slice_range(head, 1, n);
        if check_ident(&rest) {
            proof {
                assert(hm == SegSpec::Val(
                    Val::VarRef { name: head@.subrange(1, n as int), flag: true },
                ));
            }
            return Ok(ASVariable::VarRef { name: chars_to_string(&rest), flag: true });
        } else {
            proof {
                assert(hm == SegSpec::Fail(
                    crate::error::SynErr::InvalidVariableName(head@.subrange(1, n as int)),
                ));
            }
            return Err(invalid_name(&rest));
        }
    }
    if check_ident(head) {
        proof {
            assert(hm == SegSpec::Val(Val::VarRef { name: head@, flag: false }));
        }
        return Ok(ASVariable::VarRef { name: chars_to_string(head), flag: false });
    }
    proof {
        assert(hm == SegSpec::Fail(crate::error::SynErr::InvalidVariableName(head@)));
    }
    Err(invalid_name(head))
}

/// Compares a character vector with a literal.
fn eq_lit(v: &Vec<char>, lit: &str) -> (r: bool)
    ensures
        r == (v@ == lit@),
{
    let l = string_to_chars(lit);
    crate::text::chars_eq(v, &l)
}

/// Copies a sub-range of a character vector.
fn slice_range(v: &Vec<char>, lo: usize, hi: usize) -> (r: Vec<char>)
    requires
        lo <= hi <= v@.len(),
    ensures
        r@ == v@.subrange(lo as int, hi as int),
{
    let mut out: Vec<char> = Vec::new();
    let mut i: usize = lo;
    while i < hi
        invariant
            lo <= i <= hi <= v@.len(),
            out@ == v@.subrange(lo as int, i as int),
        decreases hi - i,
    {
        out.push(v[i]);
        proof {
            assert(v@.subrange(lo as int, i as int).push(v@[i as int]) =~= v@.subrange(
                lo as int,
                i + 1,
            ));
        }
        i = i + 1;
    }
    out
}

/// Copies the prefix of a character vector up to a position.
pub fn slice_head(v: &Vec<char>, hi: usize) -> (r: Vec<char>)
    requires
        hi <= v@.len(),
    ensures
        r@ == v@.subrange(0, hi as int),
{
    slice_range(v, 0, hi)
}

/// Copies the suffix of a character vector from a position on.
pub fn slice_tail(v: &Vec<char>, lo: usize) -> (r: Vec<char>)
    requires
        lo <= v@.len(),
    ensures
        r@ == v@.subrange(lo as int, v@.len() as int),
{
    let n = v.len();
    slice_range(v, lo, n)
}

/// Evaluates the interior of a list literal: a comma-separated sequence of
/// expressions, after re-running bracket extraction.
fn eval_list(
    info: &mut GameInfo,
    text: &Vec<char>,
    strings: &Vec<String>,
    depth: u64,
) -> (r: Result<ASVariable, ASError>)
    requires
        old(info).wf(),
    ensures
        eval_state_ok(*old(info), *final(info)),
        match r {
            Ok(v) => val_wf(v@) && !(v is Empty),
            Err(_) => true,
        },
        depth >= 1 && crate::simplify::br_scan(text@).mode is Some ==> (r matches Err(o) && o@
            == crate::error::ErrV::Syntax(
            crate::error::SynErr::UnclosedBracket {
                bracket: crate::simplify::br_scan(text@).mode->0,
            },
        )),
        depth >= 1 && crate::simplify::br_scan(text@).mode is None ==> (r matches Ok(v) ==> (
        v matches ASVariable::List(l) && l@.len() == split_spec(
            crate::simplify::br_render(crate::simplify::br_scan(text@).pieces),
            ',',
        ).len())),
    decreases depth, 1int,
{
    proof {
        lemma_eval_state_refl(*old(info));
    }
    if depth == 0 {
        return Err(ASError::Syntax(ASSyntaxError::NestingTooDeep));
    }
    let (ltext, lbrs) = match simplify_brackets(chars_to_string(text).as_str()) {
        Ok(p) => p,
        Err(e) => {
            return Err(ASError::Syntax(e));
        },
    };
    let elems = split_char(&string_to_chars(ltext.as_str()), ',');
    proof {
        lemma_charses_view(elems@);
    }
    let mut out: Vec<ASVariable> = Vec::new();
    let mut i: usize = 0;
    while i < elems.len()
        invariant
            old(info).wf(),
            info.wf(),
            eval_state_ok(*old(info), *info),
            forall|j: int|
                0 <= j < out@.len() ==> val_wf((#[trigger] out@[j])@) && !(out@[j] is Empty),
            depth >= 1,
            0 <= i <= elems@.len(),
            out@.len() == i,
            crate::simplify::br_scan(text@).mode is None,
            elems@.len() == split_spec(
                crate::simplify::br_render(crate::simplify::br_scan(text@).pieces),
                ',',
            ).len(),
        decreases elems@.len() - i,
    {
        let ghost pre = *info;
        let vr = expr_depth(info, &elems[i], strings, &lbrs, depth - 1);
        proof {
            lemma_eval_state_trans(*old(info), pre, *info);
        }
        let v = vr?;
        out.push(v);
        i = i + 1;
    }
    proof {
        lemma_vals_of(out@);
        assert forall|j: int|
            0 <= j < vals_of(out@).len() implies val_wf(#[trigger] vals_of(out@)[j]) && !(vals_of(
            out@,
        )[j] is Empty) by {
            assert(vals_of(out@)[j] == val_of(out@[j]));
            assert(val_wf((out@[j])@) && !(out@[j] is Empty));
        }
        assert(val_wf(Val::List(vals_of(out@))));
    }
    Ok(ASVariable::List(out))
}

/// Evaluates the interior of a map literal: comma-separated `key: value`
/// entries, each key converted to a map key, a later duplicate replacing an
/// earlier entry.
fn eval_map(
    info: &mut GameInfo,
    text: &Vec<char>,
    strings: &Vec<String>,
    brackets: &Vec<String>,
    depth: u64,
) -> (r: Result<ASVariable, ASError>)
    requires
        old(info).wf(),
    ensures
        eval_state_ok(*old(info), *final(info)),
        match r {
            Ok(v) => val_wf(v@) && !(v is Empty) && v matches ASVariable::Mapping(_),
            Err(_) => true,
        },
    decreases depth, 1int,
{
    proof {
        lemma_eval_state_refl(*old(info));
    }
    if depth == 0 {
        return Err(ASError::Syntax(ASSyntaxError::NestingTooDeep));
    }
    let elems = split_char(text, ',');
    let mut out: Vec<(KeyVar, ASVariable)> = Vec::new();
    let mut i: usize = 0;
    while i < elems.len()
        invariant
            old(info).wf(),
            info.wf(),
            eval_state_ok(*old(info), *info),
            forall|j: int|
                0 <= j < out@.len() ==> val_wf(val_of((#[trigger] out@[j]).1)) && !(out@[j].1
                    is Empty),
            forall|a: int, b: int|
                0 <= a < b < out@.len() ==> (#[trigger] out@[a]).0@ != (#[trigger] out@[b]).0@,
            depth >= 1,
        decreases elems@.len() - i,
    {
        let elem = &elems[i];
        let colon = match find_char(elem, ':') {
            Some(p) => p,
            None => {
                return Err(ASError::Syntax(ASSyntaxError::MapError));
            },
        };
        let key_text = slice_range(elem, 0, colon);
        let val_text = slice_range(elem, colon + 1, elem.len());
        let ghost pre = *info;
        let key_r = expr_depth(info, &key_text, strings, brackets, depth - 1);
        proof {
            lemma_eval_state_trans(*old(info), pre, *info);
        }
        let key_val = key_r?;
        let ghost pre2 = *info;
        let value_r = expr_depth(info, &val_text, strings, brackets, depth - 1);
        proof {
            lemma_eval_state_trans(*old(info), pre2, *info);
        }
        let value = value_r?;
        let key = match key_val.as_key() {
            Ok(k) => k,
            Err(e) => {
                return Err(ASError::Syntax(e));
            },
        };
        // replace an existing entry with the same key
        let mut found = false;
        let mut j: usize = 0;
        while j < out.len() && !found
            invariant
                0 <= j <= out@.len(),
                forall|a: int, b: int|
                    0 <= a < b < out@.len() ==> (#[trigger] out@[a]).0@ != (#[trigger] out@[b]).0@,
                forall|a: int|
                    0 <= a < out@.len() ==> val_wf(val_of((#[trigger] out@[a]).1)) && !(out@[a].1
                        is Empty),
                !found ==> forall|a: int| 0 <= a < j ==> (#[trigger] out@[a]).0@ != key@,
                val_wf(value@),
                !(value is Empty),
            decreases out@.len() - j, (if found { 0int } else { 1int }),
        {
            if out[j].0.key_eq(&key) {
                let kd = key.duplicate();
                let vd = value.duplicate();
                out.set(j, (kd, vd));
                found = true;
                proof {
                    assert(forall|a: int, b: int|
                        0 <= a < b < out@.len() ==> (#[trigger] out@[a]).0@ != (
                        #[trigger] out@[b]).0@);
                }
            } else {
                j = j + 1;
            }
        }
        if !found {
            out.push((key, value));
        }
        i = i + 1;
    }
    proof {
        lemma_entries_of(out@);
        assert forall|j: int|
            0 <= j < entries_of(out@).len() implies val_wf((#[trigger] entries_of(out@)[j]).1) && !(
            entries_of(out@)[j].1 is Empty) by {
            assert(entries_of(out@)[j] == (out@[j].0@, val_of(out@[j].1)));
            assert(val_wf(val_of(out@[j].1)) && !(out@[j].1 is Empty));
        }
        assert forall|a: int, b: int|
            0 <= a < b < entries_of(out@).len() implies (#[trigger] entries_of(out@)[a]).0 != (
            #[trigger] entries_of(out@)[b]).0 by {
            assert(entries_of(out@)[a] == (out@[a].0@, val_of(out@[a].1)));
            assert(entries_of(out@)[b] == (out@[b].0@, val_of(out@[b].1)));
            assert(out@[a].0@ != out@[b].0@);
        }
        assert(val_wf(Val::Mapping(entries_of(out@))));
    }
    Ok(ASVariable::Mapping(out))
}

/// Applies one `.name(k)` method suffix to a running value: parses the
/// suffix, evaluates the bracketed argument list, validates the arguments
/// against the method's declared types, and runs the built-in behavior.
fn apply_method(
    info: &mut GameInfo,
    value: ASVariable,
    method: &Vec<char>,
    strings: &Vec<String>,
    brackets: &Vec<String>,
    depth: u64,
) -> (r: Result<ASVariable, ASError>)
    requires
        old(info).wf(),
        val_wf(value@),
        !(value is Empty),
        depth >= 1,
    ensures
        eval_state_ok(*old(info), *final(info)),
        match r {
            Ok(v) => val_wf(v@) && !(v is Empty),
            Err(_) => true,
        },
    decreases depth, 1int,
{
    proof {
        lemma_eval_state_refl(*old(info));
    }
    // parse `name ( digits )`
    let open = match find_char(method, '(') {
        Some(p) => p,
        None => {
            return Err(
                ASError::Syntax(ASSyntaxError::InvalidMethod(chars_to_string(method))),
            );
        },
    };
    let name_part = trim_chars(&slice_range(method, 0, open));
    if name_part.len() == 0 || !check_ident(&name_part) {
        return Err(ASError::Syntax(ASSyntaxError::InvalidMethod(chars_to_string(method))));
    }
    if method.len() == 0 || method[method.len() - 1] != ')' || open + 2 > method.len() {
        return Err(ASError::Syntax(ASSyntaxError::InvalidMethod(chars_to_string(method))));
    }
    let digits = slice_range(method, open + 1, method.len() - 1);
    let entry = match table_lookup(&digits, brackets) {
        Some(e) => e.clone(),
        None => {
            return Err(
                ASError::Syntax(ASSyntaxError::InvalidMethod(chars_to_string(method))),
            );
        },
    };
    // evaluate the argument list from the referenced bracket entry
    let arg_text_r = parse_text_depth(info, &string_to_chars(entry.as_str()), depth - 1);
    let arg_text = arg_text_r?;
    let ghost mid = *info;
    let arg_list_r = eval_list(info, &string_to_chars(arg_text.as_str()), strings, depth - 1);
    proof {
        lemma_eval_state_trans(*old(info), mid, *info);
    }
    let arg_list = arg_list_r?;
    let mut args = match arg_list {
        ASVariable::List(l) => l,
        _ => {
            return Err(
                ASError::Other(
                    crate::error::ASOtherError::DevErr(
                        String::from_str("method arguments did not evaluate to a list"),
                    ),
                ),
            );
        },
    };
    proof {
        lemma_vals_of(args@);
    }
    let value_type = value.get_type();
    let table = TypeMethods::get_for_type(&value_type);
    let name_str = chars_to_string(&name_part);
    let found = table.get(name_str.as_str());
    let m = match found {
        Some(m) => m,
        None => {
            return Err(
                ASError::Syntax(ASSyntaxError::UnknownMethod(name_str, value.get_type())),
            );
        },
    };
    // validate and coerce the arguments against the declared types
    if args.len() > m.argtypes.len() {
        return Err(
            ASError::Cmd(
                ASCmdError {
                    command: name_str,
                    details: CommandErrors::TooManyArguments {
                        max_args: m.argtypes.len(),
                        given_args: args.len(),
                    },
                },
            ),
        );
    }
    if args.len() < m.required_args {
        let missing = args.len();
        let missing_type = if missing < m.argtypes.len() {
            clone_type(&m.argtypes[missing])
        } else {
            crate::variables::ASType::Any
        };
        return Err(
            ASError::Cmd(
                ASCmdError {
                    command: name_str,
                    details: CommandErrors::MissingRequiredPosArg {
                        argument_name: String::from_str("argument"),
                        argument_num: missing,
                        argument_type: missing_type,
                    },
                },
            ),
        );
    }
    let mut ai: usize = 0;
    while ai < args.len()
        invariant
            old(info).wf(),
            info.wf(),
            eval_state_ok(*old(info), *info),
            args@.len() <= m.argtypes@.len(),
            forall|j: int|
                0 <= j < args@.len() ==> val_wf((#[trigger] args@[j])@) && !(args@[j] is Empty),
        decreases args@.len() - ai,
    {
        let is_any = match &m.argtypes[ai] {
            crate::variables::ASType::Any => true,
            _ => false,
        };
        let arg_is_ref = match &args[ai] {
            ASVariable::VarRef { .. } => true,
            _ => false,
        };
        let matches_decl = type_matches(&m.argtypes[ai], &args[ai]);
        if (is_any && !arg_is_ref) || matches_decl {
            // accepted as-is
        } else if arg_is_ref {
            let ghost pre2 = *info;
            let resolved_r = info.get_var(&args[ai]);
            proof {
                assert(eval_state_ok(pre2, *info)) by {
                    match &args[ai as int] {
                        ASVariable::VarRef { name, flag } => {
                            if *flag {
                                let b = if pre2.flags_view().contains_key(name@) {
                                    pre2.flags_view()[name@]
                                } else {
                                    false
                                };
                                crate::methods::lemma_flag_read_ok(pre2, *info, name@, b);
                            } else {
                                assert(info.flags_view() =~= pre2.flags_view());
                            }
                        },
                        _ => {
                            assert(info.flags_view() =~= pre2.flags_view());
                        },
                    }
                }
                lemma_eval_state_trans(*old(info), pre2, *info);
            }
            let resolved = resolved_r?;
            args.set(ai, resolved);
        } else {
            let arg_is_null = match &args[ai] {
                ASVariable::Null => true,
                _ => false,
            };
            let decl_is_label = match &m.argtypes[ai] {
                crate::variables::ASType::Label => true,
                _ => false,
            };
            if arg_is_null && decl_is_label {
                args.set(ai, ASVariable::Label(None));
            } else {
                return Err(
                    ASError::Cmd(
                        ASCmdError {
                            command: chars_to_string(&name_part),
                            details: CommandErrors::PosArgTypeError {
                                argument_name: String::from_str("argument"),
                                argument_num: ai,
                                required_type: clone_type(&m.argtypes[ai]),
                                given_type: args[ai].get_type(),
                            },
                        },
                    ),
                );
            }
        }
        ai = ai + 1;
    }
    // run the built-in behavior
    match m.kind {
        MethodKind::Stringify => {
            match &value {
                ASVariable::String(s) => {
                    let mut quoted = String::from_str("\"");
                    quoted.append(s.as_str());
                    quoted.append("\"");
                    Ok(ASVariable::String(quoted))
                },
                _ => Ok(ASVariable::String(value.to_text())),
            }
        },
        MethodKind::ListGet => {
            match (&value, args.len()) {
                (ASVariable::List(l), 1) => {
                    let pos = match &args[0] {
                        ASVariable::Int(p) => *p,
                        _ => {
                            return Err(method_type_err(&name_part, &args[0]));
                        },
                    };
                    proof {
                        lemma_vals_of(l@);
                        assert(val_wf(Val::List(vals_of(l@))));
                    }
                    list_get(l, pos)
                },
                _ => Err(
                    ASError::Other(
                        crate::error::ASOtherError::DevErr(
                            String::from_str("list method applied to a non-list"),
                        ),
                    ),
                ),
            }
        },
        MethodKind::ListIndexOf => {
            match (&value, args.len()) {
                (ASVariable::List(l), 1) => {
                    if l.len() as u64 > 0x7fff_ffff_ffff_ffffu64 {
                        return Err(
                            ASError::Other(
                                crate::error::ASOtherError::DevErr(
                                    String::from_str("list too long to index"),
                                ),
                            ),
                        );
                    }
                    proof {
                        lemma_vals_of(l@);
                        assert(val_wf(Val::List(vals_of(l@))));
                    }
                    let r = list_index_of(l, &args[0]);
                    Ok(r)
                },
                _ => Err(
                    ASError::Other(
                        crate::error::ASOtherError::DevErr(
                            String::from_str("list method applied to a non-list"),
                        ),
                    ),
                ),
            }
        },
        MethodKind::MapGet => {
            match (&value, args.len()) {
                (ASVariable::Mapping(entries), 1) => {
                    proof {
                        lemma_entries_of(entries@);
                        assert(val_wf(Val::Mapping(entries_of(entries@))));
                    }
                    map_get(entries, &args[0])
                },
                _ => Err(
                    ASError::Other(
                        crate::error::ASOtherError::DevErr(
                            String::from_str("map method applied to a non-map"),
                        ),
                    ),
                ),
            }
        },
    }
}

/// Builds the positional type-error report for a method argument.
fn method_type_err(name: &Vec<char>, given: &ASVariable) -> (r: ASError)
    requires
        !(given is Empty),
{
    ASError::Cmd(
        ASCmdError {
            command: chars_to_string(name),
            details: CommandErrors::PosArgTypeError {
                argument_name: String::from_str("argument"),
                argument_num: 0,
                required_type: crate::variables::ASType::Int,
                given_type: given.get_type(),
            },
        },
    )
}

/// Whether a value's type tag matches a declared type exactly.
fn type_matches(decl: &crate::variables::ASType, v: &ASVariable) -> (r: bool)
    requires
        !(v is Empty),
    ensures
        r == (v@.ty() == decl@),
{
    let t = v.get_type();
    crate::variables::type_eq(&t, decl)
}

/// Clones a type tag.
fn clone_type(t: &crate::variables::ASType) -> (r: crate::variables::ASType)
    ensures
        r@ == t@,
{
    match t {
        crate::variables::ASType::Any => crate::variables::ASType::Any,
        crate::variables::ASType::Bool => crate::variables::ASType::Bool,
        crate::variables::ASType::Int => crate::variables::ASType::Int,
        crate::variables::ASType::String => crate::variables::ASType::String,
        crate::variables::ASType::List => crate::variables::ASType::List,
        crate::variables::ASType::Mapping => crate::variables::ASType::Mapping,
        crate::variables::ASType::Label => crate::variables::ASType::Label,
        crate::variables::ASType::VarRef => crate::variables::ASType::VarRef,
        crate::variables::ASType::Null => crate::variables::ASType::Null,
        crate::variables::ASType::Object(s) => crate::variables::ASType::Object(
            chars_to_string(&string_to_chars(s.as_str())),
        ),
    }
}

/// The outcome of the interpolation model on a text: fully decoded, a
/// definite failure, or open because the text reaches a `\v[...]` code,
/// whose substitution depends on evaluation.
pub enum InterpSpec {
    Done(Seq<char>),
    Fail(crate::error::SynErr),
    Open,
}

/// Prepends a decoded character to an interpolation outcome.
pub open spec fn interp_cons(c: char, rest: InterpSpec) -> InterpSpec {
    match rest {
        InterpSpec::Done(t) => InterpSpec::Done(seq![c] + t),
        InterpSpec::Fail(e) => InterpSpec::Fail(e),
        InterpSpec::Open => InterpSpec::Open,
    }
}

/// The interpolation model: `\n` decodes to a newline, `\\` to one
/// backslash, a trailing backslash stays, any other `\c` is an invalid
/// escape code, and `\v` demands a bracketed body — with one, the outcome
/// is open to evaluation.
pub open spec fn interp_model(s: Seq<char>) -> InterpSpec
    decreases s.len(),
{
    if s.len() == 0 {
        InterpSpec::Done(Seq::empty())
    } else if s[0] != '\\' {
        interp_cons(s[0], interp_model(s.drop_first()))
    } else if s.len() == 1 {
        InterpSpec::Done(seq!['\\'])
    } else if s[1] == 'n' {
        interp_cons('\n', interp_model(s.subrange(2, s.len() as int)))
    } else if s[1] == '\\' {
        interp_cons('\\', interp_model(s.subrange(2, s.len() as int)))
    } else if s[1] == 'v' {
        if s.len() == 2 || s[2] != '[' {
            InterpSpec::Fail(crate::error::SynErr::EmptyControlCode { code: "\\v"@ })
        } else {
            InterpSpec::Open
        }
    } else {
        InterpSpec::Fail(
            crate::error::SynErr::InvalidEscapeCode { code: seq!['\\', s[1]] },
        )
    }
}

/// Glues already-decoded output onto the model of the remaining text.
pub open spec fn interp_glue(out: Seq<char>, rest: InterpSpec) -> InterpSpec {
    match rest {
        InterpSpec::Done(t) => InterpSpec::Done(out + t),
        InterpSpec::Fail(e) => InterpSpec::Fail(e),
        InterpSpec::Open => InterpSpec::Open,
    }
}

/// Gluing commutes with prepending one decoded character.
proof fn lemma_interp_glue_cons(out: Seq<char>, c: char, rest: InterpSpec)
    ensures
        interp_glue(out, interp_cons(c, rest)) == interp_glue(out.push(c), rest),
{
    match rest {
        InterpSpec::Done(t) => {
            assert(out + (seq![c] + t) =~= out.push(c) + t);
        },
        _ => {},
    }
}

/// The model's step on a plain character.
proof fn lemma_interp_step_plain(u: Seq<char>, c: char)
    requires
        u.len() > 0,
        c == u[0],
        c != '\\',
    ensures
        interp_model(u) == interp_cons(c, interp_model(u.subrange(1, u.len() as int))),
{
    assert(u.drop_first() =~= u.subrange(1, u.len() as int));
}

/// The model's step on a backslash code.
proof fn lemma_interp_step_code(u: Seq<char>, c2: char, c3: Option<char>)
    requires
        u.len() >= 2,
        u[0] == '\\',
        c2 == u[1],
        c3 == (if u.len() >= 3 {
            Option::Some(u[2])
        } else {
            Option::<char>::None
        }),
    ensures
        c2 == 'n' ==> interp_model(u) == interp_cons(
            '\n',
            interp_model(u.subrange(2, u.len() as int)),
        ),
        c2 == '\\' ==> interp_model(u) == interp_cons(
            '\\',
            interp_model(u.subrange(2, u.len() as int)),
        ),
        c2 == 'v' && !(c3 matches Some(c) && c == '[') ==> interp_model(u) == InterpSpec::Fail(
            crate::error::SynErr::EmptyControlCode { code: "\\v"@ },
        ),
        c2 == 'v' && (c3 matches Some(c) && c == '[') ==> interp_model(u) == InterpSpec::Open,
        c2 != 'n' && c2 != '\\' && c2 != 'v' ==> interp_model(u) == InterpSpec::Fail(
            crate::error::SynErr::InvalidEscapeCode { code: seq!['\\', c2] },
        ),
{
}

/// The model's step on a trailing backslash.
proof fn lemma_interp_tail_backslash(u: Seq<char>)
    requires
        u.len() == 1,
        u[0] == '\\',
    ensures
        interp_model(u) == InterpSpec::Done(seq!['\\']),
{
}

/// Interpolates control codes in narrative or string-literal text: `\n`
/// breaks the line, `\\` is a literal backslash, and `\v[expr]` evaluates
/// the bracketed expression, dereferences a resulting variable reference,
/// and splices its display text. Any other code is invalid; a `\v` without
/// a bracketed body is an empty control code.
pub fn parse_text(info: &mut GameInfo, text: &str) -> (r: Result<String, ASError>)
    requires
        old(info).wf(),
    ensures
        eval_state_ok(*old(info), *final(info)),
        match interp_model(text@) {
            InterpSpec::Done(t) => r matches Ok(o) && o@ == t,
            InterpSpec::Fail(e) => r matches Err(o) && o@ == crate::error::ErrV::Syntax(e),
            InterpSpec::Open => true,
        },
{
    let chars = string_to_chars(text);
    parse_text_depth(info, &chars, MAX_NESTING)
}

/// One interpolation level over raw text.
fn parse_text_depth(info: &mut GameInfo, text: &Vec<char>, depth: u64) -> (r: Result<
    String,
    ASError,
>)
    requires
        old(info).wf(),
    ensures
        eval_state_ok(*old(info), *final(info)),
        depth >= 1 ==> match interp_model(text@) {
            InterpSpec::Done(t) => r matches Ok(o) && o@ == t,
            InterpSpec::Fail(e) => r matches Err(o) && o@ == crate::error::ErrV::Syntax(e),
            InterpSpec::Open => true,
        },
    decreases depth, 2int,
{
    proof {
        lemma_eval_state_refl(*old(info));
    }
    if depth == 0 {
        return Err(ASError::Syntax(ASSyntaxError::NestingTooDeep));
    }
    let mut out = String::new();
    let mut i: usize = 0;
    proof {
        assert(text@.subrange(0, text@.len() as int) =~= text@);
        assert(interp_model(text@) is Open || interp_model(text@) == interp_glue(
            out@,
            interp_model(text@.subrange(0, text@.len() as int)),
        )) by {
            match interp_model(text@) {
                InterpSpec::Done(t) => {
                    assert(out@ + t =~= t);
                },
                _ => {},
            }
        }
    }
    while i < text.len()
        invariant
            old(info).wf(),
            info.wf(),
            eval_state_ok(*old(info), *info),
            depth >= 1,
            0 <= i <= text@.len(),
            interp_model(text@) is Open || interp_model(text@) == interp_glue(
                out@,
                interp_model(text@.subrange(i as int, text@.len() as int)),
            ),
        decreases text@.len() - i,
    {
        let ghost u = text@.subrange(i as int, text@.len() as int);
        let c = text[i];
        proof {
            assert(u[0] == text@[i as int]);
            assert(c == text@[i as int]);
        }
        if c != '\\' {
            proof {
                lemma_interp_step_plain(u, c);
                assert(u.subrange(1, u.len() as int) =~= text@.subrange(
                    i + 1,
                    text@.len() as int,
                ));
                lemma_interp_glue_cons(out@, c, interp_model(u.subrange(1, u.len() as int)));
            }
            push_char(&mut out, c);
            i = i + 1;
        } else if i + 1 >= text.len() {
            // a trailing backslash is kept as-is
            proof {
                assert(u.len() == 1);
                lemma_interp_tail_backslash(u);
                assert(u.subrange(1, u.len() as int) =~= text@.subrange(
                    i + 1,
                    text@.len() as int,
                ));
                assert(interp_model(u) == interp_cons(
                    '\\',
                    interp_model(u.subrange(1, u.len() as int)),
                )) by {
                    assert(u.subrange(1, u.len() as int).len() == 0);
                    assert(seq!['\\'] + Seq::<char>::empty() =~= seq!['\\']);
                }
                lemma_interp_glue_cons(out@, '\\', interp_model(u.subrange(1, u.len() as int)));
            }
            push_char(&mut out, c);
            i = i + 1;
        } else {
            let code = text[i + 1];
            let ghost c3 = if i + 2 < text@.len() {
                Option::Some(text@[i + 2])
            } else {
                Option::<char>::None
            };
            proof {
                assert(u.len() >= 2);
                assert(u[1] == text@[i + 1]);
                assert(code == text@[i + 1]);
                if u.len() >= 3 {
                    assert(u[2] == text@[i + 2]);
                }
                lemma_interp_step_code(u, code, c3);
                assert(u.subrange(2, u.len() as int) =~= text@.subrange(
                    i + 2,
                    text@.len() as int,
                ));
            }
            if code == 'n' {
                proof {
                    lemma_interp_glue_cons(out@, '\n', interp_model(u.subrange(2, u.len() as int)));
                }
                push_char(&mut out, '\n');
                i = i + 2;
            } else if code == '\\' {
                proof {
                    lemma_interp_glue_cons(out@, '\\', interp_model(u.subrange(2, u.len() as int)));
                }
                push_char(&mut out, '\\');
                i = i + 2;
            } else if code == 'v' {
                if i + 2 >= text.len() || text[i + 2] != '[' {
                    proof {
                        assert(interp_model(u) == InterpSpec::Fail(
                            crate::error::SynErr::EmptyControlCode { code: "\\v"@ },
                        ));
                    }
                    return Err(
                        ASError::Syntax(
                            ASSyntaxError::EmptyControlCode { code: String::from_str("\\v") },
                        ),
                    );
                }
                proof {
                    assert(interp_model(u) == InterpSpec::Open);
                    assert(interp_model(text@) is Open);
                }
                // find the matching close bracket, counting nesting
                let mut j: usize = i + 3;
                let mut nest: u64 = 0;
                let mut close: Option<usize> = None;
                while j < text.len() && close.is_none()
                    invariant
                        i + 3 <= j <= text@.len(),
                        interp_model(text@) is Open,
                        close matches Some(p) ==> i + 3 <= p < text@.len(),
                    decreases text@.len() - j, (if close is Some { 0int } else { 1int }),
                {
                    if text[j] == '[' {
                        if nest < 0xffff_ffff_ffff_ffffu64 {
                            nest = nest + 1;
                        }
                        j = j + 1;
                    } else if text[j] == ']' {
                        if nest == 0 {
                            close = Some(j);
                        } else {
                            nest = nest - 1;
                            j = j + 1;
                        }
                    } else {
                        j = j + 1;
                    }
                }
                let cpos = match close {
                    Some(p) => p,
                    None => {
                        return Err(
                            ASError::Syntax(ASSyntaxError::UnclosedBracket { bracket: '[' }),
                        );
                    },
                };
                let body = slice_range(text, i + 3, cpos);
                let ghost mid0 = *info;
                let (tx, vstrings) = match simplify_strings(
                    chars_to_string(&body).as_str(),
                ) {
                    Ok(p) => p,
                    Err(e) => {
                        return Err(ASError::Syntax(e));
                    },
                };
                let (tx2, vbrackets) = match simplify_brackets(tx.as_str()) {
                    Ok(p) => p,
                    Err(e) => {
                        return Err(ASError::Syntax(e));
                    },
                };
                let result_r = expr_depth(
                    info,
                    &string_to_chars(tx2.as_str()),
                    &vstrings,
                    &vbrackets,
                    depth - 1,
                );
                proof {
                    lemma_eval_state_trans(*old(info), mid0, *info);
                }
                let result = result_r?;
                let is_ref = match &result {
                    ASVariable::VarRef { .. } => true,
                    _ => false,
                };
                let shown = if is_ref {
                    let ghost pre2 = *info;
                    let resolved_r = info.get_var(&result);
                    proof {
                        assert(eval_state_ok(pre2, *info)) by {
                            match &result {
                                ASVariable::VarRef { name, flag } => {
                                    if *flag {
                                        let b = if pre2.flags_view().contains_key(name@) {
                                            pre2.flags_view()[name@]
                                        } else {
                                            false
                                        };
                                        crate::methods::lemma_flag_read_ok(pre2, *info, name@, b);
                                    } else {
                                        assert(info.flags_view() =~= pre2.flags_view());
                                    }
                                },
                                _ => {
                                    assert(info.flags_view() =~= pre2.flags_view());
                                },
                            }
                        }
                        lemma_eval_state_trans(*old(info), pre2, *info);
                    }
                    let resolved = resolved_r?;
                    resolved.to_text()
                } else {
                    result.to_text()
                };
                out.append(shown.as_str());
                i = cpos + 1;
            } else {
                let mut code_text = String::from_str("\\");
                push_char(&mut code_text, code);
                proof {
                    reveal_strlit("\\");
                    assert(code_text@ =~= seq!['\\', code]);
                    assert(interp_model(u) == InterpSpec::Fail(
                        crate::error::SynErr::InvalidEscapeCode { code: seq!['\\', code] },
                    ));
                }
                return Err(
                    ASError::Syntax(ASSyntaxError::InvalidEscapeCode { code: code_text }),
                );
            }
        }
    }
    proof {
        assert(text@.subrange(text@.len() as int, text@.len() as int) =~= Seq::<char>::empty());
        match interp_model(text@) {
            InterpSpec::Done(t) => {
                assert(out@ + Seq::<char>::empty() =~= out@);
            },
            _ => {},
        }
    }
    Ok(out)
}

} // verus!
