//! Arithmetic, unary and comparison operators on values. Each operator is a
//! total function defined only on specific variant pairs; every other pairing
//! reports `OperationNotDefined`, and a result with no 64-bit representation
//! reports an arithmetic error instead of wrapping.

use vstd::prelude::*;

use crate::error::ASSyntaxError;
use crate::error::SynErr;
use crate::variables::lemma_vals_of;
use crate::variables::val_wf;
use crate::variables::val_of;
use crate::variables::vals_of;
use crate::variables::ASVariable;
use crate::variables::Val;

verus! {

/// `b` to the power `e`.
pub open spec fn pow_int(b: int, e: nat) -> int
    decreases e,
{
    if e == 0 {
        1
    } else {
        b * pow_int(b, (e - 1) as nat)
    }
}

/// Truncated division, the semantics of `/` on machine integers: the
/// magnitude quotient, with the sign of the operands' product.
pub open spec fn trunc_div(x: int, y: int) -> int {
    let q = abs_int(x) / abs_int(y);
    if (x < 0) != (y < 0) {
        -q
    } else {
        q
    }
}

/// The absolute value.
pub open spec fn abs_int(x: int) -> int {
    if x < 0 {
        -x
    } else {
        x
    }
}

/// Whether a number has a 64-bit signed representation.
pub open spec fn fits_i64(x: int) -> bool {
    i64::MIN <= x <= i64::MAX
}

/// The model of the `Add` operator: integer addition, or string
/// concatenation.
pub open spec fn add_val(a: Val, b: Val) -> Result<Val, SynErr> {
    match (a, b) {
        (Val::Int(x), Val::Int(y)) => if fits_i64(x + y) {
            Ok(Val::Int((x + y) as i64))
        } else {
            Err(SynErr::IntegerOverflow { op: "add"@ })
        },
        (Val::Str(x), Val::Str(y)) => Ok(Val::Str(x + y)),
        _ => Err(SynErr::OperationNotDefined { op: "add"@, type1: a.ty(), type2: b.ty() }),
    }
}

/// The model of the `Sub` operator: integer subtraction.
pub open spec fn sub_val(a: Val, b: Val) -> Result<Val, SynErr> {
    match (a, b) {
        (Val::Int(x), Val::Int(y)) => if fits_i64(x - y) {
            Ok(Val::Int((x - y) as i64))
        } else {
            Err(SynErr::IntegerOverflow { op: "substract"@ })
        },
        _ => Err(SynErr::OperationNotDefined { op: "substract"@, type1: a.ty(), type2: b.ty() }),
    }
}

/// A sequence repeated a number of times.
pub open spec fn seq_repeat<A>(s: Seq<A>, n: int) -> Seq<A>
    decreases n,
{
    if n <= 0 {
        Seq::empty()
    } else {
        seq_repeat(s, n - 1) + s
    }
}

/// The model of the `Mul` operator: integer multiplication, string
/// repetition, or list repetition.
pub open spec fn mul_val(a: Val, b: Val) -> Result<Val, SynErr> {
    match (a, b) {
        (Val::Int(x), Val::Int(y)) => if fits_i64(x * y) {
            Ok(Val::Int((x * y) as i64))
        } else {
            Err(SynErr::IntegerOverflow { op: "multiply"@ })
        },
        (Val::Str(x), Val::Int(y)) => Ok(Val::Str(seq_repeat(x, y as int))),
        (Val::List(x), Val::Int(y)) => Ok(Val::List(seq_repeat(x, y as int))),
        _ => Err(SynErr::OperationNotDefined { op: "multiply"@, type1: a.ty(), type2: b.ty() }),
    }
}

/// The model of the `Div` operator: truncated integer division.
pub open spec fn div_val(a: Val, b: Val) -> Result<Val, SynErr> {
    match (a, b) {
        (Val::Int(x), Val::Int(y)) => if y == 0 {
            Err(SynErr::DivisionByZero)
        } else if fits_i64(trunc_div(x as int, y as int)) {
            Ok(Val::Int(trunc_div(x as int, y as int) as i64))
        } else {
            Err(SynErr::IntegerOverflow { op: "divide"@ })
        },
        _ => Err(SynErr::OperationNotDefined { op: "divide"@, type1: a.ty(), type2: b.ty() }),
    }
}

/// The model of the power operator: the left operand raised to the right
/// operand, which must be non-negative.
pub open spec fn pow_val(a: Val, b: Val) -> Result<Val, SynErr> {
    match (a, b) {
        (Val::Int(x), Val::Int(y)) => if y < 0 {
            Err(SynErr::NegativeExponent)
        } else if fits_i64(pow_int(x as int, y as nat)) {
            Ok(Val::Int(pow_int(x as int, y as nat) as i64))
        } else {
            Err(SynErr::IntegerOverflow { op: "calculate the power of"@ })
        },
        _ => Err(
            SynErr::OperationNotDefined {
                op: "calculate the power of"@,
                type1: a.ty(),
                type2: b.ty(),
            },
        ),
    }
}

/// The model of the unary `Neg` operator: integer negation.
pub open spec fn neg_val(a: Val) -> Result<Val, SynErr> {
    match a {
        Val::Int(x) => if fits_i64(-(x as int)) {
            Ok(Val::Int((-(x as int)) as i64))
        } else {
            Err(SynErr::IntegerOverflow { op: "negate"@ })
        },
        _ => Err(SynErr::UnaryOperationNotDefined { op: "negate"@, type1: a.ty() }),
    }
}

/// The model of the unary `Not` operator: boolean negation.
pub open spec fn not_val(a: Val) -> Result<Val, SynErr> {
    match a {
        Val::Bool(b) => Ok(Val::Bool(!b)),
        _ => Err(SynErr::UnaryOperationNotDefined { op: "bool-negate"@, type1: a.ty() }),
    }
}

/// A comparison operator.
pub enum CmpOp {
    Lt,
    Le,
    Gt,
    Ge,
}

/// The operator symbol, for error reports.
pub open spec fn cmp_op_name(op: CmpOp) -> Seq<char> {
    match op {
        CmpOp::Lt => "<"@,
        CmpOp::Le => "<="@,
        CmpOp::Gt => ">"@,
        CmpOp::Ge => ">="@,
    }
}

/// The model of an ordering comparison: defined only between two integers;
/// any other pairing is incomparable and reports a hard error.
pub open spec fn cmp_val(op: CmpOp, a: Val, b: Val) -> Result<Val, SynErr> {
    match (a, b) {
        (Val::Int(x), Val::Int(y)) => Ok(
            Val::Bool(
                match op {
                    CmpOp::Lt => x < y,
                    CmpOp::Le => x <= y,
                    CmpOp::Gt => x > y,
                    CmpOp::Ge => x >= y,
                },
            ),
        ),
        _ => Err(SynErr::OperationNotDefined { op: cmp_op_name(op), type1: a.ty(), type2: b.ty() }),
    }
}

/// Builds the `OperationNotDefined` report for a binary operator applied to
/// an unsupported pair of values.
pub fn op_err(op: String, v1: ASVariable, v2: ASVariable) -> (r: Result<ASVariable, ASSyntaxError>)
    requires
        !(v1 is Empty),
        !(v2 is Empty),
    ensures
        r matches Err(e) && e@ == (SynErr::OperationNotDefined {
            op: op@,
            type1: v1@.ty(),
            type2: v2@.ty(),
        }),
{
    Err(
        ASSyntaxError::OperationNotDefined {
            op,
            type1: v1.get_type(),
            type2: v2.get_type(),
        },
    )
}

/// Builds the `UnaryOperationNotDefined` report for a unary operator applied
/// to an unsupported value.
pub fn unary_op_err(op: String, v: ASVariable) -> (r: Result<ASVariable, ASSyntaxError>)
    requires
        !(v is Empty),
    ensures
        r matches Err(e) && e@ == (SynErr::UnaryOperationNotDefined { op: op@, type1: v@.ty() }),
{
    Err(ASSyntaxError::UnaryOperationNotDefined { op, type1: v.get_type() })
}

/// Appends a string to a string.
fn append_str(s: &mut String, t: &str)
    ensures
        final(s)@ == old(s)@ + t@,
{
    s.append(t);
}

/// The magnitude of a 64-bit signed number, as an unsigned number.
fn magnitude(x: i64) -> (r: u64)
    ensures
        r == abs_int(x as int),
{
    if x >= 0 {
        x as u64
    } else if x == i64::MIN {
        9223372036854775808u64
    } else {
        (-x) as u64
    }
}

impl ASVariable {
    /// The `Add` operator: `Int + Int` adds; `String + String` concatenates;
    /// everything else is `OperationNotDefined`.
    pub fn add(self, rhs: Self) -> (r: Result<ASVariable, ASSyntaxError>)
        requires
            !(self is Empty),
            !(rhs is Empty),
        ensures
            match add_val(self@, rhs@) {
                Ok(v) => r matches Ok(o) && o@ == v,
                Err(e) => r matches Err(o) && o@ == e,
            },
    {
        match (self, rhs) {
            (ASVariable::Int(x), ASVariable::Int(y)) => match x.checked_add(y) {
                Some(v) => Ok(ASVariable::Int(v)),
                None => Err(ASSyntaxError::IntegerOverflow { op: add_name() }),
            },
            (ASVariable::String(x), ASVariable::String(y)) => {
                let mut out = x;
                append_str(&mut out, y.as_str());
                Ok(ASVariable::String(out))
            },
            (a, b) => op_err(add_name(), a, b),
        }
    }

    /// The `Sub` operator: defined on `Int, Int` only.
    pub fn sub(self, rhs: Self) -> (r: Result<ASVariable, ASSyntaxError>)
        requires
            !(self is Empty),
            !(rhs is Empty),
        ensures
            match sub_val(self@, rhs@) {
                Ok(v) => r matches Ok(o) && o@ == v,
                Err(e) => r matches Err(o) && o@ == e,
            },
    {
        match (self, rhs) {
            (ASVariable::Int(x), ASVariable::Int(y)) => match x.checked_sub(y) {
                Some(v) => Ok(ASVariable::Int(v)),
                None => Err(ASSyntaxError::IntegerOverflow { op: sub_name() }),
            },
            (a, b) => op_err(sub_name(), a, b),
        }
    }

    /// The `Mul` operator: `Int * Int` multiplies; `String * Int` and
    /// `List * Int` repeat the left operand; everything else is
    /// `OperationNotDefined`. A repetition count below one produces an empty
    /// result.
    pub fn mul(self, rhs: Self) -> (r: Result<ASVariable, ASSyntaxError>)
        requires
            !(self is Empty),
            !(rhs is Empty),
        ensures
            match mul_val(self@, rhs@) {
                Ok(v) => r matches Ok(o) && o@ == v,
                Err(e) => r matches Err(o) && o@ == e,
            },
    {
        match (self, rhs) {
            (ASVariable::Int(x), ASVariable::Int(y)) => match x.checked_mul(y) {
                Some(v) => Ok(ASVariable::Int(v)),
                None => Err(ASSyntaxError::IntegerOverflow { op: mul_name() }),
            },
            (ASVariable::String(x), ASVariable::Int(y)) => {
                let mut out = String::new();
                let mut j: i64 = 0;
                if y > 0 {
                    while j < y
                        invariant
                            0 <= j <= y,
                            out@ == seq_repeat(x@, j as int),
                        decreases y - j,
                    {
                        append_str(&mut out, x.as_str());
                        j = j + 1;
                    }
                }
                Ok(ASVariable::String(out))
            },
            (ASVariable::List(x), ASVariable::Int(y)) => {
                let mut out: Vec<ASVariable> = Vec::new();
                let mut j: i64 = 0;
                proof {
                    lemma_vals_of(x@);
                }
                if y > 0 {
                    while j < y
                        invariant
                            0 <= j <= y,
                            vals_of(out@) == seq_repeat(vals_of(x@), j as int),
                            forall|k: int|
                                0 <= k < x@.len() ==> vals_of(x@)[k] == val_of(#[trigger] x@[k]),
                            vals_of(x@).len() == x@.len(),
                        decreases y - j,
                    {
                        let mut k: usize = 0;
                        while k < x.len()
                            invariant
                                0 <= k <= x@.len(),
                                vals_of(out@) == seq_repeat(vals_of(x@), j as int) + vals_of(
                                    x@,
                                ).subrange(0, k as int),
                                forall|kk: int|
                                    0 <= kk < x@.len() ==> vals_of(x@)[kk] == val_of(
                                        #[trigger] x@[kk],
                                    ),
                                vals_of(x@).len() == x@.len(),
                            decreases x@.len() - k,
                        {
                            let d = x[k].duplicate();
                            proof {
                                lemma_vals_of_push(out@, d);
                                assert((seq_repeat(vals_of(x@), j as int) + vals_of(x@).subrange(
                                    0,
                                    k as int,
                                )).push(vals_of(x@)[k as int]) =~= seq_repeat(vals_of(x@), j as int)
                                    + vals_of(x@).subrange(0, k + 1));
                            }
                            out.push(d);
                            k = k + 1;
                        }
                        proof {
                            assert(vals_of(x@).subrange(0, x@.len() as int) =~= vals_of(x@));
                            assert(seq_repeat(vals_of(x@), j as int) + vals_of(x@) == seq_repeat(
                                vals_of(x@),
                                j + 1,
                            ));
                        }
                        j = j + 1;
                    }
                }
                Ok(ASVariable::List(out))
            },
            (a, b) => op_err(mul_name(), a, b),
        }
    }

    /// The `Div` operator: truncated division on `Int, Int` only, failing on
    /// a zero divisor and on the one overflowing quotient.
    pub fn div(self, rhs: Self) -> (r: Result<ASVariable, ASSyntaxError>)
        requires
            !(self is Empty),
            !(rhs is Empty),
        ensures
            match div_val(self@, rhs@) {
                Ok(v) => r matches Ok(o) && o@ == v,
                Err(e) => r matches Err(o) && o@ == e,
            },
    {
        match (self, rhs) {
            (ASVariable::Int(x), ASVariable::Int(y)) => {
                if y == 0 {
                    return Err(ASSyntaxError::DivisionByZero);
                }
                let mx = magnitude(x);
                let my = magnitude(y);
                let q = mx / my;
                let neg = (x < 0) != (y < 0);
                if neg {
                    if q == 9223372036854775808u64 {
                        Ok(ASVariable::Int(i64::MIN))
                    } else {
                        Ok(ASVariable::Int(-(q as i64)))
                    }
                } else {
                    if q >= 9223372036854775808u64 {
                        Err(ASSyntaxError::IntegerOverflow { op: div_name() })
                    } else {
                        Ok(ASVariable::Int(q as i64))
                    }
                }
            },
            (a, b) => op_err(div_name(), a, b),
        }
    }

    /// The power operator: the left operand raised to the right, defined on
    /// `Int, Int` with a non-negative exponent.
    pub fn pow(self, exponent: Self) -> (r: Result<ASVariable, ASSyntaxError>)
        requires
            !(self is Empty),
            !(exponent is Empty),
        ensures
            match pow_val(self@, exponent@) {
                Ok(v) => r matches Ok(o) && o@ == v,
                Err(e) => r matches Err(o) && o@ == e,
            },
    {
        match (self, exponent) {
            (ASVariable::Int(x), ASVariable::Int(y)) => {
                if y < 0 {
                    return Err(ASSyntaxError::NegativeExponent);
                }
                let mut acc: i64 = 1;
                let mut j: i64 = 0;
                while j < y
                    invariant
                        0 <= j <= y,
                        acc == pow_int(x as int, j as nat),
                        self == ASVariable::Int(x),
                        exponent == ASVariable::Int(y),
                    decreases y - j,
                {
                    proof {
                        assert(((j + 1) as nat) != 0);
                        assert(((((j + 1) as nat) - 1) as nat) == j as nat);
                        assert(pow_int(x as int, (j + 1) as nat) == x * pow_int(
                            x as int,
                            j as nat,
                        ));
                        assert(acc * x == pow_int(x as int, (j + 1) as nat))
                            by (nonlinear_arith)
                            requires
                                acc == pow_int(x as int, j as nat),
                                pow_int(x as int, (j + 1) as nat) == x * pow_int(
                                    x as int,
                                    j as nat,
                                ),
                        ;
                    }
                    match acc.checked_mul(x) {
                        Some(v) => {
                            acc = v;
                        },
                        None => {
                            proof {
                                assert(!fits_i64(acc * x));
                                assert(!fits_i64(pow_int(x as int, (j + 1) as nat)));
                                lemma_pow_overflow(x as int, (j + 1) as nat, y as nat);
                                assert(!fits_i64(pow_int(x as int, y as nat)));
                                assert(pow_val(self@, exponent@) == Result::<Val, SynErr>::Err(
                                    SynErr::IntegerOverflow { op: "calculate the power of"@ },
                                ));
                            }
                            return Err(ASSyntaxError::IntegerOverflow { op: pow_name() });
                        },
                    }
                    j = j + 1;
                }
                Ok(ASVariable::Int(acc))
            },
            (a, b) => op_err(pow_name(), a, b),
        }
    }

    /// The unary `Neg` operator: integer negation.
    pub fn neg(self) -> (r: Result<ASVariable, ASSyntaxError>)
        requires
            !(self is Empty),
        ensures
            match neg_val(self@) {
                Ok(v) => r matches Ok(o) && o@ == v,
                Err(e) => r matches Err(o) && o@ == e,
            },
    {
        match self {
            ASVariable::Int(x) => {
                if x == i64::MIN {
                    Err(ASSyntaxError::IntegerOverflow { op: neg_name() })
                } else {
                    Ok(ASVariable::Int(-x))
                }
            },
            a => unary_op_err(neg_name(), a),
        }
    }

    /// The unary `Not` operator: boolean negation.
    pub fn not(self) -> (r: Result<ASVariable, ASSyntaxError>)
        requires
            !(self is Empty),
        ensures
            match not_val(self@) {
                Ok(v) => r matches Ok(o) && o@ == v,
                Err(e) => r matches Err(o) && o@ == e,
            },
    {
        match self {
            ASVariable::Bool(b) => Ok(ASVariable::Bool(!b)),
            a => unary_op_err(not_name(), a),
        }
    }

    /// An ordering comparison, defined only between two integers.
    pub fn compare(self, rhs: Self, op: CmpOp) -> (r: Result<ASVariable, ASSyntaxError>)
        requires
            !(self is Empty),
            !(rhs is Empty),
        ensures
            match cmp_val(op, self@, rhs@) {
                Ok(v) => r matches Ok(o) && o@ == v,
                Err(e) => r matches Err(o) && o@ == e,
            },
    {
        match (self, rhs) {
            (ASVariable::Int(x), ASVariable::Int(y)) => Ok(
                ASVariable::Bool(
                    match op {
                        CmpOp::Lt => x < y,
                        CmpOp::Le => x <= y,
                        CmpOp::Gt => x > y,
                        CmpOp::Ge => x >= y,
                    },
                ),
            ),
            (a, b) => {
                let name = match op {
                    CmpOp::Lt => lt_name(),
                    CmpOp::Le => le_name(),
                    CmpOp::Gt => gt_name(),
                    CmpOp::Ge => ge_name(),
                };
                op_err(name, a, b)
            },
        }
    }
}

/// The model of a list extended by one element.
pub proof fn lemma_vals_of_push(s: Seq<ASVariable>, x: ASVariable)
    ensures
        vals_of(s.push(x)) == vals_of(s).push(val_of(x)),
{
    assert(s.push(x).drop_last() =~= s);
    assert(s.push(x).last() == x);
}

/// An overflowing intermediate power means the full power overflows too.
proof fn lemma_pow_overflow(b: int, k: nat, e: nat)
    requires
        1 <= k <= e,
        !fits_i64(pow_int(b, k)),
    ensures
        !fits_i64(pow_int(b, e)),
    decreases e - k,
{
    lemma_pow_mag(b, k);
    if abs_int(b) <= 1 {
        lemma_pow_small(b, k);
        assert(false);
    }
    if k < e {
        assert(pow_int(b, k + 1) == b * pow_int(b, k));
        assert(abs_int(b * pow_int(b, k)) == abs_int(b) * abs_int(pow_int(b, k)))
            by (nonlinear_arith);
        assert(abs_int(b) * abs_int(pow_int(b, k)) >= 2 * abs_int(pow_int(b, k)))
            by (nonlinear_arith)
            requires
                abs_int(b) >= 2,
                abs_int(pow_int(b, k)) >= 0,
        ;
        assert(abs_int(pow_int(b, k)) > 9223372036854775807);
        assert(!fits_i64(pow_int(b, k + 1)));
        lemma_pow_overflow(b, k + 1, e);
    }
}

/// The magnitude of a power is never negative.
proof fn lemma_pow_mag(b: int, e: nat)
    ensures
        abs_int(pow_int(b, e)) >= 0,
{
}

/// Powers of a base of magnitude at most one stay at magnitude at most one.
proof fn lemma_pow_small(b: int, e: nat)
    requires
        abs_int(b) <= 1,
    ensures
        abs_int(pow_int(b, e)) <= 1,
    decreases e,
{
    if e > 0 {
        lemma_pow_small(b, (e - 1) as nat);
        assert(abs_int(b * pow_int(b, (e - 1) as nat)) == abs_int(b) * abs_int(
            pow_int(b, (e - 1) as nat),
        )) by (nonlinear_arith);
        assert(abs_int(b) * abs_int(pow_int(b, (e - 1) as nat)) <= 1) by (nonlinear_arith)
            requires
                0 <= abs_int(b) <= 1,
                0 <= abs_int(pow_int(b, (e - 1) as nat)) <= 1,
        ;
    }
}

/// A successful addition of well-formed operands is well formed.
pub proof fn lemma_add_wf(a: Val, b: Val)
    ensures
        (add_val(a, b) matches Ok(v) ==> val_wf(v) && !(v is Empty)),
{
}

/// The name of the add operation, for error reports.
fn add_name() -> (s: String)
    ensures
        s@ == "add"@,
{
    String::from_str("add")
}

/// The name of the subtract operation, for error reports.
fn sub_name() -> (s: String)
    ensures
        s@ == "substract"@,
{
    String::from_str("substract")
}

/// The name of the multiply operation, for error reports.
fn mul_name() -> (s: String)
    ensures
        s@ == "multiply"@,
{
    String::from_str("multiply")
}

/// The name of the divide operation, for error reports.
fn div_name() -> (s: String)
    ensures
        s@ == "divide"@,
{
    String::from_str("divide")
}

/// The name of the power operation, for error reports.
fn pow_name() -> (s: String)
    ensures
        s@ == "calculate the power of"@,
{
    String::from_str("calculate the power of")
}

/// The name of the negate operation, for error reports.
fn neg_name() -> (s: String)
    ensures
        s@ == "negate"@,
{
    String::from_str("negate")
}

/// The name of the boolean-negate operation, for error reports.
fn not_name() -> (s: String)
    ensures
        s@ == "bool-negate"@,
{
    String::from_str("bool-negate")
}

/// The `<` symbol, for error reports.
fn lt_name() -> (s: String)
    ensures
        s@ == "<"@,
{
    String::from_str("<")
}

/// The `<=` symbol, for error reports.
fn le_name() -> (s: String)
    ensures
        s@ == "<="@,
{
    String::from_str("<=")
}

/// The `>` symbol, for error reports.
fn gt_name() -> (s: String)
    ensures
        s@ == ">"@,
{
    String::from_str(">")
}

/// The `>=` symbol, for error reports.
fn ge_name() -> (s: String)
    ensures
        s@ == ">="@,
{
    String::from_str(">=")
}

} // verus!
