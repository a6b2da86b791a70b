//! Character-level text utilities shared by the simplifier, the evaluator and
//! the renderers: string/char-vector conversions, identifier classification,
//! and decimal rendering and parsing.

use vstd::prelude::*;

verus! {

/// Relies on `String::push`: appends the given character to the end of the
/// string.
#[verifier::external_body]
pub fn push_char(s: &mut String, c: char)
    ensures
        final(s)@ == old(s)@.push(c),
{
    s.push(c);
}

/// Builds a string from a vector of characters.
pub fn chars_to_string(v: &Vec<char>) -> (s: String)
    ensures
        s@ == v@,
{
    let mut s = String::new();
    let mut i: usize = 0;
    while i < v.len()
        invariant
            0 <= i <= v.len(),
            s@ == v@.subrange(0, i as int),
        decreases v.len() - i,
    {
        push_char(&mut s, v[i]);
        proof {
            assert(v@.subrange(0, i as int).push(v@[i as int]) =~= v@.subrange(0, i + 1));
        }
        i = i + 1;
    }
    proof {
        assert(v@.subrange(0, v@.len() as int) =~= v@);
    }
    s
}

/// Collects the characters of a string slice into a vector.
pub fn string_to_chars(s: &str) -> (v: Vec<char>)
    ensures
        v@ == s@,
{
    let n = s.unicode_len();
    let mut v: Vec<char> = Vec::new();
    let mut i: usize = 0;
    while i < n
        invariant
            0 <= i <= n,
            n == s@.len(),
            v@ == s@.subrange(0, i as int),
        decreases n - i,
    {
        v.push(s.get_char(i));
        proof {
            assert(s@.subrange(0, i as int).push(s@[i as int]) =~= s@.subrange(0, i + 1));
        }
        i = i + 1;
    }
    proof {
        assert(s@.subrange(0, s@.len() as int) =~= s@);
    }
    v
}

/// Compares two character sequences for equality.
pub fn chars_eq(a: &Vec<char>, b: &Vec<char>) -> (r: bool)
    ensures
        r == (a@ == b@),
{
    if a.len() != b.len() {
        return false;
    }
    let mut i: usize = 0;
    while i < a.len()
        invariant
            0 <= i <= a.len(),
            a.len() == b.len(),
            forall|j: int| 0 <= j < i ==> a@[j] == b@[j],
        decreases a.len() - i,
    {
        if a[i] != b[i] {
            return false;
        }
        i = i + 1;
    }
    proof {
        assert(a@ =~= b@);
    }
    true
}

/// Compares two string slices for equality.
pub fn str_eq(a: &str, b: &str) -> (r: bool)
    ensures
        r == (a@ == b@),
{
    let na = a.unicode_len();
    let nb = b.unicode_len();
    if na != nb {
        return false;
    }
    let mut i: usize = 0;
    while i < na
        invariant
            0 <= i <= na,
            na == a@.len(),
            na == b@.len(),
            forall|j: int| 0 <= j < i ==> a@[j] == b@[j],
        decreases na - i,
    {
        if a.get_char(i) != b.get_char(i) {
            return false;
        }
        i = i + 1;
    }
    proof {
        assert(a@ =~= b@);
    }
    true
}

/// A character legal in a variable or label name: alphanumeric, dash or
/// underscore.
pub open spec fn is_ident_char(c: char) -> bool {
    (48 <= c as u32 && c as u32 <= 57) || (65 <= c as u32 && c as u32 <= 90) || (97 <= c as u32
        && c as u32 <= 122) || c == '-' || c == '_'
}

/// Whether every character of a name is legal in an identifier.
pub open spec fn is_ident(s: Seq<char>) -> bool {
    forall|i: int| 0 <= i < s.len() ==> is_ident_char(#[trigger] s[i])
}

/// Decides `is_ident_char`.
pub fn check_ident_char(c: char) -> (r: bool)
    ensures
        r == is_ident_char(c),
{
    let u = c as u32;
    (48 <= u && u <= 57) || (65 <= u && u <= 90) || (97 <= u && u <= 122) || c == '-' || c == '_'
}

/// Decides whether every character of `s` is legal in an identifier.
pub fn check_ident(s: &Vec<char>) -> (r: bool)
    ensures
        r == is_ident(s@),
{
    let mut i: usize = 0;
    while i < s.len()
        invariant
            0 <= i <= s.len(),
            forall|j: int| 0 <= j < i ==> is_ident_char(#[trigger] s@[j]),
        decreases s.len() - i,
    {
        if !check_ident_char(s[i]) {
            return false;
        }
        i = i + 1;
    }
    true
}

/// A decimal digit.
pub open spec fn is_digit(c: char) -> bool {
    48 <= c as u32 && c as u32 <= 57
}

/// The numeric value of a decimal digit.
pub open spec fn digit_val(c: char) -> int {
    c as u32 - 48
}

/// The decimal digit character for a value below ten.
pub open spec fn digit_char(d: int) -> char {
    ((48 + d) as u8) as char
}

/// The decimal representation of a natural number, most significant digit
/// first, with no leading zeros.
pub open spec fn dec_rep(n: int) -> Seq<char>
    decreases n,
{
    if n < 10 {
        seq![digit_char(if n < 0 { 0 } else { n })]
    } else {
        dec_rep(n / 10).push(digit_char(n % 10))
    }
}

/// Renders a natural number in decimal.
pub fn render_usize(n: usize) -> (s: Vec<char>)
    ensures
        s@ == dec_rep(n as int),
    decreases n,
{
    if n < 10 {
        let c = ((48 + n as u32) as u8) as char;
        let mut v: Vec<char> = Vec::new();
        v.push(c);
        proof {
            assert(v@ =~= dec_rep(n as int));
        }
        v
    } else {
        let mut v = render_usize(n / 10);
        let c = ((48 + (n % 10) as u32) as u8) as char;
        v.push(c);
        v
    }
}

/// Renders a 64-bit unsigned number in decimal.
pub fn render_u64(n: u64) -> (s: Vec<char>)
    ensures
        s@ == dec_rep(n as int),
    decreases n,
{
    if n < 10 {
        let c = ((48 + n as u32) as u8) as char;
        let mut v: Vec<char> = Vec::new();
        v.push(c);
        proof {
            assert(v@ =~= dec_rep(n as int));
        }
        v
    } else {
        let mut v = render_u64(n / 10);
        let c = ((48 + (n % 10) as u32) as u8) as char;
        v.push(c);
        v
    }
}

/// The decimal representation of a signed number: a minus sign for negative
/// values, then the digits of the magnitude.
pub open spec fn dec_rep_signed(n: int) -> Seq<char> {
    if n < 0 {
        seq!['-'] + dec_rep(-n)
    } else {
        dec_rep(n)
    }
}

/// Renders a 64-bit signed number in decimal.
pub fn render_i64(n: i64) -> (s: Vec<char>)
    ensures
        s@ == dec_rep_signed(n as int),
{
    if n >= 0 {
        render_u64(n as u64)
    } else {
        let mag: u64 = if n == i64::MIN {
            9223372036854775808u64
        } else {
            (-n) as u64
        };
        let digits = render_u64(mag);
        let mut v: Vec<char> = Vec::new();
        v.push('-');
        let mut i: usize = 0;
        while i < digits.len()
            invariant
                0 <= i <= digits.len(),
                v@ == seq!['-'] + digits@.subrange(0, i as int),
            decreases digits.len() - i,
        {
            v.push(digits[i]);
            proof {
                assert((seq!['-'] + digits@.subrange(0, i as int)).push(digits@[i as int]) =~= seq![
                    '-',
                ] + digits@.subrange(0, i + 1));
            }
            i = i + 1;
        }
        proof {
            assert(digits@.subrange(0, digits@.len() as int) =~= digits@);
        }
        v
    }
}

/// The numeric value of a digit string, most significant first.
pub open spec fn dec_val(s: Seq<char>) -> int
    decreases s.len(),
{
    if s.len() == 0 {
        0
    } else {
        dec_val(s.drop_last()) * 10 + digit_val(s.last())
    }
}

/// Whether every character of `s` is a decimal digit.
pub open spec fn all_digits(s: Seq<char>) -> bool {
    forall|i: int| 0 <= i < s.len() ==> is_digit(#[trigger] s[i])
}

/// Parses a non-empty, all-digit string as an unsigned number, failing when
/// the value exceeds `u64::MAX`.
pub fn parse_u64(s: &Vec<char>) -> (r: Option<u64>)
    requires
        s@.len() > 0,
        all_digits(s@),
    ensures
        match r {
            Some(n) => n == dec_val(s@) && dec_val(s@) <= u64::MAX,
            None => dec_val(s@) > u64::MAX,
        },
{
    let mut acc: u64 = 0;
    let mut i: usize = 0;
    while i < s.len()
        invariant
            0 <= i <= s.len(),
            all_digits(s@),
            acc == dec_val(s@.subrange(0, i as int)),
            dec_val(s@.subrange(0, i as int)) <= u64::MAX,
        decreases s.len() - i,
    {
        let d = (s[i] as u32 - 48) as u64;
        proof {
            assert(is_digit(s@[i as int]));
            assert(s@.subrange(0, i + 1).drop_last() =~= s@.subrange(0, i as int));
        }
        if acc > 1844674407370955161u64 || (acc == 1844674407370955161u64 && d > 5) {
            proof {
                lemma_dec_val_grows(s@, i + 1 as int);
            }
            return None;
        }
        acc = acc * 10 + d;
        i = i + 1;
    }
    proof {
        assert(s@.subrange(0, s@.len() as int) =~= s@);
    }
    Some(acc)
}

/// A digit string's value only grows as more digits follow.
proof fn lemma_dec_val_grows(s: Seq<char>, i: int)
    requires
        0 <= i <= s.len(),
        all_digits(s),
    ensures
        dec_val(s) >= dec_val(s.subrange(0, i)),
    decreases s.len() - i,
{
    if i < s.len() {
        lemma_dec_val_grows(s, i + 1);
        assert(s.subrange(0, i + 1).drop_last() =~= s.subrange(0, i));
        assert(is_digit(s[i]));
        assert(dec_val(s.subrange(0, i + 1)) == dec_val(s.subrange(0, i)) * 10 + digit_val(s[i]));
        assert(dec_val(s.subrange(0, i)) * 10 >= dec_val(s.subrange(0, i))) by {
            lemma_dec_val_nonneg(s.subrange(0, i));
        }
    } else {
        assert(s.subrange(0, s.len() as int) =~= s);
    }
}

/// A digit string's value is never negative.
proof fn lemma_dec_val_nonneg(s: Seq<char>)
    ensures
        all_digits(s) ==> dec_val(s) >= 0,
    decreases s.len(),
{
    if s.len() > 0 {
        lemma_dec_val_nonneg(s.drop_last());
        assert(all_digits(s) ==> all_digits(s.drop_last())) by {
            assert(forall|j: int|
                0 <= j < s.drop_last().len() ==> s.drop_last()[j] == #[trigger] s[j]);
        }
    }
}

/// Parses a non-empty, all-digit string as an index, failing when the value
/// exceeds `usize::MAX`.
pub fn parse_index(s: &Vec<char>) -> (r: Option<usize>)
    requires
        s@.len() > 0,
        all_digits(s@),
    ensures
        match r {
            Some(n) => n == dec_val(s@) && dec_val(s@) <= usize::MAX,
            None => dec_val(s@) > usize::MAX,
        },
{
    match parse_u64(s) {
        Some(n) => {
            if n <= usize::MAX as u64 {
                Some(n as usize)
            } else {
                None
            }
        },
        None => None,
    }
}

/// A whitespace character: space, tab, or one of the line-break controls.
pub open spec fn is_space(c: char) -> bool {
    c == ' ' || c == '\t' || c == '\n' || c == '\r' || c == '\u{b}' || c == '\u{c}'
}

/// The sequence without its leading whitespace.
pub open spec fn trim_start(s: Seq<char>) -> Seq<char>
    decreases s.len(),
{
    if s.len() > 0 && is_space(s.first()) {
        trim_start(s.drop_first())
    } else {
        s
    }
}

/// The sequence without its trailing whitespace.
pub open spec fn trim_end(s: Seq<char>) -> Seq<char>
    decreases s.len(),
{
    if s.len() > 0 && is_space(s.last()) {
        trim_end(s.drop_last())
    } else {
        s
    }
}

/// The sequence without leading and trailing whitespace.
pub open spec fn trim(s: Seq<char>) -> Seq<char> {
    trim_end(trim_start(s))
}

/// Decides `is_space`.
pub fn check_space(c: char) -> (r: bool)
    ensures
        r == is_space(c),
{
    c == ' ' || c == '\t' || c == '\n' || c == '\r' || c == '\u{b}' || c == '\u{c}'
}

/// Removes trailing whitespace.
pub fn trim_end_chars(v: &Vec<char>) -> (r: Vec<char>)
    ensures
        r@ == trim_end(v@),
{
    let mut hi: usize = v.len();
    let mut stop: bool = false;
    proof {
        assert(v@.subrange(0, v@.len() as int) =~= v@);
    }
    while hi > 0 && !stop
        invariant
            0 <= hi <= v@.len(),
            trim_end(v@) == trim_end(v@.subrange(0, hi as int)),
            stop ==> trim_end(v@.subrange(0, hi as int)) == v@.subrange(0, hi as int),
        decreases hi, (if stop { 0int } else { 1int }),
    {
        if check_space(v[hi - 1]) {
            proof {
                assert(v@.subrange(0, hi as int).last() == v@[hi - 1]);
                assert(v@.subrange(0, hi as int).drop_last() =~= v@.subrange(0, hi - 1));
            }
            hi = hi - 1;
        } else {
            proof {
                assert(v@.subrange(0, hi as int).last() == v@[hi - 1]);
                assert(trim_end(v@.subrange(0, hi as int)) == v@.subrange(0, hi as int));
            }
            stop = true;
        }
    }
    proof {
        if hi == 0 {
            assert(v@.subrange(0, 0) =~= Seq::<char>::empty());
            assert(trim_end(v@.subrange(0, 0)) == v@.subrange(0, 0));
        }
        assert(trim_end(v@) == v@.subrange(0, hi as int));
    }
    let mut out: Vec<char> = Vec::new();
    let mut i: usize = 0;
    while i < hi
        invariant
            0 <= i <= hi <= v@.len(),
            out@ == v@.subrange(0, i as int),
        decreases hi - i,
    {
        out.push(v[i]);
        proof {
            assert(v@.subrange(0, i as int).push(v@[i as int]) =~= v@.subrange(0, i + 1));
        }
        i = i + 1;
    }
    out
}

/// Removes leading whitespace.
pub fn trim_start_chars(v: &Vec<char>) -> (r: Vec<char>)
    ensures
        r@ == trim_start(v@),
{
    let mut lo: usize = 0;
    let mut stop: bool = false;
    proof {
        assert(v@.subrange(0, v@.len() as int) =~= v@);
    }
    while lo < v.len() && !stop
        invariant
            0 <= lo <= v@.len(),
            trim_start(v@) == trim_start(v@.subrange(lo as int, v@.len() as int)),
            stop ==> trim_start(v@.subrange(lo as int, v@.len() as int)) == v@.subrange(
                lo as int,
                v@.len() as int,
            ),
        decreases v@.len() - lo, (if stop { 0int } else { 1int }),
    {
        if check_space(v[lo]) {
            proof {
                let suf = v@.subrange(lo as int, v@.len() as int);
                assert(suf.first() == v@[lo as int]);
                assert(suf.drop_first() =~= v@.subrange(lo + 1, v@.len() as int));
            }
            lo = lo + 1;
        } else {
            proof {
                let suf = v@.subrange(lo as int, v@.len() as int);
                assert(suf.first() == v@[lo as int]);
                assert(trim_start(suf) == suf);
            }
            stop = true;
        }
    }
    proof {
        if lo == v@.len() {
            assert(v@.subrange(lo as int, v@.len() as int) =~= Seq::<char>::empty());
            assert(trim_start(v@.subrange(lo as int, v@.len() as int)) == v@.subrange(
                lo as int,
                v@.len() as int,
            ));
        }
        assert(trim_start(v@) == v@.subrange(lo as int, v@.len() as int));
    }
    let mut out: Vec<char> = Vec::new();
    let mut i: usize = lo;
    while i < v.len()
        invariant
            0 <= lo <= i <= v@.len(),
            out@ == v@.subrange(lo as int, i as int),
        decreases v@.len() - i,
    {
        out.push(v[i]);
        proof {
            assert(v@.subrange(lo as int, i as int).push(v@[i as int]) =~= v@.subrange(
                lo as int,
                i + 1,
            ));
        }
        i = i + 1;
    }
    proof {
        assert(out@ == v@.subrange(lo as int, v@.len() as int));
    }
    out
}

/// Removes leading and trailing whitespace.
pub fn trim_chars(v: &Vec<char>) -> (r: Vec<char>)
    ensures
        r@ == trim(v@),
{
    let t = trim_start_chars(v);
    trim_end_chars(&t)
}

} // verus!
