//! Field values and how a cell's text is read as a value of a field type.
use vstd::prelude::*;

use crate::dsl::FieldType;
use crate::error::{Error, ErrorView};
use crate::text::{decimal_text, digit_char, first_index_of};

verus! {

/// A value read from a cell. A float is kept as the text of its literal, which std's `f64`
/// parser accepts.
#[derive(Debug, PartialEq)]
pub enum FieldValue {
    String(String),
    Int(u32),
    Float(String),
    Bool(bool),
}

/// A value with its text taken by view.
pub enum FieldValueView {
    String(Seq<char>),
    Int(u32),
    Float(Seq<char>),
    Bool(bool),
}

impl DeepView for FieldValue {
    type V = FieldValueView;

    open spec fn deep_view(&self) -> FieldValueView {
        match self {
            FieldValue::String(s) => FieldValueView::String(s@),
            FieldValue::Int(n) => FieldValueView::Int(*n),
            FieldValue::Float(s) => FieldValueView::Float(s@),
            FieldValue::Bool(b) => FieldValueView::Bool(*b),
        }
    }
}

pub open spec fn is_digit(c: char) -> bool {
    '0' <= c <= '9'
}

pub open spec fn digit_value(c: char) -> int {
    c as int - '0' as int
}

/// The code of `c` with ASCII upper case letters taken to lower case.
pub open spec fn ascii_lower_code(c: char) -> u32 {
    if 'A' <= c <= 'Z' {
        (c as u32 + 32) as u32
    } else {
        c as u32
    }
}

/// `s` equals `lower` when ASCII letters of `s` are taken to lower case.
pub open spec fn eq_ignore_ascii_case(s: Seq<char>, lower: Seq<char>) -> bool {
    s.len() == lower.len() && forall|i: int| 0 <= i < s.len() ==> ascii_lower_code(s[i])
        == lower[i] as u32
}

pub open spec fn all_digits(s: Seq<char>) -> bool {
    forall|i: int| 0 <= i < s.len() ==> is_digit(#[trigger] s[i])
}

/// `s` without one leading `+` or `-`.
pub open spec fn strip_sign(s: Seq<char>) -> Seq<char> {
    if s.len() > 0 && (s[0] == '+' || s[0] == '-') {
        s.drop_first()
    } else {
        s
    }
}

/// Reads decimal digits left to right onto `acc`; a non-digit is reported before an overflow
/// of 32 bits at the same position.
pub open spec fn decimal_scan(d: Seq<char>, acc: int) -> Result<int, ErrorView>
    decreases d.len(),
{
    if d.len() == 0 {
        Ok(acc)
    } else if !is_digit(d[0]) {
        Err(ErrorView::IntInvalidDigit)
    } else if acc * 10 + digit_value(d[0]) > u32::MAX {
        Err(ErrorView::IntOverflow)
    } else {
        decimal_scan(d.drop_first(), acc * 10 + digit_value(d[0]))
    }
}

/// What std's `u32::from_str` gives: an optional `+`, then decimal digits.
pub open spec fn spec_parse_u32(s: Seq<char>) -> Result<u32, ErrorView> {
    if s.len() == 0 {
        Err(ErrorView::IntEmpty)
    } else if s.len() == 1 && (s[0] == '+' || s[0] == '-') {
        Err(ErrorView::IntInvalidDigit)
    } else {
        let d = if s[0] == '+' {
            s.drop_first()
        } else {
            s
        };
        match decimal_scan(d, 0) {
            Ok(n) => Ok(n as u32),
            Err(e) => Err(e),
        }
    }
}

/// Digits with at most one `.` among them, and at least one digit.
pub open spec fn mantissa_ok(m: Seq<char>) -> bool {
    let k = first_index_of(m, '.');
    if k == m.len() {
        m.len() > 0 && all_digits(m)
    } else {
        m.len() >= 2 && all_digits(m.take(k)) && all_digits(m.skip(k + 1))
    }
}

/// An optional sign, then at least one digit.
pub open spec fn exponent_ok(x: Seq<char>) -> bool {
    strip_sign(x).len() > 0 && all_digits(strip_sign(x))
}

/// Index of the first `e` or `E`, or the length when there is none.
pub open spec fn first_exp_index(s: Seq<char>) -> int {
    let a = first_index_of(s, 'e');
    let b = first_index_of(s, 'E');
    if a <= b {
        a
    } else {
        b
    }
}

pub open spec fn number_ok(t: Seq<char>) -> bool {
    let k = first_exp_index(t);
    if k == t.len() {
        mantissa_ok(t)
    } else {
        mantissa_ok(t.take(k)) && exponent_ok(t.skip(k + 1))
    }
}

/// The float literals that std's `f64::from_str` accepts, as its documentation gives them:
/// an optional sign, then `inf`, `infinity`, `nan` or a decimal number with an optional
/// exponent, letters in either case.
pub open spec fn float_literal_ok(s: Seq<char>) -> bool {
    let t = strip_sign(s);
    eq_ignore_ascii_case(t, "inf"@) || eq_ignore_ascii_case(t, "infinity"@)
        || eq_ignore_ascii_case(t, "nan"@) || number_ok(t)
}

/// What a cell's text means as a value of type `ty`.
pub open spec fn spec_parse_value(ty: FieldType, v: Seq<char>) -> Result<FieldValueView, ErrorView> {
    match ty {
        FieldType::String => Ok(FieldValueView::String(v)),
        FieldType::Int => match spec_parse_u32(v) {
            Ok(n) => Ok(FieldValueView::Int(n)),
            Err(e) => Err(e),
        },
        FieldType::Float => if float_literal_ok(v) {
            Ok(FieldValueView::Float(v))
        } else if v.len() == 0 {
            Err(ErrorView::FloatEmpty)
        } else {
            Err(ErrorView::FloatInvalid)
        },
        FieldType::Bool => if eq_ignore_ascii_case(v, "true"@) {
            Ok(FieldValueView::Bool(true))
        } else if eq_ignore_ascii_case(v, "false"@) {
            Ok(FieldValueView::Bool(false))
        } else {
            Err(ErrorView::InvalidBool(v))
        },
    }
}

/// Scanning a text extended by one character continues from what the text gave.
pub proof fn lemma_decimal_scan_push(d: Seq<char>, c: char, acc: int)
    ensures
        decimal_scan(d.push(c), acc) == match decimal_scan(d, acc) {
            Err(e) => Err(e),
            Ok(v) => if !is_digit(c) {
                Err(ErrorView::IntInvalidDigit)
            } else if v * 10 + digit_value(c) > u32::MAX {
                Err(ErrorView::IntOverflow)
            } else {
                Ok(v * 10 + digit_value(c))
            },
        },
    decreases d.len(),
{
    if d.len() > 0 {
        assert(d.push(c).drop_first() =~= d.drop_first().push(c));
        assert(d.push(c)[0] == d[0]);
        if is_digit(d[0]) && acc * 10 + digit_value(d[0]) <= u32::MAX {
            lemma_decimal_scan_push(d.drop_first(), c, acc * 10 + digit_value(d[0]));
        }
    } else {
        assert(d.push(c).drop_first() =~= Seq::<char>::empty());
        assert(d.push(c)[0] == c);
        assert(decimal_scan(Seq::<char>::empty(), acc * 10 + digit_value(c)) == Ok::<int, ErrorView>(
            acc * 10 + digit_value(c),
        ));
    }
}

/// The decimal text of an integer is its digits.
pub proof fn lemma_decimal_text_digits(n: nat)
    ensures
        decimal_text(n).len() > 0,
        is_digit(decimal_text(n)[0]),
        decimal_scan(decimal_text(n), 0) == if n <= u32::MAX {
            Ok::<int, ErrorView>(n as int)
        } else {
            Err::<int, ErrorView>(ErrorView::IntOverflow)
        },
    decreases n,
{
    let d = decimal_text(n);
    if n < 10 {
        assert(digit_value(digit_char(n)) == n);
        assert(is_digit(digit_char(n)));
        assert(d[0] == digit_char(n));
        assert(d.drop_first() =~= Seq::<char>::empty());
        assert(decimal_scan(Seq::<char>::empty(), n as int) == Ok::<int, ErrorView>(n as int));
    } else {
        lemma_decimal_text_digits(n / 10);
        lemma_decimal_scan_push(decimal_text(n / 10), digit_char(n % 10), 0);
        assert(digit_value(digit_char(n % 10)) == n % 10);
        assert(d[0] == decimal_text(n / 10)[0]);
        assert((n / 10) * 10 + n % 10 == n) by (nonlinear_arith);
    }
}

/// Reading a cell never changes its text where the type keeps text: an accepted string is the
/// cell itself, and an accepted float keeps the cell's literal as it stands, sign and all.
pub proof fn law_parsed_text_is_the_cell(v: Seq<char>)
    ensures
        spec_parse_value(FieldType::String, v) == Ok::<FieldValueView, ErrorView>(
            FieldValueView::String(v),
        ),
        spec_parse_value(FieldType::Float, v) is Ok ==> spec_parse_value(FieldType::Float, v)
            == Ok::<FieldValueView, ErrorView>(FieldValueView::Float(v)),
{
}

/// `a` and `b` are the same text up to the case of ASCII letters.
pub open spec fn same_but_ascii_case(a: Seq<char>, b: Seq<char>) -> bool {
    a.len() == b.len() && forall|i: int|
        0 <= i < a.len() ==> #[trigger] a[i] == b[i] || ('A' <= a[i] <= 'Z' && b[i] as u32 == a[i]
            as u32 + 32) || ('A' <= b[i] <= 'Z' && a[i] as u32 == b[i] as u32 + 32)
}

/// A sign in front of a float does not change whether it is accepted: `t`, `-t` and `+t` are
/// accepted alike when `t` has no sign of its own, and each keeps its own text.
pub proof fn law_float_sign_is_kept(t: Seq<char>)
    requires
        t.len() == 0 || (t[0] != '+' && t[0] != '-'),
    ensures
        spec_parse_value(FieldType::Float, seq!['-'] + t) is Ok <==> spec_parse_value(FieldType::Float, t) is Ok,
        spec_parse_value(FieldType::Float, seq!['+'] + t) is Ok <==> spec_parse_value(FieldType::Float, t) is Ok,
        spec_parse_value(FieldType::Float, seq!['-'] + t) is Ok ==> spec_parse_value(FieldType::Float, seq!['-'] + t)
            == Ok::<FieldValueView, ErrorView>(FieldValueView::Float(seq!['-'] + t)),
{
    assert((seq!['-'] + t).drop_first() =~= t);
    assert((seq!['+'] + t).drop_first() =~= t);
    assert(strip_sign(t) == t);
}

/// An integer cell reads as the number its decimal text names, with or without a leading `+`.
pub proof fn law_int_cells_read_their_number(n: u32)
    ensures
        spec_parse_value(FieldType::Int, decimal_text(n as nat)) == Ok::<FieldValueView, ErrorView>(
            FieldValueView::Int(n),
        ),
        spec_parse_value(FieldType::Int, seq!['+'] + decimal_text(n as nat)) == Ok::<
            FieldValueView,
            ErrorView,
        >(FieldValueView::Int(n)),
{
    law_int_text_reads_back(n);
    lemma_decimal_text_digits(n as nat);
    let d = decimal_text(n as nat);
    assert((seq!['+'] + d).drop_first() =~= d);
    assert(!is_digit('+'));
}

/// A boolean cell is `true` or `false` in any case of its ASCII letters, and nothing else.
pub proof fn law_bool_cells(v: Seq<char>)
    ensures
        spec_parse_value(FieldType::Bool, v) == Ok::<FieldValueView, ErrorView>(FieldValueView::Bool(true))
            <==> same_but_ascii_case(v, seq!['t', 'r', 'u', 'e']),
        spec_parse_value(FieldType::Bool, v) == Ok::<FieldValueView, ErrorView>(FieldValueView::Bool(false))
            <==> same_but_ascii_case(v, seq!['f', 'a', 'l', 's', 'e']),
        spec_parse_value(FieldType::Bool, v) is Ok ==> same_but_ascii_case(v, seq!['t', 'r', 'u', 'e'])
            || same_but_ascii_case(v, seq!['f', 'a', 'l', 's', 'e']),
{
    reveal_strlit("true");
    reveal_strlit("false");
    assert("true"@ =~= seq!['t', 'r', 'u', 'e']);
    assert("false"@ =~= seq!['f', 'a', 'l', 's', 'e']);
    lemma_lower_same_case(v, seq!['t', 'r', 'u', 'e']);
    lemma_lower_same_case(v, seq!['f', 'a', 'l', 's', 'e']);
}

/// Characters with the same code are the same character.
proof fn lemma_same_code_same_char(a: char, b: char)
    requires
        a as u32 == b as u32,
    ensures
        a == b,
{
}

/// Against a text of lower-case letters, ignoring ASCII case is being the same up to case.
pub proof fn lemma_lower_same_case(v: Seq<char>, l: Seq<char>)
    requires
        forall|i: int| 0 <= i < l.len() ==> 'a' <= #[trigger] l[i] <= 'z',
    ensures
        eq_ignore_ascii_case(v, l) <==> same_but_ascii_case(v, l),
{
    if eq_ignore_ascii_case(v, l) {
        assert forall|i: int| 0 <= i < v.len() implies #[trigger] v[i] == l[i] || ('A' <= v[i] <= 'Z'
            && l[i] as u32 == v[i] as u32 + 32) || ('A' <= l[i] <= 'Z' && v[i] as u32 == l[i] as u32
            + 32) by {
            assert(ascii_lower_code(v[i]) == l[i] as u32);
            assert('a' <= l[i] <= 'z');
            if !('A' <= v[i] <= 'Z') {
                lemma_same_code_same_char(v[i], l[i]);
            }
        }
    }
    if same_but_ascii_case(v, l) {
        assert forall|i: int| 0 <= i < v.len() implies ascii_lower_code(v[i]) == l[i] as u32 by {
            assert(v[i] == l[i] || ('A' <= v[i] <= 'Z' && l[i] as u32 == v[i] as u32 + 32) || ('A'
                <= l[i] <= 'Z' && v[i] as u32 == l[i] as u32 + 32));
            assert('a' <= l[i] <= 'z');
        }
    }
}

/// The text that identifies an integer, its decimal text, reads back as the same integer.
pub proof fn law_int_text_reads_back(n: u32)
    ensures
        spec_parse_u32(decimal_text(n as nat)) == Ok::<u32, ErrorView>(n),
{
    lemma_decimal_text_digits(n as nat);
}

fn is_digit_char(c: char) -> (r: bool)
    ensures
        r == is_digit(c),
{
    '0' <= c && c <= '9'
}

fn ascii_lower(c: char) -> (r: u32)
    ensures
        r == ascii_lower_code(c),
{
    if 'A' <= c && c <= 'Z' {
        (c as u32) + 32
    } else {
        c as u32
    }
}

/// Whether `s` equals `lower` when its ASCII letters are taken to lower case.
pub fn str_eq_ignore_ascii_case(s: &str, lower: &str) -> (r: bool)
    ensures
        r == eq_ignore_ascii_case(s@, lower@),
{
    let n = s.unicode_len();
    let m = lower.unicode_len();
    if n != m {
        return false;
    }
    let mut i: usize = 0;
    while i < n
        invariant
            n == s@.len(),
            m == lower@.len(),
            n == m,
            i <= n,
            forall|j: int| 0 <= j < i ==> ascii_lower_code(s@[j]) == lower@[j] as u32,
        decreases n - i,
    {
        if ascii_lower(s.get_char(i)) != lower.get_char(i) as u32 {
            return false;
        }
        i = i + 1;
    }
    true
}

/// Whether every character of `s` is a decimal digit.
pub fn str_all_digits(s: &str) -> (r: bool)
    ensures
        r == all_digits(s@),
{
    let n = s.unicode_len();
    let mut i: usize = 0;
    while i < n
        invariant
            n == s@.len(),
            i <= n,
            forall|j: int| 0 <= j < i ==> is_digit(#[trigger] s@[j]),
        decreases n - i,
    {
        if !is_digit_char(s.get_char(i)) {
            return false;
        }
        i = i + 1;
    }
    true
}

fn str_strip_sign(s: &str) -> (r: &str)
    ensures
        r@ == strip_sign(s@),
{
    let n = s.unicode_len();
    if n > 0 {
        let c = s.get_char(0);
        if c == '+' || c == '-' {
            let r = s.substring_char(1, n);
            assert(r@ =~= s@.drop_first());
            return r;
        }
    }
    s
}

fn str_mantissa_ok(m: &str) -> (r: bool)
    ensures
        r == mantissa_ok(m@),
{
    let n = m.unicode_len();
    let k = crate::text::find_char(m, '.');
    if k == n {
        n > 0 && str_all_digits(m)
    } else {
        let before = m.substring_char(0, k);
        let after = m.substring_char(k + 1, n);
        assert(before@ =~= m@.take(k as int));
        assert(after@ =~= m@.skip(k + 1));
        n >= 2 && str_all_digits(before) && str_all_digits(after)
    }
}

fn str_exponent_ok(x: &str) -> (r: bool)
    ensures
        r == exponent_ok(x@),
{
    let y = str_strip_sign(x);
    !y.is_empty() && str_all_digits(y)
}

/// Whether std's `f64::from_str` accepts `s`.
pub fn is_float_literal(s: &str) -> (r: bool)
    ensures
        r == float_literal_ok(s@),
{
    let t = str_strip_sign(s);
    if str_eq_ignore_ascii_case(t, "inf") || str_eq_ignore_ascii_case(t, "infinity")
        || str_eq_ignore_ascii_case(t, "nan") {
        return true;
    }
    let n = t.unicode_len();
    let a = crate::text::find_char(t, 'e');
    let b = crate::text::find_char(t, 'E');
    let k = if a <= b {
        a
    } else {
        b
    };
    if k == n {
        str_mantissa_ok(t)
    } else {
        let m = t.substring_char(0, k);
        let x = t.substring_char(k + 1, n);
        assert(m@ =~= t@.take(k as int));
        assert(x@ =~= t@.skip(k + 1));
        str_mantissa_ok(m) && str_exponent_ok(x)
    }
}

/// Reads `s` as std's `u32::from_str` does.
pub fn parse_u32(s: &str) -> (r: Result<u32, Error>)
    ensures
        match (r, spec_parse_u32(s@)) {
            (Ok(n), Ok(m)) => n == m,
            (Err(e), Err(v)) => e.deep_view() == v,
            _ => false,
        },
{
    let n = s.unicode_len();
    if n == 0 {
        return Err(Error::IntEmpty);
    }
    let c0 = s.get_char(0);
    if n == 1 && (c0 == '+' || c0 == '-') {
        return Err(Error::IntInvalidDigit);
    }
    let d = if c0 == '+' {
        s.substring_char(1, n)
    } else {
        s
    };
    assert(d@ =~= (if s@[0] == '+' { s@.drop_first() } else { s@ }));
    let len = d.unicode_len();
    let mut acc: u64 = 0;
    let mut j: usize = 0;
    assert(d@.skip(0) =~= d@);
    while j < len
        invariant
            len == d@.len(),
            j <= len,
            acc <= u32::MAX,
            decimal_scan(d@, 0) == decimal_scan(d@.skip(j as int), acc as int),
            spec_parse_u32(s@) == (match decimal_scan(d@, 0) {
                Ok(v) => Ok::<u32, ErrorView>(v as u32),
                Err(e) => Err(e),
            }),
        decreases len - j,
    {
        let c = d.get_char(j);
        assert(d@.skip(j as int)[0] == c);
        assert(d@.skip(j as int).drop_first() =~= d@.skip(j + 1));
        if !is_digit_char(c) {
            return Err(Error::IntInvalidDigit);
        }
        let next = acc * 10 + ((c as u32) - ('0' as u32)) as u64;
        if next > u32::MAX as u64 {
            return Err(Error::IntOverflow);
        }
        acc = next;
        j = j + 1;
    }
    assert(d@.skip(len as int) =~= Seq::<char>::empty());
    Ok(acc as u32)
}

impl FieldType {
    /// Reads a cell's text as a value of this type.
    pub fn parse(&self, value: &str) -> (r: Result<FieldValue, Error>)
        ensures
            match (r, spec_parse_value(*self, value@)) {
                (Ok(v), Ok(w)) => v.deep_view() == w,
                (Err(e), Err(w)) => e.deep_view() == w,
                _ => false,
            },
    {
        match self {
            FieldType::String => Ok(FieldValue::String(value.to_owned())),
            FieldType::Int => match parse_u32(value) {
                Ok(n) => Ok(FieldValue::Int(n)),
                Err(e) => Err(e),
            },
            FieldType::Float => {
                if is_float_literal(value) {
                    Ok(FieldValue::Float(value.to_owned()))
                } else if value.is_empty() {
                    Err(Error::FloatEmpty)
                } else {
                    Err(Error::FloatInvalid)
                }
            },
            FieldType::Bool => {
                if str_eq_ignore_ascii_case(value, "true") {
                    Ok(FieldValue::Bool(true))
                } else if str_eq_ignore_ascii_case(value, "false") {
                    Ok(FieldValue::Bool(false))
                } else {
                    Err(Error::InvalidBool(value.to_owned()))
                }
            },
        }
    }
}

} // verus!
