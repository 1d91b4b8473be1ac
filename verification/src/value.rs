//! Element values: the kinds a column can hold, a single cell value, and the
//! text forms used by rendering and the codecs.
//!
//! A real-valued cell is carried as its numeric text (see [`numeric_text`]):
//! the container never does real arithmetic itself, so the text form is the
//! canonical representation and round-trips exactly.

use vstd::prelude::*;

verus! {

/// The element kinds a column can hold.
#[derive(Clone, Copy, Debug, PartialEq, Eq, Structural)]
pub enum Kind {
    /// Signed 64-bit integers. All integer cells share this one kind, so
    /// unsigned values above `i64::MAX` are out of range.
    Int,
    /// Real numbers, carried as numeric text.
    Real,
    /// Booleans.
    Bool,
    /// Free-form text.
    Str,
}

/// One cell value.
#[derive(Clone, Debug, PartialEq)]
pub enum Value {
    Int(i64),
    /// The numeric text of a real number; see [`numeric_text`].
    Real(String),
    Bool(bool),
    Str(String),
}

/// The mathematical model of a cell value.
#[verifier::ext_equal]
pub enum ValueView {
    Int(i64),
    Real(Seq<char>),
    Bool(bool),
    Str(Seq<char>),
}

impl View for Value {
    type V = ValueView;

    open spec fn view(&self) -> ValueView {
        match self {
            Value::Int(i) => ValueView::Int(*i),
            Value::Real(s) => ValueView::Real(s@),
            Value::Bool(b) => ValueView::Bool(*b),
            Value::Str(s) => ValueView::Str(s@),
        }
    }
}

/// The kind a modelled cell value belongs to.
pub open spec fn kind_of(v: ValueView) -> Kind {
    match v {
        ValueView::Int(_) => Kind::Int,
        ValueView::Real(_) => Kind::Real,
        ValueView::Bool(_) => Kind::Bool,
        ValueView::Str(_) => Kind::Str,
    }
}

/// A well-formed cell value: a real cell must carry numeric text.
pub open spec fn value_wf(v: ValueView) -> bool {
    match v {
        ValueView::Real(s) => numeric_text(s),
        _ => true,
    }
}

impl Value {
    /// The kind this value belongs to.
    pub fn kind(&self) -> (k: Kind)
        ensures
            k == kind_of(self@),
    {
        match self {
            Value::Int(_) => Kind::Int,
            Value::Real(_) => Kind::Real,
            Value::Bool(_) => Kind::Bool,
            Value::Str(_) => Kind::Str,
        }
    }

    /// An identical copy of this value.
    pub fn duplicate(&self) -> (r: Value)
        ensures
            r@ == self@,
    {
        match self {
            Value::Int(i) => Value::Int(*i),
            Value::Real(s) => Value::Real(s.clone()),
            Value::Bool(b) => Value::Bool(*b),
            Value::Str(s) => Value::Str(s.clone()),
        }
    }

    /// Whether this value is well formed (real cells carry numeric text).
    pub fn check_wf(&self) -> (r: bool)
        ensures
            r == value_wf(self@),
    {
        match self {
            Value::Real(s) => {
                let chars = str_chars(s.as_str());
                is_numeric(&chars)
            },
            _ => true,
        }
    }

    /// Wraps numeric text as a real value; rejects text that is not a
    /// numeric literal.
    pub fn real_from_text(s: String) -> (r: Option<Value>)
        ensures
            r is Some <==> numeric_text(s@),
            r is Some ==> r->0@ == ValueView::Real(s@) && value_wf(r->0@),
    {
        let chars = str_chars(s.as_str());
        if is_numeric(&chars) {
            Some(Value::Real(s))
        } else {
            None
        }
    }
}

// ---------------------------------------------------------------------------
// Characters
// ---------------------------------------------------------------------------

/// A decimal digit.
pub open spec fn is_digit(c: char) -> bool {
    48 <= c as u32 && c as u32 <= 57
}

/// A leading sign.
pub open spec fn is_sign(c: char) -> bool {
    c == '+' || c == '-'
}

/// The numeric value of a digit character.
pub open spec fn digit_val(c: char) -> int {
    c as u32 - 48
}

/// The character for a digit value.
pub open spec fn digit_char(d: int) -> char {
    ((48 + d) as u8) as char
}

// ---------------------------------------------------------------------------
// Exec text helpers
// ---------------------------------------------------------------------------

/// Relies on `String::push`: appends the given character to the end of the
/// string.
#[verifier::external_body]
pub fn push_char(s: &mut String, c: char)
    ensures
        final(s)@ == old(s)@.push(c),
{
    s.push(c);
}

/// Collects the characters of a string slice.
pub fn str_chars(s: &str) -> (r: Vec<char>)
    ensures
        r@ == s@,
{
    let n = s.unicode_len();
    let mut r: Vec<char> = Vec::new();
    let mut i: usize = 0;
    while i < n
        invariant
            n == s@.len(),
            i <= n,
            r@ == s@.take(i as int),
        decreases n - i,
    {
        r.push(s.get_char(i));
        proof {
            assert(r@ =~= s@.take(i + 1));
        }
        i = i + 1;
    }
    proof {
        assert(r@ =~= s@);
    }
    r
}

/// Builds a string from a character sequence.
pub fn chars_to_string(v: &Vec<char>) -> (r: String)
    ensures
        r@ == v@,
{
    let mut r = String::new();
    let mut i: usize = 0;
    while i < v.len()
        invariant
            i <= v@.len(),
            r@ == v@.take(i as int),
        decreases v@.len() - i,
    {
        push_char(&mut r, v[i]);
        proof {
            assert(r@ =~= v@.take(i + 1));
        }
        i = i + 1;
    }
    proof {
        assert(r@ =~= v@);
    }
    r
}

/// Appends the characters of a string slice to a character buffer.
pub fn append_str(out: &mut Vec<char>, s: &str)
    ensures
        final(out)@ == old(out)@ + s@,
{
    let n = s.unicode_len();
    let mut i: usize = 0;
    while i < n
        invariant
            n == s@.len(),
            i <= n,
            out@ == old(out)@ + s@.take(i as int),
        decreases n - i,
    {
        out.push(s.get_char(i));
        proof {
            assert(out@ =~= old(out)@ + s@.take(i + 1));
        }
        i = i + 1;
    }
    proof {
        assert(out@ =~= old(out)@ + s@);
    }
}

/// Appends one character sequence to another.
pub fn append_chars(out: &mut Vec<char>, s: &Vec<char>)
    ensures
        final(out)@ == old(out)@ + s@,
{
    let mut i: usize = 0;
    while i < s.len()
        invariant
            i <= s@.len(),
            out@ == old(out)@ + s@.take(i as int),
        decreases s@.len() - i,
    {
        out.push(s[i]);
        proof {
            assert(out@ =~= old(out)@ + s@.take(i + 1));
        }
        i = i + 1;
    }
    proof {
        assert(out@ =~= old(out)@ + s@);
    }
}

// ---------------------------------------------------------------------------
// Numeric text
// ---------------------------------------------------------------------------

/// The position after the run of digits starting at `i`.
pub open spec fn digits_run(s: Seq<char>, i: int) -> int
    decreases s.len() - i,
{
    if 0 <= i < s.len() && is_digit(s[i]) {
        digits_run(s, i + 1)
    } else {
        i
    }
}

/// The position after an optional fractional part starting at `i`, or -1 if a
/// decimal point is not followed by at least one digit.
pub open spec fn after_frac(s: Seq<char>, i: int) -> int {
    if 0 <= i < s.len() && s[i] == '.' {
        let j = digits_run(s, i + 1);
        if j > i + 1 {
            j
        } else {
            -1
        }
    } else {
        i
    }
}

/// Whether the text from `i` to the end is an optional exponent part.
pub open spec fn exp_closes(s: Seq<char>, i: int) -> bool {
    if i < 0 {
        false
    } else if i == s.len() {
        true
    } else if 0 <= i < s.len() && (s[i] == 'e' || s[i] == 'E') {
        let j = if i + 1 < s.len() && is_sign(s[i + 1]) {
            i + 2
        } else {
            i + 1
        };
        j < s.len() + 1 && digits_run(s, j) == s.len() && j < s.len()
    } else {
        false
    }
}

/// A numeric literal: an optional sign, one or more digits, an optional
/// fractional part with at least one digit, and an optional exponent with an
/// optional sign and at least one digit.
pub open spec fn numeric_text(s: Seq<char>) -> bool {
    let start: int = if s.len() > 0 && is_sign(s[0]) {
        1
    } else {
        0
    };
    let after_int = digits_run(s, start);
    after_int > start && exp_closes(s, after_frac(s, after_int))
}

/// The position after the run of digits starting at `i`.
pub fn digits_run_x(s: &Vec<char>, i: usize) -> (r: usize)
    requires
        i <= s@.len(),
    ensures
        r == digits_run(s@, i as int),
        i <= r <= s@.len(),
    decreases s@.len() - i,
{
    if i < s.len() && is_digit_x(s[i]) {
        digits_run_x(s, i + 1)
    } else {
        i
    }
}

/// A decimal digit.
pub fn is_digit_x(c: char) -> (r: bool)
    ensures
        r == is_digit(c),
{
    let u = c as u32;
    48 <= u && u <= 57
}

/// A leading sign.
pub fn is_sign_x(c: char) -> (r: bool)
    ensures
        r == is_sign(c),
{
    c == '+' || c == '-'
}

/// Whether a character sequence is a numeric literal.
pub fn is_numeric(s: &Vec<char>) -> (r: bool)
    ensures
        r == numeric_text(s@),
{
    let start: usize = if s.len() > 0 && is_sign_x(s[0]) {
        1
    } else {
        0
    };
    let after_int = digits_run_x(s, start);
    if after_int == start {
        return false;
    }
    let frac: usize = if after_int < s.len() && s[after_int] == '.' {
        let j = digits_run_x(s, after_int + 1);
        if j > after_int + 1 {
            j
        } else {
            return false;
        }
    } else {
        after_int
    };
    if frac == s.len() {
        return true;
    }
    if s[frac] == 'e' || s[frac] == 'E' {
        let j: usize = if frac + 1 < s.len() && is_sign_x(s[frac + 1]) {
            frac + 2
        } else {
            frac + 1
        };
        if j <= s.len() {
            j < s.len() && digits_run_x(s, j) == s.len()
        } else {
            false
        }
    } else {
        false
    }
}

// ---------------------------------------------------------------------------
// Integer text
// ---------------------------------------------------------------------------

/// The decimal digits of a non-negative integer, most significant first.
pub open spec fn dec_digits(n: nat) -> Seq<char>
    decreases n,
{
    if n < 10 {
        seq![digit_char(n as int)]
    } else {
        dec_digits(n / 10).push(digit_char((n % 10) as int))
    }
}

/// The decimal text of an integer, with a leading minus sign if negative.
pub open spec fn int_text(v: int) -> Seq<char> {
    if v < 0 {
        seq!['-'] + dec_digits((-v) as nat)
    } else {
        dec_digits(v as nat)
    }
}

/// Every character of `dec_digits` is a digit, the text is non-empty, and it
/// denotes its number.
pub proof fn lemma_dec_digits(n: nat)
    ensures
        dec_digits(n).len() >= 1,
        forall|i: int| 0 <= i < dec_digits(n).len() ==> is_digit(#[trigger] dec_digits(n)[i]),
        digits_val_of(dec_digits(n)) == n,
    decreases n,
{
    if n < 10 {
        let s = dec_digits(n);
        assert(s == seq![digit_char(n as int)]);
        assert(is_digit(digit_char(n as int)));
        assert(digit_val(digit_char(n as int)) == n);
        assert(s.drop_last() =~= Seq::<char>::empty());
        assert(digits_val_of(s.drop_last()) == 0);
        assert(s.last() == digit_char(n as int));
    } else {
        lemma_dec_digits(n / 10);
        let s = dec_digits(n);
        let p = dec_digits(n / 10);
        assert(s == p.push(digit_char((n % 10) as int)));
        assert(is_digit(digit_char((n % 10) as int)));
        assert(digit_val(digit_char((n % 10) as int)) == n % 10);
        assert(s.drop_last() == p);
        assert(digits_val_of(s) == digits_val_of(p) * 10 + (n % 10));
    }
}

/// The number denoted by a sequence of digit characters.
pub open spec fn digits_val_of(s: Seq<char>) -> int
    decreases s.len(),
{
    if s.len() == 0 {
        0
    } else {
        digits_val_of(s.drop_last()) * 10 + digit_val(s.last())
    }
}

/// Writes a non-negative integer in decimal.
pub fn u64_to_chars(n: u64) -> (r: Vec<char>)
    ensures
        r@ == dec_digits(n as nat),
    decreases n,
{
    if n < 10 {
        let c = ((48 + n as u8)) as char;
        let mut r: Vec<char> = Vec::new();
        r.push(c);
        proof {
            assert(c == digit_char(n as int));
            assert(r@ =~= dec_digits(n as nat));
        }
        r
    } else {
        let mut r = u64_to_chars(n / 10);
        let c = ((48 + (n % 10) as u8)) as char;
        r.push(c);
        proof {
            assert(c == digit_char((n % 10) as int));
        }
        r
    }
}

/// Writes an integer in decimal, with a leading minus sign if negative.
pub fn i64_to_chars(v: i64) -> (r: Vec<char>)
    ensures
        r@ == int_text(v as int),
{
    if v >= 0 {
        u64_to_chars(v as u64)
    } else {
        let m: u64 = (-(v as i128)) as u64;
        let mut r: Vec<char> = Vec::new();
        r.push('-');
        let d = u64_to_chars(m);
        append_chars(&mut r, &d);
        proof {
            assert(r@ =~= seq!['-'] + dec_digits((-(v as int)) as nat));
        }
        r
    }
}

// ---------------------------------------------------------------------------
// Integer parsing
// ---------------------------------------------------------------------------

/// Every character is a digit.
pub open spec fn all_digits(s: Seq<char>) -> bool {
    forall|i: int| 0 <= i < s.len() ==> is_digit(s[i])
}

/// An integer literal: an optional sign followed by one or more digits.
pub open spec fn int_text_valid(s: Seq<char>) -> bool {
    if s.len() > 0 && is_sign(s[0]) {
        s.len() > 1 && all_digits(s.skip(1))
    } else {
        s.len() > 0 && all_digits(s)
    }
}

/// The signed value an integer literal denotes.
pub open spec fn int_text_val(s: Seq<char>) -> int {
    if s.len() > 0 && s[0] == '-' {
        -digits_val_of(s.skip(1))
    } else if s.len() > 0 && s[0] == '+' {
        digits_val_of(s.skip(1))
    } else {
        digits_val_of(s)
    }
}

/// The machine integer an integer literal denotes, if it is one and fits.
pub open spec fn parse_int_spec(s: Seq<char>) -> Option<i64> {
    if int_text_valid(s) && i64::MIN <= int_text_val(s) <= i64::MAX {
        Some(int_text_val(s) as i64)
    } else {
        None
    }
}

/// A digit text denotes a non-negative number.
pub proof fn lemma_digits_val_nonneg(s: Seq<char>)
    requires
        all_digits(s),
    ensures
        digits_val_of(s) >= 0,
    decreases s.len(),
{
    if s.len() > 0 {
        assert(all_digits(s.drop_last()));
        lemma_digits_val_nonneg(s.drop_last());
    }
}

/// A prefix of a digit text denotes no more than the whole.
pub proof fn lemma_digits_val_prefix(s: Seq<char>, k: int)
    requires
        all_digits(s),
        0 <= k <= s.len(),
    ensures
        digits_val_of(s.take(k)) <= digits_val_of(s),
    decreases s.len() - k,
{
    if k < s.len() {
        let t = s.take(k + 1);
        assert(t.drop_last() =~= s.take(k));
        assert(all_digits(t));
        assert(digits_val_of(t) == digits_val_of(s.take(k)) * 10 + digit_val(s[k]));
        assert(all_digits(s.take(k)));
        lemma_digits_val_nonneg(s.take(k));
        lemma_digits_val_prefix(s, k + 1);
    } else {
        assert(s.take(k) =~= s);
    }
}

/// Reads an integer literal, or nothing where the text is not one or its
/// value does not fit.
pub fn parse_int(s: &Vec<char>) -> (r: Option<i64>)
    ensures
        r == parse_int_spec(s@),
{
    let n = s.len();
    if n == 0 {
        return None;
    }
    let neg = s[0] == '-';
    let start: usize = if is_sign_x(s[0]) {
        1
    } else {
        0
    };
    if start == n {
        return None;
    }
    let ghost digits = s@.skip(start as int);
    proof {
        if start == 1 {
            assert(digits =~= s@.skip(1));
        } else {
            assert(digits =~= s@);
        }
        assert(int_text_valid(s@) ==> all_digits(digits));
    }
    let mut acc: u128 = 0;
    let mut i: usize = start;
    while i < n
        invariant
            n == s@.len(),
            start <= i <= n,
            start < n,
            (start == 1) == is_sign(s@[0]),
            start <= 1,
            digits == s@.skip(start as int),
            forall|k: int| start <= k < i ==> is_digit(s@[k]),
            acc == digits_val_of(s@.subrange(start as int, i as int)),
            acc <= 0x8000_0000_0000_0000u128,
        decreases n - i,
    {
        let c = s[i];
        if !is_digit_x(c) {
            proof {
                if start == 0 {
                    assert(digits =~= s@);
                }
                assert(!all_digits(digits)) by {
                    assert(digits[i - start] == s@[i as int]);
                }
                assert(!int_text_valid(s@));
            }
            return None;
        }
        let d = (c as u32 - 48) as u128;
        proof {
            let p = s@.subrange(start as int, i as int);
            let q = s@.subrange(start as int, i + 1);
            assert(q.drop_last() =~= p);
            assert(q.last() == s@[i as int]);
            assert(digits_val_of(q) == digits_val_of(p) * 10 + digit_val(s@[i as int]));
        }
        acc = acc * 10 + d;
        i = i + 1;
        if acc > 0x8000_0000_0000_0000u128 {
            proof {
                if start == 0 {
                    assert(digits =~= s@);
                }
                if int_text_valid(s@) {
                    assert(all_digits(digits));
                    let p = s@.subrange(start as int, i as int);
                    assert(p =~= digits.take(i - start));
                    lemma_digits_val_prefix(digits, i - start);
                    if s@[0] == '-' {
                        assert(int_text_val(s@) == -digits_val_of(digits));
                        assert(int_text_val(s@) < i64::MIN);
                    } else {
                        assert(int_text_val(s@) == digits_val_of(digits));
                        assert(int_text_val(s@) > i64::MAX);
                    }
                }
            }
            return None;
        }
    }
    proof {
        if start == 0 {
            assert(digits =~= s@);
        }
        assert(s@.subrange(start as int, n as int) =~= digits);
        assert(all_digits(digits)) by {
            assert(forall|k: int|
                0 <= k < digits.len() ==> #[trigger] digits[k] == s@[k + start as int]);
        }
        assert(int_text_valid(s@));
    }
    if neg {
        let v = -(acc as i128);
        proof {
            assert(int_text_val(s@) == -(acc as int));
        }
        Some(v as i64)
    } else {
        if acc > i64::MAX as u128 {
            proof {
                assert(int_text_val(s@) == acc as int);
            }
            None
        } else {
            proof {
                assert(int_text_val(s@) == acc as int);
            }
            Some(acc as u64 as i64)
        }
    }
}

/// Writing an integer and reading it back yields the integer.
pub proof fn lemma_int_text_roundtrip(v: i64)
    ensures
        parse_int_spec(int_text(v as int)) == Some(v),
{
    assert('+' as u32 == 43);
    assert('-' as u32 == 45);
    if v >= 0 {
        let s = dec_digits(v as nat);
        lemma_dec_digits(v as nat);
        assert(is_digit(s[0]));
        assert(!is_sign(s[0]));
        assert(int_text_valid(s));
        assert(int_text_val(s) == v);
    } else {
        let d = dec_digits((-(v as int)) as nat);
        let s = seq!['-'] + d;
        lemma_dec_digits((-(v as int)) as nat);
        assert(s[0] == '-');
        assert(s.skip(1) =~= d);
        assert(int_text_valid(s));
        assert(int_text_val(s) == -digits_val_of(d));
        assert(int_text_val(s) == v);
    }
}

// ---------------------------------------------------------------------------
// Cell text
// ---------------------------------------------------------------------------

/// The text of a boolean.
pub open spec fn bool_text(b: bool) -> Seq<char> {
    if b {
        "true"@
    } else {
        "false"@
    }
}

/// The canonical text of a cell value.
pub open spec fn cell_text(v: ValueView) -> Seq<char> {
    match v {
        ValueView::Int(i) => int_text(i as int),
        ValueView::Real(s) => s,
        ValueView::Bool(b) => bool_text(b),
        ValueView::Str(s) => s,
    }
}

/// The cell a text denotes under a column kind, if it denotes one.
pub open spec fn parse_cell_spec(k: Kind, t: Seq<char>) -> Option<ValueView> {
    match k {
        Kind::Int => match parse_int_spec(t) {
            Some(i) => Some(ValueView::Int(i)),
            None => None,
        },
        Kind::Real => if numeric_text(t) {
            Some(ValueView::Real(t))
        } else {
            None
        },
        Kind::Bool => if t == "true"@ {
            Some(ValueView::Bool(true))
        } else if t == "false"@ {
            Some(ValueView::Bool(false))
        } else {
            None
        },
        Kind::Str => Some(ValueView::Str(t)),
    }
}

/// The canonical text of a cell value, as characters.
pub fn value_text(v: &Value) -> (r: Vec<char>)
    ensures
        r@ == cell_text(v@),
{
    match v {
        Value::Int(i) => i64_to_chars(*i),
        Value::Real(s) => str_chars(s.as_str()),
        Value::Bool(b) => {
            let mut out: Vec<char> = Vec::new();
            if *b {
                append_str(&mut out, "true");
            } else {
                append_str(&mut out, "false");
            }
            out
        },
        Value::Str(s) => str_chars(s.as_str()),
    }
}

/// Reads a cell of the given kind from a text field.
pub fn parse_cell(k: Kind, t: &Vec<char>) -> (r: Option<Value>)
    ensures
        match parse_cell_spec(k, t@) {
            Some(v) => r is Some && r->0@ == v && value_wf(v),
            None => r is None,
        },
{
    match k {
        Kind::Int => match parse_int(t) {
            Some(i) => Some(Value::Int(i)),
            None => None,
        },
        Kind::Real => {
            if is_numeric(t) {
                Some(Value::Real(chars_to_string(t)))
            } else {
                None
            }
        },
        Kind::Bool => {
            let tr = str_chars("true");
            let fa = str_chars("false");
            if chars_eq(t, &tr) {
                Some(Value::Bool(true))
            } else if chars_eq(t, &fa) {
                Some(Value::Bool(false))
            } else {
                None
            }
        },
        Kind::Str => Some(Value::Str(chars_to_string(t))),
    }
}

/// Writing a well-formed cell and reading it back under its own kind yields
/// the cell.
pub proof fn lemma_cell_text_roundtrip(v: ValueView)
    requires
        value_wf(v),
    ensures
        parse_cell_spec(kind_of(v), cell_text(v)) == Some(v),
{
    match v {
        ValueView::Int(i) => {
            lemma_int_text_roundtrip(i);
        },
        ValueView::Real(_) => {},
        ValueView::Bool(b) => {
            reveal_strlit("true");
            reveal_strlit("false");
            assert("true"@.len() == 4);
            assert("false"@.len() == 5);
        },
        ValueView::Str(_) => {},
    }
}

// ---------------------------------------------------------------------------
// Ordering
// ---------------------------------------------------------------------------

/// Lexicographic order on character sequences, by scalar value.
pub open spec fn lex_le(a: Seq<char>, b: Seq<char>) -> bool
    decreases a.len(),
{
    if a.len() == 0 {
        true
    } else if b.len() == 0 {
        false
    } else if a[0] == b[0] {
        lex_le(a.skip(1), b.skip(1))
    } else {
        (a[0] as u32) < (b[0] as u32)
    }
}

/// The natural order on same-kind cell values; integers and booleans by
/// value, text lexicographically. Reals and mismatched kinds are unordered.
pub open spec fn value_le(a: ValueView, b: ValueView) -> bool {
    match (a, b) {
        (ValueView::Int(x), ValueView::Int(y)) => x <= y,
        (ValueView::Bool(x), ValueView::Bool(y)) => !x || y,
        (ValueView::Str(x), ValueView::Str(y)) => lex_le(x, y),
        _ => false,
    }
}

/// A kind whose values [`value_le`] totally orders.
pub open spec fn orderable(k: Kind) -> bool {
    k != Kind::Real
}

/// Distinct characters have distinct scalar values.
pub proof fn lemma_char_inj(a: char, b: char)
    requires
        a as u32 == b as u32,
    ensures
        a == b,
{
    vstd::utf8::char_u32_cast(a, a as u32);
    vstd::utf8::char_u32_cast(b, b as u32);
}

/// Lexicographic order is total.
pub proof fn lemma_lex_total(a: Seq<char>, b: Seq<char>)
    ensures
        lex_le(a, b) || lex_le(b, a),
    decreases a.len(),
{
    if a.len() > 0 && b.len() > 0 {
        if a[0] == b[0] {
            lemma_lex_total(a.skip(1), b.skip(1));
        } else {
            if a[0] as u32 == b[0] as u32 {
                lemma_char_inj(a[0], b[0]);
            }
        }
    }
}

/// Lexicographic order is transitive.
pub proof fn lemma_lex_trans(a: Seq<char>, b: Seq<char>, c: Seq<char>)
    requires
        lex_le(a, b),
        lex_le(b, c),
    ensures
        lex_le(a, c),
    decreases a.len(),
{
    if a.len() == 0 {
    } else {
        assert(b.len() > 0);
        assert(c.len() > 0);
        if a[0] == b[0] && b[0] == c[0] {
            lemma_lex_trans(a.skip(1), b.skip(1), c.skip(1));
        }
    }
}

/// The value order is total on each orderable kind.
pub proof fn lemma_value_le_total(a: ValueView, b: ValueView)
    requires
        kind_of(a) == kind_of(b),
        orderable(kind_of(a)),
    ensures
        value_le(a, b) || value_le(b, a),
{
    match (a, b) {
        (ValueView::Str(x), ValueView::Str(y)) => {
            lemma_lex_total(x, y);
        },
        _ => {},
    }
}

/// The value order is transitive.
pub proof fn lemma_value_le_trans(a: ValueView, b: ValueView, c: ValueView)
    requires
        value_le(a, b),
        value_le(b, c),
    ensures
        value_le(a, c),
{
    match (a, b) {
        (ValueView::Str(x), ValueView::Str(y)) => match c {
            ValueView::Str(z) => {
                lemma_lex_trans(x, y, z);
            },
            _ => {},
        },
        _ => {},
    }
}

/// Compares two character sequences lexicographically.
pub fn lex_le_x(a: &Vec<char>, b: &Vec<char>) -> (r: bool)
    ensures
        r == lex_le(a@, b@),
{
    proof {
        assert(a@.skip(0) =~= a@);
        assert(b@.skip(0) =~= b@);
    }
    let mut i: usize = 0;
    while i < a.len() && i < b.len()
        invariant
            i <= a@.len(),
            i <= b@.len(),
            lex_le(a@, b@) == lex_le(a@.skip(i as int), b@.skip(i as int)),
        decreases a@.len() - i,
    {
        let x = a[i];
        let y = b[i];
        proof {
            assert(a@.skip(i as int)[0] == a@[i as int]);
            assert(b@.skip(i as int)[0] == b@[i as int]);
            assert(a@.skip(i as int).skip(1) =~= a@.skip(i + 1));
            assert(b@.skip(i as int).skip(1) =~= b@.skip(i + 1));
        }
        if x != y {
            return (x as u32) < (y as u32);
        }
        i = i + 1;
    }
    proof {
        if i == a.len() {
            assert(a@.skip(i as int).len() == 0);
        } else {
            assert(b@.skip(i as int).len() == 0);
            assert(a@.skip(i as int).len() > 0);
        }
    }
    i == a.len()
}

/// Compares two cell values for equality of kind and content.
pub fn value_eq_x(a: &Value, b: &Value) -> (r: bool)
    ensures
        r == (a@ == b@),
{
    match (a, b) {
        (Value::Int(x), Value::Int(y)) => *x == *y,
        (Value::Real(x), Value::Real(y)) => {
            let xc = str_chars(x.as_str());
            let yc = str_chars(y.as_str());
            chars_eq(&xc, &yc)
        },
        (Value::Bool(x), Value::Bool(y)) => *x == *y,
        (Value::Str(x), Value::Str(y)) => {
            let xc = str_chars(x.as_str());
            let yc = str_chars(y.as_str());
            chars_eq(&xc, &yc)
        },
        _ => false,
    }
}

/// Compares two same-kind cell values by their natural order.
pub fn value_le_x(a: &Value, b: &Value) -> (r: bool)
    ensures
        r == value_le(a@, b@),
{
    match (a, b) {
        (Value::Int(x), Value::Int(y)) => *x <= *y,
        (Value::Bool(x), Value::Bool(y)) => !*x || *y,
        (Value::Str(x), Value::Str(y)) => {
            let xc = str_chars(x.as_str());
            let yc = str_chars(y.as_str());
            lex_le_x(&xc, &yc)
        },
        _ => false,
    }
}

/// Compares two character sequences for equality.
pub fn chars_eq(a: &Vec<char>, b: &Vec<char>) -> (r: bool)
    ensures
        r == (a@ == b@),
{
    if a.len() != b.len() {
        proof {
            assert(a@.len() != b@.len());
        }
        return false;
    }
    let mut i: usize = 0;
    while i < a.len()
        invariant
            a@.len() == b@.len(),
            i <= a@.len(),
            forall|k: int| 0 <= k < i ==> a@[k] == b@[k],
        decreases a@.len() - i,
    {
        if a[i] != b[i] {
            return false;
        }
        i = i + 1;
    }
    proof {
        assert(a@ =~= b@);
    }
    true
}

} // verus!
