//! The JSON dialect: an object with exactly two keys, `headers` (an array of
//! strings) and `data` (an object mapping each header label to an array of
//! values). A value is written unquoted when its text is a numeric literal or
//! `true`/`false`, and double-quoted otherwise.
//!
//! "Parses as a real number" is realized here as the fixed numeric-literal
//! grammar of [`crate::value::numeric_text`] — an optional sign, digits, an
//! optional fraction, an optional exponent — a deliberate narrowing of
//! floating-point parsing, which would also accept texts such as `inf`,
//! `NaN`, `.5` or `5.`. A string cell whose text is of that looser shape is
//! therefore written quoted rather than bare; the reader accepts either form
//! and recovers the same string. Integer, real, and boolean cells are
//! unaffected: their canonical texts always match the grammar.
//!
//! Reading is a purpose-built scanner for this shape, hardened into a strict
//! little grammar: it tolerates whitespace between tokens, reads quoted
//! strings with backslashed characters kept verbatim, and checks that the
//! data keys follow the header labels in order with equal-length arrays.

use vstd::prelude::*;

use crate::{DataError, DocDefect};
use crate::table::{Table, TableView};
use crate::column::Column;
use crate::value::{
    Kind, Value, ValueView, cell_text, numeric_text, is_numeric, parse_cell_spec, parse_cell,
    value_text, chars_to_string, append_chars, append_str, str_chars, chars_eq,
};
use crate::render::join_texts;

verus! {

// ---------------------------------------------------------------------------
// Writing
// ---------------------------------------------------------------------------

/// A text wrapped in double quotes.
pub open spec fn quoted(s: Seq<char>) -> Seq<char> {
    seq!['"'] + s + seq!['"']
}

/// How one cell is written: unquoted where its text is a numeric literal
/// (see the module note on the grammar) or a boolean word, double-quoted
/// otherwise.
pub open spec fn enc_cell(v: ValueView) -> Seq<char> {
    let t = cell_text(v);
    if numeric_text(t) || t == "true"@ || t == "false"@ {
        t
    } else {
        quoted(t)
    }
}

/// The label a data entry is keyed by: the column's header label, or
/// nothing where the header is shorter.
pub open spec fn entry_name(t: TableView, j: int) -> Seq<char> {
    if j < t.header.len() {
        t.header[j]
    } else {
        Seq::empty()
    }
}

/// One data entry line.
pub open spec fn entry_text(t: TableView, j: int) -> Seq<char> {
    "    \""@ + entry_name(t, j) + "\": ["@ + join_texts(
        Seq::new(t.cols[j].len(), |i: int| enc_cell(t.cols[j][i])),
        ", "@,
    ) + seq![']'] + (if j < t.cols.len() - 1 {
        seq![',']
    } else {
        Seq::<char>::empty()
    }) + seq!['\n']
}

/// The first `n` data entry lines.
pub open spec fn entries_upto(t: TableView, n: int) -> Seq<char>
    decreases n,
{
    if n <= 0 {
        Seq::empty()
    } else {
        entries_upto(t, n - 1) + entry_text(t, n - 1)
    }
}

/// The whole document.
pub open spec fn json_text(t: TableView) -> Seq<char> {
    "{\n  \"headers\": ["@ + join_texts(
        Seq::new(t.header.len(), |i: int| quoted(t.header[i])),
        ", "@,
    ) + "],\n  \"data\": {\n"@ + entries_upto(t, t.cols.len() as int) + "  }\n}"@
}

/// How one cell is written, as characters.
fn enc_cell_x(v: &Value) -> (r: Vec<char>)
    ensures
        r@ == enc_cell(v@),
{
    let t = value_text(v);
    let tr = str_chars("true");
    let fa = str_chars("false");
    if is_numeric(&t) || chars_eq(&t, &tr) || chars_eq(&t, &fa) {
        t
    } else {
        let mut out: Vec<char> = Vec::new();
        out.push('"');
        append_chars(&mut out, &t);
        out.push('"');
        proof {
            assert(out@ =~= quoted(t@));
        }
        out
    }
}

impl Table {
    /// Writes the table in the JSON dialect: the header labels under
    /// `headers`, then one `data` entry per column keyed by its label, each
    /// value unquoted where its text is numeric or boolean and quoted
    /// otherwise.
    #[verifier::rlimit(60)]
    pub fn to_json_string(&self) -> (r: String)
        requires
            self.wf(),
        ensures
            r@ == json_text(self@),
    {
        let mut out: Vec<char> = Vec::new();
        append_str(&mut out, "{\n  \"headers\": [");
        let hn = self.header.len();
        let ghost opening = "{\n  \"headers\": ["@;
        let mut i: usize = 0;
        while i < hn
            invariant
                self.wf(),
                hn == self@.header.len(),
                i <= hn,
                out@ == opening + join_texts(
                    Seq::new(i as nat, |k: int| quoted(self@.header[k])),
                    ", "@,
                ),
            decreases hn - i,
        {
            if i > 0 {
                append_str(&mut out, ", ");
            }
            out.push('"');
            let lab = str_chars(self.header[i].as_str());
            append_chars(&mut out, &lab);
            out.push('"');
            proof {
                let parts = |n: int| Seq::new(n as nat, |k: int| quoted(self@.header[k]));
                assert(parts(i + 1).drop_last() =~= parts(i as int));
                assert(out@ =~= opening + join_texts(parts(i + 1), ", "@));
            }
            i = i + 1;
        }
        append_str(&mut out, "],\n  \"data\": {\n");
        let ghost mid = out@;
        let ncols = self.ncols();
        let rows = self.nrows();
        let mut j: usize = 0;
        while j < ncols
            invariant
                self.wf(),
                ncols == self@.cols.len(),
                rows == self@.nrows(),
                j <= ncols,
                out@ == mid + entries_upto(self@, j as int),
                mid == "{\n  \"headers\": ["@ + join_texts(
                    Seq::new(self@.header.len(), |k: int| quoted(self@.header[k])),
                    ", "@,
                ) + "],\n  \"data\": {\n"@,
            decreases ncols - j,
        {
            let ghost entry_start = out@;
            append_str(&mut out, "    \"");
            if j < self.header.len() {
                let lab = str_chars(self.header[j].as_str());
                append_chars(&mut out, &lab);
            }
            proof {
                if j >= self.header@.len() {
                    assert(out@ =~= entry_start + "    \""@ + entry_name(self@, j as int));
                }
            }
            append_str(&mut out, "\": [");
            let ghost cells_start = out@;
            let mut i: usize = 0;
            while i < rows
                invariant
                    self.wf(),
                    ncols == self@.cols.len(),
                    rows == self@.nrows(),
                    j < ncols,
                    i <= rows,
                    out@ == cells_start + join_texts(
                        Seq::new(i as nat, |k: int| enc_cell(self@.cols[j as int][k])),
                        ", "@,
                    ),
                decreases rows - i,
            {
                if i > 0 {
                    append_str(&mut out, ", ");
                }
                let v = self.col(j).get(i);
                let cell = enc_cell_x(&v);
                append_chars(&mut out, &cell);
                proof {
                    let parts = |n: int|
                        Seq::new(n as nat, |k: int| enc_cell(self@.cols[j as int][k]));
                    assert(parts(i + 1).drop_last() =~= parts(i as int));
                    assert(out@ =~= cells_start + join_texts(parts(i + 1), ", "@));
                }
                i = i + 1;
            }
            proof {
                assert(Seq::new(self@.cols[j as int].len(), |k: int| enc_cell(
                    self@.cols[j as int][k],
                )) =~= Seq::new(rows as nat, |k: int| enc_cell(self@.cols[j as int][k])));
                assert(out@ =~= entry_start + "    \""@ + entry_name(self@, j as int) + "\": ["@
                    + join_texts(
                    Seq::new(self@.cols[j as int].len(), |k: int| enc_cell(self@.cols[j as int][k])),
                    ", "@,
                ));
            }
            out.push(']');
            if j + 1 < ncols {
                out.push(',');
            }
            out.push('\n');
            proof {
                assert(out@ =~= entry_start + entry_text(self@, j as int));
                assert(out@ =~= mid + entries_upto(self@, j + 1));
            }
            j = j + 1;
        }
        append_str(&mut out, "  }\n}");
        proof {
            assert(out@ =~= json_text(self@));
        }
        chars_to_string(&out)
    }
}

// ---------------------------------------------------------------------------
// Reading: the grammar
// ---------------------------------------------------------------------------

/// A whitespace character between tokens.
pub open spec fn is_json_ws(c: char) -> bool {
    c == ' ' || c == '\n' || c == '\t' || c == '\r'
}

/// The position after the run of whitespace starting at `i`.
pub open spec fn ws_end(s: Seq<char>, i: int) -> int
    decreases s.len() - i,
{
    if 0 <= i < s.len() && is_json_ws(s[i]) {
        ws_end(s, i + 1)
    } else {
        i
    }
}

/// The position after the literal, where the text holds it at `i`.
pub open spec fn lit_end(s: Seq<char>, i: int, lit: Seq<char>) -> Option<int> {
    if 0 <= i && i + lit.len() <= s.len() && s.subrange(i, i + lit.len()) == lit {
        Some(i + lit.len())
    } else {
        None
    }
}

/// The content of a quoted string from just inside the opening quote to the
/// closing quote, a backslash keeping itself and the next character
/// verbatim; and the position after the closing quote.
pub open spec fn qcontent(s: Seq<char>, i: int) -> Option<(Seq<char>, int)>
    decreases s.len() - i,
{
    if i < 0 || i >= s.len() {
        None
    } else if s[i] == '"' {
        Some((Seq::empty(), i + 1))
    } else if s[i] == '\\' {
        if i + 1 < s.len() {
            match qcontent(s, i + 2) {
                Some((c, j)) => Some((seq![s[i], s[i + 1]] + c, j)),
                None => None,
            }
        } else {
            None
        }
    } else {
        match qcontent(s, i + 1) {
            Some((c, j)) => Some((seq![s[i]] + c, j)),
            None => None,
        }
    }
}

/// A quoted string starting at `i`: its content and the position after it.
pub open spec fn qstring(s: Seq<char>, i: int) -> Option<(Seq<char>, int)> {
    if 0 <= i < s.len() && s[i] == '"' {
        qcontent(s, i + 1)
    } else {
        None
    }
}

/// The strings after the first item of a bracketed list: a comma and an item
/// repeatedly, then the closing bracket.
pub open spec fn string_tail(s: Seq<char>, i: int) -> Option<(Seq<Seq<char>>, int)>
    decreases s.len() - i,
{
    let a = ws_end(s, i);
    if 0 <= a < s.len() && s[a] == ']' {
        Some((Seq::empty(), a + 1))
    } else if 0 <= a < s.len() && s[a] == ',' {
        match qstring(s, ws_end(s, a + 1)) {
            Some((c, j)) => if i < j <= s.len() {
                match string_tail(s, j) {
                    Some((rest, k)) => Some((seq![c] + rest, k)),
                    None => None,
                }
            } else {
                None
            },
            None => None,
        }
    } else {
        None
    }
}

/// A bracketed list of quoted strings, read from just after the opening
/// bracket: the items and the position after the closing bracket.
pub open spec fn string_list(s: Seq<char>, i: int) -> Option<(Seq<Seq<char>>, int)> {
    let a = ws_end(s, i);
    if 0 <= a < s.len() && s[a] == ']' {
        Some((Seq::empty(), a + 1))
    } else {
        match qstring(s, a) {
            Some((c, j)) => match string_tail(s, j) {
                Some((rest, k)) => Some((seq![c] + rest, k)),
                None => None,
            },
            None => None,
        }
    }
}

/// The position after the run of raw-token characters starting at `i`: any
/// characters up to a comma or closing bracket.
pub open spec fn raw_end(s: Seq<char>, i: int) -> int
    decreases s.len() - i,
{
    if 0 <= i < s.len() && s[i] != ',' && s[i] != ']' {
        raw_end(s, i + 1)
    } else {
        i
    }
}

/// The text with trailing whitespace stripped.
pub open spec fn ws_trim_end(s: Seq<char>) -> Seq<char>
    decreases s.len(),
{
    if s.len() > 0 && is_json_ws(s.last()) {
        ws_trim_end(s.drop_last())
    } else {
        s
    }
}

/// One value token: a quoted string's content, or a non-empty raw run with
/// trailing whitespace stripped; and the position after it.
pub open spec fn token(s: Seq<char>, i: int) -> Option<(Seq<char>, int)> {
    let a = ws_end(s, i);
    if 0 <= a < s.len() && s[a] == '"' {
        qcontent(s, a + 1)
    } else {
        let e = raw_end(s, a);
        let t = ws_trim_end(s.subrange(a, e));
        if 0 <= a <= e <= s.len() && t.len() > 0 {
            Some((t, e))
        } else {
            None
        }
    }
}

/// The tokens after the first one of a bracketed value list.
pub open spec fn token_tail(s: Seq<char>, i: int) -> Option<(Seq<Seq<char>>, int)>
    decreases s.len() - i,
{
    let a = ws_end(s, i);
    if 0 <= a < s.len() && s[a] == ']' {
        Some((Seq::empty(), a + 1))
    } else if 0 <= a < s.len() && s[a] == ',' {
        match token(s, a + 1) {
            Some((c, j)) => if i < j <= s.len() {
                match token_tail(s, j) {
                    Some((rest, k)) => Some((seq![c] + rest, k)),
                    None => None,
                }
            } else {
                None
            },
            None => None,
        }
    } else {
        None
    }
}

/// A bracketed list of value tokens, read from just after the opening
/// bracket.
pub open spec fn token_list(s: Seq<char>, i: int) -> Option<(Seq<Seq<char>>, int)> {
    let a = ws_end(s, i);
    if 0 <= a < s.len() && s[a] == ']' {
        Some((Seq::empty(), a + 1))
    } else {
        match token(s, i) {
            Some((c, j)) => if i <= j <= s.len() {
                match token_tail(s, j) {
                    Some((rest, k)) => Some((seq![c] + rest, k)),
                    None => None,
                }
            } else {
                None
            },
            None => None,
        }
    }
}

/// One data entry: a quoted key, a colon, and a bracketed value list.
pub open spec fn entry(s: Seq<char>, i: int) -> Option<((Seq<char>, Seq<Seq<char>>), int)> {
    match qstring(s, ws_end(s, i)) {
        Some((key, j)) => {
            let a = ws_end(s, j);
            if 0 <= a < s.len() && s[a] == ':' {
                let b = ws_end(s, a + 1);
                if 0 <= b < s.len() && s[b] == '[' {
                    match token_list(s, b + 1) {
                        Some((vals, k)) => Some(((key, vals), k)),
                        None => None,
                    }
                } else {
                    None
                }
            } else {
                None
            }
        },
        None => None,
    }
}

/// The entries after the first one of the data object.
pub open spec fn entries_tail(s: Seq<char>, i: int) -> Option<
    (Seq<(Seq<char>, Seq<Seq<char>>)>, int),
>
    decreases s.len() - i,
{
    let a = ws_end(s, i);
    if 0 <= a < s.len() && s[a] == '}' {
        Some((Seq::empty(), a + 1))
    } else if 0 <= a < s.len() && s[a] == ',' {
        match entry(s, a + 1) {
            Some((e, j)) => if i < j <= s.len() {
                match entries_tail(s, j) {
                    Some((rest, k)) => Some((seq![e] + rest, k)),
                    None => None,
                }
            } else {
                None
            },
            None => None,
        }
    } else {
        None
    }
}

/// The data object's entries, read from just after its opening brace.
pub open spec fn entries_list(s: Seq<char>, i: int) -> Option<
    (Seq<(Seq<char>, Seq<Seq<char>>)>, int),
> {
    let a = ws_end(s, i);
    if 0 <= a < s.len() && s[a] == '}' {
        Some((Seq::empty(), a + 1))
    } else {
        match entry(s, i) {
            Some((e, j)) => if i <= j <= s.len() {
                match entries_tail(s, j) {
                    Some((rest, k)) => Some((seq![e] + rest, k)),
                    None => None,
                }
            } else {
                None
            },
            None => None,
        }
    }
}

/// The whole document: the header list and the data entries, with nothing
/// but whitespace around the punctuation and after the closing brace.
pub open spec fn json_doc(s: Seq<char>) -> Option<
    (Seq<Seq<char>>, Seq<(Seq<char>, Seq<Seq<char>>)>),
> {
    let a = ws_end(s, 0);
    if 0 <= a < s.len() && s[a] == '{' {
        match lit_end(s, ws_end(s, a + 1), "\"headers\""@) {
            Some(b) => {
                let c = ws_end(s, b);
                if 0 <= c < s.len() && s[c] == ':' {
                    let d = ws_end(s, c + 1);
                    if 0 <= d < s.len() && s[d] == '[' {
                        match string_list(s, d + 1) {
                            Some((headers, e)) => {
                                let f = ws_end(s, e);
                                if 0 <= f < s.len() && s[f] == ',' {
                                    match lit_end(s, ws_end(s, f + 1), "\"data\""@) {
                                        Some(g) => {
                                            let h = ws_end(s, g);
                                            if 0 <= h < s.len() && s[h] == ':' {
                                                let p = ws_end(s, h + 1);
                                                if 0 <= p < s.len() && s[p] == '{' {
                                                    match entries_list(s, p + 1) {
                                                        Some((entries, q)) => {
                                                            let w = ws_end(s, q);
                                                            if 0 <= w < s.len() && s[w] == '}'
                                                                && ws_end(s, w + 1) == s.len() {
                                                                Some((headers, entries))
                                                            } else {
                                                                None
                                                            }
                                                        },
                                                        None => None,
                                                    }
                                                } else {
                                                    None
                                                }
                                            } else {
                                                None
                                            }
                                        },
                                        None => None,
                                    }
                                } else {
                                    None
                                }
                            },
                            None => None,
                        }
                    } else {
                        None
                    }
                } else {
                    None
                }
            },
            None => None,
        }
    } else {
        None
    }
}

/// The cells of one column's tokens from position `i` on, under its kind.
pub open spec fn parse_col_cells(tokens: Seq<Seq<char>>, kind: Kind, j: int, i: int) -> Result<
    Seq<ValueView>,
    DataError,
>
    decreases tokens.len() - i,
{
    if i < 0 || i >= tokens.len() {
        Ok(Seq::empty())
    } else {
        match parse_cell_spec(kind, tokens[i]) {
            None => Err(DataError::ParseError { row: i as usize, col: j as usize }),
            Some(v) => match parse_col_cells(tokens, kind, j, i + 1) {
                Ok(rest) => Ok(seq![v] + rest),
                Err(e) => Err(e),
            },
        }
    }
}

/// The columns of the data entries from position `j` on: each key must
/// follow the header label at its position, each value array must have the
/// first array's length, and each token must convert to the column's kind.
pub open spec fn parse_cols(
    entries: Seq<(Seq<char>, Seq<Seq<char>>)>,
    headers: Seq<Seq<char>>,
    kinds: Seq<Kind>,
    j: int,
) -> Result<Seq<Seq<ValueView>>, DataError>
    decreases kinds.len() - j,
{
    if j < 0 || j >= kinds.len() {
        Ok(Seq::empty())
    } else if entries[j].0 != headers[j] {
        Err(DataError::MalformedDocument { defect: DocDefect::KeyMismatch })
    } else if entries[j].1.len() != entries[0].1.len() {
        Err(DataError::MalformedDocument { defect: DocDefect::RowCountMismatch })
    } else {
        match parse_col_cells(entries[j].1, kinds[j], j, 0) {
            Err(e) => Err(e),
            Ok(cells) => match parse_cols(entries, headers, kinds, j + 1) {
                Ok(rest) => Ok(seq![cells] + rest),
                Err(e) => Err(e),
            },
        }
    }
}

/// The table a document denotes under the column kinds, or the first error.
pub open spec fn json_parse(s: Seq<char>, kinds: Seq<Kind>) -> Result<TableView, DataError> {
    match json_doc(s) {
        None => Err(DataError::MalformedDocument { defect: DocDefect::BadSyntax }),
        Some((headers, entries)) => {
            if headers.len() != kinds.len() {
                Err(DataError::MalformedDocument { defect: DocDefect::HeaderArity })
            } else if entries.len() != kinds.len() {
                Err(DataError::MalformedDocument { defect: DocDefect::KeyMismatch })
            } else {
                match parse_cols(entries, headers, kinds, 0) {
                    Err(e) => Err(e),
                    Ok(cols) => Ok(TableView { header: headers, kinds: kinds, cols: cols }),
                }
            }
        },
    }
}

// ---------------------------------------------------------------------------
// Reading: the scanner
// ---------------------------------------------------------------------------

/// The position after the run of whitespace starting at `i`.
fn ws_end_x(s: &Vec<char>, i: usize) -> (r: usize)
    requires
        i <= s@.len(),
    ensures
        r == ws_end(s@, i as int),
        i <= r <= s@.len(),
    decreases s@.len() - i,
{
    if i < s.len() && is_json_ws_x(s[i]) {
        ws_end_x(s, i + 1)
    } else {
        i
    }
}

/// A whitespace character between tokens.
fn is_json_ws_x(c: char) -> (r: bool)
    ensures
        r == is_json_ws(c),
{
    c == ' ' || c == '\n' || c == '\t' || c == '\r'
}

/// The position after the literal, where the text holds it at `i`.
fn expect_lit(s: &Vec<char>, i: usize, lit: &Vec<char>) -> (r: Option<usize>)
    ensures
        match lit_end(s@, i as int, lit@) {
            Some(e) => r is Some && r->0 as int == e && i <= r->0 <= s@.len(),
            None => r is None,
        },
{
    if i > s.len() || lit.len() > s.len() - i {
        proof {
            assert(lit_end(s@, i as int, lit@) is None);
        }
        return None;
    }
    let mut k: usize = 0;
    while k < lit.len()
        invariant
            s@.len() <= usize::MAX,
            i + lit@.len() <= s@.len(),
            k <= lit@.len(),
            forall|q: int| 0 <= q < k ==> s@[i + q] == lit@[q],
        decreases lit@.len() - k,
    {
        proof {
            assert(i + k < s@.len());
        }
        if s[i + k] != lit[k] {
            proof {
                assert(s@.subrange(i as int, i + lit@.len())[k as int] == s@[i + k]);
            }
            return None;
        }
        k = k + 1;
    }
    proof {
        assert(s@.subrange(i as int, i + lit@.len()) =~= lit@);
    }
    Some(i + lit.len())
}

/// The content of a quoted string from just inside the opening quote.
fn qcontent_x(s: &Vec<char>, i: usize) -> (r: Option<(Vec<char>, usize)>)
    requires
        i <= s@.len(),
    ensures
        match qcontent(s@, i as int) {
            Some((c, j)) => r is Some && (r->0).0@ == c && (r->0).1 as int == j && i
                < (r->0).1 <= s@.len(),
            None => r is None,
        },
    decreases s@.len() - i,
{
    if i >= s.len() {
        return None;
    }
    let c = s[i];
    if c == '"' {
        Some((Vec::new(), i + 1))
    } else if c == '\\' {
        if i + 1 < s.len() {
            match qcontent_x(s, i + 2) {
                Some((rest, j)) => {
                    let mut out: Vec<char> = Vec::new();
                    out.push(s[i]);
                    out.push(s[i + 1]);
                    append_chars(&mut out, &rest);
                    proof {
                        assert(out@ =~= seq![s@[i as int], s@[i + 1]] + rest@);
                    }
                    Some((out, j))
                },
                None => None,
            }
        } else {
            None
        }
    } else {
        match qcontent_x(s, i + 1) {
            Some((rest, j)) => {
                let mut out: Vec<char> = Vec::new();
                out.push(s[i]);
                append_chars(&mut out, &rest);
                proof {
                    assert(out@ =~= seq![s@[i as int]] + rest@);
                }
                Some((out, j))
            },
            None => None,
        }
    }
}

/// A quoted string starting at `i`.
fn qstring_x(s: &Vec<char>, i: usize) -> (r: Option<(Vec<char>, usize)>)
    requires
        i <= s@.len(),
    ensures
        match qstring(s@, i as int) {
            Some((c, j)) => r is Some && (r->0).0@ == c && (r->0).1 as int == j && i
                < (r->0).1 <= s@.len(),
            None => r is None,
        },
{
    if i < s.len() && s[i] == '"' {
        qcontent_x(s, i + 1)
    } else {
        None
    }
}

/// The strings after the first item of a bracketed list.
fn string_tail_x(s: &Vec<char>, i: usize) -> (r: Option<(Vec<String>, usize)>)
    requires
        i <= s@.len(),
    ensures
        match string_tail(s@, i as int) {
            Some((items, j)) => r is Some && Seq::new((r->0).0@.len(), |k: int| (r->0).0@[k]@)
                == items && (r->0).1 as int == j && (r->0).1 <= s@.len(),
            None => r is None,
        },
    decreases s@.len() - i,
{
    let a = ws_end_x(s, i);
    if a < s.len() && s[a] == ']' {
        let items: Vec<String> = Vec::new();
        proof {
            assert(Seq::new(items@.len(), |k: int| items@[k]@) =~= Seq::<Seq<char>>::empty());
        }
        Some((items, a + 1))
    } else if a < s.len() && s[a] == ',' {
        let b = ws_end_x(s, a + 1);
        match qstring_x(s, b) {
            Some((c, j)) => {
                if i < j && j <= s.len() {
                    match string_tail_x(s, j) {
                        Some((rest, k)) => {
                            let items = cons_string(c, rest);
                            Some((items, k))
                        },
                        None => None,
                    }
                } else {
                    None
                }
            },
            None => None,
        }
    } else {
        None
    }
}

/// A bracketed list of quoted strings, read from just after the opening
/// bracket.
fn string_list_x(s: &Vec<char>, i: usize) -> (r: Option<(Vec<String>, usize)>)
    requires
        i <= s@.len(),
    ensures
        match string_list(s@, i as int) {
            Some((items, j)) => r is Some && Seq::new((r->0).0@.len(), |k: int| (r->0).0@[k]@)
                == items && (r->0).1 as int == j && (r->0).1 <= s@.len(),
            None => r is None,
        },
{
    let a = ws_end_x(s, i);
    if a < s.len() && s[a] == ']' {
        let items: Vec<String> = Vec::new();
        proof {
            assert(Seq::new(items@.len(), |k: int| items@[k]@) =~= Seq::<Seq<char>>::empty());
        }
        Some((items, a + 1))
    } else {
        match qstring_x(s, a) {
            Some((c, j)) => match string_tail_x(s, j) {
                Some((rest, k)) => {
                    let items = cons_string(c, rest);
                    Some((items, k))
                },
                None => None,
            },
            None => None,
        }
    }
}

/// The position after the run of raw-token characters starting at `i`.
fn raw_end_x(s: &Vec<char>, i: usize) -> (r: usize)
    requires
        i <= s@.len(),
    ensures
        r == raw_end(s@, i as int),
        i <= r <= s@.len(),
    decreases s@.len() - i,
{
    if i < s.len() && s[i] != ',' && s[i] != ']' {
        raw_end_x(s, i + 1)
    } else {
        i
    }
}

/// The text with trailing whitespace stripped.
fn ws_trim_end_x(v: &Vec<char>) -> (r: Vec<char>)
    ensures
        r@ == ws_trim_end(v@),
{
    let mut b: usize = v.len();
    proof {
        assert(v@.take(b as int) =~= v@);
    }
    while b > 0 && is_json_ws_x(v[b - 1])
        invariant
            b <= v@.len(),
            ws_trim_end(v@) == ws_trim_end(v@.take(b as int)),
        decreases b,
    {
        proof {
            let cur = v@.take(b as int);
            assert(cur.last() == v@[b - 1]);
            assert(cur.drop_last() =~= v@.take(b - 1));
        }
        b = b - 1;
    }
    proof {
        let cur = v@.take(b as int);
        if b > 0 {
            assert(cur.last() == v@[b - 1]);
            assert(ws_trim_end(cur) == cur);
        } else {
            assert(cur.len() == 0);
            assert(ws_trim_end(cur) == cur);
        }
    }
    let mut r: Vec<char> = Vec::new();
    let mut k: usize = 0;
    while k < b
        invariant
            k <= b <= v@.len(),
            r@ == v@.take(b as int).take(k as int),
        decreases b - k,
    {
        r.push(v[k]);
        proof {
            assert(r@ =~= v@.take(b as int).take(k + 1));
        }
        k = k + 1;
    }
    proof {
        assert(r@ =~= v@.take(b as int));
    }
    r
}

/// One value token.
fn token_x(s: &Vec<char>, i: usize) -> (r: Option<(Vec<char>, usize)>)
    requires
        i <= s@.len(),
    ensures
        match token(s@, i as int) {
            Some((c, j)) => r is Some && (r->0).0@ == c && (r->0).1 as int == j && (r->0).1
                <= s@.len(),
            None => r is None,
        },
{
    let a = ws_end_x(s, i);
    if a < s.len() && s[a] == '"' {
        qcontent_x(s, a + 1)
    } else {
        let e = raw_end_x(s, a);
        let mut raw: Vec<char> = Vec::new();
        let mut k: usize = a;
        while k < e
            invariant
                a <= k <= e <= s@.len(),
                raw@ == s@.subrange(a as int, k as int),
            decreases e - k,
        {
            raw.push(s[k]);
            proof {
                assert(raw@ =~= s@.subrange(a as int, k + 1));
            }
            k = k + 1;
        }
        let t = ws_trim_end_x(&raw);
        if t.len() > 0 {
            Some((t, e))
        } else {
            None
        }
    }
}

/// The tokens after the first one of a bracketed value list.
fn token_tail_x(s: &Vec<char>, i: usize) -> (r: Option<(Vec<Vec<char>>, usize)>)
    requires
        i <= s@.len(),
    ensures
        match token_tail(s@, i as int) {
            Some((items, j)) => r is Some && Seq::new((r->0).0@.len(), |k: int| (r->0).0@[k]@)
                == items && (r->0).1 as int == j && (r->0).1 <= s@.len(),
            None => r is None,
        },
    decreases s@.len() - i,
{
    let a = ws_end_x(s, i);
    if a < s.len() && s[a] == ']' {
        let items: Vec<Vec<char>> = Vec::new();
        proof {
            assert(Seq::new(items@.len(), |k: int| items@[k]@) =~= Seq::<Seq<char>>::empty());
        }
        Some((items, a + 1))
    } else if a < s.len() && s[a] == ',' {
        match token_x(s, a + 1) {
            Some((c, j)) => {
                if i < j && j <= s.len() {
                    match token_tail_x(s, j) {
                        Some((rest, k)) => {
                            let ghost spec_rest = (token_tail(s@, j as int)->0).0;
                            let items = cons_chars(c, rest);
                            proof {
                                assert(Seq::new(items@.len(), |p: int| items@[p]@) =~= seq![
                                    (token(s@, a + 1)->0).0,
                                ] + spec_rest);
                            }
                            Some((items, k))
                        },
                        None => None,
                    }
                } else {
                    None
                }
            },
            None => None,
        }
    } else {
        None
    }
}

/// A bracketed list of value tokens, read from just after the opening
/// bracket.
fn token_list_x(s: &Vec<char>, i: usize) -> (r: Option<(Vec<Vec<char>>, usize)>)
    requires
        i <= s@.len(),
    ensures
        match token_list(s@, i as int) {
            Some((items, j)) => r is Some && Seq::new((r->0).0@.len(), |k: int| (r->0).0@[k]@)
                == items && (r->0).1 as int == j && (r->0).1 <= s@.len(),
            None => r is None,
        },
{
    let a = ws_end_x(s, i);
    if a < s.len() && s[a] == ']' {
        let items: Vec<Vec<char>> = Vec::new();
        proof {
            assert(Seq::new(items@.len(), |k: int| items@[k]@) =~= Seq::<Seq<char>>::empty());
        }
        Some((items, a + 1))
    } else {
        match token_x(s, i) {
            Some((c, j)) => {
                if i <= j && j <= s.len() {
                    match token_tail_x(s, j) {
                        Some((rest, k)) => {
                            let ghost spec_rest = (token_tail(s@, j as int)->0).0;
                            let items = cons_chars(c, rest);
                            proof {
                                assert(Seq::new(items@.len(), |p: int| items@[p]@) =~= seq![
                                    (token(s@, i as int)->0).0,
                                ] + spec_rest);
                            }
                            Some((items, k))
                        },
                        None => None,
                    }
                } else {
                    None
                }
            },
            None => None,
        }
    }
}

/// Prepends one text to a list of strings.
fn cons_string(c: Vec<char>, rest: Vec<String>) -> (r: Vec<String>)
    ensures
        Seq::new(r@.len(), |k: int| r@[k]@) == seq![c@] + Seq::new(
            rest@.len(),
            |k: int| rest@[k]@,
        ),
{
    let mut items: Vec<String> = Vec::new();
    items.push(chars_to_string(&c));
    let mut q: usize = 0;
    while q < rest.len()
        invariant
            q <= rest@.len(),
            items@.len() == q + 1,
            items@[0]@ == c@,
            forall|p: int| 0 <= p < q ==> (#[trigger] items@[p + 1])@ == rest@[p]@,
        decreases rest@.len() - q,
    {
        items.push(rest[q].clone());
        q = q + 1;
    }
    proof {
        assert forall|k: int| 0 <= k < items@.len() implies (#[trigger] items@[k])@ == (seq![c@]
            + Seq::new(rest@.len(), |p: int| rest@[p]@))[k] by {
            if k > 0 {
                assert(items@[(k - 1) + 1]@ == rest@[k - 1]@);
            }
        }
        assert(Seq::new(items@.len(), |k: int| items@[k]@) =~= seq![c@] + Seq::new(
            rest@.len(),
            |k: int| rest@[k]@,
        ));
    }
    items
}

/// Prepends one text to a list of texts.
fn cons_chars(c: Vec<char>, rest: Vec<Vec<char>>) -> (r: Vec<Vec<char>>)
    ensures
        Seq::new(r@.len(), |k: int| r@[k]@) == seq![c@] + Seq::new(
            rest@.len(),
            |k: int| rest@[k]@,
        ),
{
    let mut items: Vec<Vec<char>> = Vec::new();
    items.push(c);
    let ghost c0 = items@[0]@;
    let mut q: usize = 0;
    while q < rest.len()
        invariant
            q <= rest@.len(),
            items@.len() == q + 1,
            items@[0]@ == c0,
            forall|p: int| 0 <= p < q ==> (#[trigger] items@[p + 1])@ == rest@[p]@,
        decreases rest@.len() - q,
    {
        let mut part: Vec<char> = Vec::new();
        append_chars(&mut part, &rest[q]);
        proof {
            assert(part@ =~= rest@[q as int]@);
        }
        items.push(part);
        q = q + 1;
    }
    proof {
        assert forall|k: int| 0 <= k < items@.len() implies (#[trigger] items@[k])@ == (seq![c0]
            + Seq::new(rest@.len(), |p: int| rest@[p]@))[k] by {
            if k > 0 {
                assert(items@[(k - 1) + 1]@ == rest@[k - 1]@);
            }
        }
        assert(Seq::new(items@.len(), |k: int| items@[k]@) =~= seq![c0] + Seq::new(
            rest@.len(),
            |k: int| rest@[k]@,
        ));
    }
    items
}

/// One data entry: a quoted key, a colon, and a bracketed value list.
fn entry_x(s: &Vec<char>, i: usize) -> (r: Option<((Vec<char>, Vec<Vec<char>>), usize)>)
    requires
        i <= s@.len(),
    ensures
        match entry(s@, i as int) {
            Some(((key, vals), j)) => r is Some && (r->0).0.0@ == key && Seq::new(
                (r->0).0.1@.len(),
                |k: int| (r->0).0.1@[k]@,
            ) == vals && (r->0).1 as int == j && (r->0).1 <= s@.len(),
            None => r is None,
        },
{
    let a = ws_end_x(s, i);
    match qstring_x(s, a) {
        Some((key, j)) => {
            let b = ws_end_x(s, j);
            if b < s.len() && s[b] == ':' {
                let c = ws_end_x(s, b + 1);
                if c < s.len() && s[c] == '[' {
                    match token_list_x(s, c + 1) {
                        Some((vals, k)) => Some(((key, vals), k)),
                        None => None,
                    }
                } else {
                    None
                }
            } else {
                None
            }
        },
        None => None,
    }
}

/// The entries after the first one of the data object.
fn entries_tail_x(s: &Vec<char>, i: usize) -> (r: Option<(Vec<(Vec<char>, Vec<Vec<char>>)>, usize)>)
    requires
        i <= s@.len(),
    ensures
        match entries_tail(s@, i as int) {
            Some((items, j)) => r is Some && (r->0).0@.len() == items.len() && (forall|k: int|
                0 <= k < items.len() ==> (#[trigger] (r->0).0@[k]).0@ == items[k].0 && Seq::new(
                    (r->0).0@[k].1@.len(),
                    |q: int| (r->0).0@[k].1@[q]@,
                ) == items[k].1) && (r->0).1 as int == j && (r->0).1 <= s@.len(),
            None => r is None,
        },
    decreases s@.len() - i,
{
    let a = ws_end_x(s, i);
    if a < s.len() && s[a] == '}' {
        let items: Vec<(Vec<char>, Vec<Vec<char>>)> = Vec::new();
        Some((items, a + 1))
    } else if a < s.len() && s[a] == ',' {
        match entry_x(s, a + 1) {
            Some((e, j)) => {
                if i < j && j <= s.len() {
                    match entries_tail_x(s, j) {
                        Some((rest, k)) => {
                            let ghost sitems = seq![(entry(s@, a + 1)->0).0] + (entries_tail(
                                s@,
                                j as int,
                            )->0).0;
                            let ghost grest = rest@;
                            let items = cons_entry(e, rest);
                            proof {
                                assert forall|k2: int| 0 <= k2 < sitems.len() implies (
                                #[trigger] items@[k2]).0@ == sitems[k2].0 && Seq::new(
                                    items@[k2].1@.len(),
                                    |q: int| items@[k2].1@[q]@,
                                ) == sitems[k2].1 by {
                                    if k2 > 0 {
                                        assert(items@[(k2 - 1) + 1] == grest[k2 - 1]);
                                    }
                                }
                            }
                            Some((items, k))
                        },
                        None => None,
                    }
                } else {
                    None
                }
            },
            None => None,
        }
    } else {
        None
    }
}

/// The data object's entries, read from just after its opening brace.
fn entries_list_x(s: &Vec<char>, i: usize) -> (r: Option<(Vec<(Vec<char>, Vec<Vec<char>>)>, usize)>)
    requires
        i <= s@.len(),
    ensures
        match entries_list(s@, i as int) {
            Some((items, j)) => r is Some && (r->0).0@.len() == items.len() && (forall|k: int|
                0 <= k < items.len() ==> (#[trigger] (r->0).0@[k]).0@ == items[k].0 && Seq::new(
                    (r->0).0@[k].1@.len(),
                    |q: int| (r->0).0@[k].1@[q]@,
                ) == items[k].1) && (r->0).1 as int == j && (r->0).1 <= s@.len(),
            None => r is None,
        },
{
    let a = ws_end_x(s, i);
    if a < s.len() && s[a] == '}' {
        let items: Vec<(Vec<char>, Vec<Vec<char>>)> = Vec::new();
        Some((items, a + 1))
    } else {
        match entry_x(s, i) {
            Some((e, j)) => {
                if i <= j && j <= s.len() {
                    match entries_tail_x(s, j) {
                        Some((rest, k)) => {
                            let ghost sitems = seq![(entry(s@, i as int)->0).0] + (entries_tail(
                                s@,
                                j as int,
                            )->0).0;
                            let ghost grest = rest@;
                            let items = cons_entry(e, rest);
                            proof {
                                assert forall|k2: int| 0 <= k2 < sitems.len() implies (
                                #[trigger] items@[k2]).0@ == sitems[k2].0 && Seq::new(
                                    items@[k2].1@.len(),
                                    |q: int| items@[k2].1@[q]@,
                                ) == sitems[k2].1 by {
                                    if k2 > 0 {
                                        assert(items@[(k2 - 1) + 1] == grest[k2 - 1]);
                                    }
                                }
                            }
                            Some((items, k))
                        },
                        None => None,
                    }
                } else {
                    None
                }
            },
            None => None,
        }
    }
}

/// Prepends one entry to a list of entries.
fn cons_entry(e: (Vec<char>, Vec<Vec<char>>), rest: Vec<(Vec<char>, Vec<Vec<char>>)>) -> (r: Vec<
    (Vec<char>, Vec<Vec<char>>),
>)
    ensures
        r@.len() == rest@.len() + 1,
        r@[0] == e,
        forall|p: int| 0 <= p < rest@.len() ==> #[trigger] r@[p + 1] == rest@[p],
{
    let mut items: Vec<(Vec<char>, Vec<Vec<char>>)> = Vec::new();
    let ghost e0 = e;
    let ghost orig = rest@;
    let total = rest.len();
    items.push(e);
    let mut rest = rest;
    let mut q: usize = 0;
    while rest.len() > 0
        invariant
            total == orig.len(),
            q + rest@.len() == orig.len(),
            rest@ == orig.skip(q as int),
            items@.len() == q + 1,
            items@[0] == e0,
            forall|p: int| 0 <= p < q ==> #[trigger] items@[p + 1] == orig[p],
        decreases rest@.len(),
    {
        let ghost prev = rest@;
        let x = rest.remove(0);
        proof {
            assert(x == orig[q as int]);
            assert(rest@ =~= orig.skip(q + 1));
        }
        items.push(x);
        q = q + 1;
    }
    proof {
        assert(orig.skip(q as int).len() == 0);
        assert(q == orig.len());
    }
    items
}

/// The whole document: the header list and the data entries.
fn json_doc_x(s: &Vec<char>) -> (r: Option<(Vec<String>, Vec<(Vec<char>, Vec<Vec<char>>)>)>)
    ensures
        match json_doc(s@) {
            Some((headers, entries)) => r is Some && Seq::new(
                (r->0).0@.len(),
                |k: int| (r->0).0@[k]@,
            ) == headers && (r->0).1@.len() == entries.len() && (forall|k: int|
                0 <= k < entries.len() ==> (#[trigger] (r->0).1@[k]).0@ == entries[k].0
                    && Seq::new(
                    (r->0).1@[k].1@.len(),
                    |q: int| (r->0).1@[k].1@[q]@,
                ) == entries[k].1),
            None => r is None,
        },
{
    let a = ws_end_x(s, 0);
    if !(a < s.len() && s[a] == '{') {
        return None;
    }
    let headers_key = str_chars("\"headers\"");
    let b = match expect_lit(s, ws_end_x(s, a + 1), &headers_key) {
        Some(b) => b,
        None => {
            return None;
        },
    };
    let c = ws_end_x(s, b);
    if !(c < s.len() && s[c] == ':') {
        return None;
    }
    let d = ws_end_x(s, c + 1);
    if !(d < s.len() && s[d] == '[') {
        return None;
    }
    let (headers, e) = match string_list_x(s, d + 1) {
        Some(he) => he,
        None => {
            return None;
        },
    };
    let f = ws_end_x(s, e);
    if !(f < s.len() && s[f] == ',') {
        return None;
    }
    let data_key = str_chars("\"data\"");
    let g = match expect_lit(s, ws_end_x(s, f + 1), &data_key) {
        Some(g) => g,
        None => {
            return None;
        },
    };
    let h = ws_end_x(s, g);
    if !(h < s.len() && s[h] == ':') {
        return None;
    }
    let p = ws_end_x(s, h + 1);
    if !(p < s.len() && s[p] == '{') {
        return None;
    }
    let (entries, q) = match entries_list_x(s, p + 1) {
        Some(eq) => eq,
        None => {
            return None;
        },
    };
    let w = ws_end_x(s, q);
    if !(w < s.len() && s[w] == '}') {
        return None;
    }
    if ws_end_x(s, w + 1) != s.len() {
        return None;
    }
    Some((headers, entries))
}

/// A column's tokens parse to exactly the matching cells.
pub(crate) proof fn lemma_parse_col_cells_ok(tokens: Seq<Seq<char>>, kind: Kind, j: int, cells: Seq<ValueView>)
    requires
        cells.len() == tokens.len(),
        forall|i: int|
            0 <= i < tokens.len() ==> parse_cell_spec(kind, tokens[i]) == Some(#[trigger] cells[i]),
    ensures
        parse_col_cells(tokens, kind, j, 0) == Ok::<Seq<ValueView>, DataError>(cells),
{
    lemma_parse_col_cells_suffix(tokens, kind, j, cells, 0);
    assert(cells.skip(0) =~= cells);
}

/// A column's tokens from position `i` on parse to the matching suffix.
proof fn lemma_parse_col_cells_suffix(
    tokens: Seq<Seq<char>>,
    kind: Kind,
    j: int,
    cells: Seq<ValueView>,
    i: int,
)
    requires
        cells.len() == tokens.len(),
        0 <= i <= tokens.len(),
        forall|q: int|
            0 <= q < tokens.len() ==> parse_cell_spec(kind, tokens[q]) == Some(#[trigger] cells[q]),
    ensures
        parse_col_cells(tokens, kind, j, i) == Ok::<Seq<ValueView>, DataError>(cells.skip(i)),
    decreases tokens.len() - i,
{
    if i == tokens.len() {
        assert(cells.skip(i) =~= Seq::<ValueView>::empty());
    } else {
        lemma_parse_col_cells_suffix(tokens, kind, j, cells, i + 1);
        assert(seq![cells[i]] + cells.skip(i + 1) =~= cells.skip(i));
    }
}

/// A column's tokens fail to parse at the first failing token.
proof fn lemma_parse_col_cells_err(tokens: Seq<Seq<char>>, kind: Kind, j: int, bad: int, i: int)
    requires
        0 <= i <= bad < tokens.len(),
        forall|q: int| 0 <= q < bad ==> parse_cell_spec(kind, #[trigger] tokens[q]) is Some,
        parse_cell_spec(kind, tokens[bad]) is None,
    ensures
        parse_col_cells(tokens, kind, j, i) == Err::<Seq<ValueView>, DataError>(
            DataError::ParseError { row: bad as usize, col: j as usize },
        ),
    decreases bad - i,
{
    if i < bad {
        lemma_parse_col_cells_err(tokens, kind, j, bad, i + 1);
    }
}

impl Table {
    /// Reads a table from its JSON dialect under the given column kinds: the
    /// `headers` array becomes the header, each `data` entry one column.
    /// Rejects unreadable syntax, a header list or entry count that does not
    /// match the kind list, an entry key out of step with the header, value
    /// arrays of unequal length, and reports the row and column of the first
    /// value that fails to convert.
    pub fn from_json_string(s: &str, kinds: &Vec<Kind>) -> (r: Result<Table, DataError>)
        ensures
            match json_parse(s@, kinds@) {
                Ok(tv) => r is Ok && r->Ok_0@ == tv && r->Ok_0.wf(),
                Err(e) => r == Err::<Table, DataError>(e),
            },
    {
        let chars = str_chars(s);
        let (headers, entries) = match json_doc_x(&chars) {
            Some(doc) => doc,
            None => {
                return Err(DataError::MalformedDocument { defect: DocDefect::BadSyntax });
            },
        };
        let ghost gheaders = (json_doc(s@)->0).0;
        let ghost gentries = (json_doc(s@)->0).1;
        if headers.len() != kinds.len() {
            return Err(DataError::MalformedDocument { defect: DocDefect::HeaderArity });
        }
        if entries.len() != kinds.len() {
            return Err(DataError::MalformedDocument { defect: DocDefect::KeyMismatch });
        }
        let mut cols: Vec<Column> = Vec::new();
        let ghost mut cols_acc: Seq<Seq<ValueView>> = Seq::empty();
        proof {
            assert(cols_acc + parse_cols(gentries, gheaders, kinds@, 0)->Ok_0 =~= parse_cols(
                gentries,
                gheaders,
                kinds@,
                0,
            )->Ok_0);
        }
        let mut j: usize = 0;
        while j < kinds.len()
            invariant
                json_doc(s@) == Some::<(Seq<Seq<char>>, Seq<(Seq<char>, Seq<Seq<char>>)>)>(
                    (gheaders, gentries),
                ),
                gheaders.len() == kinds@.len(),
                gentries.len() == kinds@.len(),
                headers@.len() == kinds@.len(),
                entries@.len() == kinds@.len(),
                Seq::new(headers@.len(), |k: int| headers@[k]@) == gheaders,
                forall|k: int|
                    0 <= k < gentries.len() ==> (#[trigger] entries@[k]).0@ == gentries[k].0
                        && Seq::new(
                        entries@[k].1@.len(),
                        |q: int| entries@[k].1@[q]@,
                    ) == gentries[k].1,
                j <= kinds@.len(),
                cols@.len() == j,
                cols_acc.len() == j,
                (match parse_cols(gentries, gheaders, kinds@, j as int) {
                    Ok(rest) => parse_cols(gentries, gheaders, kinds@, 0) == Ok::<
                        Seq<Seq<ValueView>>,
                        DataError,
                    >(cols_acc + rest),
                    Err(e) => parse_cols(gentries, gheaders, kinds@, 0) == Err::<
                        Seq<Seq<ValueView>>,
                        DataError,
                    >(e),
                }),
                forall|k: int|
                    0 <= k < j ==> (#[trigger] cols@[k]).kind_spec() == kinds@[k] && cols@[k].wf()
                        && cols@[k]@ == cols_acc[k],
                forall|k: int|
                    0 <= k < j ==> #[trigger] cols_acc[k].len() == gentries[0].1.len(),
            decreases kinds@.len() - j,
        {
            let hk = str_chars(headers[j].as_str());
            proof {
                assert(headers@[j as int]@ == gheaders[j as int]);
                assert(entries@[j as int].0@ == gentries[j as int].0);
            }
            if !chars_eq(&entries[j].0, &hk) {
                proof {
                    let e = DataError::MalformedDocument { defect: DocDefect::KeyMismatch };
                    assert(parse_cols(gentries, gheaders, kinds@, j as int) == Err::<
                        Seq<Seq<ValueView>>,
                        DataError,
                    >(e));
                }
                return Err(DataError::MalformedDocument { defect: DocDefect::KeyMismatch });
            }
            let expected_rows = entries[0].1.len();
            proof {
                assert(entries@[0].1@.len() == gentries[0].1.len());
                assert(entries@[j as int].1@.len() == gentries[j as int].1.len());
            }
            if entries[j].1.len() != expected_rows {
                proof {
                    let e = DataError::MalformedDocument { defect: DocDefect::RowCountMismatch };
                    assert(parse_cols(gentries, gheaders, kinds@, j as int) == Err::<
                        Seq<Seq<ValueView>>,
                        DataError,
                    >(e));
                }
                return Err(DataError::MalformedDocument { defect: DocDefect::RowCountMismatch });
            }
            let ghost gtokens = gentries[j as int].1;
            let mut col = Column::empty_of(kinds[j]);
            let mut vals: Vec<Value> = Vec::new();
            let mut i: usize = 0;
            while i < expected_rows
                invariant
                    json_doc(s@) == Some::<(Seq<Seq<char>>, Seq<(Seq<char>, Seq<Seq<char>>)>)>(
                        (gheaders, gentries),
                    ),
                    gheaders.len() == kinds@.len(),
                    gentries.len() == kinds@.len(),
                    j < kinds@.len(),
                    gentries[j as int].0 == gheaders[j as int],
                    gentries[j as int].1.len() == gentries[0].1.len(),
                    (match parse_cols(gentries, gheaders, kinds@, j as int) {
                        Ok(rest) => parse_cols(gentries, gheaders, kinds@, 0) == Ok::<
                            Seq<Seq<ValueView>>,
                            DataError,
                        >(cols_acc + rest),
                        Err(e) => parse_cols(gentries, gheaders, kinds@, 0) == Err::<
                            Seq<Seq<ValueView>>,
                            DataError,
                        >(e),
                    }),
                    gtokens == gentries[j as int].1,
                    entries@.len() == kinds@.len(),
                    entries@[j as int].1@.len() == gtokens.len(),
                    Seq::new(
                        entries@[j as int].1@.len(),
                        |q: int| entries@[j as int].1@[q]@,
                    ) == gtokens,
                    expected_rows == gtokens.len(),
                    i <= expected_rows,
                    col.kind_spec() == kinds@[j as int],
                    col.wf(),
                    col@.len() == i,
                    forall|q: int|
                        0 <= q < i ==> parse_cell_spec(kinds@[j as int], gtokens[q]) == Some(
                            #[trigger] col@[q],
                        ),
                decreases expected_rows - i,
            {
                proof {
                    assert(entries@[j as int].1@[i as int]@ == gtokens[i as int]);
                }
                match parse_cell(kinds[j], &entries[j].1[i]) {
                    Some(v) => {
                        let res = col.push(v);
                        proof {
                            assert(res is Ok);
                        }
                    },
                    None => {
                        proof {
                            let e = DataError::ParseError { row: i, col: j };
                            assert forall|q: int| 0 <= q < i implies parse_cell_spec(
                                kinds@[j as int],
                                #[trigger] gtokens[q],
                            ) is Some by {
                                assert(parse_cell_spec(kinds@[j as int], gtokens[q]) == Some(
                                    col@[q],
                                ));
                            }
                            lemma_parse_col_cells_err(
                                gtokens,
                                kinds@[j as int],
                                j as int,
                                i as int,
                                0,
                            );
                            assert(parse_cols(gentries, gheaders, kinds@, j as int) == Err::<
                                Seq<Seq<ValueView>>,
                                DataError,
                            >(e));
                        }
                        return Err(DataError::ParseError { row: i, col: j });
                    },
                }
                i = i + 1;
            }
            proof {
                lemma_parse_col_cells_ok(gtokens, kinds@[j as int], j as int, col@);
            }
            cols.push(col);
            proof {
                let prev = cols_acc;
                cols_acc = cols_acc.push(cols@[j as int]@);
                let after = parse_cols(gentries, gheaders, kinds@, j + 1);
                assert(parse_cols(gentries, gheaders, kinds@, j as int) == (match after {
                    Ok(rest) => Ok::<Seq<Seq<ValueView>>, DataError>(
                        seq![cols@[j as int]@] + rest,
                    ),
                    Err(e) => Err::<Seq<Seq<ValueView>>, DataError>(e),
                }));
                if after is Ok {
                    let rest = after->Ok_0;
                    assert(prev + (seq![cols@[j as int]@] + rest) =~= cols_acc + rest);
                }
            }
            j = j + 1;
        }
        let t = Table { header: headers, cols };
        proof {
            assert(parse_cols(gentries, gheaders, kinds@, kinds@.len() as int) == Ok::<
                Seq<Seq<ValueView>>,
                DataError,
            >(Seq::empty()));
            assert(cols_acc + Seq::<Seq<ValueView>>::empty() =~= cols_acc);
            let tv = json_parse(s@, kinds@)->Ok_0;
            assert(t@.header =~= gheaders);
            assert(t@.kinds =~= kinds@);
            assert(t@.cols =~= cols_acc);
            assert(t@ =~= tv);
            assert forall|k: int| 0 <= k < t.cols@.len() implies (#[trigger] t.cols@[k])@.len()
                == t@.nrows() by {
                if t.cols@.len() > 0 {
                    assert(cols_acc[0].len() == gentries[0].1.len());
                    assert(cols_acc[k].len() == gentries[0].1.len());
                }
            }
        }
        Ok(t)
    }
}

} // verus!
