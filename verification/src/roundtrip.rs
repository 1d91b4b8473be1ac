//! The encode-then-decode laws for the two text encodings.
//!
//! For the JSON dialect: reading back what
//! [`crate::table::Table::to_json_string`] wrote reproduces the table's
//! header and columns exactly, for any well-formed table whose header names
//! every column and whose labels and string cells carry no double quote or
//! backslash (the dialect writes strings without escaping, so those two
//! characters do not survive a round trip).
//!
//! For the delimited text: reading back what
//! [`crate::table::Table::to_csv_string`] wrote reproduces the table
//! exactly, for any well-formed table whose header names every column and
//! whose labels and cell texts hold neither the delimiter nor a line break
//! nor edge whitespace (the format has no quoting, so such characters do
//! not survive a round trip).

use vstd::prelude::*;

use crate::table::TableView;
use crate::value::{
    ValueView, cell_text, numeric_text, int_text, bool_text, is_digit, is_sign, digits_run,
    after_frac, exp_closes, dec_digits, kind_of, value_wf, parse_cell_spec,
    lemma_cell_text_roundtrip, lemma_dec_digits,
};
use crate::render::join_texts;
use crate::csv::{
    csv_text, record_text, body_records, csv_lines, record_fields, parse_record, parse_data_rows,
    csv_parse, split_on, find_char, trim_text, trim_start, trim_end, is_field_ws,
};
use crate::json::{
    quoted, enc_cell, entry_name, entry_text, entries_upto, json_text, is_json_ws, ws_end, lit_end,
    qcontent, qstring, string_tail, string_list, raw_end, ws_trim_end, token, token_tail,
    token_list, entry, entries_tail, entries_list, json_doc, parse_cols, json_parse,
};

verus! {

/// A text free of double quotes and backslashes: it survives being written
/// between quotes without escaping.
pub open spec fn text_safe(s: Seq<char>) -> bool {
    forall|i: int| 0 <= i < s.len() ==> s[i] != '"' && s[i] != '\\'
}

/// A character a raw (unquoted) token may hold: anything but the characters
/// that end or separate tokens.
pub open spec fn plain_char(c: char) -> bool {
    c != ',' && c != ']' && c != '"' && !is_json_ws(c)
}

/// Every character of a raw token text is plain.
pub open spec fn plain_text(s: Seq<char>) -> bool {
    forall|i: int| 0 <= i < s.len() ==> plain_char(#[trigger] s[i])
}

// ---------------------------------------------------------------------------
// Character classes of the canonical texts
// ---------------------------------------------------------------------------

/// Digits within a digit run.
proof fn lemma_digits_run_chars(s: Seq<char>, i: int, k: int)
    requires
        0 <= i <= k < digits_run(s, i),
    ensures
        is_digit(s[k]),
    decreases k - i,
{
    if i < s.len() && is_digit(s[i]) {
        if k > i {
            lemma_digits_run_chars(s, i + 1, k);
        }
    }
}

/// A digit run stays within the text.
proof fn lemma_digits_run_le(s: Seq<char>, i: int)
    requires
        0 <= i <= s.len(),
    ensures
        i <= digits_run(s, i) <= s.len(),
    decreases s.len() - i,
{
    if i < s.len() && is_digit(s[i]) {
        lemma_digits_run_le(s, i + 1);
    }
}

/// Every character of a numeric literal is plain.
pub proof fn lemma_numeric_text_plain(s: Seq<char>)
    requires
        numeric_text(s),
    ensures
        plain_text(s),
{
    let start: int = if s.len() > 0 && is_sign(s[0]) {
        1
    } else {
        0
    };
    let after_int = digits_run(s, start);
    let frac = after_frac(s, after_int);
    lemma_digits_run_le(s, start);
    assert forall|i: int| 0 <= i < s.len() implies plain_char(#[trigger] s[i]) by {
        if i < start {
            assert(is_sign(s[i]));
        } else if i < after_int {
            lemma_digits_run_chars(s, start, i);
        } else {
            assert(frac >= 0);
            if frac > after_int {
                // a fractional part: a dot, then digits up to `frac`
                lemma_digits_run_le(s, after_int + 1);
                if i == after_int {
                    assert(s[i] == '.');
                } else if i < frac {
                    lemma_digits_run_chars(s, after_int + 1, i);
                } else {
                    lemma_exp_chars(s, frac, i);
                }
            } else {
                lemma_exp_chars(s, after_int, i);
            }
        }
    }
}

/// Every character of an exponent part is plain.
proof fn lemma_exp_chars(s: Seq<char>, i2: int, i: int)
    requires
        exp_closes(s, i2),
        i2 <= i < s.len(),
    ensures
        plain_char(s[i]),
{
    if i2 < s.len() {
        let j = if i2 + 1 < s.len() && is_sign(s[i2 + 1]) {
            i2 + 2
        } else {
            i2 + 1
        };
        if i == i2 {
        } else if i < j {
            assert(is_sign(s[i]));
        } else {
            lemma_digits_run_chars(s, j, i);
        }
    }
}

/// Every character of a boolean text is plain.
pub proof fn lemma_bool_text_plain(b: bool)
    ensures
        plain_text(bool_text(b)),
        bool_text(b).len() > 0,
        bool_text(b)[0] != '"',
{
    reveal_strlit("true");
    reveal_strlit("false");
    if b {
        assert forall|i: int| 0 <= i < bool_text(b).len() implies plain_char(
            #[trigger] bool_text(b)[i],
        ) by {
            assert(bool_text(b) == "true"@);
        }
    } else {
        assert forall|i: int| 0 <= i < bool_text(b).len() implies plain_char(
            #[trigger] bool_text(b)[i],
        ) by {
            assert(bool_text(b) == "false"@);
        }
    }
}

// ---------------------------------------------------------------------------
// Scanning a printed piece recovers the piece
// ---------------------------------------------------------------------------

/// Scanning quote-free content up to a closing quote recovers the content.
pub proof fn lemma_qcontent_at(s: Seq<char>, i: int, c: Seq<char>)
    requires
        text_safe(c),
        0 <= i,
        i + c.len() < s.len(),
        s.subrange(i, i + c.len()) == c,
        s[i + c.len()] == '"',
    ensures
        qcontent(s, i) == Some((c, i + c.len() + 1)),
    decreases c.len(),
{
    if c.len() == 0 {
        assert(s[i] == '"');
    } else {
        assert(s[i] == c[0]) by {
            assert(s.subrange(i, i + c.len())[0] == s[i]);
        }
        assert(c[0] != '"' && c[0] != '\\');
        let c2 = c.drop_first();
        assert(text_safe(c2));
        assert(s.subrange(i + 1, i + 1 + c2.len()) =~= c2) by {
            assert(forall|k: int|
                0 <= k < c2.len() ==> s.subrange(i + 1, i + 1 + c2.len())[k] == s[i + 1 + k]
                    && #[trigger] c2[k] == c[k + 1]);
            assert(forall|k: int|
                0 <= k < c.len() ==> #[trigger] s.subrange(i, i + c.len())[k] == s[i + k]);
        }
        lemma_qcontent_at(s, i + 1, c2);
        assert(seq![c[0]] + c2 =~= c);
    }
}

/// Scanning a printed quoted string recovers its content.
pub proof fn lemma_qstring_at(s: Seq<char>, i: int, c: Seq<char>)
    requires
        text_safe(c),
        0 <= i,
        i + c.len() + 2 <= s.len(),
        s.subrange(i, i + c.len() + 2) == quoted(c),
    ensures
        qstring(s, i) == Some((c, i + c.len() + 2)),
{
    assert(s[i] == '"') by {
        assert(s.subrange(i, i + c.len() + 2)[0] == s[i]);
        assert(quoted(c)[0] == '"');
    }
    assert(s.subrange(i + 1, i + 1 + c.len()) =~= c) by {
        assert(forall|k: int|
            0 <= k < c.len() + 2 ==> #[trigger] s.subrange(i, i + c.len() + 2)[k] == s[i + k]);
        assert(forall|k: int| 0 <= k < c.len() ==> quoted(c)[k + 1] == #[trigger] c[k]);
    }
    assert(s[i + 1 + c.len()] == '"') by {
        assert(s.subrange(i, i + c.len() + 2)[c.len() as int + 1] == s[i + c.len() + 1]);
        assert(quoted(c)[c.len() as int + 1] == '"');
    }
    lemma_qcontent_at(s, i + 1, c);
}

/// Scanning a printed raw token recovers its trimmed text.
pub proof fn lemma_raw_token_at(s: Seq<char>, i: int, c: Seq<char>)
    requires
        plain_text(c),
        c.len() > 0,
        0 <= i,
        i + c.len() < s.len(),
        s.subrange(i, i + c.len()) == c,
        s[i + c.len()] == ',' || s[i + c.len()] == ']',
    ensures
        token(s, i) == Some((c, i + c.len())),
{
    assert(forall|k: int| 0 <= k < c.len() ==> #[trigger] s.subrange(i, i + c.len())[k] == s[i
        + k]);
    assert(s[i] == c[0]);
    assert(!is_json_ws(s[i]) && s[i] != '"');
    assert(ws_end(s, i) == i);
    lemma_raw_end_at(s, i, i + c.len(), c);
    assert(ws_trim_end(s.subrange(i, i + c.len())) == c) by {
        assert(!is_json_ws(c.last()));
    }
}

/// A raw run over plain characters ends exactly at the stopping character.
proof fn lemma_raw_end_at(s: Seq<char>, i: int, e: int, c: Seq<char>)
    requires
        0 <= i <= e < s.len(),
        c.len() == e - i,
        forall|k: int| 0 <= k < c.len() ==> plain_char(#[trigger] c[k]) && s[i + k] == c[k],
        s[e] == ',' || s[e] == ']',
    ensures
        raw_end(s, i) == e,
    decreases e - i,
{
    if i < e {
        assert(s[i] == c[0] && plain_char(c[0]));
        let c2 = c.drop_first();
        assert(forall|k: int|
            0 <= k < c2.len() ==> plain_char(#[trigger] c2[k]) && s[i + 1 + k] == c2[k]) by {
            assert(forall|k: int| 0 <= k < c2.len() ==> #[trigger] c2[k] == c[k + 1]);
        }
        lemma_raw_end_at(s, i + 1, e, c2);
    }
}

/// A whitespace run ends exactly at the first non-whitespace character.
proof fn lemma_ws_run(s: Seq<char>, i: int, a: int)
    requires
        0 <= i <= a <= s.len(),
        forall|k: int| i <= k < a ==> is_json_ws(#[trigger] s[k]),
        a < s.len() ==> !is_json_ws(s[a]),
    ensures
        ws_end(s, i) == (if a < s.len() {
            a
        } else {
            s.len() as int
        }),
    decreases a - i,
{
    if i < a {
        lemma_ws_run(s, i + 1, a);
    }
}

/// The rest of a joined list, seen from after its first part.
pub open spec fn join_rest(parts: Seq<Seq<char>>, sep: Seq<char>) -> Seq<char>
    decreases parts.len(),
{
    if parts.len() == 0 {
        Seq::empty()
    } else {
        sep + parts[0] + join_rest(parts.drop_first(), sep)
    }
}

/// Appending one more part extends the rest of a joined list.
#[verifier::rlimit(50)]
proof fn lemma_join_rest_push(parts: Seq<Seq<char>>, sep: Seq<char>, x: Seq<char>)
    ensures
        join_rest(parts.push(x), sep) == join_rest(parts, sep) + sep + x,
    decreases parts.len(),
{
    if parts.len() == 0 {
        assert(parts.push(x).drop_first() =~= Seq::<Seq<char>>::empty());
        assert(parts.push(x)[0] == x);
        assert(join_rest(parts, sep) == Seq::<char>::empty());
        assert(join_rest(parts.push(x).drop_first(), sep) == Seq::<char>::empty());
        assert(join_rest(parts.push(x), sep) == sep + x + Seq::<char>::empty());
        assert(join_rest(parts.push(x), sep) =~= join_rest(parts, sep) + sep + x);
    } else {
        assert(parts.push(x).drop_first() =~= parts.drop_first().push(x));
        assert(parts.push(x)[0] == parts[0]);
        lemma_join_rest_push(parts.drop_first(), sep, x);
        assert(join_rest(parts.push(x), sep) == sep + parts.push(x)[0] + join_rest(
            parts.push(x).drop_first(),
            sep,
        ));
        assert(join_rest(parts.push(x).drop_first(), sep) == join_rest(parts.drop_first(), sep)
            + sep + x);
        let a = sep + parts[0];
        let b = join_rest(parts.drop_first(), sep);
        vstd::seq_lib::lemma_concat_associative(a, b + sep, x);
        vstd::seq_lib::lemma_concat_associative(a, b, sep);
        vstd::seq_lib::lemma_concat_associative(b, sep, x);
        vstd::seq_lib::lemma_concat_associative(a, b, sep + x);
        assert(join_rest(parts.push(x), sep) == a + (b + sep + x));
        assert(a + (b + sep + x) =~= a + b + sep + x) by {
            assert(b + sep + x =~= b + (sep + x));
            assert(a + (b + (sep + x)) =~= a + b + (sep + x));
            assert(a + b + (sep + x) =~= a + b + sep + x);
        }
        assert(join_rest(parts, sep) + sep + x == a + b + sep + x);
    }
}

/// A joined list read from the front: its first part, then the rest.
pub proof fn lemma_join_front(parts: Seq<Seq<char>>, sep: Seq<char>)
    requires
        parts.len() > 0,
    ensures
        join_texts(parts, sep) == parts[0] + join_rest(parts.drop_first(), sep),
    decreases parts.len(),
{
    if parts.len() == 1 {
        assert(parts.drop_first() =~= Seq::<Seq<char>>::empty());
        assert(join_texts(parts, sep) =~= parts[0] + join_rest(parts.drop_first(), sep));
    } else {
        let d = parts.drop_last();
        lemma_join_front(d, sep);
        assert(d[0] == parts[0]);
        lemma_join_rest_push(d.drop_first(), sep, parts.last());
        assert(d.drop_first().push(parts.last()) =~= parts.drop_first());
        assert(join_texts(parts, sep) =~= parts[0] + join_rest(parts.drop_first(), sep));
    }
}

// ---------------------------------------------------------------------------
// Scanning printed lists
// ---------------------------------------------------------------------------

/// The text of a quoted-string list after its first item: for each further
/// label a separator and the quoted label, then the closing bracket.
pub open spec fn labels_tail_seg(labels: Seq<Seq<char>>) -> Seq<char>
    decreases labels.len(),
{
    if labels.len() == 0 {
        seq![']']
    } else {
        ", "@ + quoted(labels[0]) + labels_tail_seg(labels.drop_first())
    }
}

/// The whole text of a bracketed quoted-string list, from just after the
/// opening bracket through the closing bracket.
pub open spec fn labels_seg(labels: Seq<Seq<char>>) -> Seq<char> {
    if labels.len() == 0 {
        seq![']']
    } else {
        quoted(labels[0]) + labels_tail_seg(labels.drop_first())
    }
}

/// The printed header list is the label segment.
pub proof fn lemma_labels_seg(labels: Seq<Seq<char>>)
    ensures
        join_texts(Seq::new(labels.len(), |i: int| quoted(labels[i])), ", "@) + seq![']']
            == labels_seg(labels),
    decreases labels.len(),
{
    let parts = Seq::new(labels.len(), |i: int| quoted(labels[i]));
    if labels.len() == 0 {
        assert(join_texts(parts, ", "@) + seq![']'] =~= labels_seg(labels));
    } else {
        lemma_join_front(parts, ", "@);
        lemma_labels_rest(labels.drop_first());
        assert(parts.drop_first() =~= Seq::new(
            labels.drop_first().len(),
            |i: int| quoted(labels.drop_first()[i]),
        )) by {
            assert(forall|i: int|
                0 <= i < labels.len() - 1 ==> #[trigger] labels.drop_first()[i] == labels[i + 1]);
        }
        assert(join_texts(parts, ", "@) + seq![']'] =~= labels_seg(labels));
    }
}

/// The rest of the printed header list is the tail segment.
proof fn lemma_labels_rest(labels: Seq<Seq<char>>)
    ensures
        join_rest(Seq::new(labels.len(), |i: int| quoted(labels[i])), ", "@) + seq![']']
            == labels_tail_seg(labels),
    decreases labels.len(),
{
    let parts = Seq::new(labels.len(), |i: int| quoted(labels[i]));
    if labels.len() == 0 {
        assert(join_rest(parts, ", "@) + seq![']'] =~= labels_tail_seg(labels));
    } else {
        lemma_labels_rest(labels.drop_first());
        assert(parts.drop_first() =~= Seq::new(
            labels.drop_first().len(),
            |i: int| quoted(labels.drop_first()[i]),
        )) by {
            assert(forall|i: int|
                0 <= i < labels.len() - 1 ==> #[trigger] labels.drop_first()[i] == labels[i + 1]);
        }
        assert(parts[0] == quoted(labels[0]));
        assert(join_rest(parts, ", "@) + seq![']'] =~= labels_tail_seg(labels));
    }
}

/// Scanning the tail of a printed quoted-string list recovers the labels.
proof fn lemma_string_tail_at(s: Seq<char>, i: int, labels: Seq<Seq<char>>, end: int)
    requires
        forall|k: int| 0 <= k < labels.len() ==> text_safe(#[trigger] labels[k]),
        0 <= i,
        end < s.len(),
        i + labels_tail_seg(labels).len() == end,
        s.subrange(i, end) == labels_tail_seg(labels),
    ensures
        string_tail(s, i) == Some((labels, end)),
    decreases labels.len(),
{
    reveal_strlit(", ");
    let seg = labels_tail_seg(labels);
    assert(forall|k: int| 0 <= k < seg.len() ==> #[trigger] s.subrange(i, end)[k] == s[i + k]);
    if labels.len() == 0 {
        assert(s.subrange(i, end)[0] == s[i]);
        assert(seg[0] == ']');
        assert(s[i] == ']');
        assert(ws_end(s, i) == i);
    } else {
        let l0 = labels[0];
        let rest = labels.drop_first();
        assert(seg[0] == ',' && seg[1] == ' ');
        assert(s[i] == ',');
        assert(ws_end(s, i) == i);
        assert(seg[2] == quoted(l0)[0]);
        assert(s[i + 2] == '"');
        assert(is_json_ws(s[i + 1]) && !is_json_ws(s[i + 2]));
        lemma_ws_run(s, i + 1, i + 2);
        assert(s.subrange(i + 2, i + 2 + l0.len() + 2) =~= quoted(l0)) by {
            assert(forall|k: int|
                0 <= k < l0.len() + 2 ==> seg[2 + k] == #[trigger] quoted(l0)[k]);
        }
        lemma_qstring_at(s, i + 2, l0);
        let j = i + 2 + l0.len() + 2;
        assert(s.subrange(j, end) =~= labels_tail_seg(rest)) by {
            assert(forall|k: int|
                0 <= k < labels_tail_seg(rest).len() ==> seg[2 + l0.len() + 2 + k]
                    == #[trigger] labels_tail_seg(rest)[k]);
        }
        lemma_string_tail_at(s, j, rest, end);
        assert(seq![l0] + rest =~= labels);
    }
}

/// Scanning a printed quoted-string list recovers the labels.
pub proof fn lemma_string_list_at(s: Seq<char>, i: int, labels: Seq<Seq<char>>, end: int)
    requires
        forall|k: int| 0 <= k < labels.len() ==> text_safe(#[trigger] labels[k]),
        0 <= i,
        end < s.len(),
        i + labels_seg(labels).len() == end,
        s.subrange(i, end) == labels_seg(labels),
    ensures
        string_list(s, i) == Some((labels, end)),
{
    let seg = labels_seg(labels);
    assert(forall|k: int| 0 <= k < seg.len() ==> #[trigger] s.subrange(i, end)[k] == s[i + k]);
    if labels.len() == 0 {
        assert(s.subrange(i, end)[0] == s[i]);
        assert(seg[0] == ']');
        assert(s[i] == ']');
        assert(ws_end(s, i) == i);
    } else {
        let l0 = labels[0];
        let rest = labels.drop_first();
        assert(seg[0] == quoted(l0)[0]);
        assert(s[i] == '"');
        assert(ws_end(s, i) == i);
        assert(s.subrange(i, i + l0.len() + 2) =~= quoted(l0)) by {
            assert(forall|k: int| 0 <= k < l0.len() + 2 ==> seg[k] == #[trigger] quoted(l0)[k]);
        }
        lemma_qstring_at(s, i, l0);
        let j = i + l0.len() + 2;
        assert(s.subrange(j, end) =~= labels_tail_seg(rest)) by {
            assert(forall|k: int|
                0 <= k < labels_tail_seg(rest).len() ==> seg[l0.len() + 2 + k]
                    == #[trigger] labels_tail_seg(rest)[k]);
        }
        lemma_string_tail_at(s, j, rest, end);
        assert(seq![l0] + rest =~= labels);
    }
}

// ---------------------------------------------------------------------------
// Scanning printed cells and cell lists
// ---------------------------------------------------------------------------

/// A cell the dialect can round-trip: well formed, and free of quotes and
/// backslashes where it is a string.
pub open spec fn enc_ok(v: ValueView) -> bool {
    &&& value_wf(v)
    &&& match v {
        ValueView::Str(t) => text_safe(t),
        _ => true,
    }
}

/// Digit runs over all-digit text reach its end.
proof fn lemma_digits_run_all(s: Seq<char>, i: int)
    requires
        0 <= i <= s.len(),
        forall|k: int| i <= k < s.len() ==> is_digit(#[trigger] s[k]),
    ensures
        digits_run(s, i) == s.len(),
    decreases s.len() - i,
{
    if i < s.len() {
        lemma_digits_run_all(s, i + 1);
    }
}

/// A decimal integer text is a numeric literal.
pub proof fn lemma_int_text_numeric(v: int)
    ensures
        numeric_text(int_text(v)),
{
    let t = int_text(v);
    let n = if v < 0 {
        (-v) as nat
    } else {
        v as nat
    };
    lemma_dec_digits(n);
    let start: int = if t.len() > 0 && is_sign(t[0]) {
        1
    } else {
        0
    };
    assert('+' as u32 == 43 && '-' as u32 == 45);
    if v < 0 {
        assert(t[0] == '-');
        assert(forall|k: int| 1 <= k < t.len() ==> is_digit(#[trigger] t[k])) by {
            assert(forall|k: int|
                0 <= k < dec_digits(n).len() ==> is_digit(#[trigger] dec_digits(n)[k]));
            assert(forall|k: int| 1 <= k < t.len() ==> t[k] == dec_digits(n)[k - 1]);
        }
        assert(start == 1);
        lemma_digits_run_all(t, 1);
    } else {
        assert(t == dec_digits(n));
        assert(is_digit(t[0]));
        assert(!is_sign(t[0]));
        assert(start == 0);
        lemma_digits_run_all(t, 0);
    }
    assert(after_frac(t, t.len() as int) == t.len());
    assert(exp_closes(t, t.len() as int));
}

/// A numeric literal is not empty.
proof fn lemma_numeric_nonempty(s: Seq<char>)
    requires
        numeric_text(s),
    ensures
        s.len() > 0,
{
    if s.len() == 0 {
        assert(digits_run(s, 0) == 0);
    }
}

/// The canonical text of a round-trippable cell is never empty where it is
/// written raw, and its raw form is plain.
proof fn lemma_enc_raw_plain(v: ValueView)
    requires
        enc_ok(v),
        enc_cell(v) == cell_text(v),
    ensures
        plain_text(cell_text(v)),
        cell_text(v).len() > 0,
    decreases 0int,
{
    let t = cell_text(v);
    if numeric_text(t) {
        lemma_numeric_text_plain(t);
        lemma_numeric_nonempty(t);
    } else if t == "true"@ {
        lemma_bool_text_plain(true);
        assert(bool_text(true) == t);
    } else if t == "false"@ {
        lemma_bool_text_plain(false);
        assert(bool_text(false) == t);
    } else {
        // the cell would have been quoted
        match v {
            ValueView::Int(x) => {
                lemma_int_text_numeric(x as int);
                assert(false);
            },
            ValueView::Real(_) => {
                assert(false);
            },
            ValueView::Bool(b) => {
                assert(t == bool_text(b));
                assert(false);
            },
            ValueView::Str(_) => {
                assert(false);
            },
        }
    }
}

/// Scanning one printed cell recovers its canonical text.
pub proof fn lemma_token_at(s: Seq<char>, i: int, a: int, v: ValueView)
    requires
        enc_ok(v),
        0 <= i <= a,
        ws_end(s, i) == a,
        a + enc_cell(v).len() < s.len(),
        s.subrange(a, a + enc_cell(v).len()) == enc_cell(v),
        s[a + enc_cell(v).len()] == ',' || s[a + enc_cell(v).len()] == ']',
    ensures
        token(s, i) == Some((cell_text(v), a + enc_cell(v).len())),
{
    let t = cell_text(v);
    let e = enc_cell(v);
    assert(forall|k: int| 0 <= k < e.len() ==> #[trigger] s.subrange(a, a + e.len())[k] == s[a + k]);
    if numeric_text(t) || t == "true"@ || t == "false"@ {
        assert(e == t);
        lemma_enc_raw_plain(v);
        assert(s[a] == t[0]);
        assert(plain_char(t[0]));
        lemma_raw_end_at(s, a, a + t.len(), t);
        assert(ws_trim_end(s.subrange(a, a + t.len())) == t) by {
            assert(!is_json_ws(t.last()));
        }
    } else {
        assert(e == quoted(t));
        match v {
            ValueView::Int(x) => {
                lemma_int_text_numeric(x as int);
                assert(false);
            },
            ValueView::Real(_) => {},
            ValueView::Bool(b) => {
                assert(t == bool_text(b));
            },
            ValueView::Str(_) => {},
        }
        assert(text_safe(t));
        assert(s[a] == '"') by {
            assert(quoted(t)[0] == '"');
        }
        assert(s.subrange(a + 1, a + 1 + t.len()) =~= t) by {
            assert(forall|k: int| 0 <= k < t.len() ==> quoted(t)[k + 1] == #[trigger] t[k]);
        }
        assert(s[a + 1 + t.len()] == '"') by {
            assert(quoted(t)[t.len() as int + 1] == '"');
        }
        lemma_qcontent_at(s, a + 1, t);
    }
}

/// The text of a printed cell list after its first cell.
pub open spec fn cells_tail_seg(cells: Seq<ValueView>) -> Seq<char>
    decreases cells.len(),
{
    if cells.len() == 0 {
        seq![']']
    } else {
        ", "@ + enc_cell(cells[0]) + cells_tail_seg(cells.drop_first())
    }
}

/// The whole text of a printed cell list, from just after the opening
/// bracket through the closing bracket.
pub open spec fn cells_seg(cells: Seq<ValueView>) -> Seq<char> {
    if cells.len() == 0 {
        seq![']']
    } else {
        enc_cell(cells[0]) + cells_tail_seg(cells.drop_first())
    }
}

/// The printed cell list is the cell segment.
pub proof fn lemma_cells_seg(cells: Seq<ValueView>)
    ensures
        join_texts(Seq::new(cells.len(), |i: int| enc_cell(cells[i])), ", "@) + seq![']']
            == cells_seg(cells),
    decreases cells.len(),
{
    let parts = Seq::new(cells.len(), |i: int| enc_cell(cells[i]));
    if cells.len() == 0 {
        assert(join_texts(parts, ", "@) + seq![']'] =~= cells_seg(cells));
    } else {
        lemma_join_front(parts, ", "@);
        lemma_cells_rest(cells.drop_first());
        assert(parts.drop_first() =~= Seq::new(
            cells.drop_first().len(),
            |i: int| enc_cell(cells.drop_first()[i]),
        )) by {
            assert(forall|i: int|
                0 <= i < cells.len() - 1 ==> #[trigger] cells.drop_first()[i] == cells[i + 1]);
        }
        assert(join_texts(parts, ", "@) + seq![']'] =~= cells_seg(cells));
    }
}

/// The rest of the printed cell list is the tail segment.
proof fn lemma_cells_rest(cells: Seq<ValueView>)
    ensures
        join_rest(Seq::new(cells.len(), |i: int| enc_cell(cells[i])), ", "@) + seq![']']
            == cells_tail_seg(cells),
    decreases cells.len(),
{
    let parts = Seq::new(cells.len(), |i: int| enc_cell(cells[i]));
    if cells.len() == 0 {
        assert(join_rest(parts, ", "@) + seq![']'] =~= cells_tail_seg(cells));
    } else {
        lemma_cells_rest(cells.drop_first());
        assert(parts.drop_first() =~= Seq::new(
            cells.drop_first().len(),
            |i: int| enc_cell(cells.drop_first()[i]),
        )) by {
            assert(forall|i: int|
                0 <= i < cells.len() - 1 ==> #[trigger] cells.drop_first()[i] == cells[i + 1]);
        }
        assert(parts[0] == enc_cell(cells[0]));
        assert(join_rest(parts, ", "@) + seq![']'] =~= cells_tail_seg(cells));
    }
}

/// Scanning the tail of a printed cell list recovers the cell texts.
proof fn lemma_token_tail_at(s: Seq<char>, i: int, cells: Seq<ValueView>, end: int)
    requires
        forall|k: int| 0 <= k < cells.len() ==> enc_ok(#[trigger] cells[k]),
        0 <= i,
        end < s.len(),
        i + cells_tail_seg(cells).len() == end,
        s.subrange(i, end) == cells_tail_seg(cells),
    ensures
        token_tail(s, i) == Some((Seq::new(cells.len(), |k: int| cell_text(cells[k])), end)),
    decreases cells.len(),
{
    reveal_strlit(", ");
    let seg = cells_tail_seg(cells);
    assert(forall|k: int| 0 <= k < seg.len() ==> #[trigger] s.subrange(i, end)[k] == s[i + k]);
    if cells.len() == 0 {
        assert(s.subrange(i, end)[0] == s[i]);
        assert(seg[0] == ']');
        assert(s[i] == ']');
        assert(ws_end(s, i) == i);
        assert(Seq::new(0, |k: int| cell_text(cells[k])) =~= Seq::<Seq<char>>::empty());
    } else {
        let v0 = cells[0];
        let rest = cells.drop_first();
        let e0 = enc_cell(v0);
        assert(seg[0] == ',' && seg[1] == ' ');
        assert(s[i] == ',');
        assert(ws_end(s, i) == i);
        assert(forall|k: int| 0 <= k < e0.len() ==> seg[2 + k] == #[trigger] e0[k]);
        assert(s.subrange(i + 2, i + 2 + e0.len()) =~= e0);
        let j = i + 2 + e0.len();
        let koff = 2 + e0.len() as int;
        assert(cells_tail_seg(rest).len() >= 1) by {
            if rest.len() > 0 {
                assert(cells_tail_seg(rest) == ", "@ + enc_cell(rest[0]) + cells_tail_seg(
                    rest.drop_first(),
                ));
            }
        }
        assert(0 <= koff < end - i);
        assert(s.subrange(i, end)[koff] == s[i + koff]);
        assert(s[j] == seg[koff]);
        assert(seg[koff] == cells_tail_seg(rest)[0]);
        assert(cells_tail_seg(rest)[0] == ',' || cells_tail_seg(rest)[0] == ']') by {
            if rest.len() == 0 {
            } else {
                assert(cells_tail_seg(rest)[0] == ", "@[0]);
            }
        }
        assert(is_json_ws(s[i + 1]) && !is_json_ws(s[i + 2])) by {
            lemma_token_first_char(v0);
            assert(s[i + 2] == e0[0]);
        }
        lemma_ws_run(s, i + 1, i + 2);
        lemma_token_at(s, i + 1, i + 2, v0);
        assert(s.subrange(j, end) =~= cells_tail_seg(rest)) by {
            assert(forall|k: int|
                0 <= k < cells_tail_seg(rest).len() ==> seg[2 + e0.len() + k]
                    == #[trigger] cells_tail_seg(rest)[k]);
        }
        lemma_token_tail_at(s, j, rest, end);
        assert(seq![cell_text(v0)] + Seq::new(rest.len(), |k: int| cell_text(rest[k])) =~= Seq::new(
            cells.len(),
            |k: int| cell_text(cells[k]),
        ));
    }
}

/// The first character of a printed cell is a quote or plain; never
/// whitespace, a comma, or a bracket.
proof fn lemma_token_first_char(v: ValueView)
    requires
        enc_ok(v),
    ensures
        enc_cell(v).len() > 0,
        !is_json_ws(enc_cell(v)[0]),
        enc_cell(v)[0] != ',' && enc_cell(v)[0] != ']',
    decreases 0int,
{
    let t = cell_text(v);
    if numeric_text(t) || t == "true"@ || t == "false"@ {
        lemma_enc_raw_plain(v);
        assert(plain_char(enc_cell(v)[0]));
    } else {
        assert(enc_cell(v) == quoted(t));
        assert(enc_cell(v)[0] == '"');
    }
}

/// Scanning a printed cell list recovers the cell texts.
pub proof fn lemma_token_list_at(s: Seq<char>, i: int, cells: Seq<ValueView>, end: int)
    requires
        forall|k: int| 0 <= k < cells.len() ==> enc_ok(#[trigger] cells[k]),
        0 <= i,
        end < s.len(),
        i + cells_seg(cells).len() == end,
        s.subrange(i, end) == cells_seg(cells),
    ensures
        token_list(s, i) == Some((Seq::new(cells.len(), |k: int| cell_text(cells[k])), end)),
{
    let seg = cells_seg(cells);
    assert(forall|k: int| 0 <= k < seg.len() ==> #[trigger] s.subrange(i, end)[k] == s[i + k]);
    if cells.len() == 0 {
        assert(s.subrange(i, end)[0] == s[i]);
        assert(seg[0] == ']');
        assert(s[i] == ']');
        assert(ws_end(s, i) == i);
        assert(Seq::new(0, |k: int| cell_text(cells[k])) =~= Seq::<Seq<char>>::empty());
    } else {
        let v0 = cells[0];
        let rest = cells.drop_first();
        let e0 = enc_cell(v0);
        lemma_token_first_char(v0);
        assert(forall|k: int| 0 <= k < e0.len() ==> seg[k] == #[trigger] e0[k]);
        assert(s[i] == e0[0]);
        assert(ws_end(s, i) == i);
        assert(s[i] != ']');
        assert(s.subrange(i, i + e0.len()) =~= e0);
        let j = i + e0.len();
        let koff = e0.len() as int;
        assert(cells_tail_seg(rest).len() >= 1) by {
            reveal_strlit(", ");
            if rest.len() > 0 {
                assert(cells_tail_seg(rest) == ", "@ + enc_cell(rest[0]) + cells_tail_seg(
                    rest.drop_first(),
                ));
            }
        }
        assert(0 <= koff < end - i);
        assert(s.subrange(i, end)[koff] == s[i + koff]);
        assert(s[j] == seg[koff]);
        assert(seg[koff] == cells_tail_seg(rest)[0]);
        assert(cells_tail_seg(rest)[0] == ',' || cells_tail_seg(rest)[0] == ']') by {
            reveal_strlit(", ");
            if rest.len() == 0 {
            } else {
                assert(cells_tail_seg(rest)[0] == ", "@[0]);
            }
        }
        lemma_token_at(s, i, i, v0);
        assert(s.subrange(j, end) =~= cells_tail_seg(rest)) by {
            assert(forall|k: int|
                0 <= k < cells_tail_seg(rest).len() ==> seg[e0.len() + k]
                    == #[trigger] cells_tail_seg(rest)[k]);
        }
        lemma_token_tail_at(s, j, rest, end);
        assert(seq![cell_text(v0)] + Seq::new(rest.len(), |k: int| cell_text(rest[k])) =~= Seq::new(
            cells.len(),
            |k: int| cell_text(cells[k]),
        ));
    }
}

// ---------------------------------------------------------------------------
// Scanning printed entries
// ---------------------------------------------------------------------------

/// A table the dialect can round-trip: well formed, a label for every
/// column, and labels and string cells free of quotes and backslashes.
pub open spec fn json_ready(t: TableView) -> bool {
    &&& t.wf()
    &&& t.header.len() == t.cols.len()
    &&& (forall|j: int| 0 <= j < t.header.len() ==> text_safe(#[trigger] t.header[j]))
    &&& (forall|j: int, i: int|
        0 <= j < t.cols.len() && 0 <= i < t.cols[j].len() ==> enc_ok(#[trigger] t.cols[j][i]))
}

/// What one printed entry denotes: its key and its cell texts.
pub open spec fn entry_model(t: TableView, j: int) -> (Seq<char>, Seq<Seq<char>>) {
    (entry_name(t, j), Seq::new(t.cols[j].len(), |i: int| cell_text(t.cols[j][i])))
}

/// One printed entry, from its leading indent through its closing bracket.
pub open spec fn entry_core(t: TableView, j: int) -> Seq<char> {
    "    \""@ + entry_name(t, j) + "\": ["@ + cells_seg(t.cols[j])
}

/// An entry line is its core, a comma everywhere but on the last entry, and
/// a line break.
proof fn lemma_entry_text_decomp(t: TableView, j: int)
    requires
        0 <= j < t.cols.len(),
    ensures
        entry_text(t, j) == entry_core(t, j) + (if j < t.cols.len() - 1 {
            seq![',']
        } else {
            Seq::<char>::empty()
        }) + seq!['\n'],
{
    lemma_cells_seg(t.cols[j]);
    assert(entry_text(t, j) =~= entry_core(t, j) + (if j < t.cols.len() - 1 {
        seq![',']
    } else {
        Seq::<char>::empty()
    }) + seq!['\n']);
}

/// Scanning one printed entry recovers its key and cell texts.
proof fn lemma_entry_at(s: Seq<char>, i: int, a: int, t: TableView, j: int, end: int)
    requires
        json_ready(t),
        0 <= j < t.cols.len(),
        0 <= i <= a,
        ws_end(s, i) == a,
        end < s.len(),
        a + entry_core(t, j).len() - 4 == end,
        s.subrange(a, end) == entry_core(t, j).skip(4),
    ensures
        entry(s, i) == Some((entry_model(t, j), end)),
{
    reveal_strlit("    \"");
    reveal_strlit("\": [");
    let name = entry_name(t, j);
    let seg = entry_core(t, j).skip(4);
    assert(seg =~= seq!['"'] + name + "\": ["@ + cells_seg(t.cols[j]));
    assert(forall|k: int| 0 <= k < seg.len() ==> #[trigger] s.subrange(a, end)[k] == s[a + k]);
    assert(text_safe(name));
    assert(s.subrange(a, a + name.len() + 2) =~= quoted(name)) by {
        assert(forall|k: int|
            0 <= k < name.len() + 2 ==> seg[k] == #[trigger] quoted(name)[k]);
    }
    lemma_qstring_at(s, a, name);
    let b = a + name.len() + 2;
    assert(s[b] == ':' && s[b + 1] == ' ' && s[b + 2] == '[') by {
        assert(seg[name.len() as int + 2] == ':');
        assert(seg[name.len() as int + 3] == ' ');
        assert(seg[name.len() as int + 4] == '[');
    }
    assert(ws_end(s, b) == b);
    lemma_ws_run(s, b + 1, b + 2);
    let c = b + 3;
    assert(s.subrange(c, end) =~= cells_seg(t.cols[j])) by {
        assert(forall|k: int|
            0 <= k < cells_seg(t.cols[j]).len() ==> seg[name.len() + 5 + k]
                == #[trigger] cells_seg(t.cols[j])[k]);
    }
    assert(forall|k: int| 0 <= k < t.cols[j].len() ==> enc_ok(#[trigger] t.cols[j][k]));
    lemma_token_list_at(s, c, t.cols[j], end);
}

/// The text after one entry's closing bracket: the separating comma where
/// one follows, the line break, the next entry, and so on through the
/// closing brace of the data object.
pub open spec fn entries_after_seg(t: TableView, j: int) -> Seq<char>
    decreases t.cols.len() - j,
{
    if j < t.cols.len() {
        seq![','] + seq!['\n'] + entry_core(t, j) + entries_after_seg(t, j + 1)
    } else {
        seq!['\n'] + "  }"@
    }
}

/// Scanning the remaining entries recovers their keys and cell texts.
proof fn lemma_entries_tail_at(s: Seq<char>, i: int, t: TableView, j: int, end: int)
    requires
        json_ready(t),
        1 <= j <= t.cols.len(),
        0 <= i,
        end < s.len(),
        i + entries_after_seg(t, j).len() == end,
        s.subrange(i, end) == entries_after_seg(t, j),
    ensures
        entries_tail(s, i) == Some(
            (
                Seq::new((t.cols.len() - j) as nat, |k: int| entry_model(t, j + k)),
                end,
            ),
        ),
    decreases t.cols.len() - j,
{
    reveal_strlit("  }");
    reveal_strlit("    \"");
    let n = t.cols.len() as int;
    let seg = entries_after_seg(t, j);
    assert(forall|k: int| 0 <= k < seg.len() ==> #[trigger] s.subrange(i, end)[k] == s[i + k]);
    if j == n {
        assert(seg =~= seq!['\n', ' ', ' ', '}']);
        assert(s[i] == '\n' && s[i + 1] == ' ' && s[i + 2] == ' ' && s[i + 3] == '}');
        lemma_ws_run(s, i, i + 3);
        assert(Seq::new(0, |k: int| entry_model(t, j + k)) =~= Seq::<
            (Seq<char>, Seq<Seq<char>>),
        >::empty());
    } else {
        let core = entry_core(t, j);
        assert(seg == seq![','] + seq!['\n'] + core + entries_after_seg(t, j + 1));
        assert(s[i] == ',') by {
            assert(seg[0] == ',');
        }
        assert(ws_end(s, i) == i);
        assert(core.len() >= 5) by {
            assert(core =~= "    \""@ + (entry_name(t, j) + "\": ["@ + cells_seg(t.cols[j])));
        }
        assert(s[i + 1] == '\n' && s[i + 2] == ' ' && s[i + 3] == ' ' && s[i + 4] == ' ' && s[i
            + 5] == ' ' && s[i + 6] == '"') by {
            assert(seg[1] == '\n');
            assert(forall|k: int| 0 <= k < core.len() ==> seg[2 + k] == #[trigger] core[k]);
            assert(core[0] == ' ' && core[1] == ' ' && core[2] == ' ' && core[3] == ' '
                && core[4] == '"');
        }
        lemma_ws_run(s, i + 1, i + 6);
        let a = i + 6;
        let entry_end = i + 2 + core.len();
        assert(s.subrange(a, entry_end) =~= core.skip(4)) by {
            assert(forall|k: int| 0 <= k < core.len() ==> seg[2 + k] == #[trigger] core[k]);
            assert(forall|k: int| 0 <= k < core.len() - 4 ==> #[trigger] core.skip(4)[k] == core[k
                + 4]);
        }
        assert(entries_after_seg(t, j + 1).len() >= 4) by {
            if j + 1 < n {
                assert(entries_after_seg(t, j + 1) == seq![','] + seq!['\n'] + entry_core(t, j + 1)
                    + entries_after_seg(t, j + 2));
            }
        }
        lemma_entry_at(s, i + 1, a, t, j, entry_end);
        assert(s.subrange(entry_end, end) =~= entries_after_seg(t, j + 1)) by {
            assert(forall|k: int|
                0 <= k < entries_after_seg(t, j + 1).len() ==> seg[2 + core.len() + k]
                    == #[trigger] entries_after_seg(t, j + 1)[k]);
        }
        lemma_entries_tail_at(s, entry_end, t, j + 1, end);
        assert(seq![entry_model(t, j)] + Seq::new(
            (n - j - 1) as nat,
            |k: int| entry_model(t, j + 1 + k),
        ) =~= Seq::new((n - j) as nat, |k: int| entry_model(t, j + k)));
    }
}

/// The whole printed data region, from the line break after the data brace
/// through the brace that closes the data object.
pub open spec fn entries_region(t: TableView) -> Seq<char> {
    if t.cols.len() == 0 {
        seq!['\n'] + "  }"@
    } else {
        seq!['\n'] + entry_core(t, 0) + entries_after_seg(t, 1)
    }
}

/// The printed entry lines and the closing indent make up the data region.
proof fn lemma_entries_region(t: TableView)
    ensures
        seq!['\n'] + entries_upto(t, t.cols.len() as int) + "  }"@ == entries_region(t),
{
    let n = t.cols.len() as int;
    if n == 0 {
        assert(seq!['\n'] + entries_upto(t, 0) + "  }"@ =~= entries_region(t));
    } else {
        lemma_entries_chain(t, 1);
        lemma_upto_front(t, 1);
        lemma_entry_text_decomp(t, 0);
        assert(entries_upto(t, 0) == Seq::<char>::empty());
        assert(entries_upto(t, 1) =~= entry_text(t, 0));
        assert(seq!['\n'] + entries_upto(t, n) + "  }"@ =~= entries_region(t));
    }
}

/// The printed entry lines from `j` on.
pub open spec fn entries_txt_from(t: TableView, j: int) -> Seq<char>
    decreases t.cols.len() - j,
{
    if j < t.cols.len() {
        entry_text(t, j) + entries_txt_from(t, j + 1)
    } else {
        Seq::empty()
    }
}

/// The entry lines split at any position.
proof fn lemma_upto_front(t: TableView, j: int)
    requires
        0 <= j <= t.cols.len(),
    ensures
        entries_upto(t, t.cols.len() as int) == entries_upto(t, j) + entries_txt_from(t, j),
    decreases t.cols.len() - j,
{
    let n = t.cols.len() as int;
    if j == n {
        assert(entries_upto(t, n) =~= entries_upto(t, n) + entries_txt_from(t, n));
    } else {
        lemma_upto_front(t, j + 1);
        assert(entries_upto(t, j + 1) == entries_upto(t, j) + entry_text(t, j));
        assert(entries_upto(t, n) =~= entries_upto(t, j) + entries_txt_from(t, j));
    }
}

/// The entry lines from `j` on, with their closing indent, seen from just
/// after entry `j - 1`'s closing bracket.
proof fn lemma_entries_chain(t: TableView, j: int)
    requires
        1 <= j <= t.cols.len(),
    ensures
        (if j < t.cols.len() {
            seq![',']
        } else {
            Seq::<char>::empty()
        }) + seq!['\n'] + entries_txt_from(t, j) + "  }"@ == entries_after_seg(t, j),
    decreases t.cols.len() - j,
{
    let n = t.cols.len() as int;
    if j == n {
        assert(Seq::<char>::empty() + seq!['\n'] + entries_txt_from(t, n) + "  }"@
            =~= entries_after_seg(t, n));
    } else {
        lemma_entries_chain(t, j + 1);
        lemma_entry_text_decomp(t, j);
        assert(seq![','] + seq!['\n'] + entries_txt_from(t, j) + "  }"@ =~= entries_after_seg(
            t,
            j,
        ));
    }
}

/// Scanning the printed data region recovers every entry.
proof fn lemma_entries_list_at(s: Seq<char>, i: int, t: TableView, end: int)
    requires
        json_ready(t),
        0 <= i,
        end < s.len(),
        i + entries_region(t).len() == end,
        s.subrange(i, end) == entries_region(t),
    ensures
        entries_list(s, i) == Some(
            (Seq::new(t.cols.len(), |k: int| entry_model(t, k)), end),
        ),
{
    reveal_strlit("  }");
    reveal_strlit("    \"");
    let n = t.cols.len() as int;
    let seg = entries_region(t);
    assert(forall|k: int| 0 <= k < seg.len() ==> #[trigger] s.subrange(i, end)[k] == s[i + k]);
    if n == 0 {
        assert(seg =~= seq!['\n', ' ', ' ', '}']);
        assert(s[i] == '\n' && s[i + 1] == ' ' && s[i + 2] == ' ' && s[i + 3] == '}');
        lemma_ws_run(s, i, i + 3);
        assert(Seq::new(0, |k: int| entry_model(t, k)) =~= Seq::<
            (Seq<char>, Seq<Seq<char>>),
        >::empty());
    } else {
        let core = entry_core(t, 0);
        assert(seg == seq!['\n'] + core + entries_after_seg(t, 1));
        assert(core.len() >= 5) by {
            assert(core =~= "    \""@ + (entry_name(t, 0) + "\": ["@ + cells_seg(t.cols[0])));
        }
        assert(s[i] == '\n' && s[i + 1] == ' ' && s[i + 2] == ' ' && s[i + 3] == ' ' && s[i + 4]
            == ' ' && s[i + 5] == '"') by {
            assert(seg[0] == '\n');
            assert(forall|k: int| 0 <= k < core.len() ==> seg[1 + k] == #[trigger] core[k]);
            assert(core[0] == ' ' && core[1] == ' ' && core[2] == ' ' && core[3] == ' '
                && core[4] == '"');
        }
        lemma_ws_run(s, i, i + 5);
        let a = i + 5;
        let entry_end = i + 1 + core.len();
        assert(s.subrange(a, entry_end) =~= core.skip(4)) by {
            assert(forall|k: int| 0 <= k < core.len() ==> seg[1 + k] == #[trigger] core[k]);
            assert(forall|k: int| 0 <= k < core.len() - 4 ==> #[trigger] core.skip(4)[k] == core[k
                + 4]);
        }
        assert(entries_after_seg(t, 1).len() >= 4) by {
            if 1 < n {
                assert(entries_after_seg(t, 1) == seq![','] + seq!['\n'] + entry_core(t, 1)
                    + entries_after_seg(t, 2));
            }
        }
        lemma_entry_at(s, i, a, t, 0, entry_end);
        assert(s[i + 5] == '"' && !is_json_ws('"'));
        assert(s.subrange(entry_end, end) =~= entries_after_seg(t, 1)) by {
            assert(forall|k: int|
                0 <= k < entries_after_seg(t, 1).len() ==> seg[1 + core.len() + k]
                    == #[trigger] entries_after_seg(t, 1)[k]);
        }
        assert(ws_end(s, i) == a);
        assert(s[a] != '}');
        lemma_entries_tail_at(s, entry_end, t, 1, end);
        assert(seq![entry_model(t, 0)] + Seq::new(
            (n - 1) as nat,
            |k: int| entry_model(t, 1 + k),
        ) =~= Seq::new(n as nat, |k: int| entry_model(t, k)));
    }
}

// ---------------------------------------------------------------------------
// The round trip
// ---------------------------------------------------------------------------

/// Converting the scanned entries from position `j` on recovers the
/// table's columns.
proof fn lemma_parse_cols_from(t: TableView, j: int)
    requires
        json_ready(t),
        0 <= j <= t.cols.len(),
    ensures
        parse_cols(
            Seq::new(t.cols.len(), |k: int| entry_model(t, k)),
            t.header,
            t.kinds,
            j,
        ) == Ok::<Seq<Seq<ValueView>>, crate::DataError>(
            Seq::new((t.cols.len() - j) as nat, |k: int| t.cols[j + k]),
        ),
    decreases t.cols.len() - j,
{
    let n = t.cols.len() as int;
    let entries = Seq::new(t.cols.len(), |k: int| entry_model(t, k));
    if j == n {
        assert(Seq::new(0, |k: int| t.cols[j + k]) =~= Seq::<Seq<ValueView>>::empty());
    } else {
        assert(entries[j].0 == t.header[j]);
        assert(entries[j].1.len() == t.cols[j].len());
        assert(entries[0].1.len() == t.cols[0].len());
        let tokens = entries[j].1;
        assert forall|i: int| 0 <= i < tokens.len() implies parse_cell_spec(
            t.kinds[j],
            tokens[i],
        ) == Some(#[trigger] t.cols[j][i]) by {
            assert(crate::column::cells_of_kind(t.cols[j], t.kinds[j]));
            assert(kind_of(t.cols[j][i]) == t.kinds[j]);
            lemma_cell_text_roundtrip(t.cols[j][i]);
        }
        crate::json::lemma_parse_col_cells_ok(tokens, t.kinds[j], j, t.cols[j]);
        lemma_parse_cols_from(t, j + 1);
        assert(seq![t.cols[j]] + Seq::new((n - j - 1) as nat, |k: int| t.cols[j + 1 + k])
            =~= Seq::new((n - j) as nat, |k: int| t.cols[j + k]));
    }
}

/// Scanning the front of the printed document reaches and recovers the
/// header list.
#[verifier::rlimit(100)]
proof fn lemma_doc_headers(t: TableView)
    requires
        json_ready(t),
    ensures
        ({
            let p = json_text(t);
            let h = join_texts(
                Seq::new(t.header.len(), |i: int| quoted(t.header[i])),
                ", "@,
            ).len() as int;
            &&& p.len() == 16 + h + 15 + entries_upto(t, t.cols.len() as int).len() + 5
            &&& ws_end(p, 0) == 0
            &&& 0 < p.len() && p[0] == '{'
            &&& ws_end(p, 1) == 4
            &&& lit_end(p, 4, "\"headers\""@) == Some(13int)
            &&& ws_end(p, 13) == 13 && p[13] == ':'
            &&& ws_end(p, 14) == 15 && p[15] == '['
            &&& string_list(p, 16) == Some((t.header, 17 + h))
        }),
{
    reveal_strlit("{\n  \"headers\": [");
    reveal_strlit("],\n  \"data\": {\n");
    reveal_strlit("  }\n}");
    reveal_strlit("\"headers\"");
    let p = json_text(t);
    let l1 = "{\n  \"headers\": ["@;
    let hj = join_texts(Seq::new(t.header.len(), |i: int| quoted(t.header[i])), ", "@);
    let l2 = "],\n  \"data\": {\n"@;
    let e = entries_upto(t, t.cols.len() as int);
    let l3 = "  }\n}"@;
    let h = hj.len() as int;
    let q2 = 16 + h;
    assert(l1.len() == 16 && l2.len() == 15 && l3.len() == 5);
    assert(p == l1 + hj + l2 + e + l3);
    assert(forall|k: int| 0 <= k < 16 ==> #[trigger] p[k] == l1[k]);
    assert(forall|k: int| 0 <= k < h ==> #[trigger] p[16 + k] == hj[k]);
    assert(forall|k: int| 0 <= k < 15 ==> #[trigger] p[q2 + k] == l2[k]);
    assert(p[0] == '{' && !is_json_ws('{'));
    assert(ws_end(p, 0) == 0);
    assert(is_json_ws(p[1]) && is_json_ws(p[2]) && is_json_ws(p[3]) && !is_json_ws(p[4]));
    lemma_ws_run(p, 1, 4);
    assert(p.subrange(4, 13) =~= "\"headers\""@);
    assert(lit_end(p, 4, "\"headers\""@) == Some(13int));
    assert(p[13] == ':' && !is_json_ws(':'));
    assert(ws_end(p, 13) == 13);
    assert(is_json_ws(p[14]) && p[15] == '[' && !is_json_ws('['));
    lemma_ws_run(p, 14, 15);
    lemma_labels_seg(t.header);
    assert(labels_seg(t.header).len() == h + 1);
    assert(p.subrange(16, 17 + h) =~= labels_seg(t.header)) by {
        assert(forall|k: int| 0 <= k < h ==> #[trigger] labels_seg(t.header)[k] == hj[k]);
        assert(labels_seg(t.header)[h] == seq![']'][0]);
        assert(p[q2] == l2[0] && l2[0] == ']');
    }
    lemma_string_list_at(p, 16, t.header, 17 + h);
}

/// Scanning the middle punctuation of the printed document reaches the
/// data object, and the closing braces follow the entries.
#[verifier::rlimit(100)]
proof fn lemma_doc_punct(t: TableView)
    requires
        json_ready(t),
    ensures
        ({
            let p = json_text(t);
            let h = join_texts(
                Seq::new(t.header.len(), |i: int| quoted(t.header[i])),
                ", "@,
            ).len() as int;
            let q2 = 16 + h;
            let q4 = q2 + 15 + entries_upto(t, t.cols.len() as int).len();
            &&& q2 + 14 < p.len() && q4 + 4 < p.len()
            &&& ws_end(p, q2 + 1) == q2 + 1 && p[q2 + 1] == ','
            &&& ws_end(p, q2 + 2) == q2 + 5
            &&& lit_end(p, q2 + 5, "\"data\""@) == Some::<int>(q2 + 11)
            &&& ws_end(p, q2 + 11) == q2 + 11 && p[q2 + 11] == ':'
            &&& ws_end(p, q2 + 12) == q2 + 13 && p[q2 + 13] == '{'
            &&& ws_end(p, q4 + 3) == q4 + 4 && p[q4 + 4] == '}'
            &&& ws_end(p, q4 + 5) == p.len()
        }),
{
    reveal_strlit("{\n  \"headers\": [");
    reveal_strlit("],\n  \"data\": {\n");
    reveal_strlit("  }\n}");
    reveal_strlit("\"data\"");
    let p = json_text(t);
    let l1 = "{\n  \"headers\": ["@;
    let hj = join_texts(Seq::new(t.header.len(), |i: int| quoted(t.header[i])), ", "@);
    let l2 = "],\n  \"data\": {\n"@;
    let e = entries_upto(t, t.cols.len() as int);
    let l3 = "  }\n}"@;
    let h = hj.len() as int;
    let q2 = 16 + h;
    let q3 = q2 + 15;
    let q4 = q3 + e.len();
    assert(l1.len() == 16 && l2.len() == 15 && l3.len() == 5);
    assert(p == l1 + hj + l2 + e + l3);
    assert(p.len() == q4 + 5);
    assert(forall|k: int| 0 <= k < 15 ==> #[trigger] p[q2 + k] == l2[k]);
    assert(forall|k: int| 0 <= k < 5 ==> #[trigger] p[q4 + k] == l3[k]);
    assert(p[q2 + 1] == ',' && !is_json_ws(','));
    assert(ws_end(p, q2 + 1) == q2 + 1);
    assert(is_json_ws(p[q2 + 2]) && is_json_ws(p[q2 + 3]) && is_json_ws(p[q2 + 4]) && !is_json_ws(
        p[q2 + 5],
    ));
    lemma_ws_run(p, q2 + 2, q2 + 5);
    assert(p.subrange(q2 + 5, q2 + 11) =~= "\"data\""@);
    assert(lit_end(p, q2 + 5, "\"data\""@) == Some::<int>(q2 + 11));
    assert(p[q2 + 11] == ':');
    assert(ws_end(p, q2 + 11) == q2 + 11);
    assert(is_json_ws(p[q2 + 12]) && p[q2 + 13] == '{');
    lemma_ws_run(p, q2 + 12, q2 + 13);
    assert(is_json_ws(p[q4 + 3]) && p[q4 + 4] == '}');
    lemma_ws_run(p, q4 + 3, q4 + 4);
    assert(ws_end(p, q4 + 5) == p.len()) by {
        lemma_ws_run(p, q4 + 5, q4 + 5);
    }
}

/// Scanning the printed data region recovers the entries.
#[verifier::rlimit(100)]
proof fn lemma_doc_entries(t: TableView)
    requires
        json_ready(t),
    ensures
        ({
            let p = json_text(t);
            let h = join_texts(
                Seq::new(t.header.len(), |i: int| quoted(t.header[i])),
                ", "@,
            ).len() as int;
            let q2 = 16 + h;
            let q4 = q2 + 15 + entries_upto(t, t.cols.len() as int).len();
            entries_list(p, q2 + 14) == Some(
                (Seq::new(t.cols.len(), |k: int| entry_model(t, k)), q4 + 3),
            )
        }),
{
    reveal_strlit("{\n  \"headers\": [");
    reveal_strlit("],\n  \"data\": {\n");
    reveal_strlit("  }\n}");
    reveal_strlit("  }");
    let p = json_text(t);
    let l1 = "{\n  \"headers\": ["@;
    let hj = join_texts(Seq::new(t.header.len(), |i: int| quoted(t.header[i])), ", "@);
    let l2 = "],\n  \"data\": {\n"@;
    let e = entries_upto(t, t.cols.len() as int);
    let l3 = "  }\n}"@;
    let h = hj.len() as int;
    let q2 = 16 + h;
    let q3 = q2 + 15;
    let q4 = q3 + e.len();
    assert(l1.len() == 16 && l2.len() == 15 && l3.len() == 5);
    assert(p == l1 + hj + l2 + e + l3);
    assert(p.len() == q4 + 5);
    assert(forall|k: int| 0 <= k < 15 ==> #[trigger] p[q2 + k] == l2[k]);
    assert(forall|k: int| 0 <= k < e.len() ==> #[trigger] p[q3 + k] == e[k]);
    assert(forall|k: int| 0 <= k < 5 ==> #[trigger] p[q4 + k] == l3[k]);
    lemma_entries_region(t);
    let region = entries_region(t);
    assert(region.len() == e.len() + 4);
    let i0 = q2 + 14;
    assert(p.subrange(i0, q4 + 3) =~= region) by {
        assert(forall|k: int|
            0 <= k < region.len() ==> #[trigger] region[k] == (seq!['\n'] + e + "  }"@)[k]);
        assert(p[i0] == l2[14] && l2[14] == '\n');
        assert(p[q4] == l3[0] && p[q4 + 1] == l3[1] && p[q4 + 2] == l3[2]);
    }
    lemma_entries_list_at(p, i0, t, q4 + 3);
}

/// Scanning the whole printed document recovers the header and entries.
proof fn lemma_json_doc_of(t: TableView)
    requires
        json_ready(t),
    ensures
        json_doc(json_text(t)) == Some(
            (t.header, Seq::new(t.cols.len(), |k: int| entry_model(t, k))),
        ),
{
    lemma_doc_headers(t);
    lemma_doc_punct(t);
    lemma_doc_entries(t);
}

/// Law: the JSON dialect round-trips. For any well-formed table whose
/// header names every column and whose labels and string cells hold no
/// double quote or backslash, reading back the written document under the
/// table's own column kinds reproduces the table exactly — header, kinds,
/// and every cell of every column.
pub proof fn lemma_json_roundtrip(t: TableView)
    requires
        json_ready(t),
    ensures
        json_parse(json_text(t), t.kinds) == Ok::<TableView, crate::DataError>(t),
{
    lemma_json_doc_of(t);
    assert(t.header.len() == t.kinds.len());
    lemma_parse_cols_from(t, 0);
    assert(Seq::new(t.cols.len(), |k: int| t.cols[0 + k]) =~= t.cols);
    assert(json_parse(json_text(t), t.kinds) == Ok::<TableView, crate::DataError>(
        TableView { header: t.header, kinds: t.kinds, cols: t.cols },
    ));
    assert(TableView { header: t.header, kinds: t.kinds, cols: t.cols } =~= t);
}

// ---------------------------------------------------------------------------
// The delimited-text round trip
// ---------------------------------------------------------------------------

/// A field the delimited format can carry under a delimiter: free of the
/// delimiter and of line breaks.
pub open spec fn field_ok(s: Seq<char>, d: char) -> bool {
    forall|i: int| 0 <= i < s.len() ==> s[i] != d && s[i] != '\n'
}

/// A field that survives the reader's whitespace trimming: empty, or with
/// non-whitespace characters at both ends.
pub open spec fn trim_stable(s: Seq<char>) -> bool {
    s.len() > 0 ==> !is_field_ws(s[0]) && !is_field_ws(s.last())
}

/// A table the delimited format can round-trip under a delimiter: well
/// formed, a label for every column, and labels and cell texts that carry
/// neither the delimiter nor a line break nor edge whitespace.
pub open spec fn csv_ready(t: TableView, d: char) -> bool {
    &&& t.wf()
    &&& t.cols.len() >= 1
    &&& t.header.len() == t.cols.len()
    &&& d != '\n'
    &&& (forall|j: int|
        0 <= j < t.header.len() ==> field_ok(#[trigger] t.header[j], d) && trim_stable(
            t.header[j],
        ))
    &&& (forall|j: int, i: int|
        0 <= j < t.cols.len() && 0 <= i < t.cols[j].len() ==> field_ok(
            cell_text(#[trigger] t.cols[j][i]),
            d,
        ) && trim_stable(cell_text(t.cols[j][i])))
}

/// A trim-stable field passes through trimming unchanged.
proof fn lemma_trim_stable(s: Seq<char>)
    requires
        trim_stable(s),
    ensures
        trim_text(s) == s,
{
}

/// Splitting a separator-free text yields the text alone.
proof fn lemma_split_none(s: Seq<char>, c: char)
    requires
        forall|i: int| 0 <= i < s.len() ==> s[i] != c,
    ensures
        split_on(s, c) == seq![s],
{
    lemma_find_none(s, c, 0);
}

/// A scan over separator-free text finds nothing.
proof fn lemma_find_none(s: Seq<char>, c: char, i: int)
    requires
        0 <= i <= s.len(),
        forall|k: int| 0 <= k < s.len() ==> s[k] != c,
    ensures
        find_char(s, c, i) == s.len(),
    decreases s.len() - i,
{
    if i < s.len() {
        lemma_find_none(s, c, i + 1);
    }
}

/// Splitting a joined field list on its own delimiter recovers the fields.
proof fn lemma_split_join(fields: Seq<Seq<char>>, d: char)
    requires
        fields.len() >= 1,
        forall|i: int|
            0 <= i < fields.len() ==> (forall|k: int|
                0 <= k < (#[trigger] fields[i]).len() ==> fields[i][k] != d),
    ensures
        split_on(join_texts(fields, seq![d]), d) == fields,
    decreases fields.len(),
{
    let line = join_texts(fields, seq![d]);
    if fields.len() == 1 {
        assert(line == fields[0]);
        lemma_split_none(line, d);
        assert(seq![line] =~= fields);
    } else {
        let rest = fields.drop_first();
        lemma_join_front(fields, seq![d]);
        lemma_join_front(rest, seq![d]);
        assert(join_rest(rest, seq![d]) == seq![d] + rest[0] + join_rest(
            rest.drop_first(),
            seq![d],
        ));
        assert(line =~= fields[0] + seq![d] + join_texts(rest, seq![d]));
        let p = fields[0].len() as int;
        assert(forall|k: int| 0 <= k < p ==> #[trigger] line[k] == fields[0][k]);
        assert(line[p] == d);
        lemma_find_char_prefix(line, d, 0, p);
        assert(line.take(p) =~= fields[0]);
        assert(line.skip(p + 1) =~= join_texts(rest, seq![d]));
        assert(forall|i: int|
            0 <= i < rest.len() ==> (forall|k: int|
                0 <= k < (#[trigger] rest[i]).len() ==> rest[i][k] != d)) by {
            assert(forall|i: int| 0 <= i < rest.len() ==> #[trigger] rest[i] == fields[i + 1]);
        }
        lemma_split_join(rest, d);
        assert(seq![fields[0]] + rest =~= fields);
    }
}

/// A scan stops at the first separator.
proof fn lemma_find_char_prefix(s: Seq<char>, c: char, i: int, p: int)
    requires
        0 <= i <= p < s.len(),
        forall|k: int| i <= k < p ==> s[k] != c,
        s[p] == c,
    ensures
        find_char(s, c, i) == p,
    decreases p - i,
{
    if i < p {
        lemma_find_char_prefix(s, c, i + 1, p);
    }
}

/// One record per line, each ended by the separator.
pub open spec fn records_cat(recs: Seq<Seq<char>>, c: char) -> Seq<char>
    decreases recs.len(),
{
    if recs.len() == 0 {
        Seq::empty()
    } else {
        recs[0] + seq![c] + records_cat(recs.drop_first(), c)
    }
}

/// Splitting terminated records recovers them, plus one empty tail segment.
proof fn lemma_split_records(recs: Seq<Seq<char>>, c: char)
    requires
        forall|i: int|
            0 <= i < recs.len() ==> (forall|k: int|
                0 <= k < (#[trigger] recs[i]).len() ==> recs[i][k] != c),
    ensures
        split_on(records_cat(recs, c), c) == recs + seq![Seq::<char>::empty()],
    decreases recs.len(),
{
    let s = records_cat(recs, c);
    if recs.len() == 0 {
        assert(s =~= Seq::<char>::empty());
        assert(split_on(s, c) =~= recs + seq![Seq::<char>::empty()]);
    } else {
        let rest = recs.drop_first();
        let p = recs[0].len() as int;
        assert(forall|k: int| 0 <= k < p ==> #[trigger] s[k] == recs[0][k]);
        assert(s[p] == c);
        lemma_find_char_prefix(s, c, 0, p);
        assert(s.take(p) =~= recs[0]);
        assert(s.skip(p + 1) =~= records_cat(rest, c));
        assert(forall|i: int|
            0 <= i < rest.len() ==> (forall|k: int|
                0 <= k < (#[trigger] rest[i]).len() ==> rest[i][k] != c)) by {
            assert(forall|i: int| 0 <= i < rest.len() ==> #[trigger] rest[i] == recs[i + 1]);
        }
        lemma_split_records(rest, c);
        assert(seq![recs[0]] + (rest + seq![Seq::<char>::empty()]) =~= recs + seq![
            Seq::<char>::empty(),
        ]);
    }
}

/// The fields of one data row, in column order.
pub open spec fn row_fields(t: TableView, i: int) -> Seq<Seq<char>> {
    Seq::new(t.cols.len(), |j: int| cell_text(t.cols[j][i]))
}

/// The record texts of the document: the header line, then one line per
/// row, each without its terminator.
pub open spec fn csv_records(t: TableView, d: char) -> Seq<Seq<char>> {
    seq![join_texts(t.header, seq![d])] + Seq::new(
        t.nrows(),
        |i: int| join_texts(row_fields(t, i), seq![d]),
    )
}

/// The data records from row `i` on.
pub open spec fn body_from(t: TableView, d: char, i: int) -> Seq<char>
    decreases t.nrows() - i,
{
    if 0 <= i < t.nrows() {
        record_text(row_fields(t, i), d) + body_from(t, d, i + 1)
    } else {
        Seq::empty()
    }
}

/// The data records split at any row.
proof fn lemma_body_split(t: TableView, i: int)
    requires
        0 <= i <= t.nrows(),
    ensures
        forall|d: char| #[trigger] body_records(t, d, t.nrows() as int) == body_records(t, d, i)
            + body_from(t, d, i),
    decreases t.nrows() - i,
{
    let n = t.nrows() as int;
    if i == n {
        assert(forall|d: char| #[trigger] body_records(t, d, n) =~= body_records(t, d, n)
            + body_from(t, d, n));
    } else {
        lemma_body_split(t, i + 1);
        assert forall|d: char| #[trigger] body_records(t, d, n) == body_records(t, d, i)
            + body_from(t, d, i) by {
            assert(body_records(t, d, i + 1) == body_records(t, d, i) + record_text(
                Seq::new(t.cols.len(), |j: int| cell_text(t.cols[j][i])),
                d,
            ));
            assert(Seq::new(t.cols.len(), |j: int| cell_text(t.cols[j][i])) =~= row_fields(t, i));
            assert(body_records(t, d, n) =~= body_records(t, d, i) + body_from(t, d, i));
        }
    }
}

/// The data records from row `i` on are terminated records.
proof fn lemma_body_cat(t: TableView, d: char, i: int)
    requires
        0 <= i <= t.nrows(),
    ensures
        body_from(t, d, i) == records_cat(
            Seq::new((t.nrows() - i) as nat, |k: int| join_texts(row_fields(t, i + k), seq![d])),
            '\n',
        ),
    decreases t.nrows() - i,
{
    let n = t.nrows() as int;
    let recs = Seq::new((n - i) as nat, |k: int| join_texts(row_fields(t, i + k), seq![d]));
    if i == n {
        assert(body_from(t, d, i) =~= records_cat(recs, '\n'));
    } else {
        lemma_body_cat(t, d, i + 1);
        assert(recs.drop_first() =~= Seq::new(
            (n - i - 1) as nat,
            |k: int| join_texts(row_fields(t, i + 1 + k), seq![d]),
        ));
        assert(body_from(t, d, i) =~= records_cat(recs, '\n'));
    }
}

/// The whole document is its records, each ended by a line break.
proof fn lemma_csv_text_cat(t: TableView, d: char)
    ensures
        csv_text(t, d) == records_cat(csv_records(t, d), '\n'),
{
    let n = t.nrows() as int;
    lemma_body_split(t, 0);
    lemma_body_cat(t, d, 0);
    assert(body_records(t, d, n) == body_from(t, d, 0)) by {
        assert(body_records(t, d, 0) == Seq::<char>::empty());
        assert(Seq::<char>::empty() + body_from(t, d, 0) =~= body_from(t, d, 0));
    }
    let rows = Seq::new(t.nrows(), |k: int| join_texts(row_fields(t, 0 + k), seq![d]));
    assert(csv_records(t, d).drop_first() =~= rows);
    assert(csv_text(t, d) =~= records_cat(csv_records(t, d), '\n'));
}

/// Every character of a joined field list is a field character or the
/// delimiter.
proof fn lemma_join_avoids(fields: Seq<Seq<char>>, d: char, c: char)
    requires
        c != d,
        forall|i: int|
            0 <= i < fields.len() ==> (forall|k: int|
                0 <= k < (#[trigger] fields[i]).len() ==> fields[i][k] != c),
    ensures
        forall|k: int| 0 <= k < join_texts(fields, seq![d]).len() ==> #[trigger] join_texts(
            fields,
            seq![d],
        )[k] != c,
    decreases fields.len(),
{
    let line = join_texts(fields, seq![d]);
    if fields.len() == 0 {
    } else if fields.len() == 1 {
        assert(line == fields[0]);
    } else {
        let dropped = fields.drop_last();
        lemma_join_avoids(dropped, d, c);
        assert(forall|i: int|
            0 <= i < dropped.len() ==> (forall|k: int|
                0 <= k < (#[trigger] dropped[i]).len() ==> dropped[i][k] != c)) by {
            assert(forall|i: int| 0 <= i < dropped.len() ==> #[trigger] dropped[i] == fields[i]);
        }
        assert(line == join_texts(dropped, seq![d]) + seq![d] + fields.last());
        assert forall|k: int| 0 <= k < line.len() implies #[trigger] line[k] != c by {
            let m = join_texts(dropped, seq![d]).len() as int;
            if k < m {
            } else if k == m {
                assert(line[k] == d);
            } else {
                assert(line[k] == fields.last()[k - m - 1]);
            }
        }
    }
}

/// Law: the delimited text round-trips. For any well-formed table whose
/// header names every column and whose labels and cell texts hold neither
/// the delimiter nor a line break nor edge whitespace, reading back the
/// written document with the same delimiter, under the table's own column
/// kinds, reproduces the table exactly.
pub proof fn lemma_csv_roundtrip(t: TableView, d: char)
    requires
        csv_ready(t, d),
    ensures
        csv_parse(csv_text(t, d), d, t.kinds) == Ok::<TableView, crate::DataError>(t),
{
    let n = t.nrows() as int;
    let ncols = t.cols.len() as int;
    let recs = csv_records(t, d);
    lemma_csv_text_cat(t, d);
    assert forall|i: int| 0 <= i < recs.len() implies (forall|k: int|
        0 <= k < (#[trigger] recs[i]).len() ==> recs[i][k] != '\n') by {
        if i == 0 {
            lemma_join_avoids(t.header, d, '\n');
        } else {
            lemma_row_fields_ok(t, d, i - 1);
            lemma_join_avoids(row_fields(t, i - 1), d, '\n');
        }
    }
    lemma_split_records(recs, '\n');
    let s = csv_text(t, d);
    let parts = split_on(s, '\n');
    assert(parts == recs + seq![Seq::<char>::empty()]);
    assert(parts.len() == n + 2);
    assert(parts.last() == Seq::<char>::empty()) by {
        assert(parts[n + 1] == seq![Seq::<char>::empty()][0]);
    }
    let lines = csv_lines(s);
    assert(lines =~= recs);
    // the header record
    assert(lines[0] == join_texts(t.header, seq![d]));
    lemma_fields_of_header(t, d);
    assert(record_fields(lines[0], d) == t.header);
    assert(t.header.len() == t.kinds.len());
    // the data records
    assert(forall|k: int|
        1 <= k < lines.len() ==> #[trigger] lines[k] == join_texts(
            row_fields(t, k - 1),
            seq![d],
        ));
    lemma_parse_rows_from(t, d, lines, 1);
    let rows = Seq::new(n as nat, |k: int| Seq::new(ncols as nat, |j: int| t.cols[j][k]));
    assert(rows =~~= Seq::new(
        (lines.len() - 1) as nat,
        |k: int| Seq::new(t.cols.len(), |j: int| t.cols[j][1 - 1 + k]),
    ));
    assert(parse_data_rows(lines, d, t.kinds, 1) == Ok::<Seq<Seq<ValueView>>, crate::DataError>(
        rows,
    ));
    let tv = TableView {
        header: t.header,
        kinds: t.kinds,
        cols: Seq::new(t.kinds.len(), |j: int| Seq::new(rows.len(), |i: int| rows[i][j])),
    };
    assert(tv.cols =~~= t.cols);
    assert(tv =~= t);
}

/// The fields of every data row avoid a character that no cell text holds.
proof fn lemma_row_fields_ok(t: TableView, d: char, i: int)
    requires
        csv_ready(t, d),
        0 <= i < t.nrows(),
    ensures
        forall|j: int|
            0 <= j < row_fields(t, i).len() ==> (forall|k: int|
                0 <= k < (#[trigger] row_fields(t, i)[j]).len() ==> row_fields(t, i)[j][k] != '\n'
                    && row_fields(t, i)[j][k] != d) && trim_stable(row_fields(t, i)[j]),
{
    assert forall|j: int| 0 <= j < row_fields(t, i).len() implies (forall|k: int|
        0 <= k < (#[trigger] row_fields(t, i)[j]).len() ==> row_fields(t, i)[j][k] != '\n'
            && row_fields(t, i)[j][k] != d) && trim_stable(row_fields(t, i)[j]) by {
        assert(t.cols[j].len() == t.nrows());
        assert(field_ok(cell_text(t.cols[j][i]), d) && trim_stable(cell_text(t.cols[j][i])));
    }
}

/// Reading the header record back recovers the labels.
proof fn lemma_fields_of_header(t: TableView, d: char)
    requires
        csv_ready(t, d),
        t.header.len() >= 1,
    ensures
        record_fields(join_texts(t.header, seq![d]), d) == t.header,
{
    lemma_split_join(t.header, d);
    let line = join_texts(t.header, seq![d]);
    assert(record_fields(line, d) =~= t.header) by {
        assert(forall|i: int|
            0 <= i < t.header.len() ==> #[trigger] record_fields(line, d)[i] == trim_text(
                split_on(line, d)[i],
            ));
        assert forall|i: int| 0 <= i < t.header.len() implies trim_text(#[trigger] t.header[i])
            == t.header[i] by {
            lemma_trim_stable(t.header[i]);
        }
    }
}

/// Reading the data records from row `i - 1` on recovers the rows.
proof fn lemma_parse_rows_from(t: TableView, d: char, lines: Seq<Seq<char>>, i: int)
    requires
        csv_ready(t, d),
        t.cols.len() >= 1,
        lines.len() == t.nrows() + 1,
        1 <= i <= lines.len(),
        forall|k: int|
            1 <= k < lines.len() ==> #[trigger] lines[k] == join_texts(
                row_fields(t, k - 1),
                seq![d],
            ),
    ensures
        parse_data_rows(lines, d, t.kinds, i) == Ok::<Seq<Seq<ValueView>>, crate::DataError>(
            Seq::new(
                (lines.len() - i) as nat,
                |k: int| Seq::new(t.cols.len(), |j: int| t.cols[j][i - 1 + k]),
            ),
        ),
    decreases lines.len() - i,
{
    let n = t.nrows() as int;
    let ncols = t.cols.len() as int;
    if i == lines.len() {
        assert(Seq::new(0, |k: int| Seq::new(t.cols.len(), |j: int| t.cols[j][i - 1 + k]))
            =~= Seq::<Seq<ValueView>>::empty());
    } else {
        let row = i - 1;
        let fields = row_fields(t, row);
        lemma_row_fields_ok(t, d, row);
        lemma_split_join(fields, d);
        let line = lines[i];
        assert(record_fields(line, d) =~= fields) by {
            assert(forall|q: int|
                0 <= q < fields.len() ==> #[trigger] record_fields(line, d)[q] == trim_text(
                    split_on(line, d)[q],
                ));
            assert forall|q: int| 0 <= q < fields.len() implies trim_text(#[trigger] fields[q])
                == fields[q] by {
                lemma_trim_stable(fields[q]);
            }
        }
        let cells = Seq::new(ncols as nat, |j: int| t.cols[j][row]);
        assert forall|j: int| 0 <= j < ncols implies parse_cell_spec(
            t.kinds[j],
            fields[j],
        ) == Some(#[trigger] cells[j]) by {
            assert(crate::column::cells_of_kind(t.cols[j], t.kinds[j]));
            assert(t.cols[j].len() == t.nrows());
            lemma_cell_text_roundtrip(t.cols[j][row]);
        }
        crate::csv::lemma_parse_record_cells_ok(fields, t.kinds, row, cells);
        assert(parse_record(line, d, t.kinds, row) == Ok::<Seq<ValueView>, crate::DataError>(
            cells,
        ));
        lemma_parse_rows_from(t, d, lines, i + 1);
        assert(seq![cells] + Seq::new(
            (lines.len() - i - 1) as nat,
            |k: int| Seq::new(t.cols.len(), |j: int| t.cols[j][i + k]),
        ) =~= Seq::new(
            (lines.len() - i) as nat,
            |k: int| Seq::new(t.cols.len(), |j: int| t.cols[j][i - 1 + k]),
        ));
    }
}

} // verus!
