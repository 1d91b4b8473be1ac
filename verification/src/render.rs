//! Fixed-width text rendering: a header line, a dashed separator, and one
//! right-aligned line per row; and the row-count summary table.

use vstd::prelude::*;

use crate::column::Column;
use crate::table::{Table, TableView};
use crate::value::{
    Kind, ValueView, cell_text, value_text, chars_to_string, append_chars, append_str, dec_digits,
    str_chars,
};

verus! {

/// `n` spaces.
pub open spec fn spaces(n: int) -> Seq<char>
    decreases n,
{
    if n <= 0 {
        Seq::empty()
    } else {
        spaces(n - 1).push(' ')
    }
}

/// `n` dashes.
pub open spec fn dashes(n: int) -> Seq<char>
    decreases n,
{
    if n <= 0 {
        Seq::empty()
    } else {
        dashes(n - 1).push('-')
    }
}

/// The text right-aligned to a width: left-padded with spaces, or unchanged
/// if already at least that wide.
pub open spec fn pad_left(s: Seq<char>, w: int) -> Seq<char> {
    if s.len() >= w {
        s
    } else {
        spaces(w - s.len()) + s
    }
}

/// The texts joined with a separator between neighbours.
pub open spec fn join_texts(parts: Seq<Seq<char>>, sep: Seq<char>) -> Seq<char>
    decreases parts.len(),
{
    if parts.len() == 0 {
        Seq::empty()
    } else if parts.len() == 1 {
        parts[0]
    } else {
        join_texts(parts.drop_last(), sep) + sep + parts.last()
    }
}

/// The widest cell text of a column.
pub open spec fn max_text_len(col: Seq<ValueView>) -> int
    decreases col.len(),
{
    if col.len() == 0 {
        0
    } else {
        let m = max_text_len(col.drop_last());
        if cell_text(col.last()).len() > m {
            cell_text(col.last()).len() as int
        } else {
            m
        }
    }
}

/// A column's display width: the larger of its label length and its widest
/// cell text.
pub open spec fn col_width(t: TableView, j: int) -> int {
    let lab: int = if j < t.header.len() {
        t.header[j].len() as int
    } else {
        0
    };
    if lab >= max_text_len(t.cols[j]) {
        lab
    } else {
        max_text_len(t.cols[j])
    }
}

/// The header line: each label (or nothing) right-aligned to its column
/// width, two spaces between columns.
pub open spec fn header_line(t: TableView) -> Seq<char> {
    join_texts(
        Seq::new(
            t.cols.len(),
            |j: int|
                pad_left(
                    if j < t.header.len() {
                        t.header[j]
                    } else {
                        Seq::empty()
                    },
                    col_width(t, j),
                ),
        ),
        "  "@,
    )
}

/// The separator line: dashes as wide as each column, two spaces between.
pub open spec fn sep_line(t: TableView) -> Seq<char> {
    join_texts(Seq::new(t.cols.len(), |j: int| dashes(col_width(t, j))), "  "@)
}

/// One data line: each cell text right-aligned to its column width.
pub open spec fn row_line(t: TableView, i: int) -> Seq<char> {
    join_texts(
        Seq::new(t.cols.len(), |j: int| pad_left(cell_text(t.cols[j][i]), col_width(t, j))),
        "  "@,
    )
}

/// The first `n` data lines, joined by line breaks.
pub open spec fn data_lines(t: TableView, n: int) -> Seq<char>
    decreases n,
{
    if n <= 0 {
        Seq::empty()
    } else if n == 1 {
        row_line(t, 0)
    } else {
        data_lines(t, n - 1) + seq!['\n'] + row_line(t, n - 1)
    }
}

/// The full rendering: the header line, the separator line — each ended by
/// a line break — then the data lines joined by line breaks, with no
/// terminator after the last one. A zero-row table thus ends with the line
/// break after its separator line.
pub open spec fn render_text(t: TableView) -> Seq<char> {
    header_line(t) + seq!['\n'] + sep_line(t) + seq!['\n'] + data_lines(t, t.nrows() as int)
}

/// Appends `n` copies of a character.
fn push_repeat(out: &mut Vec<char>, c: char, n: usize)
    ensures
        c == ' ' ==> final(out)@ == old(out)@ + spaces(n as int),
        c == '-' ==> final(out)@ == old(out)@ + dashes(n as int),
{
    let mut i: usize = 0;
    while i < n
        invariant
            i <= n,
            c == ' ' ==> out@ == old(out)@ + spaces(i as int),
            c == '-' ==> out@ == old(out)@ + dashes(i as int),
        decreases n - i,
    {
        out.push(c);
        i = i + 1;
    }
}

/// Appends a text right-aligned to a width.
fn push_padded(out: &mut Vec<char>, s: &Vec<char>, w: usize)
    ensures
        final(out)@ == old(out)@ + pad_left(s@, w as int),
{
    if s.len() < w {
        push_repeat(out, ' ', w - s.len());
    }
    append_chars(out, s);
    proof {
        if s@.len() < w {
            assert(out@ =~= old(out)@ + pad_left(s@, w as int));
        }
    }
}

impl Column {
    /// The canonical text of every cell, in row order.
    pub fn texts(&self) -> (r: Vec<String>)
        ensures
            r@.len() == self@.len(),
            forall|i: int| 0 <= i < r@.len() ==> (#[trigger] r@[i])@ == cell_text(self@[i]),
    {
        let n = self.len();
        let mut r: Vec<String> = Vec::new();
        let mut i: usize = 0;
        while i < n
            invariant
                n == self@.len(),
                i <= n,
                r@.len() == i,
                forall|k: int| 0 <= k < i ==> (#[trigger] r@[k])@ == cell_text(self@[k]),
            decreases n - i,
        {
            let v = self.get(i);
            let chars = value_text(&v);
            r.push(chars_to_string(&chars));
            i = i + 1;
        }
        r
    }

    /// The widest cell text of this column.
    fn max_text_width(&self) -> (r: usize)
        requires
            self@.len() <= 0xffff_ffff,
        ensures
            r as int == max_text_len(self@),
    {
        let n = self.len();
        let mut m: usize = 0;
        let mut i: usize = 0;
        while i < n
            invariant
                n == self@.len(),
                n <= 0xffff_ffff,
                i <= n,
                m as int == max_text_len(self@.take(i as int)),
                m <= usize::MAX,
            decreases n - i,
        {
            let v = self.get(i);
            let chars = value_text(&v);
            proof {
                assert(self@.take(i + 1).drop_last() =~= self@.take(i as int));
                assert(self@.take(i + 1).last() == self@[i as int]);
            }
            if chars.len() > m {
                m = chars.len();
            }
            i = i + 1;
        }
        proof {
            assert(self@.take(n as int) =~= self@);
        }
        m
    }
}

impl Table {
    /// Renders the table as fixed-width text: a header line of right-aligned
    /// labels, a dashed separator, then one line per row, columns two spaces
    /// apart.
    pub fn render(&self) -> (r: String)
        requires
            self.wf(),
            self@.nrows() <= 0xffff_ffff,
        ensures
            r@ == render_text(self@),
    {
        let ncols = self.ncols();
        let mut widths: Vec<usize> = Vec::new();
        let mut j: usize = 0;
        while j < ncols
            invariant
                self.wf(),
                self@.nrows() <= 0xffff_ffff,
                ncols == self@.cols.len(),
                j <= ncols,
                widths@.len() == j,
                forall|k: int| 0 <= k < j ==> #[trigger] widths@[k] as int == col_width(self@, k),
            decreases ncols - j,
        {
            let lab: usize = if j < self.header().len() {
                let h = self.header();
                h[j].as_str().unicode_len()
            } else {
                0
            };
            let m = self.col(j).max_text_width();
            widths.push(if lab >= m {
                lab
            } else {
                m
            });
            j = j + 1;
        }
        let mut out: Vec<char> = Vec::new();
        // header line
        let mut j: usize = 0;
        while j < ncols
            invariant
                self.wf(),
                ncols == self@.cols.len(),
                widths@.len() == ncols,
                forall|k: int| 0 <= k < ncols ==> #[trigger] widths@[k] as int == col_width(self@, k),
                j <= ncols,
                out@ == join_texts(
                    Seq::new(
                        j as nat,
                        |k: int|
                            pad_left(
                                if k < self@.header.len() {
                                    self@.header[k]
                                } else {
                                    Seq::empty()
                                },
                                col_width(self@, k),
                            ),
                    ),
                    "  "@,
                ),
            decreases ncols - j,
        {
            if j > 0 {
                append_str(&mut out, "  ");
            }
            let lab: Vec<char> = if j < self.header.len() {
                str_chars(self.header[j].as_str())
            } else {
                Vec::new()
            };
            proof {
                if j < self.header@.len() {
                    assert(lab@ == self@.header[j as int]);
                } else {
                    assert(lab@ =~= Seq::<char>::empty());
                }
            }
            push_padded(&mut out, &lab, widths[j]);
            proof {
                let parts = |n: int|
                    Seq::new(
                        n as nat,
                        |k: int|
                            pad_left(
                                if k < self@.header.len() {
                                    self@.header[k]
                                } else {
                                    Seq::empty()
                                },
                                col_width(self@, k),
                            ),
                    );
                assert(parts(j + 1).drop_last() =~= parts(j as int));
                assert(out@ =~= join_texts(parts(j + 1), "  "@));
            }
            j = j + 1;
        }
        proof {
            assert(out@ =~= header_line(self@));
        }
        out.push('\n');
        let ghost after_header = out@;
        // separator line
        let mut j: usize = 0;
        while j < ncols
            invariant
                self.wf(),
                ncols == self@.cols.len(),
                widths@.len() == ncols,
                forall|k: int| 0 <= k < ncols ==> #[trigger] widths@[k] as int == col_width(self@, k),
                j <= ncols,
                out@ == after_header + join_texts(
                    Seq::new(j as nat, |k: int| dashes(col_width(self@, k))),
                    "  "@,
                ),
                after_header == header_line(self@) + seq!['\n'],
            decreases ncols - j,
        {
            if j > 0 {
                append_str(&mut out, "  ");
            }
            push_repeat(&mut out, '-', widths[j]);
            proof {
                let parts = |n: int| Seq::new(n as nat, |k: int| dashes(col_width(self@, k)));
                assert(parts(j + 1).drop_last() =~= parts(j as int));
                assert(out@ =~= after_header + join_texts(parts(j + 1), "  "@));
            }
            j = j + 1;
        }
        proof {
            assert(out@ =~= after_header + sep_line(self@));
        }
        out.push('\n');
        let ghost after_sep = out@;
        // data lines
        let rows = self.nrows();
        let mut i: usize = 0;
        while i < rows
            invariant
                self.wf(),
                rows == self@.nrows(),
                ncols == self@.cols.len(),
                widths@.len() == ncols,
                forall|k: int| 0 <= k < ncols ==> #[trigger] widths@[k] as int == col_width(self@, k),
                i <= rows,
                out@ == after_sep + data_lines(self@, i as int),
                after_sep == header_line(self@) + seq!['\n'] + sep_line(self@) + seq!['\n'],
            decreases rows - i,
        {
            if i > 0 {
                out.push('\n');
            }
            let ghost line_start = out@;
            let mut j: usize = 0;
            while j < ncols
                invariant
                    self.wf(),
                    rows == self@.nrows(),
                    i < rows,
                    ncols == self@.cols.len(),
                    widths@.len() == ncols,
                    forall|k: int|
                        0 <= k < ncols ==> #[trigger] widths@[k] as int == col_width(self@, k),
                    j <= ncols,
                    out@ == line_start + join_texts(
                        Seq::new(
                            j as nat,
                            |k: int| pad_left(cell_text(self@.cols[k][i as int]), col_width(self@, k)),
                        ),
                        "  "@,
                    ),
                decreases ncols - j,
            {
                if j > 0 {
                    append_str(&mut out, "  ");
                }
                let v = self.col(j).get(i);
                let chars = value_text(&v);
                push_padded(&mut out, &chars, widths[j]);
                proof {
                    let parts = |n: int|
                        Seq::new(
                            n as nat,
                            |k: int|
                                pad_left(cell_text(self@.cols[k][i as int]), col_width(self@, k)),
                        );
                    assert(parts(j + 1).drop_last() =~= parts(j as int));
                    assert(out@ =~= line_start + join_texts(parts(j + 1), "  "@));
                }
                j = j + 1;
            }
            proof {
                assert(out@ =~= after_sep + data_lines(self@, i + 1));
            }
            i = i + 1;
        }
        proof {
            assert(out@ =~= render_text(self@));
        }
        chars_to_string(&out)
    }

    /// The two-column summary table: one row per column, holding the
    /// column's label (or a generated `col_N` name) and its cell count.
    pub fn describe(&self) -> (r: Table)
        requires
            self.wf(),
            self@.nrows() <= 0x7fff_ffff_ffff_ffff,
        ensures
            r.wf(),
            r@.kinds == seq![Kind::Str, Kind::Int],
            r@.cols.len() == 2,
            r@.cols[0].len() == self@.cols.len(),
            r@.cols[1].len() == self@.cols.len(),
            forall|j: int|
                0 <= j < self@.cols.len() ==> #[trigger] r@.cols[0][j] == ValueView::Str(
                    describe_name(self@, j),
                ),
            forall|j: int|
                0 <= j < self@.cols.len() ==> #[trigger] r@.cols[1][j] == ValueView::Int(
                    self@.nrows() as i64,
                ),
            r@.header == seq!["Name"@, "Count"@],
    {
        let ncols = self.ncols();
        let rows = self.nrows();
        let mut names: Vec<String> = Vec::new();
        let mut counts: Vec<i64> = Vec::new();
        let mut j: usize = 0;
        while j < ncols
            invariant
                self.wf(),
                ncols == self@.cols.len(),
                rows == self@.nrows(),
                rows <= 0x7fff_ffff_ffff_ffff,
                j <= ncols,
                names@.len() == j,
                counts@.len() == j,
                forall|k: int|
                    0 <= k < j ==> (#[trigger] names@[k])@ == describe_name(self@, k),
                forall|k: int| 0 <= k < j ==> #[trigger] counts@[k] == rows as i64,
            decreases ncols - j,
        {
            let name: String = if j < self.header.len() {
                self.header[j].clone()
            } else {
                let mut chars: Vec<char> = Vec::new();
                append_str(&mut chars, "col_");
                let digits = crate::value::u64_to_chars((j + 1) as u64);
                append_chars(&mut chars, &digits);
                chars_to_string(&chars)
            };
            names.push(name);
            counts.push(rows as i64);
            j = j + 1;
        }
        let name_col = Column::Str(names);
        let count_col = Column::Int(counts);
        let mut t = Table {
            header: Vec::new(),
            cols: {
                let mut cs: Vec<Column> = Vec::new();
                cs.push(name_col);
                cs.push(count_col);
                cs
            },
        };
        let mut labels: Vec<&str> = Vec::new();
        labels.push("Name");
        labels.push("Count");
        let res = t.set_header(labels);
        proof {
            assert(t@.cols[0] =~= Seq::new(
                self@.cols.len(),
                |j: int| ValueView::Str(describe_name(self@, j)),
            ));
            assert(t@.cols[1] =~= Seq::new(
                self@.cols.len(),
                |j: int| ValueView::Int(self@.nrows() as i64),
            ));
            assert(t@.kinds =~= seq![Kind::Str, Kind::Int]);
            assert(t@.header =~= seq!["Name"@, "Count"@]);
        }
        t
    }
}

/// The label a column is described under: its header label, or `col_N` where
/// none was set.
pub open spec fn describe_name(t: TableView, j: int) -> Seq<char> {
    if j < t.header.len() {
        t.header[j]
    } else {
        "col_"@ + dec_digits((j + 1) as nat)
    }
}

} // verus!
