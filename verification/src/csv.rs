//! The delimited-text encoding: a header record, then one record per row,
//! fields joined by a caller-chosen single-character delimiter, records ended
//! by line breaks. Reading parses each field back to its column's kind and
//! reports a recoverable error with the offending row and column.

use vstd::prelude::*;

use crate::{DataError, DocDefect};
use crate::table::{Table, TableView};
use crate::column::Column;
use crate::value::{
    Kind, Value, ValueView, cell_text, parse_cell_spec, parse_cell, value_text, chars_to_string,
    append_chars, str_chars,
};
use crate::render::join_texts;

verus! {

/// A field-level whitespace character, stripped from each field on reading.
pub open spec fn is_field_ws(c: char) -> bool {
    c == ' ' || c == '\t' || c == '\r'
}

/// The text with leading whitespace stripped.
pub open spec fn trim_start(s: Seq<char>) -> Seq<char>
    decreases s.len(),
{
    if s.len() > 0 && is_field_ws(s[0]) {
        trim_start(s.drop_first())
    } else {
        s
    }
}

/// The text with trailing whitespace stripped.
pub open spec fn trim_end(s: Seq<char>) -> Seq<char>
    decreases s.len(),
{
    if s.len() > 0 && is_field_ws(s.last()) {
        trim_end(s.drop_last())
    } else {
        s
    }
}

/// The text with whitespace stripped from both ends.
pub open spec fn trim_text(s: Seq<char>) -> Seq<char> {
    trim_end(trim_start(s))
}

/// The first position at or after `from` holding the character, or the
/// length if there is none.
pub open spec fn find_char(s: Seq<char>, c: char, from: int) -> int
    decreases s.len() - from,
{
    if 0 <= from < s.len() {
        if s[from] == c {
            from
        } else {
            find_char(s, c, from + 1)
        }
    } else {
        s.len() as int
    }
}

/// The text split on a separator character; one more part than separators.
pub open spec fn split_on(s: Seq<char>, c: char) -> Seq<Seq<char>>
    decreases s.len(),
{
    let p = find_char(s, c, 0);
    if 0 <= p < s.len() {
        seq![s.take(p)] + split_on(s.skip(p + 1), c)
    } else {
        seq![s]
    }
}

/// One record: its fields joined by the delimiter, ended by a line break.
pub open spec fn record_text(fields: Seq<Seq<char>>, d: char) -> Seq<char> {
    join_texts(fields, seq![d]) + seq!['\n']
}

/// The data records of the first `n` rows.
pub open spec fn body_records(t: TableView, d: char, n: int) -> Seq<char>
    decreases n,
{
    if n <= 0 {
        Seq::empty()
    } else {
        body_records(t, d, n - 1) + record_text(
            Seq::new(t.cols.len(), |j: int| cell_text(t.cols[j][n - 1])),
            d,
        )
    }
}

/// The delimited text of a table: the header record, then one record per
/// row.
pub open spec fn csv_text(t: TableView, d: char) -> Seq<char> {
    record_text(t.header, d) + body_records(t, d, t.nrows() as int)
}

/// The record lines of a document: the text split on line breaks, with one
/// trailing empty segment dropped.
pub open spec fn csv_lines(s: Seq<char>) -> Seq<Seq<char>> {
    let parts = split_on(s, '\n');
    if parts.len() > 1 && parts.last().len() == 0 {
        parts.drop_last()
    } else {
        parts
    }
}

/// The trimmed fields of one record.
pub open spec fn record_fields(line: Seq<char>, d: char) -> Seq<Seq<char>> {
    split_on(line, d).map_values(|f: Seq<char>| trim_text(f))
}

/// The cells of one data record under the column kinds, or the error for
/// the first field that fails: a missing or surplus field, or one that does
/// not convert.
pub open spec fn parse_record(line: Seq<char>, d: char, kinds: Seq<Kind>, row: int) -> Result<
    Seq<ValueView>,
    DataError,
> {
    let fields = record_fields(line, d);
    if fields.len() != kinds.len() {
        Err(
            DataError::ParseError {
                row: row as usize,
                col: (if fields.len() < kinds.len() {
                    fields.len()
                } else {
                    kinds.len()
                }) as usize,
            },
        )
    } else {
        parse_record_cells(fields, kinds, row, 0)
    }
}

/// The cells of a record's fields from position `j` on.
pub open spec fn parse_record_cells(
    fields: Seq<Seq<char>>,
    kinds: Seq<Kind>,
    row: int,
    j: int,
) -> Result<Seq<ValueView>, DataError>
    decreases kinds.len() - j,
{
    if j < 0 || j >= kinds.len() {
        Ok(Seq::empty())
    } else {
        match parse_cell_spec(kinds[j], fields[j]) {
            None => Err(DataError::ParseError { row: row as usize, col: j as usize }),
            Some(v) => match parse_record_cells(fields, kinds, row, j + 1) {
                Ok(rest) => Ok(seq![v] + rest),
                Err(e) => Err(e),
            },
        }
    }
}

/// The rows of the data records from `i` on, row-major.
pub open spec fn parse_data_rows(lines: Seq<Seq<char>>, d: char, kinds: Seq<Kind>, i: int) -> Result<
    Seq<Seq<ValueView>>,
    DataError,
>
    decreases lines.len() - i,
{
    if i < 0 || i >= lines.len() {
        Ok(Seq::empty())
    } else {
        match parse_record(lines[i], d, kinds, i - 1) {
            Err(e) => Err(e),
            Ok(row) => match parse_data_rows(lines, d, kinds, i + 1) {
                Ok(rest) => Ok(seq![row] + rest),
                Err(e) => Err(e),
            },
        }
    }
}

/// The table a delimited document denotes under the column kinds: the first
/// record gives the header, each later record one row; or the first error.
pub open spec fn csv_parse(s: Seq<char>, d: char, kinds: Seq<Kind>) -> Result<
    TableView,
    DataError,
> {
    let lines = csv_lines(s);
    let labels = record_fields(lines[0], d);
    if labels.len() != kinds.len() {
        Err(DataError::MalformedDocument { defect: DocDefect::HeaderArity })
    } else {
        match parse_data_rows(lines, d, kinds, 1) {
            Err(e) => Err(e),
            Ok(rows) => Ok(
                TableView {
                    header: labels,
                    kinds: kinds,
                    cols: Seq::new(
                        kinds.len(),
                        |j: int| Seq::new(rows.len(), |i: int| rows[i][j]),
                    ),
                },
            ),
        }
    }
}

impl Table {
    /// Writes the table as delimited text: the header labels as the first
    /// record, then one record per row with each cell in its canonical text
    /// form, fields separated by the given delimiter.
    pub fn to_csv_string(&self, delimiter: char) -> (r: String)
        requires
            self.wf(),
        ensures
            r@ == csv_text(self@, delimiter),
    {
        let mut out: Vec<char> = Vec::new();
        let ncols = self.ncols();
        let hn = self.header.len();
        let mut j: usize = 0;
        while j < hn
            invariant
                self.wf(),
                hn == self@.header.len(),
                j <= hn,
                out@ == join_texts(self@.header.take(j as int), seq![delimiter]),
            decreases hn - j,
        {
            if j > 0 {
                out.push(delimiter);
            }
            let lab = str_chars(self.header[j].as_str());
            append_chars(&mut out, &lab);
            proof {
                assert(self@.header.take(j + 1).drop_last() =~= self@.header.take(j as int));
                assert(out@ =~= join_texts(self@.header.take(j + 1), seq![delimiter]));
            }
            j = j + 1;
        }
        out.push('\n');
        proof {
            assert(self@.header.take(hn as int) =~= self@.header);
            assert(out@ =~= record_text(self@.header, delimiter));
        }
        let ghost after_header = out@;
        let rows = self.nrows();
        let mut i: usize = 0;
        while i < rows
            invariant
                self.wf(),
                rows == self@.nrows(),
                ncols == self@.cols.len(),
                i <= rows,
                out@ == after_header + body_records(self@, delimiter, i as int),
                after_header == record_text(self@.header, delimiter),
            decreases rows - i,
        {
            let ghost line_start = out@;
            let mut j: usize = 0;
            while j < ncols
                invariant
                    self.wf(),
                    rows == self@.nrows(),
                    i < rows,
                    ncols == self@.cols.len(),
                    j <= ncols,
                    out@ == line_start + join_texts(
                        Seq::new(j as nat, |k: int| cell_text(self@.cols[k][i as int])),
                        seq![delimiter],
                    ),
                decreases ncols - j,
            {
                if j > 0 {
                    out.push(delimiter);
                }
                let v = self.col(j).get(i);
                let chars = value_text(&v);
                append_chars(&mut out, &chars);
                proof {
                    let parts = |n: int| Seq::new(n as nat, |k: int| cell_text(self@.cols[k][i as int]));
                    assert(parts(j + 1).drop_last() =~= parts(j as int));
                    assert(out@ =~= line_start + join_texts(parts(j + 1), seq![delimiter]));
                }
                j = j + 1;
            }
            out.push('\n');
            proof {
                assert(out@ =~= after_header + body_records(self@, delimiter, i + 1));
            }
            i = i + 1;
        }
        chars_to_string(&out)
    }

    /// Reads a table from delimited text: the first record becomes the
    /// header, each later record one row, each field converted to its
    /// column's kind. Rejects a header whose width differs from the kind
    /// list, and reports the row and column of the first field that is
    /// missing, surplus, or fails to convert.
    pub fn from_csv_string(s: &str, delimiter: char, kinds: &Vec<Kind>) -> (r: Result<
        Table,
        DataError,
    >)
        ensures
            match csv_parse(s@, delimiter, kinds@) {
                Ok(tv) => r is Ok && r->Ok_0@ == tv && r->Ok_0.wf(),
                Err(e) => r == Err::<Table, DataError>(e),
            },
    {
        let chars = str_chars(s);
        let parts = split_chars(&chars, '\n');
        let ghost glines = csv_lines(s@);
        let lines = if parts.len() > 1 && parts[parts.len() - 1].len() == 0 {
            let mut ps = parts;
            let ghost full = ps@;
            let _trailing = ps.pop();
            proof {
                assert(Seq::new(ps@.len(), |i: int| ps@[i]@) =~= Seq::new(
                    full.len(),
                    |i: int| full[i]@,
                ).drop_last());
            }
            ps
        } else {
            parts
        };
        proof {
            assert(split_on(s@, '\n').len() >= 1);
            assert(Seq::new(lines@.len(), |i: int| lines@[i]@) =~= glines);
            assert(lines@.len() >= 1);
        }
        let labels = record_fields_x(&lines[0], delimiter);
        proof {
            assert(glines[0] == lines@[0]@);
        }
        if labels.len() != kinds.len() {
            proof {
                assert(record_fields(glines[0], delimiter).len() != kinds@.len());
            }
            return Err(DataError::MalformedDocument { defect: DocDefect::HeaderArity });
        }
        let mut cols: Vec<Column> = Vec::new();
        let mut j: usize = 0;
        while j < kinds.len()
            invariant
                j <= kinds@.len(),
                cols@.len() == j,
                forall|k: int|
                    0 <= k < j ==> (#[trigger] cols@[k]).kind_spec() == kinds@[k] && cols@[k]@
                        =~= Seq::<ValueView>::empty() && cols@[k].wf(),
            decreases kinds@.len() - j,
        {
            cols.push(Column::empty_of(kinds[j]));
            j = j + 1;
        }
        let mut i: usize = 1;
        let mut row_count: usize = 0;
        let ghost mut rows_acc: Seq<Seq<ValueView>> = Seq::empty();
        proof {
            assert(rows_acc + parse_data_rows(glines, delimiter, kinds@, 1)->Ok_0
                =~= parse_data_rows(glines, delimiter, kinds@, 1)->Ok_0);
            assert(forall|k: int|
                0 <= k < cols@.len() ==> (#[trigger] cols@[k])@ =~= Seq::new(
                    rows_acc.len(),
                    |q: int| rows_acc[q][k],
                ));
        }
        while i < lines.len()
            invariant
                glines == csv_lines(s@),
                glines == Seq::new(lines@.len(), |k: int| lines@[k]@),
                kinds@.len() == cols@.len(),
                1 <= i <= lines@.len(),
                row_count == i - 1,
                rows_acc.len() == row_count,
                record_fields(glines[0], delimiter).len() == kinds@.len(),
                (match parse_data_rows(glines, delimiter, kinds@, i as int) {
                    Ok(rest) => parse_data_rows(glines, delimiter, kinds@, 1) == Ok::<
                        Seq<Seq<ValueView>>,
                        DataError,
                    >(rows_acc + rest),
                    Err(e) => parse_data_rows(glines, delimiter, kinds@, 1) == Err::<
                        Seq<Seq<ValueView>>,
                        DataError,
                    >(e),
                }),
                forall|k: int|
                    0 <= k < cols@.len() ==> (#[trigger] cols@[k]).kind_spec() == kinds@[k]
                        && cols@[k].wf() && cols@[k]@ == Seq::new(
                        rows_acc.len(),
                        |q: int| rows_acc[q][k],
                    ),
                forall|q: int| 0 <= q < rows_acc.len() ==> (#[trigger] rows_acc[q]).len()
                    == kinds@.len(),
            decreases lines@.len() - i,
        {
            let fields = record_fields_x(&lines[i], delimiter);
            proof {
                assert(glines[i as int] == lines@[i as int]@);
            }
            if fields.len() != kinds.len() {
                let col = if fields.len() < kinds.len() {
                    fields.len()
                } else {
                    kinds.len()
                };
                proof {
                    let e = DataError::ParseError { row: row_count, col };
                    assert(record_fields(glines[i as int], delimiter).len() == fields@.len());
                    assert(parse_record(glines[i as int], delimiter, kinds@, row_count as int)
                        == Err::<Seq<ValueView>, DataError>(e));
                    assert(parse_data_rows(glines, delimiter, kinds@, i as int) == Err::<
                        Seq<Seq<ValueView>>,
                        DataError,
                    >(e));
                    assert(parse_data_rows(glines, delimiter, kinds@, 1) == Err::<
                        Seq<Seq<ValueView>>,
                        DataError,
                    >(e));
                    assert(csv_parse(s@, delimiter, kinds@) == Err::<TableView, DataError>(e));
                }
                return Err(DataError::ParseError { row: row_count, col });
            }
            let ghost gfields = Seq::new(fields@.len(), |k: int| fields@[k]@);
            proof {
                assert(gfields =~= record_fields(glines[i as int], delimiter));
            }
            let mut rowvals: Vec<Value> = Vec::new();
            let mut j: usize = 0;
            while j < kinds.len()
                invariant
                    fields@.len() == kinds@.len(),
                    gfields == Seq::new(fields@.len(), |k: int| fields@[k]@),
                    gfields == record_fields(glines[i as int], delimiter),
                    i < lines@.len(),
                    1 <= i,
                    glines == csv_lines(s@),
                    glines == Seq::new(lines@.len(), |k: int| lines@[k]@),
                    row_count == i - 1,
                    kinds@.len() == cols@.len(),
                    rows_acc.len() == row_count,
                    record_fields(glines[0], delimiter).len() == kinds@.len(),
                    (match parse_data_rows(glines, delimiter, kinds@, i as int) {
                        Ok(rest) => parse_data_rows(glines, delimiter, kinds@, 1) == Ok::<
                            Seq<Seq<ValueView>>,
                            DataError,
                        >(rows_acc + rest),
                        Err(e) => parse_data_rows(glines, delimiter, kinds@, 1) == Err::<
                            Seq<Seq<ValueView>>,
                            DataError,
                        >(e),
                    }),
                    j <= kinds@.len(),
                    rowvals@.len() == j,
                    forall|k: int|
                        0 <= k < j ==> parse_cell_spec(kinds@[k], gfields[k]) == Some(
                            (#[trigger] rowvals@[k])@,
                        ) && crate::value::value_wf(rowvals@[k]@) && crate::value::kind_of(
                            rowvals@[k]@,
                        ) == kinds@[k],
                decreases kinds@.len() - j,
            {
                proof {
                    assert(gfields[j as int] == fields@[j as int]@);
                }
                let field_chars = str_chars(fields[j].as_str());
                match parse_cell(kinds[j], &field_chars) {
                    Some(v) => {
                        rowvals.push(v);
                    },
                    None => {
                        proof {
                            let e = DataError::ParseError { row: row_count, col: j };
                            assert forall|k: int| 0 <= k < j implies parse_cell_spec(
                                kinds@[k],
                                #[trigger] gfields[k],
                            ) is Some by {
                                assert(parse_cell_spec(kinds@[k], gfields[k]) == Some(
                                    rowvals@[k]@,
                                ));
                            }
                            lemma_parse_record_cells_err(
                                gfields,
                                kinds@,
                                row_count as int,
                                j as int,
                            );
                            assert(parse_record(
                                glines[i as int],
                                delimiter,
                                kinds@,
                                row_count as int,
                            ) == Err::<Seq<ValueView>, DataError>(e));
                            assert(parse_data_rows(glines, delimiter, kinds@, i as int) == Err::<
                                Seq<Seq<ValueView>>,
                                DataError,
                            >(e));
                            assert(parse_data_rows(glines, delimiter, kinds@, 1) == Err::<
                                Seq<Seq<ValueView>>,
                                DataError,
                            >(e));
                            assert(csv_parse(s@, delimiter, kinds@) == Err::<
                                TableView,
                                DataError,
                            >(e));
                        }
                        return Err(DataError::ParseError { row: row_count, col: j });
                    },
                }
                j = j + 1;
            }
            let ghost rowview = Seq::new(rowvals@.len(), |k: int| rowvals@[k]@);
            proof {
                lemma_parse_record_cells_ok(gfields, kinds@, row_count as int, rowview);
                assert(parse_record(glines[i as int], delimiter, kinds@, row_count as int)
                    == Ok::<Seq<ValueView>, DataError>(rowview));
            }
            let mut j: usize = 0;
            while j < rowvals.len()
                invariant
                    rowvals@.len() == kinds@.len(),
                    kinds@.len() == cols@.len(),
                    rowview == Seq::new(rowvals@.len(), |k: int| rowvals@[k]@),
                    forall|k: int|
                        0 <= k < rowvals@.len() ==> crate::value::value_wf(
                            (#[trigger] rowvals@[k])@,
                        ) && crate::value::kind_of(rowvals@[k]@) == kinds@[k],
                    j <= rowvals@.len(),
                    forall|k: int|
                        0 <= k < cols@.len() ==> (#[trigger] cols@[k]).kind_spec() == kinds@[k]
                            && cols@[k].wf(),
                    forall|k: int|
                        0 <= k < j ==> (#[trigger] cols@[k])@ == Seq::new(
                            rows_acc.len(),
                            |q: int| rows_acc[q][k],
                        ).push(rowview[k]),
                    forall|k: int|
                        j <= k < cols@.len() ==> (#[trigger] cols@[k])@ == Seq::new(
                            rows_acc.len(),
                            |q: int| rows_acc[q][k],
                        ),
                decreases rowvals@.len() - j,
            {
                let v = rowvals[j].duplicate();
                let mut tmp = Column::Int(Vec::new());
                cols.set_and_swap(j, &mut tmp);
                let res = tmp.push(v);
                proof {
                    assert(res is Ok);
                }
                cols.set(j, tmp);
                j = j + 1;
            }
            proof {
                let prev = rows_acc;
                rows_acc = rows_acc.push(rowview);
                assert forall|k: int| 0 <= k < cols@.len() implies (#[trigger] cols@[k])@
                    == Seq::new(rows_acc.len(), |q: int| rows_acc[q][k]) by {
                    assert(cols@[k]@ =~= Seq::new(rows_acc.len(), |q: int| rows_acc[q][k]));
                }
                let after = parse_data_rows(glines, delimiter, kinds@, i + 1);
                assert(parse_data_rows(glines, delimiter, kinds@, i as int) == (match after {
                    Ok(rest) => Ok::<Seq<Seq<ValueView>>, DataError>(seq![rowview] + rest),
                    Err(e) => Err::<Seq<Seq<ValueView>>, DataError>(e),
                }));
                if after is Ok {
                    let rest = after->Ok_0;
                    assert(prev + (seq![rowview] + rest) =~= rows_acc + rest);
                }
            }
            row_count = row_count + 1;
            i = i + 1;
        }
        let t = Table { header: labels, cols };
        proof {
            assert(parse_data_rows(glines, delimiter, kinds@, lines@.len() as int) == Ok::<
                Seq<Seq<ValueView>>,
                DataError,
            >(Seq::empty()));
            assert(rows_acc + Seq::<Seq<ValueView>>::empty() =~= rows_acc);
            assert(record_fields(glines[0], delimiter).len() == kinds@.len());
            let tv = csv_parse(s@, delimiter, kinds@)->Ok_0;
            assert(t@.header =~= record_fields(glines[0], delimiter));
            assert(t@.kinds =~= kinds@);
            assert(t@.cols =~= Seq::new(
                kinds@.len(),
                |j: int| Seq::new(rows_acc.len(), |q: int| rows_acc[q][j]),
            ));
            assert(t@ =~= tv);
        }
        Ok(t)
    }
}

/// The cells of a record fail to parse at the first failing field.
proof fn lemma_parse_record_cells_err(
    fields: Seq<Seq<char>>,
    kinds: Seq<Kind>,
    row: int,
    bad: int,
)
    requires
        fields.len() == kinds.len(),
        0 <= bad < kinds.len(),
        forall|k: int|
            0 <= k < bad ==> parse_cell_spec(kinds[k], #[trigger] fields[k]) is Some,
        parse_cell_spec(kinds[bad], fields[bad]) is None,
    ensures
        parse_record_cells(fields, kinds, row, 0) == Err::<Seq<ValueView>, DataError>(
            DataError::ParseError { row: row as usize, col: bad as usize },
        ),
{
    lemma_parse_record_cells_err_from(fields, kinds, row, bad, 0);
}

/// The cells from `j` on fail to parse at the first failing field.
proof fn lemma_parse_record_cells_err_from(
    fields: Seq<Seq<char>>,
    kinds: Seq<Kind>,
    row: int,
    bad: int,
    j: int,
)
    requires
        fields.len() == kinds.len(),
        0 <= j <= bad < kinds.len(),
        forall|k: int|
            0 <= k < bad ==> parse_cell_spec(kinds[k], #[trigger] fields[k]) is Some,
        parse_cell_spec(kinds[bad], fields[bad]) is None,
    ensures
        parse_record_cells(fields, kinds, row, j) == Err::<Seq<ValueView>, DataError>(
            DataError::ParseError { row: row as usize, col: bad as usize },
        ),
    decreases bad - j,
{
    if j < bad {
        lemma_parse_record_cells_err_from(fields, kinds, row, bad, j + 1);
    }
}

/// A record's cells parse exactly when each field parses to the matching
/// cell.
pub(crate) proof fn lemma_parse_record_cells_ok(
    fields: Seq<Seq<char>>,
    kinds: Seq<Kind>,
    row: int,
    cells: Seq<ValueView>,
)
    requires
        fields.len() == kinds.len(),
        cells.len() == kinds.len(),
        forall|k: int|
            0 <= k < kinds.len() ==> parse_cell_spec(kinds[k], fields[k]) == Some(
                #[trigger] cells[k],
            ),
    ensures
        parse_record_cells(fields, kinds, row, 0) == Ok::<Seq<ValueView>, DataError>(cells),
{
    lemma_parse_record_cells_suffix(fields, kinds, row, cells, 0);
    assert(cells.skip(0) =~= cells);
}

/// The cells from position `j` on parse to the matching suffix.
proof fn lemma_parse_record_cells_suffix(
    fields: Seq<Seq<char>>,
    kinds: Seq<Kind>,
    row: int,
    cells: Seq<ValueView>,
    j: int,
)
    requires
        fields.len() == kinds.len(),
        cells.len() == kinds.len(),
        0 <= j <= kinds.len(),
        forall|k: int|
            0 <= k < kinds.len() ==> parse_cell_spec(kinds[k], fields[k]) == Some(
                #[trigger] cells[k],
            ),
    ensures
        parse_record_cells(fields, kinds, row, j) == Ok::<Seq<ValueView>, DataError>(
            cells.skip(j),
        ),
    decreases kinds.len() - j,
{
    if j == kinds.len() {
        assert(cells.skip(j) =~= Seq::<ValueView>::empty());
    } else {
        lemma_parse_record_cells_suffix(fields, kinds, row, cells, j + 1);
        assert(seq![cells[j]] + cells.skip(j + 1) =~= cells.skip(j));
    }
}

/// Splits characters on a separator.
fn split_chars(s: &Vec<char>, c: char) -> (r: Vec<Vec<char>>)
    ensures
        r@.len() == split_on(s@, c).len(),
        Seq::new(r@.len(), |i: int| r@[i]@) == split_on(s@, c),
    decreases s@.len(),
{
    let mut p: usize = 0;
    while p < s.len() && s[p] != c
        invariant
            p <= s@.len(),
            forall|k: int| 0 <= k < p ==> s@[k] != c,
        decreases s@.len() - p,
    {
        p = p + 1;
    }
    proof {
        lemma_find_char_from(s@, c, 0, p as int);
    }
    let mut first: Vec<char> = Vec::new();
    let mut k: usize = 0;
    while k < p
        invariant
            p <= s@.len(),
            k <= p,
            first@ == s@.take(p as int).take(k as int),
        decreases p - k,
    {
        first.push(s[k]);
        proof {
            assert(first@ =~= s@.take(p as int).take(k + 1));
        }
        k = k + 1;
    }
    proof {
        assert(first@ =~= s@.take(p as int));
    }
    if p == s.len() {
        let mut r: Vec<Vec<char>> = Vec::new();
        r.push(first);
        proof {
            assert(first@ =~= s@);
            assert(Seq::new(r@.len(), |i: int| r@[i]@) =~= split_on(s@, c));
        }
        r
    } else {
        let mut rest_chars: Vec<char> = Vec::new();
        let mut k: usize = p + 1;
        while k < s.len()
            invariant
                p < s@.len(),
                p + 1 <= k <= s@.len(),
                rest_chars@ == s@.skip(p + 1).take(k - p - 1),
            decreases s@.len() - k,
        {
            rest_chars.push(s[k]);
            proof {
                assert(rest_chars@ =~= s@.skip(p + 1).take(k + 1 - p - 1));
            }
            k = k + 1;
        }
        proof {
            assert(rest_chars@ =~= s@.skip(p + 1));
        }
        let rest = split_chars(&rest_chars, c);
        let mut r: Vec<Vec<char>> = Vec::new();
        r.push(first);
        let mut k: usize = 0;
        while k < rest.len()
            invariant
                p < s@.len(),
                find_char(s@, c, 0) == p as int,
                Seq::new(rest@.len(), |q: int| rest@[q]@) == split_on(s@.skip(p + 1), c),
                k <= rest@.len(),
                r@.len() == k + 1,
                r@[0]@ == s@.take(p as int),
                forall|q: int| 0 <= q < k ==> (#[trigger] r@[q + 1])@ == rest@[q]@,
            decreases rest@.len() - k,
        {
            let mut part: Vec<char> = Vec::new();
            append_chars(&mut part, &rest[k]);
            proof {
                assert(part@ =~= rest@[k as int]@);
            }
            r.push(part);
            k = k + 1;
        }
        proof {
            let sp = split_on(s@, c);
            assert(sp == seq![s@.take(p as int)] + split_on(s@.skip(p + 1), c));
            assert(sp.len() == 1 + rest@.len());
            assert forall|i: int| 0 <= i < r@.len() implies (#[trigger] r@[i])@ == sp[i] by {
                if i > 0 {
                    assert(sp[i] == split_on(s@.skip(p + 1), c)[i - 1]);
                    assert(r@[(i - 1) + 1]@ == rest@[i - 1]@);
                    assert(Seq::new(rest@.len(), |q: int| rest@[q]@)[i - 1] == rest@[i - 1]@);
                }
            }
            assert(Seq::new(r@.len(), |i: int| r@[i]@) =~= sp);
        }
        r
    }
}

/// The scanned prefix holds no separator, so the first one is at `p`.
proof fn lemma_find_char_from(s: Seq<char>, c: char, from: int, p: int)
    requires
        0 <= from <= p <= s.len(),
        forall|k: int| from <= k < p ==> s[k] != c,
        p < s.len() ==> s[p] == c,
    ensures
        find_char(s, c, from) == (if p < s.len() {
            p
        } else {
            s.len() as int
        }),
    decreases p - from,
{
    if from < p {
        lemma_find_char_from(s, c, from + 1, p);
    }
}

/// The trimmed fields of one record, as characters.
fn record_fields_x(line: &Vec<char>, d: char) -> (r: Vec<String>)
    ensures
        r@.len() == record_fields(line@, d).len(),
        Seq::new(r@.len(), |i: int| r@[i]@) == record_fields(line@, d),
    decreases line@.len(),
{
    let parts = split_chars(line, d);
    let mut r: Vec<String> = Vec::new();
    let mut i: usize = 0;
    while i < parts.len()
        invariant
            Seq::new(parts@.len(), |k: int| parts@[k]@) == split_on(line@, d),
            i <= parts@.len(),
            r@.len() == i,
            forall|k: int|
                0 <= k < i ==> (#[trigger] r@[k])@ == trim_text(split_on(line@, d)[k]),
        decreases parts@.len() - i,
    {
        let f = trim_chars(&parts[i]);
        proof {
            assert(parts@[i as int]@ == split_on(line@, d)[i as int]);
        }
        r.push(chars_to_string(&f));
        i = i + 1;
    }
    proof {
        assert(Seq::new(r@.len(), |i: int| r@[i]@) =~= record_fields(line@, d));
    }
    r
}

/// Strips whitespace from both ends of a field.
fn trim_chars(s: &Vec<char>) -> (r: Vec<char>)
    ensures
        r@ == trim_text(s@),
{
    proof {
        assert(s@.skip(0) =~= s@);
    }
    let mut a: usize = 0;
    while a < s.len() && is_ws_x(s[a])
        invariant
            a <= s@.len(),
            forall|k: int| 0 <= k < a ==> is_field_ws(s@[k]),
            trim_start(s@) == trim_start(s@.skip(a as int)),
        decreases s@.len() - a,
    {
        proof {
            assert(s@.skip(a as int).drop_first() =~= s@.skip(a + 1));
        }
        a = a + 1;
    }
    proof {
        if a < s@.len() {
            assert(trim_start(s@) == s@.skip(a as int));
        } else {
            assert(s@.skip(a as int).len() == 0);
            assert(trim_start(s@) == s@.skip(a as int));
        }
    }
    let mut b: usize = s.len();
    proof {
        assert(s@.skip(a as int).take(b - a) =~= s@.skip(a as int));
    }
    while b > a && is_ws_x(s[b - 1])
        invariant
            a <= b <= s@.len(),
            trim_start(s@) == s@.skip(a as int),
            forall|k: int| 0 <= k < a ==> is_field_ws(s@[k]),
            trim_end(s@.skip(a as int)) == trim_end(s@.skip(a as int).take(b - a)),
        decreases b,
    {
        proof {
            let cur = s@.skip(a as int).take(b - a);
            assert(cur.last() == s@[b - 1]);
            assert(cur.drop_last() =~= s@.skip(a as int).take(b - 1 - a));
        }
        b = b - 1;
    }
    proof {
        let cur = s@.skip(a as int).take(b - a);
        if b > a {
            assert(cur.last() == s@[b - 1]);
            assert(!is_field_ws(cur.last()));
            assert(trim_end(cur) == cur);
        } else {
            assert(cur.len() == 0);
            assert(trim_end(cur) == cur);
        }
    }
    let mut r: Vec<char> = Vec::new();
    let mut k: usize = a;
    while k < b
        invariant
            a <= k <= b <= s@.len(),
            r@ == s@.skip(a as int).take(k - a),
        decreases b - k,
    {
        r.push(s[k]);
        proof {
            assert(r@ =~= s@.skip(a as int).take(k + 1 - a));
        }
        k = k + 1;
    }
    proof {
        assert(r@ =~= trim_text(s@));
    }
    r
}

/// A field-level whitespace character.
fn is_ws_x(c: char) -> (r: bool)
    ensures
        r == is_field_ws(c),
{
    c == ' ' || c == '\t' || c == '\r'
}

} // verus!
