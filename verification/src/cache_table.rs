//! The text format of a precomputed cache table.
//!
//! A table is stored as lines of values separated by tabs, one line per row.
//! Reading splits the text into lines, each line into the runs of
//! non-blank bytes, checks that every line has as many values as the first,
//! and returns the table by columns. The values themselves are numbers in
//! their decimal text form; they are handled here as byte strings.
use vstd::prelude::*;

verus! {

/// The line feed byte that ends a line.
pub open spec fn is_newline(b: u8) -> bool {
    b == 10
}

/// The ASCII blanks that separate values: space, tab, line feed, form feed,
/// carriage return.
pub open spec fn is_blank(b: u8) -> bool {
    b == 32 || b == 9 || b == 10 || b == 12 || b == 13
}

/// A byte that ends a piece: a blank when splitting a line into values, a
/// line feed when splitting a text into lines.
pub open spec fn is_separator(b: u8, blanks: bool) -> bool {
    if blanks {
        is_blank(b)
    } else {
        is_newline(b)
    }
}

/// The pieces of `s` between separators, empty pieces included; there is
/// always at least one piece.
pub open spec fn pieces(s: Seq<u8>, blanks: bool) -> Seq<Seq<u8>>
    decreases s.len(),
{
    if s.len() == 0 {
        seq![Seq::empty()]
    } else {
        let p = pieces(s.drop_last(), blanks);
        if is_separator(s.last(), blanks) {
            p.push(Seq::empty())
        } else {
            p.update(p.len() - 1, p.last().push(s.last()))
        }
    }
}

/// The pieces of `s` between line feeds.
pub open spec fn line_pieces(s: Seq<u8>) -> Seq<Seq<u8>> {
    pieces(s, false)
}

/// The pieces of `s` between blanks.
pub open spec fn blank_pieces(s: Seq<u8>) -> Seq<Seq<u8>> {
    pieces(s, true)
}

/// The non-empty pieces, in order.
pub open spec fn nonempty(pcs: Seq<Seq<u8>>) -> Seq<Seq<u8>>
    decreases pcs.len(),
{
    if pcs.len() == 0 {
        Seq::empty()
    } else if pcs.last().len() == 0 {
        nonempty(pcs.drop_last())
    } else {
        nonempty(pcs.drop_last()).push(pcs.last())
    }
}

/// The lines of a text: the pieces between line feeds, where a final line
/// feed (or an empty text) does not start another line.
pub open spec fn text_lines(text: Seq<u8>) -> Seq<Seq<u8>> {
    let p = line_pieces(text);
    if p.last().len() == 0 {
        p.drop_last()
    } else {
        p
    }
}

/// The values of a line: its maximal runs of non-blank bytes.
pub open spec fn line_values(line: Seq<u8>) -> Seq<Seq<u8>> {
    nonempty(blank_pieces(line))
}

/// The rows of a text: the values of each of its lines.
pub open spec fn text_rows(text: Seq<u8>) -> Seq<Seq<Seq<u8>>> {
    text_lines(text).map_values(|l: Seq<u8>| line_values(l))
}

/// Why a text is not a table.
pub enum TableError {
    /// The line with this number (counted from 1) has another number of
    /// values than the first line.
    Inconsistent(usize),
    /// The text has no line.
    NoValues,
}

/// The table of a text, by columns: `Ok` when the text has at least one line
/// and all lines have as many values as the first, and then column `c` lists
/// value `c` of every line in line order. Otherwise the error names the first
/// line whose number of values differs from the first line's, or says that
/// there is no line.
pub open spec fn table_result_ok(
    text: Seq<u8>,
    res: Result<Vec<Vec<Vec<u8>>>, TableError>,
) -> bool {
    let rows = text_rows(text);
    match res {
        Ok(cols) => {
            &&& rows.len() > 0
            &&& forall|r: int| 0 <= r < rows.len() ==> (#[trigger] rows[r]).len() == rows[0].len()
            &&& cols.len() == rows[0].len()
            &&& forall|c: int| 0 <= c < cols.len() ==> (#[trigger] cols[c]).len() == rows.len()
            &&& forall|c: int, r: int|
                0 <= c < cols.len() && 0 <= r < rows.len() ==> (#[trigger] cols[c][r])@ == rows[r][c]
        },
        Err(TableError::NoValues) => rows.len() == 0,
        Err(TableError::Inconsistent(line)) => {
            &&& rows.len() > 0
            &&& 1 <= line <= rows.len()
            &&& rows[line - 1].len() != rows[0].len()
            &&& forall|r: int| 0 <= r < line - 1 ==> (#[trigger] rows[r]).len() == rows[0].len()
        },
    }
}

fn copy_bytes(v: &Vec<u8>) -> (res: Vec<u8>)
    ensures
        res@ == v@,
{
    let mut res: Vec<u8> = Vec::new();
    let mut i: usize = 0;
    while i < v.len()
        invariant
            i <= v.len(),
            res@ =~= v@.subrange(0, i as int),
        decreases v.len() - i,
    {
        res.push(v[i]);
        i = i + 1;
    }
    proof {
        assert(v@.subrange(0, i as int) =~= v@);
    }
    res
}

/// Splits `text` at its separators (see `pieces`).
fn split_pieces(text: &Vec<u8>, blanks: bool) -> (pcs: Vec<Vec<u8>>)
    ensures
        pcs.len() == pieces(text@, blanks).len(),
        forall|j: int| 0 <= j < pcs.len() ==> (#[trigger] pcs[j])@ == pieces(text@, blanks)[j],
{
    let mut pcs: Vec<Vec<u8>> = Vec::new();
    pcs.push(Vec::new());
    let mut i: usize = 0;
    proof {
        assert(text@.subrange(0, 0) =~= Seq::<u8>::empty());
    }
    while i < text.len()
        invariant
            i <= text.len(),
            pcs.len() == pieces(text@.subrange(0, i as int), blanks).len(),
            forall|j: int|
                0 <= j < pcs.len() ==> (#[trigger] pcs[j])@ == pieces(
                    text@.subrange(0, i as int),
                    blanks,
                )[j],
        decreases text.len() - i,
    {
        let ghost prev = pcs@;
        let ghost s = text@.subrange(0, i + 1);
        proof {
            assert(s.drop_last() =~= text@.subrange(0, i as int));
            lemma_pieces_nonempty(text@.subrange(0, i as int), blanks);
        }
        let b = text[i];
        let separator = if blanks {
            b == 32 || b == 9 || b == 10 || b == 12 || b == 13
        } else {
            b == 10
        };
        if separator {
            pcs.push(Vec::new());
            proof {
                assert forall|j: int| 0 <= j < pcs.len() implies (#[trigger] pcs[j])@
                    == pieces(s, blanks)[j] by {
                    if j < prev.len() {
                        assert(pcs[j] == prev[j]);
                    }
                }
            }
        } else {
            let last = pcs.len() - 1;
            pcs[last].push(b);
            proof {
                assert forall|j: int| 0 <= j < pcs.len() implies (#[trigger] pcs[j])@
                    == pieces(s, blanks)[j] by {
                    if j < last {
                        assert(pcs[j] == prev[j]);
                    }
                }
            }
        }
        i = i + 1;
    }
    proof {
        assert(text@.subrange(0, i as int) =~= text@);
    }
    pcs
}

proof fn lemma_pieces_nonempty(s: Seq<u8>, blanks: bool)
    ensures
        pieces(s, blanks).len() >= 1,
    decreases s.len(),
{
    if s.len() > 0 {
        lemma_pieces_nonempty(s.drop_last(), blanks);
    }
}

/// Splits a line into its values.
fn split_values(line: &Vec<u8>) -> (vals: Vec<Vec<u8>>)
    ensures
        vals.len() == line_values(line@).len(),
        forall|j: int| 0 <= j < vals.len() ==> (#[trigger] vals[j])@ == line_values(line@)[j],
{
    let pcs = split_pieces(line, true);
    let ghost all = blank_pieces(line@);
    let mut vals: Vec<Vec<u8>> = Vec::new();
    let mut k: usize = 0;
    proof {
        assert(all.subrange(0, 0) =~= Seq::<Seq<u8>>::empty());
    }
    while k < pcs.len()
        invariant
            k <= pcs.len(),
            pcs.len() == all.len(),
            forall|j: int| 0 <= j < pcs.len() ==> (#[trigger] pcs[j])@ == all[j],
            vals.len() == nonempty(all.subrange(0, k as int)).len(),
            forall|j: int|
                0 <= j < vals.len() ==> (#[trigger] vals[j])@ == nonempty(all.subrange(0, k as int))[j],
        decreases pcs.len() - k,
    {
        let ghost prev = vals@;
        proof {
            assert(all.subrange(0, k + 1).drop_last() =~= all.subrange(0, k as int));
        }
        if pcs[k].len() > 0 {
            let piece = copy_bytes(&pcs[k]);
            vals.push(piece);
            proof {
                assert forall|j: int| 0 <= j < vals.len() implies (#[trigger] vals[j])@
                    == nonempty(all.subrange(0, k + 1))[j] by {
                    if j < prev.len() {
                        assert(vals[j] == prev[j]);
                    }
                }
            }
        }
        k = k + 1;
    }
    proof {
        assert(all.subrange(0, k as int) =~= all);
    }
    vals
}

/// The rows of a text, in line order: the values of each line (see
/// `text_rows`).
pub fn table_rows(text: &Vec<u8>) -> (rows: Vec<Vec<Vec<u8>>>)
    ensures
        rows.len() == text_rows(text@).len(),
        forall|j: int| 0 <= j < rows.len() ==> (#[trigger] rows[j]).len() == text_rows(text@)[j].len(),
        forall|j: int, c: int|
            0 <= j < rows.len() && 0 <= c < rows[j].len() ==> (#[trigger] rows[j][c])@ == text_rows(
                text@,
            )[j][c],
{
    let mut pcs = split_pieces(text, false);
    let ghost lp = line_pieces(text@);
    proof {
        lemma_pieces_nonempty(text@, false);
    }
    let last = pcs.len() - 1;
    if pcs[last].len() == 0 {
        pcs.pop();
    }
    let ghost lines = text_lines(text@);
    let ghost rows_spec = text_rows(text@);
    proof {
        assert(pcs.len() == lines.len());
        assert(forall|j: int| 0 <= j < pcs.len() ==> (#[trigger] pcs[j])@ == lines[j]);
    }
    let mut rows: Vec<Vec<Vec<u8>>> = Vec::new();
    let mut r: usize = 0;
    while r < pcs.len()
        invariant
            r <= pcs.len(),
            pcs.len() == lines.len(),
            rows_spec == text_rows(text@),
            lines == text_lines(text@),
            forall|j: int| 0 <= j < pcs.len() ==> (#[trigger] pcs[j])@ == lines[j],
            rows.len() == r,
            forall|j: int| 0 <= j < r ==> (#[trigger] rows[j]).len() == rows_spec[j].len(),
            forall|j: int, c: int|
                0 <= j < r && 0 <= c < rows[j].len() ==> (#[trigger] rows[j][c])@ == rows_spec[j][c],
        decreases pcs.len() - r,
    {
        let vals = split_values(&pcs[r]);
        rows.push(vals);
        r = r + 1;
    }
    rows
}

/// Reads a table from its text: see `table_result_ok`.
pub fn parse_table(text: &Vec<u8>) -> (res: Result<Vec<Vec<Vec<u8>>>, TableError>)
    ensures
        table_result_ok(text@, res),
{
    let rows = table_rows(text);
    let ghost rows_spec = text_rows(text@);
    if rows.len() == 0 {
        return Err(TableError::NoValues);
    }
    let width = rows[0].len();
    let mut r: usize = 0;
    while r < rows.len()
        invariant
            r <= rows.len(),
            rows.len() == rows_spec.len(),
            rows_spec == text_rows(text@),
            rows.len() > 0,
            width == rows[0].len(),
            forall|j: int| 0 <= j < rows.len() ==> (#[trigger] rows[j]).len() == rows_spec[j].len(),
            forall|j: int| 0 <= j < r ==> (#[trigger] rows_spec[j]).len() == rows_spec[0].len(),
        decreases rows.len() - r,
    {
        if rows[r].len() != width {
            proof {
                assert(rows_spec[r as int].len() != rows_spec[0].len());
                assert(rows_spec == text_rows(text@));
            }
            return Err(TableError::Inconsistent(r + 1));
        }
        r = r + 1;
    }
    let mut cols: Vec<Vec<Vec<u8>>> = Vec::new();
    let mut c: usize = 0;
    while c < width
        invariant
            c <= width,
            rows_spec == text_rows(text@),
            rows.len() == rows_spec.len(),
            rows.len() > 0,
            width == rows_spec[0].len(),
            forall|j: int| 0 <= j < rows.len() ==> (#[trigger] rows[j]).len() == rows_spec[j].len(),
            forall|j: int| 0 <= j < rows.len() ==> (#[trigger] rows_spec[j]).len() == rows_spec[0].len(),
            forall|j: int, k: int|
                0 <= j < rows.len() && 0 <= k < rows[j].len() ==> (#[trigger] rows[j][k])@
                    == rows_spec[j][k],
            cols.len() == c,
            forall|k: int| 0 <= k < c ==> (#[trigger] cols[k]).len() == rows.len(),
            forall|k: int, j: int|
                0 <= k < c && 0 <= j < rows.len() ==> (#[trigger] cols[k][j])@ == rows_spec[j][k],
        decreases width - c,
    {
        let mut col: Vec<Vec<u8>> = Vec::new();
        let mut j: usize = 0;
        while j < rows.len()
            invariant
                j <= rows.len(),
                c < width,
                width == rows_spec[0].len(),
                rows.len() == rows_spec.len(),
                forall|q: int| 0 <= q < rows.len() ==> (#[trigger] rows[q]).len() == rows_spec[q].len(),
                forall|q: int| 0 <= q < rows.len() ==> (#[trigger] rows_spec[q]).len() == rows_spec[0].len(),
                forall|q: int, k: int|
                    0 <= q < rows.len() && 0 <= k < rows[q].len() ==> (#[trigger] rows[q][k])@
                        == rows_spec[q][k],
                col.len() == j,
                forall|q: int| 0 <= q < j ==> (#[trigger] col[q])@ == rows_spec[q][c as int],
            decreases rows.len() - j,
        {
            let v = copy_bytes(&rows[j][c]);
            col.push(v);
            j = j + 1;
        }
        cols.push(col);
        c = c + 1;
    }
    Ok(cols)
}

/// The values of a row as a line: joined by tabs.
pub open spec fn join_tabs(row: Seq<Seq<u8>>) -> Seq<u8>
    decreases row.len(),
{
    if row.len() == 0 {
        Seq::empty()
    } else if row.len() == 1 {
        row[0]
    } else {
        join_tabs(row.drop_last()) + seq![9u8] + row.last()
    }
}

/// The text of a table given by rows: each row on a line of its own, every
/// line ended by a line feed.
pub open spec fn table_text(rows: Seq<Seq<Seq<u8>>>) -> Seq<u8>
    decreases rows.len(),
{
    if rows.len() == 0 {
        Seq::empty()
    } else {
        table_text(rows.drop_last()) + join_tabs(rows.last()) + seq![10u8]
    }
}

/// The byte strings of a row.
pub open spec fn row_view(row: Seq<Vec<u8>>) -> Seq<Seq<u8>> {
    row.map_values(|v: Vec<u8>| v@)
}

/// The byte strings of a table given by rows.
pub open spec fn rows_view(rows: Seq<Vec<Vec<u8>>>) -> Seq<Seq<Seq<u8>>> {
    rows.map_values(|r: Vec<Vec<u8>>| row_view(r@))
}

/// Writes a table given by rows as text: each row on a line, its values
/// separated by tabs, every line ended by a line feed.
pub fn format_table(rows: &Vec<Vec<Vec<u8>>>) -> (text: Vec<u8>)
    ensures
        text@ == table_text(rows_view(rows@)),
{
    let ghost all = rows_view(rows@);
    let mut text: Vec<u8> = Vec::new();
    let mut i: usize = 0;
    proof {
        assert(all.subrange(0, 0) =~= Seq::<Seq<Seq<u8>>>::empty());
    }
    while i < rows.len()
        invariant
            i <= rows.len(),
            all == rows_view(rows@),
            text@ == table_text(all.subrange(0, i as int)),
        decreases rows.len() - i,
    {
        let row = &rows[i];
        let ghost rv = row_view(row@);
        let ghost start = text@;
        let mut j: usize = 0;
        proof {
            assert(rv.subrange(0, 0) =~= Seq::<Seq<u8>>::empty());
            assert(start + join_tabs(rv.subrange(0, 0)) =~= start);
        }
        while j < row.len()
            invariant
                j <= row.len(),
                rv == row_view(row@),
                text@ == start + join_tabs(rv.subrange(0, j as int)),
            decreases row.len() - j,
        {
            let ghost before = text@;
            if j > 0 {
                text.push(9u8);
            }
            let v = &row[j];
            let mut k: usize = 0;
            let ghost mid = text@;
            while k < v.len()
                invariant
                    k <= v.len(),
                    text@ == mid + v@.subrange(0, k as int),
                decreases v.len() - k,
            {
                text.push(v[k]);
                k = k + 1;
                proof {
                    assert(v@.subrange(0, k as int) =~= v@.subrange(0, k - 1).push(v[k - 1]));
                }
            }
            proof {
                assert(v@.subrange(0, k as int) =~= v@);
                let sub = rv.subrange(0, j + 1);
                assert(sub.drop_last() =~= rv.subrange(0, j as int));
                assert(sub.last() == v@);
                if j == 0 {
                    assert(join_tabs(sub) == sub[0]);
                    assert(text@ =~= start + join_tabs(sub));
                } else {
                    assert(text@ =~= start + join_tabs(sub));
                }
            }
            j = j + 1;
        }
        text.push(10u8);
        proof {
            assert(rv.subrange(0, j as int) =~= rv);
            let sub = all.subrange(0, i + 1);
            assert(sub.drop_last() =~= all.subrange(0, i as int));
            assert(sub.last() == rv);
            assert(text@ =~= table_text(sub));
        }
        i = i + 1;
    }
    proof {
        assert(all.subrange(0, i as int) =~= all);
    }
    text
}

/// A value that survives being written and read back: not empty and free of
/// blanks.
pub open spec fn is_plain_value(v: Seq<u8>) -> bool {
    v.len() > 0 && forall|i: int| 0 <= i < v.len() ==> !is_blank(#[trigger] v[i])
}

proof fn lemma_pieces_extend(s: Seq<u8>, t: Seq<u8>, blanks: bool)
    requires
        forall|i: int| 0 <= i < t.len() ==> !is_separator(#[trigger] t[i], blanks),
    ensures
        pieces(s + t, blanks) == pieces(s, blanks).update(
            pieces(s, blanks).len() - 1,
            pieces(s, blanks).last() + t,
        ),
        pieces(s + t, blanks).len() == pieces(s, blanks).len(),
    decreases t.len(),
{
    lemma_pieces_nonempty(s, blanks);
    if t.len() == 0 {
        assert(s + t =~= s);
        assert(pieces(s, blanks).last() + t =~= pieces(s, blanks).last());
        assert(pieces(s, blanks).update(pieces(s, blanks).len() - 1, pieces(s, blanks).last())
            =~= pieces(s, blanks));
    } else {
        let t1 = t.drop_last();
        lemma_pieces_extend(s, t1, blanks);
        assert((s + t).drop_last() =~= s + t1);
        assert((s + t).last() == t.last());
        assert(!is_separator(t[t.len() - 1], blanks));
        let base = pieces(s, blanks);
        let p1 = pieces(s + t1, blanks);
        assert(p1 == base.update(base.len() - 1, base.last() + t1));
        assert(p1.last() == base.last() + t1);
        assert(pieces(s + t, blanks) == p1.update(p1.len() - 1, p1.last().push(t.last())));
        assert(base.last() + t1 + seq![t.last()] =~= base.last() + t);
        assert(p1.last().push(t.last()) =~= base.last() + t);
        assert(pieces(s + t, blanks) =~= base.update(base.len() - 1, base.last() + t));
    }
}

/// A row of plain values, joined by tabs, splits back into the same values.
proof fn lemma_blank_pieces_join(row: Seq<Seq<u8>>)
    requires
        row.len() > 0,
        forall|c: int| 0 <= c < row.len() ==> is_plain_value(#[trigger] row[c]),
    ensures
        blank_pieces(join_tabs(row)) == row,
    decreases row.len(),
{
    let v = row.last();
    assert(is_plain_value(row[row.len() - 1]));
    if row.len() == 1 {
        lemma_pieces_extend(Seq::empty(), v, true);
        assert(Seq::<u8>::empty() + v =~= v);
        assert(blank_pieces(Seq::<u8>::empty()) =~= seq![Seq::<u8>::empty()]);
        assert(row =~= seq![v]);
    } else {
        let r1 = row.drop_last();
        assert forall|c: int| 0 <= c < r1.len() implies is_plain_value(#[trigger] r1[c]) by {
            assert(r1[c] == row[c]);
        }
        lemma_blank_pieces_join(r1);
        let j1 = join_tabs(r1);
        let s = j1 + seq![9u8];
        assert(s.drop_last() =~= j1);
        assert(blank_pieces(s) == blank_pieces(j1).push(Seq::empty()));
        lemma_pieces_extend(s, v, true);
        assert(join_tabs(row) == s + v);
        assert(Seq::<u8>::empty() + v =~= v);
        assert(blank_pieces(join_tabs(row)) =~= row);
    }
}

/// Pieces that are all non-empty are kept as they are.
proof fn lemma_nonempty_all(pcs: Seq<Seq<u8>>)
    requires
        forall|c: int| 0 <= c < pcs.len() ==> (#[trigger] pcs[c]).len() > 0,
    ensures
        nonempty(pcs) == pcs,
    decreases pcs.len(),
{
    if pcs.len() > 0 {
        let p1 = pcs.drop_last();
        assert forall|c: int| 0 <= c < p1.len() implies (#[trigger] p1[c]).len() > 0 by {
            assert(p1[c] == pcs[c]);
        }
        lemma_nonempty_all(p1);
        assert(pcs[pcs.len() - 1].len() > 0);
        assert(p1.push(pcs.last()) =~= pcs);
    }
}

/// The values of the line written for a row of plain values are that row.
proof fn lemma_line_values_join(row: Seq<Seq<u8>>)
    requires
        forall|c: int| 0 <= c < row.len() ==> is_plain_value(#[trigger] row[c]),
    ensures
        line_values(join_tabs(row)) == row,
{
    if row.len() == 0 {
        assert(blank_pieces(Seq::<u8>::empty()) =~= seq![Seq::<u8>::empty()]);
        let pcs = seq![Seq::<u8>::empty()];
        assert(pcs.drop_last() =~= Seq::<Seq<u8>>::empty());
        assert(pcs.last().len() == 0);
        assert(nonempty(pcs) == nonempty(pcs.drop_last()));
        assert(nonempty(Seq::<Seq<u8>>::empty()) == Seq::<Seq<u8>>::empty());
        assert(nonempty(pcs) =~= row);
    } else {
        lemma_blank_pieces_join(row);
        assert forall|c: int| 0 <= c < row.len() implies (#[trigger] row[c]).len() > 0 by {
            assert(is_plain_value(row[c]));
        }
        lemma_nonempty_all(row);
    }
}

proof fn lemma_join_no_newline(row: Seq<Seq<u8>>)
    requires
        forall|c: int| 0 <= c < row.len() ==> is_plain_value(#[trigger] row[c]),
    ensures
        forall|i: int| 0 <= i < join_tabs(row).len() ==> !is_newline(#[trigger] join_tabs(row)[i]),
    decreases row.len(),
{
    if row.len() == 1 {
        assert(is_plain_value(row[0]));
    } else if row.len() > 1 {
        let r1 = row.drop_last();
        assert forall|c: int| 0 <= c < r1.len() implies is_plain_value(#[trigger] r1[c]) by {
            assert(r1[c] == row[c]);
        }
        lemma_join_no_newline(r1);
        let v = row.last();
        assert(is_plain_value(row[row.len() - 1]));
        let j = join_tabs(row);
        let j1 = join_tabs(r1);
        assert forall|i: int| 0 <= i < j.len() implies !is_newline(#[trigger] j[i]) by {
            if i < j1.len() {
                assert(j[i] == j1[i]);
            } else if i == j1.len() {
                assert(j[i] == 9u8);
            } else {
                assert(j[i] == v[i - j1.len() - 1]);
            }
        }
    }
}

/// The line pieces of the text of a table: the joined rows, then the empty
/// piece after the last line feed.
proof fn lemma_line_pieces_text(rows: Seq<Seq<Seq<u8>>>)
    requires
        forall|r: int, c: int|
            0 <= r < rows.len() && 0 <= c < rows[r].len() ==> is_plain_value(#[trigger] rows[r][c]),
    ensures
        line_pieces(table_text(rows)) == rows.map_values(|row: Seq<Seq<u8>>| join_tabs(row)).push(
            Seq::empty(),
        ),
    decreases rows.len(),
{
    if rows.len() == 0 {
        assert(line_pieces(table_text(rows)) =~= seq![Seq::<u8>::empty()]);
        assert(rows.map_values(|row: Seq<Seq<u8>>| join_tabs(row)).push(Seq::empty())
            =~= seq![Seq::<u8>::empty()]);
    } else {
        let r1 = rows.drop_last();
        assert forall|r: int, c: int| 0 <= r < r1.len() && 0 <= c < r1[r].len() implies is_plain_value(
            #[trigger] r1[r][c],
        ) by {
            assert(r1[r] == rows[r]);
        }
        lemma_line_pieces_text(r1);
        let last = rows.last();
        assert forall|c: int| 0 <= c < last.len() implies is_plain_value(#[trigger] last[c]) by {
            assert(rows[rows.len() - 1][c] == last[c]);
        }
        lemma_join_no_newline(last);
        let t1 = table_text(r1);
        let j = join_tabs(last);
        lemma_pieces_extend(t1, j, false);
        lemma_pieces_nonempty(t1, false);
        let s = t1 + j;
        assert(table_text(rows) == s + seq![10u8]);
        assert((s + seq![10u8]).drop_last() =~= s);
        assert(Seq::<u8>::empty() + j =~= j);
        assert(line_pieces(table_text(rows)) =~= rows.map_values(
            |row: Seq<Seq<u8>>| join_tabs(row),
        ).push(Seq::empty()));
    }
}

/// Reading back what was written: the rows of the text of a table of plain
/// values are the rows of the table.
pub proof fn lemma_rows_of_written_table(rows: Seq<Seq<Seq<u8>>>)
    requires
        forall|r: int, c: int|
            0 <= r < rows.len() && 0 <= c < rows[r].len() ==> is_plain_value(#[trigger] rows[r][c]),
    ensures
        text_rows(table_text(rows)) == rows,
{
    lemma_line_pieces_text(rows);
    let joined = rows.map_values(|row: Seq<Seq<u8>>| join_tabs(row));
    assert(text_lines(table_text(rows)) =~= joined);
    assert forall|r: int| 0 <= r < rows.len() implies #[trigger] line_values(joined[r]) == rows[r] by {
        assert forall|c: int| 0 <= c < rows[r].len() implies is_plain_value(#[trigger] rows[r][c]) by {}
        lemma_line_values_join(rows[r]);
    }
    assert(text_rows(table_text(rows)) =~= rows);
}

/// A table written by `format_table` and read by `parse_table` comes back by
/// columns: when there is at least one row, all rows have the same number of
/// values and every value is plain, reading the written text succeeds and
/// column `c` holds value `c` of every row.
pub proof fn lemma_read_after_write(rows: Seq<Seq<Seq<u8>>>, res: Result<Vec<Vec<Vec<u8>>>, TableError>)
    requires
        rows.len() > 0,
        forall|r: int| 0 <= r < rows.len() ==> (#[trigger] rows[r]).len() == rows[0].len(),
        forall|r: int, c: int|
            0 <= r < rows.len() && 0 <= c < rows[r].len() ==> is_plain_value(#[trigger] rows[r][c]),
        table_result_ok(table_text(rows), res),
    ensures
        res is Ok,
        res->Ok_0.len() == rows[0].len(),
        forall|c: int| 0 <= c < rows[0].len() ==> (#[trigger] res->Ok_0[c]).len() == rows.len(),
        forall|c: int, r: int|
            0 <= c < rows[0].len() && 0 <= r < rows.len() ==> (#[trigger] res->Ok_0[c][r])@ == rows[r][c],
{
    lemma_rows_of_written_table(rows);
    match res {
        Ok(cols) => {},
        Err(TableError::NoValues) => {},
        Err(TableError::Inconsistent(line)) => {
            assert(rows[line - 1].len() == rows[0].len());
        },
    }
}

/// The bytes that separate values: space, tab, line feed, form feed and
/// carriage return, by their values.
pub open spec fn is_ascii_whitespace_byte(b: u8) -> bool {
    b == 32u8 || b == 9u8 || b == 10u8 || b == 12u8 || b == 13u8
}

/// A separator between two texts splits them into the pieces of each.
proof fn lemma_pieces_concat(s: Seq<u8>, b: u8, t: Seq<u8>, blanks: bool)
    requires
        is_separator(b, blanks),
    ensures
        pieces(s.push(b) + t, blanks) == pieces(s, blanks) + pieces(t, blanks),
    decreases t.len(),
{
    lemma_pieces_nonempty(s, blanks);
    if t.len() == 0 {
        assert(s.push(b) + t =~= s.push(b));
        assert(s.push(b).drop_last() =~= s);
        assert(pieces(s, blanks) + seq![Seq::<u8>::empty()] =~= pieces(s, blanks).push(Seq::empty()));
    } else {
        let t1 = t.drop_last();
        lemma_pieces_concat(s, b, t1, blanks);
        lemma_pieces_nonempty(t1, blanks);
        let x = s.push(b) + t;
        assert(x.drop_last() =~= s.push(b) + t1);
        assert(x.last() == t.last());
        let a = pieces(s, blanks);
        let p1 = pieces(t1, blanks);
        if is_separator(t.last(), blanks) {
            assert(a + p1.push(Seq::empty()) =~= (a + p1).push(Seq::empty()));
        } else {
            assert((a + p1).update((a + p1).len() - 1, (a + p1).last().push(t.last())) =~= a + p1.update(
                p1.len() - 1,
                p1.last().push(t.last()),
            ));
        }
    }
}

/// Dropping empty pieces commutes with joining sequences of pieces.
pub proof fn lemma_nonempty_concat(a: Seq<Seq<u8>>, b: Seq<Seq<u8>>)
    ensures
        nonempty(a + b) == nonempty(a) + nonempty(b),
    decreases b.len(),
{
    if b.len() == 0 {
        assert(a + b =~= a);
        assert(nonempty(a) + nonempty(b) =~= nonempty(a));
    } else {
        let b1 = b.drop_last();
        lemma_nonempty_concat(a, b1);
        assert((a + b).drop_last() =~= a + b1);
        assert((a + b).last() == b.last());
        if b.last().len() > 0 {
            assert(nonempty(a) + nonempty(b1).push(b.last()) =~= (nonempty(a) + nonempty(b1)).push(
                b.last(),
            ));
        }
    }
}

/// Any of the bytes 32, 9, 10, 12 and 13 between two parts of a line
/// separates their values: the values of the whole are those of the first
/// part followed by those of the second.
pub proof fn lemma_values_split_at_whitespace(s: Seq<u8>, b: u8, t: Seq<u8>)
    requires
        b == 32u8 || b == 9u8 || b == 10u8 || b == 12u8 || b == 13u8,
    ensures
        line_values(s.push(b) + t) == line_values(s) + line_values(t),
{
    lemma_pieces_concat(s, b, t, true);
    lemma_nonempty_concat(pieces(s, true), pieces(t, true));
}

/// A non-empty run of bytes none of which is 32, 9, 10, 12 or 13 is one
/// value.
pub proof fn lemma_single_value(v: Seq<u8>)
    requires
        v.len() > 0,
        forall|i: int| 0 <= i < v.len() ==> !is_ascii_whitespace_byte(#[trigger] v[i]),
    ensures
        line_values(v) == seq![v],
{
    assert forall|i: int| 0 <= i < v.len() implies !is_separator(#[trigger] v[i], true) by {}
    lemma_pieces_extend(Seq::empty(), v, true);
    assert(Seq::<u8>::empty() + v =~= v);
    assert(pieces(Seq::<u8>::empty(), true) =~= seq![Seq::<u8>::empty()]);
    let p = seq![v];
    assert(pieces(v, true) =~= p);
    assert(p.drop_last() =~= Seq::<Seq<u8>>::empty());
    assert(p.last() == v);
    assert(nonempty(p.drop_last()) == Seq::<Seq<u8>>::empty());
    assert(nonempty(p) == nonempty(p.drop_last()).push(v));
    assert(Seq::<Seq<u8>>::empty().push(v) =~= seq![v]);
}

/// A table written by `format_table` and read by `parse_table` comes back by
/// columns, for every table with at least one row, rows of equal length, and
/// non-empty values that contain none of the bytes 32, 9, 10, 12 and 13.
pub proof fn lemma_round_trip_by_bytes(rows: Seq<Seq<Seq<u8>>>, res: Result<Vec<Vec<Vec<u8>>>, TableError>)
    requires
        rows.len() > 0,
        forall|r: int| 0 <= r < rows.len() ==> (#[trigger] rows[r]).len() == rows[0].len(),
        forall|r: int, c: int| 0 <= r < rows.len() && 0 <= c < rows[r].len() ==> (#[trigger] rows[r][c]).len() > 0,
        forall|r: int, c: int, i: int|
            0 <= r < rows.len() && 0 <= c < rows[r].len() && 0 <= i < rows[r][c].len()
                ==> !is_ascii_whitespace_byte(#[trigger] rows[r][c][i]),
        table_result_ok(table_text(rows), res),
    ensures
        res is Ok,
        res->Ok_0.len() == rows[0].len(),
        forall|c: int| 0 <= c < rows[0].len() ==> (#[trigger] res->Ok_0[c]).len() == rows.len(),
        forall|c: int, r: int|
            0 <= c < rows[0].len() && 0 <= r < rows.len() ==> (#[trigger] res->Ok_0[c][r])@ == rows[r][c],
{
    assert forall|r: int, c: int| 0 <= r < rows.len() && 0 <= c < rows[r].len() implies is_plain_value(
        #[trigger] rows[r][c],
    ) by {
        assert forall|i: int| 0 <= i < rows[r][c].len() implies !is_blank(#[trigger] rows[r][c][i]) by {
            assert(!is_ascii_whitespace_byte(rows[r][c][i]));
        }
    }
    lemma_read_after_write(rows, res);
}

/// The values of a row are joined by single tab bytes (9): no value gives
/// no bytes, one value gives its bytes, and one more value adds a tab and
/// its bytes.
pub proof fn lemma_join_tabs(row: Seq<Seq<u8>>, v: Seq<u8>)
    ensures
        join_tabs(Seq::<Seq<u8>>::empty()) == Seq::<u8>::empty(),
        join_tabs(seq![v]) == v,
        row.len() > 0 ==> join_tabs(row.push(v)) == join_tabs(row) + seq![9u8] + v,
{
    assert(row.push(v).drop_last() =~= row);
    assert(seq![v].len() == 1);
}

/// The text of a table has one line per row, in order: one more row adds
/// its joined values and a line feed byte (10).
pub proof fn lemma_table_text(rows: Seq<Seq<Seq<u8>>>, row: Seq<Seq<u8>>)
    ensures
        table_text(Seq::<Seq<Seq<u8>>>::empty()) == Seq::<u8>::empty(),
        table_text(rows.push(row)) == table_text(rows) + join_tabs(row) + seq![10u8],
{
    assert(rows.push(row).drop_last() =~= rows);
}

} // verus!
