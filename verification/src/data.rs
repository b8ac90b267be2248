//! Tables of comma-separated values: series in, forecasts out.

use vstd::arithmetic::div_mod::lemma_fundamental_div_mod_converse;
use vstd::prelude::*;
use vstd::string::*;

use crate::decimal::{digits, push_count};
use crate::error::TimesfmError;
use crate::ieee::scalar::{Double, Single};
use crate::rows::rows_view;
use crate::text::{chars_of, is_empty_text, text_of, texts, trim, trimmed};

verus! {

/// The parts of a text between the commas.
pub open spec fn parts(s: Seq<char>) -> Seq<Seq<char>>
    decreases s.len(),
{
    if s.len() == 0 {
        seq![seq![]]
    } else if s.last() == ',' {
        parts(s.drop_last()).push(seq![])
    } else {
        let before = parts(s.drop_last());
        before.drop_last().push(before.last().push(s.last()))
    }
}

/// The cells of a line, without white space around them.
pub open spec fn cells(line: Seq<char>) -> Seq<Seq<char>> {
    parts(trimmed(line)).map_values(|c: Seq<char>| trimmed(c))
}

/// The cells of a line; none where it is blank.
pub fn split_line(line: &str) -> (r: Option<Vec<String>>)
    ensures
        match r {
            Some(v) => trimmed(line@).len() > 0 && texts(v@) == cells(line@),
            None => trimmed(line@).len() == 0,
        },
{
    let t = trim(line);
    if is_empty_text(&t) {
        return None;
    }
    let chars = chars_of(&t);
    let ghost whole = chars@;
    let mut done: Vec<String> = Vec::new();
    let mut from: usize = 0;
    let mut i: usize = 0;
    assert(whole.take(0) =~= seq![]);
    assert(whole.subrange(0, 0) =~= seq![]);
    assert(parts(whole.take(0)) =~= seq![whole.subrange(0, 0)]);
    assert(texts(done@) =~= seq![]);
    let ghost mut closed: Seq<Seq<char>> = seq![];
    while i < chars.len()
        invariant
            from <= i <= chars@.len(),
            chars@ == whole,
            closed.len() == done@.len(),
            forall|k: int|
                0 <= k < closed.len() ==> (#[trigger] done@[k])@ == trimmed(closed[k]),
            parts(whole.take(i as int)) =~= closed.push(whole.subrange(from as int, i as int)),
        decreases chars@.len() - i,
    {
        proof {
            assert(whole.take(i + 1).drop_last() =~= whole.take(i as int));
            assert(whole.take(i + 1).last() == whole[i as int]);
            let p = closed.push(whole.subrange(from as int, i as int));
            assert(p.drop_last() =~= closed);
            assert(p.last() == whole.subrange(from as int, i as int));
        }
        if chars[i] == ',' {
            let cell = text_of(&chars, from, i);
            proof {
                closed = closed.push(whole.subrange(from as int, i as int));
                assert(whole.subrange(i + 1, i + 1) =~= seq![]);
            }
            done.push(trim(&cell));
            from = i + 1;
        } else {
            assert(whole.subrange(from as int, i + 1) =~= whole.subrange(
                from as int,
                i as int,
            ).push(whole[i as int]));
        }
        i = i + 1;
    }
    let cell = text_of(&chars, from, i);
    assert(whole.take(i as int) =~= whole);
    done.push(trim(&cell));
    assert(texts(done@) =~= cells(line@));
    Some(done)
}

/// A cell that holds no number stands for a missing point.
pub open spec fn point(cell: Option<Single>) -> Single {
    match cell {
        Some(x) => x,
        None => Single { bits: 0x7fc0_0000 },
    }
}

/// Whether some cell of a row holds no number.
pub open spec fn is_header(row: Seq<Option<Single>>) -> bool {
    exists|i: int| 0 <= i < row.len() && (#[trigger] row[i]) is None
}

/// The rows below the header, where the first row is one.
pub open spec fn body(rows: Seq<Seq<Option<Single>>>) -> Seq<Seq<Option<Single>>> {
    if rows.len() > 0 && is_header(rows[0]) {
        rows.skip(1)
    } else {
        rows
    }
}

/// A column of a table: a row that is too short for it adds nothing.
pub open spec fn column(rows: Seq<Seq<Option<Single>>>, j: int) -> Seq<Single>
    decreases rows.len(),
{
    if rows.len() == 0 {
        seq![]
    } else if j < rows.last().len() {
        column(rows.drop_last(), j).push(point(rows.last()[j]))
    } else {
        column(rows.drop_last(), j)
    }
}

/// What a table of cells holds.
pub open spec fn cell_rows(rows: Seq<Vec<Option<Single>>>) -> Seq<Seq<Option<Single>>> {
    rows.map_values(|row: Vec<Option<Single>>| row@)
}

/// The columns of a table, one for each cell of its first row.
pub open spec fn columns(rows: Seq<Seq<Option<Single>>>) -> Seq<Seq<Single>> {
    Seq::new(rows[0].len(), |j: int| column(body(rows), j))
}

fn has_text(row: &Vec<Option<Single>>) -> (r: bool)
    ensures
        r == is_header(row@),
{
    let mut i: usize = 0;
    while i < row.len()
        invariant
            i <= row@.len(),
            forall|k: int| 0 <= k < i ==> !((#[trigger] row@[k]) is None),
        decreases row@.len() - i,
    {
        if row[i].is_none() {
            assert(row@[i as int] is None);
            return true;
        }
        i = i + 1;
    }
    false
}

/// Puts the cells of a table's rows into columns. `rows` has, for each line that is not blank, the
/// number in each of its cells, where there is one.
pub fn table_columns(rows: &Vec<Vec<Option<Single>>>) -> (r: Result<Vec<Vec<Single>>, TimesfmError>)
    ensures
        if rows@.len() == 0 || rows@[0]@.len() == 0 {
            r matches Err(TimesfmError::Inference(m)) && m@ == "CSV file was empty"@
        } else {
            r matches Ok(c) && rows_view(c@) == columns(cell_rows(rows@))
        },
{
    if rows.len() == 0 || rows[0].len() == 0 {
        return Err(TimesfmError::Inference("CSV file was empty".to_owned()));
    }
    let ghost views = cell_rows(rows@);
    assert(views[0] == rows@[0]@);
    let width = rows[0].len();
    let first: usize = if has_text(&rows[0]) {
        1
    } else {
        0
    };
    let ghost below = body(views);
    assert(below =~= views.skip(first as int));
    let mut r: Vec<Vec<Single>> = Vec::new();
    let mut j: usize = 0;
    while j < width
        invariant
            j <= width,
            views == cell_rows(rows@),
            first <= rows@.len(),
            below == views.skip(first as int),
            r@.len() == j,
            forall|k: int| 0 <= k < j ==> (#[trigger] r@[k])@ == column(below, k),
        decreases width - j,
    {
        let mut c: Vec<Single> = Vec::new();
        let mut i = first;
        assert(below.take(0) =~= seq![]);
        while i < rows.len()
            invariant
                first <= i <= rows@.len(),
                views == cell_rows(rows@),
                below == views.skip(first as int),
                c@ == column(below.take(i - first), j as int),
            decreases rows@.len() - i,
        {
            assert(below.take(i - first + 1).drop_last() =~= below.take(i - first));
            assert(below.take(i - first + 1).last() == rows@[i as int]@);
            if j < rows[i].len() {
                c.push(
                    match rows[i][j] {
                        Some(x) => x,
                        None => Single::from_bits(0x7fc0_0000),
                    },
                );
            }
            i = i + 1;
        }
        assert(below.take(i - first) =~= below);
        r.push(c);
        j = j + 1;
    }
    assert(rows_view(r@) =~= columns(views));
    Ok(r)
}

/// The heads of the quantile columns of a series, for the first `n` levels.
pub open spec fn level_heads(v: int, levels: Seq<Double>, n: int) -> Seq<char>
    decreases n,
{
    if n <= 0 {
        seq![]
    } else {
        level_heads(v, levels, n - 1) + ",series_"@ + digits(v as nat) + "_q"@ + levels[n
            - 1].fixed(2)
    }
}

/// The head line for the first `n` series.
pub open spec fn head_line(n: int, levels: Option<Seq<Double>>) -> Seq<char>
    decreases n,
{
    if n <= 0 {
        "step"@
    } else {
        let start = head_line(n - 1, levels) + ",series_"@ + digits((n - 1) as nat) + "_forecast"@;
        match levels {
            Some(l) => start + level_heads(n - 1, l, l.len() as int),
            None => start,
        }
    }
}

/// The first `n` numbers of a row, each behind a comma, with six places.
pub open spec fn numbers_line(row: Seq<Single>, n: int) -> Seq<char>
    decreases n,
{
    if n <= 0 {
        seq![]
    } else {
        numbers_line(row, n - 1) + ","@ + row[n - 1].fixed(6)
    }
}

/// The line of step `h` for the first `n` series.
pub open spec fn step_line(
    forecast: Seq<Vec<Single>>,
    quantiles: Option<Vec<Vec<Vec<Single>>>>,
    levels: int,
    h: int,
    n: int,
) -> Seq<char>
    decreases n,
{
    if n <= 0 {
        digits((h + 1) as nat)
    } else {
        let start = step_line(forecast, quantiles, levels, h, n - 1) + ","@ + forecast[n
            - 1]@[h].fixed(6);
        match quantiles {
            Some(q) => start + numbers_line(q@[n - 1]@[h]@, levels),
            None => start,
        }
    }
}

/// The numbers that the lines are made of are all there.
pub open spec fn is_complete(
    forecast: Seq<Vec<Single>>,
    quantiles: Option<Vec<Vec<Vec<Single>>>>,
    levels: int,
) -> bool {
    let horizon = forecast[0]@.len();
    &&& forall|v: int| 0 <= v < forecast.len() ==> (#[trigger] forecast[v])@.len() >= horizon
    &&& (quantiles matches Some(q) ==> q@.len() >= forecast.len() && forall|v: int|
        0 <= v < forecast.len() ==> (#[trigger] q@[v])@.len() >= horizon && forall|h: int|
            0 <= h < horizon ==> (#[trigger] q@[v]@[h])@.len() >= levels)
}

fn push_level_heads(out: &mut String, v: usize, levels: &Vec<Double>)
    ensures
        final(out)@ == old(out)@ + level_heads(v as int, levels@, levels@.len() as int),
{
    let ghost start = out@;
    let mut i: usize = 0;
    assert(out@ =~= start + level_heads(v as int, levels@, 0));
    while i < levels.len()
        invariant
            i <= levels@.len(),
            out@ == start + level_heads(v as int, levels@, i as int),
        decreases levels@.len() - i,
    {
        out.append(",series_");
        push_count(out, v);
        out.append("_q");
        levels[i].push_fixed(out, 2);
        i = i + 1;
        assert(out@ =~= start + level_heads(v as int, levels@, i as int));
    }
}

fn push_numbers(out: &mut String, row: &Vec<Single>, n: usize)
    requires
        n <= row@.len(),
    ensures
        final(out)@ == old(out)@ + numbers_line(row@, n as int),
{
    let ghost start = out@;
    let mut i: usize = 0;
    assert(out@ =~= start + numbers_line(row@, 0));
    while i < n
        invariant
            i <= n <= row@.len(),
            out@ == start + numbers_line(row@, i as int),
        decreases n - i,
    {
        out.append(",");
        row[i].push_fixed(out, 6);
        i = i + 1;
        assert(out@ =~= start + numbers_line(row@, i as int));
    }
}

pub open spec fn shown_levels(quantiles: Option<Vec<Vec<Vec<Single>>>>, levels: Seq<Double>) -> Option<
    Seq<Double>,
> {
    match quantiles {
        Some(_) => Some(levels),
        None => None,
    }
}

/// The lines of a table that shows a forecast: a head line, then one line for each step. A forecast
/// of no series has no lines.
pub fn forecast_lines(
    forecast: &Vec<Vec<Single>>,
    quantiles: &Option<Vec<Vec<Vec<Single>>>>,
    quantile_levels: &Vec<Double>,
) -> (r: Vec<String>)
    requires
        forecast@.len() > 0 ==> is_complete(
            forecast@,
            *quantiles,
            quantile_levels@.len() as int,
        ),
    ensures
        forecast@.len() == 0 ==> r@.len() == 0,
        forecast@.len() > 0 ==> r@.len() == forecast@[0]@.len() + 1 && r@[0]@ == head_line(
            forecast@.len() as int,
            shown_levels(*quantiles, quantile_levels@),
        ) && forall|h: int|
            0 <= h < forecast@[0]@.len() ==> (#[trigger] r@[h + 1])@ == step_line(
                forecast@,
                *quantiles,
                quantile_levels@.len() as int,
                h,
                forecast@.len() as int,
            ),
{
    let mut lines: Vec<String> = Vec::new();
    let n = forecast.len();
    if n == 0 {
        return lines;
    }
    let horizon = forecast[0].len();
    let count = quantile_levels.len();
    let ghost shown = shown_levels(*quantiles, quantile_levels@);
    let mut head = "step".to_owned();
    let mut v: usize = 0;
    while v < n
        invariant
            v <= n,
            shown == shown_levels(*quantiles, quantile_levels@),
            head@ == head_line(v as int, shown),
        decreases n - v,
    {
        head.append(",series_");
        push_count(&mut head, v);
        head.append("_forecast");
        if quantiles.is_some() {
            push_level_heads(&mut head, v, quantile_levels);
        }
        v = v + 1;
    }
    lines.push(head);
    let mut h: usize = 0;
    while h < horizon
        invariant
            h <= horizon,
            n == forecast@.len(),
            n > 0,
            horizon == forecast@[0]@.len(),
            count == quantile_levels@.len(),
            is_complete(forecast@, *quantiles, count as int),
            lines@.len() == h + 1,
            lines@[0]@ == head_line(n as int, shown),
            forall|k: int|
                0 <= k < h ==> (#[trigger] lines@[k + 1])@ == step_line(
                    forecast@,
                    *quantiles,
                    count as int,
                    k,
                    n as int,
                ),
        decreases horizon - h,
    {
        let mut line = String::new();
        push_count(&mut line, h + 1);
        assert(line@ =~= digits((h + 1) as nat));
        let mut s: usize = 0;
        while s < n
            invariant
                s <= n == forecast@.len(),
                h < horizon,
                horizon == forecast@[0]@.len(),
                count == quantile_levels@.len(),
                is_complete(forecast@, *quantiles, count as int),
                line@ == step_line(forecast@, *quantiles, count as int, h as int, s as int),
            decreases n - s,
        {
            assert(forecast@[s as int]@.len() >= horizon);
            line.append(",");
            forecast[s][h].push_fixed(&mut line, 6);
            if let Some(q) = quantiles {
                assert(q@[s as int]@.len() >= horizon);
                assert(q@[s as int]@[h as int]@.len() >= count);
                push_numbers(&mut line, &q[s][h], count);
            }
            s = s + 1;
        }
        lines.push(line);
        h = h + 1;
    }
    lines
}

/// All columns of a table without short rows have the same length: one point for each row below the
/// header.
pub proof fn law_full_rows_make_even_columns(rows: Seq<Seq<Option<Single>>>, j: int)
    requires
        rows.len() > 0,
        0 <= j < rows[0].len(),
        forall|i: int| 0 <= i < rows.len() ==> (#[trigger] rows[i]).len() >= rows[0].len(),
    ensures
        columns(rows)[j].len() == body(rows).len(),
{
    let b = body(rows);
    assert forall|i: int| 0 <= i < b.len() implies (#[trigger] b[i]).len() > j by {
        if is_header(rows[0]) {
            assert(b[i] == rows[i + 1]);
        }
    }
    lemma_column_length(b, j);
}

proof fn lemma_column_length(rows: Seq<Seq<Option<Single>>>, j: int)
    requires
        forall|i: int| 0 <= i < rows.len() ==> (#[trigger] rows[i]).len() > j,
    ensures
        column(rows, j).len() == rows.len(),
    decreases rows.len(),
{
    if rows.len() > 0 {
        let t = rows.drop_last();
        assert forall|i: int| 0 <= i < t.len() implies (#[trigger] t[i]).len() > j by {
            assert(t[i] == rows[i]);
        }
        lemma_column_length(t, j);
        assert(rows[rows.len() - 1].len() > j);
    }
}

/// Texts one after another, with a comma between each two.
pub open spec fn comma_joined(p: Seq<Seq<char>>) -> Seq<char>
    decreases p.len(),
{
    if p.len() == 0 {
        seq![]
    } else if p.len() == 1 {
        p[0]
    } else {
        comma_joined(p.drop_last()) + seq![','] + p.last()
    }
}

proof fn lemma_joined_push(p: Seq<Seq<char>>, x: Seq<char>)
    requires
        p.len() > 0,
    ensures
        comma_joined(p.push(x)) == comma_joined(p) + seq![','] + x,
{
    assert(p.push(x).drop_last() =~= p);
}

proof fn lemma_last_longer(p: Seq<Seq<char>>, c: char)
    requires
        p.len() > 0,
    ensures
        comma_joined(p.drop_last().push(p.last().push(c))) == comma_joined(p).push(c),
{
    let d = p.drop_last();
    let q = d.push(p.last().push(c));
    assert(q.drop_last() =~= d);
    if p.len() == 1 {
        assert(q[0] == p[0].push(c));
    } else {
        assert(comma_joined(q) =~= comma_joined(p).push(c));
    }
}

/// The parts of a text are what stands between its commas: joined by commas they are the text again,
/// and none of them holds a comma.
pub proof fn law_parts_join_to_the_text(s: Seq<char>)
    ensures
        comma_joined(parts(s)) == s,
        parts(s).len() >= 1,
        forall|i: int| 0 <= i < parts(s).len() ==> !(#[trigger] parts(s)[i]).contains(','),
    decreases s.len(),
{
    if s.len() == 0 {
        assert(parts(s)[0] == Seq::<char>::empty());
    } else {
        let t = s.drop_last();
        law_parts_join_to_the_text(t);
        let p = parts(t);
        let q = parts(s);
        if s.last() == ',' {
            lemma_joined_push(p, seq![]);
            assert(comma_joined(q) =~= s);
            assert forall|i: int| 0 <= i < q.len() implies !(#[trigger] q[i]).contains(',') by {
                if i < p.len() {
                    assert(q[i] == p[i]);
                }
            }
        } else {
            lemma_last_longer(p, s.last());
            assert(t.push(s.last()) =~= s);
            assert forall|i: int| 0 <= i < q.len() implies !(#[trigger] q[i]).contains(',') by {
                if i < p.len() - 1 {
                    assert(q[i] == p[i]);
                } else {
                    let last = p.last();
                    assert(!p[p.len() - 1].contains(','));
                    assert(q[i] == last.push(s.last()));
                    if q[i].contains(',') {
                        let m = choose|m: int| 0 <= m < q[i].len() && q[i][m] == ',';
                        assert(m < last.len() ==> last[m] == ',');
                    }
                }
            }
        }
    }
}

/// A line that is made of texts without commas, one comma between each two, has those texts as its
/// cells, with the white space around them taken off.
pub proof fn law_cells_of_joined_texts(p: Seq<Seq<char>>)
    requires
        p.len() > 0,
        forall|i: int| 0 <= i < p.len() ==> !(#[trigger] p[i]).contains(','),
    ensures
        parts(comma_joined(p)) == p,
    decreases p.len(),
{
    if p.len() == 1 {
        assert(!p[0].contains(','));
        lemma_parts_after(seq![], p[0]);
        assert(parts(p[0]) =~= p);
    } else {
        let d = p.drop_last();
        assert forall|i: int| 0 <= i < d.len() implies !(#[trigger] d[i]).contains(',') by {
            assert(d[i] == p[i]);
        }
        law_cells_of_joined_texts(d);
        let x = p.last();
        assert(!p[p.len() - 1].contains(','));
        let head = comma_joined(d).push(',');
        assert(head.drop_last() =~= comma_joined(d));
        assert(parts(head) == d.push(seq![]));
        lemma_parts_after(head, x);
        assert(comma_joined(p) =~= head + x);
        assert(parts(head + x) =~= p);
    }
}

proof fn lemma_parts_after(head: Seq<char>, x: Seq<char>)
    requires
        !x.contains(','),
        parts(head).len() > 0 && parts(head).last() == Seq::<char>::empty(),
    ensures
        parts(head + x) == parts(head).drop_last().push(x),
    decreases x.len(),
{
    if x.len() == 0 {
        assert(head + x =~= head);
        assert(x =~= Seq::<char>::empty());
        assert(parts(head).drop_last().push(x) =~= parts(head));
    } else {
        let y = x.drop_last();
        assert(!y.contains(',')) by {
            if y.contains(',') {
                let m = choose|m: int| 0 <= m < y.len() && y[m] == ',';
                assert(x[m] == ',');
            }
        }
        lemma_parts_after(head, y);
        assert((head + x).drop_last() =~= head + y);
        assert(x[x.len() - 1] != ',');
        assert((head + x).last() == x.last());
        let before = parts(head + y);
        assert(before.drop_last() =~= parts(head).drop_last());
        assert(y.push(x.last()) =~= x);
    }
}

/// Every cell comes out in its own column, in the order of the rows: in a table without short rows the
/// `i`th point of column `j` is cell `j` of the `i`th row below the header. The first row is the
/// header where some cell of it holds no number; a cell that holds none is a missing point.
pub proof fn law_cells_come_out_in_their_columns(rows: Seq<Seq<Option<Single>>>, i: int, j: int)
    requires
        rows.len() > 0,
        0 <= j < rows[0].len(),
        forall|k: int| 0 <= k < rows.len() ==> (#[trigger] rows[k]).len() >= rows[0].len(),
    ensures
        columns(rows).len() == rows[0].len(),
        ({
            let first = if exists|k: int| 0 <= k < rows[0].len() && (#[trigger] rows[0][k]) is None {
                1int
            } else {
                0
            };
            &&& columns(rows)[j].len() == rows.len() - first
            &&& 0 <= i < rows.len() - first ==> match rows[first + i][j] {
                Some(x) => columns(rows)[j][i] == x,
                None => columns(rows)[j][i].is_nan(),
            }
        }),
{
    let b = body(rows);
    assert forall|k: int| 0 <= k < b.len() implies (#[trigger] b[k]).len() > j by {
        if is_header(rows[0]) {
            assert(b[k] == rows[k + 1]);
        }
    }
    lemma_column_points(b, j);
    if 0 <= i < b.len() {
        assert(column(b, j)[i] == point(b[i][j]));
    }
}

proof fn lemma_column_points(rows: Seq<Seq<Option<Single>>>, j: int)
    requires
        forall|i: int| 0 <= i < rows.len() ==> (#[trigger] rows[i]).len() > j,
    ensures
        column(rows, j).len() == rows.len(),
        forall|i: int| 0 <= i < rows.len() ==> #[trigger] column(rows, j)[i] == point(rows[i][j]),
    decreases rows.len(),
{
    if rows.len() > 0 {
        let t = rows.drop_last();
        assert forall|i: int| 0 <= i < t.len() implies (#[trigger] t[i]).len() > j by {
            assert(t[i] == rows[i]);
        }
        lemma_column_points(t, j);
        assert(rows[rows.len() - 1].len() > j);
    }
}

/// One more row adds its cells to the columns, each to its own: cell `j` goes to the end of column
/// `j`, and a row that is too short for a column leaves the column as it is. A table of one row has
/// that row's numbers, or nothing where it is a header.
pub proof fn law_row_is_added_to_the_columns(
    rows: Seq<Seq<Option<Single>>>,
    row: Seq<Option<Single>>,
    j: int,
)
    requires
        rows.len() > 0,
        0 <= j < rows[0].len(),
    ensures
        j < row.len() && row[j] is Some ==> columns(rows.push(row))[j] == columns(rows)[j].push(
            row[j]->Some_0,
        ),
        j < row.len() && row[j] is None ==> columns(rows.push(row))[j].drop_last() == columns(
            rows,
        )[j] && columns(rows.push(row))[j].last().is_nan(),
        j >= row.len() ==> columns(rows.push(row))[j] == columns(rows)[j],
        rows.len() == 1 && (exists|k: int| 0 <= k < rows[0].len() && (#[trigger] rows[0][k]) is None)
            ==> columns(rows)[j].len() == 0,
        rows.len() == 1 && (forall|k: int|
            0 <= k < rows[0].len() ==> (#[trigger] rows[0][k]) is Some) ==> columns(rows)[j]
            == seq![rows[0][j]->Some_0],
{
    let more = rows.push(row);
    let (b, c) = (body(rows), body(more));
    assert(more[0] == rows[0]);
    assert(c.drop_last() =~= b);
    assert(c.last() == row);
    if j < row.len() {
        assert(column(c, j).drop_last() =~= column(b, j));
    }
    if rows.len() == 1 {
        if is_header(rows[0]) {
            assert(b =~= seq![]);
        } else {
            assert(b.drop_last() =~= seq![]);
            assert(column(seq![], j) =~= seq![]);
            assert(rows[0][j] is Some);
            assert(column(b, j) =~= seq![rows[0][j]->Some_0]);
        }
    }
}

/// The texts of the head line, one by one: `step`, and for each series its forecast column and one
/// column for each quantile level, where quantiles are shown.
pub open spec fn head_cell(levels: Option<Seq<Double>>, f: int) -> Seq<char> {
    let per = 1 + (match levels {
        Some(l) => l.len() as int,
        None => 0,
    });
    let v = (f - 1) / per;
    let k = (f - 1) % per;
    if f == 0 {
        "step"@
    } else if k == 0 {
        "series_"@ + digits(v as nat) + "_forecast"@
    } else {
        "series_"@ + digits(v as nat) + "_q"@ + levels->Some_0[k - 1].fixed(2)
    }
}

/// The texts of the line of step `h`, one by one: the number of the step, and for each series its
/// point forecast and each of its quantiles, where quantiles are shown.
pub open spec fn step_cell(
    forecast: Seq<Vec<Single>>,
    quantiles: Option<Vec<Vec<Vec<Single>>>>,
    levels: int,
    h: int,
    f: int,
) -> Seq<char> {
    let per = 1 + (if quantiles is Some {
        levels
    } else {
        0
    });
    let v = (f - 1) / per;
    let k = (f - 1) % per;
    if f == 0 {
        digits((h + 1) as nat)
    } else if k == 0 {
        forecast[v]@[h].fixed(6)
    } else {
        quantiles->Some_0@[v]@[h]@[k - 1].fixed(6)
    }
}

proof fn lemma_cell_place(v: int, k: int, per: int)
    requires
        0 <= v,
        0 <= k < per,
    ensures
        ((1 + v * per + k) - 1) / per == v,
        ((1 + v * per + k) - 1) % per == k,
        v * per >= 0,
        (v + 1) * per == v * per + per,
{
    assert(v * per >= 0 && (v + 1) * per == v * per + per) by (nonlinear_arith)
        requires
            v >= 0,
            per > 0,
    ;
    lemma_fundamental_div_mod_converse(v * per + k, per, v, k);
}

proof fn lemma_numbers(
    forecast: Seq<Vec<Single>>,
    quantiles: Option<Vec<Vec<Vec<Single>>>>,
    levels: int,
    h: int,
    v: int,
    k: int,
    start: Seq<char>,
)
    requires
        quantiles is Some,
        0 <= k <= levels,
        v >= 0,
        ({
            let per = 1 + levels;
            start == comma_joined(
                Seq::new(
                    (2 + v * per) as nat,
                    |f: int| step_cell(forecast, quantiles, levels, h, f),
                ),
            ) && v * per >= 0
        }),
    ensures
        start + numbers_line(quantiles->Some_0@[v]@[h]@, k) == comma_joined(
            Seq::new(
                (2 + v * (1 + levels) + k) as nat,
                |f: int| step_cell(forecast, quantiles, levels, h, f),
            ),
        ),
    decreases k,
{
    let row = quantiles->Some_0@[v]@[h]@;
    let per = 1 + levels;
    reveal_strlit(",");
    if k > 0 {
        lemma_numbers(forecast, quantiles, levels, h, v, k - 1, start);
        lemma_cell_place(v, k, per);
        let p = Seq::new(
            (2 + v * per + k - 1) as nat,
            |f: int| step_cell(forecast, quantiles, levels, h, f),
        );
        let q = Seq::new(
            (2 + v * per + k) as nat,
            |f: int| step_cell(forecast, quantiles, levels, h, f),
        );
        let x = row[k - 1].fixed(6);
        assert(q[1 + v * per + k] == x);
        assert(q =~= p.push(x));
        lemma_joined_push(p, x);
        assert(","@ =~= seq![',']);
        assert(start + numbers_line(row, k) =~= comma_joined(q));
    } else {
        assert(start + numbers_line(row, 0) =~= start);
    }
}

/// The line of a step holds, between commas and in this order, the number of the step, counted from
/// one, and for each series its point forecast at that step and its quantiles there, level by level,
/// each with six places.
pub proof fn law_step_line_holds_each_number(
    forecast: Seq<Vec<Single>>,
    quantiles: Option<Vec<Vec<Vec<Single>>>>,
    levels: int,
    h: int,
    n: int,
)
    requires
        n >= 0,
        levels >= 0,
    ensures
        step_line(forecast, quantiles, levels, h, n) == comma_joined(
            Seq::new(
                (1 + n * (1 + (if quantiles is Some {
                    levels
                } else {
                    0
                }))) as nat,
                |f: int| step_cell(forecast, quantiles, levels, h, f),
            ),
        ),
    decreases n,
{
    let per = 1 + (if quantiles is Some {
        levels
    } else {
        0
    });
    let cells_to = |m: int| Seq::new(
        m as nat,
        |f: int| step_cell(forecast, quantiles, levels, h, f),
    );
    if n > 0 {
        let v = n - 1;
        law_step_line_holds_each_number(forecast, quantiles, levels, h, v);
        lemma_cell_place(v, 0, per);
        let p = cells_to(1 + v * per);
        let x = forecast[v]@[h].fixed(6);
        let q = cells_to(2 + v * per);
        assert(q[1 + v * per] == x);
        assert(q =~= p.push(x));
        lemma_joined_push(p, x);
        reveal_strlit(",");
        assert(","@ =~= seq![',']);
        let start = step_line(forecast, quantiles, levels, h, v) + ","@ + x;
        assert(start =~= comma_joined(q));
        if quantiles is Some {
            lemma_numbers(forecast, quantiles, levels, h, v, levels, start);
        }
        assert(2 + v * per + (per - 1) == 1 + n * per);
    } else {
        assert(0 * per == 0);
        assert(cells_to(1).len() == 1);
    }
}

proof fn lemma_heads(v: int, levels: Seq<Double>, k: int, start: Seq<char>)
    requires
        0 <= k <= levels.len(),
        v >= 0,
        start == comma_joined(
            Seq::new(
                (2 + v * (1 + levels.len())) as nat,
                |f: int| head_cell(Some(levels), f),
            ),
        ),
        v * (1 + levels.len()) >= 0,
    ensures
        start + level_heads(v, levels, k) == comma_joined(
            Seq::new(
                (2 + v * (1 + levels.len()) + k) as nat,
                |f: int| head_cell(Some(levels), f),
            ),
        ),
    decreases k,
{
    let per = 1 + levels.len() as int;
    if k > 0 {
        lemma_heads(v, levels, k - 1, start);
        lemma_cell_place(v, k, per);
        let p = Seq::new((2 + v * per + k - 1) as nat, |f: int| head_cell(Some(levels), f));
        let q = Seq::new((2 + v * per + k) as nat, |f: int| head_cell(Some(levels), f));
        let x = "series_"@ + digits(v as nat) + "_q"@ + levels[k - 1].fixed(2);
        assert(q[1 + v * per + k] == x);
        assert(q =~= p.push(x));
        lemma_joined_push(p, x);
        reveal_strlit(",series_");
        reveal_strlit("series_");
        assert(",series_"@ =~= seq![','] + "series_"@);
        assert(start + level_heads(v, levels, k) =~= comma_joined(q));
    } else {
        assert(start + level_heads(v, levels, 0) =~= start);
    }
}

/// The head line names, between commas and in this order, the step column and for each series its
/// forecast column and its quantile columns, so that it has as many cells as the line of a step.
pub proof fn law_head_line_names_each_column(n: int, levels: Option<Seq<Double>>)
    requires
        n >= 0,
    ensures
        head_line(n, levels) == comma_joined(
            Seq::new(
                (1 + n * (1 + (match levels {
                    Some(l) => l.len() as int,
                    None => 0,
                }))) as nat,
                |f: int| head_cell(levels, f),
            ),
        ),
    decreases n,
{
    let per = 1 + (match levels {
        Some(l) => l.len() as int,
        None => 0,
    });
    let cells_to = |m: int| Seq::new(m as nat, |f: int| head_cell(levels, f));
    if n > 0 {
        let v = n - 1;
        law_head_line_names_each_column(v, levels);
        lemma_cell_place(v, 0, per);
        let p = cells_to(1 + v * per);
        let x = "series_"@ + digits(v as nat) + "_forecast"@;
        let q = cells_to(2 + v * per);
        assert(q[1 + v * per] == x);
        assert(q =~= p.push(x));
        lemma_joined_push(p, x);
        reveal_strlit(",series_");
        reveal_strlit("series_");
        assert(",series_"@ =~= seq![','] + "series_"@);
        let start = head_line(v, levels) + ",series_"@ + digits(v as nat) + "_forecast"@;
        assert(start =~= comma_joined(q));
        if let Some(l) = levels {
            lemma_heads(v, l, l.len() as int, start);
        }
        assert(2 + v * per + (per - 1) == 1 + n * per);
    } else {
        assert(0 * per == 0);
        assert(cells_to(1).len() == 1);
    }
}

/// The cells of a line are what stands between the commas of the line, once white space is taken off
/// its ends, with white space taken off the ends of each.
pub proof fn law_cells_of_a_line(line: Seq<char>)
    ensures
        exists|p: Seq<Seq<char>>|
            {
                &&& #[trigger] comma_joined(p) == trimmed(line)
                &&& p.len() == cells(line).len()
                &&& p.len() > 0
                &&& forall|i: int| 0 <= i < p.len() ==> !(#[trigger] p[i]).contains(',')
                &&& forall|i: int|
                    0 <= i < p.len() ==> cells(line)[i] == trimmed(#[trigger] p[i])
            },
{
    let p = parts(trimmed(line));
    law_parts_join_to_the_text(trimmed(line));
    assert forall|i: int| 0 <= i < p.len() implies cells(line)[i] == trimmed(#[trigger] p[i]) by {}
    assert(comma_joined(p) == trimmed(line));
}

/// Quantile columns are shown exactly where there are quantiles.
pub proof fn law_quantiles_are_shown(quantiles: Option<Vec<Vec<Vec<Single>>>>, levels: Seq<Double>)
    ensures
        quantiles is Some ==> shown_levels(quantiles, levels) == Some(levels),
        quantiles is None ==> shown_levels(quantiles, levels) is None,
{
}

/// A table of cells holds the cells of its rows.
pub proof fn law_table_holds_its_cells(rows: Seq<Vec<Option<Single>>>, i: int)
    ensures
        cell_rows(rows).len() == rows.len(),
        0 <= i < rows.len() ==> cell_rows(rows)[i] == rows[i]@,
{
}

} // verus!
