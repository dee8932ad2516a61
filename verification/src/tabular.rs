use vstd::prelude::*;

use crate::grid::TileGrid;
use crate::numfmt::{all_digits, dec_digits, dec_value, is_digit, lemma_dec_digits_value,
    lemma_dec_value_take_le, push_dec};
use crate::WfcError;

verus! {

// The tabular format: one line per grid row, one decimal unsigned value per
// cell, cells separated by commas, rows terminated by a newline (the final
// newline may be absent on input). Empty input, an empty or ragged row, a
// stray byte and a value beyond the tile range are format errors.

/// The bytes of one row: decimal values separated by commas.
pub open spec fn render_row(row: Seq<u32>) -> Seq<u8>
    decreases row.len(),
{
    if row.len() == 0 {
        Seq::empty()
    } else if row.len() == 1 {
        dec_digits(row[0] as int)
    } else {
        render_row(row.drop_last()) + seq![44u8] + dec_digits(row.last() as int)
    }
}

/// The bytes of a whole table: each row's bytes followed by a newline.
pub open spec fn render_rows(rows: Seq<Seq<u32>>) -> Seq<u8>
    decreases rows.len(),
{
    if rows.len() == 0 {
        Seq::empty()
    } else {
        render_rows(rows.drop_last()) + render_row(rows.last()) + seq![10u8]
    }
}

/// A grid's rows, top to bottom.
pub open spec fn grid_rows(g: TileGrid) -> Seq<Seq<u32>> {
    Seq::new(g.h() as nat, |y: int| Seq::new(g.w() as nat, |x: int| g.cell(x, y)))
}

/// The first position at or after `i` that does not hold a digit.
pub open spec fn field_end(s: Seq<u8>, i: int) -> int
    decreases s.len() - i,
    when 0 <= i <= s.len()
{
    if i < s.len() && is_digit(s[i]) {
        field_end(s, i + 1)
    } else {
        i
    }
}

pub proof fn lemma_field_end_bounds(s: Seq<u8>, i: int)
    requires
        0 <= i <= s.len(),
    ensures
        i <= field_end(s, i) <= s.len(),
        forall|j: int| i <= j < field_end(s, i) ==> is_digit(#[trigger] s[j]),
        field_end(s, i) == s.len() || !is_digit(s[field_end(s, i)]),
    decreases s.len() - i,
{
    if i < s.len() && is_digit(s[i]) {
        lemma_field_end_bounds(s, i + 1);
    }
}

/// One parsed row: the values read, and the position just past the row's
/// newline (or the end of input for an unterminated final row). Nothing when
/// the row is empty, a value does not fit a tile, or a stray byte appears.
pub open spec fn parse_row(s: Seq<u8>, i: int) -> Option<(Seq<u32>, int)>
    decreases s.len() - i,
    when 0 <= i <= s.len()
    via parse_row_dec
{
    let e = field_end(s, i);
    if e == i {
        None
    } else if dec_value(s.subrange(i, e)) > u32::MAX {
        None
    } else {
        let v = dec_value(s.subrange(i, e)) as u32;
        if e == s.len() {
            Some((seq![v], e))
        } else if s[e] == 10 {
            Some((seq![v], e + 1))
        } else if s[e] == 44 {
            match parse_row(s, e + 1) {
                None => None,
                Some((vs, j)) => Some((seq![v] + vs, j)),
            }
        } else {
            None
        }
    }
}

#[via_fn]
proof fn parse_row_dec(s: Seq<u8>, i: int) {
    lemma_field_end_bounds(s, i);
}

/// Where a successful row parse can end, and that a row is never empty.
pub proof fn lemma_parse_row_bounds(s: Seq<u8>, i: int)
    requires
        0 <= i <= s.len(),
        parse_row(s, i) is Some,
    ensures
        ({
            let (row, j) = parse_row(s, i).unwrap();
            &&& i < j <= s.len()
            &&& row.len() >= 1
        }),
    decreases s.len() - i,
{
    lemma_field_end_bounds(s, i);
    let e = field_end(s, i);
    if e < s.len() && s[e] != 10 && s[e] == 44 {
        lemma_parse_row_bounds(s, e + 1);
    }
}

/// The remaining rows from position `i`: each row must hold exactly `ncols`
/// values, and the input must end cleanly.
pub open spec fn parse_rows(s: Seq<u8>, i: int, ncols: int) -> Option<Seq<Seq<u32>>>
    decreases s.len() - i,
    when 0 <= i <= s.len()
    via parse_rows_dec
{
    if i == s.len() {
        Some(Seq::empty())
    } else {
        match parse_row(s, i) {
            None => None,
            Some((row, j)) => if row.len() == ncols {
                match parse_rows(s, j, ncols) {
                    None => None,
                    Some(rs) => Some(seq![row] + rs),
                }
            } else {
                None
            },
        }
    }
}

#[via_fn]
proof fn parse_rows_dec(s: Seq<u8>, i: int, ncols: int) {
    if i != s.len() && parse_row(s, i) is Some {
        lemma_parse_row_bounds(s, i);
    }
}

/// The whole table: at least one row, and every row as wide as the first.
pub open spec fn parse_grid(s: Seq<u8>) -> Option<Seq<Seq<u32>>> {
    if s.len() == 0 {
        None
    } else {
        match parse_row(s, 0) {
            None => None,
            Some((r0, j)) => match parse_rows(s, j, r0.len() as int) {
                None => None,
                Some(rs) => Some(seq![r0] + rs),
            },
        }
    }
}

/// Write a grid to tabular bytes.
#[verifier::loop_isolation(false)]
pub fn grid_to_csv_bytes(grid: &TileGrid) -> (r: Vec<u8>)
    requires
        grid.wf(),
    ensures
        r@ == render_rows(grid_rows(*grid)),
{
    let ghost rows = grid_rows(*grid);
    let w = grid.width();
    let h = grid.height();
    let mut out: Vec<u8> = Vec::new();
    let mut y: u32 = 0;
    proof {
        assert(rows.take(0) =~= Seq::<Seq<u32>>::empty());
    }
    while y < h
        invariant
            y <= grid.h(),
            out@ == render_rows(rows.take(y as int)),
        decreases grid.h() - y,
    {
        let ghost rowy = rows[y as int];
        let mut x: u32 = 0;
        proof {
            assert(rowy.take(0) =~= Seq::<u32>::empty());
        }
        while x < w
            invariant
                x <= grid.w(),
                y < grid.h(),
                out@ == render_rows(rows.take(y as int)) + render_row(rowy.take(x as int)),
            decreases grid.w() - x,
        {
            if x > 0 {
                out.push(44);
            }
            push_dec(&mut out, grid.get(x, y));
            proof {
                let t = rowy.take(x as int + 1);
                assert(t.drop_last() =~= rowy.take(x as int));
                assert(t.last() == grid.cell(x as int, y as int));
                if x == 0 {
                    assert(render_row(t) == dec_digits(rowy[0] as int));
                    assert(out@ =~= render_rows(rows.take(y as int)) + render_row(t));
                } else {
                    assert(render_row(t) == render_row(rowy.take(x as int)) + seq![44u8]
                        + dec_digits(rowy[x as int] as int));
                    assert(out@ =~= render_rows(rows.take(y as int)) + render_row(t));
                }
            }
            x += 1;
        }
        out.push(10);
        proof {
            let t = rows.take(y as int + 1);
            assert(t.drop_last() =~= rows.take(y as int));
            assert(t.last() == rowy);
            assert(rowy.take(grid.w() as int) =~= rowy);
            assert(out@ =~= render_rows(rows.take(y as int)) + render_row(rowy) + seq![10u8]);
            assert(out@ =~= render_rows(t));
        }
        y += 1;
    }
    proof {
        assert(rows.take(grid.h() as int) =~= rows);
    }
    out
}

/// Read one row starting at `start`.
#[verifier::loop_isolation(false)]
fn parse_row_exec(bytes: &Vec<u8>, start: usize) -> (r: Result<(Vec<u32>, usize), WfcError>)
    requires
        start <= bytes@.len(),
    ensures
        match r {
            Ok((row, j)) => {
                &&& parse_row(bytes@, start as int) == Some((row@, j as int))
                &&& start < j <= bytes@.len()
            },
            Err(e) => {
                &&& parse_row(bytes@, start as int) is None
                &&& e == WfcError::MalformedInput
            },
        },
{
    let ghost s = bytes@;
    let n = bytes.len();
    let mut acc: Vec<u32> = Vec::new();
    let mut i: usize = start;
    loop
        invariant
            start <= i <= n,
            (match parse_row(s, i as int) {
                Some((vs, j)) => parse_row(s, start as int) == Some((acc@ + vs, j)),
                None => parse_row(s, start as int) is None,
            }),
        decreases n - i,
    {
        let mut e: usize = i;
        while e < n && bytes[e] >= 48 && bytes[e] <= 57
            invariant
                i <= e <= n,
                field_end(s, i as int) == field_end(s, e as int),
                forall|m: int| i <= m < e ==> is_digit(#[trigger] s[m]),
            decreases n - e,
        {
            e += 1;
        }
        proof {
            assert(field_end(s, e as int) == e);
            assert(field_end(s, i as int) == e);
        }
        if e == i {
            return Err(WfcError::MalformedInput);
        }
        let ghost fieldseq = s.subrange(i as int, e as int);
        proof {
            assert(all_digits(fieldseq));
        }
        let mut v64: u64 = 0;
        let mut m: usize = i;
        while m < e
            invariant
                i <= m <= e <= n,
                v64 == dec_value(s.subrange(i as int, m as int)),
                v64 <= u32::MAX,
            decreases e - m,
        {
            let d = bytes[m];
            proof {
                assert(is_digit(s[m as int]));
                let t = s.subrange(i as int, m as int + 1);
                assert(t.drop_last() =~= s.subrange(i as int, m as int));
                assert(t.last() == s[m as int]);
            }
            v64 = v64 * 10 + ((d - 48) as u64);
            if v64 > (u32::MAX as u64) {
                proof {
                    assert(s.subrange(i as int, m as int + 1) =~= fieldseq.take(
                        m as int + 1 - i as int,
                    ));
                    lemma_dec_value_take_le(fieldseq, m as int + 1 - i as int);
                    assert(dec_value(fieldseq) > u32::MAX);
                }
                return Err(WfcError::MalformedInput);
            }
            m += 1;
        }
        proof {
            assert(s.subrange(i as int, e as int) == fieldseq);
        }
        let v: u32 = v64 as u32;
        acc.push(v);
        if e == n {
            proof {
                assert(parse_row(s, i as int) == Some((seq![v], e as int)));
                assert(acc@.drop_last() + seq![v] =~= acc@);
            }
            return Ok((acc, e));
        }
        let b = bytes[e];
        if b == 10 {
            proof {
                assert(parse_row(s, i as int) == Some((seq![v], e as int + 1)));
                assert(acc@.drop_last() + seq![v] =~= acc@);
            }
            return Ok((acc, e + 1));
        } else if b == 44 {
            proof {
                let ghost pre = acc@.drop_last();
                assert(pre.push(v) =~= acc@);
                assert forall|vs: Seq<u32>| true implies pre + (seq![v] + vs) =~= acc@ + vs by {}
            }
            i = e + 1;
        } else {
            return Err(WfcError::MalformedInput);
        }
    }
}

/// Read a grid from tabular bytes: one line per row, comma-separated decimal
/// tile values, every row as wide as the first. Empty input, an empty or
/// ragged row, a stray byte and an oversized value are `MalformedInput`; a
/// table wider or taller than the coordinate range is reported the same way.
#[verifier::loop_isolation(false)]
pub fn grid_from_csv_bytes(bytes: &Vec<u8>) -> (r: Result<TileGrid, WfcError>)
    ensures
        match parse_grid(bytes@) {
            Some(rows) => {
                if rows.len() <= u32::MAX && rows[0].len() <= u32::MAX {
                    &&& r is Ok
                    &&& r.unwrap().wf()
                    &&& r.unwrap().h() == rows.len()
                    &&& r.unwrap().w() == rows[0].len()
                    &&& grid_rows(r.unwrap()) == rows
                } else {
                    r == Err::<TileGrid, WfcError>(WfcError::MalformedInput)
                }
            },
            None => r == Err::<TileGrid, WfcError>(WfcError::MalformedInput),
        },
{
    let ghost s = bytes@;
    let n = bytes.len();
    if n == 0 {
        return Err(WfcError::MalformedInput);
    }
    let (first, mut i) = match parse_row_exec(bytes, 0) {
        Ok(p) => p,
        Err(e) => { return Err(e); },
    };
    let ncols = first.len();
    proof {
        lemma_parse_row_bounds(s, 0);
    }
    let ghost r0 = first@;
    let mut cells: Vec<u32> = first;
    let ghost mut done = seq![r0];
    let mut nrows: usize = 1;
    proof {
        assert(seq![r0] + Seq::<Seq<u32>>::empty() =~= seq![r0]);
        assert(done[0] == r0);
        assert forall|y: int, x: int|
            0 <= y < 1 && 0 <= x < ncols implies #[trigger] cells@[y * ncols + x] == done[y][x] by {
            assert(y == 0);
            assert(y * ncols + x == x);
        }
        assert(1 * ncols == ncols);
    }
    while i < n
        invariant
            0 < i <= n,
            nrows <= i,
            ncols == r0.len(),
            ncols >= 1,
            nrows >= 1,
            done.len() == nrows,
            cells@.len() == nrows * ncols,
            forall|y: int, x: int|
                0 <= y < nrows && 0 <= x < ncols ==> #[trigger] cells@[y * ncols + x] == done[y][x],
            forall|y: int| 0 <= y < nrows ==> (#[trigger] done[y]).len() == ncols,
            (match parse_rows(s, i as int, ncols as int) {
                Some(rs) => parse_grid(s) == Some(done + rs),
                None => parse_grid(s) is None,
            }),
        decreases n - i,
    {
        let (row, j) = match parse_row_exec(bytes, i) {
            Ok(p) => p,
            Err(e) => {
                return Err(e);
            },
        };
        if row.len() != ncols {
            proof {
                assert(parse_rows(s, i as int, ncols as int) is None);
            }
            return Err(WfcError::MalformedInput);
        }
        let ghost rowseq = row@;
        let mut rowvec = row;
        cells.append(&mut rowvec);
        proof {
            let done2 = done.push(rowseq);
            assert forall|y: int, x: int|
                0 <= y < nrows + 1 && 0 <= x < ncols implies #[trigger] cells@[y * ncols + x]
                == done2[y][x] by {
                if y < nrows as int {
                    assert(y * ncols + x < nrows * ncols) by (nonlinear_arith)
                        requires
                            0 <= x < ncols,
                            0 <= y <= nrows - 1,
                            ncols >= 1,
                    ;
                    assert(cells@[y * ncols + x] == done[y][x]);
                } else {
                    assert(y * ncols + x == nrows * ncols + x) by (nonlinear_arith)
                        requires
                            y == nrows as int,
                    ;
                    assert(cells@[nrows * ncols + x] == rowseq[x]);
                }
            }
            assert((nrows + 1) * ncols == nrows * ncols + ncols) by (nonlinear_arith);
            match parse_rows(s, j as int, ncols as int) {
                Some(rs2) => {
                    assert(parse_rows(s, i as int, ncols as int) == Some(seq![rowseq] + rs2));
                    assert(done + (seq![rowseq] + rs2) =~= done2 + rs2);
                },
                None => {
                    assert(parse_rows(s, i as int, ncols as int) is None);
                },
            }
            done = done2;
        }
        nrows += 1;
        i = j;
    }
    proof {
        assert(parse_rows(s, n as int, ncols as int) == Some(Seq::<Seq<u32>>::empty()));
        assert(done + Seq::<Seq<u32>>::empty() =~= done);
        assert(parse_grid(s) == Some(done));
    }
    if nrows > (u32::MAX as usize) || ncols > (u32::MAX as usize) {
        return Err(WfcError::MalformedInput);
    }
    let total = cells.len();
    proof {
        assert((ncols as int) * (nrows as int) == (nrows as int) * (ncols as int))
            by (nonlinear_arith);
        assert(cells@.len() == (ncols as u32) * (nrows as u32));
        assert((ncols as u32) * (nrows as u32) <= usize::MAX);
    }
    let g = TileGrid::from_vec(cells, ncols as u32, nrows as u32);
    proof {
        assert(grid_rows(g) =~~= done);
    }
    Ok(g)
}


/// A non-empty row renders with its first value in front.
proof fn lemma_render_row_left(row: Seq<u32>)
    requires
        row.len() >= 2,
    ensures
        render_row(row) == dec_digits(row[0] as int) + seq![44u8] + render_row(row.drop_first()),
    decreases row.len(),
{
    if row.len() == 2 {
        assert(row.drop_last().len() == 1);
        assert(row.drop_last()[0] == row[0]);
        assert(row.drop_first().len() == 1);
        assert(row.drop_first()[0] == row[1]);
        assert(render_row(row.drop_last()) == dec_digits(row[0] as int));
        assert(render_row(row.drop_first()) == dec_digits(row[1] as int));
        assert(row.last() == row[1]);
    } else {
        lemma_render_row_left(row.drop_last());
        assert(row.drop_last()[0] == row[0]);
        assert(row.drop_last().drop_first() =~= row.drop_first().drop_last());
        assert(row.drop_first().len() >= 2);
        assert(row.drop_first().last() == row.last());
        assert(render_row(row.drop_first()) == render_row(row.drop_first().drop_last())
            + seq![44u8] + dec_digits(row.drop_first().last() as int));
        assert(render_row(row) == render_row(row.drop_last()) + seq![44u8] + dec_digits(
            row.last() as int,
        ));
        assert(render_row(row) =~= dec_digits(row[0] as int) + seq![44u8] + render_row(
            row.drop_first(),
        ));
    }
}

/// A non-empty table renders with its first row in front.
proof fn lemma_render_rows_left(rows: Seq<Seq<u32>>)
    requires
        rows.len() >= 1,
    ensures
        render_rows(rows) == render_row(rows[0]) + seq![10u8] + render_rows(rows.drop_first()),
    decreases rows.len(),
{
    if rows.len() == 1 {
        assert(rows.drop_last().len() == 0);
        assert(rows.drop_first().len() == 0);
        assert(rows.last() == rows[0]);
        assert(render_rows(rows) =~= render_row(rows[0]) + seq![10u8] + render_rows(
            rows.drop_first(),
        ));
    } else {
        lemma_render_rows_left(rows.drop_last());
        assert(rows.drop_last()[0] == rows[0]);
        assert(rows.drop_last().drop_first() =~= rows.drop_first().drop_last());
        assert(rows.drop_first().len() >= 1);
        assert(rows.drop_first().last() == rows.last());
        assert(render_rows(rows.drop_first()) == render_rows(rows.drop_first().drop_last())
            + render_row(rows.drop_first().last()) + seq![10u8]);
        assert(render_rows(rows) == render_rows(rows.drop_last()) + render_row(rows.last())
            + seq![10u8]);
        assert(render_rows(rows) =~= render_row(rows[0]) + seq![10u8] + render_rows(
            rows.drop_first(),
        ));
    }
}

/// The first position at or after `i` that holds no digit, located.
proof fn lemma_field_end_at(s: Seq<u8>, i: int, e: int)
    requires
        0 <= i <= e <= s.len(),
        forall|j: int| i <= j < e ==> is_digit(#[trigger] s[j]),
        e == s.len() || !is_digit(s[e]),
    ensures
        field_end(s, i) == e,
    decreases e - i,
{
    if i < e {
        assert(is_digit(s[i]));
        lemma_field_end_at(s, i + 1, e);
    }
}

/// Parsing reads back exactly the row that rendering wrote.
proof fn lemma_parse_row_render(pre: Seq<u8>, row: Seq<u32>, tail: Seq<u8>)
    requires
        row.len() >= 1,
        tail.len() == 0 || tail[0] == 10,
    ensures
        parse_row(pre + render_row(row) + tail, pre.len() as int) == Some(
            (row, pre.len() + render_row(row).len() + if tail.len() == 0 { 0int } else { 1int }),
        ),
    decreases row.len(),
{
    let s = pre + render_row(row) + tail;
    let d0 = dec_digits(row[0] as int);
    lemma_dec_digits_value(row[0] as int);
    let i = pre.len() as int;
    let e = i + d0.len();
    if row.len() == 1 {
        assert(render_row(row) == d0);
        assert(forall|j: int| i <= j < e ==> s[j] == d0[j - i]);
        assert(forall|j: int| i <= j < e ==> is_digit(#[trigger] s[j]));
        if tail.len() == 0 {
            assert(e == s.len());
            lemma_field_end_at(s, i, e);
        } else {
            assert(s[e] == tail[0]);
            assert(!is_digit(s[e]));
            lemma_field_end_at(s, i, e);
        }
        assert(s.subrange(i, e) =~= d0);
        assert(dec_value(s.subrange(i, e)) == row[0] as int);
        assert(seq![row[0]] =~= row);
        if tail.len() == 0 {
            assert(parse_row(s, i) == Some((row, e)));
        } else {
            assert(s[e] == 10);
            assert(parse_row(s, i) == Some((row, e + 1)));
        }
    } else {
        lemma_render_row_left(row);
        let rest = row.drop_first();
        assert(render_row(row) == d0 + seq![44u8] + render_row(rest));
        let pre2 = pre + d0 + seq![44u8];
        assert(s =~= pre2 + render_row(rest) + tail);
        lemma_parse_row_render(pre2, rest, tail);
        assert(forall|j: int| i <= j < e ==> s[j] == d0[j - i]);
        assert(forall|j: int| i <= j < e ==> is_digit(#[trigger] s[j]));
        assert(s[e] == 44);
        assert(!is_digit(s[e]));
        lemma_field_end_at(s, i, e);
        assert(s.subrange(i, e) =~= d0);
        assert(dec_value(s.subrange(i, e)) == row[0] as int);
        assert(e < s.len());
        assert(s[e] != 10);
        assert(pre2.len() == e + 1);
        let k: int = if tail.len() == 0 { 0 } else { 1 };
        assert(parse_row(s, pre2.len() as int) == Some(
            (rest, pre2.len() + render_row(rest).len() + k),
        ));
        assert(parse_row(s, i) == Some((seq![row[0]] + rest, pre2.len() + render_row(rest).len() + k)));
        assert(seq![row[0]] + rest =~= row);
        assert(pre2.len() + render_row(rest).len() == pre.len() + render_row(row).len());
    }
}

/// Parsing reads back exactly the rows that rendering wrote.
proof fn lemma_parse_rows_render(pre: Seq<u8>, rows: Seq<Seq<u32>>, ncols: int)
    requires
        ncols >= 1,
        forall|y: int| 0 <= y < rows.len() ==> (#[trigger] rows[y]).len() == ncols,
    ensures
        parse_rows(pre + render_rows(rows), pre.len() as int, ncols) == Some(rows),
    decreases rows.len(),
{
    let s = pre + render_rows(rows);
    if rows.len() == 0 {
        assert(s =~= pre);
        assert(parse_rows(s, pre.len() as int, ncols) == Some(Seq::<Seq<u32>>::empty()));
        assert(rows =~= Seq::<Seq<u32>>::empty());
    } else {
        lemma_render_rows_left(rows);
        let rest = rows.drop_first();
        let tail = seq![10u8] + render_rows(rest);
        assert(s =~= pre + render_row(rows[0]) + tail);
        assert(tail[0] == 10);
        assert(rows[0].len() == ncols);
        lemma_parse_row_render(pre, rows[0], tail);
        let j = pre.len() + render_row(rows[0]).len() + 1;
        assert(parse_row(s, pre.len() as int) == Some((rows[0], j as int)));
        let pre2 = pre + render_row(rows[0]) + seq![10u8];
        assert(pre2.len() == j);
        assert(s =~= pre2 + render_rows(rest));
        assert forall|y: int| 0 <= y < rest.len() implies (#[trigger] rest[y]).len() == ncols by {
            assert(rest[y] == rows[y + 1]);
        }
        lemma_parse_rows_render(pre2, rest, ncols);
        assert(parse_rows(s, j as int, ncols) == Some(rest));
        lemma_parse_row_bounds(s, pre.len() as int);
        assert(parse_rows(s, pre.len() as int, ncols) == Some(seq![rows[0]] + rest));
        assert(seq![rows[0]] + rest =~= rows);
    }
}

/// Round trip: writing a grid to tabular bytes and reading them back yields
/// the very same rows — same dimensions, same values, same order.
pub proof fn lemma_tabular_round_trip(g: TileGrid)
    requires
        g.wf(),
        g.w() >= 1,
        g.h() >= 1,
    ensures
        parse_grid(render_rows(grid_rows(g))) == Some(grid_rows(g)),
{
    let rows = grid_rows(g);
    let s = render_rows(rows);
    assert(rows.len() == g.h());
    assert(forall|y: int| 0 <= y < rows.len() ==> (#[trigger] rows[y]).len() == g.w());
    lemma_render_rows_left(rows);
    let rest = rows.drop_first();
    let tail = seq![10u8] + render_rows(rest);
    assert(s =~= Seq::<u8>::empty() + render_row(rows[0]) + tail);
    assert(tail[0] == 10);
    lemma_parse_row_render(Seq::<u8>::empty(), rows[0], tail);
    let j = 0 + render_row(rows[0]).len() + 1;
    assert(parse_row(s, 0) == Some((rows[0], j as int)));
    assert(s.len() > 0);
    let pre2 = Seq::<u8>::empty() + render_row(rows[0]) + seq![10u8];
    assert(pre2.len() == j);
    assert(s =~= pre2 + render_rows(rest));
    assert forall|y: int| 0 <= y < rest.len() implies (#[trigger] rest[y]).len() == g.w() by {
        assert(rest[y] == rows[y + 1]);
    }
    lemma_parse_rows_render(pre2, rest, g.w());
    assert(parse_rows(s, j as int, g.w()) == Some(rest));
    assert(rows[0].len() == g.w());
    assert(parse_grid(s) == Some(seq![rows[0]] + rest));
    assert(seq![rows[0]] + rest =~= rows);
}


impl crate::catalog::TilePattern {
    /// Build the catalog from tabular bytes: the sample grid is read as by
    /// `grid_from_csv_bytes`, then handed to `TilePattern::new`. A table
    /// wider or taller than the coordinate range is `MalformedInput`.
    pub fn from_csv_bytes(
        bytes: &Vec<u8>,
        pattern_size: u32,
        orientation: &Vec<wfc::orientation::Orientation>,
    ) -> (r: Result<crate::catalog::TilePattern, WfcError>)
        requires
            1 <= pattern_size <= 0x80000000,
            orientation@.len() >= 1,
        ensures
            match parse_grid(bytes@) {
                Some(rows) => {
                    if rows.len() <= 0x7fffffff && rows[0].len() <= 0x7fffffff {
                        &&& r is Ok
                        &&& r.unwrap().wf()
                        &&& r.unwrap().grid.h() == rows.len()
                        &&& r.unwrap().grid.w() == rows[0].len()
                        &&& grid_rows(r.unwrap().grid) == rows
                        &&& forall|x: int, y: int|
                            0 <= x < r.unwrap().grid.w() && 0 <= y < r.unwrap().grid.h()
                                ==> #[trigger] r.unwrap().spec_ids_at(x, y).len()
                                <= orientation@.len()
                    } else {
                        r == Err::<crate::catalog::TilePattern, WfcError>(WfcError::MalformedInput)
                    }
                },
                None => r == Err::<crate::catalog::TilePattern, WfcError>(WfcError::MalformedInput),
            },
    {
        let g = match grid_from_csv_bytes(bytes) {
            Ok(g) => g,
            Err(e) => {
                return Err(e);
            },
        };
        proof {
            if bytes@.len() > 0 && parse_row(bytes@, 0) is Some {
                lemma_parse_row_bounds(bytes@, 0);
            }
        }
        if g.width() > 0x7fffffff || g.height() > 0x7fffffff {
            return Err(WfcError::MalformedInput);
        }
        proof {
            let rows = parse_grid(bytes@).unwrap();
            assert(rows[0] == grid_rows(g)[0]);
            assert(grid_rows(g)[0].len() == g.w());
            assert(g.w() >= 1 && g.h() >= 1);
        }
        let tp = crate::catalog::TilePattern::new(g, pattern_size, orientation);
        proof {
            assert(grid_rows(tp.grid) =~~= parse_grid(bytes@).unwrap());
        }
        Ok(tp)
    }
}

} // verus!
