use vstd::prelude::*;

use crate::grid::TileGrid;
use crate::numfmt::{dec_digits, lemma_dec_digits_value, push_dec};

verus! {

// Map-editor export: a single-layer orthogonal map whose data block holds
// the tile grid as comma-separated values, row-major, every stored value one
// above the internal tile value (the target format reserves zero for
// "empty"). The surrounding document is plain templating and stays with the
// caller; the layer data below is the only part with rules of its own.

/// One tileset reference in a map-editor document: an external tileset
/// image, its pixel dimensions, the tile pixel size, and how the tiles are
/// laid out in it.
pub struct TileSet {
    pub image_path: String,
    pub image_width: u32,
    pub image_height: u32,
    pub columns: u32,
    pub tile_width: u32,
    pub tile_height: u32,
    pub tile_count: u32,
}

/// One row of layer data: each value incremented by one, in decimal, every
/// value followed by a comma.
pub open spec fn tiled_row(row: Seq<u32>) -> Seq<u8>
    decreases row.len(),
{
    if row.len() == 0 {
        Seq::empty()
    } else {
        tiled_row(row.drop_last()) + dec_digits(row.last() + 1) + seq![44u8]
    }
}

/// All rows of layer data, each followed by a newline.
pub open spec fn tiled_full(rows: Seq<Seq<u32>>) -> Seq<u8>
    decreases rows.len(),
{
    if rows.len() == 0 {
        Seq::empty()
    } else {
        tiled_full(rows.drop_last()) + tiled_row(rows.last()) + seq![10u8]
    }
}

/// The layer data block: the full rendering with the final newline and the
/// final trailing comma removed.
pub open spec fn tiled_layer(rows: Seq<Seq<u32>>) -> Seq<u8> {
    tiled_full(rows).take(tiled_full(rows).len() - 2)
}

proof fn lemma_tiled_row_len(row: Seq<u32>)
    requires
        row.len() >= 1,
    ensures
        tiled_row(row).len() >= 2,
    decreases row.len(),
{
    lemma_dec_digits_value(row.last() + 1);
    if row.len() > 1 {
        lemma_tiled_row_len(row.drop_last());
    }
}

/// The layer data for a grid, as the map-editor's data block holds it:
/// row-major comma-separated decimal values, each one above the tile value,
/// rows separated by newlines, nothing after the last value.
#[verifier::loop_isolation(false)]
pub fn tiled_layer_bytes(grid: &TileGrid) -> (r: Vec<u8>)
    requires
        grid.wf(),
        grid.w() >= 1,
        grid.h() >= 1,
        forall|c: int| 0 <= c < grid.cells().len() ==> (#[trigger] grid.cells()[c]) < u32::MAX,
    ensures
        r@ == tiled_layer(crate::tabular::grid_rows(*grid)),
{
    let ghost rows = crate::tabular::grid_rows(*grid);
    let w = grid.width();
    let h = grid.height();
    let mut out: Vec<u8> = Vec::new();
    let mut y: u32 = 0;
    proof {
        assert(rows.take(0) =~= Seq::<Seq<u32>>::empty());
    }
    while y < h
        invariant
            y <= grid.h(),
            out@ == tiled_full(rows.take(y as int)),
        decreases grid.h() - y,
    {
        let ghost rowy = rows[y as int];
        let mut x: u32 = 0;
        proof {
            assert(rowy.take(0) =~= Seq::<u32>::empty());
        }
        while x < w
            invariant
                x <= grid.w(),
                y < grid.h(),
                out@ == tiled_full(rows.take(y as int)) + tiled_row(rowy.take(x as int)),
            decreases grid.w() - x,
        {
            let v = grid.get(x, y);
            proof {
                grid.lemma_wf();
                assert(y * grid.w() + x < grid.w() * grid.h()) by (nonlinear_arith)
                    requires
                        0 <= x < grid.w(),
                        0 <= y < grid.h(),
                ;
            }
            push_dec(&mut out, v + 1);
            out.push(44);
            proof {
                let t = rowy.take(x as int + 1);
                assert(t.drop_last() =~= rowy.take(x as int));
                assert(t.last() == grid.cell(x as int, y as int));
                assert(out@ =~= tiled_full(rows.take(y as int)) + tiled_row(t));
            }
            x += 1;
        }
        out.push(10);
        proof {
            let t = rows.take(y as int + 1);
            assert(t.drop_last() =~= rows.take(y as int));
            assert(t.last() == rowy);
            assert(rowy.take(grid.w() as int) =~= rowy);
            assert(out@ =~= tiled_full(t));
        }
        y += 1;
    }
    proof {
        assert(rows.take(grid.h() as int) =~= rows);
        assert(rows.last() == rows[grid.h() - 1]);
        lemma_tiled_row_len(rows.last());
        assert(tiled_full(rows).len() >= 3);
    }
    out.pop();
    out.pop();
    proof {
        assert(out@ =~= tiled_full(rows).take(tiled_full(rows).len() - 2));
    }
    out
}

} // verus!
