use vstd::prelude::*;

use crate::grid::TileGrid;

verus! {

// The engine's pattern catalog and its orientation enum are opaque to this
// library; they are declared here so they can stand in signatures and fields.

#[verifier::external_type_specification]
#[verifier::external_body]
#[verifier::reject_recursive_types(T)]
pub struct ExOverlappingPatterns<T: Eq + Clone + std::hash::Hash>(
    wfc::overlapping::OverlappingPatterns<T>,
);

#[verifier::external_type_specification]
#[verifier::external_body]
pub struct ExOrientation(wfc::orientation::Orientation);

/// For every sample coordinate, the pattern identities the catalog associates
/// with that coordinate (one per configured orientation, in the catalog's own
/// order, possibly with repeats). The catalog derives them from the sample
/// alone, so they are a function of the catalog value.
pub uninterp spec fn catalog_ids(cat: wfc::overlapping::OverlappingPatterns<u32>) -> Map<
    (int, int),
    Seq<u32>,
>;

/// For every pattern identity, the representative tile value of that pattern:
/// the tile at the pattern's top-left cell. Its length is the number of
/// distinct patterns the catalog holds.
pub uninterp spec fn catalog_values(cat: wfc::overlapping::OverlappingPatterns<u32>) -> Seq<u32>;

/// The facts tying a catalog to the sample grid it was built from: the
/// catalog knows exactly the sample's coordinates, associates at least one
/// identity with each of them, identities index the value table, and every
/// representative value is a cell of the sample.
pub open spec fn catalog_consistent(
    cat: wfc::overlapping::OverlappingPatterns<u32>,
    g: TileGrid,
) -> bool {
    &&& forall|x: int, y: int|
        catalog_ids(cat).dom().contains((x, y)) <==> (0 <= x < g.w() && 0 <= y < g.h())
    &&& forall|x: int, y: int|
        #[trigger] catalog_ids(cat).dom().contains((x, y)) ==> {
            &&& catalog_ids(cat)[(x, y)].len() >= 1
            &&& forall|j: int|
                0 <= j < catalog_ids(cat)[(x, y)].len() ==> (#[trigger] catalog_ids(cat)[(x, y)][j]
                    as int) < catalog_values(cat).len()
        }
    &&& catalog_values(cat).len() >= 1
    &&& forall|i: int|
        0 <= i < catalog_values(cat).len() ==> g.cells().contains(#[trigger] catalog_values(cat)[i])
}

/// Relies on wfc's OverlappingPatterns::new: it scans every sample coordinate
/// under every given orientation (wrapping at the edges), deduplicates the
/// observed k-by-k patterns, assigns them consecutive identities starting at
/// zero, and records for each coordinate the identity observed there per
/// orientation — so a coordinate carries at most one identity per given
/// orientation. Each pattern's representative value is a cell of the sample.
/// Dimensions and pattern size are bounded by the engine's coordinate range.
#[verifier::external_body]
fn catalog_new_raw(grid: &TileGrid, pattern_size: u32, orientation: &Vec<
    wfc::orientation::Orientation,
>) -> (r: wfc::overlapping::OverlappingPatterns<u32>)
    requires
        grid.wf(),
        1 <= grid.w() <= 0x7fffffff,
        1 <= grid.h() <= 0x7fffffff,
        1 <= pattern_size <= 0x80000000,
        orientation@.len() >= 1,
    ensures
        catalog_consistent(r, *grid),
        forall|x: int, y: int|
            #[trigger] catalog_ids(r).dom().contains((x, y)) ==> catalog_ids(r)[(x, y)].len()
                <= orientation@.len(),
{
    let g = grid_2d::Grid::new_iterator(
        coord_2d::Size::new(grid.width(), grid.height()),
        (0..grid.len()).map(|i| grid.get_linear(i)),
    );
    let k = core::num::NonZeroU32::new(pattern_size).unwrap();
    wfc::overlapping::OverlappingPatterns::new(g, k, orientation)
}

/// Relies on wfc's OverlappingPatterns::id_grid and Grid::get_checked: the
/// entry at an in-bounds coordinate lists the pattern identities observed
/// there, one per configured orientation.
#[verifier::external_body]
fn catalog_ids_at_raw(cat: &wfc::overlapping::OverlappingPatterns<u32>, x: u32, y: u32) -> (r: Vec<
    u32,
>)
    requires
        catalog_ids(*cat).dom().contains((x as int, y as int)),
        x <= 0x7fffffff,
        y <= 0x7fffffff,
    ensures
        r@ == catalog_ids(*cat)[(x as int, y as int)],
{
    let id_grid = cat.id_grid();
    id_grid.get_checked(coord_2d::Coord::new(x as i32, y as i32)).iter().cloned().collect()
}

/// Relies on wfc's OverlappingPatterns::pattern_top_left_value: for a valid
/// identity it returns the tile value at the pattern's top-left cell.
#[verifier::external_body]
fn catalog_value_raw(cat: &wfc::overlapping::OverlappingPatterns<u32>, id: u32) -> (r: u32)
    requires
        (id as int) < catalog_values(*cat).len(),
    ensures
        r == catalog_values(*cat)[id as int],
{
    *cat.pattern_top_left_value(id)
}

/// Relies on wfc's OverlappingPatterns::pattern_descriptions and
/// PatternTable::len: one description exists per distinct pattern.
#[verifier::external_body]
fn catalog_count_raw(cat: &wfc::overlapping::OverlappingPatterns<u32>) -> (r: usize)
    ensures
        r == catalog_values(*cat).len(),
{
    cat.pattern_descriptions().len()
}

/// A sample tile map together with the catalog of overlapping patterns the
/// engine extracted from it. Built once per sample and immutable thereafter.
pub struct TilePattern {
    pub grid: TileGrid,
    pub patterns: wfc::overlapping::OverlappingPatterns<u32>,
}

impl TilePattern {
    /// The pattern identities the catalog associates with sample coordinate
    /// `(x, y)`, in catalog order, possibly with repeats.
    pub open spec fn spec_ids_at(&self, x: int, y: int) -> Seq<u32> {
        catalog_ids(self.patterns)[(x, y)]
    }

    /// The representative tile value of each pattern identity.
    pub open spec fn values(&self) -> Seq<u32> {
        catalog_values(self.patterns)
    }

    /// How many distinct pattern identities the catalog holds.
    pub open spec fn pattern_count(&self) -> int {
        self.values().len() as int
    }

    pub open spec fn wf(&self) -> bool {
        &&& self.grid.wf()
        &&& self.grid.w() >= 1
        &&& self.grid.h() >= 1
        &&& self.grid.w() <= 0x7fffffff
        &&& self.grid.h() <= 0x7fffffff
        &&& catalog_consistent(self.patterns, self.grid)
    }

    /// Every fact `wf` holds about the identities at an in-bounds coordinate.
    pub proof fn lemma_ids_at(&self, x: int, y: int)
        requires
            self.wf(),
            0 <= x < self.grid.w(),
            0 <= y < self.grid.h(),
        ensures
            self.spec_ids_at(x, y).len() >= 1,
            forall|j: int|
                0 <= j < self.spec_ids_at(x, y).len() ==> (#[trigger] self.spec_ids_at(x, y)[j]
                    as int) < self.pattern_count(),
    {
        assert(catalog_ids(self.patterns).dom().contains((x, y)));
    }

    /// Build the catalog for a sample grid with patterns of size
    /// `pattern_size`, deduplicated under the given orientation set.
    pub fn new(grid: TileGrid, pattern_size: u32, orientation: &Vec<
        wfc::orientation::Orientation,
    >) -> (r: TilePattern)
        requires
            grid.wf(),
            grid.w() >= 1,
            grid.h() >= 1,
            grid.w() <= 0x7fffffff,
            grid.h() <= 0x7fffffff,
            1 <= pattern_size <= 0x80000000,
            orientation@.len() >= 1,
        ensures
            r.wf(),
            r.grid.w() == grid.w(),
            r.grid.h() == grid.h(),
            r.grid.cells() == grid.cells(),
            forall|x: int, y: int|
                0 <= x < r.grid.w() && 0 <= y < r.grid.h() ==> #[trigger] r.spec_ids_at(x, y).len()
                    <= orientation@.len(),
    {
        let patterns = catalog_new_raw(&grid, pattern_size, orientation);
        let r = TilePattern { grid, patterns };
        proof {
            assert forall|x: int, y: int|
                0 <= x < r.grid.w() && 0 <= y < r.grid.h() implies #[trigger] r.spec_ids_at(
                x,
                y,
            ).len() <= orientation@.len() by {
                assert(catalog_ids(r.patterns).dom().contains((x, y)));
            }
        }
        r
    }

    /// Build the catalog from a row-major vector of tile values.
    pub fn from_vec(
        map: Vec<u32>,
        width: u32,
        height: u32,
        pattern_size: u32,
        orientation: &Vec<wfc::orientation::Orientation>,
    ) -> (r: TilePattern)
        requires
            map@.len() == width * height,
            1 <= width <= 0x7fffffff,
            1 <= height <= 0x7fffffff,
            width * height <= usize::MAX,
            1 <= pattern_size <= 0x80000000,
            orientation@.len() >= 1,
        ensures
            r.wf(),
            r.grid.w() == width,
            r.grid.h() == height,
            r.grid.cells() == map@,
            forall|x: int, y: int|
                0 <= x < width && 0 <= y < height ==> #[trigger] r.spec_ids_at(x, y).len()
                    <= orientation@.len(),
    {
        let grid = TileGrid::from_vec(map, width, height);
        TilePattern::new(grid, pattern_size, orientation)
    }

    /// The pattern identities observed at sample coordinate `(x, y)`,
    /// in catalog order, possibly with repeats.
    pub fn ids_at(&self, x: u32, y: u32) -> (r: Vec<u32>)
        requires
            self.wf(),
            x < self.grid.w(),
            y < self.grid.h(),
        ensures
            r@ == self.spec_ids_at(x as int, y as int),
    {
        catalog_ids_at_raw(&self.patterns, x, y)
    }

    /// The representative tile value of pattern identity `id`.
    pub fn value_of(&self, id: u32) -> (r: u32)
        requires
            self.wf(),
            (id as int) < self.pattern_count(),
        ensures
            r == self.values()[id as int],
    {
        catalog_value_raw(&self.patterns, id)
    }

    /// How many distinct pattern identities the catalog holds.
    pub fn count(&self) -> (r: usize)
        requires
            self.wf(),
        ensures
            r == self.pattern_count(),
    {
        catalog_count_raw(&self.patterns)
    }
}

} // verus!
