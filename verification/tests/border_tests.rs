use wfc_tiled::{ForceBorderForbid, TilePattern};

use coord_2d::{Coord, Size};
use rand::rngs::StdRng;
use rand::SeedableRng;
use wfc::orientation::Orientation;
use wfc::{ForbidInterface, ForbidPattern, RunOwn, Wrap};
use wfc::wrap::WrapXY;

// The engine invokes a forbid strategy through its own callback interface;
// this adapter replays the library's elimination plan against it.
#[derive(Clone)]
struct PlanForbid {
    plan: Vec<(u32, u32, u32)>,
}

impl ForbidPattern for PlanForbid {
    fn forbid<W: Wrap, R: rand::Rng>(&mut self, fi: &mut ForbidInterface<W>, rng: &mut R) {
        for &(x, y, id) in self.plan.iter() {
            fi.forbid_all_patterns_except(Coord::new(x as i32, y as i32), id, rng)
                .expect("boundary elimination must not contradict a fresh wave");
        }
    }
}

#[test]
fn collapsed_border_holds_only_allowed_values() {
    // A 4x4 sample with a uniform zero border and a small feature in the
    // middle, pattern size 2, boundary constraint from its bottom-right
    // corner (where, wrapping, the rooted pattern is all zero and so
    // compatible with itself): after a successful collapse of a 4x4 output,
    // every cell of the designated bottom row and right column holds the
    // representative value of an allowed identity.
    let sample = vec![0, 0, 0, 0, 0, 1, 1, 0, 0, 1, 1, 0, 0, 0, 0, 0];
    let pattern = TilePattern::from_vec(sample, 4, 4, 2, &vec![Orientation::Original]);
    let forbid = ForceBorderForbid::new(&pattern, 2).expect("construction must succeed");
    assert_eq!(forbid.offset(), 1);
    let plan = forbid.forbid_plan(4, 4);

    let allowed_values: Vec<u32> =
        forbid.allowed_ids().iter().map(|&id| pattern.value_of(id)).collect();

    let stats = pattern.patterns.global_stats();
    let mut rng = StdRng::seed_from_u64(11);
    let mut run = RunOwn::new_wrap_forbid(
        Size::new(4, 4),
        &stats,
        WrapXY,
        PlanForbid { plan },
        &mut rng,
    );
    let mut collapsed = false;
    for _ in 0..100 {
        if run.collapse(&mut rng).is_ok() {
            collapsed = true;
            break;
        }
    }
    assert!(collapsed, "the checkerboard catalog must collapse");
    let wave = run.into_wave();
    let grid = wave.grid();

    let mut border = Vec::new();
    for x in 0..4 {
        border.push((x, 3));
    }
    for y in 0..4 {
        border.push((3, y));
    }
    for (x, y) in border {
        let id = grid
            .get(Coord::new(x, y))
            .expect("coordinate is in bounds")
            .chosen_pattern_id()
            .expect("cell is collapsed");
        let value = pattern.value_of(id);
        assert!(
            allowed_values.contains(&value),
            "border cell ({}, {}) holds {} outside the allowed values {:?}",
            x,
            y,
            value,
            allowed_values
        );
    }
}
