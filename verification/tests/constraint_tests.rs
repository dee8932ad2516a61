use wfc_tiled::{ForceBorderForbid, TilePattern, WaveModel, WfcError};

use wfc::orientation::Orientation;

fn three_by_three() -> TilePattern {
    TilePattern::from_vec(
        vec![1, 2, 3, 4, 5, 6, 7, 8, 9],
        3,
        3,
        2,
        &vec![Orientation::Original],
    )
}

#[test]
fn corner_set_is_the_ids_at_the_corner() {
    // A 3x3 sample of nine distinct values, pattern size 2: the corner
    // coordinate is (3-1, 3-1) = (2, 2) and exactly one identity is rooted
    // there under the original orientation alone.
    let pattern = three_by_three();
    let forbid = ForceBorderForbid::new(&pattern, 2).expect("construction must succeed");
    assert_eq!(forbid.offset(), 1);
    let allowed = forbid.allowed_ids().clone();
    assert_eq!(allowed.len(), 1);
    let rooted = pattern.ids_at(2, 2);
    assert_eq!(rooted.len(), 1);
    assert_eq!(allowed[0], rooted[0]);
}

#[test]
fn construction_succeeds_on_large_enough_samples() {
    // Both dimensions at least the pattern size: construction succeeds and
    // the allowed-identity set is non-empty.
    let pattern = TilePattern::from_vec(
        vec![1, 2, 3, 4, 5, 6, 7, 8, 9, 10, 11, 12, 13, 14, 15, 16],
        4,
        4,
        2,
        &vec![Orientation::Original],
    );
    let forbid = ForceBorderForbid::new(&pattern, 2).expect("construction must succeed");
    assert!(forbid.allowed_ids().len() >= 1);
}

#[test]
fn construction_fails_out_of_range_on_narrow_samples() {
    // A 1x5 sample with pattern size 3: the offset is 2, the corner
    // coordinate would sit outside the sample.
    let pattern = TilePattern::from_vec(
        vec![1, 2, 3, 4, 5],
        1,
        5,
        3,
        &vec![Orientation::Original],
    );
    match ForceBorderForbid::new(&pattern, 3) {
        Err(WfcError::OutOfRange) => {}
        other => panic!("expected OutOfRange, got {:?}", other.map(|_| ())),
    }
}

#[test]
fn plan_lists_bottom_row_then_right_column_bounded_by_width() {
    let pattern = three_by_three();
    let forbid = ForceBorderForbid::new(&pattern, 2).expect("construction must succeed");
    let id = forbid.allowed_ids()[0];
    // For a 3-wide, 5-tall output with offset 1, the designated cells are
    // the bottom row (y = 4) for x in 0..3 and the column x = 2 for y in
    // 0..3 -- both scans bounded by the output width.
    let plan = forbid.forbid_plan(3, 5);
    assert_eq!(
        plan,
        vec![(0, 4, id), (1, 4, id), (2, 4, id), (2, 0, id), (2, 1, id), (2, 2, id)]
    );
}

#[test]
fn reapplying_the_plan_changes_nothing() {
    // Idempotence: a wave restricted by the plan once is not changed, and
    // never contradicted, by applying the same plan again.
    let pattern = three_by_three();
    let forbid = ForceBorderForbid::new(&pattern, 2).expect("construction must succeed");
    let plan = forbid.forbid_plan(4, 4);
    let patterns = pattern.count();
    let wave = WaveModel::new_full(4, 4, patterns);
    let once = wave.apply_forbid(&plan).expect("first application must succeed");
    let twice = once.apply_forbid(&plan).expect("second application must succeed");
    for y in 0..4u32 {
        for x in 0..4u32 {
            for id in 0..patterns {
                assert_eq!(once.possible(x, y, id), twice.possible(x, y, id));
            }
        }
    }
}

#[test]
fn plan_restricts_designated_cells_to_allowed_ids() {
    let pattern = three_by_three();
    let forbid = ForceBorderForbid::new(&pattern, 2).expect("construction must succeed");
    let id = forbid.allowed_ids()[0] as usize;
    let plan = forbid.forbid_plan(4, 4);
    let patterns = pattern.count();
    let wave = WaveModel::new_full(4, 4, patterns);
    let restricted = wave.apply_forbid(&plan).expect("application must succeed");
    for x in 0..4u32 {
        for other in 0..patterns {
            assert_eq!(restricted.possible(x, 3, other), other == id);
        }
    }
    for y in 0..4u32 {
        for other in 0..patterns {
            assert_eq!(restricted.possible(3, y, other), other == id);
        }
    }
}
