use wfc_tiled::{ScriptedEngine, TilePattern, WfcEngine, WfcError};

use wfc::orientation::Orientation;

fn single_tile_pattern(value: u32) -> TilePattern {
    TilePattern::from_vec(vec![value], 1, 1, 1, &vec![Orientation::Original])
}

fn checkerboard(a: u32, b: u32) -> TilePattern {
    TilePattern::from_vec(
        vec![a, b, a, b, b, a, b, a, a, b, a, b, b, a, b, a],
        4,
        4,
        1,
        &vec![Orientation::Original],
    )
}

#[test]
fn retry_budget_is_exhausted_exactly() {
    // An engine scripted to contradict on every attempt: with a budget of
    // five, exactly five attempts are made, then PropagationFailed reports
    // the exhausted budget.
    let pattern = single_tile_pattern(5);
    let script: Vec<Option<Vec<u32>>> = vec![None, None, None, None, None];
    let mut engine = ScriptedEngine::new(script, 4, 4, pattern.count());
    match pattern.run_collapse(&mut engine, 5) {
        Err(WfcError::PropagationFailed(n)) => assert_eq!(n, 5),
        other => panic!("expected PropagationFailed, got {:?}", other),
    }
    assert_eq!(engine.attempts_made(), 5);
}

#[test]
fn first_success_stops_the_retries() {
    // The third scripted attempt succeeds: no further attempt is made and
    // every output cell carries the identity's representative tile value.
    let pattern = single_tile_pattern(5);
    let script: Vec<Option<Vec<u32>>> = vec![None, None, Some(vec![0; 16])];
    let mut engine = ScriptedEngine::new(script, 4, 4, pattern.count());
    let grid = pattern.run_collapse(&mut engine, 10).expect("scripted success");
    assert_eq!(engine.attempts_made(), 3);
    assert_eq!(grid.width(), 4);
    assert_eq!(grid.height(), 4);
    for y in 0..4 {
        for x in 0..4 {
            assert_eq!(grid.get(x, y), 5);
        }
    }
}

#[test]
fn scripted_runs_are_deterministic() {
    let pattern = single_tile_pattern(9);
    let script: Vec<Option<Vec<u32>>> = vec![None, Some(vec![0; 4])];
    let mut e1 = ScriptedEngine::new(script.clone(), 2, 2, pattern.count());
    let mut e2 = ScriptedEngine::new(script, 2, 2, pattern.count());
    let r1 = pattern.run_collapse(&mut e1, 3);
    let r2 = pattern.run_collapse(&mut e2, 3);
    assert_eq!(r1, r2);
}

#[test]
fn identically_seeded_runs_produce_identical_grids() {
    // Determinism: the same catalog, size and seed give bit-identical
    // output grids.
    let pattern = checkerboard(7, 9);
    let mut e1 = WfcEngine::new(&pattern, 8, 8, 42);
    let mut e2 = WfcEngine::new(&pattern, 8, 8, 42);
    let r1 = pattern.run_collapse(&mut e1, 50);
    let r2 = pattern.run_collapse(&mut e2, 50);
    assert_eq!(r1, r2);
}

#[test]
fn degenerate_patterns_collapse_to_sample_values() {
    // A checkerboard sample of two values with single-cell patterns: there
    // are no adjacency constraints, so collapse succeeds, and every output
    // cell holds one of the two original tile values.
    let pattern = checkerboard(7, 9);
    assert_eq!(pattern.count(), 2);
    let mut engine = WfcEngine::new(&pattern, 8, 8, 3);
    let grid = pattern.run_collapse(&mut engine, 50).expect("collapse must succeed");
    assert_eq!(grid.width(), 8);
    assert_eq!(grid.height(), 8);
    let mut seen_a = false;
    let mut seen_b = false;
    for y in 0..8 {
        for x in 0..8 {
            let v = grid.get(x, y);
            assert!(v == 7 || v == 9);
            seen_a = seen_a || v == 7;
            seen_b = seen_b || v == 9;
        }
    }
    assert!(seen_a || seen_b);
}

#[test]
fn representative_values_come_from_the_sample() {
    let pattern = checkerboard(7, 9);
    let n = pattern.count();
    assert_eq!(n, 2);
    let mut values: Vec<u32> = (0..n).map(|id| pattern.value_of(id as u32)).collect();
    values.sort();
    assert_eq!(values, vec![7, 9]);
}
