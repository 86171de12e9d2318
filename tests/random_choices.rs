use cut_optimizer_2d::{generate_initial_units, Bin, CutPieceWithId, GuillotineBin, OptimizerUnit, PatternDirection, StockPiece};
use rand::rngs::StdRng;
use rand::SeedableRng;

fn stock(width: usize, length: usize) -> StockPiece {
    StockPiece {
        width,
        length,
        pattern_direction: PatternDirection::NoPattern,
        price: 0,
        quantity: None,
    }
}

fn square(id: usize, side: usize) -> CutPieceWithId {
    CutPieceWithId {
        id,
        external_id: None,
        width: side,
        length: side,
        pattern_direction: PatternDirection::NoPattern,
        can_rotate: false,
    }
}

#[test]
fn new_bins_come_from_any_fitting_stock() {
    let stock_pieces = vec![stock(48, 96), stock(48, 120)];
    let mut lengths = Vec::new();
    for seed in 0..40 {
        let mut unit: OptimizerUnit<GuillotineBin> = OptimizerUnit::empty(&stock_pieces, 1);
        let mut rng = StdRng::seed_from_u64(seed);
        assert!(unit.add_to_new_bin(&square(0, 10), &mut rng));
        assert_eq!(unit.bins.len(), 1);
        lengths.push(unit.bins[0].length);
    }
    assert!(lengths.contains(&96));
    assert!(lengths.contains(&120));
}

#[test]
fn inversion_reorders_some_bins() {
    let stock_pieces = vec![stock(48, 96)];
    let pieces: Vec<CutPieceWithId> = (0..5).map(|id| CutPieceWithId { width: 48, length: 96, ..square(id, 0) }).collect();
    let heuristics = GuillotineBin::possible_heuristics();
    let mut rng = StdRng::seed_from_u64(1);
    let unit: OptimizerUnit<GuillotineBin> = OptimizerUnit::with_heuristic(&stock_pieces, &pieces, 0, &heuristics[0], &mut rng);
    let order = |u: &OptimizerUnit<GuillotineBin>| -> Vec<usize> { u.bins.iter().map(|b| b.cut_pieces()[0].id).collect() };
    assert_eq!(order(&unit), vec![0, 1, 2, 3, 4]);
    let mut changed = false;
    for seed in 0..40 {
        let mut copy = unit.copy_unit();
        let mut rng = StdRng::seed_from_u64(seed);
        copy.inversion(&mut rng);
        let o = order(&copy);
        let mut sorted = o.clone();
        sorted.sort();
        assert_eq!(sorted, vec![0, 1, 2, 3, 4]);
        if o != vec![0, 1, 2, 3, 4] {
            changed = true;
        }
    }
    assert!(changed);
}

#[test]
fn inversion_between_reverses_the_range() {
    let stock_pieces = vec![stock(48, 96)];
    let pieces: Vec<CutPieceWithId> = (0..5).map(|id| CutPieceWithId { width: 48, length: 96, ..square(id, 0) }).collect();
    let heuristics = GuillotineBin::possible_heuristics();
    let mut rng = StdRng::seed_from_u64(1);
    let mut unit: OptimizerUnit<GuillotineBin> = OptimizerUnit::with_heuristic(&stock_pieces, &pieces, 0, &heuristics[0], &mut rng);
    unit.inversion_between(1, 4);
    let o: Vec<usize> = unit.bins.iter().map(|b| b.cut_pieces()[0].id).collect();
    assert_eq!(o, vec![0, 3, 2, 1, 4]);
}

#[test]
fn shuffled_units_start_from_other_pieces() {
    let stock_pieces = vec![stock(200, 200)];
    let pieces: Vec<CutPieceWithId> = (0..5).map(|id| square(id, 10 + 10 * id)).collect();
    let units: Vec<OptimizerUnit<GuillotineBin>> = generate_initial_units(&stock_pieces, pieces, 0, 7, 7);
    let n = GuillotineBin::possible_heuristics().len();
    let first = |u: &OptimizerUnit<GuillotineBin>| u.bins[0].cut_pieces()[0].id;
    // In layout order the largest piece comes first.
    for u in &units[..n] {
        assert_eq!(first(u), 4);
    }
    assert!(units[n..2 * n].iter().any(|u| first(u) != 4));
}
