use cut_optimizer_2d::{
    distinct_sizes, generate_initial_units, initial_unit_count, replaces_best, sort_results,
    stock_pieces_of_size, unique_shapes, unit_layout, Bin, CutPiece, CutPieceWithId, Error,
    GuillotineBin, MaxRectsBin, Optimizer, OptimizerUnit, PatternDirection, Population, Rect,
    ResultStockPiece, StockPiece,
};
use rand::rngs::StdRng;
use rand::SeedableRng;

fn stock(width: usize, length: usize, price: usize, quantity: Option<usize>) -> StockPiece {
    StockPiece {
        width,
        length,
        pattern_direction: PatternDirection::NoPattern,
        price,
        quantity,
    }
}

fn demand(optimizer: &Optimizer) -> Vec<CutPieceWithId> {
    optimizer.cut_pieces().clone()
}

fn cut(quantity: usize, width: usize, length: usize, can_rotate: bool) -> CutPiece {
    CutPiece {
        quantity,
        external_id: Some(1),
        width,
        length,
        pattern_direction: PatternDirection::NoPattern,
        can_rotate,
    }
}

#[test]
fn add_equivalent_stock_pieces_sums_quantities() {
    let mut optimizer = Optimizer::new();
    optimizer
        .add_stock_piece(stock(48, 96, 0, Some(3)))
        .add_stock_piece(stock(48, 96, 0, Some(6)));

    assert_eq!(optimizer.stock_pieces().len(), 1);
    assert_eq!(optimizer.stock_pieces()[0].quantity, Some(9));
}

#[test]
fn add_equivalent_stock_pieces_with_none() {
    let mut optimizer = Optimizer::new();
    optimizer
        .add_stock_piece(stock(48, 96, 0, None))
        .add_stock_piece(stock(48, 96, 0, Some(6)));

    assert_eq!(optimizer.stock_pieces().len(), 1);
    assert_eq!(optimizer.stock_pieces()[0].quantity, None);
}

#[test]
fn stock_pieces_dec_quantity() {
    let mut stock_piece = stock(48, 96, 0, Some(10));

    stock_piece.dec_quantity();

    assert_eq!(stock_piece.quantity, Some(9));

    stock_piece.quantity = None;
    stock_piece.dec_quantity();

    assert_eq!(stock_piece.quantity, None);
}

#[test]
fn stock_pieces_that_differ_stay_apart() {
    let mut optimizer = Optimizer::new();
    optimizer.add_stock_pieces(vec![
        stock(48, 96, 0, Some(1)),
        stock(48, 96, 1, Some(1)),
        stock(48, 120, 0, None),
        stock(48, 96, 0, Some(2)),
    ]);
    assert_eq!(optimizer.stock_pieces().len(), 3);
    assert_eq!(optimizer.stock_pieces()[0].quantity, Some(3));
    assert_eq!(optimizer.stock_pieces()[1].price, 1);
}

#[test]
fn merged_quantities_saturate() {
    let mut optimizer = Optimizer::new();
    optimizer
        .add_stock_piece(stock(48, 96, 0, Some(usize::MAX - 1)))
        .add_stock_piece(stock(48, 96, 0, Some(5)));
    assert_eq!(optimizer.stock_pieces()[0].quantity, Some(usize::MAX));
}

#[test]
fn cut_pieces_expand_with_increasing_ids() {
    let mut optimizer = Optimizer::new();
    optimizer.add_cut_piece(cut(2, 10, 20, true)).add_cut_pieces(vec![cut(0, 5, 5, false), cut(3, 7, 8, false)]);
    let pieces = demand(&optimizer);
    assert_eq!(pieces.len(), 5);
    for (i, p) in pieces.iter().enumerate() {
        assert_eq!(p.id, i);
    }
    assert_eq!((pieces[1].width, pieces[1].length), (10, 20));
    assert_eq!((pieces[2].width, pieces[2].length), (7, 8));
}

#[test]
fn default_optimizer_allows_mixed_sizes() {
    let optimizer = Optimizer::default();
    assert!(optimizer.mixed_stock_sizes_allowed());
    assert_eq!(optimizer.cut_width(), 0);
    assert!(optimizer.stock_pieces().is_empty());
}

#[test]
fn builder_setters() {
    let mut optimizer = Optimizer::new();
    assert!(optimizer.mixed_stock_sizes_allowed());
    optimizer.set_cut_width(2).set_random_seed(7).allow_mixed_stock_sizes(false);
    assert_eq!(optimizer.cut_width(), 2);
    assert_eq!(optimizer.random_seed(), 7);
    assert!(!optimizer.mixed_stock_sizes_allowed());
}

fn unit_with<B: Bin>(stock_pieces: &Vec<StockPiece>, pieces: &Vec<CutPieceWithId>, kerf: usize, h: usize) -> OptimizerUnit<B> {
    let heuristics = B::possible_heuristics();
    let mut rng = StdRng::seed_from_u64(1);
    OptimizerUnit::with_heuristic(stock_pieces, pieces, kerf, &heuristics[h], &mut rng)
}

#[test]
fn rotate_to_fit_gives_one_rotated_piece() {
    let mut optimizer = Optimizer::new();
    optimizer.add_stock_piece(stock(10, 11, 0, None)).add_cut_piece(cut(1, 11, 10, true));
    let unit: OptimizerUnit<GuillotineBin> = unit_with(optimizer.stock_pieces(), &demand(&optimizer), 1, 0);
    let (results, price) = match unit_layout(unit) {
        Ok(layout) => layout,
        Err(_) => panic!("the piece fits once turned"),
    };
    assert_eq!(price, 0);
    assert_eq!(results.len(), 1);
    assert_eq!(results[0].cut_pieces.len(), 1);
    let p = &results[0].cut_pieces[0];
    assert_eq!((p.x, p.y, p.width, p.length, p.is_rotated), (0, 0, 10, 11, true));
}

#[test]
fn rotate_blocked_gives_no_fit() {
    let mut optimizer = Optimizer::new();
    optimizer.add_stock_piece(stock(10, 11, 0, None)).add_cut_piece(cut(1, 11, 10, false));
    let unit: OptimizerUnit<GuillotineBin> = unit_with(optimizer.stock_pieces(), &demand(&optimizer), 1, 0);
    match unit_layout(unit) {
        Err(Error::NoFitForCutPiece(p)) => {
            assert_eq!((p.quantity, p.width, p.length, p.can_rotate), (1, 11, 10, false));
        }
        Ok(_) => panic!("should have returned Error::NoFitForCutPiece"),
    }
}

#[test]
fn pattern_mismatch_gives_no_fit() {
    let mut optimizer = Optimizer::new();
    optimizer.add_stock_piece(stock(100, 100, 0, None)).add_cut_piece(CutPiece {
        quantity: 1,
        external_id: Some(1),
        width: 11,
        length: 10,
        pattern_direction: PatternDirection::ParallelToWidth,
        can_rotate: true,
    });
    let unit: OptimizerUnit<MaxRectsBin> = unit_with(optimizer.stock_pieces(), &demand(&optimizer), 1, 0);
    assert!(matches!(unit_layout(unit), Err(Error::NoFitForCutPiece(_))));
}

#[test]
fn quantity_cap_gives_no_fit() {
    let mut optimizer = Optimizer::new();
    optimizer.add_stock_piece(stock(48, 96, 0, Some(1))).add_cut_piece(cut(2, 48, 96, false));
    let unit: OptimizerUnit<GuillotineBin> = unit_with(optimizer.stock_pieces(), &demand(&optimizer), 1, 0);
    assert_eq!(unit.bins.len(), 1);
    assert_eq!(unit.unused_cut_pieces.len(), 1);
    assert!(matches!(unit_layout(unit), Err(Error::NoFitForCutPiece(_))));
}

#[test]
fn cheaper_run_wins_over_fitter_one() {
    // Two 48x96 bins at price 1 each against one 48x120 bin at price 3.
    assert!(!replaces_best(true, true, 2, true, 3, true));
    assert!(replaces_best(true, true, 3, true, 2, false));
}

#[test]
fn fitter_run_wins_at_equal_price() {
    assert!(replaces_best(true, true, 0, true, 0, true));
    assert!(!replaces_best(true, true, 0, true, 0, false));
    assert!(replaces_best(false, false, 0, true, 9, false));
    assert!(replaces_best(true, false, 0, true, 9, true));
}

fn sanity_check(results: &[ResultStockPiece], num_cut_pieces: usize) {
    check_layout(results, num_cut_pieces, true);
}

fn check_layout(results: &[ResultStockPiece], num_cut_pieces: usize, with_waste: bool) {
    assert_eq!(results.iter().map(|sp| sp.cut_pieces.len()).sum::<usize>(), num_cut_pieces);
    for sp in results {
        let cut_area: usize = sp.cut_pieces.iter().map(|cp| cp.width * cp.length).sum();
        let waste_area: usize = if with_waste { sp.waste_pieces.iter().map(|wp| wp.width * wp.length).sum() } else { 0 };
        assert!(sp.width * sp.length >= cut_area + waste_area);
        let waste: Vec<Rect> = if with_waste { sp.waste_pieces.clone() } else { Vec::new() };
        let rects: Vec<Rect> = sp.cut_pieces.iter().map(|cp| cp.rect()).chain(waste.into_iter()).collect();
        for cp in &sp.cut_pieces {
            assert_eq!(cp.pattern_direction, sp.pattern_direction);
            assert!(cp.x + cp.width <= sp.width && cp.y + cp.length <= sp.length);
        }
        for i in 0..rects.len() {
            for j in i + 1..rects.len() {
                assert!(!rects[j].contains(&rects[i]));
                assert!(!rects[i].contains(&rects[j]));
            }
        }
    }
}

#[test]
fn capacity_thirty_two_squares_fill_one_bin() {
    let mut optimizer = Optimizer::new();
    optimizer.add_stock_piece(stock(48, 96, 0, None)).add_cut_piece(cut(32, 10, 10, false));
    let pieces = demand(&optimizer);
    let mut best = usize::MAX;
    for h in 0..GuillotineBin::possible_heuristics().len() {
        let unit: OptimizerUnit<GuillotineBin> = unit_with(optimizer.stock_pieces(), &pieces, 1, h);
        if let Ok((results, _)) = unit_layout(unit) {
            sanity_check(&results, 32);
            best = best.min(results.len());
        }
    }
    assert_eq!(best, 1);
}

#[test]
fn capacity_sixty_four_squares_fill_two_bins() {
    let mut optimizer = Optimizer::new();
    optimizer.add_stock_piece(stock(48, 96, 0, None)).add_cut_piece(cut(64, 10, 10, false));
    let pieces = demand(&optimizer);
    let mut found = false;
    for h in 0..GuillotineBin::possible_heuristics().len() {
        let unit: OptimizerUnit<GuillotineBin> = unit_with(optimizer.stock_pieces(), &pieces, 1, h);
        if let Ok((results, _)) = unit_layout(unit) {
            sanity_check(&results, 64);
            if results.len() == 2 && results[0].cut_pieces.len() == 32 && results[1].cut_pieces.len() == 32 {
                found = true;
            }
        }
    }
    assert!(found);
}

#[test]
fn nested_layouts_are_sane() {
    let mut optimizer = Optimizer::new();
    optimizer
        .add_stock_piece(stock(48, 96, 0, None))
        .add_stock_piece(stock(48, 120, 0, None))
        .add_cut_pieces(vec![cut(1, 10, 30, true), cut(1, 20, 30, true), cut(1, 30, 30, true), cut(1, 40, 30, true)]);
    for h in 0..MaxRectsBin::possible_heuristics().len() {
        let unit: OptimizerUnit<MaxRectsBin> = unit_with(optimizer.stock_pieces(), &demand(&optimizer), 1, h);
        match unit_layout(unit) {
            Ok((results, _)) => check_layout(&results, 4, false),
            Err(_) => panic!("every piece fits"),
        }
    }
}

#[test]
fn single_size_runs_use_that_size_only() {
    let mut optimizer = Optimizer::new();
    optimizer
        .add_stock_piece(stock(48, 96, 0, None))
        .add_stock_piece(stock(48, 120, 0, None))
        .add_cut_piece(cut(2, 48, 50, false));
    let sizes = distinct_sizes(optimizer.stock_pieces());
    assert_eq!(sizes, vec![(48, 96), (48, 120)]);
    for (w, l) in sizes {
        let only = stock_pieces_of_size(optimizer.stock_pieces(), w, l);
        assert_eq!(only.len(), 1);
        let unit: OptimizerUnit<GuillotineBin> = unit_with(&only, &demand(&optimizer), 1, 0);
        let (results, _) = unit_layout(unit).ok().unwrap();
        for sp in &results {
            assert_eq!((sp.width, sp.length), (w, l));
        }
    }
}

#[test]
fn stock_cap_is_respected_by_units() {
    let stock_pieces = vec![stock(48, 96, 0, Some(2)), stock(64, 192, 0, Some(1))];
    let mut optimizer = Optimizer::new();
    optimizer.add_stock_pieces(stock_pieces).add_cut_piece(cut(4, 48, 96, false));
    let unit: OptimizerUnit<GuillotineBin> = unit_with(optimizer.stock_pieces(), &demand(&optimizer), 0, 0);
    let small = unit.bins.iter().filter(|b| b.width == 48).count();
    let large = unit.bins.iter().filter(|b| b.width == 64).count();
    assert!(small <= 2 && large <= 1);
    assert_eq!(unit.unused_cut_pieces.len() + unit.bins.iter().map(|b| b.cut_pieces().len()).sum::<usize>(), 4);
}

#[test]
fn initial_unit_counts() {
    assert_eq!(initial_unit_count(2, 1, 36, 0), 36);
    assert_eq!(initial_unit_count(30, 1, 36, 20), 108);
    assert_eq!(initial_unit_count(1000, 3, 10, 333), 353);
}

#[test]
fn unique_shape_count() {
    let mut optimizer = Optimizer::new();
    optimizer.add_cut_pieces(vec![cut(3, 10, 20, true), cut(2, 10, 20, false), cut(1, 10, 20, true)]);
    assert_eq!(unique_shapes(&demand(&optimizer)), 2);
}

#[test]
fn initial_units_and_determinism() {
    let mut optimizer = Optimizer::new();
    optimizer
        .add_stock_piece(stock(48, 96, 0, None))
        .add_cut_pieces(vec![cut(5, 12, 30, true), cut(4, 20, 7, true), cut(3, 40, 30, false)]);
    let make = || -> Vec<OptimizerUnit<GuillotineBin>> {
        generate_initial_units(optimizer.stock_pieces(), demand(&optimizer), 1, 1, 5)
    };
    let a = make();
    let b = make();
    assert_eq!(a.len(), 108);
    assert_eq!(b.len(), 108);
    for (x, y) in a.into_iter().zip(b.into_iter()) {
        let (rx, _) = unit_layout(x).ok().unwrap();
        let (ry, _) = unit_layout(y).ok().unwrap();
        assert_eq!(format!("{:?}", rx), format!("{:?}", ry));
        sanity_check(&rx, 12);
    }
}

#[test]
fn breeding_keeps_the_population_size() {
    let mut optimizer = Optimizer::new();
    optimizer
        .add_stock_piece(stock(48, 96, 0, Some(3)))
        .add_stock_piece(stock(48, 120, 0, None))
        .add_cut_pieces(vec![cut(6, 20, 40, true), cut(5, 30, 10, true)]);
    let units: Vec<OptimizerUnit<MaxRectsBin>> = generate_initial_units(optimizer.stock_pieces(), demand(&optimizer), 1, 3, 4);
    let n = units.len();
    let mut population = Population::new(units);
    population.set_size(n).set_rand_seed(3).set_breed_factor(50).set_survival_factor(60);
    let units = population.finish();
    assert_eq!(n, 30);
    let fittest = format!("{:?}", unit_layout(units[n - 1].copy_unit()).ok().unwrap().0);
    let mut rng = StdRng::seed_from_u64(3);
    let next = population.epoch(units, &mut rng);
    assert_eq!(next.len(), n);
    // Fifteen breed and nine of them survive, fittest first, after the children.
    let survivor = next.into_iter().nth(n - 9).unwrap();
    assert_eq!(format!("{:?}", unit_layout(survivor).ok().unwrap().0), fittest);
}

#[test]
fn results_sort_by_descending_size() {
    let make = |w: usize, l: usize, price: usize| ResultStockPiece {
        width: w,
        length: l,
        pattern_direction: PatternDirection::NoPattern,
        cut_pieces: Vec::new(),
        waste_pieces: Vec::new(),
        price,
    };
    let mut results = vec![make(48, 96, 0), make(48, 120, 1), make(64, 10, 2), make(48, 120, 3)];
    sort_results(&mut results);
    let order: Vec<(usize, usize, usize)> = results.iter().map(|r| (r.width, r.length, r.price)).collect();
    assert_eq!(order, vec![(64, 10, 2), (48, 120, 1), (48, 120, 3), (48, 96, 0)]);
}

#[test]
fn crossover_children_stay_within_stock() {
    let mut optimizer = Optimizer::new();
    optimizer
        .add_stock_piece(stock(48, 96, 0, Some(4)))
        .add_cut_pieces(vec![cut(6, 40, 40, false), cut(4, 20, 20, false)]);
    let a: OptimizerUnit<GuillotineBin> = unit_with(optimizer.stock_pieces(), &demand(&optimizer), 1, 0);
    let b: OptimizerUnit<GuillotineBin> = unit_with(optimizer.stock_pieces(), &demand(&optimizer), 1, 20);
    let mut rng = StdRng::seed_from_u64(9);
    for _ in 0..20 {
        let child = a.breed_with(&b, &mut rng);
        assert!(child.bins.len() <= 4);
        for id in 0..10 {
            let placed = child.bins.iter().any(|bin| bin.cut_pieces().iter().any(|p| p.id == id));
            let unused = child.unused_cut_pieces.iter().any(|p| p.id == id);
            assert!(placed || unused);
        }
        for bin in &child.bins {
            assert!(!bin.cut_pieces().is_empty());
        }
    }
}
