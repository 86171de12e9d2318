use cut_optimizer_2d::{
    common_interval_length, score_by_heuristic, Bin, CutPieceWithId, FreeRectChoiceHeuristic,
    GuillotineBin, MaxRectsBin, MaxRectsChoiceHeuristic, PatternDirection, Rect, ResultCutPiece,
    RotateCutPieceHeuristic, SplitHeuristic, StockPiece,
};

fn four_pieces() -> Vec<CutPieceWithId> {
    (0..4)
        .map(|id| CutPieceWithId {
            id,
            external_id: None,
            width: 10,
            length: 10,
            pattern_direction: PatternDirection::NoPattern,
            can_rotate: false,
        })
        .collect()
}

fn other_stock_pieces() -> Vec<StockPiece> {
    vec![
        StockPiece {
            width: 10,
            length: 96,
            pattern_direction: PatternDirection::NoPattern,
            price: 0,
            quantity: Some(20),
        },
        StockPiece {
            width: 48,
            length: 10,
            pattern_direction: PatternDirection::NoPattern,
            price: 0,
            quantity: Some(20),
        },
        StockPiece {
            width: 48,
            length: 96,
            pattern_direction: PatternDirection::ParallelToLength,
            price: 0,
            quantity: Some(20),
        },
        StockPiece {
            width: 48,
            length: 96,
            pattern_direction: PatternDirection::NoPattern,
            price: 10,
            quantity: Some(20),
        },
    ]
}

fn matching_stock_piece() -> StockPiece {
    StockPiece {
        width: 48,
        length: 96,
        pattern_direction: PatternDirection::NoPattern,
        price: 0,
        quantity: Some(20),
    }
}

#[test]
fn guillotine_remove_cut_pieces() {
    let heuristic = GuillotineBin::possible_heuristics()[0];
    let mut bin = GuillotineBin::new(48, 96, 1, PatternDirection::NoPattern, 0);
    for cut_piece in &four_pieces() {
        bin.insert_cut_piece_with_heuristic(cut_piece, &heuristic);
    }
    assert_eq!(bin.cut_pieces().len(), 4);

    bin.remove_cut_pieces(&vec![1, 3]);

    assert_eq!(bin.cut_pieces().len(), 2);
    assert_eq!(bin.cut_pieces()[0].id, 0);
    assert_eq!(bin.cut_pieces()[1].id, 2);
}

#[test]
fn guillotine_bin_matches_stock_piece() {
    let bin = GuillotineBin::new(48, 96, 1, PatternDirection::NoPattern, 0);
    assert!(bin.matches_stock_piece(&matching_stock_piece()));
}

#[test]
fn guillotine_bin_does_not_match_stock_pieces() {
    let bin = GuillotineBin::new(48, 96, 1, PatternDirection::NoPattern, 0);
    for stock_piece in &other_stock_pieces() {
        assert!(!bin.matches_stock_piece(stock_piece));
    }
}

#[test]
fn maxrects_remove_cut_pieces() {
    let heuristic = MaxRectsBin::possible_heuristics()[0];
    let mut bin = MaxRectsBin::new(48, 96, 1, PatternDirection::NoPattern, 0);
    for cut_piece in &four_pieces() {
        bin.insert_cut_piece_with_heuristic(cut_piece, &heuristic);
    }
    assert_eq!(bin.cut_pieces().len(), 4);

    bin.remove_cut_pieces(&vec![1, 3]);

    assert_eq!(bin.cut_pieces().len(), 2);
    assert_eq!(bin.cut_pieces()[0].id, 0);
    assert_eq!(bin.cut_pieces()[1].id, 2);
}

#[test]
fn maxrects_bin_matches_stock_piece() {
    let bin = MaxRectsBin {
        width: 48,
        length: 96,
        blade_width: 1,
        pattern_direction: PatternDirection::NoPattern,
        cut_pieces: Vec::new(),
        free_rects: Vec::new(),
        price: 0,
    };
    assert!(bin.matches_stock_piece(&matching_stock_piece()));
}

#[test]
fn maxrects_bin_does_not_match_stock_pieces() {
    let bin = MaxRectsBin {
        width: 48,
        length: 96,
        blade_width: 1,
        pattern_direction: PatternDirection::NoPattern,
        cut_pieces: Vec::new(),
        free_rects: Vec::new(),
        price: 0,
    };
    for stock_piece in &other_stock_pieces() {
        assert!(!bin.matches_stock_piece(stock_piece));
    }
}

fn piece(id: usize, width: usize, length: usize, direction: PatternDirection, can_rotate: bool) -> CutPieceWithId {
    CutPieceWithId {
        id,
        external_id: Some(1),
        width,
        length,
        pattern_direction: direction,
        can_rotate,
    }
}

#[test]
fn guillotine_rotates_to_fit() {
    let mut bin = GuillotineBin::new(10, 11, 1, PatternDirection::NoPattern, 0);
    let heuristic = GuillotineBin::possible_heuristics()[0];
    assert!(bin.insert_cut_piece_with_heuristic(&piece(0, 11, 10, PatternDirection::NoPattern, true), &heuristic));
    let result = bin.into_result();
    assert_eq!(result.cut_pieces.len(), 1);
    assert_eq!(
        result.cut_pieces[0],
        ResultCutPiece {
            external_id: Some(1),
            x: 0,
            y: 0,
            width: 10,
            length: 11,
            pattern_direction: PatternDirection::NoPattern,
            is_rotated: true,
        }
    );
}

#[test]
fn nested_rotates_pattern_to_fit() {
    let mut bin = MaxRectsBin::new(10, 11, 1, PatternDirection::ParallelToWidth, 0);
    let heuristic = MaxRectsBin::possible_heuristics()[0];
    assert!(bin.insert_cut_piece_with_heuristic(&piece(0, 11, 10, PatternDirection::ParallelToLength, true), &heuristic));
    let result = bin.into_result();
    assert_eq!(
        result.cut_pieces[0],
        ResultCutPiece {
            external_id: Some(1),
            x: 0,
            y: 0,
            width: 10,
            length: 11,
            pattern_direction: PatternDirection::ParallelToWidth,
            is_rotated: true,
        }
    );
}

#[test]
fn rotation_not_allowed_does_not_fit() {
    let mut bin = GuillotineBin::new(10, 11, 1, PatternDirection::NoPattern, 0);
    let heuristic = GuillotineBin::possible_heuristics()[0];
    assert!(!bin.insert_cut_piece_with_heuristic(&piece(0, 11, 10, PatternDirection::NoPattern, false), &heuristic));
    assert_eq!(bin.cut_pieces().len(), 0);
    let mut nested = MaxRectsBin::new(10, 11, 1, PatternDirection::NoPattern, 0);
    let heuristic = MaxRectsBin::possible_heuristics()[3];
    assert!(!nested.insert_cut_piece_with_heuristic(&piece(0, 11, 10, PatternDirection::NoPattern, false), &heuristic));
}

#[test]
fn mismatched_pattern_does_not_fit() {
    let stock = StockPiece {
        width: 100,
        length: 100,
        pattern_direction: PatternDirection::NoPattern,
        price: 0,
        quantity: None,
    };
    assert!(!stock.fits_cut_piece(&piece(0, 11, 10, PatternDirection::ParallelToWidth, true)));
    assert!(stock.fits_cut_piece(&piece(0, 11, 10, PatternDirection::NoPattern, false)));
}

#[test]
fn fit_classification() {
    let free = Rect { x: 0, y: 0, width: 10, length: 11 };
    let p = piece(0, 11, 10, PatternDirection::NoPattern, true);
    assert!(free.fit_cut_piece(PatternDirection::NoPattern, &p, false).is_rotated());
    let q = piece(0, 10, 11, PatternDirection::NoPattern, true);
    assert!(free.fit_cut_piece(PatternDirection::NoPattern, &q, true).is_upright());
    let small = piece(0, 5, 5, PatternDirection::ParallelToWidth, true);
    assert!(free.fit_cut_piece(PatternDirection::ParallelToLength, &small, false).is_rotated());
    assert!(free.fit_cut_piece(PatternDirection::NoPattern, &small, false).is_none());
}

#[test]
fn guillotine_heuristics_are_enumerated_in_order() {
    let h = GuillotineBin::heuristics();
    assert_eq!(h.len(), 36);
    assert!(h[0] == (FreeRectChoiceHeuristic::BestAreaFit, SplitHeuristic::ShorterLeftoverAxis, RotateCutPieceHeuristic::PreferUpright));
    assert!(h[7] == (FreeRectChoiceHeuristic::BestShortSideFit, SplitHeuristic::LongerLeftoverAxis, RotateCutPieceHeuristic::PreferUpright));
    assert!(h[35] == (FreeRectChoiceHeuristic::BestLongSideFit, SplitHeuristic::LongerAxis, RotateCutPieceHeuristic::PreferRotated));
    assert!(h[18] == (FreeRectChoiceHeuristic::BestAreaFit, SplitHeuristic::ShorterLeftoverAxis, RotateCutPieceHeuristic::PreferRotated));
}

#[test]
fn maxrects_heuristics_are_enumerated_in_order() {
    let h = MaxRectsBin::heuristics();
    assert_eq!(h.len(), 10);
    assert!(h[3] == (MaxRectsChoiceHeuristic::BottomLeftRule, RotateCutPieceHeuristic::PreferUpright));
    assert!(h[9] == (MaxRectsChoiceHeuristic::ContactPointRule, RotateCutPieceHeuristic::PreferRotated));
}

#[test]
fn scores_of_the_choice_rules() {
    let free = Rect { x: 3, y: 7, width: 20, length: 30 };
    assert_eq!(score_by_heuristic(10, 25, &free, FreeRectChoiceHeuristic::BestAreaFit), 350);
    assert_eq!(score_by_heuristic(10, 25, &free, FreeRectChoiceHeuristic::BestShortSideFit), 5);
    assert_eq!(score_by_heuristic(10, 25, &free, FreeRectChoiceHeuristic::BestLongSideFit), 10);
    assert_eq!(score_by_heuristic(10, 25, &free, FreeRectChoiceHeuristic::WorstAreaFit), -350);
    assert_eq!(score_by_heuristic(10, 25, &free, FreeRectChoiceHeuristic::WorstShortSideFit), -5);
    assert_eq!(score_by_heuristic(10, 25, &free, FreeRectChoiceHeuristic::WorstLongSideFit), -10);
    assert_eq!(score_by_heuristic(10, 25, &free, FreeRectChoiceHeuristic::SmallestY), 7);
}

#[test]
fn common_interval_lengths() {
    assert_eq!(common_interval_length(0, 10, 5, 20), 5);
    assert_eq!(common_interval_length(0, 10, 11, 20), 0);
    assert_eq!(common_interval_length(0, 10, 10, 20), 0);
    assert_eq!(common_interval_length(2, 4, 0, 20), 2);
}

#[test]
fn guillotine_split_leaves_two_rects_less_kerf() {
    let mut bin = GuillotineBin::new(48, 96, 1, PatternDirection::NoPattern, 0);
    let heuristic = (FreeRectChoiceHeuristic::BestAreaFit, SplitHeuristic::ShorterAxis, RotateCutPieceHeuristic::PreferUpright);
    assert!(bin.insert_cut_piece_with_heuristic(&piece(0, 10, 20, PatternDirection::NoPattern, false), &heuristic));
    let mut free = bin.free_rects();
    free.sort_by_key(|r| (r.x, r.y));
    assert_eq!(free, vec![
        Rect { x: 0, y: 21, width: 48, length: 75 },
        Rect { x: 11, y: 0, width: 37, length: 20 },
    ]);
}

#[test]
fn guillotine_merges_adjacent_free_rects() {
    let mut bin = GuillotineBin::new(48, 96, 0, PatternDirection::NoPattern, 0);
    let heuristic = (FreeRectChoiceHeuristic::BestAreaFit, SplitHeuristic::ShorterAxis, RotateCutPieceHeuristic::PreferUpright);
    assert!(bin.insert_cut_piece_with_heuristic(&piece(0, 48, 10, PatternDirection::NoPattern, false), &heuristic));
    assert_eq!(bin.remove_cut_pieces(&vec![0]), 1);
    assert_eq!(bin.free_rects(), vec![Rect { x: 0, y: 0, width: 48, length: 96 }]);
}

#[test]
fn maxrects_contact_score_counts_edges_and_neighbours() {
    let mut bin = MaxRectsBin::new(48, 96, 0, PatternDirection::NoPattern, 0);
    let heuristic = (MaxRectsChoiceHeuristic::BottomLeftRule, RotateCutPieceHeuristic::PreferUpright);
    assert!(bin.insert_cut_piece_with_heuristic(&piece(0, 10, 10, PatternDirection::NoPattern, false), &heuristic));
    // A 10 by 10 square to its right touches the bottom edge (10) and the placed piece (10).
    assert_eq!(bin.contact_point_score(10, 0, 10, 10), 20);
    // One in the corner touches the left and bottom edges.
    assert_eq!(bin.contact_point_score(0, 20, 10, 10), 10);
}

fn overlaps(a: &Rect, b: &Rect) -> bool {
    a.x < b.x + b.width && b.x < a.x + a.width && a.y < b.y + b.length && b.y < a.y + a.length
}

#[test]
fn nested_pieces_never_overlap() {
    for kerf in [0usize, 2] {
        for (h, heuristic) in MaxRectsBin::possible_heuristics().iter().enumerate() {
            let mut bin = MaxRectsBin::new(48, 96, kerf, PatternDirection::NoPattern, 0);
            let sizes = [(20, 30), (10, 10), (15, 40), (5, 60), (25, 25), (8, 12), (30, 9), (11, 11)];
            for (id, (w, l)) in sizes.iter().cycle().take(24).enumerate() {
                bin.insert_cut_piece_with_heuristic(&piece(id, *w, *l, PatternDirection::NoPattern, true), heuristic);
            }
            let pieces = bin.cut_pieces();
            assert!(pieces.len() >= 6, "heuristic {} placed too few", h);
            for i in 0..pieces.len() {
                for j in 0..pieces.len() {
                    if i != j {
                        let a = pieces[i].rect;
                        let grown = Rect {
                            x: a.x.saturating_sub(kerf),
                            y: a.y.saturating_sub(kerf),
                            width: (a.x + a.width + kerf).min(48) - a.x.saturating_sub(kerf),
                            length: (a.y + a.length + kerf).min(96) - a.y.saturating_sub(kerf),
                        };
                        assert!(!overlaps(&grown, &pieces[j].rect));
                    }
                }
            }
        }
    }
}

fn grown(a: &Rect, kerf: usize, width: usize, length: usize) -> Rect {
    Rect {
        x: a.x.saturating_sub(kerf),
        y: a.y.saturating_sub(kerf),
        width: (a.x + a.width + kerf).min(width) - a.x.saturating_sub(kerf),
        length: (a.y + a.length + kerf).min(length) - a.y.saturating_sub(kerf),
    }
}

#[test]
fn guillotine_layout_stays_apart() {
    for kerf in [0usize, 1, 3] {
        for (h, heuristic) in GuillotineBin::possible_heuristics().iter().enumerate() {
            let mut bin = GuillotineBin::new(48, 96, kerf, PatternDirection::NoPattern, 0);
            let sizes = [(20, 30), (10, 10), (15, 40), (5, 60), (25, 25), (8, 12), (30, 9), (11, 11)];
            for (id, (w, l)) in sizes.iter().cycle().take(20).enumerate() {
                bin.insert_cut_piece_with_heuristic(&piece(id, *w, *l, PatternDirection::NoPattern, true), heuristic);
            }
            bin.remove_cut_pieces(&vec![1, 4, 7]);
            for (id, (w, l)) in sizes.iter().cycle().take(6).enumerate() {
                bin.insert_cut_piece_with_heuristic(&piece(100 + id, *w, *l, PatternDirection::NoPattern, true), heuristic);
            }
            let pieces: Vec<Rect> = bin.cut_pieces().iter().map(|p| p.rect).collect();
            let free = bin.free_rects();
            assert!(pieces.len() >= 6, "heuristic {} placed too few", h);
            let all: Vec<Rect> = pieces.iter().cloned().chain(free.iter().cloned()).collect();
            for i in 0..all.len() {
                for j in 0..all.len() {
                    assert!(i == j || !overlaps(&grown(&all[i], kerf, 48, 96), &all[j]));
                }
            }
            let used: usize = pieces.iter().map(|r| r.width * r.length).sum();
            let waste: usize = free.iter().map(|r| r.width * r.length).sum();
            assert!(used + waste <= 48 * 96);
        }
    }
}
