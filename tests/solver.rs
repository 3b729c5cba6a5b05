use tri_solitaire::ledger::{score_of, Moves, SENTINEL};
use tri_solitaire::report::{format_moves, format_report};
use tri_solitaire::search::{apply_jump, search_openings, solve_tri_solitair, undo_jump, SolveError};

#[test]
fn size_four_golden_solution() {
    let best = solve_tri_solitair(4).unwrap().unwrap();
    assert_eq!(best.score, 5);
    assert_eq!(
        best.moves,
        vec![(255, 1), (6, 1), (0, 3), (8, 6), (6, 1), (5, 0), (0, 3), (3, 5), (9, 2)]
    );
    assert_eq!(score_of(&best.moves), 5);
    assert_eq!(
        format_report(&best),
        "Score: 5\nMoves: 2, 7-2, 1-4, 9-7-2, 6-1-4-6, 10-3"
    );
}

#[test]
fn size_five_golden_solution() {
    let best = solve_tri_solitair(5).unwrap().unwrap();
    assert_eq!(best.score, 9);
    assert_eq!(
        best.moves,
        vec![
            (255, 3),
            (0, 3),
            (6, 1),
            (5, 0),
            (0, 3),
            (3, 5),
            (9, 2),
            (11, 4),
            (13, 11),
            (10, 12),
            (12, 5),
            (2, 9),
            (14, 5),
            (5, 3)
        ]
    );
    assert_eq!(score_of(&best.moves), 9);
}

#[test]
fn golden_solution_empties_board_to_one_peg() {
    let best = solve_tri_solitair(4).unwrap().unwrap();
    let table = tri_solitaire::table::build_move_table(4);
    let mut pegs = vec![true; 10];
    pegs[best.moves[0].1 as usize] = false;
    for (src, dst) in &best.moves[1..] {
        let (mid, _) = *table[*src as usize].iter().find(|(_, l)| l == dst).unwrap();
        assert!(pegs[*src as usize] && pegs[mid as usize] && !pegs[*dst as usize]);
        apply_jump(&mut pegs, *src as usize, mid as usize, *dst as usize);
    }
    assert_eq!(pegs.iter().filter(|p| **p).count(), 1);
}

#[test]
fn pruning_keeps_best_score_on_size_four() {
    let openings = vec![0u8, 1, 4];
    let pruned = search_openings(4, &openings, true).unwrap();
    let full = search_openings(4, &openings, false).unwrap();
    assert_eq!(pruned.score, full.score);
    assert_eq!(pruned.score, 5);
}

#[test]
fn small_sizes_have_no_solution() {
    for side in 0..4u8 {
        assert!(solve_tri_solitair(side).unwrap().is_none());
    }
}

#[test]
fn unsupported_size_is_refused() {
    assert_eq!(solve_tri_solitair(6).err(), Some(SolveError::UnsupportedSize(6)));
    assert_eq!(solve_tri_solitair(22).err(), Some(SolveError::UnsupportedSize(22)));
}

#[test]
fn apply_then_undo_restores_board_and_ledger() {
    let mut pegs = vec![true; 10];
    pegs[0] = false;
    let before = pegs.clone();
    let mut ledger = Moves::opening(0);
    apply_jump(&mut pegs, 3, 1, 0);
    assert_eq!(pegs, vec![true, false, true, false, true, true, true, true, true, true]);
    let cost = ledger.push_jump(3, 0);
    assert_eq!(cost, 1);
    assert_eq!(ledger.score, 1);
    assert_eq!(ledger.moves.len(), 2);
    undo_jump(&mut pegs, 3, 1, 0);
    ledger.pop_jump();
    assert_eq!(pegs, before);
    assert_eq!(ledger.score, 0);
    assert_eq!(ledger.moves, vec![(SENTINEL, 0)]);
}

#[test]
fn three_chained_jumps_score_one() {
    assert_eq!(score_of(&[(SENTINEL, 4), (0, 2), (2, 5), (5, 3)]), 1);
    let mut ledger = Moves::opening(4);
    assert_eq!(ledger.push_jump(0, 2), 1);
    assert_eq!(ledger.push_jump(2, 5), 0);
    assert_eq!(ledger.push_jump(5, 3), 0);
    assert_eq!(ledger.score, 1);
    assert_eq!(ledger.push_jump(7, 1), 1);
    assert_eq!(ledger.score, 2);
}

#[test]
fn jump_after_opening_always_costs_one() {
    let ledger = Moves::opening(0);
    assert_eq!(ledger.cost_of(0), 1);
    assert_eq!(score_of(&[(SENTINEL, 0), (0, 2)]), 1);
    assert_eq!(score_of(&[]), 0);
    assert_eq!(Moves::new().score, 0);
}

#[test]
fn formatter_chains_same_peg_jumps() {
    assert_eq!(format_moves(&vec![(SENTINEL, 0), (0, 2), (2, 5)]), "1-3-6");
    assert_eq!(format_moves(&vec![(SENTINEL, 0), (3, 0), (5, 3)]), "1, 4-1, 6-4");
    assert_eq!(format_moves(&vec![]), "");
}

#[test]
fn report_shows_score_and_moves() {
    let ledger = Moves { score: 12, moves: vec![(SENTINEL, 252), (10, 11)] };
    assert_eq!(format_report(&ledger), "Score: 12\nMoves: 253, 11-12");
}

#[test]
fn boards_without_jumps_have_no_solution() {
    assert!(search_openings(1, &vec![0], true).is_none());
    assert!(search_openings(0, &vec![], false).is_none());
    assert!(search_openings(2, &vec![0, 1, 2], true).is_none());
    assert!(search_openings(3, &vec![0, 1, 2, 3, 4, 5], true).is_none());
}

#[test]
fn single_opening_searches_agree_with_full_search() {
    let from_one = search_openings(4, &vec![1], true).unwrap();
    assert_eq!(from_one.score, 5);
    assert_eq!(from_one.moves[0], (SENTINEL, 1));
    assert!(search_openings(4, &vec![4], false).is_none());
}
