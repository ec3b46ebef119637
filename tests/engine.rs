use naughts_crosses::board::{Board, Mark};
use naughts_crosses::cache::ScoreCache;
use naughts_crosses::meta::MetaBoard;
use naughts_crosses::score::{BOT_DEPTH, OPENING_DEPTH, PLAYER_MOVE_DEPTH};
use naughts_crosses::verdict::Verdict;

const X: Mark = Mark::FirstPlayer;
const O: Mark = Mark::SecondPlayer;
const E: Mark = Mark::Empty;
const D: Mark = Mark::Dead;

fn board(rows: [[Mark; 3]; 3]) -> Board {
    Board::from_rows(rows)
}

fn lone_second(k: usize) -> Board {
    let mut b = Board::blanks();
    b.set_cell(k / 3, k % 3, O);
    b
}

#[test]
fn line_of_second_scores_ten_to_the_depth() {
    let mut cache = ScoreCache::new();
    let b = board([[O, O, O], [X, X, E], [E, E, E]]);
    assert_eq!(b.score(1, &mut cache), 10);
    assert_eq!(b.score(3, &mut cache), 1000);
    assert_eq!(b.score(6, &mut cache), 1_000_000);
}

#[test]
fn line_of_first_scores_minus_ten_to_the_depth() {
    let mut cache = ScoreCache::new();
    let b = board([[X, O, E], [X, O, E], [X, E, D]]);
    assert_eq!(b.score(1, &mut cache), -10);
    assert_eq!(b.score(4, &mut cache), -10_000);
    let diag = board([[E, E, X], [O, X, O], [X, E, E]]);
    assert_eq!(diag.score(2, &mut cache), -100);
}

#[test]
fn depth_zero_scores_zero() {
    let mut cache = ScoreCache::new();
    let boards = [
        Board::blanks(),
        board([[O, O, O], [E, E, E], [E, E, E]]),
        board([[X, X, X], [E, E, E], [E, E, E]]),
        lone_second(4),
    ];
    for b in boards.iter() {
        assert_eq!(b.score(0, &mut cache), 0);
    }
    assert_eq!(cache.len(), 0);
}

#[test]
fn repeated_score_is_served_from_cache() {
    let mut cache = ScoreCache::new();
    let b = board([[X, E, E], [E, O, E], [E, E, E]]);
    let first = b.score(PLAYER_MOVE_DEPTH, &mut cache);
    let size = cache.len();
    assert!(size > 0);
    let second = b.score(PLAYER_MOVE_DEPTH, &mut cache);
    assert_eq!(first, second);
    assert_eq!(cache.len(), size);
}

#[test]
fn scores_sum_over_continuations() {
    let mut cache = ScoreCache::new();
    assert_eq!(board([[X, E, E], [E, E, E], [E, E, E]]).score(4, &mut cache), -360);
    assert_eq!(board([[O, X, X], [E, O, E], [E, E, E]]).score(3, &mut cache), 100);
    assert_eq!(Board::blanks().score(3, &mut cache), 0);
}

#[test]
fn single_second_mark_scores_at_depth_six() {
    let mut cache = ScoreCache::new();
    let expected: [i64; 9] = [12480, 5280, 12480, 5280, 19680, 5280, 12480, 5280, 12480];
    for k in 0..9 {
        assert_eq!(lone_second(k).score(PLAYER_MOVE_DEPTH, &mut cache), expected[k]);
    }
}

#[test]
fn opening_table_matches_full_search() {
    let expected: [i64; 9] = [3600, 2400, 3600, 2400, 4800, 2400, 3600, 2400, 3600];
    for k in 0..9 {
        let mut cache = ScoreCache::new();
        let b = lone_second(k);
        let table = b.score(OPENING_DEPTH, &mut cache);
        assert_eq!(table, expected[k]);
        let mut searched: i64 = 0;
        for j in 0..9 {
            if j != k {
                let mut next = b;
                next.set_cell(j / 3, j % 3, O);
                searched += next.score(OPENING_DEPTH - 1, &mut cache);
            }
        }
        assert_eq!(table, searched);
    }
}

#[test]
fn classify_line_of_second() {
    let mut cache = ScoreCache::new();
    let b = board([[O, O, O], [E, E, E], [E, E, E]]);
    assert_eq!(b.classify(&mut cache), Verdict::WonSecond);
}

#[test]
fn classify_line_of_first() {
    let mut cache = ScoreCache::new();
    let b = board([[X, O, O], [E, X, E], [E, E, X]]);
    assert_eq!(b.classify(&mut cache), Verdict::WonFirst);
}

#[test]
fn classify_full_board_without_line_is_dead() {
    let mut cache = ScoreCache::new();
    let b = board([[X, O, X], [O, X, O], [O, X, O]]);
    assert_eq!(b.classify(&mut cache), Verdict::Dead);
}

#[test]
fn classify_near_full_board() {
    let mut cache = ScoreCache::new();
    // Two empty cells, but the first player completes a line in one of them.
    let open = board([[X, O, X], [O, X, O], [O, E, E]]);
    assert_eq!(open.classify(&mut cache), Verdict::InProgress);
    // Two empty cells, and neither completes a line for the first player.
    let dead = board([[X, O, X], [X, O, O], [O, E, E]]);
    assert_eq!(dead.classify(&mut cache), Verdict::Dead);
}

#[test]
fn classify_in_progress() {
    let mut cache = ScoreCache::new();
    assert_eq!(Board::blanks().classify(&mut cache), Verdict::InProgress);
    let b = board([[X, E, E], [E, O, E], [E, E, E]]);
    assert_eq!(b.classify(&mut cache), Verdict::InProgress);
}

#[test]
fn verdicts_are_exclusive() {
    let mut cache = ScoreCache::new();
    let boards = [
        board([[O, O, O], [E, E, E], [E, E, E]]),
        board([[X, X, X], [E, E, E], [E, E, E]]),
        board([[X, O, X], [O, X, O], [O, X, O]]),
        Board::blanks(),
    ];
    let verdicts: Vec<Verdict> = boards.iter().map(|b| b.classify(&mut cache)).collect();
    assert_eq!(
        verdicts,
        vec![Verdict::WonSecond, Verdict::WonFirst, Verdict::Dead, Verdict::InProgress]
    );
}

#[test]
fn select_move_on_blank_places_one_mark() {
    let mut cache = ScoreCache::new();
    let mut b = Board::blanks();
    b.select_move(PLAYER_MOVE_DEPTH, &mut cache);
    let cells = b.flatten();
    assert_eq!(cells.iter().filter(|m| **m == O).count(), 1);
    assert_eq!(cells.iter().filter(|m| **m == E).count(), 8);
    assert_eq!(b.cell_at(1, 1), O);
}

#[test]
fn select_move_keeps_occupied_cells() {
    let mut cache = ScoreCache::new();
    let before = board([[X, O, E], [E, X, E], [O, E, E]]);
    let mut after = before;
    after.select_move(PLAYER_MOVE_DEPTH, &mut cache);
    let (b, a) = (before.flatten(), after.flatten());
    let changed: Vec<usize> = (0..9).filter(|&i| b[i] != a[i]).collect();
    assert_eq!(changed.len(), 1);
    assert_eq!(b[changed[0]], E);
    assert_eq!(a[changed[0]], O);
    // The second player blocks the first player's diagonal.
    assert_eq!(a[8], O);
}

#[test]
fn select_move_on_full_board_does_nothing() {
    let mut cache = ScoreCache::new();
    let full = board([[X, O, X], [O, X, O], [O, X, O]]);
    let mut b = full;
    b.select_move(PLAYER_MOVE_DEPTH, &mut cache);
    assert_eq!(b.flatten(), full.flatten());
}

#[test]
fn reply_to_opening_is_in_progress() {
    let mut cache = ScoreCache::new();
    let mut b = Board::blanks();
    b.set_cell(0, 0, X);
    assert_eq!(b.flatten(), board([[X, E, E], [E, E, E], [E, E, E]]).flatten());
    b.select_move(PLAYER_MOVE_DEPTH, &mut cache);
    assert_eq!(b.flatten(), board([[X, E, E], [E, O, E], [E, E, E]]).flatten());
    assert_eq!(b.classify(&mut cache), Verdict::InProgress);
}

#[test]
fn board_access() {
    let mut b = Board::blanks();
    assert_eq!(b.empty_count(), 9);
    b.set_cell(2, 1, X);
    b.set_cell(0, 2, D);
    assert_eq!(b.cell_at(2, 1), X);
    assert_eq!(b.cell_at(0, 2), D);
    assert_eq!(b.flatten()[7], X);
    assert_eq!(b.empty_count(), 7);
    assert_eq!(b.winning_line(), None);
    let won = board([[E, E, O], [E, O, E], [O, E, E]]);
    assert_eq!(won.winning_line(), Some(O));
}

#[test]
fn glyphs_and_verdict_marks() {
    assert_eq!(X.glyph(), 'X');
    assert_eq!(O.glyph(), 'O');
    assert_eq!(E.glyph(), '.');
    assert_eq!(D.glyph(), ' ');
    assert_eq!(Verdict::WonFirst.to_mark(), X);
    assert_eq!(Verdict::WonSecond.to_mark(), O);
    assert_eq!(Verdict::Dead.to_mark(), D);
    assert_eq!(Verdict::InProgress.to_mark(), E);
}

#[test]
fn nine_boards_won_by_first_compose_to_won_by_first() {
    let mut cache = ScoreCache::new();
    let won = board([[X, X, X], [O, O, E], [E, E, E]]);
    let meta = MetaBoard { boards: [won; 9] };
    let composed = meta.compose(&mut cache);
    assert_eq!(composed.flatten(), [X; 9]);
    assert_eq!(composed.classify(&mut cache), Verdict::WonFirst);
}

#[test]
fn compose_maps_each_verdict() {
    let mut cache = ScoreCache::new();
    let mut meta = MetaBoard::blank();
    meta.boards[0] = board([[X, X, X], [O, O, E], [E, E, E]]);
    meta.boards[4] = board([[O, E, X], [O, X, E], [O, E, E]]);
    meta.boards[8] = board([[X, O, X], [O, X, O], [O, X, O]]);
    let composed = meta.compose(&mut cache);
    assert_eq!(composed.flatten(), [X, E, E, E, O, E, E, E, D]);
}

#[test]
fn meta_move_goes_to_picked_sub_board() {
    let mut cache = ScoreCache::new();
    let mut meta = MetaBoard::blank();
    meta.set_cell(0, 0, 0, X);
    assert_eq!(meta.sub_board(0).cell_at(0, 0), X);
    meta.select_move(PLAYER_MOVE_DEPTH, &mut cache);
    // On the composed board every cell is empty, so the centre sub-board
    // gets the move, and there the centre cell.
    let centre = meta.sub_board(4);
    assert_eq!(centre.flatten(), board([[E, E, E], [E, O, E], [E, E, E]]).flatten());
    assert_eq!(meta.sub_board(0).flatten(), board([[X, E, E], [E, E, E], [E, E, E]]).flatten());
    for i in [1, 2, 3, 5, 6, 7, 8] {
        assert_eq!(meta.sub_board(i).empty_count(), 9);
    }
}

#[test]
fn meta_move_when_decided_does_nothing() {
    let mut cache = ScoreCache::new();
    let won = board([[X, X, X], [O, O, E], [E, E, E]]);
    let mut meta = MetaBoard { boards: [won; 9] };
    meta.select_move(PLAYER_MOVE_DEPTH, &mut cache);
    for i in 0..9 {
        assert_eq!(meta.sub_board(i).flatten(), won.flatten());
    }
}

#[test]
fn deep_search_is_deterministic() {
    let mut fresh = ScoreCache::new();
    let mut warm = ScoreCache::new();
    let b = board([[X, E, E], [E, E, E], [E, E, O]]);
    let _ = Board::blanks().score(BOT_DEPTH, &mut warm);
    assert_eq!(b.score(BOT_DEPTH, &mut fresh), b.score(BOT_DEPTH, &mut warm));
}
