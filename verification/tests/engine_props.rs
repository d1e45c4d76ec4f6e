use tetris::config::{Config, Scoring, Randomness};
use tetris::model::{Point, Field, try_shape, rotate, GameState, Action};
use tetris::tetrimino::{tetrimino, tetriminoes, color_from_str, Style};

fn occupied(cells: &Vec<Vec<u8>>) -> usize {
    cells.iter().map(|row| row.iter().filter(|c| **c != 0).count()).sum()
}

#[test]
fn test_rotation_period_four() {
    // rotate(piece, r) == rotate(piece, r + 4), negatives included
    for t in tetriminoes().iter() {
        for r in -8i8..8i8 {
            assert_eq!(rotate(t, r), rotate(t, r + 4));
        }
    }
}

#[test]
fn test_rotation_negative_resolves() {
    for t in tetriminoes().iter() {
        assert_eq!(rotate(t, -3), rotate(t, 1));
        assert_eq!(rotate(t, -1), rotate(t, 3));
        assert_eq!(rotate(t, 0), rotate(t, -4));
    }
}

#[test]
fn test_rotate_golden_s() {
    let s = tetrimino(3);
    let expected = vec![Point(0, 1), Point(1, 1), Point(-1, 0), Point(0, 0)];
    assert_eq!(rotate(&s, 1), expected);
}

#[test]
fn test_try_shape_pure() {
    let field = Field {
        cells: vec![
            vec![0, 0, 0, 0],
            vec![0, 0, 0, 0],
            vec![0, 0, 0, 0],
            vec![0, 2, 2, 0],
        ],
        height: 4,
        width: 4,
    };
    let before = field.clone();
    let piece_t = tetrimino(2);
    let first = try_shape(&field, &Point(1, 1), 2, &piece_t);
    let second = try_shape(&field, &Point(1, 1), 2, &piece_t);
    assert_eq!(first, second);
    assert_eq!(field, before);
}

#[test]
fn test_burn_no_full_rows_is_noop() {
    let field = Field {
        cells: vec![
            vec![0, 0, 0, 0],
            vec![1, 0, 1, 0],
            vec![1, 1, 1, 0],
            vec![0, 1, 1, 1],
        ],
        height: 4,
        width: 4,
    };
    let mut gs = GameState::initial(4, 4, Default::default(), Some(2));
    gs.field = field.clone();
    let score_before = gs.score;
    let burnt = gs.burn_lines();
    assert_eq!(burnt, 0);
    assert_eq!(gs.field.cells, field.cells);
    // BurnOnly still awards its flat 1 per lock event
    assert_eq!(gs.score, score_before + 1);
}

#[test]
fn test_burn_removes_lines_times_width_cells() {
    let field = Field {
        cells: vec![
            vec![0, 1, 0, 0],
            vec![1, 1, 1, 1],
            vec![2, 0, 0, 2],
            vec![3, 3, 3, 3],
        ],
        height: 4,
        width: 4,
    };
    let config = Config { scoring: Scoring::PieceAndBurn, randomness: Randomness::JustRandom };
    let mut gs = GameState::initial(4, 4, config, Some(11));
    gs.field = field;
    let occupied_before = occupied(&gs.field.cells);
    let score_before = gs.score;
    let burnt = gs.burn_lines();
    assert_eq!(burnt, 2);
    assert_eq!(occupied(&gs.field.cells), occupied_before - 2 * 4);
    // PieceAndBurn awards 1 + burnt^2 * width
    assert_eq!(gs.score, score_before + 1 + 2 * 2 * 4);
    let expected: Vec<Vec<u8>> = vec![
        vec![0, 0, 0, 0],
        vec![0, 0, 0, 0],
        vec![0, 1, 0, 0],
        vec![2, 0, 0, 2],
    ];
    assert_eq!(gs.field.cells, expected);
}

#[test]
fn test_shuffled_queue_starts_as_permutation() {
    let config = Config { scoring: Scoring::BurnOnly, randomness: Randomness::ShuffledQueue };
    let gs = GameState::initial(20, 10, config, Some(5));
    let mut seen = gs.rng_queue.clone();
    seen.push(gs.curr_shape_idx);
    seen.push(gs.next_shape_idx);
    seen.sort();
    assert_eq!(seen, vec![0, 1, 2, 3, 4, 5, 6]);
}

#[test]
fn test_bag_gives_each_piece_once_per_seven_spawns() {
    let config = Config { scoring: Scoring::BurnOnly, randomness: Randomness::ShuffledQueue };
    for seed in [0u64, 7, 13, 42] {
        let mut gs = GameState::initial(20, 10, config, Some(seed));
        // the indices drawn, in draw order: two at reset, one per spawn
        let mut drawn = vec![gs.curr_shape_idx, gs.next_shape_idx];
        for _ in 0..12 {
            gs.spawn_next_shape();
            assert!(!gs.game_over);
            drawn.push(gs.next_shape_idx);
        }
        for window in drawn.chunks_exact(7) {
            let mut bag: Vec<usize> = window.to_vec();
            bag.sort();
            assert_eq!(bag, vec![0, 1, 2, 3, 4, 5, 6]);
        }
    }
}

#[test]
fn test_same_seed_same_game() {
    let actions = [
        Action::Left,
        Action::Tick,
        Action::RotateCW,
        Action::Down,
        Action::Right,
        Action::HardDrop,
        Action::Tick,
        Action::RotateCCW,
        Action::Left,
        Action::HardDrop,
        Action::Tick,
        Action::Tick,
        Action::HardDrop,
        Action::HardDrop,
    ];
    for config in [
        Config { scoring: Scoring::BurnOnly, randomness: Randomness::JustRandom },
        Config { scoring: Scoring::PieceAndBurn, randomness: Randomness::ShuffledQueue },
    ] {
        let mut a = GameState::initial(8, 6, config, Some(99));
        let mut b = GameState::initial(8, 6, config, Some(99));
        for action in actions.iter() {
            let ra = a.step(*action);
            let rb = b.step(*action);
            assert_eq!(ra, rb);
            assert_eq!(a.field.cells, b.field.cells);
            assert_eq!(a.score, b.score);
            assert_eq!(a.game_over, b.game_over);
            assert_eq!(a.curr_cells, b.curr_cells);
        }
    }
}

#[test]
fn test_rotate_cw_t_piece_unobstructed() {
    // seed 5 spawns a T piece; on an empty field the first kick (no
    // shift) admits the rotation, so the cells are the exact rotation
    // formula's output translated by the spawn anchor
    let mut gs = GameState::initial(10, 10, Default::default(), Some(5));
    assert_eq!(gs.curr_shape_idx, 2);
    assert_eq!(gs.base, Point(1, 5));
    let (burnt, done) = gs.step(Action::RotateCW);
    assert_eq!((burnt, done), (0, false));
    assert_eq!(gs.rotation, 1);
    assert_eq!(gs.base, Point(1, 5));
    let rel = rotate(&tetrimino(2), 1);
    let expected: Vec<Point> = rel.iter().map(|p| Point(p.0 + 1, p.1 + 5)).collect();
    assert_eq!(gs.curr_cells, expected);
}

#[test]
fn test_terminal_is_absorbing() {
    let field = Field {
        cells: vec![
            vec![0, 1, 1, 0],
            vec![1, 1, 1, 1],
            vec![1, 1, 1, 1],
            vec![1, 1, 1, 1],
        ],
        height: 4,
        width: 4,
    };
    let mut gs = GameState::initial(4, 4, Default::default(), Some(3));
    gs.field = field;
    let (_, done) = gs.step(Action::HardDrop);
    assert!(done);
    let snapshot_cells = gs.field.cells.clone();
    let snapshot_score = gs.score;
    for action in [Action::Left, Action::Tick, Action::HardDrop, Action::RotateCW] {
        assert_eq!(gs.step(action), (0, true));
    }
    assert_eq!(gs.field.cells, snapshot_cells);
    assert_eq!(gs.score, snapshot_score);
}

#[test]
fn test_color_from_str_names() {
    assert_eq!(color_from_str("black"), Style::Black);
    assert_eq!(color_from_str("red"), Style::Red);
    assert_eq!(color_from_str("green"), Style::Green);
    assert_eq!(color_from_str("yellow"), Style::Yellow);
    assert_eq!(color_from_str("blue"), Style::Blue);
    assert_eq!(color_from_str("magenta"), Style::Magenta);
    assert_eq!(color_from_str("cyan"), Style::Cyan);
    assert_eq!(color_from_str("white"), Style::White);
}

#[test]
fn test_cloned_game_evolves_identically() {
    let config = Config { scoring: Scoring::BurnOnly, randomness: Randomness::JustRandom };
    let mut a = GameState::initial(10, 8, config, Some(17));
    for action in [Action::Tick, Action::Left, Action::HardDrop] {
        a.step(action);
    }
    let mut b = a.clone();
    for action in [Action::HardDrop, Action::Tick, Action::RotateCW, Action::HardDrop] {
        assert_eq!(a.step(action), b.step(action));
        assert_eq!(a.field.cells, b.field.cells);
        assert_eq!(a.score, b.score);
    }
}
