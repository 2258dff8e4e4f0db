use kalaha::{negamax, negamax_search, new_board, GameState, KalahaState, Player};

fn state_with(to_play: Player, values: [i32; 14]) -> KalahaState {
    let mut board = new_board();
    for i in 0..14 {
        board[i].value = values[i];
    }
    KalahaState {
        to_play,
        board,
        game_state: GameState::Playing,
        last_moves: Vec::new(),
        switched_turn: true,
        turns_played: 0,
    }
}

fn perspective(parent: &KalahaState, child: &KalahaState, value: i32) -> i32 {
    if child.to_play == parent.to_play {
        value
    } else {
        -value
    }
}

fn plain_negamax(s: &KalahaState, depth: u8) -> i32 {
    if depth == 0 || s.game_is_over() {
        return s.evaluate();
    }
    let mut best = -i32::MAX;
    for c in s.generate_move_sequence_results() {
        let v = perspective(s, &c, plain_negamax(&c, depth - 1));
        if v > best {
            best = v;
        }
    }
    best
}

fn first_best(s: &KalahaState, depth: u8) -> (Vec<usize>, i32) {
    let mut best: Option<(Vec<usize>, i32)> = None;
    for c in s.generate_move_sequence_results() {
        let v = perspective(s, &c, plain_negamax(&c, depth - 1));
        let better = match &best {
            None => true,
            Some((_, b)) => v > *b,
        };
        if better {
            best = Some((c.last_moves.clone(), v));
        }
    }
    best.unwrap()
}

fn midgame() -> KalahaState {
    let mut g = KalahaState::new_game();
    g.play_moves(vec![1]);
    g.play_moves(vec![9]);
    g.play_moves(vec![3]);
    g
}

#[test]
fn search_at_depth_zero_only_scores() {
    let g = KalahaState::new_game();
    assert_eq!(negamax_search(&g, 0), (None, 0));
    assert_eq!(negamax(&g, -i32::MAX, i32::MAX, 0), 0);
}

#[test]
fn depth_one_search_picks_best_immediate_outcome() {
    let g = KalahaState::new_game();
    let (moves, score) = negamax_search(&g, 1);
    let mut best: Option<(Vec<usize>, i32)> = None;
    for c in g.generate_move_sequence_results() {
        let v = -c.evaluate();
        if best.as_ref().map_or(true, |(_, b)| v > *b) {
            best = Some((c.last_moves.clone(), v));
        }
    }
    let (best_moves, best_score) = best.unwrap();
    assert_eq!(moves, Some(best_moves));
    assert_eq!(score, best_score);
    assert_eq!(score, 2);
}

#[test]
fn depth_one_search_from_midgame() {
    let g = midgame();
    let (moves, score) = negamax_search(&g, 1);
    let (best_moves, best_score) = first_best(&g, 1);
    assert_eq!(moves, Some(best_moves));
    assert_eq!(score, best_score);
}

#[test]
fn deeper_search_matches_plain_negamax() {
    for depth in 2..=4u8 {
        for g in [KalahaState::new_game(), midgame()] {
            let (moves, score) = negamax_search(&g, depth);
            let (best_moves, best_score) = first_best(&g, depth);
            assert_eq!(score, best_score);
            assert_eq!(score, plain_negamax(&g, depth));
            assert_eq!(moves, Some(best_moves));
        }
    }
}

#[test]
fn negamax_full_window_is_plain_negamax() {
    for depth in 0..=4u8 {
        let g = midgame();
        assert_eq!(negamax(&g, -i32::MAX, i32::MAX, depth), plain_negamax(&g, depth));
    }
}

#[test]
fn negamax_narrow_window_bounds_the_value() {
    let g = midgame();
    let exact = plain_negamax(&g, 3);
    let low = negamax(&g, exact, exact + 5, 3);
    assert!(low <= exact);
    let high = negamax(&g, exact - 5, exact, 3);
    assert!(high >= exact);
    assert_eq!(negamax(&g, exact - 1, exact + 1, 3), exact);
}

#[test]
fn forced_sweep_gives_no_move() {
    let g = state_with(Player::Batal, [1, 0, 2, 0, 0, 0, 33, 0, 0, 0, 0, 0, 0, 36]);
    let (moves, score) = negamax_search(&g, 2);
    assert_eq!(moves, None);
    let mut swept = g.clone();
    swept.play_moves(Vec::new());
    assert_eq!(swept.board[6].value - swept.board[13].value, 0);
    assert_eq!(score, 0);
}

#[test]
fn forced_sweep_scores_the_end() {
    let g = state_with(Player::Batal, [5, 0, 2, 0, 0, 0, 30, 0, 0, 0, 0, 0, 0, 36]);
    let (moves, score) = negamax_search(&g, 2);
    assert_eq!(moves, None);
    assert_eq!(score, -i32::MAX);
}

#[test]
fn search_on_finished_game_gives_its_score() {
    let mut g = state_with(Player::Almuta, [0, 0, 0, 0, 0, 0, 40, 0, 0, 0, 0, 0, 0, 32]);
    g.game_state = GameState::GameOver(Some(Player::Almuta));
    g.turns_played = 30;
    assert_eq!(negamax_search(&g, 3), (None, i32::MAX - 30));
}

#[test]
fn search_finds_a_winning_capture() {
    let g = state_with(Player::Almuta, [1, 0, 0, 1, 0, 0, 30, 0, 6, 0, 0, 0, 0, 34]);
    let (moves, score) = negamax_search(&g, 1);
    assert_eq!(moves, Some(vec![3]));
    assert_eq!(score, i32::MAX - 1);
}

#[test]
fn searched_turn_can_be_played() {
    let mut g = KalahaState::new_game();
    for _ in 0..6 {
        if g.game_is_over() {
            break;
        }
        match negamax_search(&g, 2) {
            (Some(moves), _) => g.play_moves(moves),
            (None, _) => g.play_moves(Vec::new()),
        }
        let total: i32 = g.board.iter().map(|p| p.value).sum();
        assert_eq!(total, 72);
    }
}
