use kalaha::{new_board, GameState, KalahaState, Pit, PitKind, Player};

fn state_with(to_play: Player, values: [i32; 14]) -> KalahaState {
    let mut board = new_board();
    for i in 0..14 {
        board[i].value = values[i];
    }
    KalahaState {
        to_play,
        board,
        game_state: GameState::Playing,
        last_moves: Vec::new(),
        switched_turn: true,
        turns_played: 0,
    }
}

fn values(s: &KalahaState) -> Vec<i32> {
    s.board.iter().map(|p| p.value).collect()
}

fn seed_sum(s: &KalahaState) -> i32 {
    s.board.iter().map(|p| p.value).sum()
}

#[test]
fn pit_new_fills_fields_only() {
    assert_eq!(Pit::new(PitKind::AlmutaPit), Pit { value: 6, kind: PitKind::AlmutaPit });
    assert_eq!(Pit::new(PitKind::BatalPit), Pit { value: 6, kind: PitKind::BatalPit });
    assert_eq!(Pit::new(PitKind::AlmutaStash), Pit { value: 0, kind: PitKind::AlmutaStash });
    assert_eq!(Pit::new(PitKind::BatalStash), Pit { value: 0, kind: PitKind::BatalStash });
}

#[test]
fn add_seed_moves_one_seed() {
    let mut pit = Pit::new(PitKind::BatalPit);
    let mut hand = 3;
    pit.add_seed(&mut hand);
    assert_eq!(pit.value, 7);
    assert_eq!(hand, 2);
}

#[test]
fn players_and_signs() {
    assert_eq!(Player::Almuta.opposite(), Player::Batal);
    assert_eq!(Player::Batal.opposite(), Player::Almuta);
    assert_eq!(Player::Almuta.relative_factor(), 1);
    assert_eq!(Player::Batal.relative_factor(), -1);
}

#[test]
fn new_board_layout() {
    let b = new_board();
    for i in 0..14 {
        let expected_kind = match i {
            0..=5 => PitKind::AlmutaPit,
            6 => PitKind::AlmutaStash,
            7..=12 => PitKind::BatalPit,
            _ => PitKind::BatalStash,
        };
        assert_eq!(b[i].kind, expected_kind);
        assert_eq!(b[i].value, if i == 6 || i == 13 { 0 } else { 6 });
    }
}

#[test]
fn new_game_start_position() {
    let g = KalahaState::new_game();
    assert_eq!(g.to_play, Player::Almuta);
    assert_eq!(g.game_state, GameState::Playing);
    assert!(g.last_moves.is_empty());
    assert!(g.switched_turn);
    assert_eq!(g.turns_played, 0);
    assert_eq!(seed_sum(&g), 72);
    assert!(!g.game_is_over());
    assert_eq!(g.valid_moves(), vec![0, 1, 2, 3, 4, 5]);
    assert_eq!(g.evaluate(), 0);
}

#[test]
fn sowing_hands_the_turn_over() {
    let mut g = KalahaState::new_game();
    g.play_move(1);
    assert_eq!(values(&g), vec![6, 0, 7, 7, 7, 7, 1, 7, 6, 6, 6, 6, 6, 0]);
    assert_eq!(g.to_play, Player::Batal);
    assert_eq!(g.turns_played, 1);
    assert_eq!(g.last_moves, vec![1]);
    assert!(g.switched_turn);
    assert_eq!(g.valid_moves(), vec![7, 8, 9, 10, 11, 12]);
    assert_eq!(g.evaluate(), -1);
}

#[test]
fn last_seed_in_own_store_gives_extra_turn() {
    let mut g = KalahaState::new_game();
    g.play_move(0);
    assert_eq!(values(&g), vec![0, 7, 7, 7, 7, 7, 1, 6, 6, 6, 6, 6, 6, 0]);
    assert_eq!(g.to_play, Player::Almuta);
    assert!(!g.switched_turn);
    assert_eq!(g.turns_played, 0);
    g.play_move(2);
    assert_eq!(g.last_moves, vec![0, 2]);
    assert_eq!(g.to_play, Player::Batal);
}

#[test]
fn extra_turn_is_expanded_not_ended() {
    let g = KalahaState::new_game();
    let outcomes = g.generate_move_sequence_results();
    assert!(!outcomes.is_empty());
    let mut chained = 0;
    for o in &outcomes {
        assert!(o.switched_turn || o.game_is_over());
        assert_eq!(o.to_play, Player::Batal);
        if o.last_moves[0] == 0 {
            assert!(o.last_moves.len() >= 2);
            chained += 1;
        } else {
            assert_eq!(o.last_moves.len(), 1);
        }
    }
    assert!(chained > 0);
    assert_eq!(outcomes.len(), 5 + chained);
}

#[test]
fn capture_takes_facing_field_and_capturing_seed() {
    let mut g = state_with(Player::Almuta, [2, 3, 0, 4, 4, 4, 10, 4, 4, 4, 5, 4, 4, 20]);
    let before = seed_sum(&g);
    g.play_move(0);
    let v = values(&g);
    assert_eq!(v[2], 0);
    assert_eq!(v[10], 0);
    assert_eq!(v[6], 10 + 5 + 1);
    assert_eq!(v[1], 4);
    assert_eq!(v[0], 0);
    assert_eq!(g.to_play, Player::Batal);
    assert_eq!(seed_sum(&g), before);
}

#[test]
fn capture_by_second_player() {
    let mut g = state_with(Player::Batal, [4, 4, 4, 4, 3, 4, 20, 1, 0, 4, 4, 4, 4, 10]);
    g.play_move(7);
    let v = values(&g);
    assert_eq!(v[8], 0);
    assert_eq!(v[4], 0);
    assert_eq!(v[13], 10 + 3 + 1);
    assert_eq!(g.to_play, Player::Almuta);
}

#[test]
fn sowing_skips_opponent_store() {
    let mut g = state_with(Player::Almuta, [0, 0, 0, 0, 0, 20, 5, 3, 3, 3, 3, 3, 3, 7]);
    g.play_move(5);
    let v = values(&g);
    assert_eq!(v[13], 7);
    assert_eq!(seed_sum(&g), 50);
    assert_eq!(v[6], 5 + 2);

    let mut h = state_with(Player::Batal, [3, 3, 3, 3, 3, 3, 7, 0, 0, 0, 0, 0, 20, 5]);
    h.play_move(12);
    assert_eq!(values(&h)[6], 7);
    assert_eq!(seed_sum(&h), 50);
}

#[test]
fn no_opponent_store_deposit_on_any_first_move() {
    let g = KalahaState::new_game();
    for o in g.generate_move_sequence_results() {
        assert_eq!(o.board[13].value, 0);
    }
}

#[test]
fn seeds_are_conserved_through_a_game() {
    let mut g = KalahaState::new_game();
    let mut turns = 0;
    while !g.game_is_over() && turns < 200 {
        let moves = g.valid_moves();
        if moves.is_empty() {
            g.play_moves(Vec::new());
        } else {
            g.play_move(moves[moves.len() / 2]);
        }
        assert_eq!(seed_sum(&g), 72);
        turns += 1;
    }
    assert!(g.game_is_over());
}

#[test]
fn sweep_moves_remaining_seeds_to_their_owner() {
    let mut g = state_with(Player::Batal, [1, 0, 2, 0, 0, 0, 33, 0, 0, 0, 0, 0, 0, 36]);
    g.play_moves(Vec::new());
    assert_eq!(values(&g), vec![0, 0, 0, 0, 0, 0, 36, 0, 0, 0, 0, 0, 0, 36]);
    assert_eq!(g.game_state, GameState::GameOver(None));
    assert!(g.game_is_over());
    assert_eq!(g.evaluate(), 0);
}

#[test]
fn sweep_decides_the_winner() {
    let mut g = state_with(Player::Almuta, [0, 0, 0, 0, 0, 0, 30, 1, 1, 0, 0, 0, 0, 40]);
    g.turns_played = 20;
    g.play_moves(Vec::new());
    assert_eq!(g.board[13].value, 42);
    assert_eq!(g.game_state, GameState::GameOver(Some(Player::Batal)));
    assert_eq!(g.evaluate(), -(i32::MAX - 20));
}

#[test]
fn majority_ends_the_game() {
    let mut g = state_with(Player::Almuta, [0, 0, 0, 0, 0, 2, 36, 6, 6, 6, 6, 6, 4, 0]);
    g.play_move(5);
    assert_eq!(g.board[6].value, 37);
    assert_eq!(g.to_play, Player::Batal);
    assert_eq!(g.game_state, GameState::GameOver(Some(Player::Almuta)));
    assert_eq!(g.evaluate(), -(i32::MAX - 1));
}

#[test]
fn no_end_without_majority() {
    let mut g = state_with(Player::Almuta, [0, 0, 0, 0, 0, 2, 35, 6, 6, 6, 6, 6, 5, 0]);
    g.play_move(5);
    assert_eq!(g.board[6].value, 36);
    assert_eq!(g.game_state, GameState::Playing);
}

#[test]
fn play_moves_replays_a_turn() {
    let mut g = KalahaState::new_game();
    g.play_moves(vec![0, 2]);
    let mut h = KalahaState::new_game();
    h.play_move(0);
    h.play_move(2);
    assert_eq!(values(&g), values(&h));
    assert_eq!(g.last_moves, vec![0, 2]);
    assert_eq!(g.to_play, Player::Batal);
}

#[test]
fn score_is_antisymmetric() {
    let g = state_with(Player::Almuta, [1, 2, 3, 4, 5, 6, 9, 1, 2, 3, 4, 5, 6, 21]);
    let mut h = state_with(Player::Batal, [1, 2, 3, 4, 5, 6, 9, 1, 2, 3, 4, 5, 6, 21]);
    assert_eq!(g.evaluate(), -12);
    assert_eq!(h.evaluate(), 12);
    h.game_state = GameState::GameOver(Some(Player::Batal));
    h.turns_played = 3;
    let mut k = h.clone();
    k.to_play = Player::Almuta;
    assert_eq!(h.evaluate(), i32::MAX - 3);
    assert_eq!(k.evaluate(), -h.evaluate());
}

#[test]
fn faster_wins_score_higher() {
    let mut fast = state_with(Player::Almuta, [0; 14]);
    fast.game_state = GameState::GameOver(Some(Player::Almuta));
    fast.turns_played = 5;
    let mut slow = fast.clone();
    slow.turns_played = 9;
    assert!(fast.evaluate() > slow.evaluate());
    fast.to_play = Player::Batal;
    slow.to_play = Player::Batal;
    assert!(slow.evaluate() > fast.evaluate());
}
