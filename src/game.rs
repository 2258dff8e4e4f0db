use vstd::prelude::*;

use crate::board::{
    first_field_of, is_field_of, kind_at, new_board, opposite_of, store_of, Pit, PitKind, Player,
};
use crate::rules::{
    board_after_select, board_ok, earns_extra_turn, has_majority, lemma_select, lemma_sow,
    lemma_pits_le_total, lemma_sow_within_fields, lemma_total_update, makes_capture, opposite_field, sow, sow_from, total, winner_of, GameState,
};

verus! {

/// A game in progress: whose turn it is, the board, and the record of the
/// selections made in the current turn.
#[derive(Debug, Clone)]
pub struct KalahaState {
    pub to_play: Player,
    pub board: [Pit; 14],
    pub game_state: GameState,
    pub last_moves: Vec<usize>,
    pub switched_turn: bool,
    pub turns_played: u8,
}

/// The mathematical model of a `KalahaState`: seed counts as integers.
pub struct KalahaView {
    pub to_play: Player,
    pub values: Seq<int>,
    pub game_state: GameState,
    pub moves: Seq<usize>,
    pub switched_turn: bool,
    pub turns_played: u8,
}

impl View for KalahaState {
    type V = KalahaView;

    open spec fn view(&self) -> KalahaView {
        KalahaView {
            to_play: self.to_play,
            values: Seq::new(14, |i: int| self.board@[i].value as int),
            game_state: self.game_state,
            moves: self.last_moves@,
            switched_turn: self.switched_turn,
            turns_played: self.turns_played,
        }
    }
}

/// A model state whose board is sound and whose seeds fit an `i32`.
pub open spec fn view_ok(v: KalahaView) -> bool {
    &&& board_ok(v.values)
    &&& total(v.values) <= i32::MAX
}

pub open spec fn is_over(v: KalahaView) -> bool {
    v.game_state != GameState::Playing
}

/// Whether `i` is a field of the player to move that holds seeds.
pub open spec fn is_valid_move(v: KalahaView, i: int) -> bool {
    is_field_of(v.to_play, i) && v.values[i] > 0
}

/// The legal selections among the first `n` fields of the player to move,
/// in increasing order.
pub open spec fn valid_moves_upto(v: KalahaView, n: nat) -> Seq<usize>
    decreases n,
{
    if n == 0 {
        Seq::empty()
    } else {
        let i = first_field_of(v.to_play) + n - 1;
        let rest = valid_moves_upto(v, (n - 1) as nat);
        if v.values[i] > 0 {
            rest.push(i as usize)
        } else {
            rest
        }
    }
}

pub open spec fn valid_moves_of(v: KalahaView) -> Seq<usize> {
    valid_moves_upto(v, 6)
}

/// The state after the player to move selects field `i`: sowing and capture,
/// then either an extra turn or the handover, after which a store holding
/// most of the seeds ends the game.
pub open spec fn select(v: KalahaView, i: int) -> KalahaView {
    let p = v.to_play;
    let b = board_after_select(v.values, i, p);
    let moves = if v.switched_turn {
        seq![i as usize]
    } else {
        v.moves.push(i as usize)
    };
    if earns_extra_turn(v.values, i, p) {
        KalahaView { values: b, moves, switched_turn: false, ..v }
    } else {
        KalahaView {
            to_play: opposite_of(p),
            values: b,
            moves,
            switched_turn: true,
            turns_played: if v.turns_played < 255 {
                (v.turns_played + 1) as u8
            } else {
                v.turns_played
            },
            game_state: if has_majority(b) {
                GameState::GameOver(winner_of(b))
            } else {
                v.game_state
            },
        }
    }
}

/// Sum of the six fields of `q`.
pub open spec fn fields_sum(b: Seq<int>, q: Player) -> int {
    let f = first_field_of(q);
    b[f] + b[f + 1] + b[f + 2] + b[f + 3] + b[f + 4] + b[f + 5]
}

/// The board after the seeds left in `q`'s fields go to `q`'s store.
pub open spec fn swept_board(b: Seq<int>, q: Player) -> Seq<int> {
    Seq::new(
        14,
        |j: int|
            if is_field_of(q, j) {
                0
            } else if j == store_of(q) {
                b[j] + fields_sum(b, q)
            } else {
                b[j]
            },
    )
}

/// The end of a game in which the player to move cannot select: the
/// opponent's remaining seeds go to the opponent's store and the stores decide.
pub open spec fn sweep(v: KalahaView) -> KalahaView {
    let b = swept_board(v.values, opposite_of(v.to_play));
    KalahaView {
        values: b,
        game_state: GameState::GameOver(winner_of(b)),
        moves: if v.switched_turn {
            Seq::empty()
        } else {
            v.moves
        },
        switched_turn: false,
        ..v
    }
}

/// The state after a sequence of selections, made one after the other.
pub open spec fn apply_moves(v: KalahaView, ms: Seq<usize>) -> KalahaView
    decreases ms.len(),
{
    if ms.len() == 0 {
        v
    } else {
        select(apply_moves(v, ms.drop_last()), ms.last() as int)
    }
}

/// Whether each selection of `ms` is legal when it is made, in a game that
/// is still being played then.
pub open spec fn playing_moves(v: KalahaView, ms: Seq<usize>) -> bool
    decreases ms.len(),
{
    if ms.len() == 0 {
        true
    } else {
        playing_moves(v, ms.drop_last()) && !is_over(apply_moves(v, ms.drop_last()))
            && is_valid_move(apply_moves(v, ms.drop_last()), ms.last() as int)
    }
}

/// What a turn given as a sequence of selections leads to: the empty
/// sequence stands for the sweep when no selection is possible.
pub open spec fn play_turn(v: KalahaView, ms: Seq<usize>) -> KalahaView {
    if ms.len() == 0 {
        sweep(v)
    } else {
        apply_moves(v, ms)
    }
}

/// The score of a state for the player to move: the difference of the
/// stores while playing; at the end a win scores near the largest `i32`,
/// more for a faster win, a loss its negation, a draw zero.
pub open spec fn score(v: KalahaView) -> int {
    let p = v.to_play;
    match v.game_state {
        GameState::Playing => v.values[store_of(p)] - v.values[store_of(opposite_of(p))],
        GameState::GameOver(None) => 0,
        GameState::GameOver(Some(w)) => if w == p {
            i32::MAX - v.turns_played
        } else {
            v.turns_played - i32::MAX
        },
    }
}


/// What the player to move has yet to put in the own store: it drops with
/// every extra turn, which bounds a chain of them.
pub open spec fn turn_measure(v: KalahaView) -> int {
    total(v.values) - v.values[store_of(v.to_play)]
}

/// The states in which the turn of the player to move can end: for each legal
/// selection in order, the state after it, or where it earns an extra turn
/// the states that the chain goes on to; the sweep where no selection is legal.
pub open spec fn expand(v: KalahaView) -> Seq<KalahaView>
    decreases turn_measure(v), 1int, 0int,
    when view_ok(v)
{
    if valid_moves_of(v).len() == 0 {
        seq![sweep(v)]
    } else {
        expand_moves(v, valid_moves_of(v).len())
    }
}

/// The outcomes of the first `n` legal selections of `v`, in order.
pub open spec fn expand_moves(v: KalahaView, n: nat) -> Seq<KalahaView>
    decreases turn_measure(v), 0int, n,
    when view_ok(v) && n <= valid_moves_of(v).len()
    via expand_moves_decreases
{
    if n == 0 {
        Seq::empty()
    } else {
        let c = select(v, valid_moves_of(v)[n - 1] as int);
        expand_moves(v, (n - 1) as nat) + if c.switched_turn {
            seq![c]
        } else {
            expand(c)
        }
    }
}

/// Each chained selection lowers the measure of the turn.
#[via_fn]
proof fn expand_moves_decreases(v: KalahaView, n: nat) {
    if n > 0 {
        let i = valid_moves_of(v)[n - 1] as int;
        lemma_valid_moves_upto(v, 6);
        lemma_turn_measure(v, i);
    }
}

/// An extra turn leaves the mover with less to put in the own store.
pub proof fn lemma_turn_measure(v: KalahaView, i: int)
    requires
        view_ok(v),
        is_valid_move(v, i),
    ensures
        0 <= turn_measure(select(v, i)),
        !select(v, i).switched_turn ==> turn_measure(select(v, i)) < turn_measure(v),
        select(v, i).switched_turn <==> !earns_extra_turn(v.values, i, v.to_play),
        view_ok(select(v, i)),
{
    lemma_select(v.values, i, v.to_play);
    let c = select(v, i);
    lemma_pits_le_total(c.values, store_of(c.to_play), store_of(opposite_of(c.to_play)), 0);
}

/// Every turn has an outcome, and each outcome keeps the board sound and
/// holds as many seeds as the state the turn starts from.
pub proof fn lemma_expand_conserves(v: KalahaView)
    requires
        view_ok(v),
    ensures
        expand(v).len() >= 1,
        forall|j: int|
            0 <= j < expand(v).len() ==> view_ok(#[trigger] expand(v)[j]) && total(expand(v)[j].values)
                == total(v.values),
    decreases turn_measure(v), 1int, 0int,
{
    if valid_moves_of(v).len() == 0 {
        lemma_sweep_ok(v);
    } else {
        lemma_expand_moves_conserves(v, valid_moves_of(v).len());
    }
}

/// The outcomes of the first `n` legal selections keep the board sound and
/// hold as many seeds as `v`; there is one at least where `n` is positive.
pub proof fn lemma_expand_moves_conserves(v: KalahaView, n: nat)
    requires
        view_ok(v),
        n <= valid_moves_of(v).len(),
    ensures
        n > 0 ==> expand_moves(v, n).len() >= 1,
        forall|j: int|
            0 <= j < expand_moves(v, n).len() ==> view_ok(#[trigger] expand_moves(v, n)[j])
                && total(expand_moves(v, n)[j].values) == total(v.values),
    decreases turn_measure(v), 0int, n,
{
    if n > 0 {
        lemma_valid_moves_upto(v, 6);
        let i = valid_moves_of(v)[n - 1] as int;
        lemma_turn_measure(v, i);
        lemma_select_ok(v, i);
        let c = select(v, i);
        lemma_expand_moves_conserves(v, (n - 1) as nat);
        let prev = expand_moves(v, (n - 1) as nat);
        if c.switched_turn {
            assert(expand_moves(v, n) == prev + seq![c]);
        } else {
            lemma_expand_conserves(c);
            assert(expand_moves(v, n) == prev + expand(c));
        }
    }
}

/// A selection keeps the board sound and the number of seeds, and never puts
/// a seed into the opponent's store.
pub proof fn lemma_select_ok(v: KalahaView, i: int)
    requires
        view_ok(v),
        is_valid_move(v, i),
    ensures
        view_ok(select(v, i)),
        total(select(v, i).values) == total(v.values),
        select(v, i).values[store_of(opposite_of(v.to_play))] == v.values[store_of(
            opposite_of(v.to_play),
        )],
{
    lemma_select(v.values, i, v.to_play);
}

/// The sweep keeps the board sound and its total.
pub proof fn lemma_sweep_ok(v: KalahaView)
    requires
        view_ok(v),
    ensures
        view_ok(sweep(v)),
        total(sweep(v).values) == total(v.values),
        0 <= fields_sum(v.values, opposite_of(v.to_play)),
        fields_sum(v.values, opposite_of(v.to_play)) + v.values[store_of(opposite_of(v.to_play))]
            <= total(v.values),
{
    reveal(total);
    let b = v.values;
    assert(b[0] >= 0 && b[1] >= 0 && b[2] >= 0 && b[3] >= 0 && b[4] >= 0 && b[5] >= 0 && b[6] >= 0);
    assert(b[7] >= 0 && b[8] >= 0 && b[9] >= 0 && b[10] >= 0 && b[11] >= 0 && b[12] >= 0 && b[13] >= 0);
}

/// Every index that `valid_moves_upto` lists is a legal selection, in
/// increasing order, and every legal selection among those fields is listed.
pub proof fn lemma_valid_moves_upto(v: KalahaView, n: nat)
    requires
        view_ok(v),
        n <= 6,
    ensures
        forall|k: int|
            0 <= k < valid_moves_upto(v, n).len() ==> is_valid_move(v, #[trigger] valid_moves_upto(v, n)[k] as int)
                && valid_moves_upto(v, n)[k] < first_field_of(v.to_play) + n,
        forall|i: int|
            first_field_of(v.to_play) <= i < first_field_of(v.to_play) + n && #[trigger] is_valid_move(v, i)
                ==> valid_moves_upto(v, n).contains(i as usize),
    decreases n,
{
    if n > 0 {
        lemma_valid_moves_upto(v, (n - 1) as nat);
        let i = first_field_of(v.to_play) + n - 1;
        let rest = valid_moves_upto(v, (n - 1) as nat);
        if v.values[i] > 0 {
            assert(rest.push(i as usize)[rest.len() as int] == i as usize);
            assert forall|j: int|
                first_field_of(v.to_play) <= j < first_field_of(v.to_play) + n && #[trigger] is_valid_move(v, j)
                    implies valid_moves_upto(v, n).contains(j as usize) by {
                if j < i {
                    let k = choose|k: int| 0 <= k < rest.len() && rest[k] == j as usize;
                    assert(rest.push(i as usize)[k] == j as usize);
                }
            }
        }
    }
}

/// A sequence of legal selections is legal at each step of the way.
pub proof fn lemma_playing_prefix(v: KalahaView, ms: Seq<usize>, k: int)
    requires
        playing_moves(v, ms),
        0 <= k < ms.len(),
    ensures
        is_valid_move(apply_moves(v, ms.take(k)), ms[k] as int),
        !is_over(apply_moves(v, ms.take(k))),
        apply_moves(v, ms.take(k + 1)) == select(apply_moves(v, ms.take(k)), ms[k] as int),
    decreases ms.len(),
{
    assert(ms.take(k + 1).drop_last() =~= ms.take(k));
    if k == ms.len() - 1 {
        assert(ms.take(k) =~= ms.drop_last());
    } else {
        lemma_playing_prefix(v, ms.drop_last(), k);
        assert(ms.drop_last().take(k) =~= ms.take(k));
        assert(ms.drop_last().take(k + 1) =~= ms.take(k + 1));
    }
}

/// The models of a sequence of states.
pub open spec fn views(s: Seq<KalahaState>) -> Seq<KalahaView> {
    s.map_values(|x: KalahaState| x@)
}

/// Whether every state of a sequence is well formed.
pub open spec fn all_wf(s: Seq<KalahaState>) -> bool {
    forall|j: int| 0 <= j < s.len() ==> (#[trigger] s[j]).wf()
}

impl KalahaState {
    /// The board holds each kind of pit at its place, and the model is sound.
    pub open spec fn wf(&self) -> bool {
        &&& forall|i: int| 0 <= i < 14 ==> #[trigger] self.board@[i].kind == kind_at(i)
        &&& view_ok(self@)
    }

    /// The canonical start: six seeds in each field, empty stores, A to move.
    pub fn new_game() -> (r: KalahaState)
        ensures
            r.wf(),
            r@.to_play == Player::Almuta,
            r@.game_state == GameState::Playing,
            r@.moves.len() == 0,
            r@.switched_turn,
            r@.turns_played == 0,
            forall|i: int|
                0 <= i < 14 ==> #[trigger] r@.values[i] == (if i == 6 || i == 13 {
                    0int
                } else {
                    6int
                }),
            total(r@.values) == 72,
    {
        let board = new_board();
        let r = KalahaState {
            to_play: Player::Almuta,
            board,
            game_state: GameState::Playing,
            last_moves: Vec::new(),
            switched_turn: true,
            turns_played: 0,
        };
        proof {
            reveal(total);
        }
        r
    }

    fn set_value(&mut self, i: usize, x: i32)
        requires
            i < 14,
        ensures
            final(self)@ == (KalahaView { values: old(self)@.values.update(i as int, x as int), ..old(self)@ }),
            forall|j: int| 0 <= j < 14 ==> #[trigger] final(self).board@[j].kind == old(self).board@[j].kind,
    {
        let kind = self.board[i].kind;
        self.board[i] = Pit { value: x, kind };
        assert(self@.values =~= old(self)@.values.update(i as int, x as int));
    }

    fn stash_index(&self, player: Player) -> (r: usize)
        ensures
            r == store_of(player),
    {
        match player {
            Player::Almuta => 6,
            Player::Batal => 13,
        }
    }

    fn stash_seeds(&self, player: Player) -> (r: i32)
        ensures
            r == self@.values[store_of(player)],
    {
        let index = self.stash_index(player);
        self.board[index].value
    }

    /// The first index of a player's fields; they run over six indices.
    fn player_pits_start(&self, player: Player) -> (r: usize)
        ensures
            r == first_field_of(player),
    {
        match player {
            Player::Almuta => 0,
            Player::Batal => 7,
        }
    }

    fn seed_total(&self) -> (r: i64)
        requires
            self.wf(),
        ensures
            r == total(self@.values),
    {
        proof {
            reveal(total);
        }
        let b = &self.board;
        b[0].value as i64 + b[1].value as i64 + b[2].value as i64 + b[3].value as i64
            + b[4].value as i64 + b[5].value as i64 + b[6].value as i64 + b[7].value as i64
            + b[8].value as i64 + b[9].value as i64 + b[10].value as i64 + b[11].value as i64
            + b[12].value as i64 + b[13].value as i64
    }

    /// Sows the seeds of field `pit_index`, makes the capture if one is due,
    /// and tells whether the last seed landed in the mover's store.
    fn distribute_seeds(&mut self, pit_index: usize) -> (r: bool)
        requires
            old(self).wf(),
            is_valid_move(old(self)@, pit_index as int),
        ensures
            final(self).wf(),
            final(self)@ == (KalahaView {
                values: board_after_select(old(self)@.values, pit_index as int, old(self).to_play),
                ..old(self)@
            }),
            r == earns_extra_turn(old(self)@.values, pit_index as int, old(self).to_play),
    {
        let ghost v0 = self@;
        let p = self.to_play;
        let ghost b0 = v0.values.update(pit_index as int, 0);
        proof {
            lemma_select(v0.values, pit_index as int, p);
            lemma_total_update(v0.values, pit_index as int, 0);
            lemma_sow(b0, pit_index as int, v0.values[pit_index as int] as nat, p);
        }
        let mut seeds_to_distribute = self.board[pit_index].value;
        self.set_value(pit_index, 0);
        let ghost seeds0 = seeds_to_distribute as nat;
        let opponent_stash = self.stash_index(p.opposite());
        let mut deposit_pit_index = pit_index;
        while seeds_to_distribute > 0
            invariant
                0 <= deposit_pit_index < 14,
                0 <= seeds_to_distribute,
                forall|i: int| 0 <= i < 14 ==> #[trigger] self.board@[i].kind == kind_at(i),
                board_ok(self@.values),
                total(self@.values) + seeds_to_distribute == total(v0.values),
                total(v0.values) <= i32::MAX,
                self@ == (KalahaView { values: self@.values, ..v0 }),
                opponent_stash == store_of(opposite_of(p)),
                p == v0.to_play,
                sow(self@.values, deposit_pit_index as int, seeds_to_distribute as nat, p) == sow(
                    b0,
                    pit_index as int,
                    seeds0,
                    p,
                ),
            decreases seeds_to_distribute,
        {
            deposit_pit_index = (deposit_pit_index + 1) % 14;
            if deposit_pit_index == opponent_stash {
                deposit_pit_index = (deposit_pit_index + 1) % 14;
            }
            let ghost before = self@.values;
            proof {
                lemma_total_update(before, deposit_pit_index as int, before[deposit_pit_index as int] + 1);
                lemma_pits_le_total(before, deposit_pit_index as int, (deposit_pit_index as int + 1) % 14, (deposit_pit_index as int + 2) % 14);
            }
            let mut pit = self.board[deposit_pit_index];
            pit.add_seed(&mut seeds_to_distribute);
            self.board[deposit_pit_index] = pit;
            assert(self@.values =~= before.update(
                deposit_pit_index as int,
                before[deposit_pit_index as int] + 1,
            ));
        }
        let final_deposit_pit = self.board[deposit_pit_index];
        if final_deposit_pit.value == 1 && final_deposit_pit.is_player_pit(p) {
            self.steal_opposing_seeds(deposit_pit_index);
        }
        match self.board[deposit_pit_index].kind {
            PitKind::AlmutaStash | PitKind::BatalStash => true,
            _ => false,
        }
    }

    /// Capture from field `pit_index`: the facing field's seeds and the
    /// capturing seed go to the mover's store.
    fn steal_opposing_seeds(&mut self, pit_index: usize)
        requires
            old(self).wf(),
            is_field_of(old(self).to_play, pit_index as int),
            old(self)@.values[pit_index as int] == 1,
        ensures
            final(self).wf(),
            final(self)@ == (KalahaView {
                values: {
                    let s = old(self)@.values;
                    let o = opposite_field(pit_index as int);
                    let st = store_of(old(self).to_play);
                    s.update(st, s[st] + s[o] + 1).update(pit_index as int, 0).update(o, 0)
                },
                ..old(self)@
            }),
    {
        let ghost s = self@.values;
        let opposing_pit_index = 12 - pit_index;
        let st = self.stash_index(self.to_play);
        let stolen_seeds = self.board[opposing_pit_index].value;
        proof {
            let s1 = s.update(st as int, s[st as int] + s[opposing_pit_index as int] + 1);
            let s2 = s1.update(pit_index as int, 0);
            lemma_total_update(s, st as int, s[st as int] + s[opposing_pit_index as int] + 1);
            lemma_total_update(s1, pit_index as int, 0);
            lemma_total_update(s2, opposing_pit_index as int, 0);
            lemma_pits_le_total(s, st as int, opposing_pit_index as int, pit_index as int);
        }
        let stash = self.board[st].value;
        self.set_value(st, stash + stolen_seeds + 1);
        self.set_value(pit_index, 0);
        self.set_value(opposing_pit_index, 0);
    }

    /// Whether one store holds more than half of all seeds.
    fn end_by_majority_seeds(&self) -> (r: bool)
        requires
            self.wf(),
        ensures
            r == has_majority(self@.values),
    {
        let t = self.seed_total();
        2 * (self.stash_seeds(Player::Almuta) as i64) > t || 2 * (self.stash_seeds(Player::Batal) as i64) > t
    }

    /// Ends the game: the player with more seeds in store wins, equal stores draw.
    fn resolve_game(&mut self)
        ensures
            final(self)@ == (KalahaView {
                game_state: GameState::GameOver(winner_of(old(self)@.values)),
                ..old(self)@
            }),
            final(self).board == old(self).board,
    {
        let a = self.stash_seeds(Player::Almuta);
        let b = self.stash_seeds(Player::Batal);
        self.game_state = if a > b {
            GameState::GameOver(Some(Player::Almuta))
        } else if a == b {
            GameState::GameOver(None)
        } else {
            GameState::GameOver(Some(Player::Batal))
        };
    }

    /// Selects field `pit_index` for the player to move: sows, captures, and
    /// either keeps the turn or hands it over.
    pub fn play_move(&mut self, pit_index: usize)
        requires
            old(self).wf(),
            !is_over(old(self)@),
            is_valid_move(old(self)@, pit_index as int),
        ensures
            final(self).wf(),
            final(self)@ == select(old(self)@, pit_index as int),
            total(final(self)@.values) == total(old(self)@.values),
            final(self)@.values[store_of(opposite_of(old(self).to_play))] == old(self)@.values[store_of(
                opposite_of(old(self).to_play),
            )],
    {
        proof {
            lemma_select_ok(self@, pit_index as int);
        }
        if self.switched_turn {
            self.last_moves = Vec::new();
            self.switched_turn = false;
        }
        self.last_moves.push(pit_index);
        let same_player_to_play = self.distribute_seeds(pit_index);
        if !same_player_to_play {
            self.to_play = self.to_play.opposite();
            self.switched_turn = true;
            if self.turns_played < 255 {
                self.turns_played = self.turns_played + 1;
            }
            if self.end_by_majority_seeds() {
                self.resolve_game();
            }
        }
        assert(self@.moves =~= select(old(self)@, pit_index as int).moves);
    }

    /// A copy of the state.
    pub fn copy_state(&self) -> (r: KalahaState)
        ensures
            r@ == self@,
            r.board == self.board,
    {
        let moves = self.last_moves.clone();
        assert(moves@ =~= self.last_moves@);
        KalahaState {
            to_play: self.to_play,
            board: self.board,
            game_state: self.game_state,
            last_moves: moves,
            switched_turn: self.switched_turn,
            turns_played: self.turns_played,
        }
    }

    /// Ends a game in which the player to move cannot select: the opponent's
    /// field seeds go to the opponent's store and the stores decide.
    pub(crate) fn snatch_seeds(&mut self)
        requires
            old(self).wf(),
        ensures
            final(self).wf(),
            final(self)@ == sweep(old(self)@),
    {
        proof {
            lemma_sweep_ok(self@);
        }
        let ghost v0 = self@;
        let ghost b0 = v0.values;
        if self.switched_turn {
            self.last_moves = Vec::new();
            self.switched_turn = false;
        }
        let q = self.to_play.opposite();
        let start = self.player_pits_start(q);
        let st = self.stash_index(q);
        let b = &self.board;
        let snatched_seeds = b[start].value + b[start + 1].value + b[start + 2].value
            + b[start + 3].value + b[start + 4].value + b[start + 5].value;
        assert(snatched_seeds == fields_sum(b0, q));
        assert(st as int == store_of(q));
        let mut k: usize = 0;
        while k < 6
            invariant
                k <= 6,
                start == first_field_of(q),
                st == store_of(q),
                q == opposite_of(v0.to_play),
                forall|i: int| 0 <= i < 14 ==> #[trigger] self.board@[i].kind == kind_at(i),
                self@.values =~= Seq::new(
                    14,
                    |j: int|
                        if start <= j < start + k {
                            0
                        } else {
                            b0[j]
                        },
                ),
                self@ == (KalahaView {
                    values: self@.values,
                    moves: if v0.switched_turn {
                        Seq::empty()
                    } else {
                        v0.moves
                    },
                    switched_turn: false,
                    ..v0
                }),
            decreases 6 - k,
        {
            self.set_value(start + k, 0);
            k = k + 1;
        }
        assert(!(start <= st < start + 6));
        assert(self@.values[st as int] == b0[st as int]);
        let stash = self.board[st].value;
        assert(stash == b0[st as int]);
        self.set_value(st, stash + snatched_seeds);
        assert(self@.values =~= swept_board(b0, q));
        self.resolve_game();
    }

    /// The fields of the player to move that hold seeds, in increasing order.
    pub fn valid_moves(&self) -> (r: Vec<usize>)
        requires
            self.wf(),
        ensures
            r@ == valid_moves_of(self@),
    {
        let start = self.player_pits_start(self.to_play);
        let mut r: Vec<usize> = Vec::new();
        let mut k: usize = 0;
        while k < 6
            invariant
                k <= 6,
                self.wf(),
                start == first_field_of(self.to_play),
                r@ == valid_moves_upto(self@, k as nat),
            decreases 6 - k,
        {
            if self.board[start + k].value != 0 {
                r.push(start + k);
            }
            k = k + 1;
        }
        r
    }

    /// Plays a whole turn: each selection in order, or the sweep where the
    /// sequence is empty.
    pub fn play_moves(&mut self, moves: Vec<usize>)
        requires
            old(self).wf(),
            !is_over(old(self)@),
            playing_moves(old(self)@, moves@),
        ensures
            final(self).wf(),
            final(self)@ == play_turn(old(self)@, moves@),
            total(final(self)@.values) == total(old(self)@.values),
    {
        let ghost v0 = self@;
        if moves.len() == 0 {
            proof {
                lemma_sweep_ok(self@);
            }
            self.snatch_seeds();
            return;
        }
        let mut k: usize = 0;
        while k < moves.len()
            invariant
                k <= moves@.len(),
                self.wf(),
                playing_moves(v0, moves@),
                self@ == apply_moves(v0, moves@.take(k as int)),
                total(self@.values) == total(v0.values),
            decreases moves@.len() - k,
        {
            proof {
                lemma_playing_prefix(v0, moves@, k as int);
            }
            self.play_move(moves[k]);
            k = k + 1;
        }
        assert(moves@.take(k as int) =~= moves@);
    }

    /// The score of the state for the player to move.
    pub fn evaluate(&self) -> (r: i32)
        requires
            self.wf(),
        ensures
            r == score(self@),
            -i32::MAX <= r <= i32::MAX,
    {
        proof {
            lemma_pits_le_total(self@.values, 6, 13, 0);
            lemma_pits_le_total(self@.values, 13, 6, 0);
        }
        let absolute_evaluation: i32 = match self.game_state {
            GameState::Playing => {
                let almuta_points = self.stash_seeds(Player::Almuta);
                let batal_points = self.stash_seeds(Player::Batal);
                almuta_points - batal_points
            },
            GameState::GameOver(winner) => match winner {
                None => 0,
                Some(Player::Almuta) => i32::MAX - self.turns_played as i32,
                Some(Player::Batal) => -i32::MAX + self.turns_played as i32,
            },
        };
        absolute_evaluation * self.to_play.relative_factor()
    }

    pub fn game_is_over(&self) -> (r: bool)
        ensures
            r == is_over(self@),
    {
        match self.game_state {
            GameState::Playing => false,
            GameState::GameOver(_) => true,
        }
    }

    /// Every state in which the turn of the player to move can end, each
    /// carrying the selections of that turn.
    pub fn generate_move_sequence_results(&self) -> (r: Vec<KalahaState>)
        requires
            self.wf(),
            !is_over(self@),
        ensures
            all_wf(r@),
            views(r@) == expand(self@),
        decreases turn_measure(self@),
    {
        let valid_moves = self.valid_moves();
        proof {
            lemma_valid_moves_upto(self@, 6);
        }
        if valid_moves.len() == 0 {
            let mut game_end = self.copy_state();
            game_end.snatch_seeds();
            let r = vec![game_end];
            assert(views(r@) =~= seq![sweep(self@)]);
            return r;
        }
        let mut sequence_results: Vec<KalahaState> = Vec::new();
        let mut k: usize = 0;
        while k < valid_moves.len()
            invariant
                self.wf(),
                !is_over(self@),
                k <= valid_moves@.len(),
                valid_moves@ == valid_moves_of(self@),
                valid_moves@.len() > 0,
                forall|j: int|
                    0 <= j < valid_moves@.len() ==> is_valid_move(self@, #[trigger] valid_moves@[j] as int),
                all_wf(sequence_results@),
                views(sequence_results@) == expand_moves(self@, k as nat),
            decreases valid_moves@.len() - k,
        {
            let mov = valid_moves[k];
            proof {
                lemma_turn_measure(self@, mov as int);
            }
            let mut new_kalaha_state = self.copy_state();
            new_kalaha_state.play_move(mov);
            let ghost before = sequence_results@;
            if !new_kalaha_state.switched_turn {
                let mut more = new_kalaha_state.generate_move_sequence_results();
                let ghost added = more@;
                sequence_results.append(&mut more);
                assert(views(sequence_results@) =~= views(before) + views(added));
            } else {
                sequence_results.push(new_kalaha_state);
                assert(views(sequence_results@) =~= views(before) + seq![new_kalaha_state@]);
            }
            k = k + 1;
        }
        sequence_results
    }
}

/// Seeds are conserved by every sequence of legal selections, and by the
/// sweep that may end it.
pub proof fn lemma_moves_conserve_seeds(v: KalahaView, ms: Seq<usize>)
    requires
        view_ok(v),
        playing_moves(v, ms),
    ensures
        view_ok(apply_moves(v, ms)),
        total(apply_moves(v, ms).values) == total(v.values),
        view_ok(play_turn(v, ms)),
        total(play_turn(v, ms).values) == total(v.values),
    decreases ms.len(),
{
    lemma_sweep_ok(v);
    if ms.len() > 0 {
        lemma_moves_conserve_seeds(v, ms.drop_last());
        lemma_select_ok(apply_moves(v, ms.drop_last()), ms.last() as int);
    }
}

/// Where the player to move cannot select, the sweep leaves every field
/// empty and all the seeds in the two stores.
pub proof fn lemma_sweep_empties_fields(v: KalahaView)
    requires
        view_ok(v),
        valid_moves_of(v).len() == 0,
    ensures
        forall|i: int| 0 <= i < 14 && i != 6 && i != 13 ==> #[trigger] sweep(v).values[i] == 0,
        sweep(v).values[6] + sweep(v).values[13] == total(v.values),
        total(sweep(v).values) == total(v.values),
{
    lemma_sweep_ok(v);
    lemma_valid_moves_upto(v, 6);
    assert forall|i: int| first_field_of(v.to_play) <= i < first_field_of(v.to_play) + 6 implies v.values[i]
        == 0 by {
        if v.values[i] > 0 {
            assert(is_valid_move(v, i));
            assert(valid_moves_of(v).contains(i as usize));
        }
    }
    reveal(total);
}

/// A capture: where the seeds of field `i` stay within the mover's fields
/// and the last one lands in an empty field, that field and the one facing it
/// end empty, and the mover's store gains the facing field's seeds and one.
pub proof fn lemma_capture(v: KalahaView, i: int)
    requires
        view_ok(v),
        is_valid_move(v, i),
        i + v.values[i] < store_of(v.to_play),
        v.values[i + v.values[i]] == 0,
    ensures
        select(v, i).values[i + v.values[i]] == 0,
        select(v, i).values[opposite_field(i + v.values[i])] == 0,
        select(v, i).values[store_of(v.to_play)] == v.values[store_of(v.to_play)] + v.values[opposite_field(
            i + v.values[i],
        )] + 1,
        select(v, i).to_play == opposite_of(v.to_play),
{
    let p = v.to_play;
    let b0 = v.values.update(i, 0);
    let n: nat = v.values[i] as nat;
    lemma_sow_within_fields(b0, i, n, p);
    lemma_sow(b0, i, n, p);
    let last = i + n;
    let o = opposite_field(last);
    let st = store_of(p);
    let sown = sow_from(v.values, i, p).0;
    assert(sow(b0, i, n, p).1 == last);
    assert(sown[last] == 1);
    assert(!earns_extra_turn(v.values, i, p));
    assert(select(v, i).values == sown.update(st, sown[st] + sown[o] + 1).update(last, 0).update(o, 0));
}

/// An extra turn: where the last seed lands in the mover's store, the same
/// player is still to move, and the outcomes of that selection are those of
/// the turn that goes on from there.
pub proof fn lemma_extra_turn(v: KalahaView, k: int)
    requires
        view_ok(v),
        0 <= k < valid_moves_of(v).len(),
        earns_extra_turn(v.values, valid_moves_of(v)[k] as int, v.to_play),
    ensures
        select(v, valid_moves_of(v)[k] as int).to_play == v.to_play,
        !select(v, valid_moves_of(v)[k] as int).switched_turn,
        expand_moves(v, (k + 1) as nat) == expand_moves(v, k as nat) + expand(
            select(v, valid_moves_of(v)[k] as int),
        ),
{
    let n = (k + 1) as nat;
    assert((n - 1) as nat == k);
    let c = select(v, valid_moves_of(v)[k] as int);
    lemma_valid_moves_upto(v, 6);
    lemma_turn_measure(v, valid_moves_of(v)[k] as int);
    assert(expand_moves(v, n) == expand_moves(v, (n - 1) as nat) + expand(c));
}

/// Scores stay within `i32` and away from its least value.
pub proof fn lemma_score_bounds(v: KalahaView)
    requires
        view_ok(v),
    ensures
        -i32::MAX <= score(v) <= i32::MAX,
{
    lemma_pits_le_total(v.values, 6, 13, 0);
    lemma_pits_le_total(v.values, 13, 6, 0);
}

/// Seen from the other player, the same position scores the negation.
pub proof fn lemma_score_antisymmetric(v: KalahaView)
    ensures
        score(KalahaView { to_play: opposite_of(v.to_play), ..v }) == -score(v),
{
}

/// Where a turn given as selections from `v` ends: after the hand-over, or
/// in the sweep where the selections leave the mover without one to make.
pub open spec fn turn_end(v: KalahaView, ms: Seq<usize>) -> KalahaView {
    let a = apply_moves(v, ms);
    if ms.len() > 0 && a.switched_turn {
        a
    } else {
        sweep(a)
    }
}

/// The selections already recorded for the turn under way in `v`.
pub open spec fn record_base(v: KalahaView) -> Seq<usize> {
    if v.switched_turn {
        Seq::empty()
    } else {
        v.moves
    }
}

/// Whether outcome `c` is where selections `ms` from `v` end the turn.
pub open spec fn replays_to(v: KalahaView, ms: Seq<usize>, c: KalahaView) -> bool {
    &&& playing_moves(v, ms)
    &&& c == turn_end(v, ms)
    &&& c.moves == record_base(v) + ms
}

/// Whether some legal selections from `v` end the turn in `c`, as `c` records them.
pub open spec fn replayable(v: KalahaView, c: KalahaView) -> bool {
    exists|ms: Seq<usize>| replays_to(v, ms, c)
}

/// Selections after a first one play out from the state that it leaves.
proof fn lemma_apply_prepend(v: KalahaView, i: usize, ms: Seq<usize>)
    requires
        view_ok(v),
        !is_over(v),
        is_valid_move(v, i as int),
        playing_moves(select(v, i as int), ms),
    ensures
        apply_moves(v, seq![i] + ms) == apply_moves(select(v, i as int), ms),
        playing_moves(v, seq![i] + ms),
    decreases ms.len(),
{
    let whole = seq![i] + ms;
    let c = select(v, i as int);
    if ms.len() == 0 {
        assert(whole =~= seq![i]);
        assert(whole.drop_last() =~= Seq::<usize>::empty());
        assert(apply_moves(v, whole.drop_last()) == v);
        assert(apply_moves(c, ms) == c);
        assert(playing_moves(v, whole.drop_last()));
    } else {
        assert(whole.drop_last() =~= seq![i] + ms.drop_last());
        assert(whole.last() == ms.last());
        lemma_apply_prepend(v, i, ms.drop_last());
        assert(apply_moves(v, whole) == select(apply_moves(c, ms.drop_last()), ms.last() as int));
    }
}

/// Each outcome of a turn is where the selections that it records end that
/// turn, and they are legal when made: the turn can be replayed.
pub proof fn lemma_expand_replays(v: KalahaView)
    requires
        view_ok(v),
        !is_over(v),
    ensures
        forall|j: int|
            0 <= j < expand(v).len() ==> replayable(v, #[trigger] expand(v)[j]),
    decreases turn_measure(v), 1int, 0int,
{
    if valid_moves_of(v).len() == 0 {
        assert(apply_moves(v, Seq::empty()) == v);
        assert(sweep(v).moves =~= record_base(v) + Seq::<usize>::empty());
        assert(replays_to(v, Seq::empty(), sweep(v)));
        assert forall|j: int| 0 <= j < expand(v).len() implies replayable(v, #[trigger] expand(v)[j]) by {
            assert(expand(v)[j] == sweep(v));
            assert(replays_to(v, Seq::empty(), expand(v)[j]));
        }
    } else {
        lemma_expand_moves_replay(v, valid_moves_of(v).len());
        assert(expand(v) == expand_moves(v, valid_moves_of(v).len()));
    }
}

/// Each outcome of the first `n` legal selections can be replayed.
proof fn lemma_expand_moves_replay(v: KalahaView, n: nat)
    requires
        view_ok(v),
        !is_over(v),
        n <= valid_moves_of(v).len(),
    ensures
        forall|j: int|
            0 <= j < expand_moves(v, n).len() ==> replayable(v, #[trigger] expand_moves(v, n)[j]),
    decreases turn_measure(v), 0int, n,
{
    if n == 0 {
        assert(expand_moves(v, n).len() == 0);
    } else {
        lemma_valid_moves_upto(v, 6);
        let i = valid_moves_of(v)[n - 1];
        lemma_turn_measure(v, i as int);
        let c = select(v, i as int);
        lemma_expand_moves_replay(v, (n - 1) as nat);
        let prev = expand_moves(v, (n - 1) as nat);
        assert(is_valid_move(v, i as int));
        assert(seq![i].drop_last() =~= Seq::<usize>::empty());
        assert(apply_moves(v, seq![i].drop_last()) == v);
        assert(playing_moves(v, seq![i].drop_last()));
        assert(playing_moves(v, seq![i]));
        assert(apply_moves(v, seq![i]) == c);
        if c.switched_turn {
            assert(expand_moves(v, n) == prev + seq![c]);
            assert(c.moves =~= record_base(v) + seq![i]);
            assert(replays_to(v, seq![i], c));
        } else {
            lemma_expand_replays(c);
            let tail = expand(c);
            assert(expand_moves(v, n) == prev + tail);
            assert forall|j: int| 0 <= j < tail.len() implies replayable(v, #[trigger] tail[j]) by {
                let ms2 = choose|ms2: Seq<usize>| replays_to(c, ms2, tail[j]);
                lemma_apply_prepend(v, i, ms2);
                let ms = seq![i] + ms2;
                assert(ms.len() > 0);
                assert(record_base(c) == record_base(v).push(i));
                assert(tail[j].moves =~= record_base(v) + ms);
                if ms2.len() == 0 {
                    assert(ms2 =~= Seq::<usize>::empty());
                    assert(apply_moves(c, ms2) == c);
                }
                assert(replays_to(v, ms, tail[j]));
            }
        }
        let whole = expand_moves(v, n);
        assert forall|j: int| 0 <= j < whole.len() implies replayable(v, #[trigger] whole[j]) by {
            if j < prev.len() {
                assert(whole[j] == prev[j]);
                let ms = choose|ms: Seq<usize>| replays_to(v, ms, prev[j]);
                assert(replays_to(v, ms, whole[j]));
            } else {
                if c.switched_turn {
                    assert(whole[j] == c);
                    assert(replays_to(v, seq![i], c));
                } else {
                    let t = expand(c)[j - prev.len()];
                    assert(whole[j] == t);
                    let ms = choose|ms: Seq<usize>| replays_to(v, ms, t);
                    assert(replays_to(v, ms, whole[j]));
                }
            }
        }
    }
}

} // verus!
