use vstd::prelude::*;

use crate::board::{first_field_of, is_field_of, opposite_of, store_of, Player};

verus! {

/// Whether a game goes on, or has ended with a winner (`None`: a draw).
#[derive(Debug, Clone, Copy, PartialEq, Eq, Structural)]
pub enum GameState {
    Playing,
    GameOver(Option<Player>),
}

/// Sum of the seeds on a fourteen-pit board.
#[verifier::opaque]
pub open spec fn total(b: Seq<int>) -> int {
    b[0] + b[1] + b[2] + b[3] + b[4] + b[5] + b[6] + b[7] + b[8] + b[9] + b[10] + b[11] + b[12]
        + b[13]
}

/// A board of fourteen pits, none of them negative.
pub open spec fn board_ok(b: Seq<int>) -> bool {
    &&& b.len() == 14
    &&& forall|i: int| 0 <= i < 14 ==> #[trigger] b[i] >= 0
}

/// The pit after `pos` into which `p` sows: the opponent's store is passed over.
pub open spec fn next_pit(pos: int, p: Player) -> int {
    let n = (pos + 1) % 14;
    if n == store_of(opposite_of(p)) {
        (n + 1) % 14
    } else {
        n
    }
}

/// Sows `seeds` seeds one by one after `pos` for player `p`; gives the board
/// and the index of the pit that received the last seed.
pub open spec fn sow(b: Seq<int>, pos: int, seeds: nat, p: Player) -> (Seq<int>, int)
    decreases seeds,
{
    if seeds == 0 {
        (b, pos)
    } else {
        let n = next_pit(pos, p);
        sow(b.update(n, b[n] + 1), n, (seeds - 1) as nat, p)
    }
}

/// Index of the field facing field `i`.
pub open spec fn opposite_field(i: int) -> int {
    12 - i
}

/// The winner by comparison of the two stores.
pub open spec fn winner_of(b: Seq<int>) -> Option<Player> {
    if b[6] > b[13] {
        Some(Player::Almuta)
    } else if b[6] == b[13] {
        None
    } else {
        Some(Player::Batal)
    }
}

/// Whether one store holds more than half of all seeds.
pub open spec fn has_majority(b: Seq<int>) -> bool {
    2 * b[6] > total(b) || 2 * b[13] > total(b)
}

/// Sows from field `i` of a board for player `p`: the field is emptied first.
pub open spec fn sow_from(b: Seq<int>, i: int, p: Player) -> (Seq<int>, int) {
    sow(b.update(i, 0), i, b[i] as nat, p)
}

/// Whether the last seed sown from `i` makes a capture: it lands in an
/// empty field of the mover.
pub open spec fn makes_capture(b: Seq<int>, i: int, p: Player) -> bool {
    let (s, last) = sow_from(b, i, p);
    is_field_of(p, last) && s[last] == 1
}

/// The board after `p` selects field `i`: sowing, then a capture if one is made,
/// which moves the facing field and the capturing seed into the mover's store.
pub open spec fn board_after_select(b: Seq<int>, i: int, p: Player) -> Seq<int> {
    let (s, last) = sow_from(b, i, p);
    if makes_capture(b, i, p) {
        let o = opposite_field(last);
        let st = store_of(p);
        s.update(st, s[st] + s[o] + 1).update(last, 0).update(o, 0)
    } else {
        s
    }
}

/// Whether the last seed sown from `i` lands in the mover's own store.
pub open spec fn earns_extra_turn(b: Seq<int>, i: int, p: Player) -> bool {
    sow_from(b, i, p).1 == store_of(p)
}

/// Sowing keeps the board sound, adds its seeds to the total, only ever adds
/// seeds, passes over the opponent's store, and fills the pit it ends in.
pub proof fn lemma_sow(b: Seq<int>, pos: int, seeds: nat, p: Player)
    requires
        board_ok(b),
        0 <= pos < 14,
    ensures
        board_ok(sow(b, pos, seeds, p).0),
        total(sow(b, pos, seeds, p).0) == total(b) + seeds,
        0 <= sow(b, pos, seeds, p).1 < 14,
        sow(b, pos, seeds, p).1 != store_of(opposite_of(p)) || seeds == 0,
        sow(b, pos, seeds, p).0[store_of(opposite_of(p))] == b[store_of(opposite_of(p))],
        forall|j: int| 0 <= j < 14 ==> #[trigger] sow(b, pos, seeds, p).0[j] >= b[j],
        seeds > 0 ==> sow(b, pos, seeds, p).0[sow(b, pos, seeds, p).1] >= b[sow(
            b,
            pos,
            seeds,
            p,
        ).1] + 1,
    decreases seeds,
{
    if seeds > 0 {
        let n = next_pit(pos, p);
        let b2 = b.update(n, b[n] + 1);
        lemma_total_update(b, n, b[n] + 1);
        lemma_sow(b2, n, (seeds - 1) as nat, p);
        let (s, last) = sow(b2, n, (seeds - 1) as nat, p);
        if seeds == 1 {
            assert(last == n);
        } else {
            assert(s[last] >= b2[last] + 1);
        }
    }
}

/// Changing one pit changes the total by the same amount.
pub proof fn lemma_total_update(b: Seq<int>, k: int, x: int)
    requires
        b.len() == 14,
        0 <= k < 14,
    ensures
        total(b.update(k, x)) == total(b) - b[k] + x,
{
    reveal(total);
}

/// Pits of a sound board hold no more than the whole board together.
pub proof fn lemma_pits_le_total(b: Seq<int>, a: int, c: int, d: int)
    requires
        board_ok(b),
        0 <= a < 14,
        0 <= c < 14,
        0 <= d < 14,
        a != c,
        a != d,
        c != d,
    ensures
        b[a] <= total(b),
        b[a] + b[c] + b[d] <= total(b),
{
    let b1 = b.update(a, 0);
    let b2 = b1.update(c, 0);
    let b3 = b2.update(d, 0);
    lemma_total_update(b, a, 0);
    lemma_total_update(b1, c, 0);
    lemma_total_update(b2, d, 0);
    lemma_total_nonneg(b1);
    lemma_total_nonneg(b3);
}

/// A sound board holds no negative total.
pub proof fn lemma_total_nonneg(b: Seq<int>)
    requires
        board_ok(b),
    ensures
        total(b) >= 0,
{
    reveal(total);
    assert(b[0] >= 0 && b[1] >= 0 && b[2] >= 0 && b[3] >= 0 && b[4] >= 0 && b[5] >= 0 && b[6] >= 0);
    assert(b[7] >= 0 && b[8] >= 0 && b[9] >= 0 && b[10] >= 0 && b[11] >= 0 && b[12] >= 0 && b[13] >= 0);
}

/// A selection keeps the board sound and its total, leaves the opponent's
/// store alone, and fills the mover's store by one at least on an extra turn.
pub proof fn lemma_select(b: Seq<int>, i: int, p: Player)
    requires
        board_ok(b),
        is_field_of(p, i),
        b[i] > 0,
    ensures
        board_ok(board_after_select(b, i, p)),
        total(board_after_select(b, i, p)) == total(b),
        board_after_select(b, i, p)[store_of(opposite_of(p))] == b[store_of(opposite_of(p))],
        board_after_select(b, i, p)[store_of(p)] >= b[store_of(p)],
        earns_extra_turn(b, i, p) ==> board_after_select(b, i, p)[store_of(p)] >= b[store_of(p)]
            + 1,
        earns_extra_turn(b, i, p) ==> !makes_capture(b, i, p),
{
    let b0 = b.update(i, 0);
    lemma_total_update(b, i, 0);
    lemma_sow(b0, i, b[i] as nat, p);
    let (s, last) = sow_from(b, i, p);
    assert(s[store_of(p)] >= b0[store_of(p)]);
    if makes_capture(b, i, p) {
        let o = opposite_field(last);
        let st = store_of(p);
        let s1 = s.update(st, s[st] + s[o] + 1);
        let s2 = s1.update(last, 0);
        lemma_total_update(s, st, s[st] + s[o] + 1);
        lemma_total_update(s1, last, 0);
        lemma_total_update(s2, o, 0);
        assert(board_after_select(b, i, p) == s2.update(o, 0));
    } else {
        assert(board_after_select(b, i, p) == s);
    }
}

/// Sowing that stays within the mover's own fields adds one seed to each of
/// the pits after `pos` in turn and ends `seeds` pits further on.
pub proof fn lemma_sow_within_fields(b: Seq<int>, pos: int, seeds: nat, p: Player)
    requires
        board_ok(b),
        first_field_of(p) <= pos,
        pos + seeds < store_of(p),
    ensures
        sow(b, pos, seeds, p).1 == pos + seeds,
        forall|j: int| pos < j <= pos + seeds ==> #[trigger] sow(b, pos, seeds, p).0[j] == b[j] + 1,
        forall|j: int|
            0 <= j < 14 && !(pos < j <= pos + seeds) ==> #[trigger] sow(b, pos, seeds, p).0[j] == b[j],
    decreases seeds,
{
    if seeds > 0 {
        let n = next_pit(pos, p);
        assert(n == pos + 1);
        let b2 = b.update(n, b[n] + 1);
        lemma_sow_within_fields(b2, n, (seeds - 1) as nat, p);
    }
}

} // verus!
