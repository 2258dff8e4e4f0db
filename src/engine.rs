use vstd::prelude::*;

use crate::game::{
    lemma_expand_replays, replayable,
    lemma_score_bounds,
    all_wf, expand, is_over, lemma_expand_conserves, lemma_valid_moves_upto, score, sweep, valid_moves_of, view_ok, views,
    KalahaState, KalahaView,
};

verus! {

/// The larger of two scores.
pub open spec fn max_of(a: int, b: int) -> int {
    if a >= b {
        a
    } else {
        b
    }
}

/// The smaller of two scores.
pub open spec fn min_of(a: int, b: int) -> int {
    if a <= b {
        a
    } else {
        b
    }
}

/// `x` brought into the window from `lo` to `hi`.
pub open spec fn clamp(x: int, lo: int, hi: int) -> int {
    max_of(lo, min_of(x, hi))
}

/// Plain negamax: the score of `v` for its player to move, `depth` turns
/// deep, each player taking the turn that is best for that player.
pub open spec fn negamax_value(v: KalahaView, depth: nat) -> int
    recommends
        view_ok(v),
    decreases depth, 2int, 0int,
{
    if depth == 0 || is_over(v) {
        score(v)
    } else {
        negamax_value_from(v, expand(v), 0, depth)
    }
}

/// The negamax score of outcome `c` of a turn in `v`, for the player to move in `v`.
pub open spec fn child_value(v: KalahaView, c: KalahaView, depth: nat) -> int
    decreases depth, 3int, 0int,
{
    if c.to_play == v.to_play {
        negamax_value(c, depth)
    } else {
        -negamax_value(c, depth)
    }
}

/// The best negamax score among the outcomes `cs[k..]`.
pub open spec fn negamax_value_from(v: KalahaView, cs: Seq<KalahaView>, k: nat, depth: nat) -> int
    decreases depth, 1int, cs.len() - k,
{
    if k >= cs.len() || depth == 0 {
        -i32::MAX
    } else {
        max_of(
            child_value(v, cs[k as int], (depth - 1) as nat),
            negamax_value_from(v, cs, k + 1, depth),
        )
    }
}

/// Alpha-beta negamax: the score of `v` for its player to move, searched
/// `depth` turns deep within the window from `alpha` to `beta`.
pub open spec fn alphabeta(v: KalahaView, alpha: int, beta: int, depth: nat) -> int
    recommends
        view_ok(v),
    decreases depth, 2int, 0int,
{
    if depth == 0 || is_over(v) {
        score(v)
    } else {
        alphabeta_from(v, expand(v), 0, alpha, beta, -i32::MAX, depth)
    }
}

/// The score of outcome `c` of a turn in `v`, for the player to move in `v`.
/// An outcome where the same player is still to move (the sweep) is not negated.
pub open spec fn child_alphabeta(v: KalahaView, c: KalahaView, alpha: int, beta: int, depth: nat) -> int
    decreases depth, 3int, 0int,
{
    if c.to_play == v.to_play {
        alphabeta(c, alpha, beta, depth)
    } else {
        -alphabeta(c, -beta, -alpha, depth)
    }
}

/// The alpha-beta scan over the outcomes `cs[k..]`, with the best score so far
/// `best`; it stops once the lower bound reaches `beta`.
pub open spec fn alphabeta_from(
    v: KalahaView,
    cs: Seq<KalahaView>,
    k: nat,
    alpha: int,
    beta: int,
    best: int,
    depth: nat,
) -> int
    decreases depth, 1int, cs.len() - k,
{
    if k >= cs.len() || depth == 0 {
        best
    } else {
        let e = child_alphabeta(v, cs[k as int], alpha, beta, (depth - 1) as nat);
        let best2 = max_of(best, e);
        let alpha2 = max_of(alpha, e);
        if alpha2 >= beta {
            best2
        } else {
            alphabeta_from(v, cs, k + 1, alpha2, beta, best2, depth)
        }
    }
}

/// The root scan over the outcomes `cs[k..]`: gives the index of the first
/// outcome of best score (`best_idx` below zero: none yet) and that score.
pub open spec fn search_from(
    v: KalahaView,
    cs: Seq<KalahaView>,
    k: nat,
    alpha: int,
    best_idx: int,
    best: int,
    depth: nat,
) -> (int, int)
    decreases cs.len() - k,
{
    if k >= cs.len() || depth == 0 {
        (best_idx, best)
    } else {
        let e = child_alphabeta(v, cs[k as int], alpha, i32::MAX as int, (depth - 1) as nat);
        let (bi, b) = if best_idx < 0 || e > best {
            (k as int, e)
        } else {
            (best_idx, best)
        };
        search_from(v, cs, k + 1, max_of(alpha, e), bi, b, depth)
    }
}

/// The best turn for the player to move in `v`, searched `depth` turns deep,
/// and its score. No turn is given where the depth is zero, the game is over,
/// or no field can be selected (the sweep, whose score is then given).
pub open spec fn search(v: KalahaView, depth: nat) -> (Option<Seq<usize>>, int) {
    if depth == 0 || is_over(v) {
        (None, score(v))
    } else if valid_moves_of(v).len() == 0 {
        (None, score(sweep(v)))
    } else {
        let cs = expand(v);
        let (bi, b) = search_from(v, cs, 0, -i32::MAX, -1, -i32::MAX, depth);
        (Some(cs[bi].moves), b)
    }
}

/// Alpha-beta negamax from `kalaha_state`, `depth` turns deep, within the
/// window from `alpha` to `beta`; the score is for the player to move.
pub fn negamax(kalaha_state: &KalahaState, alpha: i32, beta: i32, depth: u8) -> (r: i32)
    requires
        kalaha_state.wf(),
        -i32::MAX <= alpha,
        -i32::MAX <= beta,
    ensures
        r == alphabeta(kalaha_state@, alpha as int, beta as int, depth as nat),
        -i32::MAX <= r,
        alpha <= beta ==> clamp(r as int, alpha as int, beta as int) == clamp(
            negamax_value(kalaha_state@, depth as nat),
            alpha as int,
            beta as int,
        ),
    decreases depth,
{
    proof {
        if alpha <= beta {
            lemma_alphabeta_sound(kalaha_state@, alpha as int, beta as int, depth as nat);
        }
    }
    if depth == 0 || kalaha_state.game_is_over() {
        return kalaha_state.evaluate();
    }
    let ghost v = kalaha_state@;
        let mut best_eval = -i32::MAX;
    let mut lower = alpha;
    let generated_sequences = kalaha_state.generate_move_sequence_results();
    let ghost cs = views(generated_sequences@);
    let mut k: usize = 0;
    while k < generated_sequences.len()
        invariant
            all_wf(generated_sequences@),
            cs == views(generated_sequences@),
            cs == expand(v),
            v == kalaha_state@,
            depth > 0,
            !is_over(v),
            -i32::MAX <= lower,
            -i32::MAX <= best_eval,
            -i32::MAX <= beta,
            k <= cs.len(),
            alphabeta_from(v, cs, k as nat, lower as int, beta as int, best_eval as int, depth as nat)
                == alphabeta(v, alpha as int, beta as int, depth as nat),
            alpha <= beta ==> clamp(alphabeta(v, alpha as int, beta as int, depth as nat), alpha as int, beta as int)
                == clamp(negamax_value(v, depth as nat), alpha as int, beta as int),
        decreases cs.len() - k,
    {
        let game = &generated_sequences[k];
        assert(game@ == cs[k as int]);
        let eval = if game.to_play == kalaha_state.to_play {
            negamax(game, lower, beta, depth - 1)
        } else {
            -negamax(game, -beta, -lower, depth - 1)
        };
        assert(eval == child_alphabeta(v, cs[k as int], lower as int, beta as int, (depth - 1) as nat));
        let ghost before_lower = lower;
        let ghost before_best = best_eval;
        if eval > best_eval {
            best_eval = eval;
        }
        if eval > lower {
            lower = eval;
        }
        if lower >= beta {
            assert(alphabeta_from(v, cs, k as nat, before_lower as int, beta as int, before_best as int, depth as nat)
                == best_eval);
            return best_eval;
        }
        assert(alphabeta_from(v, cs, k as nat, before_lower as int, beta as int, before_best as int, depth as nat)
            == alphabeta_from(v, cs, (k + 1) as nat, lower as int, beta as int, best_eval as int, depth as nat));
        k = k + 1;
    }
    best_eval
}

/// Searches `depth` turns deep for the best turn of the player to move. Gives
/// the selections of that turn, `None` where there is none to make (zero
/// depth, a game that is over, or the sweep), and its score.
pub fn negamax_search(kalaha_state: &KalahaState, depth: u8) -> (r: (Option<Vec<usize>>, i32))
    requires
        kalaha_state.wf(),
    ensures
        r.1 == search(kalaha_state@, depth as nat).1,
        search(kalaha_state@, depth as nat).0 == (match r.0 {
            Some(m) => Some(m@),
            None => None::<Seq<usize>>,
        }),
        depth == 0 || is_over(kalaha_state@) ==> r.0 is None && r.1 == score(kalaha_state@),
        depth > 0 && !is_over(kalaha_state@) && valid_moves_of(kalaha_state@).len() == 0 ==> r.0 is None
            && r.1 == score(sweep(kalaha_state@)),
        depth > 0 && !is_over(kalaha_state@) && valid_moves_of(kalaha_state@).len() > 0 ==> r.1
            == negamax_value(kalaha_state@, depth as nat) && exists|bi: int|
            is_first_best(
                kalaha_state@,
                expand(kalaha_state@),
                expand(kalaha_state@).len() as int,
                bi,
                (depth - 1) as nat,
            ) && #[trigger] expand(kalaha_state@)[bi].moves == r.0->Some_0@ && replayable(
                kalaha_state@,
                expand(kalaha_state@)[bi],
            ),
{
    if depth == 0 || kalaha_state.game_is_over() {
        return (None, kalaha_state.evaluate());
    }
    let ghost v = kalaha_state@;
    let valid_moves = kalaha_state.valid_moves();
    if valid_moves.len() == 0 {
        let mut game_end = kalaha_state.copy_state();
        game_end.snatch_seeds();
        return (None, game_end.evaluate());
    }
    let generated_sequences = kalaha_state.generate_move_sequence_results();
    let ghost cs = views(generated_sequences@);
    proof {
        lemma_expand_conserves(v);
        lemma_search_exact(v, depth as nat);
        lemma_expand_replays(v);
    }
    let mut best_index: usize = 0;
    let mut found = false;
    let mut best_eval = -i32::MAX;
    let mut alpha = -i32::MAX;
    let beta = i32::MAX;
    let mut k: usize = 0;
    while k < generated_sequences.len()
        invariant
            all_wf(generated_sequences@),
            cs == views(generated_sequences@),
            cs == expand(v),
            cs.len() >= 1,
            v == kalaha_state@,
            depth > 0,
            !is_over(v),
            valid_moves_of(v).len() > 0,
            -i32::MAX <= alpha,
            -i32::MAX <= best_eval,
            beta == i32::MAX,
            k <= cs.len(),
            found ==> best_index < k,
            k > 0 ==> found,
            search_from(v, cs, k as nat, alpha as int, if found { best_index as int } else { -1 }, best_eval as int, depth as nat)
                == search_from(v, cs, 0, -i32::MAX, -1, -i32::MAX, depth as nat),
        decreases cs.len() - k,
    {
        let game = &generated_sequences[k];
        assert(game@ == cs[k as int]);
        let eval = if game.to_play == kalaha_state.to_play {
            negamax(game, alpha, beta, depth - 1)
        } else {
            -negamax(game, -beta, -alpha, depth - 1)
        };
        if !found || eval > best_eval {
            found = true;
            best_index = k;
            best_eval = eval;
        }
        if eval > alpha {
            alpha = eval;
        }
        k = k + 1;
    }
    let best_move = generated_sequences[best_index].last_moves.clone();
    assert(best_move@ =~= cs[best_index as int].moves);
    (Some(best_move), best_eval)
}

/// The score of outcome `c` of a turn in `v` for the player to move in `v`,
/// evaluated where it stands.
pub open spec fn outcome_score(v: KalahaView, c: KalahaView) -> int {
    if c.to_play == v.to_play {
        score(c)
    } else {
        -score(c)
    }
}

/// Whether `bi` is the first outcome among `cs[..k]` of highest negamax
/// score searched `depth` turns further.
pub open spec fn is_first_best(v: KalahaView, cs: Seq<KalahaView>, k: int, bi: int, depth: nat) -> bool {
    &&& 0 <= bi < k
    &&& forall|j: int|
        0 <= j < k ==> child_value(v, #[trigger] cs[j], depth) <= child_value(v, cs[bi], depth)
    &&& forall|j: int| 0 <= j < bi ==> child_value(v, #[trigger] cs[j], depth) < child_value(v, cs[bi], depth)
}

/// The root scan keeps the first outcome of best negamax score.
proof fn lemma_search_from_exact(
    v: KalahaView,
    cs: Seq<KalahaView>,
    k: nat,
    alpha: int,
    bi: int,
    b: int,
    depth: nat,
)
    requires
        view_ok(v),
        cs == expand(v),
        depth > 0,
        k <= cs.len(),
        cs.len() >= 1,
        k == 0 ==> bi < 0 && b == -i32::MAX,
        k > 0 ==> is_first_best(v, cs, k as int, bi, (depth - 1) as nat) && b == child_value(
            v,
            cs[bi],
            (depth - 1) as nat,
        ),
        alpha == b,
        -i32::MAX <= b <= i32::MAX,
        max_of(b, negamax_value_from(v, cs, k, depth)) == negamax_value_from(v, cs, 0, depth),
    ensures
        is_first_best(
            v,
            cs,
            cs.len() as int,
            search_from(v, cs, k, alpha, bi, b, depth).0,
            (depth - 1) as nat,
        ),
        search_from(v, cs, k, alpha, bi, b, depth).1 == negamax_value_from(v, cs, 0, depth),
    decreases cs.len() - k,
{
    lemma_expand_conserves(v);
    lemma_negamax_value_from_bounds(v, cs, k, depth);
    if k < cs.len() {
        let c = cs[k as int];
        assert(view_ok(c));
        let d = (depth - 1) as nat;
        if c.to_play == v.to_play {
            lemma_alphabeta_sound(c, alpha, i32::MAX as int, d);
        } else {
            lemma_alphabeta_sound(c, -i32::MAX, -alpha, d);
        }
        let e = child_alphabeta(v, c, alpha, i32::MAX as int, d);
        let t = child_value(v, c, d);
        assert(clamp(e, alpha, i32::MAX as int) == clamp(t, alpha, i32::MAX as int));
        let (bi2, b2) = if bi < 0 || e > b {
            (k as int, e)
        } else {
            (bi, b)
        };
        assert(bi < 0 || e > b ==> e == t);
        assert(is_first_best(v, cs, (k + 1) as int, bi2, d));
        lemma_search_from_exact(v, cs, k + 1, max_of(alpha, e), bi2, b2, depth);
    }
}

/// The search picks, among the outcomes of the turn, the first one of
/// highest negamax score searched one turn less deep, and its score is the
/// negamax score of the position.
pub proof fn lemma_search_exact(v: KalahaView, depth: nat)
    requires
        view_ok(v),
        depth > 0,
        !is_over(v),
        valid_moves_of(v).len() > 0,
    ensures
        search(v, depth).1 == negamax_value(v, depth),
        exists|bi: int|
            is_first_best(v, expand(v), expand(v).len() as int, bi, (depth - 1) as nat)
                && #[trigger] search(v, depth).0 == Some(expand(v)[bi].moves),
{
    let cs = expand(v);
    lemma_expand_conserves(v);
    lemma_negamax_value_from_bounds(v, cs, 0, depth);
    lemma_search_from_exact(v, cs, 0, -i32::MAX, -1, -i32::MAX, depth);
    let bi = search_from(v, cs, 0, -i32::MAX, -1, -i32::MAX, depth).0;
    assert(is_first_best(v, cs, cs.len() as int, bi, (depth - 1) as nat));
}

/// A search one turn deep picks, among the outcomes of the turn, the first
/// one of highest score, and gives that score.
pub proof fn lemma_depth_one_search(v: KalahaView)
    requires
        view_ok(v),
        !is_over(v),
        valid_moves_of(v).len() > 0,
    ensures
        exists|bi: int|
            0 <= bi < expand(v).len() && (forall|j: int|
                0 <= j < expand(v).len() ==> outcome_score(v, #[trigger] expand(v)[j]) <= outcome_score(
                    v,
                    expand(v)[bi],
                )) && (forall|j: int|
                0 <= j < bi ==> outcome_score(v, #[trigger] expand(v)[j]) < outcome_score(
                    v,
                    expand(v)[bi],
                )) && #[trigger] search(v, 1) == (
                Some(expand(v)[bi].moves),
                outcome_score(v, expand(v)[bi]),
            ),
{
    let cs = expand(v);
    lemma_search_exact(v, 1);
    let bi = choose|bi: int|
        is_first_best(v, cs, cs.len() as int, bi, 0) && #[trigger] search(v, 1).0 == Some(cs[bi].moves);
    assert forall|j: int| 0 <= j < cs.len() implies child_value(v, #[trigger] cs[j], 0) == outcome_score(
        v,
        cs[j],
    ) by {}
    assert(negamax_value(v, 1) == negamax_value_from(v, cs, 0, 1));
    lemma_first_best_is_max(v, cs, 0, bi, 1);
}

/// The first best outcome scores the best negamax score among `cs[k..]`
/// where it stands among them.
proof fn lemma_first_best_is_max(v: KalahaView, cs: Seq<KalahaView>, k: nat, bi: int, depth: nat)
    requires
        view_ok(v),
        cs == expand(v),
        depth > 0,
        is_first_best(v, cs, cs.len() as int, bi, (depth - 1) as nat),
        k <= bi,
    ensures
        negamax_value_from(v, cs, k, depth) == child_value(v, cs[bi], (depth - 1) as nat),
    decreases cs.len() - k,
{
    lemma_expand_conserves(v);
    lemma_negamax_value_from_bounds(v, cs, k, depth);
    assert(view_ok(cs[bi]));
    lemma_negamax_value_bounds(cs[bi], (depth - 1) as nat);
    let t = child_value(v, cs[bi], (depth - 1) as nat);
    if k < bi {
        lemma_first_best_is_max(v, cs, k + 1, bi, depth);
        assert(child_value(v, cs[k as int], (depth - 1) as nat) < t);
    } else {
        lemma_value_from_le(v, cs, k + 1, bi, depth);
        assert(negamax_value_from(v, cs, k, depth) == max_of(t, negamax_value_from(v, cs, k + 1, depth)));
    }
}

/// No outcome among `cs[k..]` scores above the best one.
proof fn lemma_value_from_le(v: KalahaView, cs: Seq<KalahaView>, k: nat, bi: int, depth: nat)
    requires
        view_ok(v),
        cs == expand(v),
        depth > 0,
        is_first_best(v, cs, cs.len() as int, bi, (depth - 1) as nat),
    ensures
        negamax_value_from(v, cs, k, depth) <= max_of(
            child_value(v, cs[bi], (depth - 1) as nat),
            -i32::MAX,
        ),
    decreases cs.len() - k,
{
    if k < cs.len() {
        lemma_value_from_le(v, cs, k + 1, bi, depth);
    }
}

/// Alpha-beta search agrees with plain negamax within its window: brought
/// into the window, the two scores are equal.
pub proof fn lemma_alphabeta_sound(v: KalahaView, alpha: int, beta: int, depth: nat)
    requires
        view_ok(v),
        -i32::MAX <= alpha <= beta <= i32::MAX,
    ensures
        -i32::MAX <= alphabeta(v, alpha, beta, depth) <= i32::MAX,
        -i32::MAX <= negamax_value(v, depth) <= i32::MAX,
        clamp(alphabeta(v, alpha, beta, depth), alpha, beta) == clamp(
            negamax_value(v, depth),
            alpha,
            beta,
        ),
    decreases depth, 1int, 0int,
{
    if depth == 0 || is_over(v) {
        lemma_score_bounds(v);
    } else {
        let cs = expand(v);
        lemma_expand_conserves(v);
        lemma_alphabeta_from_sound(v, cs, 0, alpha, alpha, beta, -i32::MAX, -i32::MAX, depth);
    }
}

/// The alpha-beta scan agrees, within the window, with the best negamax
/// score of the outcomes, given the best one `m` of those already scanned.
proof fn lemma_alphabeta_from_sound(
    v: KalahaView,
    cs: Seq<KalahaView>,
    k: nat,
    alpha: int,
    lower: int,
    beta: int,
    best: int,
    m: int,
    depth: nat,
)
    requires
        view_ok(v),
        cs == expand(v),
        depth > 0,
        k <= cs.len(),
        -i32::MAX <= alpha <= beta <= i32::MAX,
        -i32::MAX <= best <= beta,
        -i32::MAX <= m <= i32::MAX,
        lower == max_of(alpha, best),
        clamp(best, alpha, beta) == clamp(m, alpha, beta),
    ensures
        -i32::MAX <= alphabeta_from(v, cs, k, lower, beta, best, depth) <= i32::MAX,
        -i32::MAX <= negamax_value_from(v, cs, k, depth) <= i32::MAX,
        clamp(alphabeta_from(v, cs, k, lower, beta, best, depth), alpha, beta) == clamp(
            max_of(m, negamax_value_from(v, cs, k, depth)),
            alpha,
            beta,
        ),
    decreases depth, 0int, cs.len() - k,
{
    if k < cs.len() {
        lemma_expand_conserves(v);
        let c = cs[k as int];
        assert(view_ok(c));
        let d = (depth - 1) as nat;
        if c.to_play == v.to_play {
            lemma_alphabeta_sound(c, lower, beta, d);
        } else {
            lemma_alphabeta_sound(c, -beta, -lower, d);
        }
        let e = child_alphabeta(v, c, lower, beta, d);
        let t = child_value(v, c, d);
        assert(clamp(e, lower, beta) == clamp(t, lower, beta));
        let best2 = max_of(best, e);
        let lower2 = max_of(lower, e);
        if lower2 < beta {
            lemma_alphabeta_from_sound(v, cs, k + 1, alpha, lower2, beta, best2, max_of(m, t), depth);
        } else {
            lemma_negamax_value_from_bounds(v, cs, k + 1, depth);
        }
    }
}

/// Negamax scores stay within `i32` and away from its least value.
proof fn lemma_negamax_value_bounds(v: KalahaView, depth: nat)
    requires
        view_ok(v),
    ensures
        -i32::MAX <= negamax_value(v, depth) <= i32::MAX,
    decreases depth, 1int, 0int,
{
    if depth == 0 || is_over(v) {
        lemma_score_bounds(v);
    } else {
        lemma_negamax_value_from_bounds(v, expand(v), 0, depth);
    }
}

/// The best negamax score of a scan stays within `i32` and away from its least value.
proof fn lemma_negamax_value_from_bounds(v: KalahaView, cs: Seq<KalahaView>, k: nat, depth: nat)
    requires
        view_ok(v),
        cs == expand(v),
    ensures
        -i32::MAX <= negamax_value_from(v, cs, k, depth) <= i32::MAX,
    decreases depth, 0int, cs.len() - k,
{
    if k < cs.len() && depth > 0 {
        lemma_expand_conserves(v);
        lemma_negamax_value_bounds(cs[k as int], (depth - 1) as nat);
        lemma_negamax_value_from_bounds(v, cs, k + 1, depth);
        let t = child_value(v, cs[k as int], (depth - 1) as nat);
        assert(-i32::MAX <= t <= i32::MAX);
        assert(negamax_value_from(v, cs, k, depth) == max_of(t, negamax_value_from(v, cs, k + 1, depth)));
    }
}

} // verus!
