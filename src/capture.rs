//! Capture resolution: which stones have lost their last liberty.
use vstd::prelude::*;

use crate::board::{adjacent, lemma_adjacent_symmetric, neighbor_indices, reset_all_liveness, Tile, TileData};

verus! {

/// The occupants of a board, tile by tile.
pub open spec fn stones(b: Seq<TileData>) -> Seq<Tile> {
    Seq::new(b.len(), |i: int| b[i].tile_state)
}

/// Tile `k` holds a stone that reaches an empty tile through a chain of at
/// most `n` further stones of its own colour.
pub open spec fn live_within(st: Seq<Tile>, k: int, n: nat) -> bool
    decreases n,
{
    &&& 0 <= k < st.len()
    &&& st[k] != Tile::Empty
    &&& exists|j: int|
        #![trigger adjacent(k, j)]
        adjacent(k, j) && j < st.len() && (st[j] == Tile::Empty || (n > 0 && st[j] == st[k]
            && live_within(st, j, (n - 1) as nat)))
}

/// Tile `k` holds a stone whose group has a liberty.
pub open spec fn live(st: Seq<Tile>, k: int) -> bool {
    exists|n: nat| live_within(st, k, n)
}

/// Tile `k` holds a stone whose group has no liberty.
pub open spec fn captured(st: Seq<Tile>, k: int) -> bool {
    &&& 0 <= k < st.len()
    &&& st[k] != Tile::Empty
    &&& !live(st, k)
}

/// The captured tiles among the first `n`, in increasing order.
pub open spec fn captured_upto(st: Seq<Tile>, n: nat) -> Seq<usize>
    decreases n,
{
    if n == 0 {
        seq![]
    } else {
        let prev = captured_upto(st, (n - 1) as nat);
        if captured(st, n - 1) {
            prev.push((n - 1) as usize)
        } else {
            prev
        }
    }
}

/// The board after a resolution pass: occupants kept, each flag set exactly
/// where the stone's group has a liberty.
pub open spec fn marked_board(st: Seq<Tile>) -> Seq<TileData> {
    Seq::new(st.len(), |i: int| TileData { tile_state: st[i], is_alive: live(st, i) })
}

/// Every flagged tile of `b` is live on `st`.
spec fn marks_sound(b: Seq<TileData>, st: Seq<Tile>) -> bool {
    forall|m: int| 0 <= m < 81 && #[trigger] b[m].is_alive ==> live(st, m)
}

/// Every same-coloured neighbour of `m` is flagged.
spec fn closed(b: Seq<TileData>, st: Seq<Tile>, m: int) -> bool {
    forall|j: int| #[trigger] adjacent(m, j) && st[j] == st[m] ==> b[j].is_alive
}

/// `b` has the occupants `st`.
spec fn same_states(b: Seq<TileData>, st: Seq<Tile>) -> bool {
    &&& b.len() == 81
    &&& st.len() == 81
    &&& forall|i: int| 0 <= i < 81 ==> #[trigger] b[i].tile_state == st[i]
}

/// Number of tiles whose flag is clear.
spec fn count_unmarked(b: Seq<TileData>) -> nat
    decreases b.len(),
{
    if b.len() == 0 {
        0
    } else {
        count_unmarked(b.drop_last()) + if b.last().is_alive {
            0nat
        } else {
            1nat
        }
    }
}

proof fn lemma_count_mark(b: Seq<TileData>, i: int, t: TileData)
    requires
        0 <= i < b.len(),
        !b[i].is_alive,
        t.is_alive,
    ensures
        count_unmarked(b.update(i, t)) + 1 == count_unmarked(b),
    decreases b.len(),
{
    let b2 = b.update(i, t);
    if i == b.len() - 1 {
        assert(b2.drop_last() =~= b.drop_last());
    } else {
        assert(b2.drop_last() =~= b.drop_last().update(i, t));
        lemma_count_mark(b.drop_last(), i, t);
    }
}

/// A live stone passes its liberty on to a same-coloured neighbour.
pub proof fn lemma_live_spreads(st: Seq<Tile>, k: int, j: int)
    requires
        live(st, k),
        adjacent(k, j),
        j < st.len(),
        st[j] == st[k],
    ensures
        live(st, j),
{
    let n = choose|n: nat| live_within(st, k, n);
    lemma_adjacent_symmetric(k, j);
    assert(adjacent(j, k));
    assert(live_within(st, j, n + 1));
}

/// A stone next to an empty tile is live.
proof fn lemma_liberty_live(st: Seq<Tile>, e: int, k: int)
    requires
        adjacent(e, k),
        k < st.len(),
        e < st.len(),
        st[e] == Tile::Empty,
        st[k] != Tile::Empty,
    ensures
        live(st, k),
{
    lemma_adjacent_symmetric(e, k);
    assert(adjacent(k, e));
    assert(live_within(st, k, 0));
}

/// Sets the flag of tile `j`.
fn set_alive(board: &mut Vec<TileData>, j: usize)
    requires
        j < old(board)@.len(),
    ensures
        final(board)@ == old(board)@.update(j as int, TileData { is_alive: true, ..old(board)@[j as int] }),
{
    let mut t = board[j];
    t.is_alive = true;
    board.set(j, t);
}

/// Tile `m` is reached from `s` on `b` by a chain of at most `n` steps between
/// orthogonal neighbours: `s` holds a stone, and every tile of the chain holds
/// a stone of that colour and is unflagged.
pub open spec fn reached_within(b: Seq<TileData>, s: int, m: int, n: nat) -> bool
    decreases n,
{
    &&& 0 <= s < b.len()
    &&& 0 <= m < b.len()
    &&& b[s].tile_state != Tile::Empty
    &&& !b[s].is_alive
    &&& b[m].tile_state == b[s].tile_state
    &&& !b[m].is_alive
    &&& {
        ||| m == s
        ||| (n > 0 && exists|p: int|
            #![trigger adjacent(p, m)]
            adjacent(p, m) && reached_within(b, s, p, (n - 1) as nat))
    }
}

/// Tile `m` is reached from `s` on `b` through unflagged stones of one colour.
pub open spec fn reached(b: Seq<TileData>, s: int, m: int) -> bool {
    exists|n: nat| reached_within(b, s, m, n)
}

/// What is reached from a live stone is live.
proof fn lemma_reached_live(b: Seq<TileData>, st: Seq<Tile>, s: int, m: int, n: nat)
    requires
        same_states(b, st),
        live(st, s),
        reached_within(b, s, m, n),
    ensures
        live(st, m),
    decreases n,
{
    if m != s {
        let p = choose|p: int|
            #![trigger adjacent(p, m)]
            adjacent(p, m) && reached_within(b, s, p, (n - 1) as nat);
        lemma_reached_live(b, st, s, p, (n - 1) as nat);
        lemma_live_spreads(st, p, m);
    }
}

/// Once the start tile is flagged and every tile flagged since `before` has
/// its same-coloured neighbours flagged, all that `before` reached is flagged.
proof fn lemma_reached_flagged(before: Seq<TileData>, b: Seq<TileData>, st: Seq<Tile>, s: int, n: nat)
    requires
        same_states(before, st),
        same_states(b, st),
        0 <= s < 81,
        b[s].is_alive,
        forall|m: int|
            0 <= m < 81 && #[trigger] b[m].is_alive && !before[m].is_alive ==> closed(b, st, m),
    ensures
        forall|m: int| #[trigger] reached_within(before, s, m, n) ==> b[m].is_alive,
    decreases n,
{
    if n > 0 {
        lemma_reached_flagged(before, b, st, s, (n - 1) as nat);
    }
    assert forall|m: int| #[trigger] reached_within(before, s, m, n) implies b[m].is_alive by {
        if m != s {
            let p = choose|p: int|
                #![trigger adjacent(p, m)]
                adjacent(p, m) && reached_within(before, s, p, (n - 1) as nat);
            assert(b[p].is_alive);
            assert(closed(b, st, p));
        }
    }
}

/// Visits tile `index`: nothing happens if it is empty or already flagged;
/// otherwise exactly the unflagged stones of its colour that it reaches
/// through such stones get flagged.
fn grant_life_to_stone(index: usize, board: &mut Vec<TileData>)
    requires
        index < 81,
        old(board)@.len() == 81,
    ensures
        final(board)@.len() == 81,
        stones(final(board)@) == stones(old(board)@),
        old(board)@[index as int].is_alive || old(board)@[index as int].tile_state == Tile::Empty
            ==> final(board)@ == old(board)@,
        forall|m: int|
            0 <= m < 81 ==> (#[trigger] final(board)@[m].is_alive <==> (old(board)@[m].is_alive || reached(
                old(board)@,
                index as int,
                m,
            ))),
        forall|m: int| 0 <= m < 81 && old(board)@[m].is_alive ==> #[trigger] final(board)@[m].is_alive,
        old(board)@[index as int].tile_state != Tile::Empty ==> final(board)@[index as int].is_alive,
        marks_sound(old(board)@, stones(old(board)@)) && (old(board)@[index as int].tile_state != Tile::Empty
            ==> live(stones(old(board)@), index as int)) ==> marks_sound(final(board)@, stones(old(board)@)),
        (forall|m: int|
            0 <= m < 81 && #[trigger] old(board)@[m].is_alive ==> closed(old(board)@, stones(old(board)@), m))
            ==> (forall|m: int|
            0 <= m < 81 && #[trigger] final(board)@[m].is_alive ==> closed(
                final(board)@,
                stones(old(board)@),
                m,
            )),
{
    let ghost st = stones(board@);
    let ghost start = board@;
    assert(same_states(start, st));
    if board[index].is_alive || board[index].tile_state == Tile::Empty {
        return;
    }
    assert(reached_within(start, index as int, index as int, 0));
    set_alive(board, index);
    let mut stack: Vec<usize> = Vec::new();
    stack.push(index);
    assert(stack@[0] == index);
    while stack.len() > 0
        invariant
            index < 81,
            start == old(board)@,
            start.len() == 81,
            same_states(start, st),
            same_states(board@, st),
            st[index as int] != Tile::Empty,
            !start[index as int].is_alive,
            forall|p: int|
                0 <= p < stack@.len() ==> #[trigger] stack@[p] < 81 && board@[stack@[p] as int].is_alive
                    && !start[stack@[p] as int].is_alive,
            forall|m: int|
                0 <= m < 81 && #[trigger] board@[m].is_alive && !start[m].is_alive ==> reached(start, index as int, m),
            forall|m: int|
                0 <= m < 81 && #[trigger] board@[m].is_alive && !start[m].is_alive && !stack@.contains(m as usize)
                    ==> closed(board@, st, m),
            forall|m: int| 0 <= m < 81 && start[m].is_alive ==> #[trigger] board@[m].is_alive,
            board@[index as int].is_alive,
        decreases count_unmarked(board@) * 2 + stack@.len(),
    {
        let ghost before = stack@;
        let k = stack.pop().unwrap();
        proof {
            assert(before =~= stack@.push(k));
            assert(before[before.len() - 1] == k);
        }
        let color = board[k].tile_state;
        let ns = neighbor_indices(k);
        let ghost measure = count_unmarked(board@) * 2 + stack@.len();
        let mut q: usize = 0;
        while q < ns.len()
            invariant
                index < 81,
                start.len() == 81,
                same_states(start, st),
                same_states(board@, st),
                st[index as int] != Tile::Empty,
                !start[index as int].is_alive,
                k < 81,
                color == st[k as int],
                board@[k as int].is_alive,
                !start[k as int].is_alive,
                q <= ns@.len(),
                ns@.len() <= 4,
                forall|p: int| 0 <= p < ns@.len() ==> adjacent(k as int, #[trigger] ns@[p] as int),
                forall|p: int|
                    0 <= p < stack@.len() ==> #[trigger] stack@[p] < 81 && board@[stack@[p] as int].is_alive
                        && !start[stack@[p] as int].is_alive,
                forall|m: int|
                    0 <= m < 81 && #[trigger] board@[m].is_alive && !start[m].is_alive ==> reached(start, index as int, m),
                forall|m: int|
                    0 <= m < 81 && m != k && #[trigger] board@[m].is_alive && !start[m].is_alive
                        && !stack@.contains(m as usize) ==> closed(board@, st, m),
                forall|p: int| 0 <= p < q ==> st[#[trigger] ns@[p] as int] == st[k as int] ==> board@[ns@[p] as int].is_alive,
                forall|m: int| 0 <= m < 81 && start[m].is_alive ==> #[trigger] board@[m].is_alive,
                board@[index as int].is_alive,
                count_unmarked(board@) * 2 + stack@.len() <= measure,
            decreases ns@.len() - q,
        {
            let j = ns[q];
            if board[j].tile_state == color && !board[j].is_alive {
                proof {
                    assert(reached(start, index as int, k as int));
                    let n = choose|n: nat| reached_within(start, index as int, k as int, n);
                    assert(adjacent(k as int, j as int));
                    assert(reached_within(start, index as int, j as int, n + 1));
                    lemma_count_mark(board@, j as int, TileData { is_alive: true, ..board@[j as int] });
                }
                let ghost prev_board = board@;
                let ghost prev_stack = stack@;
                set_alive(board, j);
                stack.push(j);
                proof {
                    assert forall|m: int|
                        0 <= m < 81 && m != k && #[trigger] board@[m].is_alive && !start[m].is_alive
                            && !stack@.contains(m as usize) implies closed(board@, st, m) by {
                        if prev_stack.contains(m as usize) {
                            let p = choose|p: int| 0 <= p < prev_stack.len() && prev_stack[p] == m as usize;
                            assert(stack@[p] == m as usize);
                        }
                        assert(stack@[stack@.len() - 1] == j);
                        assert(prev_board[m].is_alive);
                        assert(closed(prev_board, st, m));
                        assert forall|i: int| #[trigger] adjacent(m, i) && st[i] == st[m] implies board@[i].is_alive by {
                            assert(prev_board[i].is_alive);
                        }
                    }
                }
            }
            q += 1;
        }
        proof {
            assert forall|j: int| #[trigger] adjacent(k as int, j) && st[j] == st[k as int] implies board@[j].is_alive by {
                assert(ns@.contains(j as usize));
                let p = choose|p: int| 0 <= p < ns@.len() && ns@[p] == j as usize;
                assert(st[ns@[p] as int] == st[k as int]);
            }
            assert(closed(board@, st, k as int));
        }
    }
    proof {
        assert(stones(board@) =~= st);
        assert forall|m: int|
            0 <= m < 81 implies (#[trigger] board@[m].is_alive <==> (start[m].is_alive || reached(start, index as int, m))) by {
            if reached(start, index as int, m) {
                let n = choose|n: nat| reached_within(start, index as int, m, n);
                lemma_reached_flagged(start, board@, st, index as int, n);
            }
        }
        if marks_sound(start, st) && live(st, index as int) {
            assert forall|m: int| 0 <= m < 81 && #[trigger] board@[m].is_alive implies live(st, m) by {
                if !start[m].is_alive {
                    let n = choose|n: nat| reached_within(start, index as int, m, n);
                    lemma_reached_live(start, st, index as int, m, n);
                }
            }
        }
    }
}

/// Once every flagged stone has its same-coloured neighbours flagged and
/// every stone next to an empty tile is flagged, every live stone is flagged.
proof fn lemma_flags_complete(b: Seq<TileData>, st: Seq<Tile>, n: nat)
    requires
        same_states(b, st),
        forall|m: int| 0 <= m < 81 && #[trigger] b[m].is_alive ==> closed(b, st, m),
        forall|e: int, k: int|
            0 <= e < 81 && st[e] == Tile::Empty && #[trigger] adjacent(e, k) && st[k] != Tile::Empty
                ==> b[k].is_alive,
    ensures
        forall|k: int| #[trigger] live_within(st, k, n) ==> b[k].is_alive,
    decreases n,
{
    if n > 0 {
        lemma_flags_complete(b, st, (n - 1) as nat);
    }
    assert forall|k: int| #[trigger] live_within(st, k, n) implies b[k].is_alive by {
        let j = choose|j: int|
            #![trigger adjacent(k, j)]
            adjacent(k, j) && j < st.len() && (st[j] == Tile::Empty || (n > 0 && st[j] == st[k]
                && live_within(st, j, (n - 1) as nat)));
        lemma_adjacent_symmetric(k, j);
        assert(adjacent(j, k));
        if st[j] != Tile::Empty {
            assert(b[j].is_alive);
            assert(closed(b, st, j));
        }
    }
}

/// Resolves captures on `board`: clears every flag, flags each stone whose
/// group reaches an empty tile, and returns the indices of the stones left
/// unflagged, in increasing order. Occupants are not changed.
pub fn apply_life_and_death_rules_to_board(board: &mut Vec<TileData>) -> (r: Vec<usize>)
    requires
        old(board)@.len() == 81,
    ensures
        final(board)@ == marked_board(stones(old(board)@)),
        r@ == captured_upto(stones(old(board)@), 81),
{
    let ghost st = stones(board@);
    reset_all_liveness(board);
    assert(marks_sound(board@, st));
    let mut i: usize = 0;
    while i < board.len()
        invariant
            i <= 81,
            same_states(board@, st),
            marks_sound(board@, st),
            forall|m: int| 0 <= m < 81 && #[trigger] board@[m].is_alive ==> closed(board@, st, m),
            forall|e: int, k: int|
                0 <= e < i && st[e] == Tile::Empty && #[trigger] adjacent(e, k) && st[k] != Tile::Empty
                    ==> board@[k].is_alive,
        decreases 81 - i,
    {
        if board[i].tile_state == Tile::Empty {
            let ns = neighbor_indices(i);
            let mut q: usize = 0;
            while q < ns.len()
                invariant
                    i < 81,
                    st[i as int] == Tile::Empty,
                    q <= ns@.len(),
                    forall|p: int| 0 <= p < ns@.len() ==> adjacent(i as int, #[trigger] ns@[p] as int),
                    same_states(board@, st),
                    marks_sound(board@, st),
                    forall|m: int| 0 <= m < 81 && #[trigger] board@[m].is_alive ==> closed(board@, st, m),
                    forall|e: int, k: int|
                        0 <= e < i && st[e] == Tile::Empty && #[trigger] adjacent(e, k) && st[k]
                            != Tile::Empty ==> board@[k].is_alive,
                    forall|p: int|
                        0 <= p < q ==> st[#[trigger] ns@[p] as int] != Tile::Empty ==> board@[ns@[p] as int].is_alive,
                decreases ns@.len() - q,
            {
                let j = ns[q];
                proof {
                    assert(stones(board@) =~= st);
                    if st[j as int] != Tile::Empty {
                        lemma_liberty_live(st, i as int, j as int);
                    }
                }
                grant_life_to_stone(j, board);
                q += 1;
            }
            proof {
                assert forall|e: int, k: int|
                    0 <= e <= i && st[e] == Tile::Empty && #[trigger] adjacent(e, k) && st[k] != Tile::Empty
                        implies board@[k].is_alive by {
                    if e == i {
                        assert(ns@.contains(k as usize));
                        let p = choose|p: int| 0 <= p < ns@.len() && ns@[p] == k as usize;
                        assert(st[ns@[p] as int] != Tile::Empty);
                    }
                }
            }
        }
        i += 1;
    }
    proof {
        assert forall|k: int| 0 <= k < 81 implies #[trigger] board@[k].is_alive == live(st, k) by {
            if live(st, k) {
                let n = choose|n: nat| live_within(st, k, n);
                lemma_flags_complete(board@, st, n);
            }
        }
        assert forall|k: int| 0 <= k < 81 implies #[trigger] board@[k] == marked_board(st)[k] by {
            assert(board@[k].tile_state == st[k]);
            assert(board@[k].is_alive == live(st, k));
        }
        assert(board@ =~= marked_board(st));
    }
    let mut r: Vec<usize> = Vec::new();
    i = 0;
    while i < board.len()
        invariant
            i <= 81,
            board@ == marked_board(st),
            st.len() == 81,
            r@ == captured_upto(st, i as nat),
        decreases 81 - i,
    {
        if board[i].tile_state != Tile::Empty && !board[i].is_alive {
            r.push(i);
        }
        i += 1;
    }
    r
}

/// The list of captured tiles is strictly increasing, and holds exactly the
/// captured tiles below `n`.
pub proof fn lemma_captured_upto(st: Seq<Tile>, n: nat)
    requires
        n <= 81,
    ensures
        forall|p: int|
            0 <= p < captured_upto(st, n).len() ==> captured(st, #[trigger] captured_upto(st, n)[p] as int)
                && captured_upto(st, n)[p] < n,
        forall|p: int, q: int|
            0 <= p < q < captured_upto(st, n).len() ==> #[trigger] captured_upto(st, n)[p]
                < #[trigger] captured_upto(st, n)[q],
        forall|k: int| 0 <= k < n && captured(st, k) ==> #[trigger] captured_upto(st, n).contains(k as usize),
    decreases n,
{
    if n > 0 {
        let prev = captured_upto(st, (n - 1) as nat);
        lemma_captured_upto(st, (n - 1) as nat);
        let s = captured_upto(st, n);
        if captured(st, n - 1) {
            assert(s == prev.push((n - 1) as usize));
            assert forall|k: int| 0 <= k < n && captured(st, k) implies #[trigger] s.contains(k as usize) by {
                if k == n - 1 {
                    assert(s[s.len() - 1] == k as usize);
                } else {
                    assert(prev.contains(k as usize));
                    let p = choose|p: int| 0 <= p < prev.len() && prev[p] == k as usize;
                    assert(s[p] == k as usize);
                }
            }
            assert forall|p: int| 0 <= p < s.len() implies captured(st, #[trigger] s[p] as int) && s[p] < n by {
                if p < prev.len() {
                    assert(s[p] == prev[p]);
                }
            }
            assert forall|p: int, q: int| 0 <= p < q < s.len() implies #[trigger] s[p] < #[trigger] s[q] by {
                assert(s[p] == prev[p]);
                if q < prev.len() {
                    assert(s[q] == prev[q]);
                }
            }
        }
    }
}

} // verus!
