//! The breadth-first search driver: a FIFO frontier, a visited index keyed
//! by box configuration, and a parent-link table for rebuilding the winning
//! path.

use std::collections::VecDeque;
use vstd::prelude::*;

use crate::bitv::{
    cnt, dilate_point, lemma_cnt_bounds, lemma_cnt_lt, lemma_distinct_regions_bound,
    region_universe, Bitv, BitvImpl,
};
use crate::board::Board;
use crate::position::{
    is_expansion, lemma_expansion_unique, lemma_flood_dominated, mask_bit, move_valid,
    singleton_at, subset_bits, Move, Position,
};
use crate::tree::Tree;

verus! {

/// `(qb, qp)` is the state the push `m` makes from boxes `b`: the pushed
/// box moves one cell, and the player region is the flood fill from the
/// cell the player lands on — a pure function of the new boxes.
#[verifier::opaque]
pub open spec fn is_succ(board: Board, b: BitvImpl, m: Move, qb: BitvImpl, qp: BitvImpl) -> bool {
    &&& forall|j: int|
        0 <= j < 256 ==> (#[trigger] qb.bit(j)) == ((b.bit(j) && j != m.from as int) || j
            == m.to as int)
    &&& exists|s: BitvImpl| singleton_at(s, m.player as int) && is_expansion(board, qb, s, qp)
}

/// `q` follows from `p` by one legal push.
#[verifier::opaque]
pub open spec fn step_full(board: Board, p: Position, q: Position) -> bool {
    exists|m: Move| #[trigger] move_valid(board, p, m) && is_succ(board, p.boxes, m, q.boxes, q.player)
}

/// `p` is the position the search starts from: the level's boxes, and the
/// player region flood filled from the starting cell.
#[verifier::opaque]
pub open spec fn initial_expanded(board: Board, p: Position) -> bool {
    &&& p.boxes == board.boxes
    &&& exists|s: BitvImpl|
        singleton_at(s, board.player as int) && is_expansion(board, board.boxes, s, p.player)
}

/// No cell lies in both regions.
pub open spec fn regions_disjoint(a: BitvImpl, b: BitvImpl) -> bool {
    forall|j: int| 0 <= j < 256 ==> !((#[trigger] a.bit(j)) && b.bit(j))
}

/// Soundness of the deduplication rule.  The visited index keeps, for each
/// box configuration, the union of the player regions of every state
/// enqueued with it; a new state is enqueued only when its region is
/// disjoint from that union.  So any earlier enqueued region, lying inside
/// the union, is disjoint from the new one: the search never enqueues two
/// states with the same boxes and overlapping player regions.
pub proof fn lemma_dedup_sound(union: BitvImpl, prev: BitvImpl, cand: BitvImpl)
    requires
        subset_bits(prev, union),
        regions_disjoint(union, cand),
    ensures
        regions_disjoint(prev, cand),
{
    assert forall|j: int| 0 <= j < 256 implies !((#[trigger] prev.bit(j)) && cand.bit(j)) by {
        if prev.bit(j) {
            assert(union.bit(j));
        }
    }
}

/// The pairs of the visited index carry pairwise distinct box
/// configurations.
spec fn keys_distinct(s: Seq<(BitvImpl, BitvImpl)>) -> bool {
    forall|k: int, l: int| 0 <= k < s.len() && 0 <= l < s.len() && k != l ==> s[k].0 != s[l].0
}

/// How much the visited index has absorbed: one for each key, plus the
/// cells of each stored union.  Every admission to the frontier grows this,
/// and it can never pass 257 for each possible box configuration — the
/// measure behind the search's termination.
spec fn gain(s: Seq<(BitvImpl, BitvImpl)>) -> int
    decreases s.len(),
{
    if s.len() <= 0 {
        0
    } else {
        gain(s.drop_last()) + 1 + cnt(s.last().1, 256)
    }
}

proof fn lemma_gain_bounds(s: Seq<(BitvImpl, BitvImpl)>)
    ensures
        0 <= gain(s) <= 257 * s.len(),
    decreases s.len(),
{
    if s.len() > 0 {
        lemma_gain_bounds(s.drop_last());
        lemma_cnt_bounds(s.last().1, 256);
    }
}

proof fn lemma_gain_push(s: Seq<(BitvImpl, BitvImpl)>, e: (BitvImpl, BitvImpl))
    ensures
        gain(s.push(e)) == gain(s) + 1 + cnt(e.1, 256),
{
    assert(s.push(e).drop_last() =~= s);
}

proof fn lemma_gain_update(s: Seq<(BitvImpl, BitvImpl)>, i: int, e: (BitvImpl, BitvImpl))
    requires
        0 <= i < s.len(),
    ensures
        gain(s.update(i, e)) == gain(s) + cnt(e.1, 256) - cnt(s[i].1, 256),
    decreases s.len(),
{
    if i == s.len() - 1 {
        assert(s.update(i, e).drop_last() =~= s.drop_last());
        assert(s.update(i, e).last() == e);
    } else {
        assert(s.update(i, e).drop_last() =~= s.drop_last().update(i, e));
        assert(s.update(i, e).last() == s.last());
        lemma_gain_update(s.drop_last(), i, e);
    }
}

/// Finds the entry of the visited index carrying this box configuration.
fn visited_find(visited: &Vec<(BitvImpl, BitvImpl)>, key: &BitvImpl) -> (r: Option<usize>)
    ensures
        r matches Some(i) ==> (i as int) < visited@.len() && visited@[i as int].0 == *key,
        r is None ==> forall|i: int| 0 <= i < visited@.len() ==> visited@[i].0 != *key,
{
    let mut i: usize = 0;
    while i < visited.len()
        invariant
            i <= visited.len(),
            forall|k: int| 0 <= k < i as int ==> visited@[k].0 != *key,
        decreases visited.len() - i,
    {
        if visited[i].0 == *key {
            return Some(i);
        }
        i = i + 1;
    }
    None
}


/// What remains of the search: room left in the visited index, plus the
/// frontier still to expand.
spec fn search_measure(visited: Seq<(BitvImpl, BitvImpl)>, qlen: int) -> int {
    257 * region_universe() - gain(visited) + qlen
}

/// The visited index has an entry for this box configuration.
spec fn v_has_key(visited: Seq<(BitvImpl, BitvImpl)>, key: BitvImpl) -> bool {
    exists|i: int| 0 <= i < visited.len() && (#[trigger] visited[i]).0 == key
}

/// Every enqueued state's box configuration has an entry in the visited
/// index, and its player region lies in that entry's union.
spec fn enq_covered(enq: Seq<(BitvImpl, BitvImpl)>, visited: Seq<(BitvImpl, BitvImpl)>) -> bool {
    &&& forall|k: int| 0 <= k < enq.len() ==> v_has_key(visited, (#[trigger] enq[k]).0)
    &&& forall|k: int, i: int|
        0 <= k < enq.len() && 0 <= i < visited.len() && (#[trigger] enq[k]).0 == (
        #[trigger] visited[i]).0 ==> subset_bits(enq[k].1, visited[i].1)
}

/// No two enqueued states with the same box configuration have overlapping
/// player regions.
spec fn enq_disjoint(enq: Seq<(BitvImpl, BitvImpl)>) -> bool {
    forall|k: int, l: int|
        0 <= k < l < enq.len() && (#[trigger] enq[k]).0 == (#[trigger] enq[l]).0
            ==> regions_disjoint(enq[k].1, enq[l].1)
}

proof fn lemma_visited_len(s: Seq<(BitvImpl, BitvImpl)>)
    requires
        keys_distinct(s),
    ensures
        s.len() <= region_universe(),
{
    let keys = Seq::new(s.len(), |i: int| s[i].0);
    lemma_distinct_regions_bound(keys);
}

/// The bounds a legal move's cells satisfy on a well-formed board.
proof fn lemma_move_bounds(board: Board, st: Position, m: Move)
    requires
        board.wf(),
        move_valid(board, st, m),
    ensures
        0 <= m.from < 256,
        0 <= m.to < 256,
        m.player == m.from,
        (m.to as int) < board.cells(),
        m.to != m.from,
{
    let x = board.size.0 as int;
    let y = board.size.1 as int;
    assert(x * (y - 1) + x == x * y) by (nonlinear_arith)
        requires
            y >= 1,
    ;
}

/// The facts the search keeps about its parent-link table: every node
/// either marks the expanded initial position with no parent, or links to
/// an earlier node it follows from by one legal push, and is not itself a
/// winning configuration.
spec fn table_ok(board: Board, t: Seq<(Option<usize>, Position)>) -> bool {
    forall|i: int|
        0 <= i < t.len() ==> {
            let e = #[trigger] t[i];
            &&& (e.0 is None ==> initial_expanded(board, e.1))
            &&& (e.0 matches Some(p) ==> (p as int) < i && step_full(board, t[p as int].1, e.1)
                && e.1.boxes != board.targets)
        }
}

/// The chain `ids` walks the parent links of the table from `first` down to
/// a root node without a parent, and `out` collects the node data along it.
spec fn chain_extracted(
    t: Seq<(Option<usize>, Position)>,
    first: Option<usize>,
    ids: Seq<int>,
    out: Seq<Position>,
) -> bool {
    &&& ids.len() == out.len()
    &&& (first is None ==> ids.len() == 0)
    &&& (first matches Some(f) ==> ids.len() > 0 && ids[0] == f as int)
    &&& forall|k: int|
        0 <= k < ids.len() ==> 0 <= #[trigger] ids[k] < t.len() && out[k] == t[ids[k]].1
    &&& forall|k: int|
        0 <= k < ids.len() - 1 ==> t[#[trigger] ids[k]].0 is Some && (t[ids[k]].0->0 as int)
            == ids[k + 1]
    &&& (ids.len() > 0 ==> t[ids.last()].0 is None)
}

/// A termination measure for walking parent links downwards.
spec fn opt_measure(o: Option<usize>) -> int {
    match o {
        Option::Some(c) => c as int + 1,
        Option::None => 0,
    }
}

/// Walks the parent links back from `first_parent_id`, collecting each
/// node's position, root-most last.  The table links every node to a
/// strictly smaller id, as the search driver builds it, so the walk always
/// reaches a root.
fn recover_parents(tree: &Tree<Position>, first_parent_id: Option<usize>) -> (result: Vec<
    Position,
>)
    requires
        forall|i: int|
            0 <= i < tree@.len() ==> ((#[trigger] tree@[i]).0 matches Some(p) ==> (p as int) < i),
        first_parent_id matches Some(f) ==> (f as int) < tree@.len(),
    ensures
        exists|ids: Seq<int>| chain_extracted(tree@, first_parent_id, ids, result@),
{
    let mut result: Vec<Position> = Vec::new();
    let ghost mut ids: Seq<int> = Seq::empty();
    let mut current = first_parent_id;
    while current.is_some()
        invariant
            ids.len() == result@.len(),
            current matches Some(c) ==> (c as int) < tree@.len(),
            first_parent_id is None ==> ids.len() == 0 && current is None,
            first_parent_id matches Some(f) ==> (if ids.len() == 0 {
                current == first_parent_id
            } else {
                ids[0] == f as int
            }),
            forall|k: int|
                0 <= k < ids.len() ==> 0 <= #[trigger] ids[k] < tree@.len() && result@[k]
                    == tree@[ids[k]].1,
            forall|k: int|
                0 <= k < ids.len() - 1 ==> tree@[#[trigger] ids[k]].0 is Some && (tree@[ids[k]].0->0
                    as int) == ids[k + 1],
            forall|i: int|
                0 <= i < tree@.len() ==> ((#[trigger] tree@[i]).0 matches Some(p) ==> (p as int)
                    < i),
            ids.len() > 0 ==> tree@[ids.last()].0 == current,
            ids.len() > 0 && current is Some ==> (current->0 as int) < ids.last(),
        decreases opt_measure(current),
    {
        let id = current.unwrap();
        let entry = tree.get_parent(id).unwrap();
        let parent = entry.0;
        let pos = entry.1;
        result.push(pos);
        proof {
            ids = ids.push(id as int);
        }
        current = parent;
    }
    proof {
        assert(chain_extracted(tree@, first_parent_id, ids, result@));
    }
    result
}

/// The queue entry's boxes stand on floor, and it is the expanded initial
/// position (no parent) or follows from its table parent by one push and
/// does not itself win.
spec fn entry_ok(
    board: Board,
    t: Seq<(Option<usize>, Position)>,
    pid: Option<usize>,
    pos: Position,
) -> bool {
    &&& subset_bits(pos.boxes, board.floor)
    &&& (pid is None ==> initial_expanded(board, pos))
    &&& (pid matches Some(p) ==> (p as int) < t.len() && step_full(board, t[p as int].1, pos)
        && pos.boxes != board.targets)
}

/// Either the queue entry follows the search's rules already, or it was
/// enqueued by the node currently being expanded, which reaches it by one
/// push but is not yet written to the table.
spec fn entry_ok_pending(
    board: Board,
    t: Seq<(Option<usize>, Position)>,
    pid: Option<usize>,
    pos: Position,
    cur_id: usize,
    cur_pos: Position,
) -> bool {
    ||| (pid == Option::Some(cur_id) && subset_bits(pos.boxes, board.floor) && step_full(
        board,
        cur_pos,
        pos,
    ) && pos.boxes != board.targets)
    ||| entry_ok(board, t, pid, pos)
}

/// The result path assembled on a win is a genuine solution: the winning
/// position first, then the node just expanded, then its ancestors from the
/// parent-link table, ending in the expanded initial position, each
/// position one legal push after the next, and none but the winning one a
/// winning configuration.
proof fn lemma_path_ok(
    board: Board,
    t: Seq<(Option<usize>, Position)>,
    parent_index: Option<usize>,
    next_position: Position,
    new_pos: Position,
    ids: Seq<int>,
    parents0: Seq<Position>,
    path: Seq<Position>,
)
    requires
        board.wf(),
        table_ok(board, t),
        step_full(board, next_position, new_pos),
        parent_index is None ==> initial_expanded(board, next_position),
        parent_index matches Some(p) ==> (p as int) < t.len() && step_full(
            board,
            t[p as int].1,
            next_position,
        ) && next_position.boxes != board.targets,
        chain_extracted(t, parent_index, ids, parents0),
        path == seq![new_pos, next_position] + parents0,
    ensures
        path.len() >= 2,
        forall|i: int| 0 <= i < path.len() - 1 ==> step_full(board, path[i + 1], (#[trigger] path[i])),
        initial_expanded(board, path[path.len() - 1]),
        forall|i: int| 1 <= i < path.len() - 1 ==> (#[trigger] path[i]).boxes != board.targets,
{
    assert(path.len() == 2 + ids.len());
    assert(path[0] == new_pos);
    assert(path[1] == next_position);
    if parent_index is None {
        assert(ids.len() == 0);
        assert(initial_expanded(board, path[path.len() - 1]));
    } else {
        let f = parent_index->0;
        assert(ids.len() > 0);
        assert(path[path.len() - 1] == parents0[ids.len() - 1]);
        assert(t[ids.last()].0 is None);
        assert(initial_expanded(board, t[ids.last()].1));
    }
    assert forall|i: int| 0 <= i < path.len() - 1 implies step_full(
        board,
        path[i + 1],
        (#[trigger] path[i]),
    ) by {
        if i == 0 {
        } else if i == 1 {
            let f = parent_index->0;
            assert(path[2] == parents0[0]);
            assert(ids[0] == f as int);
            assert(parents0[0] == t[f as int].1);
        } else {
            let k = i - 2;
            assert(path[i] == parents0[k]);
            assert(path[i + 1] == parents0[k + 1]);
            assert(t[ids[k]].0 is Some && (t[ids[k]].0->0 as int) == ids[k + 1]);
            assert(step_full(board, t[ids[k + 1]].1, t[ids[k]].1));
        }
    }
    assert forall|i: int| 1 <= i < path.len() - 1 implies (#[trigger] path[i]).boxes
        != board.targets by {
        if i == 1 {
            assert(ids.len() > 0);
        } else {
            let k = i - 2;
            assert(path[i] == parents0[k]);
            assert(t[ids[k]].0 is Some && (t[ids[k]].0->0 as int) == ids[k + 1]);
        }
    }
}

/// Admitting a state whose box configuration already has an entry keeps the
/// visited index and the enqueue record consistent: the union grows by the
/// new region, which was disjoint from it.
proof fn lemma_enq_update(
    visited_pre: Seq<(BitvImpl, BitvImpl)>,
    visited_post: Seq<(BitvImpl, BitvImpl)>,
    enq_pre: Seq<(BitvImpl, BitvImpl)>,
    enq_post: Seq<(BitvImpl, BitvImpl)>,
    i: int,
    key: BitvImpl,
    u: BitvImpl,
    u2: BitvImpl,
    player: BitvImpl,
)
    requires
        keys_distinct(visited_pre),
        enq_covered(enq_pre, visited_pre),
        enq_disjoint(enq_pre),
        0 <= i < visited_pre.len(),
        visited_pre[i].0 == key,
        visited_pre[i].1 == u,
        visited_post == visited_pre.update(i, (key, u2)),
        forall|j: int| 0 <= j < 256 ==> #[trigger] u2.bit(j) == (u.bit(j) || player.bit(j)),
        regions_disjoint(u, player),
        enq_post == enq_pre.push((key, player)),
    ensures
        keys_distinct(visited_post),
        enq_covered(enq_post, visited_post),
        enq_disjoint(enq_post),
{
    assert(keys_distinct(visited_post));
    assert forall|k: int| 0 <= k < enq_post.len() implies v_has_key(
        visited_post,
        (#[trigger] enq_post[k]).0,
    ) by {
        if k < enq_pre.len() {
            assert(v_has_key(visited_pre, enq_pre[k].0));
            let ii = choose|ii: int|
                0 <= ii < visited_pre.len() && (#[trigger] visited_pre[ii]).0 == enq_pre[k].0;
            assert((visited_post[ii]).0 == enq_post[k].0);
        } else {
            assert((visited_post[i]).0 == enq_post[k].0);
        }
    }
    assert forall|k: int, ii: int|
        0 <= k < enq_post.len() && 0 <= ii < visited_post.len() && (#[trigger] enq_post[k]).0 == (
        #[trigger] visited_post[ii]).0 implies subset_bits(enq_post[k].1, visited_post[ii].1) by {
        assert forall|j: int|
            0 <= j < 256 && #[trigger] enq_post[k].1.bit(j) implies visited_post[ii].1.bit(j) by {
            if k < enq_pre.len() {
                assert(subset_bits(enq_pre[k].1, visited_pre[ii].1));
            } else {
                assert(ii == i) by {
                    if ii != i {
                        assert(visited_pre[ii].0 != visited_pre[i].0);
                    }
                }
            }
        }
    }
    assert forall|k: int, l: int|
        0 <= k < l < enq_post.len() && (#[trigger] enq_post[k]).0 == (
        #[trigger] enq_post[l]).0 implies regions_disjoint(enq_post[k].1, enq_post[l].1) by {
        if l == enq_post.len() - 1 {
            assert(subset_bits(enq_pre[k].1, visited_pre[i].1));
            lemma_dedup_sound(u, enq_pre[k].1, player);
        }
    }
}

/// Admitting a state whose box configuration is new keeps the visited
/// index and the enqueue record consistent: the configuration gets its own
/// fresh entry.
proof fn lemma_enq_new(
    visited_pre: Seq<(BitvImpl, BitvImpl)>,
    visited_post: Seq<(BitvImpl, BitvImpl)>,
    enq_pre: Seq<(BitvImpl, BitvImpl)>,
    enq_post: Seq<(BitvImpl, BitvImpl)>,
    key: BitvImpl,
    player: BitvImpl,
)
    requires
        keys_distinct(visited_pre),
        enq_covered(enq_pre, visited_pre),
        enq_disjoint(enq_pre),
        forall|i: int| 0 <= i < visited_pre.len() ==> (#[trigger] visited_pre[i]).0 != key,
        visited_post == visited_pre.push((key, player)),
        enq_post == enq_pre.push((key, player)),
    ensures
        keys_distinct(visited_post),
        enq_covered(enq_post, visited_post),
        enq_disjoint(enq_post),
{
    assert(keys_distinct(visited_post));
    assert forall|k: int| 0 <= k < enq_post.len() implies v_has_key(
        visited_post,
        (#[trigger] enq_post[k]).0,
    ) by {
        if k < enq_pre.len() {
            assert(v_has_key(visited_pre, enq_pre[k].0));
            let ii = choose|ii: int|
                0 <= ii < visited_pre.len() && (#[trigger] visited_pre[ii]).0 == enq_pre[k].0;
            assert((visited_post[ii]).0 == enq_post[k].0);
        } else {
            assert((visited_post[visited_post.len() - 1]).0 == enq_post[k].0);
        }
    }
    assert forall|k: int, ii: int|
        0 <= k < enq_post.len() && 0 <= ii < visited_post.len() && (#[trigger] enq_post[k]).0 == (
        #[trigger] visited_post[ii]).0 implies subset_bits(enq_post[k].1, visited_post[ii].1) by {
        if k < enq_pre.len() {
            if ii < visited_pre.len() {
                assert(subset_bits(enq_pre[k].1, visited_pre[ii].1));
            } else {
                assert(enq_pre[k].0 == key);
                assert(v_has_key(visited_pre, enq_pre[k].0));
                let jj = choose|jj: int|
                    0 <= jj < visited_pre.len() && (#[trigger] visited_pre[jj]).0 == enq_pre[k].0;
                assert(false);
            }
        } else {
            if ii == visited_post.len() - 1 {
            } else {
                assert(visited_pre[ii].0 != key);
                assert(false);
            }
        }
    }
    assert forall|k: int, l: int|
        0 <= k < l < enq_post.len() && (#[trigger] enq_post[k]).0 == (
        #[trigger] enq_post[l]).0 implies regions_disjoint(enq_post[k].1, enq_post[l].1) by {
        if l == enq_post.len() - 1 {
            assert(enq_pre[k].0 == key);
            assert(v_has_key(visited_pre, enq_pre[k].0));
            let jj = choose|jj: int|
                0 <= jj < visited_pre.len() && (#[trigger] visited_pre[jj]).0 == enq_pre[k].0;
            assert(false);
        }
    }
}

/// The region flood filled from the player's starting cell.
#[verifier::opaque]
spec fn initial_region_ok(board: Board, r: BitvImpl) -> bool {
    exists|s: BitvImpl|
        singleton_at(s, board.player as int) && is_expansion(board, board.boxes, s, r)
}

/// Some admitted state has these boxes, and its region holds `qp`.
#[verifier::opaque]
spec fn covered(enq: Seq<(BitvImpl, BitvImpl)>, qb: BitvImpl, qp: BitvImpl) -> bool {
    exists|k: int|
        0 <= k < enq.len() && (#[trigger] enq[k]).0 == qb && subset_bits(qp, enq[k].1)
}

/// Whatever state the push `m` makes from boxes `b`, it is not a winning
/// configuration the search missed, and it is covered by an admitted state.
#[verifier::opaque]
spec fn succ_ok(board: Board, enq: Seq<(BitvImpl, BitvImpl)>, b: BitvImpl, m: Move) -> bool {
    forall|qb: BitvImpl, qp: BitvImpl|
        #[trigger] is_succ(board, b, m, qb, qp) ==> qb != board.targets && covered(enq, qb, qp)
}

/// Every legal push from the state `(b, r)` has been accounted for.
#[verifier::opaque]
spec fn processed(board: Board, enq: Seq<(BitvImpl, BitvImpl)>, b: BitvImpl, r: BitvImpl) -> bool {
    forall|m: Move|
        #[trigger] move_valid(board, (Position { boxes: b, player: r }), m) ==> succ_ok(
            board,
            enq,
            b,
            m,
        )
}

/// The state `(b, r)` sits in the frontier.
#[verifier::opaque]
spec fn state_in_queue(q: Seq<(Option<usize>, Position)>, b: BitvImpl, r: BitvImpl) -> bool {
    exists|j: int| 0 <= j < q.len() && (#[trigger] q[j]).1.boxes == b && q[j].1.player == r
}

/// Every admitted state is still waiting in the frontier or has had all
/// its pushes accounted for — the search never abandons a state.
spec fn closure_ok(
    board: Board,
    enq: Seq<(BitvImpl, BitvImpl)>,
    q: Seq<(Option<usize>, Position)>,
) -> bool {
    forall|k: int|
        0 <= k < enq.len() ==> state_in_queue(q, (#[trigger] enq[k]).0, enq[k].1) || processed(
            board,
            enq,
            enq[k].0,
            enq[k].1,
        )
}

/// Every cell of a stored union comes from some admitted state's region
/// with the same boxes: the union holds nothing the search has not seen.
#[verifier::opaque]
spec fn union_exact(enq: Seq<(BitvImpl, BitvImpl)>, visited: Seq<(BitvImpl, BitvImpl)>) -> bool {
    forall|i: int, z: int|
        0 <= i < visited.len() && 0 <= z < 256 && (#[trigger] visited[i].1.bit(z)) ==> exists|
            k: int,
        |
            0 <= k < enq.len() && (#[trigger] enq[k]).0 == visited[i].0 && enq[k].1.bit(z)
}

/// Every admitted region is a fixed point of dilate-then-mask for its own
/// boxes.
#[verifier::opaque]
spec fn region_fixpoint(board: Board, b: BitvImpl, r: BitvImpl) -> bool {
    forall|j: int|
        0 <= j < 256 ==> (#[trigger] r.bit(j)) == (dilate_point(r, board.size.0 as int, j)
            && mask_bit(board, b, j))
}

#[verifier::opaque]
spec fn enq_fixpoints(board: Board, enq: Seq<(BitvImpl, BitvImpl)>) -> bool {
    forall|k: int|
        0 <= k < enq.len() ==> region_fixpoint(board, (#[trigger] enq[k]).0, enq[k].1)
}

/// Admitting one more state keeps every coverage fact: the record only
/// grows.
proof fn lemma_closure_push(board: Board, enq: Seq<(BitvImpl, BitvImpl)>, e: (BitvImpl, BitvImpl))
    ensures
        forall|qb: BitvImpl, qp: BitvImpl|
            #[trigger] covered(enq, qb, qp) ==> covered(enq.push(e), qb, qp),
        forall|b: BitvImpl, m: Move|
            #[trigger] succ_ok(board, enq, b, m) ==> succ_ok(board, enq.push(e), b, m),
        forall|b: BitvImpl, r: BitvImpl|
            #[trigger] processed(board, enq, b, r) ==> processed(board, enq.push(e), b, r),
{
    reveal(covered);
    reveal(succ_ok);
    reveal(processed);
    assert forall|qb: BitvImpl, qp: BitvImpl|
        #[trigger] covered(enq, qb, qp) implies covered(enq.push(e), qb, qp) by {
        let k = choose|k: int|
            0 <= k < enq.len() && (#[trigger] enq[k]).0 == qb && subset_bits(qp, enq[k].1);
        assert((enq.push(e)[k]).0 == qb && subset_bits(qp, enq.push(e)[k].1));
    }
    assert forall|b: BitvImpl, m: Move|
        #[trigger] succ_ok(board, enq, b, m) implies succ_ok(board, enq.push(e), b, m) by {
        assert forall|qb: BitvImpl, qp: BitvImpl|
            #[trigger] is_succ(board, b, m, qb, qp) implies qb != board.targets && covered(
            enq.push(e),
            qb,
            qp,
        ) by {
            assert(covered(enq, qb, qp));
        }
    }
    assert forall|b: BitvImpl, r: BitvImpl|
        #[trigger] processed(board, enq, b, r) implies processed(board, enq.push(e), b, r) by {
        assert forall|m: Move|
            #[trigger] move_valid(board, (Position { boxes: b, player: r }), m) implies succ_ok(
            board,
            enq.push(e),
            b,
            m,
        ) by {
            assert(succ_ok(board, enq, b, m));
        }
    }
}

/// No winning sequence of pushes escapes a search whose every admitted
/// state has been fully expanded: each state along the sequence is covered
/// by an admitted state, so none past the first can win.
proof fn lemma_no_missed_win(
    board: Board,
    enq: Seq<(BitvImpl, BitvImpl)>,
    path: Seq<Position>,
    i: int,
)
    requires
        board.wf(),
        forall|k: int|
            0 <= k < enq.len() ==> processed(board, enq, (#[trigger] enq[k]).0, enq[k].1),
        0 <= i < path.len(),
        covered(enq, path[0].boxes, path[0].player),
        forall|t: int| 0 <= t < path.len() - 1 ==> step_full(board, (#[trigger] path[t]), path[t + 1]),
    ensures
        covered(enq, path[i].boxes, path[i].player),
        i > 0 ==> path[i].boxes != board.targets,
    decreases i,
{
    reveal(covered);
    reveal(succ_ok);
    reveal(processed);
    reveal(step_full);
    reveal(is_succ);
    if i > 0 {
        lemma_no_missed_win(board, enq, path, i - 1);
        let k = choose|k: int|
            0 <= k < enq.len() && (#[trigger] enq[k]).0 == path[i - 1].boxes && subset_bits(
                path[i - 1].player,
                enq[k].1,
            );
        assert(step_full(board, path[i - 1], path[i]));
        let m = choose|m: Move|
            #[trigger] move_valid(board, path[i - 1], m) && is_succ(
                board,
                path[i - 1].boxes,
                m,
                path[i].boxes,
                path[i].player,
            );
        let x = board.size.0 as int;
        let y = board.size.1 as int;
        assert(x * (y - 1) + x == x * y) by (nonlinear_arith)
            requires
                y >= 1,
        ;
        let d = m.to as int - m.from as int;
        assert(move_valid(board, (Position { boxes: enq[k].0, player: enq[k].1 }), m)) by {
            assert(path[i - 1].player.bit(m.from as int - d));
            assert(0 <= m.from as int - d < 256);
            assert(enq[k].1.bit(m.from as int - d));
        }
        assert(processed(board, enq, enq[k].0, enq[k].1));
        assert(succ_ok(board, enq, enq[k].0, m));
        assert(is_succ(board, enq[k].0, m, path[i].boxes, path[i].player));
    }
}

/// Once the concrete successor of a push is known to be covered and not a
/// winning configuration, every state the push could make is: the successor
/// is determined by the boxes and the push alone.
proof fn lemma_succ_ok_concrete(
    board: Board,
    enq: Seq<(BitvImpl, BitvImpl)>,
    b: BitvImpl,
    m: Move,
    nb: BitvImpl,
    pp: BitvImpl,
    np: BitvImpl,
)
    requires
        singleton_at(pp, m.player as int),
        is_expansion(board, nb, pp, np),
        forall|j: int|
            0 <= j < 256 ==> (#[trigger] nb.bit(j)) == ((b.bit(j) && j != m.from as int) || j
                == m.to as int),
        nb != board.targets,
        covered(enq, nb, np),
    ensures
        succ_ok(board, enq, b, m),
{
    reveal(covered);
    reveal(succ_ok);
    reveal(is_succ);
    assert forall|qb: BitvImpl, qp: BitvImpl|
        #[trigger] is_succ(board, b, m, qb, qp) implies qb != board.targets && covered(
        enq,
        qb,
        qp,
    ) by {
        assert forall|j: int| 0 <= j < 256 implies (#[trigger] qb.bit(j)) == nb.bit(j) by {}
        crate::bitv::lemma_bits_eq(qb, nb);
        let sp = choose|sp: BitvImpl|
            singleton_at(sp, m.player as int) && is_expansion(board, qb, sp, qp);
        lemma_expansion_unique(board, nb, sp, pp, qp, np);
    }
}

/// Admitting a state to the record and the frontier keeps every admitted
/// state accounted for.
proof fn lemma_closure_enqueue(
    board: Board,
    enq_old: Seq<(BitvImpl, BitvImpl)>,
    e: (BitvImpl, BitvImpl),
    q1: Seq<(Option<usize>, Position)>,
    q2: Seq<(Option<usize>, Position)>,
    cur: Position,
)
    requires
        forall|k: int|
            0 <= k < enq_old.len() ==> state_in_queue(q1, (#[trigger] enq_old[k]).0, enq_old[k].1)
                || processed(board, enq_old, enq_old[k].0, enq_old[k].1) || (enq_old[k].0
                == cur.boxes && enq_old[k].1 == cur.player),
        q2.len() == q1.len() + 1,
        forall|j: int| 0 <= j < q1.len() ==> (#[trigger] q2[j + 1]) == q1[j],
        q2[0].1.boxes == e.0 && q2[0].1.player == e.1,
    ensures
        forall|k: int|
            0 <= k < enq_old.push(e).len() ==> state_in_queue(
                q2,
                (#[trigger] enq_old.push(e)[k]).0,
                enq_old.push(e)[k].1,
            ) || processed(board, enq_old.push(e), enq_old.push(e)[k].0, enq_old.push(e)[k].1) || (
            enq_old.push(e)[k].0 == cur.boxes && enq_old.push(e)[k].1 == cur.player),
{
    reveal(state_in_queue);
    let enq = enq_old.push(e);
    lemma_closure_push(board, enq_old, e);
    assert forall|k: int|
        0 <= k < enq.len() implies state_in_queue(q2, (#[trigger] enq[k]).0, enq[k].1) || processed(
        board,
        enq,
        enq[k].0,
        enq[k].1,
    ) || (enq[k].0 == cur.boxes && enq[k].1 == cur.player) by {
        if k < enq_old.len() {
            if state_in_queue(q1, enq_old[k].0, enq_old[k].1) {
                let j = choose|j: int|
                    0 <= j < q1.len() && (#[trigger] q1[j]).1.boxes == enq_old[k].0
                        && q1[j].1.player == enq_old[k].1;
                assert((q2[j + 1]).1.boxes == enq[k].0 && q2[j + 1].1.player == enq[k].1);
                assert(state_in_queue(q2, enq[k].0, enq[k].1));
            }
        } else {
            assert((q2[0]).1.boxes == enq[k].0 && q2[0].1.player == enq[k].1);
            assert(state_in_queue(q2, enq[k].0, enq[k].1));
        }
    }
}

/// Growing one union by an admitted region keeps every union cell
/// accounted for.
proof fn lemma_union_exact_update(
    enq_old: Seq<(BitvImpl, BitvImpl)>,
    e: (BitvImpl, BitvImpl),
    visited_pre: Seq<(BitvImpl, BitvImpl)>,
    visited_post: Seq<(BitvImpl, BitvImpl)>,
    i: int,
    u: BitvImpl,
    u2: BitvImpl,
)
    requires
        union_exact(enq_old, visited_pre),
        0 <= i < visited_pre.len(),
        visited_pre[i].0 == e.0,
        visited_pre[i].1 == u,
        visited_post == visited_pre.update(i, (e.0, u2)),
        forall|j: int| 0 <= j < 256 ==> (#[trigger] u2.bit(j)) == (u.bit(j) || e.1.bit(j)),
    ensures
        union_exact(enq_old.push(e), visited_post),
{
    reveal(union_exact);
    let enq = enq_old.push(e);
    assert forall|ii: int, z: int|
        0 <= ii < visited_post.len() && 0 <= z < 256 && (#[trigger] visited_post[ii].1.bit(
            z,
        )) implies exists|k: int|
        0 <= k < enq.len() && (#[trigger] enq[k]).0 == visited_post[ii].0 && enq[k].1.bit(z) by {
        if ii == i && !u.bit(z) {
            assert(e.1.bit(z));
            let kk = enq.len() - 1;
            assert((enq[kk]).0 == visited_post[ii].0 && enq[kk].1.bit(z));
        } else {
            assert(visited_pre[ii].1.bit(z));
            let kk = choose|kk: int|
                0 <= kk < enq_old.len() && (#[trigger] enq_old[kk]).0 == visited_pre[ii].0
                    && enq_old[kk].1.bit(z);
            assert((enq[kk]).0 == visited_post[ii].0 && enq[kk].1.bit(z));
        }
    }
}

/// Opening a fresh union with an admitted region keeps every union cell
/// accounted for.
proof fn lemma_union_exact_push(
    enq_old: Seq<(BitvImpl, BitvImpl)>,
    e: (BitvImpl, BitvImpl),
    visited_pre: Seq<(BitvImpl, BitvImpl)>,
    visited_post: Seq<(BitvImpl, BitvImpl)>,
)
    requires
        union_exact(enq_old, visited_pre),
        visited_post == visited_pre.push(e),
    ensures
        union_exact(enq_old.push(e), visited_post),
{
    reveal(union_exact);
    let enq = enq_old.push(e);
    assert forall|ii: int, z: int|
        0 <= ii < visited_post.len() && 0 <= z < 256 && (#[trigger] visited_post[ii].1.bit(
            z,
        )) implies exists|k: int|
        0 <= k < enq.len() && (#[trigger] enq[k]).0 == visited_post[ii].0 && enq[k].1.bit(z) by {
        if ii < visited_pre.len() {
            assert(visited_pre[ii].1.bit(z));
            let kk = choose|kk: int|
                0 <= kk < enq_old.len() && (#[trigger] enq_old[kk]).0 == visited_pre[ii].0
                    && enq_old[kk].1.bit(z);
            assert((enq[kk]).0 == visited_post[ii].0 && enq[kk].1.bit(z));
        } else {
            let kk = enq.len() - 1;
            assert((enq[kk]).0 == visited_post[ii].0 && enq[kk].1.bit(z));
        }
    }
}

/// A record extended by one fixed-point region keeps all regions fixed
/// points.
proof fn lemma_fixpoints_push(board: Board, enq_old: Seq<(BitvImpl, BitvImpl)>, e: (BitvImpl, BitvImpl))
    requires
        enq_fixpoints(board, enq_old),
        region_fixpoint(board, e.0, e.1),
    ensures
        enq_fixpoints(board, enq_old.push(e)),
{
    reveal(enq_fixpoints);
    let enq = enq_old.push(e);
    assert forall|k: int|
        0 <= k < enq.len() implies region_fixpoint(board, (#[trigger] enq[k]).0, enq[k].1) by {
        if k < enq_old.len() {
            assert(region_fixpoint(board, enq_old[k].0, enq_old[k].1));
        }
    }
}

/// Pushing one well-formed entry onto the frontier keeps every entry
/// well-formed.
proof fn lemma_pending_push(
    board: Board,
    t: Seq<(Option<usize>, Position)>,
    q1: Seq<(Option<usize>, Position)>,
    q2: Seq<(Option<usize>, Position)>,
    cur_id: usize,
    cur_pos: Position,
    e: (Option<usize>, Position),
)
    requires
        forall|k: int|
            0 <= k < q1.len() ==> entry_ok_pending(
                board,
                t,
                (#[trigger] q1[k]).0,
                q1[k].1,
                cur_id,
                cur_pos,
            ),
        q2.len() == q1.len() + 1,
        forall|j: int| 0 <= j < q1.len() ==> (#[trigger] q2[j + 1]) == q1[j],
        q2[0] == e,
        entry_ok_pending(board, t, e.0, e.1, cur_id, cur_pos),
    ensures
        forall|k: int|
            0 <= k < q2.len() ==> entry_ok_pending(
                board,
                t,
                (#[trigger] q2[k]).0,
                q2[k].1,
                cur_id,
                cur_pos,
            ),
{
    assert forall|k: int|
        0 <= k < q2.len() implies entry_ok_pending(
        board,
        t,
        (#[trigger] q2[k]).0,
        q2[k].1,
        cur_id,
        cur_pos,
    ) by {
        if k > 0 {
            assert(q2[(k - 1) + 1] == q1[k - 1]);
            assert(entry_ok_pending(board, t, q1[k - 1].0, q1[k - 1].1, cur_id, cur_pos));
        }
    }
}

/// The reversed result path is a genuine solution, read from the table
/// chain the walker extracted.
proof fn lemma_solution_ok(
    board: Board,
    t: Seq<(Option<usize>, Position)>,
    parent_index: Option<usize>,
    next_position: Position,
    new_pos: Position,
    parents0: Seq<Position>,
    result: Seq<Position>,
    solution: Seq<Position>,
)
    requires
        board.wf(),
        table_ok(board, t),
        step_full(board, next_position, new_pos),
        new_pos.boxes == board.targets,
        parent_index is None ==> initial_expanded(board, next_position),
        parent_index matches Some(p) ==> (p as int) < t.len() && step_full(
            board,
            t[p as int].1,
            next_position,
        ) && next_position.boxes != board.targets,
        exists|ids: Seq<int>| chain_extracted(t, parent_index, ids, parents0),
        result == seq![new_pos, next_position] + parents0,
        solution.len() == result.len(),
        forall|i: int| 0 <= i < result.len() ==> (#[trigger] solution[i]) == result[result.len() - 1 - i],
    ensures
        solution.len() >= 2,
        solution[solution.len() - 1].boxes == board.targets,
        forall|i: int|
            0 <= i < solution.len() - 1 ==> step_full(board, (#[trigger] solution[i]), solution[i + 1]),
        initial_expanded(board, solution[0]),
        forall|i: int|
            1 <= i < solution.len() - 1 ==> (#[trigger] solution[i]).boxes != board.targets,
{
    let ids = choose|ids: Seq<int>| chain_extracted(t, parent_index, ids, parents0);
    lemma_path_ok(board, t, parent_index, next_position, new_pos, ids, parents0, result);
    let n = result.len();
    assert(solution[n - 1] == result[0]);
    assert(solution[0] == result[n - 1]);
    assert forall|i: int| 0 <= i < solution.len() - 1 implies step_full(
        board,
        (#[trigger] solution[i]),
        solution[i + 1],
    ) by {
        let j = n - 2 - i;
        assert(solution[i] == result[n - 1 - i]);
        assert(solution[i + 1] == result[n - 2 - i]);
        assert(step_full(board, result[j + 1], result[j]));
    }
    assert forall|i: int|
        1 <= i < solution.len() - 1 implies (#[trigger] solution[i]).boxes != board.targets by {
        assert(solution[i] == result[n - 1 - i]);
        assert(result[n - 1 - i].boxes != board.targets);
    }
}

/// Copies the positions in reverse order.
fn reverse_positions(v: &Vec<Position>) -> (r: Vec<Position>)
    ensures
        r@.len() == v@.len(),
        forall|i: int| 0 <= i < v@.len() ==> (#[trigger] r@[i]) == v@[v@.len() - 1 - i],
{
    let mut r: Vec<Position> = Vec::new();
    let mut k = v.len();
    while k > 0
        invariant
            k <= v.len(),
            r@.len() == v@.len() - k,
            forall|i: int| 0 <= i < r@.len() ==> (#[trigger] r@[i]) == v@[v@.len() - 1 - i],
        decreases k,
    {
        k = k - 1;
        r.push(v[k]);
    }
    r
}


/// Runs the deduplication gate on one candidate push: flood fills the
/// candidate and admits it to the visited index, the frontier and the
/// admission record, unless its region overlaps the union already stored
/// for its box configuration — in which case it is already covered by an
/// admitted state.
#[verifier::rlimit(100)]
fn admit_candidate(
    board: &Board,
    next_position: &Position,
    mov: Move,
    candidate: Position,
    current_id: usize,
    visited: &mut Vec<(BitvImpl, BitvImpl)>,
    queue: &mut VecDeque<(Option<usize>, Position)>,
    t: Ghost<Seq<(Option<usize>, Position)>>,
    enq_in: Ghost<Seq<(BitvImpl, BitvImpl)>>,
) -> (enq_out: Ghost<Seq<(BitvImpl, BitvImpl)>>)
    requires
        board.wf(),
        move_valid(*board, *next_position, mov),
        subset_bits(next_position.boxes, board.floor),
        forall|j: int|
            0 <= j < 256 ==> #[trigger] candidate.boxes.bit(j) == ((next_position.boxes.bit(j)
                && j != mov.from as int) || j == mov.to as int),
        forall|j: int|
            0 <= j < 256 ==> #[trigger] candidate.player.bit(j) == (j == mov.player as int),
        subset_bits(candidate.boxes, board.floor),
        candidate.boxes != board.targets,
        keys_distinct(old(visited)@),
        enq_covered(enq_in@, old(visited)@),
        enq_disjoint(enq_in@),
        old(visited)@.len() <= region_universe(),
        0 <= gain(old(visited)@),
        gain(old(visited)@) <= 257 * old(visited)@.len(),
        enq_in@.len() >= 1,
        enq_fixpoints(*board, enq_in@),
        union_exact(enq_in@, old(visited)@),
        forall|k: int|
            0 <= k < old(queue)@.len() ==> entry_ok_pending(
                *board,
                t@,
                (#[trigger] old(queue)@[k]).0,
                old(queue)@[k].1,
                current_id,
                *next_position,
            ),
        forall|k: int|
            0 <= k < enq_in@.len() ==> state_in_queue(
                old(queue)@,
                (#[trigger] enq_in@[k]).0,
                enq_in@[k].1,
            ) || processed(*board, enq_in@, enq_in@[k].0, enq_in@[k].1) || (enq_in@[k].0
                == next_position.boxes && enq_in@[k].1 == next_position.player),
    ensures
        keys_distinct(final(visited)@),
        enq_covered(enq_out@, final(visited)@),
        enq_disjoint(enq_out@),
        final(visited)@.len() <= region_universe(),
        0 <= gain(final(visited)@),
        gain(final(visited)@) <= 257 * final(visited)@.len(),
        enq_out@.len() >= enq_in@.len(),
        forall|k: int| 0 <= k < enq_in@.len() ==> (#[trigger] enq_out@[k]) == enq_in@[k],
        enq_fixpoints(*board, enq_out@),
        union_exact(enq_out@, final(visited)@),
        search_measure(final(visited)@, final(queue)@.len() as int) <= search_measure(
            old(visited)@,
            old(queue)@.len() as int,
        ),
        forall|k: int|
            0 <= k < final(queue)@.len() ==> entry_ok_pending(
                *board,
                t@,
                (#[trigger] final(queue)@[k]).0,
                final(queue)@[k].1,
                current_id,
                *next_position,
            ),
        forall|k: int|
            0 <= k < enq_out@.len() ==> state_in_queue(
                final(queue)@,
                (#[trigger] enq_out@[k]).0,
                enq_out@[k].1,
            ) || processed(*board, enq_out@, enq_out@[k].0, enq_out@[k].1) || (enq_out@[k].0
                == next_position.boxes && enq_out@[k].1 == next_position.player),
        succ_ok(*board, enq_out@, next_position.boxes, mov),
        forall|bb: BitvImpl, m2: Move|
            #[trigger] succ_ok(*board, enq_in@, bb, m2) ==> succ_ok(*board, enq_out@, bb, m2),
{
    let mut cand = candidate;
    let ghost pre_player = cand.player;
    let ghost mut enq = enq_in@;
    proof {
        lemma_move_bounds(*board, *next_position, mov);
        assert(singleton_at(pre_player, mov.player as int));
    }
            match visited_find(visited, &cand.boxes) {
                Some(i) => {
                    cand.expand(board);
                    proof {
                        assert(cand.player.bit(mov.from as int)) by {
                            assert(pre_player.bit(mov.from as int));
                            assert(mask_bit(*board, cand.boxes, mov.from as int)) by {
                                assert(next_position.boxes.bit(mov.from as int));
                                assert(!cand.boxes.bit(mov.from as int));
                            }
                            assert(crate::bitv::dilate_point(
                                pre_player,
                                board.size.0 as int,
                                mov.from as int,
                            ));
                        }
                    }
                    let u = visited[i].1;
                    if !u.intersect(&cand.player) {
                        let ghost visited_pre = visited@;
                        let ghost q1 = queue@;
                        let ghost enq_old = enq;
                        let mut u2 = u;
                        u2.or(&cand.player);
                        visited[i] = (cand.boxes, u2);
                        queue.push_front((Option::Some(current_id), cand));
                        proof {
                            assert(visited@ == visited_pre.update(i as int, (cand.boxes, u2)));
                            assert(regions_disjoint(u, cand.player));
                            lemma_gain_update(visited_pre, i as int, (cand.boxes, u2));
                            assert(!u.bit(mov.from as int));
                            lemma_cnt_lt(u, u2, 256, mov.from as int);
                            lemma_enq_update(
                                visited_pre,
                                visited@,
                                enq,
                                enq.push((cand.boxes, cand.player)),
                                i as int,
                                cand.boxes,
                                u,
                                u2,
                                cand.player,
                            );
                            enq = enq.push((cand.boxes, cand.player));
                            lemma_visited_len(visited@);
                            lemma_gain_bounds(visited@);
                            assert(step_full(*board, *next_position, cand)) by {
                                reveal(step_full);
                                reveal(is_succ);
                                assert(move_valid(*board, *next_position, mov));
                                assert(singleton_at(pre_player, mov.player as int));
                                assert(is_expansion(
                                    *board,
                                    cand.boxes,
                                    pre_player,
                                    cand.player,
                                ));
                            }
                            assert(region_fixpoint(*board, cand.boxes, cand.player)) by {
                                reveal(region_fixpoint);
                            }
                            lemma_fixpoints_push(*board, enq_old, (cand.boxes, cand.player));
                            lemma_union_exact_update(
                                enq_old,
                                (cand.boxes, cand.player),
                                visited_pre,
                                visited@,
                                i as int,
                                u,
                                u2,
                            );
                            assert(covered(enq, cand.boxes, cand.player)) by {
                                reveal(covered);
                                let kk = enq.len() - 1;
                                assert((enq[kk]).0 == cand.boxes && subset_bits(
                                    cand.player,
                                    enq[kk].1,
                                ));
                            }
                            lemma_succ_ok_concrete(
                                *board,
                                enq,
                                next_position.boxes,
                                mov,
                                cand.boxes,
                                pre_player,
                                cand.player,
                            );
                            lemma_closure_push(*board, enq_old, (cand.boxes, cand.player));
                            lemma_closure_enqueue(
                                *board,
                                enq_old,
                                (cand.boxes, cand.player),
                                q1,
                                queue@,
                                *next_position,
                            );
                            assert(entry_ok_pending(
                                *board,
                                t@,
                                Option::Some(current_id),
                                cand,
                                current_id,
                                *next_position,
                            ));
                            lemma_pending_push(
                                *board,
                                t@,
                                q1,
                                queue@,
                                current_id,
                                *next_position,
                                (Option::Some(current_id), cand),
                            );
                        }
                    } else {
                        proof {
                            reveal(union_exact);
                            reveal(region_fixpoint);
                            reveal(covered);
                            reveal(enq_fixpoints);
                            let z = choose|z: int|
                                0 <= z < 256 && u.bit(z) && cand.player.bit(z);
                            assert(visited@[i as int].1.bit(z));
                            let kk = choose|kk: int|
                                0 <= kk < enq.len() && (#[trigger] enq[kk]).0 == visited@[
                                    i as int
                                ].0 && enq[kk].1.bit(z);
                            assert(region_fixpoint(*board, enq[kk].0, enq[kk].1));
                            assert(mask_bit(*board, cand.boxes, mov.from as int)) by {
                                assert(next_position.boxes.bit(mov.from as int));
                                assert(!cand.boxes.bit(mov.from as int));
                            }
                            lemma_flood_dominated(
                                *board,
                                cand.boxes,
                                mov.from as int,
                                pre_player,
                                cand.player,
                                enq[kk].1,
                                z,
                            );
                            assert(covered(enq, cand.boxes, cand.player)) by {
                                assert((enq[kk]).0 == cand.boxes && subset_bits(
                                    cand.player,
                                    enq[kk].1,
                                ));
                            }
                            lemma_succ_ok_concrete(
                                *board,
                                enq,
                                next_position.boxes,
                                mov,
                                cand.boxes,
                                pre_player,
                                cand.player,
                            );
                        }
                    }
                },
                None => {
                    cand.expand(board);
                    let ghost visited_pre = visited@;
                    let ghost q1 = queue@;
                    let ghost enq_old = enq;
                    visited.push((cand.boxes, cand.player));
                    queue.push_front((Option::Some(current_id), cand));
                    proof {
                        lemma_gain_push(visited_pre, (cand.boxes, cand.player));
                        crate::bitv::lemma_cnt_bounds(cand.player, 256);
                        lemma_enq_new(
                            visited_pre,
                            visited@,
                            enq,
                            enq.push((cand.boxes, cand.player)),
                            cand.boxes,
                            cand.player,
                        );
                        enq = enq.push((cand.boxes, cand.player));
                        lemma_visited_len(visited@);
                        lemma_gain_bounds(visited@);
                        assert(step_full(*board, *next_position, cand)) by {
                            reveal(step_full);
                            reveal(is_succ);
                            assert(move_valid(*board, *next_position, mov));
                            assert(singleton_at(pre_player, mov.player as int));
                            assert(is_expansion(
                                *board,
                                cand.boxes,
                                pre_player,
                                cand.player,
                            ));
                        }
                        assert(region_fixpoint(*board, cand.boxes, cand.player)) by {
                            reveal(region_fixpoint);
                        }
                        lemma_fixpoints_push(*board, enq_old, (cand.boxes, cand.player));
                        lemma_union_exact_push(
                            enq_old,
                            (cand.boxes, cand.player),
                            visited_pre,
                            visited@,
                        );
                        assert(covered(enq, cand.boxes, cand.player)) by {
                            reveal(covered);
                            let kk = enq.len() - 1;
                            assert((enq[kk]).0 == cand.boxes && subset_bits(
                                cand.player,
                                enq[kk].1,
                            ));
                        }
                        lemma_succ_ok_concrete(
                            *board,
                            enq,
                            next_position.boxes,
                            mov,
                            cand.boxes,
                            pre_player,
                            cand.player,
                        );
                        lemma_closure_push(*board, enq_old, (cand.boxes, cand.player));
                        lemma_closure_enqueue(
                            *board,
                            enq_old,
                            (cand.boxes, cand.player),
                            q1,
                            queue@,
                            *next_position,
                        );
                        assert(entry_ok_pending(
                            *board,
                            t@,
                            Option::Some(current_id),
                            cand,
                            current_id,
                            *next_position,
                        ));
                        lemma_pending_push(
                            *board,
                            t@,
                            q1,
                            queue@,
                            current_id,
                            *next_position,
                            (Option::Some(current_id), cand),
                        );
                    }
                },
            }
    proof {
        if enq == enq_in@ {
            assert forall|bb: BitvImpl, m2: Move|
                #[trigger] succ_ok(*board, enq_in@, bb, m2) implies succ_ok(
                *board,
                enq,
                bb,
                m2,
            ) by {}
        }
    }
    Ghost(enq)
}

/// Breadth-first search for a winning sequence of pushes.  Explores
/// positions in insertion order, deduplicating by box configuration: for
/// each configuration the index keeps the union of the player regions seen
/// with it, and a position whose region overlaps that union is discarded.
/// The loop maintains that the regions of any two admitted states with the
/// same boxes are disjoint (the record `enq` below; see
/// [`lemma_dedup_sound`] for the argument), and that the visited index can
/// only absorb finitely much, which is what bounds the search.
/// On a win, hands back the ordered sequence of positions from the initial
/// one to the winning one, inclusive; `None` when the search exhausts the
/// state space without finding a win.
#[verifier::rlimit(100)]
pub fn resolve(board: &Board) -> (res: Option<Vec<Position>>)
    requires
        board.wf(),
    ensures
        res matches Some(path) ==> {
            &&& path@.len() >= 2
            &&& path@[path@.len() - 1].boxes == board.targets
            &&& forall|i: int|
                0 <= i < path@.len() - 1 ==> step_full(*board, (#[trigger] path@[i]), path@[i + 1])
            &&& initial_expanded(*board, path@[0])
            &&& forall|i: int|
                1 <= i < path@.len() - 1 ==> (#[trigger] path@[i]).boxes != board.targets
        },
        res is None ==> !(exists|path: Seq<Position>|
            path.len() >= 2 && initial_expanded(*board, path[0]) && (forall|t: int|
                0 <= t < path.len() - 1 ==> step_full(*board, (#[trigger] path[t]), path[t + 1]))
                && path[path.len() - 1].boxes == board.targets),
{
    let mut visited: Vec<(BitvImpl, BitvImpl)> = Vec::new();
    let mut tree: Tree<Position> = Tree::new();
    let mut queue: VecDeque<(Option<usize>, Position)> = VecDeque::new();

    let mut initial_position = board.initial_position();
    let ghost seed0 = initial_position.player;
    initial_position.expand(board);
    visited.push((initial_position.boxes, initial_position.player));
    queue.push_front((Option::None, initial_position));
    let ghost mut enq: Seq<(BitvImpl, BitvImpl)> = seq![
        (initial_position.boxes, initial_position.player),
    ];
    proof {
        assert(singleton_at(seed0, board.player as int));
        assert(initial_expanded(*board, initial_position)) by {
            reveal(initial_expanded);
        }
        assert(initial_region_ok(*board, initial_position.player)) by {
            reveal(initial_region_ok);
        }
        crate::bitv::lemma_cnt_bounds(initial_position.player, 256);
        lemma_gain_push(Seq::empty(), (initial_position.boxes, initial_position.player));
        lemma_visited_len(visited@);
        assert(enq_covered(enq, visited@)) by {
            assert((visited@[0]).0 == enq[0].0);
            assert(v_has_key(visited@, enq[0].0));
            assert(subset_bits(enq[0].1, visited@[0].1));
        }
        assert(enq_fixpoints(*board, enq)) by {
            reveal(enq_fixpoints);
            reveal(region_fixpoint);
            assert(region_fixpoint(*board, enq[0].0, enq[0].1));
        }
        assert(union_exact(enq, visited@)) by {
            reveal(union_exact);
            assert forall|ii: int, z: int|
                0 <= ii < visited@.len() && 0 <= z < 256 && (#[trigger] visited@[ii].1.bit(
                    z,
                )) implies exists|k: int|
                0 <= k < enq.len() && (#[trigger] enq[k]).0 == visited@[ii].0 && enq[k].1.bit(
                    z,
                ) by {
                assert((enq[0]).0 == visited@[ii].0 && enq[0].1.bit(z));
            }
        }
        assert(closure_ok(*board, enq, queue@)) by {
            reveal(state_in_queue);
            assert((queue@[0]).1.boxes == enq[0].0 && queue@[0].1.player == enq[0].1);
            assert(state_in_queue(queue@, enq[0].0, enq[0].1));
        }
    }

    while queue.len() != 0
        invariant
            board.wf(),
            table_ok(*board, tree@),
            forall|k: int|
                0 <= k < queue@.len() ==> entry_ok(
                    *board,
                    tree@,
                    (#[trigger] queue@[k]).0,
                    queue@[k].1,
                ),
            keys_distinct(visited@),
            enq_covered(enq, visited@),
            enq_disjoint(enq),
            visited@.len() <= region_universe(),
            0 <= gain(visited@),
            gain(visited@) <= 257 * visited@.len(),
            enq.len() >= 1,
            enq[0].0 == board.boxes,
            initial_region_ok(*board, enq[0].1),
            enq_fixpoints(*board, enq),
            union_exact(enq, visited@),
            closure_ok(*board, enq, queue@),
        decreases search_measure(visited@, queue@.len() as int),
    {
        let ghost q0 = queue@;
        let popped = queue.pop_back().unwrap();
        let parent_index = popped.0;
        let next_position = popped.1;
        proof {
            assert(entry_ok(*board, tree@, parent_index, next_position));
            reveal(state_in_queue);
            assert forall|k: int|
                0 <= k < enq.len() implies state_in_queue(
                queue@,
                (#[trigger] enq[k]).0,
                enq[k].1,
            ) || processed(*board, enq, enq[k].0, enq[k].1) || (enq[k].0 == next_position.boxes
                && enq[k].1 == next_position.player) by {
                if state_in_queue(q0, enq[k].0, enq[k].1) {
                    let j = choose|j: int|
                        0 <= j < q0.len() && (#[trigger] q0[j]).1.boxes == enq[k].0 && q0[j].1.player
                            == enq[k].1;
                    if j < q0.len() - 1 {
                        assert((queue@[j]).1.boxes == enq[k].0 && queue@[j].1.player == enq[k].1);
                        assert(state_in_queue(queue@, enq[k].0, enq[k].1));
                    }
                }
            }
        }
        let current_id = tree.len();
        let ghost m0 = search_measure(visited@, queue@.len() as int);

        let moves = next_position.moves(board);
        let mut mi: usize = 0;
        #[verifier::rlimit(100)]
        while mi < moves.len()
            invariant
                board.wf(),
                mi <= moves.len(),
                forall|m: Move| #[trigger] moves@.contains(m) <==> move_valid(*board, next_position, m),
                table_ok(*board, tree@),
                current_id as int == tree@.len(),
                subset_bits(next_position.boxes, board.floor),
                parent_index is None ==> initial_expanded(*board, next_position),
                parent_index matches Some(p) ==> (p as int) < tree@.len() && step_full(
                    *board,
                    tree@[p as int].1,
                    next_position,
                ) && next_position.boxes != board.targets,
                forall|k: int|
                    0 <= k < queue@.len() ==> entry_ok_pending(
                        *board,
                        tree@,
                        (#[trigger] queue@[k]).0,
                        queue@[k].1,
                        current_id,
                        next_position,
                    ),
                keys_distinct(visited@),
                enq_covered(enq, visited@),
                enq_disjoint(enq),
                visited@.len() <= region_universe(),
                0 <= gain(visited@),
                gain(visited@) <= 257 * visited@.len(),
                search_measure(visited@, queue@.len() as int) <= m0,
                enq.len() >= 1,
                enq[0].0 == board.boxes,
                initial_region_ok(*board, enq[0].1),
                enq_fixpoints(*board, enq),
                union_exact(enq, visited@),
                forall|k: int|
                    0 <= k < enq.len() ==> state_in_queue(queue@, (#[trigger] enq[k]).0, enq[k].1)
                        || processed(*board, enq, enq[k].0, enq[k].1) || (enq[k].0
                        == next_position.boxes && enq[k].1 == next_position.player),
                forall|mm: int|
                    0 <= mm < mi ==> succ_ok(
                        *board,
                        enq,
                        next_position.boxes,
                        (#[trigger] moves@[mm]),
                    ),
            decreases moves@.len() - mi,
        {
            let mov = moves[mi];
            proof {
                assert(moves@[mi as int] == mov);
                assert(moves@.contains(mov));
                assert(move_valid(*board, next_position, mov));
                lemma_move_bounds(*board, next_position, mov);
            }
            let mut new_pos = next_position.move_to(&mov);
            let ghost pre_player = new_pos.player;
            proof {
                assert(singleton_at(pre_player, mov.player as int));
                assert forall|j: int|
                    0 <= j < 256 && #[trigger] new_pos.boxes.bit(j) implies board.floor.bit(j) by {
                    if j == mov.to as int {
                        assert(board.places.bit(j));
                    }
                }
            }

            if board.targets.get_bit(mov.to as usize) && new_pos.win(board) {
                new_pos.expand(board);
                proof {
                    assert(step_full(*board, next_position, new_pos)) by {
                        reveal(step_full);
                        reveal(is_succ);
                        assert(move_valid(*board, next_position, mov));
                        assert(singleton_at(pre_player, mov.player as int));
                        assert(is_expansion(*board, new_pos.boxes, pre_player, new_pos.player));
                    }
                }
                let mut result: Vec<Position> = Vec::new();
                result.push(new_pos);
                result.push(next_position);
                let parents = recover_parents(&tree, parent_index);
                let ghost parents0 = parents@;
                let mut parents_tail = parents;
                result.append(&mut parents_tail);
                proof {
                    assert(result@ =~= seq![new_pos, next_position] + parents0);
                }
                let solution = reverse_positions(&result);
                proof {
                    lemma_solution_ok(
                        *board,
                        tree@,
                        parent_index,
                        next_position,
                        new_pos,
                        parents0,
                        result@,
                        solution@,
                    );
                }
                return Some(solution);
            }

            proof {
                assert(new_pos.boxes != board.targets) by {
                    if new_pos.boxes == board.targets {
                        assert(new_pos.boxes.bit(mov.to as int));
                    }
                }
            }
            let ghost enq_before = enq;
            let enq_ret = admit_candidate(
                board,
                &next_position,
                mov,
                new_pos,
                current_id,
                &mut visited,
                &mut queue,
                Ghost(tree@),
                Ghost(enq),
            );
            proof {
                enq = enq_ret@;
                assert(enq[0] == enq_before[0]);
                assert forall|mm: int|
                    0 <= mm < mi + 1 implies succ_ok(
                    *board,
                    enq,
                    next_position.boxes,
                    (#[trigger] moves@[mm]),
                ) by {
                    if mm < mi {
                        assert(succ_ok(*board, enq_before, next_position.boxes, moves@[mm]));
                    } else {
                        assert(moves@[mm] == mov);
                    }
                }
            }
            mi = mi + 1;
        }

        let ghost tpre = tree@;
        let added_id = tree.add(parent_index, next_position);
        proof {
            let table1 = tree@;
            assert(added_id == current_id);
            assert(table_ok(*board, table1)) by {
                assert forall|i: int| 0 <= i < table1.len() implies {
                    let e = #[trigger] table1[i];
                    &&& (e.0 is None ==> initial_expanded(*board, e.1))
                    &&& (e.0 matches Some(p) ==> (p as int) < i && step_full(
                        *board,
                        table1[p as int].1,
                        e.1,
                    ) && e.1.boxes != board.targets)
                } by {
                    if i < tpre.len() {
                        assert(table1[i] == tpre[i]);
                        if tpre[i].0 is Some {
                            let p = tpre[i].0->0;
                            assert(table1[p as int] == tpre[p as int]);
                        }
                    } else {
                        assert(table1[i] == (parent_index, next_position));
                        if parent_index is Some {
                            let p = parent_index->0;
                            assert(table1[p as int] == tpre[p as int]);
                        }
                    }
                }
            }
            assert forall|k: int| 0 <= k < queue@.len() implies entry_ok(
                *board,
                table1,
                (#[trigger] queue@[k]).0,
                queue@[k].1,
            ) by {
                let pid = queue@[k].0;
                let pos = queue@[k].1;
                assert(entry_ok_pending(*board, tpre, pid, pos, current_id, next_position));
                if pid == Option::Some(current_id) {
                    assert(table1[current_id as int].1 == next_position);
                } else if pid is Some {
                    let p = pid->0;
                    assert(entry_ok(*board, tpre, pid, pos));
                    assert(table1[p as int] == tpre[p as int]);
                }
            }
            assert(processed(*board, enq, next_position.boxes, next_position.player)) by {
                reveal(processed);
                assert forall|m: Move|
                    #[trigger] move_valid(
                    *board,
                    (Position { boxes: next_position.boxes, player: next_position.player }),
                    m,
                ) implies succ_ok(*board, enq, next_position.boxes, m) by {
                    assert((Position { boxes: next_position.boxes, player: next_position.player })
                        == next_position);
                    assert(move_valid(*board, next_position, m));
                    assert(moves@.contains(m));
                    let idx = choose|idx: int| 0 <= idx < moves@.len() && moves@[idx] == m;
                    assert(succ_ok(*board, enq, next_position.boxes, moves@[idx]));
                }
            }
            assert(closure_ok(*board, enq, queue@)) by {
                assert forall|k: int|
                    0 <= k < enq.len() implies state_in_queue(
                    queue@,
                    (#[trigger] enq[k]).0,
                    enq[k].1,
                ) || processed(*board, enq, enq[k].0, enq[k].1) by {
                    if enq[k].0 == next_position.boxes && enq[k].1 == next_position.player {
                        assert(processed(*board, enq, enq[k].0, enq[k].1));
                    }
                }
            }
        }
    }
    proof {
        reveal(state_in_queue);
        assert forall|k: int|
            0 <= k < enq.len() implies processed(*board, enq, (#[trigger] enq[k]).0, enq[k].1) by {
            if state_in_queue(queue@, enq[k].0, enq[k].1) {
                let j = choose|j: int|
                    0 <= j < queue@.len() && (#[trigger] queue@[j]).1.boxes == enq[k].0
                        && queue@[j].1.player == enq[k].1;
                assert(false);
            }
        }
        assert(!(exists|path: Seq<Position>|
            path.len() >= 2 && initial_expanded(*board, path[0]) && (forall|t: int|
                0 <= t < path.len() - 1 ==> step_full(*board, (#[trigger] path[t]), path[t + 1]))
                && path[path.len() - 1].boxes == board.targets)) by {
            if exists|path: Seq<Position>|
                path.len() >= 2 && initial_expanded(*board, path[0]) && (forall|t: int|
                    0 <= t < path.len() - 1 ==> step_full(
                        *board,
                        (#[trigger] path[t]),
                        path[t + 1],
                    )) && path[path.len() - 1].boxes == board.targets {
                let path = choose|path: Seq<Position>|
                    path.len() >= 2 && initial_expanded(*board, path[0]) && (forall|t: int|
                        0 <= t < path.len() - 1 ==> step_full(
                            *board,
                            (#[trigger] path[t]),
                            path[t + 1],
                        )) && path[path.len() - 1].boxes == board.targets;
                assert(covered(enq, path[0].boxes, path[0].player)) by {
                    reveal(covered);
                    reveal(initial_expanded);
                    reveal(initial_region_ok);
                    let s1 = choose|s: BitvImpl|
                        singleton_at(s, board.player as int) && is_expansion(
                            *board,
                            board.boxes,
                            s,
                            path[0].player,
                        );
                    let s0 = choose|s: BitvImpl|
                        singleton_at(s, board.player as int) && is_expansion(
                            *board,
                            board.boxes,
                            s,
                            enq[0].1,
                        );
                    assert forall|j: int| 0 <= j < 256 implies (#[trigger] s1.bit(j)) == s0.bit(
                        j,
                    ) by {}
                    lemma_expansion_unique(*board, board.boxes, s1, s0, path[0].player, enq[0].1);
                    assert((enq[0]).0 == path[0].boxes && subset_bits(path[0].player, enq[0].1));
                }
                lemma_no_missed_win(*board, enq, path, path.len() - 1);
                assert(false);
            }
        }
    }
    None
}

} // verus!
