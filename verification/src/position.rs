//! One search node: a box configuration together with the region of cells
//! the player can reach without pushing a box.

use vstd::prelude::*;

use crate::bitv::{
    bit_in, cnt, dilate_point, lemma_bits_eq, lemma_cnt_bounds, lemma_cnt_le, lemma_cnt_lt, Bitv,
    BitvImpl,
};
use crate::board::Board;

verus! {

/// A search node.  `player` is meaningful only after [`Position::expand`]
/// has recomputed it for the current `boxes`.
#[derive(Hash, Eq, PartialEq, Clone, Copy, Structural, Debug)]
pub struct Position {
    /// The boxes' positions.
    pub boxes: BitvImpl,
    /// The player's possible movements.
    pub player: BitvImpl,
}

/// One push: the box moves from `from` to `to`, and the player ends on
/// `player`, the cell it pushed the box out of.
#[derive(PartialEq, Eq, Clone, Copy, Debug, Structural)]
pub struct Move {
    pub from: i16,
    pub to: i16,
    pub player: i16,
}

/// The cells the player may occupy: passable floor not covered by a box.
pub open spec fn mask_bit(board: Board, boxes: BitvImpl, j: int) -> bool {
    board.floor.bit(j) && !boxes.bit(j)
}

/// A legal push of `st` on `board`: the box on `from` moves one cell in one
/// of the four directions to a free legal resting place `to`, the player can
/// stand on the cell behind the box, and ends on the box's former cell.
/// Boxes on the first or last row can never be pushed.
pub open spec fn move_valid(board: Board, st: Position, m: Move) -> bool {
    let x = board.size.0 as int;
    let y = board.size.1 as int;
    let from = m.from as int;
    let to = m.to as int;
    let d = to - from;
    &&& m.player == m.from
    &&& (d == -1 || d == 1 || d == -x || d == x)
    &&& x <= from < x * (y - 1)
    &&& st.boxes.bit(from)
    &&& st.player.bit(from - d)
    &&& board.places.bit(to)
    &&& !st.boxes.bit(to)
}

/// `a`'s cells all lie in `b`.
pub open spec fn subset_bits(a: BitvImpl, b: BitvImpl) -> bool {
    forall|j: int| 0 <= j < 256 && #[trigger] a.bit(j) ==> #[trigger] b.bit(j)
}

/// `q` is closed under one dilation step restricted to the passable mask:
/// flooding cannot grow it any further.
pub open spec fn closed_region(board: Board, boxes: BitvImpl, q: BitvImpl) -> bool {
    forall|j: int|
        0 <= j < 256 && #[trigger] dilate_point(q, board.size.0 as int, j) && mask_bit(
            board,
            boxes,
            j,
        ) ==> q.bit(j)
}

/// `q` holds everything one dilation step reaches from `start` inside the
/// passable mask.
pub open spec fn seeded_region(board: Board, boxes: BitvImpl, start: BitvImpl, q: BitvImpl) -> bool {
    forall|j: int|
        0 <= j < 256 && #[trigger] dilate_point(start, board.size.0 as int, j) && mask_bit(
            board,
            boxes,
            j,
        ) ==> q.bit(j)
}

/// `r` is the flood fill of `start` over the passable cells of `board` with
/// boxes `boxes`: a fixed point of dilate-then-mask, it holds the first
/// dilation of the seed, and it is the least region closed under flooding
/// that does so.
pub open spec fn is_expansion(board: Board, boxes: BitvImpl, start: BitvImpl, r: BitvImpl) -> bool {
    &&& forall|j: int|
        0 <= j < 256 ==> #[trigger] r.bit(j) == (dilate_point(r, board.size.0 as int, j)
            && mask_bit(board, boxes, j))
    &&& seeded_region(board, boxes, start, r)
    &&& forall|q: BitvImpl|
        #[trigger] closed_region(board, boxes, q) && seeded_region(board, boxes, start, q)
            ==> subset_bits(r, q)
}


/// `s` holds exactly the cell `c`.
pub open spec fn singleton_at(s: BitvImpl, c: int) -> bool {
    forall|j: int| 0 <= j < 256 ==> (#[trigger] s.bit(j)) == (j == c)
}

/// Flood fill is a function of its seed: two expansions over the same
/// boxes from pointwise-equal seeds are the same region.
pub proof fn lemma_expansion_unique(
    board: Board,
    boxes: BitvImpl,
    s1: BitvImpl,
    s2: BitvImpl,
    r1: BitvImpl,
    r2: BitvImpl,
)
    requires
        forall|j: int| 0 <= j < 256 ==> (#[trigger] s1.bit(j)) == s2.bit(j),
        is_expansion(board, boxes, s1, r1),
        is_expansion(board, boxes, s2, r2),
    ensures
        r1 == r2,
{
    let x = board.size.0 as int;
    assert(closed_region(board, boxes, r1));
    assert(closed_region(board, boxes, r2));
    assert(seeded_region(board, boxes, s1, r2)) by {
        assert forall|j: int|
            0 <= j < 256 && #[trigger] dilate_point(s1, x, j) && mask_bit(board, boxes, j) implies r2.bit(
            j,
        ) by {
            assert(dilate_point(s2, x, j));
        }
    }
    assert(seeded_region(board, boxes, s2, r1)) by {
        assert forall|j: int|
            0 <= j < 256 && #[trigger] dilate_point(s2, x, j) && mask_bit(board, boxes, j) implies r1.bit(
            j,
        ) by {
            assert(dilate_point(s1, x, j));
        }
    }
    assert(subset_bits(r1, r2));
    assert(subset_bits(r2, r1));
    assert forall|j: int| 0 <= j < 256 implies (#[trigger] r1.bit(j)) == r2.bit(j) by {}
    lemma_bits_eq(r1, r2);
}

/// A region closed under flooding that misses a passable cell `c` also
/// misses the whole flood fill from `c`: the passable cells outside it are
/// themselves closed under flooding.
#[verifier::rlimit(100)]
proof fn lemma_flood_meets(
    board: Board,
    boxes: BitvImpl,
    c: int,
    s: BitvImpl,
    r2: BitvImpl,
    ri: BitvImpl,
    z: int,
)
    requires
        board.wf(),
        0 <= c < 256,
        mask_bit(board, boxes, c),
        singleton_at(s, c),
        is_expansion(board, boxes, s, r2),
        closed_region(board, boxes, ri),
        0 <= z < 256,
        r2.bit(z),
        ri.bit(z),
    ensures
        ri.bit(c),
{
    let x = board.size.0 as int;
    if !ri.bit(c) {
        let maskv = crate::bitv::diff_region(board.floor, boxes);
        let qc = crate::bitv::diff_region(maskv, ri);
        assert(forall|j: int|
            0 <= j < 256 ==> (#[trigger] qc.bit(j)) == (mask_bit(board, boxes, j) && !ri.bit(
                j,
            ))) by {
            crate::bitv::lemma_diff_region_bits(board.floor, boxes);
            crate::bitv::lemma_diff_region_bits(maskv, ri);
        }
        assert(closed_region(board, boxes, qc)) by {
            assert forall|j: int|
                0 <= j < 256 && #[trigger] dilate_point(qc, x, j) && mask_bit(
                    board,
                    boxes,
                    j,
                ) implies qc.bit(j) by {
                if ri.bit(j) {
                    if bit_in(qc, j) {
                    } else if bit_in(qc, j - 1) {
                        assert(dilate_point(ri, x, j - 1) && mask_bit(board, boxes, j - 1));
                    } else if bit_in(qc, j + 1) {
                        assert(dilate_point(ri, x, j + 1) && mask_bit(board, boxes, j + 1));
                    } else if bit_in(qc, j - x) {
                        assert(dilate_point(ri, x, j - x) && mask_bit(board, boxes, j - x));
                    } else {
                        assert(bit_in(qc, j + x));
                        assert(dilate_point(ri, x, j + x) && mask_bit(board, boxes, j + x));
                    }
                }
            }
        }
        assert(seeded_region(board, boxes, s, qc)) by {
            assert forall|j: int|
                0 <= j < 256 && #[trigger] dilate_point(s, x, j) && mask_bit(
                    board,
                    boxes,
                    j,
                ) implies qc.bit(j) by {
                if ri.bit(j) {
                    assert(bit_in(ri, j));
                    assert(dilate_point(ri, x, c));
                }
            }
        }
        assert(subset_bits(r2, qc));
        assert(qc.bit(z));
        assert(false);
    }
}

/// A flood fill from a passable cell that shares any cell with a region
/// closed under flooding lies entirely inside it: distinct flooded areas of
/// the same box configuration can never partially overlap.
pub proof fn lemma_flood_dominated(
    board: Board,
    boxes: BitvImpl,
    c: int,
    s: BitvImpl,
    r2: BitvImpl,
    ri: BitvImpl,
    z: int,
)
    requires
        board.wf(),
        0 <= c < 256,
        mask_bit(board, boxes, c),
        singleton_at(s, c),
        is_expansion(board, boxes, s, r2),
        forall|j: int|
            0 <= j < 256 ==> (#[trigger] ri.bit(j)) == (dilate_point(ri, board.size.0 as int, j)
                && mask_bit(board, boxes, j)),
        0 <= z < 256,
        r2.bit(z),
        ri.bit(z),
    ensures
        subset_bits(r2, ri),
{
    let x = board.size.0 as int;
    assert(closed_region(board, boxes, ri));
    lemma_flood_meets(board, boxes, c, s, r2, ri, z);
    assert(seeded_region(board, boxes, s, ri)) by {
        assert forall|j: int|
            0 <= j < 256 && #[trigger] dilate_point(s, x, j) && mask_bit(
                board,
                boxes,
                j,
            ) implies ri.bit(j) by {
            assert(bit_in(ri, c));
            assert(dilate_point(ri, x, j));
        }
    }
    assert(subset_bits(r2, ri));
}

/// The move pushing the box on `pos` one cell in direction `d`.
pub open spec fn push_of(pos: int, d: int) -> Move {
    Move { from: pos as i16, to: (pos + d) as i16, player: pos as i16 }
}

/// The push towards the lower column from `pos`, if it is legal: a one- or
/// zero-element sequence.
pub open spec fn seg_left(board: Board, st: Position, pos: int) -> Seq<Move> {
    if st.player.bit(pos + 1) && board.places.bit(pos - 1) && !st.boxes.bit(pos - 1) {
        seq![push_of(pos, -1)]
    } else {
        Seq::empty()
    }
}

/// The push towards the higher column from `pos`, if it is legal.
pub open spec fn seg_right(board: Board, st: Position, pos: int) -> Seq<Move> {
    if st.player.bit(pos - 1) && board.places.bit(pos + 1) && !st.boxes.bit(pos + 1) {
        seq![push_of(pos, 1)]
    } else {
        Seq::empty()
    }
}

/// The push towards the lower row from `pos`, if it is legal.
pub open spec fn seg_up(board: Board, st: Position, pos: int) -> Seq<Move> {
    let x = board.size.0 as int;
    if st.player.bit(pos + x) && board.places.bit(pos - x) && !st.boxes.bit(pos - x) {
        seq![push_of(pos, -x)]
    } else {
        Seq::empty()
    }
}

/// The push towards the higher row from `pos`, if it is legal.
pub open spec fn seg_down(board: Board, st: Position, pos: int) -> Seq<Move> {
    let x = board.size.0 as int;
    if st.player.bit(pos - x) && board.places.bit(pos + x) && !st.boxes.bit(pos + x) {
        seq![push_of(pos, x)]
    } else {
        Seq::empty()
    }
}

/// The pushes of the box on cell `pos`, in the order the generator emits
/// them: lower column, higher column, lower row, higher row; empty when the
/// cell holds no box.
pub open spec fn moves_at(board: Board, st: Position, pos: int) -> Seq<Move> {
    if st.boxes.bit(pos) {
        seg_left(board, st, pos) + seg_right(board, st, pos) + seg_up(board, st, pos) + seg_down(
            board,
            st,
            pos,
        )
    } else {
        Seq::empty()
    }
}

/// All pushes of the cells below `end`, boxes in ascending cell order.
pub open spec fn moves_upto(board: Board, st: Position, end: int) -> Seq<Move>
    decreases end,
{
    let x = board.size.0 as int;
    if end <= x {
        Seq::empty()
    } else {
        moves_upto(board, st, end - 1) + moves_at(board, st, end - 1)
    }
}

/// A region differing from another differs at some cell.
proof fn lemma_bits_differ(a: BitvImpl, b: BitvImpl)
    requires
        a != b,
    ensures
        exists|j: int| 0 <= j < 256 && a.bit(j) != b.bit(j),
{
    if forall|j: int| 0 <= j < 256 ==> #[trigger] a.bit(j) == b.bit(j) {
        lemma_bits_eq(a, b);
        assert(false);
    }
}

impl Position {
    /// Build a new position from a move.  Needs to be expanded: the player
    /// region is reset to the landing cell alone.  The region of cells the
    /// player can reach is a pure function of the boxes and the board, so
    /// the caller recomputes it by flood fill from that cell.
    pub fn move_to(&self, mov: &Move) -> (p: Position)
        requires
            0 <= mov.from < 256,
            0 <= mov.to < 256,
            0 <= mov.player < 256,
        ensures
            forall|j: int|
                0 <= j < 256 ==> #[trigger] p.boxes.bit(j) == ((self.boxes.bit(j) && j
                    != mov.from as int) || j == mov.to as int),
            forall|j: int|
                0 <= j < 256 ==> #[trigger] p.player.bit(j) == (j == mov.player as int),
    {
        let mut boxes: BitvImpl = self.boxes;
        boxes.unset_bit(mov.from as usize);
        boxes.set_bit(mov.to as usize);

        let mut player = BitvImpl::new();
        player.set_bit(mov.player as usize);

        Position { boxes, player }
    }

    /// Expand the player possibilities according to the board and boxes:
    /// repeated dilation intersected with the passable cells, until the
    /// region stops growing.
    #[verifier::loop_isolation(false)]
    pub fn expand(&mut self, board: &Board)
        requires
            board.wf(),
        ensures
            final(self).boxes == old(self).boxes,
            is_expansion(*board, old(self).boxes, old(self).player, final(self).player),
    {
        let ghost start: BitvImpl = self.player;
        let ghost boxes0: BitvImpl = self.boxes;
        let x = board.size.0 as usize;
        let ghost xi = x as int;
        let cells = (board.size.0 as usize) * (board.size.1 as usize);

        let mut mask: BitvImpl = board.floor;
        let mut box_mask: BitvImpl = self.boxes;
        box_mask.neg(cells);
        mask.and(&box_mask);
        proof {
            assert(cells as int == board.cells());
            assert forall|j: int| 0 <= j < 256 implies #[trigger] mask.bit(j) == mask_bit(
                *board,
                boxes0,
                j,
            ) by {
                assert(mask.bit(j) == (board.floor.bit(j) && box_mask.bit(j)));
                assert(box_mask.bit(j) == (j < cells as int && !boxes0.bit(j)));
                if board.floor.bit(j) {
                    assert(j < board.cells());
                }
            }
        }

        let mut space: BitvImpl = self.player;
        space.expand_from(&self.player, x);
        space.and(&mask);
        proof {
            lemma_cnt_bounds(space, 256);
            assert forall|q: BitvImpl|
                #[trigger] closed_region(*board, boxes0, q) && seeded_region(
                    *board,
                    boxes0,
                    start,
                    q,
                ) implies subset_bits(space, q) by {
                assert forall|j: int| 0 <= j < 256 && #[trigger] space.bit(j) implies q.bit(j) by {
                    assert(dilate_point(start, xi, j) && mask_bit(*board, boxes0, j));
                }
            }
        }

        while space != self.player
            invariant
                board.wf(),
                self.boxes == boxes0,
                1 <= xi < 64,
                xi == board.size.0 as int,
                forall|j: int| 0 <= j < 256 ==> #[trigger] mask.bit(j) == mask_bit(*board, boxes0, j),
                forall|j: int|
                    0 <= j < 256 ==> #[trigger] space.bit(j) == (dilate_point(self.player, xi, j)
                        && mask.bit(j)),
                seeded_region(*board, boxes0, start, space),
                forall|q: BitvImpl|
                    #[trigger] closed_region(*board, boxes0, q) && seeded_region(
                        *board,
                        boxes0,
                        start,
                        q,
                    ) ==> subset_bits(space, q) && (forall|j: int|
                        0 <= j < 256 && #[trigger] self.player.bit(j) ==> q.bit(j) || start.bit(j)),
                0 <= cnt(space, 256) <= 256,
            decreases 256 - cnt(space, 256), (if space == self.player { 0int } else { 1int }),
        {
            let ghost space_pre: BitvImpl = space;
            self.player.expand_from(&space, x);
            self.player.and(&mask);
            space.expand_from(&self.player, x);
            space.and(&mask);
            proof {
                lemma_cnt_bounds(space, 256);
                // the region only grows: old space ⊆ new player ⊆ new space
                assert forall|j: int|
                    0 <= j < 256 && #[trigger] space_pre.bit(j) implies self.player.bit(j) by {
                    assert(dilate_point(space_pre, xi, j));
                }
                assert forall|j: int|
                    0 <= j < 256 && #[trigger] self.player.bit(j) implies space.bit(j) by {
                    assert(dilate_point(self.player, xi, j));
                }
                // minimality is preserved
                assert forall|q: BitvImpl|
                    #[trigger] closed_region(*board, boxes0, q) && seeded_region(
                        *board,
                        boxes0,
                        start,
                        q,
                    ) implies subset_bits(space, q) && (forall|j: int|
                        0 <= j < 256 && #[trigger] self.player.bit(j) ==> q.bit(j) || start.bit(
                            j,
                        )) by {
                    assert(subset_bits(space_pre, q));
                    assert forall|j: int|
                        0 <= j < 256 && #[trigger] self.player.bit(j) implies q.bit(j) by {
                        assert(dilate_point(space_pre, xi, j) && mask_bit(*board, boxes0, j));
                        assert(dilate_point(q, xi, j)) by {
                            if bit_in(space_pre, j) {
                            } else if bit_in(space_pre, j - 1) {
                            } else if bit_in(space_pre, j + 1) {
                            } else if bit_in(space_pre, j - xi) {
                            } else {
                            }
                        }
                    }
                    assert forall|j: int| 0 <= j < 256 && #[trigger] space.bit(j) implies q.bit(
                        j,
                    ) by {
                        assert(dilate_point(self.player, xi, j) && mask_bit(*board, boxes0, j));
                        assert(dilate_point(q, xi, j)) by {
                            if bit_in(self.player, j) {
                            } else if bit_in(self.player, j - 1) {
                            } else if bit_in(self.player, j + 1) {
                            } else if bit_in(self.player, j - xi) {
                            } else {
                            }
                        }
                    }
                }
                // termination: the count grows strictly, or the loop is done
                if space == space_pre {
                    lemma_bits_eq(space, self.player);
                } else {
                    lemma_bits_differ(space_pre, space);
                    let k = choose|k: int| 0 <= k < 256 && space_pre.bit(k) != space.bit(k);
                    lemma_cnt_lt(space_pre, space, 256, k);
                }
                lemma_cnt_le(space_pre, space, 256);
            }
        }

        self.player = space;
        proof {
            assert forall|j: int|
                0 <= j < 256 implies #[trigger] space.bit(j) == (dilate_point(space, xi, j)
                && mask_bit(*board, boxes0, j)) by {}
        }
    }

    /// True iff every target carries a box and no box stands elsewhere.
    pub fn win(&self, board: &Board) -> (r: bool)
        ensures
            r == (self.boxes == board.targets),
    {
        self.boxes == board.targets
    }

    /// Gives the possible next moves according to the board: every
    /// single-cell push.  A box can be pushed one cell in a direction when
    /// the player can stand on the cell behind it and the destination is a
    /// legal resting place not covered by another box.  The position must
    /// be expanded for the result to reflect real player reachability.
    /// The result is the exact sequence `moves_upto` describes — boxes in
    /// ascending cell order, directions in a fixed order, no duplicates —
    /// so move generation is deterministic.
    #[verifier::loop_isolation(false)]
    #[verifier::rlimit(100)]
    pub fn moves(&self, board: &Board) -> (result: Vec<Move>)
        requires
            board.wf(),
        ensures
            forall|m: Move| #[trigger] result@.contains(m) <==> move_valid(*board, *self, m),
            result@ == moves_upto(
                *board,
                *self,
                board.size.0 as int * (board.size.1 as int - 1),
            ),
    {
        let x = board.size.0 as usize;
        let y = board.size.1 as usize;
        let cells = x * y;

        let mut places: BitvImpl = self.boxes;
        places.neg(cells);
        places.and(&board.places);
        proof {
            assert forall|j: int|
                0 <= j < 256 implies #[trigger] places.bit(j) == (board.places.bit(j)
                && !self.boxes.bit(j)) by {
                if board.places.bit(j) {
                    assert(board.floor.bit(j));
                }
            }
        }

        proof {
            assert(x * (y - 1) + x == x * y) by (nonlinear_arith)
                requires
                    1 <= y,
            ;
        }
        let end = x * (y - 1);
        let mut result: Vec<Move> = Vec::new();
        let mut pos: usize = x;
        while pos < end
            invariant
                x <= pos,
                pos <= end || pos == x,
                forall|j: int|
                    0 <= j < 256 ==> #[trigger] places.bit(j) == (board.places.bit(j)
                        && !self.boxes.bit(j)),
                forall|m: Move|
                    #[trigger] result@.contains(m) <==> (move_valid(*board, *self, m)
                        && (m.from as int) < pos as int),
                result@ == moves_upto(*board, *self, pos as int),
            decreases end - pos,
        {
            if self.boxes.get_bit(pos) {
                let ghost xi = x as int;
                let ghost r0 = result@;
                // push towards lower index in the row
                if self.player.get_bit(pos + 1) && places.get_bit(pos - 1) {
                    let mv = Move { from: pos as i16, to: (pos - 1) as i16, player: pos as i16 };
                    proof {
                        assert(mv.to as int - mv.from as int == -1);
                        assert(move_valid(*board, *self, mv));
                    }
                    push_move(&mut result, mv);
                }
                proof {
                    assert(result@ =~= r0 + seg_left(*board, *self, pos as int));
                }
                let ghost r1 = result@;
                // push towards higher index in the row
                if self.player.get_bit(pos - 1) && places.get_bit(pos + 1) {
                    let mv = Move { from: pos as i16, to: (pos + 1) as i16, player: pos as i16 };
                    proof {
                        assert(mv.to as int - mv.from as int == 1);
                        assert(move_valid(*board, *self, mv));
                    }
                    push_move(&mut result, mv);
                }
                proof {
                    assert(result@ =~= r1 + seg_right(*board, *self, pos as int));
                }
                let ghost r2 = result@;
                // push towards the previous row
                if self.player.get_bit(pos + x) && places.get_bit(pos - x) {
                    let mv = Move { from: pos as i16, to: (pos - x) as i16, player: pos as i16 };
                    proof {
                        assert(mv.to as int - mv.from as int == -xi);
                        assert(move_valid(*board, *self, mv));
                    }
                    push_move(&mut result, mv);
                }
                proof {
                    assert(result@ =~= r2 + seg_up(*board, *self, pos as int));
                }
                let ghost r3 = result@;
                // push towards the next row
                if self.player.get_bit(pos - x) && places.get_bit(pos + x) {
                    let mv = Move { from: pos as i16, to: (pos + x) as i16, player: pos as i16 };
                    proof {
                        assert(mv.to as int - mv.from as int == xi);
                        assert(move_valid(*board, *self, mv));
                    }
                    push_move(&mut result, mv);
                }
                proof {
                    assert(result@ =~= r3 + seg_down(*board, *self, pos as int));
                }
                proof {
                    assert forall|m: Move|
                        move_valid(*board, *self, m) && m.from as int
                        == pos as int implies #[trigger] result@.contains(m) by {
                        let d = m.to as int - m.from as int;
                        if d == -1 {
                            assert(m == (Move {
                                from: pos as i16,
                                to: (pos - 1) as i16,
                                player: pos as i16,
                            }));
                        } else if d == 1 {
                            assert(m == (Move {
                                from: pos as i16,
                                to: (pos + 1) as i16,
                                player: pos as i16,
                            }));
                        } else if d == -xi {
                            assert(m == (Move {
                                from: pos as i16,
                                to: (pos - x) as i16,
                                player: pos as i16,
                            }));
                        } else {
                            assert(d == xi);
                            assert(m == (Move {
                                from: pos as i16,
                                to: (pos + x) as i16,
                                player: pos as i16,
                            }));
                        }
                    }
                    assert(result@ =~= r0 + moves_at(*board, *self, pos as int));
                    assert(result@ =~= moves_upto(*board, *self, pos as int + 1));
                }
            } else {
                proof {
                    assert(moves_at(*board, *self, pos as int) =~= Seq::<Move>::empty());
                    assert(result@ =~= moves_upto(*board, *self, pos as int + 1));
                }
            }
            pos = pos + 1;
        }
        result
    }
}

/// Reachability is idempotent: flood filling a region that is already a
/// fixed point of dilate-then-mask gives the same region back.  This is the
/// case for the player region of any expanded position, so expanding twice
/// never changes it.
pub proof fn lemma_reachability_idempotent(
    board: Board,
    boxes: BitvImpl,
    r: BitvImpl,
    r2: BitvImpl,
)
    requires
        board.wf(),
        forall|j: int|
            0 <= j < 256 ==> #[trigger] r.bit(j) == (dilate_point(r, board.size.0 as int, j)
                && mask_bit(board, boxes, j)),
        is_expansion(board, boxes, r, r2),
    ensures
        r2 == r,
{
    let x = board.size.0 as int;
    assert(closed_region(board, boxes, r));
    assert(seeded_region(board, boxes, r, r));
    assert(subset_bits(r2, r));
    assert forall|j: int| 0 <= j < 256 implies #[trigger] r.bit(j) == r2.bit(j) by {
        if r.bit(j) {
            assert(dilate_point(r, x, j) && mask_bit(board, boxes, j));
            assert(seeded_region(board, boxes, r, r2));
        }
        if r2.bit(j) {
            assert(subset_bits(r2, r));
        }
    }
    lemma_bits_eq(r, r2);
}

/// The winning round trip: applying a move whose destination is the last
/// target still missing a box, while every other box already stands on one
/// of the other targets, produces exactly the target configuration, so the
/// resulting position wins.
pub proof fn lemma_win_roundtrip(board: Board, st: Position, m: Move, p: Position)
    requires
        board.wf(),
        move_valid(board, st, m),
        board.targets.bit(m.to as int),
        !board.targets.bit(m.from as int),
        forall|j: int|
            0 <= j < 256 && j != m.from as int && j != m.to as int ==> (#[trigger] st.boxes.bit(j)
                == board.targets.bit(j)),
        forall|j: int|
            0 <= j < 256 ==> #[trigger] p.boxes.bit(j) == ((st.boxes.bit(j) && j != m.from as int)
                || j == m.to as int),
    ensures
        p.boxes == board.targets,
{
    assert(m.to as int - m.from as int != 0);
    assert forall|j: int| 0 <= j < 256 implies #[trigger] p.boxes.bit(j) == board.targets.bit(
        j,
    ) by {}
    lemma_bits_eq(p.boxes, board.targets);
}

/// Appends one move; membership in the result is membership in the old
/// vector or equality with the new move.
fn push_move(result: &mut Vec<Move>, mv: Move)
    ensures
        forall|m: Move|
            #[trigger] final(result)@.contains(m) <==> (old(result)@.contains(m) || m == mv),
        final(result)@ == old(result)@.push(mv),
{
    result.push(mv);
    proof {
        assert forall|m: Move|
            #[trigger] result@.contains(m) <==> (old(result)@.contains(m) || m == mv) by {
            if result@.contains(m) {
                let i = choose|i: int| 0 <= i < result@.len() && result@[i] == m;
                if i < result@.len() - 1 {
                    assert(old(result)@[i] == m);
                    assert(old(result)@.contains(m));
                }
            }
            if old(result)@.contains(m) {
                let i = choose|i: int| 0 <= i < old(result)@.len() && old(result)@[i] == m;
                assert(result@[i] == m);
                assert(result@.contains(m));
            }
            if m == mv {
                assert(result@[result@.len() - 1] == m);
                assert(result@.contains(m));
            }
        }
    }
}

} // verus!
