//! The static part of a level: the four precomputed masks, the board size
//! and the player's starting cell.

use vstd::prelude::*;

use crate::bitv::{bit_in, Bitv, BitvImpl};
use crate::position::Position;

verus! {

/// The characters a level may hold: floor, wall, box, target, player,
/// box on target, player on target.
pub open spec fn is_level_char(ch: char) -> bool {
    ch == ' ' || ch == '#' || ch == '$' || ch == '.' || ch == '@' || ch == '*' || ch == '+'
}

/// The characters that stand on passable floor.
pub open spec fn is_floor_char(ch: char) -> bool {
    ch == ' ' || ch == '$' || ch == '.' || ch == '@' || ch == '*' || ch == '+'
}

/// The characters that carry a box.
pub open spec fn is_box_char(ch: char) -> bool {
    ch == '$' || ch == '*'
}

/// The characters that mark a target.
pub open spec fn is_target_char(ch: char) -> bool {
    ch == '.' || ch == '*' || ch == '+'
}

/// The characters that mark the player's starting cell.
pub open spec fn is_player_char(ch: char) -> bool {
    ch == '@' || ch == '+'
}

/// The rows of the level, as character sequences.
pub open spec fn rows_of(data: Seq<String>) -> Seq<Seq<char>> {
    data.map_values(|s: String| s@)
}

/// Some character of the level is outside the level alphabet.
pub open spec fn has_bad_char(rows: Seq<Seq<char>>) -> bool {
    exists|r: int, c: int|
        0 <= r < rows.len() && 0 <= c < rows[r].len() && !is_level_char(#[trigger] rows[r][c])
}

/// The column of the rightmost player character of a row, if any.
pub open spec fn player_in_row(row: Seq<char>) -> Option<int>
    decreases row.len(),
{
    if row.len() <= 0 {
        Option::None
    } else if is_player_char(row.last()) {
        Option::Some(row.len() - 1)
    } else {
        player_in_row(row.drop_last())
    }
}

/// The cell of the player character a scan ends on: the rightmost one of
/// the last row that has any, or cell 0 when the level names no player.
pub open spec fn player_start(rows: Seq<Seq<char>>, x: int) -> int
    decreases rows.len(),
{
    if rows.len() <= 0 {
        0
    } else {
        match player_in_row(rows.last()) {
            Option::Some(c) => (rows.len() - 1) * x + c,
            Option::None => player_start(rows.drop_last(), x),
        }
    }
}

/// The rule for cells a box may rest on: every target, and every floor cell
/// that has, on each axis, an open neighbour pair consistent with being
/// push-reachable.  A coarse dead-cell filter, sound but incomplete.
pub open spec fn place_bit(floor: BitvImpl, targets: BitvImpl, x: int, j: int) -> bool {
    targets.bit(j) || (floor.bit(j) && (bit_in(floor, j - 1) || bit_in(floor, j - x)) && (bit_in(
        floor,
        j + 1,
    ) || bit_in(floor, j - x)) && (bit_in(floor, j - 1) || bit_in(floor, j + x)) && (bit_in(
        floor,
        j + 1,
    ) || bit_in(floor, j + x)))
}

/// Whether scanning `rows` on a board `x` cells wide makes cell `j` floor:
/// its row and column carry a floor character.  Cells beyond a row's end
/// are walls.
pub open spec fn scan_floor(rows: Seq<Seq<char>>, x: int, j: int) -> bool {
    0 <= j / x < rows.len() && j % x < rows[j / x].len() && is_floor_char(rows[j / x][j % x])
}

/// Whether scanning `rows` puts a box on cell `j`.
pub open spec fn scan_boxes(rows: Seq<Seq<char>>, x: int, j: int) -> bool {
    0 <= j / x < rows.len() && j % x < rows[j / x].len() && is_box_char(rows[j / x][j % x])
}

/// Whether scanning `rows` makes cell `j` a target.
pub open spec fn scan_targets(rows: Seq<Seq<char>>, x: int, j: int) -> bool {
    0 <= j / x < rows.len() && j % x < rows[j / x].len() && is_target_char(rows[j / x][j % x])
}

/// The number of box characters in one row.
pub open spec fn count_boxes_row(row: Seq<char>) -> int
    decreases row.len(),
{
    if row.len() <= 0 {
        0
    } else {
        count_boxes_row(row.drop_last()) + if is_box_char(row.last()) {
            1int
        } else {
            0int
        }
    }
}

/// The number of target characters in one row.
pub open spec fn count_targets_row(row: Seq<char>) -> int
    decreases row.len(),
{
    if row.len() <= 0 {
        0
    } else {
        count_targets_row(row.drop_last()) + if is_target_char(row.last()) {
            1int
        } else {
            0int
        }
    }
}

/// The number of box characters in the whole level.
pub open spec fn count_boxes(rows: Seq<Seq<char>>) -> int
    decreases rows.len(),
{
    if rows.len() <= 0 {
        0
    } else {
        count_boxes(rows.drop_last()) + count_boxes_row(rows.last())
    }
}

/// The number of target characters in the whole level.
pub open spec fn count_targets(rows: Seq<Seq<char>>) -> int
    decreases rows.len(),
{
    if rows.len() <= 0 {
        0
    } else {
        count_targets(rows.drop_last()) + count_targets_row(rows.last())
    }
}

proof fn lemma_rc(x: int, r: int, c: int)
    by (nonlinear_arith)
    requires
        x >= 1,
        r >= 0,
        0 <= c < x,
    ensures
        (r * x + c) / x == r,
        (r * x + c) % x == c,
        r * x + c >= 0,
{
}

proof fn lemma_decompose(x: int, j: int)
    by (nonlinear_arith)
    requires
        x >= 1,
        0 <= j,
    ensures
        j == (j / x) * x + (j % x),
        0 <= j % x < x,
        0 <= j / x,
{
}

proof fn lemma_div_ge(x: int, y: int, j: int)
    by (nonlinear_arith)
    requires
        x >= 1,
        0 <= y,
        j >= x * y,
    ensures
        j / x >= y,
{
}

proof fn lemma_lt_cells(x: int, y: int, r: int, c: int)
    by (nonlinear_arith)
    requires
        x >= 1,
        0 <= r < y,
        0 <= c < x,
    ensures
        0 <= r * x + c < x * y,
{
}

/// How one scanned character extends the three masks: the new cell, and
/// nothing else.
proof fn lemma_scan_push(base: Seq<Seq<char>>, partial: Seq<char>, ch: char, x: int)
    requires
        x >= 1,
        partial.len() < x,
    ensures
        forall|j: int|
            0 <= j < 256 ==> #[trigger] scan_floor(base.push(partial.push(ch)), x, j) == (
            scan_floor(base.push(partial), x, j) || (j == base.len() * x + partial.len()
                && is_floor_char(ch))),
        forall|j: int|
            0 <= j < 256 ==> #[trigger] scan_boxes(base.push(partial.push(ch)), x, j) == (
            scan_boxes(base.push(partial), x, j) || (j == base.len() * x + partial.len()
                && is_box_char(ch))),
        forall|j: int|
            0 <= j < 256 ==> #[trigger] scan_targets(base.push(partial.push(ch)), x, j) == (
            scan_targets(base.push(partial), x, j) || (j == base.len() * x + partial.len()
                && is_target_char(ch))),
{
    assert forall|j: int| 0 <= j < 256 implies #[trigger] scan_floor(
        base.push(partial.push(ch)),
        x,
        j,
    ) == (scan_floor(base.push(partial), x, j) || (j == base.len() * x + partial.len()
        && is_floor_char(ch))) by {
        lemma_scan_push_at(base, partial, ch, x, j);
    }
    assert forall|j: int| 0 <= j < 256 implies #[trigger] scan_boxes(
        base.push(partial.push(ch)),
        x,
        j,
    ) == (scan_boxes(base.push(partial), x, j) || (j == base.len() * x + partial.len()
        && is_box_char(ch))) by {
        lemma_scan_push_at(base, partial, ch, x, j);
    }
    assert forall|j: int| 0 <= j < 256 implies #[trigger] scan_targets(
        base.push(partial.push(ch)),
        x,
        j,
    ) == (scan_targets(base.push(partial), x, j) || (j == base.len() * x + partial.len()
        && is_target_char(ch))) by {
        lemma_scan_push_at(base, partial, ch, x, j);
    }
}

proof fn lemma_scan_push_at(base: Seq<Seq<char>>, partial: Seq<char>, ch: char, x: int, j: int)
    requires
        x >= 1,
        partial.len() < x,
        0 <= j < 256,
    ensures
        scan_floor(base.push(partial.push(ch)), x, j) == (scan_floor(base.push(partial), x, j) || (
        j == base.len() * x + partial.len() && is_floor_char(ch))),
        scan_boxes(base.push(partial.push(ch)), x, j) == (scan_boxes(base.push(partial), x, j) || (
        j == base.len() * x + partial.len() && is_box_char(ch))),
        scan_targets(base.push(partial.push(ch)), x, j) == (scan_targets(base.push(partial), x, j)
            || (j == base.len() * x + partial.len() && is_target_char(ch))),
{
    let r = base.len() as int;
    let c = partial.len() as int;
    let n = r * x + c;
    lemma_rc(x, r, c);
    lemma_decompose(x, j);
    let rr = j / x;
    let cc = j % x;
    if rr == r && cc == c {
        assert(j == n);
    } else {
        assert(j != n);
    }
}

/// Collects the characters of a string.
fn row_chars(s: &str) -> (r: Vec<char>)
    ensures
        r@ == s@,
{
    let mut r: Vec<char> = Vec::new();
    for c in it: s.chars()
        invariant
            it.seq() == s@,
            r@ == it.seq().take(it.index() as int),
    {
        r.push(c);
    }
    proof {
        assert(r@ =~= s@);
    }
    r
}

/// A level that failed to build.
#[derive(PartialEq, Eq, Clone, Copy, Debug, Structural)]
pub enum BuildError {
    /// The level text holds a character outside the level alphabet; the
    /// first such character is reported.
    MalformedLevel(char),
    /// The level has more targets than boxes, so it can never be won.
    ImpossibleLevel,
}

/// The immutable data of a level.
#[derive(Debug)]
pub struct Board {
    /// Passable tiles.
    pub floor: BitvImpl,
    /// Possible box positions.
    pub places: BitvImpl,
    /// Target tiles.
    pub targets: BitvImpl,
    /// Initial boxes position.
    pub boxes: BitvImpl,
    /// Size of the board, width then height.
    pub size: (u8, u8),
    /// Initial player position.
    pub player: usize,
}

impl Board {
    /// The number of cells.
    pub open spec fn cells(self) -> int {
        self.size.0 as int * self.size.1 as int
    }

    /// Every structural fact the search relies on: the size fits the region
    /// capacity and the dilation's shift width, the masks hold no bit at or
    /// beyond the cell count, targets and boxes stand on floor, targets are
    /// always legal resting places, and there are at least as many boxes as
    /// targets.
    pub open spec fn wf(self) -> bool {
        &&& 1 <= self.size.0 < 64
        &&& 1 <= self.size.1
        &&& self.cells() <= 256
        &&& self.player < self.cells()
        &&& forall|j: int| self.cells() <= j < 256 ==> !(#[trigger] self.floor.bit(j))
        &&& forall|j: int| 0 <= j < 256 && #[trigger] self.targets.bit(j) ==> self.floor.bit(j)
        &&& forall|j: int| 0 <= j < 256 && #[trigger] self.boxes.bit(j) ==> self.floor.bit(j)
        &&& forall|j: int| 0 <= j < 256 && #[trigger] self.places.bit(j) ==> self.floor.bit(j)
        &&& forall|j: int| 0 <= j < 256 && #[trigger] self.targets.bit(j) ==> self.places.bit(j)
        &&& crate::bitv::cnt(self.boxes, 256) >= crate::bitv::cnt(self.targets, 256)
    }

    /// Builds a board from level text: one string per row, scanned cell by
    /// cell into the floor, target and box masks.  Rows shorter than the
    /// width are walls in the remainder.  Fails on a character outside the
    /// level alphabet, and on a level with more targets than boxes; the
    /// size must fit the region capacity and the dilation's shift width.
    #[verifier::loop_isolation(false)]
    pub fn new(size: (u8, u8), data: Vec<String>) -> (res: Result<Board, BuildError>)
        requires
            1 <= size.0 < 64,
            1 <= size.1,
            size.0 as int * size.1 as int <= 256,
            data@.len() == size.1 as int,
            forall|r: int| 0 <= r < data@.len() ==> (#[trigger] data@[r]@.len()) <= size.0 as int,
        ensures
            res is Ok <==> (!has_bad_char(rows_of(data@)) && count_boxes(rows_of(data@))
                >= count_targets(rows_of(data@))),
            (res matches Err(BuildError::ImpossibleLevel)) <==> (!has_bad_char(rows_of(data@))
                && count_boxes(rows_of(data@)) < count_targets(rows_of(data@))),
            (res matches Err(BuildError::MalformedLevel(c)) ==> !is_level_char(c) && (exists|
                r: int,
                cc: int,
            |
                0 <= r < rows_of(data@).len() && 0 <= cc < rows_of(data@)[r].len() && #[trigger] rows_of(
                    data@,
                )[r][cc] == c)),
            res matches Ok(b) ==> {
                &&& b.wf()
                &&& b.size == size
                &&& b.player as int == player_start(rows_of(data@), size.0 as int)
                &&& forall|j: int|
                    0 <= j < 256 ==> #[trigger] b.floor.bit(j) == scan_floor(
                        rows_of(data@),
                        size.0 as int,
                        j,
                    )
                &&& forall|j: int|
                    0 <= j < 256 ==> #[trigger] b.boxes.bit(j) == scan_boxes(
                        rows_of(data@),
                        size.0 as int,
                        j,
                    )
                &&& forall|j: int|
                    0 <= j < 256 ==> #[trigger] b.targets.bit(j) == scan_targets(
                        rows_of(data@),
                        size.0 as int,
                        j,
                    )
                &&& forall|j: int|
                    0 <= j < 256 ==> #[trigger] b.places.bit(j) == place_bit(
                        b.floor,
                        b.targets,
                        size.0 as int,
                        j,
                    )
            },
    {
        let x = size.0 as usize;
        let y = size.1 as usize;
        let ghost rows = rows_of(data@);
        let ghost xi = x as int;
        let ghost yi = y as int;
        proof {
            assert(rows.len() == yi);
            assert(xi * yi >= 1) by (nonlinear_arith)
                requires
                    xi >= 1 && yi >= 1,
            ;
        }

        let mut player: usize = 0;
        let mut nbr_box: usize = 0;
        let mut nbr_target: usize = 0;

        let mut floor = BitvImpl::new();
        let mut targets = BitvImpl::new();
        let mut boxes = BitvImpl::new();

        let mut r: usize = 0;
        proof {
            assert(rows.take(0) =~= Seq::<Seq<char>>::empty());
            crate::bitv::lemma_cnt_zero(boxes, 256);
            crate::bitv::lemma_cnt_zero(targets, 256);
        }
        while r < y
            invariant
                r <= y,
                forall|j: int|
                    0 <= j < 256 ==> #[trigger] floor.bit(j) == scan_floor(
                        rows.take(r as int),
                        xi,
                        j,
                    ),
                forall|j: int|
                    0 <= j < 256 ==> #[trigger] boxes.bit(j) == scan_boxes(
                        rows.take(r as int),
                        xi,
                        j,
                    ),
                forall|j: int|
                    0 <= j < 256 ==> #[trigger] targets.bit(j) == scan_targets(
                        rows.take(r as int),
                        xi,
                        j,
                    ),
                nbr_box as int == count_boxes(rows.take(r as int)),
                nbr_target as int == count_targets(rows.take(r as int)),
                nbr_box as int == crate::bitv::cnt(boxes, 256),
                nbr_target as int == crate::bitv::cnt(targets, 256),
                player as int == player_start(rows.take(r as int), xi),
                (player as int) < xi * yi,
                !has_bad_char(rows.take(r as int)),
            decreases y - r,
        {
            let row = row_chars(data[r].as_str());
            let ghost base = rows.take(r as int);
            proof {
                assert(row@ == rows[r as int]);
                assert(row@.take(0) =~= Seq::<char>::empty());
                assert(base.push(row@.take(0)).drop_last() =~= base);
                assert forall|j: int|
                    0 <= j < 256 implies #[trigger] scan_floor(base.push(row@.take(0)), xi, j)
                    == scan_floor(base, xi, j) && #[trigger] scan_boxes(
                    base.push(row@.take(0)),
                    xi,
                    j,
                ) == scan_boxes(base, xi, j) && #[trigger] scan_targets(
                    base.push(row@.take(0)),
                    xi,
                    j,
                ) == scan_targets(base, xi, j) by {
                    lemma_decompose(xi, j);
                }
                assert(!has_bad_char(base.push(row@.take(0)))) by {
                    if has_bad_char(base.push(row@.take(0))) {
                        let (rr, cc) = choose|rr: int, cc: int|
                            0 <= rr < base.push(row@.take(0)).len() && 0 <= cc < base.push(
                                row@.take(0),
                            )[rr].len() && !is_level_char(
                                #[trigger] base.push(row@.take(0))[rr][cc],
                            );
                        assert(base[rr][cc] == base.push(row@.take(0))[rr][cc]);
                        assert(has_bad_char(base));
                        assert(false);
                    }
                }
            }
            let mut c: usize = 0;
            while c < row.len()
                invariant
                    c <= row.len(),
                    row@ == rows[r as int],
                    r < y,
                    base == rows.take(r as int),
                    forall|j: int|
                        0 <= j < 256 ==> #[trigger] floor.bit(j) == scan_floor(
                            base.push(row@.take(c as int)),
                            xi,
                            j,
                        ),
                    forall|j: int|
                        0 <= j < 256 ==> #[trigger] boxes.bit(j) == scan_boxes(
                            base.push(row@.take(c as int)),
                            xi,
                            j,
                        ),
                    forall|j: int|
                        0 <= j < 256 ==> #[trigger] targets.bit(j) == scan_targets(
                            base.push(row@.take(c as int)),
                            xi,
                            j,
                        ),
                    nbr_box as int == count_boxes(base) + count_boxes_row(row@.take(c as int)),
                    nbr_target as int == count_targets(base) + count_targets_row(
                        row@.take(c as int),
                    ),
                    nbr_box as int == crate::bitv::cnt(boxes, 256),
                    nbr_target as int == crate::bitv::cnt(targets, 256),
                    player as int == player_start(base.push(row@.take(c as int)), xi),
                    (player as int) < xi * yi,
                    !has_bad_char(base.push(row@.take(c as int))),
                decreases row.len() - c,
            {
                let ch = row[c];
                let ghost partial = row@.take(c as int);
                let ghost scanned = base.push(partial);
                proof {
                    lemma_rc(xi, r as int, c as int);
                    lemma_lt_cells(xi, yi, r as int, c as int);
                    lemma_scan_push(base, partial, ch, xi);
                    assert(partial.push(ch) =~= row@.take(c as int + 1));
                    assert(partial.push(ch).drop_last() =~= partial);
                    assert(partial.push(ch).last() == ch);
                    assert(scanned[r as int] == partial);
                    assert(base.push(partial.push(ch)).drop_last() =~= base);
                    assert(base.push(partial).drop_last() =~= base);
                    assert(base.push(partial.push(ch)).last() == partial.push(ch));
                    assert(base.push(partial).last() == partial);
                }
                let n = r * x + c;
                if ch == ' ' {
                    floor.set_bit(n);
                } else if ch == '#' {
                } else if ch == '$' {
                    let ghost boxes_pre = boxes;
                    proof {
                        assert(!boxes.bit(n as int));
                    }
                    boxes.set_bit(n);
                    floor.set_bit(n);
                    proof {
                        crate::bitv::lemma_cnt_bounds(boxes_pre, 256);
                        crate::bitv::lemma_cnt_set(boxes_pre, boxes, n as int);
                    }
                    nbr_box = nbr_box + 1;
                } else if ch == '.' {
                    let ghost targets_pre = targets;
                    proof {
                        assert(!targets.bit(n as int));
                    }
                    targets.set_bit(n);
                    floor.set_bit(n);
                    proof {
                        crate::bitv::lemma_cnt_bounds(targets_pre, 256);
                        crate::bitv::lemma_cnt_set(targets_pre, targets, n as int);
                    }
                    nbr_target = nbr_target + 1;
                } else if ch == '@' {
                    floor.set_bit(n);
                    player = n;
                } else if ch == '*' {
                    let ghost boxes_pre = boxes;
                    let ghost targets_pre = targets;
                    proof {
                        assert(!boxes.bit(n as int));
                        assert(!targets.bit(n as int));
                    }
                    floor.set_bit(n);
                    boxes.set_bit(n);
                    targets.set_bit(n);
                    proof {
                        crate::bitv::lemma_cnt_bounds(boxes_pre, 256);
                        crate::bitv::lemma_cnt_bounds(targets_pre, 256);
                        crate::bitv::lemma_cnt_set(boxes_pre, boxes, n as int);
                        crate::bitv::lemma_cnt_set(targets_pre, targets, n as int);
                    }
                    nbr_target = nbr_target + 1;
                    nbr_box = nbr_box + 1;
                } else if ch == '+' {
                    let ghost targets_pre = targets;
                    proof {
                        assert(!targets.bit(n as int));
                    }
                    floor.set_bit(n);
                    targets.set_bit(n);
                    player = n;
                    proof {
                        crate::bitv::lemma_cnt_bounds(targets_pre, 256);
                        crate::bitv::lemma_cnt_set(targets_pre, targets, n as int);
                    }
                    nbr_target = nbr_target + 1;
                } else {
                    proof {
                        assert(rows[r as int][c as int] == ch);
                        assert(has_bad_char(rows));
                        assert(rows.take(yi) =~= rows);
                    }
                    return Err(BuildError::MalformedLevel(ch));
                }
                c = c + 1;
                proof {
                    crate::bitv::lemma_cnt_bounds(boxes, 256);
                    crate::bitv::lemma_cnt_bounds(targets, 256);
                    assert(!has_bad_char(base.push(row@.take(c as int)))) by {
                        if has_bad_char(base.push(row@.take(c as int))) {
                            let (rr, cc) = choose|rr: int, cc: int|
                                0 <= rr < base.push(row@.take(c as int)).len() && 0 <= cc
                                    < base.push(row@.take(c as int))[rr].len() && !is_level_char(
                                    #[trigger] base.push(row@.take(c as int))[rr][cc],
                                );
                            if rr < base.len() {
                                assert(base[rr][cc] == base.push(row@.take(c as int))[rr][cc]);
                                assert(has_bad_char(base));
                            } else {
                                assert(base.push(row@.take(c as int))[rr] == row@.take(c as int));
                                if cc < c - 1 {
                                    assert(scanned[rr][cc] == row@.take(c as int)[rr - rr + cc]);
                                    assert(has_bad_char(scanned));
                                } else {
                                    assert(row@.take(c as int)[cc] == ch);
                                }
                            }
                            assert(false);
                        }
                    }
                }
            }
            proof {
                assert(row@.take(row@.len() as int) =~= row@);
                assert(base.push(row@) =~= rows.take(r as int + 1));
                assert(rows.take(r as int + 1).drop_last() =~= base);
                assert(rows.take(r as int + 1).last() == row@);
            }
            r = r + 1;
        }
        proof {
            assert(rows.take(yi) =~= rows);
        }

        if nbr_box < nbr_target {
            return Err(BuildError::ImpossibleLevel);
        }
        let mut places = BitvImpl::new();
        let mut jj: usize = 0;
        while jj < 256
            invariant
                jj <= 256,
                forall|j: int|
                    0 <= j < jj as int ==> #[trigger] places.bit(j) == place_bit(
                        floor,
                        targets,
                        xi,
                        j,
                    ),
                forall|j: int| jj as int <= j < 256 ==> !(#[trigger] places.bit(j)),
            decreases 256 - jj,
        {
            let t = targets.get_bit(jj);
            let f = floor.get_bit(jj);
            let left = jj >= 1 && floor.get_bit(jj - 1);
            let right = jj + 1 < 256 && floor.get_bit(jj + 1);
            let up = jj >= x && floor.get_bit(jj - x);
            let down = jj + x < 256 && floor.get_bit(jj + x);
            if t || (f && (left || up) && (right || up) && (left || down) && (right || down)) {
                places.set_bit(jj);
            }
            jj = jj + 1;
        }

        let b = Board { floor, places, targets, boxes, size, player };
        proof {
            assert forall|j: int| b.cells() <= j < 256 implies !(#[trigger] b.floor.bit(j)) by {
                lemma_div_ge(xi, yi, j);
            }
            assert(b.wf());
        }
        Ok(b)
    }

    /// The position the search starts from: the level's boxes, and the
    /// player region holding just the starting cell.  Needs to be expanded.
    pub fn initial_position(&self) -> (p: Position)
        requires
            self.wf(),
        ensures
            p.boxes == self.boxes,
            forall|j: int| 0 <= j < 256 ==> #[trigger] p.player.bit(j) == (j == self.player as int),
    {
        let mut player_positions = BitvImpl::new();
        player_positions.set_bit(self.player);

        Position { boxes: self.boxes, player: player_positions }
    }
}

} // verus!
