//! Fixed-capacity bit regions over board cells.
//!
//! A region is a set of cell indices below 256, stored as four 64-bit words.
//! Every operation is specified pointwise through the `bit` spec function, so
//! the rest of the engine can reason about regions as plain sets of cells.

use vstd::prelude::*;

verus! {

/// Reads one bit of a word.
pub open spec fn word_bit(w: u64, b: u64) -> bool {
    (w >> b) & 1 == 1
}

/// The production bit-region representation: 256 bits in four words.
/// Word 0 holds cells 0..64, word 1 cells 64..128, and so on.
#[derive(Clone, Copy, PartialEq, Eq, Hash, Structural, Debug)]
pub struct BitvImpl {
    pub w0: u64,
    pub w1: u64,
    pub w2: u64,
    pub w3: u64,
}

/// True when `i` is a cell index the representation can hold and `src` has
/// that bit set; false for every index outside `[0, 256)`.
pub open spec fn bit_in(src: BitvImpl, i: int) -> bool {
    0 <= i < 256 && src.bit(i)
}

/// The naive definition of one-step dilation, read at one cell: the result
/// holds cell `j` exactly when the source holds `j` or one of its four
/// orthogonal neighbours on a board of width `x`.
pub open spec fn dilate_point(src: BitvImpl, x: int, j: int) -> bool {
    bit_in(src, j) || bit_in(src, j - 1) || bit_in(src, j + 1) || bit_in(src, j - x) || bit_in(
        src,
        j + x,
    )
}

/// The capability interface of a 256-cell bit region: point updates, bulk
/// boolean operations, the intersection test, and one-step dilation.
/// `BitvImpl` is its single production implementation.
pub trait Bitv: Sized {
    /// Whether cell `i` belongs to the region.
    spec fn bit(&self, i: int) -> bool;

    /// Inserts cell `i` into the region.
    fn set_bit(&mut self, i: usize)
        requires
            i < 256,
        ensures
            forall|j: int|
                0 <= j < 256 ==> (#[trigger] final(self).bit(j)) == (old(self).bit(j) || j
                    == i as int),
    ;

    /// Removes cell `i` from the region.
    fn unset_bit(&mut self, i: usize)
        requires
            i < 256,
        ensures
            forall|j: int|
                0 <= j < 256 ==> (#[trigger] final(self).bit(j)) == (old(self).bit(j) && j
                    != i as int),
    ;

    /// Tests cell `i`.
    fn get_bit(&self, i: usize) -> (r: bool)
        requires
            i < 256,
        ensures
            r == self.bit(i as int),
    ;

    /// True iff some cell lies in both regions.  Scans word by word and
    /// stops at the first overlapping word.
    fn intersect(&self, second: &Self) -> (r: bool)
        ensures
            r == exists|j: int| 0 <= j < 256 && self.bit(j) && second.bit(j),
    ;

    /// Unions `second` into the region.
    fn or(&mut self, second: &Self)
        ensures
            forall|j: int|
                0 <= j < 256 ==> (#[trigger] final(self).bit(j)) == (old(self).bit(j)
                    || second.bit(j)),
    ;

    /// Intersects the region with `second`.
    fn and(&mut self, second: &Self)
        ensures
            forall|j: int|
                0 <= j < 256 ==> (#[trigger] final(self).bit(j)) == (old(self).bit(j)
                    && second.bit(j)),
    ;

    /// Complements the region within the first `n` cells and clears every
    /// bit at index `n` or above: the capacity mask is re-applied, so
    /// trailing bits never corrupt equality or intersection tests.
    fn neg(&mut self, n: usize)
        requires
            n <= 256,
        ensures
            forall|j: int|
                0 <= j < 256 ==> (#[trigger] final(self).bit(j)) == (j < n as int && !old(
                    self,
                ).bit(j)),
    ;

    /// Overwrites the region with the one-step dilation of `from` on a board
    /// `x` cells wide: every cell of `from` plus its four orthogonal
    /// neighbours.  Shifts never wrap around the ends of the representation.
    fn expand_from(&mut self, from: &Self, x: usize)
        requires
            1 <= x < 64,
        ensures
            forall|j: int|
                0 <= j < 256 ==> (#[trigger] final(self).bit(j)) == (from.bit(j) || (j - 1 >= 0
                    && from.bit(j - 1)) || (j + 1 < 256 && from.bit(j + 1)) || (j - x >= 0
                    && from.bit(j - x)) || (j + x < 256 && from.bit(j + x))),
    ;
}

proof fn lemma_bv_set(w: u64, b: u64, c: u64)
    by (bit_vector)
    requires
        b < 64,
        c < 64,
    ensures
        word_bit(w | (1u64 << b), c) == (word_bit(w, c) || b == c),
{
}

proof fn lemma_bv_unset(w: u64, b: u64, c: u64)
    by (bit_vector)
    requires
        b < 64,
        c < 64,
    ensures
        word_bit(w & !(1u64 << b), c) == (word_bit(w, c) && b != c),
{
}

proof fn lemma_bv_or(x: u64, y: u64, c: u64)
    by (bit_vector)
    requires
        c < 64,
    ensures
        word_bit(x | y, c) == (word_bit(x, c) || word_bit(y, c)),
{
}

proof fn lemma_bv_and(x: u64, y: u64, c: u64)
    by (bit_vector)
    requires
        c < 64,
    ensures
        word_bit(x & y, c) == (word_bit(x, c) && word_bit(y, c)),
{
}

proof fn lemma_bv_andnot(w: u64, m: u64, c: u64)
    by (bit_vector)
    requires
        c < 64,
    ensures
        word_bit(!w & m, c) == (word_bit(m, c) && !word_bit(w, c)),
{
}

proof fn lemma_bv_xor(x: u64, y: u64, c: u64)
    by (bit_vector)
    requires
        c < 64,
    ensures
        word_bit(x ^ y, c) == (word_bit(x, c) != word_bit(y, c)),
{
}

proof fn lemma_bv_zero(c: u64)
    by (bit_vector)
    requires
        c < 64,
    ensures
        !word_bit(0u64, c),
{
}

/// A nonzero word has some set bit; found by walking down the shifted word.
proof fn lemma_word_witness(z: u64)
    requires
        z != 0,
    ensures
        exists|c: u64| c < 64 && word_bit(z, c),
    decreases z,
{
    if z & 1 == 1 {
        assert(word_bit(z, 0)) by (bit_vector)
            requires
                z & 1 == 1,
        ;
    } else {
        assert(z >> 1 != 0 && z >> 1 < z) by (bit_vector)
            requires
                z != 0 && z & 1 != 1,
        ;
        lemma_word_witness(z >> 1);
        let c = choose|c: u64| c < 64 && word_bit(z >> 1, c);
        assert(!word_bit(z >> 1, 63)) by (bit_vector);
        assert(word_bit(z, (c + 1) as u64)) by (bit_vector)
            requires
                c < 63 && word_bit(z >> 1, c),
        ;
    }
}

impl Bitv for BitvImpl {
    open spec fn bit(&self, i: int) -> bool {
        if 0 <= i < 64 {
            word_bit(self.w0, i as u64)
        } else if 64 <= i < 128 {
            word_bit(self.w1, (i - 64) as u64)
        } else if 128 <= i < 192 {
            word_bit(self.w2, (i - 128) as u64)
        } else if 192 <= i < 256 {
            word_bit(self.w3, (i - 192) as u64)
        } else {
            false
        }
    }

    fn set_bit(&mut self, i: usize) {
        if i < 64 {
            let b: u64 = i as u64;
            self.w0 = self.w0 | (1u64 << b);
            proof {
                assert forall|j: int|
                    0 <= j < 256 implies (#[trigger] self.bit(j)) == (old(self).bit(j) || j
                    == i as int) by {
                    if j < 64 {
                        lemma_bv_set(old(self).w0, b, j as u64);
                    }
                }
            }
        } else if i < 128 {
            let b: u64 = (i - 64) as u64;
            self.w1 = self.w1 | (1u64 << b);
            proof {
                assert forall|j: int|
                    0 <= j < 256 implies (#[trigger] self.bit(j)) == (old(self).bit(j) || j
                    == i as int) by {
                    if 64 <= j < 128 {
                        lemma_bv_set(old(self).w1, b, (j - 64) as u64);
                    }
                }
            }
        } else if i < 192 {
            let b: u64 = (i - 128) as u64;
            self.w2 = self.w2 | (1u64 << b);
            proof {
                assert forall|j: int|
                    0 <= j < 256 implies (#[trigger] self.bit(j)) == (old(self).bit(j) || j
                    == i as int) by {
                    if 128 <= j < 192 {
                        lemma_bv_set(old(self).w2, b, (j - 128) as u64);
                    }
                }
            }
        } else {
            let b: u64 = (i - 192) as u64;
            self.w3 = self.w3 | (1u64 << b);
            proof {
                assert forall|j: int|
                    0 <= j < 256 implies (#[trigger] self.bit(j)) == (old(self).bit(j) || j
                    == i as int) by {
                    if 192 <= j < 256 {
                        lemma_bv_set(old(self).w3, b, (j - 192) as u64);
                    }
                }
            }
        }
    }

    fn unset_bit(&mut self, i: usize) {
        if i < 64 {
            let b: u64 = i as u64;
            self.w0 = self.w0 & !(1u64 << b);
            proof {
                assert forall|j: int|
                    0 <= j < 256 implies (#[trigger] self.bit(j)) == (old(self).bit(j) && j
                    != i as int) by {
                    if j < 64 {
                        lemma_bv_unset(old(self).w0, b, j as u64);
                    }
                }
            }
        } else if i < 128 {
            let b: u64 = (i - 64) as u64;
            self.w1 = self.w1 & !(1u64 << b);
            proof {
                assert forall|j: int|
                    0 <= j < 256 implies (#[trigger] self.bit(j)) == (old(self).bit(j) && j
                    != i as int) by {
                    if 64 <= j < 128 {
                        lemma_bv_unset(old(self).w1, b, (j - 64) as u64);
                    }
                }
            }
        } else if i < 192 {
            let b: u64 = (i - 128) as u64;
            self.w2 = self.w2 & !(1u64 << b);
            proof {
                assert forall|j: int|
                    0 <= j < 256 implies (#[trigger] self.bit(j)) == (old(self).bit(j) && j
                    != i as int) by {
                    if 128 <= j < 192 {
                        lemma_bv_unset(old(self).w2, b, (j - 128) as u64);
                    }
                }
            }
        } else {
            let b: u64 = (i - 192) as u64;
            self.w3 = self.w3 & !(1u64 << b);
            proof {
                assert forall|j: int|
                    0 <= j < 256 implies (#[trigger] self.bit(j)) == (old(self).bit(j) && j
                    != i as int) by {
                    if 192 <= j < 256 {
                        lemma_bv_unset(old(self).w3, b, (j - 192) as u64);
                    }
                }
            }
        }
    }

    fn get_bit(&self, i: usize) -> (r: bool) {
        if i < 64 {
            (self.w0 >> (i as u64)) & 1 == 1
        } else if i < 128 {
            (self.w1 >> ((i - 64) as u64)) & 1 == 1
        } else if i < 192 {
            (self.w2 >> ((i - 128) as u64)) & 1 == 1
        } else {
            (self.w3 >> ((i - 192) as u64)) & 1 == 1
        }
    }

    fn intersect(&self, second: &Self) -> (r: bool) {
        if self.w0 & second.w0 != 0 {
            proof { lemma_word_overlap(*self, *second, 0); }
            return true;
        }
        if self.w1 & second.w1 != 0 {
            proof { lemma_word_overlap(*self, *second, 1); }
            return true;
        }
        if self.w2 & second.w2 != 0 {
            proof { lemma_word_overlap(*self, *second, 2); }
            return true;
        }
        if self.w3 & second.w3 != 0 {
            proof { lemma_word_overlap(*self, *second, 3); }
            return true;
        }
        proof {
            assert forall|j: int| 0 <= j < 256 implies !((#[trigger] self.bit(j))
                && second.bit(j)) by {
                if j < 64 {
                    lemma_bv_and(self.w0, second.w0, j as u64);
                    lemma_bv_zero(j as u64);
                } else if j < 128 {
                    lemma_bv_and(self.w1, second.w1, (j - 64) as u64);
                    lemma_bv_zero((j - 64) as u64);
                } else if j < 192 {
                    lemma_bv_and(self.w2, second.w2, (j - 128) as u64);
                    lemma_bv_zero((j - 128) as u64);
                } else {
                    lemma_bv_and(self.w3, second.w3, (j - 192) as u64);
                    lemma_bv_zero((j - 192) as u64);
                }
            }
        }
        false
    }

    fn or(&mut self, second: &Self) {
        self.w0 = self.w0 | second.w0;
        self.w1 = self.w1 | second.w1;
        self.w2 = self.w2 | second.w2;
        self.w3 = self.w3 | second.w3;
        proof {
            assert forall|j: int|
                0 <= j < 256 implies (#[trigger] self.bit(j)) == (old(self).bit(j)
                || second.bit(j)) by {
                if j < 64 {
                    lemma_bv_or(old(self).w0, second.w0, j as u64);
                } else if j < 128 {
                    lemma_bv_or(old(self).w1, second.w1, (j - 64) as u64);
                } else if j < 192 {
                    lemma_bv_or(old(self).w2, second.w2, (j - 128) as u64);
                } else {
                    lemma_bv_or(old(self).w3, second.w3, (j - 192) as u64);
                }
            }
        }
    }

    fn and(&mut self, second: &Self) {
        self.w0 = self.w0 & second.w0;
        self.w1 = self.w1 & second.w1;
        self.w2 = self.w2 & second.w2;
        self.w3 = self.w3 & second.w3;
        proof {
            assert forall|j: int|
                0 <= j < 256 implies (#[trigger] self.bit(j)) == (old(self).bit(j)
                && second.bit(j)) by {
                if j < 64 {
                    lemma_bv_and(old(self).w0, second.w0, j as u64);
                } else if j < 128 {
                    lemma_bv_and(old(self).w1, second.w1, (j - 64) as u64);
                } else if j < 192 {
                    lemma_bv_and(old(self).w2, second.w2, (j - 128) as u64);
                } else {
                    lemma_bv_and(old(self).w3, second.w3, (j - 192) as u64);
                }
            }
        }
    }

    fn expand_from(&mut self, from: &Self, x: usize) {
        let xb: u64 = x as u64;
        let r0 = dilate_word(0, from.w0, from.w1, xb);
        let r1 = dilate_word(from.w0, from.w1, from.w2, xb);
        let r2 = dilate_word(from.w1, from.w2, from.w3, xb);
        let r3 = dilate_word(from.w2, from.w3, 0, xb);
        self.w0 = r0;
        self.w1 = r1;
        self.w2 = r2;
        self.w3 = r3;
        proof {
            assert forall|c: u64| c < 64 implies !(#[trigger] word_bit(0u64, c)) by {
                lemma_bv_zero(c);
            }
            assert forall|j: int|
                0 <= j < 256 implies (#[trigger] self.bit(j)) == (from.bit(j) || (j - 1 >= 0
                && from.bit(j - 1)) || (j + 1 < 256 && from.bit(j + 1)) || (j - x >= 0 && from.bit(
                j - x,
            )) || (j + x < 256 && from.bit(j + x))) by {
                if j < 64 {
                    assert(word_bit(r0, j as u64) == dilate_word_bit(0, from.w0, from.w1, xb,
                        j as u64));
                } else if j < 128 {
                    assert(word_bit(r1, (j - 64) as u64) == dilate_word_bit(from.w0, from.w1,
                        from.w2, xb, (j - 64) as u64));
                } else if j < 192 {
                    assert(word_bit(r2, (j - 128) as u64) == dilate_word_bit(from.w1, from.w2,
                        from.w3, xb, (j - 128) as u64));
                } else {
                    assert(word_bit(r3, (j - 192) as u64) == dilate_word_bit(from.w2, from.w3, 0,
                        xb, (j - 192) as u64));
                }
            }
        }
    }

    fn neg(&mut self, n: usize) {
        let m0 = capacity_mask_word(n, 0);
        let m1 = capacity_mask_word(n, 64);
        let m2 = capacity_mask_word(n, 128);
        let m3 = capacity_mask_word(n, 192);
        self.w0 = !self.w0 & m0;
        self.w1 = !self.w1 & m1;
        self.w2 = !self.w2 & m2;
        self.w3 = !self.w3 & m3;
        proof {
            assert forall|j: int|
                0 <= j < 256 implies (#[trigger] self.bit(j)) == (j < n as int && !old(
                self,
            ).bit(j)) by {
                if j < 64 {
                    lemma_bv_andnot(old(self).w0, m0, j as u64);
                } else if j < 128 {
                    lemma_bv_andnot(old(self).w1, m1, (j - 64) as u64);
                } else if j < 192 {
                    lemma_bv_andnot(old(self).w2, m2, (j - 128) as u64);
                } else {
                    lemma_bv_andnot(old(self).w3, m3, (j - 192) as u64);
                }
            }
        }
    }
}

/// The value of one result bit of `dilate_word`: the middle word's bit, its
/// two horizontal neighbours and its two vertical neighbours on a board `x`
/// cells wide, each read from the middle word or carried in from the
/// neighbouring word when the neighbour index crosses a word boundary.
pub open spec fn dilate_word_bit(prev: u64, cur: u64, next: u64, x: u64, b: u64) -> bool {
    word_bit(cur, b) || (b < 63 && word_bit(cur, (b + 1) as u64)) || (b == 63 && word_bit(next, 0))
        || (b >= 1 && word_bit(cur, (b - 1) as u64)) || (b == 0 && word_bit(prev, 63)) || (b + x
        < 64 && word_bit(cur, (b + x) as u64)) || (b + x >= 64 && word_bit(
        next,
        (b + x - 64) as u64,
    )) || (b >= x && word_bit(cur, (b - x) as u64)) || (b < x && word_bit(
        prev,
        (b + 64 - x) as u64,
    ))
}

proof fn lemma_bv_dilate(prev: u64, cur: u64, next: u64, x: u64, b: u64)
    by (bit_vector)
    requires
        1 <= x < 64,
        b < 64,
    ensures
        word_bit(
            cur | (cur >> 1u64) | (next << 63u64) | (cur << 1u64) | (prev >> 63u64) | (cur >> x) | (
            next << ((64 - x) as u64)) | (cur << x) | (prev >> ((64 - x) as u64)),
            b,
        ) == dilate_word_bit(prev, cur, next, x, b),
{
}

/// One word of a dilation: combines the word with its shifted self and the
/// bits carried across the boundaries to the two neighbouring words.
fn dilate_word(prev: u64, cur: u64, next: u64, x: u64) -> (r: u64)
    requires
        1 <= x < 64,
    ensures
        forall|b: u64|
            b < 64 ==> #[trigger] word_bit(r, b) == dilate_word_bit(prev, cur, next, x, b),
{
    let y: u64 = 64 - x;
    let r = cur | (cur >> 1u64) | (next << 63u64) | (cur << 1u64) | (prev >> 63u64) | (cur >> x) | (
    next << y) | (cur << x) | (prev >> y);
    proof {
        assert forall|b: u64|
            b < 64 implies #[trigger] word_bit(r, b) == dilate_word_bit(prev, cur, next, x, b) by {
            lemma_bv_dilate(prev, cur, next, x, b);
        }
    }
    r
}

/// The number of cells below `n` that the region holds.
pub open spec fn cnt(v: BitvImpl, n: int) -> int
    decreases n,
{
    if n <= 0 {
        0
    } else {
        cnt(v, n - 1) + if v.bit(n - 1) {
            1int
        } else {
            0int
        }
    }
}

/// A prefix count never exceeds the prefix length and is never negative.
pub proof fn lemma_cnt_bounds(v: BitvImpl, n: int)
    requires
        0 <= n,
    ensures
        0 <= cnt(v, n) <= n,
    decreases n,
{
    if n > 0 {
        lemma_cnt_bounds(v, n - 1);
    }
}

/// Counting is monotone under region inclusion.
pub proof fn lemma_cnt_le(a: BitvImpl, b: BitvImpl, n: int)
    requires
        0 <= n <= 256,
        forall|j: int| 0 <= j < n ==> a.bit(j) ==> b.bit(j),
    ensures
        cnt(a, n) <= cnt(b, n),
    decreases n,
{
    if n > 0 {
        lemma_cnt_le(a, b, n - 1);
    }
}

/// A region with no cell below `n` counts zero there.
pub proof fn lemma_cnt_zero(v: BitvImpl, n: int)
    requires
        0 <= n,
        forall|j: int| 0 <= j < n ==> !(#[trigger] v.bit(j)),
    ensures
        cnt(v, n) == 0,
    decreases n,
{
    if n > 0 {
        lemma_cnt_zero(v, n - 1);
    }
}

/// Inserting a fresh cell raises the count by one.
pub proof fn lemma_cnt_set(pre: BitvImpl, post: BitvImpl, n: int)
    requires
        0 <= n < 256,
        !pre.bit(n),
        forall|j: int| 0 <= j < 256 ==> #[trigger] post.bit(j) == (pre.bit(j) || j == n),
    ensures
        cnt(post, 256) == cnt(pre, 256) + 1,
{
    lemma_cnt_set_rec(pre, post, n, 256);
}

proof fn lemma_cnt_set_rec(pre: BitvImpl, post: BitvImpl, n: int, m: int)
    requires
        0 <= n < 256,
        0 <= m <= 256,
        !pre.bit(n),
        forall|j: int| 0 <= j < 256 ==> #[trigger] post.bit(j) == (pre.bit(j) || j == n),
    ensures
        cnt(post, m) == cnt(pre, m) + if n < m {
            1int
        } else {
            0int
        },
    decreases m,
{
    if m > 0 {
        lemma_cnt_set_rec(pre, post, n, m - 1);
    }
}

/// A region strictly inside another has a strictly smaller count: `b` holds
/// every cell of `a` plus the witness cell `k`.
pub proof fn lemma_cnt_lt(a: BitvImpl, b: BitvImpl, n: int, k: int)
    requires
        0 <= n <= 256,
        forall|j: int| 0 <= j < n ==> a.bit(j) ==> b.bit(j),
        0 <= k < n,
        b.bit(k),
        !a.bit(k),
    ensures
        cnt(a, n) < cnt(b, n),
    decreases n,
{
    if k == n - 1 {
        lemma_cnt_le(a, b, n - 1);
    } else {
        lemma_cnt_lt(a, b, n - 1, k);
    }
}

/// One storage word of the capacity mask for cell count `n`, covering cells
/// `[lo, lo + 64)`: ones exactly at the cells below `n`.
fn capacity_mask_word(n: usize, lo: usize) -> (m: u64)
    requires
        n <= 256,
        lo < 256,
    ensures
        forall|c: u64| c < 64 ==> #[trigger] word_bit(m, c) == (lo + c < n),
{
    if n >= lo + 64 {
        proof {
            assert forall|c: u64| c < 64 implies #[trigger] word_bit(
                0xffff_ffff_ffff_ffffu64,
                c,
            ) by {
                assert(word_bit(0xffff_ffff_ffff_ffffu64, c)) by (bit_vector)
                    requires
                        c < 64,
                ;
            }
        }
        0xffff_ffff_ffff_ffff
    } else if n <= lo {
        proof {
            assert forall|c: u64| c < 64 implies !(#[trigger] word_bit(0u64, c)) by {
                lemma_bv_zero(c);
            }
        }
        0
    } else {
        let t: u64 = (n - lo) as u64;
        proof {
            assert(1u64 << t >= 1) by (bit_vector)
                requires
                    t < 64,
            ;
        }
        let m: u64 = (1u64 << t) - 1;
        proof {
            assert forall|c: u64| c < 64 implies #[trigger] word_bit(m, c) == (c < t) by {
                assert(word_bit(((1u64 << t) - 1) as u64, c) == (c < t)) by (bit_vector)
                    requires
                        1 <= t < 64 && c < 64,
                ;
            }
        }
        m
    }
}

/// The `w`-th storage word of a region.
pub open spec fn word_of(v: BitvImpl, w: int) -> u64 {
    if w == 0 {
        v.w0
    } else if w == 1 {
        v.w1
    } else if w == 2 {
        v.w2
    } else {
        v.w3
    }
}

proof fn lemma_word_overlap(a: BitvImpl, b: BitvImpl, w: int)
    requires
        0 <= w < 4,
        word_of(a, w) & word_of(b, w) != 0,
    ensures
        exists|j: int| 0 <= j < 256 && a.bit(j) && b.bit(j),
{
    lemma_word_witness(word_of(a, w) & word_of(b, w));
    let c = choose|c: u64| c < 64 && word_bit(word_of(a, w) & word_of(b, w), c);
    lemma_bv_and(word_of(a, w), word_of(b, w), c);
    let j = 64 * w + c;
    assert(a.bit(j) && b.bit(j));
}

/// Extensionality: two regions with the same bits are the same value.
pub proof fn lemma_bits_eq(a: BitvImpl, b: BitvImpl)
    requires
        forall|j: int| 0 <= j < 256 ==> a.bit(j) == b.bit(j),
    ensures
        a == b,
{
    assert forall|w: int| 0 <= w < 4 implies word_of(a, w) == word_of(b, w) by {
        if word_of(a, w) != word_of(b, w) {
            let x = word_of(a, w);
            let y = word_of(b, w);
            assert(x ^ y != 0) by (bit_vector)
                requires
                    x != y,
            ;
            lemma_word_witness(word_of(a, w) ^ word_of(b, w));
            let c = choose|c: u64| c < 64 && word_bit(word_of(a, w) ^ word_of(b, w), c);
            lemma_bv_xor(word_of(a, w), word_of(b, w), c);
            assert(a.bit(64 * w + c) == b.bit(64 * w + c));
            assert(false);
        }
    }
    assert(word_of(a, 0) == word_of(b, 0));
    assert(word_of(a, 1) == word_of(b, 1));
    assert(word_of(a, 2) == word_of(b, 2));
    assert(word_of(a, 3) == word_of(b, 3));
}

/// A region value, read as one integer below 2^256: its four words are the
/// digits in base 2^64.
pub open spec fn region_code(b: BitvImpl) -> int {
    ((b.w3 * 0x1_0000_0000_0000_0000int + b.w2) * 0x1_0000_0000_0000_0000int + b.w1)
        * 0x1_0000_0000_0000_0000int + b.w0
}

/// The number of distinct region values.
pub open spec fn region_universe() -> int {
    0x1_0000_0000_0000_0000_0000_0000_0000_0000_0000_0000_0000_0000_0000_0000_0000_0000int
}

proof fn lemma_qr_unique(q1: int, r1: int, q2: int, r2: int, p: int)
    by (nonlinear_arith)
    requires
        p >= 1,
        0 <= r1 < p,
        0 <= r2 < p,
        q1 * p + r1 == q2 * p + r2,
    ensures
        q1 == q2,
        r1 == r2,
{
}

proof fn lemma_region_code_injective(a: BitvImpl, b: BitvImpl)
    requires
        region_code(a) == region_code(b),
    ensures
        a == b,
{
    let p: int = 0x1_0000_0000_0000_0000int;
    lemma_qr_unique(
        (a.w3 * p + a.w2) * p + a.w1,
        a.w0 as int,
        (b.w3 * p + b.w2) * p + b.w1,
        b.w0 as int,
        p,
    );
    lemma_qr_unique(a.w3 * p + a.w2, a.w1 as int, b.w3 * p + b.w2, b.w1 as int, p);
    lemma_qr_unique(a.w3 as int, a.w2 as int, b.w3 as int, b.w2 as int, p);
}

proof fn lemma_region_code_bound(w0: u64, w1: u64, w2: u64, w3: u64)
    by (nonlinear_arith)
    ensures
        0 <= ((w3 * 0x1_0000_0000_0000_0000int + w2) * 0x1_0000_0000_0000_0000int + w1)
            * 0x1_0000_0000_0000_0000int + w0 < region_universe(),
{
}

/// No sequence of pairwise distinct regions is longer than the number of
/// distinct region values.
pub proof fn lemma_distinct_regions_bound(s: Seq<BitvImpl>)
    requires
        forall|k: int, l: int| 0 <= k < s.len() && 0 <= l < s.len() && k != l ==> s[k] != s[l],
    ensures
        s.len() <= region_universe(),
{
    let codes = Seq::new(s.len(), |i: int| region_code(s[i]));
    assert forall|k: int, l: int|
        0 <= k < codes.len() && 0 <= l < codes.len() && k != l implies codes[k] != codes[l] by {
        if region_code(s[k]) == region_code(s[l]) {
            lemma_region_code_injective(s[k], s[l]);
        }
    }
    assert(codes.no_duplicates());
    codes.unique_seq_to_set();
    let range = vstd::set_lib::set_int_range(0, region_universe());
    vstd::set_lib::lemma_int_range(0, region_universe());
    assert forall|e: int| codes.to_set().contains(e) implies range.contains(e) by {
        let i = choose|i: int| 0 <= i < codes.len() && codes[i] == e;
        let v = s[i];
        lemma_region_code_bound(v.w0, v.w1, v.w2, v.w3);
    }
    vstd::set_lib::lemma_len_subset(codes.to_set(), range);
}


/// The region holding the cells of `a` that are not in `b`.
pub open spec fn diff_region(a: BitvImpl, b: BitvImpl) -> BitvImpl {
    BitvImpl { w0: !b.w0 & a.w0, w1: !b.w1 & a.w1, w2: !b.w2 & a.w2, w3: !b.w3 & a.w3 }
}

pub proof fn lemma_diff_region_bits(a: BitvImpl, b: BitvImpl)
    ensures
        forall|j: int|
            0 <= j < 256 ==> (#[trigger] diff_region(a, b).bit(j)) == (a.bit(j) && !b.bit(j)),
{
    assert forall|j: int|
        0 <= j < 256 implies (#[trigger] diff_region(a, b).bit(j)) == (a.bit(j) && !b.bit(j)) by {
        if j < 64 {
            lemma_bv_andnot(b.w0, a.w0, j as u64);
        } else if j < 128 {
            lemma_bv_andnot(b.w1, a.w1, (j - 64) as u64);
        } else if j < 192 {
            lemma_bv_andnot(b.w2, a.w2, (j - 128) as u64);
        } else {
            lemma_bv_andnot(b.w3, a.w3, (j - 192) as u64);
        }
    }
}

/// Dilation of a one-cell region is exact: a region holding only cell `n`
/// dilates on a board `x` cells wide to exactly `n`, its two horizontal
/// neighbours and its two vertical neighbours, as far as the representation
/// holds them.
pub proof fn lemma_dilate_singleton(src: BitvImpl, r: BitvImpl, x: int, n: int)
    requires
        1 <= x < 64,
        0 <= n < 256,
        forall|j: int| 0 <= j < 256 ==> #[trigger] src.bit(j) == (j == n),
        forall|j: int| 0 <= j < 256 ==> #[trigger] r.bit(j) == dilate_point(src, x, j),
    ensures
        forall|j: int|
            0 <= j < 256 ==> #[trigger] r.bit(j) == (j == n || j == n - 1 || j == n + 1 || j == n
                - x || j == n + x),
{
}

impl BitvImpl {
    /// The empty region.
    pub fn new() -> (r: BitvImpl)
        ensures
            forall|j: int| 0 <= j < 256 ==> !r.bit(j),
    {
        let r = BitvImpl { w0: 0, w1: 0, w2: 0, w3: 0 };
        proof {
            assert forall|j: int| 0 <= j < 256 implies !(#[trigger] r.bit(j)) by {
                if j < 64 {
                    lemma_bv_zero(j as u64);
                } else if j < 128 {
                    lemma_bv_zero((j - 64) as u64);
                } else if j < 192 {
                    lemma_bv_zero((j - 128) as u64);
                } else {
                    lemma_bv_zero((j - 192) as u64);
                }
            }
        }
        r
    }
}

} // verus!

