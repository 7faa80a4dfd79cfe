//! Blocks for a stepped pyramid whose layer `k` (from the top, counting from
//! zero) is `2k + 1` blocks wide.

use vstd::prelude::*;
use crate::bisect::{binary_search, decides, is_boundary, monotone_on};

verus! {

/// `s` is the integer square root of `n`.
pub open spec fn is_isqrt(n: int, s: int) -> bool {
    0 <= s && s * s <= n < (s + 1) * (s + 1)
}

/// The largest root whose square a `u64` probe may test against an `i64`.
pub const ROOT_LIMIT: u64 = 3037000500;

/// Blocks for a finished pyramid of `layers + 1` layers.
pub fn blocks_for_pyramid_with_layers(layers: i64) -> (r: i64)
    requires
        (layers + 1) * (layers + 1) <= i64::MAX,
    ensures
        r == (layers + 1) * (layers + 1),
{
    assert(-3037000500 < layers + 1 < 3037000500) by (nonlinear_arith)
        requires
            (layers + 1) * (layers + 1) <= i64::MAX,
    ;
    let x = layers + 1;
    assert(0 <= x * x <= i64::MAX) by (nonlinear_arith)
        requires
            x == layers + 1,
            (layers + 1) * (layers + 1) <= i64::MAX,
    ;
    x * x
}

/// One less than the number of layers `blocks` can finish: the integer
/// square root of `blocks`, minus one.
pub fn max_completed_pyramid_layers(blocks: i64) -> (r: i64)
    requires
        blocks >= 0,
    ensures
        is_isqrt(blocks as int, r + 1),
{
    let fits = |s: u64| -> (b: bool)
        ensures
            b == (s * s <= blocks),
        {
            if s < ROOT_LIMIT {
                assert(s * s < 0x8000_0000_0000_0000) by (nonlinear_arith)
                    requires
                        s < 3037000500,
                ;
                s * s <= blocks as u64
            } else {
                assert(s * s > i64::MAX) by (nonlinear_arith)
                    requires
                        s >= 3037000500,
                ;
                false
            }
        };
    let ghost p = |s: u64| s * s <= blocks;
    proof {
        assert(decides(fits, p));
        assert forall|a: u64, b: u64| 0 <= a <= b < ROOT_LIMIT && #[trigger] p(b) implies #[trigger] p(
            a,
        ) by {
            assert(a * a <= b * b) by (nonlinear_arith)
                requires
                    0 <= a <= b,
            ;
        }
        assert(monotone_on(p, 0, ROOT_LIMIT as int));
    }
    let first_too_big = binary_search(0, ROOT_LIMIT, fits);
    proof {
        assert(is_boundary(p, 0, ROOT_LIMIT as int, first_too_big as int));
        assert(p(0));
        if first_too_big < ROOT_LIMIT {
            assert(!p(first_too_big));
        } else {
            assert(ROOT_LIMIT * ROOT_LIMIT > i64::MAX);
        }
        assert(p((first_too_big - 1) as u64));
    }
    first_too_big as i64 - 2
}

/// Blocks still missing for the next finished layer of a pyramid built from
/// `blocks`, times the width of the pyramid's base once the blocks in hand
/// are laid.
pub open spec fn shortfall(blocks: int) -> int {
    let s = choose|s: int| is_isqrt(blocks, s);
    if blocks == s * s {
        0
    } else {
        ((s + 1) * (s + 1) - blocks) * (2 * s - 1 + if blocks - s * s < 2 {
            blocks - s * s
        } else {
            2
        })
    }
}

proof fn lemma_isqrt_unique(n: int, s: int, t: int)
    requires
        is_isqrt(n, s),
        is_isqrt(n, t),
    ensures
        s == t,
{
    if s < t {
        assert((s + 1) * (s + 1) <= t * t) by (nonlinear_arith)
            requires
                0 <= s < t,
        ;
    } else if t < s {
        assert((t + 1) * (t + 1) <= s * s) by (nonlinear_arith)
            requires
                0 <= t < s,
        ;
    }
}

/// Blocks missing for the next layer times the base width, for a pyramid
/// built from `blocks`.
pub fn part1(blocks: i64) -> (r: i64)
    requires
        0 <= blocks < (ROOT_LIMIT - 1) * (ROOT_LIMIT - 1),
        shortfall(blocks as int) <= i64::MAX,
    ensures
        r == shortfall(blocks as int),
{
    let layers = max_completed_pyramid_layers(blocks);
    let ghost s = (layers + 1) as int;
    proof {
        let t = choose|t: int| is_isqrt(blocks as int, t);
        lemma_isqrt_unique(blocks as int, s, t);
        assert(s < ROOT_LIMIT - 1) by (nonlinear_arith)
            requires
                s * s <= blocks,
                blocks < (ROOT_LIMIT - 1) * (ROOT_LIMIT - 1),
                0 <= s,
        ;
        assert((s + 1) * (s + 1) <= i64::MAX) by (nonlinear_arith)
            requires
                0 <= s < 3037000499,
        ;
    }
    let current_layer_blocks = blocks_for_pyramid_with_layers(layers);
    if blocks == current_layer_blocks {
        0
    } else {
        let blocks_needed = blocks_for_pyramid_with_layers(layers + 1) - blocks;
        let extra: i64 = if blocks - current_layer_blocks < 2 {
            blocks - current_layer_blocks
        } else {
            2
        };
        let base_width = 2 * layers + 1 + extra;
        proof {
            assert(0 <= blocks_needed);
            assert(0 <= base_width);
            assert(blocks_needed * base_width == shortfall(blocks as int));
        }
        blocks_needed * base_width
    }
}


/// Thickness of layer `k` (from the top) of a hollow pyramid built by
/// `priests` priests and `acolytes` acolytes.
pub open spec fn layer_thickness(priests: int, acolytes: int, k: nat) -> int
    decreases k,
{
    if k == 0 {
        1
    } else {
        (layer_thickness(priests, acolytes, (k - 1) as nat) * priests) % acolytes + acolytes
    }
}

/// Width of a pyramid of `n` layers.
pub open spec fn width_of(n: nat) -> int {
    if n == 0 {
        0
    } else {
        2 * n - 1
    }
}

/// Blocks of the first `n` layers laid solid: layer `k` spans the whole
/// width the pyramid had when it was laid.
pub open spec fn solid_blocks_of(priests: int, acolytes: int, n: nat) -> int
    decreases n,
{
    if n == 0 {
        0
    } else {
        solid_blocks_of(priests, acolytes, (n - 1) as nat) + width_of(n) * layer_thickness(
            priests,
            acolytes,
            (n - 1) as nat,
        )
    }
}

/// Height of column `i` (from the centre) of a pyramid with layer
/// thicknesses `t`: the layers `i..` all reach it.
pub open spec fn height_of_column(t: Seq<i64>, i: int) -> int
    decreases t.len() - i,
{
    if i >= t.len() || i < 0 {
        0
    } else {
        t[i] + height_of_column(t, i + 1)
    }
}

/// Blocks removed from column `i`: what the priests ask for, but never the
/// blocks that must stay (the whole outermost column, and the top layer plus
/// one block of every other column).
pub open spec fn removed_from_column(t: Seq<i64>, priests: int, acolytes: int, i: int) -> int {
    let h = height_of_column(t, i);
    let keep = if i == t.len() - 1 {
        h
    } else {
        t[i] + 1
    };
    let asked = (width_of(t.len()) * priests * h) % acolytes;
    if h - keep < asked {
        h - keep
    } else {
        asked
    }
}

/// Blocks removed from columns `i..` on both sides of the centre (the
/// central column `0` counts once).
pub open spec fn removed_from(t: Seq<i64>, priests: int, acolytes: int, i: int) -> int
    decreases t.len() - i,
{
    if i >= t.len() || i < 0 {
        0
    } else {
        (if i == 0 {
            1int
        } else {
            2int
        }) * removed_from_column(t, priests, acolytes, i) + removed_from(t, priests, acolytes, i + 1)
    }
}


/// The thickness of layer `k` of a pyramid whose layers thicken by the
/// factor `multiplier` modulo `1111`, starting at `1`.
pub open spec fn shrine_thickness(multiplier: int, k: nat) -> int
    decreases k,
{
    if k == 0 {
        1
    } else {
        (shrine_thickness(multiplier, (k - 1) as nat) * multiplier) % 1111
    }
}

/// Blocks in the first `k` layers of that pyramid: layer `j` is `2j + 1` wide.
pub open spec fn shrine_blocks(multiplier: int, k: nat) -> int
    decreases k,
{
    if k == 0 {
        0
    } else {
        shrine_blocks(multiplier, (k - 1) as nat) + shrine_thickness(multiplier, (k - 1) as nat) * (2
            * k - 1)
    }
}

/// The block count the second pyramid must reach.
pub const SHRINE_BLOCKS: i64 = 20240000;

proof fn lemma_shrine_thickness_bounds(multiplier: int, k: nat)
    requires
        multiplier >= 0,
    ensures
        0 <= shrine_thickness(multiplier, k) <= 1110,
    decreases k,
{
    if k > 0 {
        lemma_shrine_thickness_bounds(multiplier, (k - 1) as nat);
        let t = shrine_thickness(multiplier, (k - 1) as nat);
        assert(t * multiplier >= 0) by (nonlinear_arith)
            requires
                t >= 0,
                multiplier >= 0,
        ;
    }
}

proof fn lemma_shrine_blocks_grow(multiplier: int, k: nat)
    requires
        multiplier >= 0,
        forall|j: nat| #[trigger] shrine_thickness(multiplier, j) >= 1,
    ensures
        shrine_blocks(multiplier, k) >= k,
    decreases k,
{
    if k > 0 {
        lemma_shrine_blocks_grow(multiplier, (k - 1) as nat);
        assert(shrine_thickness(multiplier, (k - 1) as nat) * (2 * k - 1) >= 1) by (nonlinear_arith)
            requires
                shrine_thickness(multiplier, (k - 1) as nat) >= 1,
                k >= 1,
        ;
    }
}

/// The width of the base times the blocks left over, once layers have been
/// added until `SHRINE_BLOCKS` blocks are reached.
pub fn part2(multiplier: i64) -> (r: i64)
    requires
        0 <= multiplier <= i64::MAX / 1111,
        forall|j: nat| #[trigger] shrine_thickness(multiplier as int, j) >= 1,
    ensures
        exists|k: nat|
            k >= 1 && #[trigger] shrine_blocks(multiplier as int, k) >= SHRINE_BLOCKS && shrine_blocks(
                multiplier as int,
                (k - 1) as nat,
            ) < SHRINE_BLOCKS && r == (2 * k - 1) * (shrine_blocks(multiplier as int, k)
                - SHRINE_BLOCKS),
{
    let ghost m = multiplier as int;
    let modulus: i64 = 1111;
    let blocks = SHRINE_BLOCKS;
    let mut blocks_needed: i64 = 0;
    let mut thickness: i64 = 1;
    let mut width: i64 = 1;
    let ghost mut k: nat = 0;
    loop
        invariant_except_break
            blocks_needed == shrine_blocks(m, k),
            blocks_needed < blocks,
            thickness == shrine_thickness(m, k),
            width == 2 * k + 1,
            k <= blocks_needed,
        invariant
            m == multiplier,
            0 <= m <= i64::MAX / 1111,
            forall|j: nat| #[trigger] shrine_thickness(m, j) >= 1,
            blocks == SHRINE_BLOCKS,
            modulus == 1111,
        ensures
            k >= 1,
            blocks_needed == shrine_blocks(m, k),
            blocks_needed >= blocks,
            shrine_blocks(m, (k - 1) as nat) < blocks,
            width == 2 * k - 1,
            1 <= width <= 2 * blocks,
            blocks_needed - blocks <= 1110 * width,
        decreases blocks - blocks_needed,
    {
        proof {
            lemma_shrine_thickness_bounds(m, k);
            assert(thickness >= 1);
            assert(1 <= thickness * width <= 1110 * width) by (nonlinear_arith)
                requires
                    1 <= thickness <= 1110,
                    1 <= width,
            ;
            assert((k + 1 - 1) as nat == k);
            lemma_shrine_blocks_grow(m, k + 1);
        }
        blocks_needed = blocks_needed + thickness * width;
        proof {
            k = k + 1;
        }
        if blocks_needed >= blocks {
            break;
        }
        proof {
            lemma_shrine_thickness_bounds(m, (k - 1) as nat);
            assert(0 <= thickness * multiplier <= 1110 * (i64::MAX / 1111)) by (nonlinear_arith)
                requires
                    0 <= thickness <= 1110,
                    0 <= multiplier <= i64::MAX / 1111,
            ;
        }
        width = width + 2;
        thickness = (thickness * multiplier) % modulus;
    }
    proof {
        assert(0 <= width * (blocks_needed - blocks) <= 1110 * width * width) by (nonlinear_arith)
            requires
                0 <= blocks_needed - blocks <= 1110 * width,
                width >= 1,
        ;
        assert(1110 * width * width <= 1110 * (2 * 20240000) * (2 * 20240000)) by (nonlinear_arith)
            requires
                1 <= width <= 2 * 20240000,
        ;
        assert(1110 * (2 * 20240000) * (2 * 20240000) <= i64::MAX) by (nonlinear_arith);
        assert(width * (blocks_needed - blocks) <= i64::MAX);
    }
    width * (blocks_needed - blocks)
}

/// A bound on the pyramids whose counts all fit in an `i64`: `n` layers of
/// thickness below `2 * acolytes`, and products with `priests`.
pub open spec fn pyramid_fits(priests: int, acolytes: int, n: nat) -> bool {
    &&& 0 <= priests
    &&& 1 <= acolytes
    &&& 16 * (n + 1) * (n + 1) * (priests + 1) * acolytes <= i64::MAX
}


proof fn lemma_thickness_bounds(priests: int, acolytes: int, k: nat)
    requires
        0 <= priests,
        1 <= acolytes,
    ensures
        1 <= layer_thickness(priests, acolytes, k) <= 2 * acolytes - 1,
    decreases k,
{
    if k > 0 {
        let prev = layer_thickness(priests, acolytes, (k - 1) as nat);
        lemma_thickness_bounds(priests, acolytes, (k - 1) as nat);
        assert(prev * priests >= 0) by (nonlinear_arith)
            requires
                prev >= 1,
                priests >= 0,
        ;
        assert(0 <= (prev * priests) % acolytes < acolytes) by (nonlinear_arith)
            requires
                prev * priests >= 0,
                acolytes >= 1,
        ;
    }
}

proof fn lemma_solid_bounds(priests: int, acolytes: int, n: nat)
    requires
        0 <= priests,
        1 <= acolytes,
    ensures
        0 <= solid_blocks_of(priests, acolytes, n) <= 4 * n * n * acolytes,
    decreases n,
{
    if n > 0 {
        let m = (n - 1) as nat;
        lemma_solid_bounds(priests, acolytes, m);
        lemma_thickness_bounds(priests, acolytes, m);
        let t = layer_thickness(priests, acolytes, m);
        assert(0 <= width_of(n) * t <= 4 * n * acolytes) by (nonlinear_arith)
            requires
                width_of(n) == 2 * n - 1,
                n >= 1,
                1 <= t <= 2 * acolytes - 1,
        ;
        assert(4 * m * m * acolytes + 4 * n * acolytes <= 4 * n * n * acolytes) by (
        nonlinear_arith)
            requires
                m + 1 == n,
                n >= 1,
                acolytes >= 1,
        ;
    }
}

proof fn lemma_column_height_bounds(t: Seq<i64>, acolytes: int, i: int)
    requires
        0 <= i <= t.len(),
        forall|k: int| 0 <= k < t.len() ==> 1 <= #[trigger] t[k] <= 2 * acolytes - 1,
    ensures
        0 <= height_of_column(t, i) <= (t.len() - i) * (2 * acolytes - 1),
    decreases t.len() - i,
{
    if i < t.len() {
        lemma_column_height_bounds(t, acolytes, i + 1);
        assert(1 <= t[i] <= 2 * acolytes - 1);
        assert(height_of_column(t, i) == t[i] + height_of_column(t, i + 1));
        assert((t.len() - (i + 1)) * (2 * acolytes - 1) + (2 * acolytes - 1) == (t.len() - i) * (2
            * acolytes - 1)) by (nonlinear_arith);
    } else {
        assert((t.len() - i) * (2 * acolytes - 1) == 0) by (nonlinear_arith)
            requires
                i == t.len(),
        ;
    }
}

proof fn lemma_removed_bounds(t: Seq<i64>, priests: int, acolytes: int, i: int)
    requires
        0 <= i <= t.len(),
        1 <= acolytes,
        0 <= priests,
        forall|k: int| 0 <= k < t.len() ==> 1 <= #[trigger] t[k] <= 2 * acolytes - 1,
    ensures
        0 <= removed_from(t, priests, acolytes, i) <= 2 * (t.len() - i) * t.len() * (2 * acolytes),
        i < t.len() ==> 0 <= removed_from_column(t, priests, acolytes, i),
    decreases t.len() - i,
{
    if i < t.len() {
        lemma_removed_bounds(t, priests, acolytes, i + 1);
        lemma_column_height_bounds(t, acolytes, i);
        let h = height_of_column(t, i);
        let r = removed_from_column(t, priests, acolytes, i);
        assert(width_of(t.len()) * priests * h >= 0) by (nonlinear_arith)
            requires
                width_of(t.len()) >= 0,
                priests >= 0,
                h >= 0,
        ;
        assert((width_of(t.len()) * priests * h) % acolytes >= 0) by (nonlinear_arith)
            requires
                width_of(t.len()) * priests * h >= 0,
                acolytes >= 1,
        ;
        assert(height_of_column(t, i) == t[i] + height_of_column(t, i + 1));
        assert(1 <= t[i]);
        if i < t.len() - 1 {
            assert(height_of_column(t, i + 1) == t[i + 1] + height_of_column(t, i + 2));
            assert(1 <= t[i + 1]);
            lemma_column_height_bounds(t, acolytes, i + 2);
        }
        assert(0 <= r <= h);
        assert(h <= t.len() * (2 * acolytes)) by (nonlinear_arith)
            requires
                h <= (t.len() - i) * (2 * acolytes - 1),
                0 <= i,
                acolytes >= 1,
        ;
        assert(2 * (t.len() - (i + 1)) * t.len() * (2 * acolytes) + 2 * (t.len() * (2 * acolytes))
            == 2 * (t.len() - i) * t.len() * (2 * acolytes)) by (nonlinear_arith);
    }
}


proof fn lemma_removed_prefix(t: Seq<i64>, priests: int, acolytes: int, i: int)
    requires
        0 <= i <= t.len(),
        1 <= acolytes,
        0 <= priests,
        forall|k: int| 0 <= k < t.len() ==> 1 <= #[trigger] t[k] <= 2 * acolytes - 1,
    ensures
        removed_from(t, priests, acolytes, i) <= removed_from(t, priests, acolytes, 0),
    decreases i,
{
    if i > 0 {
        lemma_removed_prefix(t, priests, acolytes, i - 1);
        lemma_removed_bounds(t, priests, acolytes, i);
        lemma_removed_column_nonneg(t, priests, acolytes, i - 1);
    }
}

proof fn lemma_removed_column_nonneg(t: Seq<i64>, priests: int, acolytes: int, i: int)
    requires
        0 <= i < t.len(),
        1 <= acolytes,
        0 <= priests,
        forall|k: int| 0 <= k < t.len() ==> 1 <= #[trigger] t[k] <= 2 * acolytes - 1,
    ensures
        removed_from_column(t, priests, acolytes, i) >= 0,
{
    lemma_removed_bounds(t, priests, acolytes, i);
}

/// A pyramid of layers laid one after another.
#[derive(Debug)]
pub struct Pyramid {
    priests: i64,
    acolytes: i64,
    solid_blocks: i64,
    layer_thicknesses: Vec<i64>,
}

impl Pyramid {
    pub closed spec fn spec_priests(&self) -> int {
        self.priests as int
    }

    pub closed spec fn spec_acolytes(&self) -> int {
        self.acolytes as int
    }

    /// The thickness of each layer, from the top.
    pub closed spec fn thicknesses(&self) -> Seq<i64> {
        self.layer_thicknesses@
    }

    /// The layers follow the thickness rule and the solid count matches them.
    pub closed spec fn wf(&self) -> bool {
        &&& 0 <= self.priests
        &&& 1 <= self.acolytes
        &&& forall|k: int|
            0 <= k < self.layer_thicknesses@.len() ==> #[trigger] self.layer_thicknesses@[k]
                == layer_thickness(self.priests as int, self.acolytes as int, k as nat)
        &&& self.solid_blocks == solid_blocks_of(
            self.priests as int,
            self.acolytes as int,
            self.layer_thicknesses@.len(),
        )
    }

    /// Width of the pyramid's base.
    pub fn width(&self) -> (r: i64)
        requires
            self.thicknesses().len() <= i64::MAX / 2,
        ensures
            r == width_of(self.thicknesses().len()),
    {
        let n = self.layer_thicknesses.len() as i64;
        if n * 2 - 1 > 0 {
            n * 2 - 1
        } else {
            0
        }
    }

    /// Lays the next layer under the pyramid: `1` block thick for the first,
    /// else the previous thickness times the priests, modulo the acolytes,
    /// plus the acolytes.
    pub fn apply_next_layer(&mut self)
        requires
            old(self).wf(),
            pyramid_fits(old(self).spec_priests(), old(self).spec_acolytes(), old(self).thicknesses().len() + 1),
        ensures
            final(self).wf(),
            final(self).spec_priests() == old(self).spec_priests(),
            final(self).spec_acolytes() == old(self).spec_acolytes(),
            final(self).thicknesses() == old(self).thicknesses().push(
                layer_thickness(
                    old(self).spec_priests(),
                    old(self).spec_acolytes(),
                    old(self).thicknesses().len(),
                ) as i64,
            ),
    {
        let ghost p = self.priests as int;
        let ghost a = self.acolytes as int;
        let ghost n = self.layer_thicknesses@.len();
        proof {
            lemma_thickness_bounds(p, a, n);
            lemma_solid_bounds(p, a, n);
            lemma_solid_bounds(p, a, n + 1);
            assert(16 * (n + 2) * (n + 2) * (p + 1) * a <= i64::MAX);
            assert(4 * (n + 1) * (n + 1) * a <= 16 * (n + 2) * (n + 2) * (p + 1) * a) by (
            nonlinear_arith)
                requires
                    p >= 0,
                    a >= 1,
                    n >= 0,
            ;
        }
        let len = self.layer_thicknesses.len();
        let thickness = if len > 0 {
            let prev = self.layer_thicknesses[len - 1];
            proof {
                lemma_thickness_bounds(p, a, (n - 1) as nat);
                assert(0 <= prev * p <= (2 * a) * (p + 1)) by (nonlinear_arith)
                    requires
                        1 <= prev <= 2 * a - 1,
                        p >= 0,
                ;
                assert((2 * a) * (p + 1) <= 16 * (n + 2) * (n + 2) * (p + 1) * a) by (
                nonlinear_arith)
                    requires
                        p >= 0,
                        a >= 1,
                        n >= 0,
                ;
                assert(layer_thickness(p, a, n) == (prev * p) % a + a);
                assert(2 * a <= i64::MAX) by (nonlinear_arith)
                    requires
                        16 * (n + 2) * (n + 2) * (p + 1) * a <= i64::MAX,
                        p >= 0,
                        a >= 1,
                        n >= 0,
                ;
                assert(0 <= (prev * p) % a < a) by (nonlinear_arith)
                    requires
                        prev * p >= 0,
                        a >= 1,
                ;
            }
            (prev * self.priests) % self.acolytes + self.acolytes
        } else {
            1
        };
        self.layer_thicknesses.push(thickness);
        proof {
            assert(self.layer_thicknesses@.len() == n + 1);
            assert(n + 1 <= i64::MAX / 2) by (nonlinear_arith)
                requires
                    16 * (n + 2) * (n + 2) * (p + 1) * a <= i64::MAX,
                    p >= 0,
                    a >= 1,
                    n >= 0,
            ;
        }
        let w = self.width();
        proof {
            assert(solid_blocks_of(p, a, n + 1) == solid_blocks_of(p, a, n) + width_of(n + 1)
                * layer_thickness(p, a, n));
            assert(0 <= w * thickness <= 4 * (n + 1) * a) by (nonlinear_arith)
                requires
                    w == 2 * (n + 1) - 1,
                    1 <= thickness <= 2 * a - 1,
            ;
        }
        self.solid_blocks = self.solid_blocks + w * thickness;
    }

    /// Blocks the priests may take out of the solid pyramid without breaking it.
    pub fn removable_blocks(&self) -> (r: i64)
        requires
            self.wf(),
            pyramid_fits(self.spec_priests(), self.spec_acolytes(), self.thicknesses().len()),
        ensures
            r == removed_from(self.thicknesses(), self.spec_priests(), self.spec_acolytes(), 0),
    {
        let ghost t = self.layer_thicknesses@;
        let ghost p = self.priests as int;
        let ghost a = self.acolytes as int;
        let ghost n = t.len() as int;
        proof {
            assert forall|k: int| 0 <= k < t.len() implies 1 <= #[trigger] t[k] <= 2 * a - 1 by {
                lemma_thickness_bounds(p, a, k as nat);
            }
            lemma_removed_bounds(t, p, a, 0);
            assert(n <= i64::MAX / 2) by (nonlinear_arith)
                requires
                    16 * (n + 1) * (n + 1) * (p + 1) * a <= i64::MAX,
                    p >= 0,
                    a >= 1,
                    n >= 0,
            ;
            assert(2 * n * n * (2 * a) <= i64::MAX) by (nonlinear_arith)
                requires
                    16 * (n + 1) * (n + 1) * (p + 1) * a <= i64::MAX,
                    p >= 0,
                    a >= 1,
                    n >= 0,
            ;
        }
        let width = self.width();
        let len = self.layer_thicknesses.len();
        let mut removed_blocks: i64 = 0;
        let mut column_height: i64 = 0;
        let mut i = len;
        while i > 0
            invariant
                t == self.layer_thicknesses@,
                len == t.len(),
                width == width_of(t.len()),
                p == self.priests,
                a == self.acolytes,
                p >= 0,
                a >= 1,
                0 <= i <= len,
                forall|k: int| 0 <= k < t.len() ==> 1 <= #[trigger] t[k] <= 2 * a - 1,
                16 * (len + 1) * (len + 1) * (p + 1) * a <= i64::MAX,
                column_height == height_of_column(t, i as int),
                removed_blocks == removed_from(t, p, a, i as int),
            decreases i,
        {
            i = i - 1;
            proof {
                lemma_column_height_bounds(t, a, i as int);
                lemma_column_height_bounds(t, a, i + 1);
                lemma_removed_bounds(t, p, a, i as int);
                lemma_removed_bounds(t, p, a, 0);
                assert(height_of_column(t, i as int) <= len * (2 * a)) by (nonlinear_arith)
                    requires
                        height_of_column(t, i as int) <= (len - i) * (2 * a - 1),
                        0 <= i,
                        a >= 1,
                ;
                assert(0 <= width * p * height_of_column(t, i as int) <= 16 * (len + 1) * (len + 1)
                    * (p + 1) * a) by (nonlinear_arith)
                    requires
                        0 <= width <= 2 * len,
                        p >= 0,
                        a >= 1,
                        0 <= height_of_column(t, i as int) <= len * (2 * a),
                ;
                assert(0 <= width * p <= 16 * (len + 1) * (len + 1) * (p + 1) * a) by (
                nonlinear_arith)
                    requires
                        0 <= width <= 2 * len,
                        p >= 0,
                        a >= 1,
                ;
                assert(removed_from(t, p, a, 0) <= 2 * len * len * (2 * a)) by (nonlinear_arith)
                    requires
                        removed_from(t, p, a, 0) <= 2 * (len - 0) * len * (2 * a),
                ;
                assert(2 * len * len * (2 * a) <= i64::MAX && len * (2 * a) <= i64::MAX) by (
                nonlinear_arith)
                    requires
                        16 * (len + 1) * (len + 1) * (p + 1) * a <= i64::MAX,
                        p >= 0,
                        a >= 1,
                        len >= 0,
                ;
                assert(height_of_column(t, i as int) == t[i as int] + height_of_column(
                    t,
                    i + 1,
                ));
            }
            let prev_column_height = column_height;
            column_height = column_height + self.layer_thicknesses[i];
            let must_untouched_blocks = if i == len - 1 {
                column_height
            } else {
                column_height - prev_column_height + 1
            };
            let should_remove_blocks = (width * self.priests * column_height) % self.acolytes;
            let available = column_height - must_untouched_blocks;
            let removed_this_column = if available < should_remove_blocks {
                available
            } else {
                should_remove_blocks
            };
            proof {
                assert(removed_this_column == removed_from_column(t, p, a, i as int));
                assert(removed_from(t, p, a, i as int) <= removed_from(t, p, a, 0)) by {
                    lemma_removed_prefix(t, p, a, i as int);
                }
                lemma_removed_bounds(t, p, a, i + 1);
                assert(removed_from(t, p, a, i as int) == (if i == 0 {
                    1int
                } else {
                    2int
                }) * removed_this_column + removed_from(t, p, a, i + 1));
            }
            if i == 0 {
                removed_blocks = removed_blocks + removed_this_column;
            } else {
                removed_blocks = removed_blocks + 2 * removed_this_column;
            }
        }
        removed_blocks
    }

    /// Blocks the finished pyramid takes: the solid count less the removable ones.
    pub fn total_blocks(&self) -> (r: i64)
        requires
            self.wf(),
            pyramid_fits(self.spec_priests(), self.spec_acolytes(), self.thicknesses().len()),
        ensures
            r == solid_blocks_of(self.spec_priests(), self.spec_acolytes(), self.thicknesses().len())
                - removed_from(self.thicknesses(), self.spec_priests(), self.spec_acolytes(), 0),
    {
        let ghost t = self.layer_thicknesses@;
        let ghost p = self.priests as int;
        let ghost a = self.acolytes as int;
        proof {
            assert forall|k: int| 0 <= k < t.len() implies 1 <= #[trigger] t[k] <= 2 * a - 1 by {
                lemma_thickness_bounds(p, a, k as nat);
            }
            lemma_removed_bounds(t, p, a, 0);
            lemma_solid_bounds(p, a, t.len());
            assert(2 * t.len() * t.len() * (2 * a) <= i64::MAX) by (nonlinear_arith)
                requires
                    16 * (t.len() + 1) * (t.len() + 1) * (p + 1) * a <= i64::MAX,
                    p >= 0,
                    a >= 1,
            ;
        }
        self.solid_blocks - self.removable_blocks()
    }

    /// A pyramid of `layers` layers laid by `priests` priests and `acolytes` acolytes.
    pub fn with_layers(priests: i64, acolytes: i64, layers: u64) -> (r: Self)
        requires
            pyramid_fits(priests as int, acolytes as int, layers as nat),
        ensures
            r.wf(),
            r.spec_priests() == priests,
            r.spec_acolytes() == acolytes,
            r.thicknesses().len() == layers,
    {
        let mut pyramid = Pyramid {
            priests,
            acolytes,
            solid_blocks: 0,
            layer_thicknesses: Vec::new(),
        };
        let mut i: u64 = 0;
        while i < layers
            invariant
                i <= layers,
                pyramid.wf(),
                pyramid.spec_priests() == priests,
                pyramid.spec_acolytes() == acolytes,
                pyramid.thicknesses().len() == i,
                pyramid_fits(priests as int, acolytes as int, layers as nat),
            decreases layers - i,
        {
            proof {
                assert(16 * (i + 2) * (i + 2) * (priests + 1) * acolytes <= 16 * (layers + 1) * (
                layers + 1) * (priests + 1) * acolytes) by (nonlinear_arith)
                    requires
                        i + 1 <= layers,
                        priests >= 0,
                        acolytes >= 1,
                ;
            }
            pyramid.apply_next_layer();
            i = i + 1;
        }
        pyramid
    }
}

} // verus!
