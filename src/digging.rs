//! Digging out a region of `#` tiles: in each round every remaining tile is
//! dug once, and only tiles whose neighbours all remain stay for the next.

use vstd::prelude::*;
use crate::grid::{diag_delta, ortho_delta, DiagDir, OrthoDir};
use crate::inscriptions::count_true;
use crate::text::{fields, fields_view, split_fields};

verus! {

/// Tile `(x, y)` remains in the rows `s`; positions off the grid never do.
pub open spec fn in_set(s: Seq<Seq<bool>>, x: int, y: int) -> bool {
    0 <= y < s.len() && 0 <= x < s[y].len() && s[y][x]
}

/// The tiles of `s` whose neighbours at each of the offsets `offs` remain too.
pub open spec fn erode(s: Seq<Seq<bool>>, offs: Seq<(isize, isize)>) -> Seq<Seq<bool>> {
    Seq::new(
        s.len(),
        |y: int|
            Seq::new(
                s[y].len(),
                |x: int|
                    s[y][x] && forall|i: int|
                        0 <= i < offs.len() ==> in_set(s, x + (#[trigger] offs[i]).0, y + offs[i].1),
            ),
    )
}

/// The number of tiles remaining in rows `0..k` of `s`.
pub open spec fn size_upto(s: Seq<Seq<bool>>, k: int) -> int
    decreases k,
{
    if k <= 0 {
        0
    } else {
        size_upto(s, k - 1) + count_true(s[k - 1], s[k - 1].len() as int)
    }
}

/// The number of tiles remaining in `s`.
pub open spec fn size(s: Seq<Seq<bool>>) -> int {
    size_upto(s, s.len() as int)
}

/// The tiles remaining after `k` rounds.
pub open spec fn after_erosions(s: Seq<Seq<bool>>, offs: Seq<(isize, isize)>, k: nat) -> Seq<
    Seq<bool>,
>
    decreases k,
{
    if k == 0 {
        s
    } else {
        erode(after_erosions(s, offs, (k - 1) as nat), offs)
    }
}

/// Tiles dug over the first `k` rounds.
pub open spec fn dug_in_rounds(s: Seq<Seq<bool>>, offs: Seq<(isize, isize)>, k: nat) -> int
    decreases k,
{
    if k == 0 {
        0
    } else {
        dug_in_rounds(s, offs, (k - 1) as nat) + size(after_erosions(s, offs, (k - 1) as nat))
    }
}

/// The tiles of the map `t`: `#` at column `x` of line `y`.
pub open spec fn tiles_of(t: Seq<u8>) -> Seq<Seq<bool>> {
    let lines = fields(t, 10);
    Seq::new(lines.len(), |y: int| Seq::new(lines[y].len(), |x: int| lines[y][x] == 35u8))
}


proof fn lemma_count_true_bounds(marks: Seq<bool>, k: int)
    requires
        0 <= k <= marks.len(),
    ensures
        0 <= count_true(marks, k) <= k,
        count_true(marks, k) > 0 <==> exists|i: int| 0 <= i < k && #[trigger] marks[i],
    decreases k,
{
    if k > 0 {
        lemma_count_true_bounds(marks, k - 1);
        if exists|i: int| 0 <= i < k && #[trigger] marks[i] {
            let i = choose|i: int| 0 <= i < k && #[trigger] marks[i];
            if i < k - 1 {
                assert(exists|j: int| 0 <= j < k - 1 && #[trigger] marks[j]);
            }
        }
    }
}

proof fn lemma_count_true_subset(a: Seq<bool>, b: Seq<bool>, k: int)
    requires
        0 <= k <= a.len(),
        a.len() == b.len(),
        forall|i: int| 0 <= i < k && #[trigger] a[i] ==> b[i],
    ensures
        count_true(a, k) <= count_true(b, k),
        (exists|i: int| 0 <= i < k && #[trigger] b[i] && !a[i]) ==> count_true(a, k) < count_true(
            b,
            k,
        ),
    decreases k,
{
    if k > 0 {
        lemma_count_true_subset(a, b, k - 1);
        if exists|i: int| 0 <= i < k && #[trigger] b[i] && !a[i] {
            let i = choose|i: int| 0 <= i < k && #[trigger] b[i] && !a[i];
            if i < k - 1 {
                assert(exists|j: int| 0 <= j < k - 1 && #[trigger] b[j] && !a[j]);
            }
        }
    }
}

proof fn lemma_size_upto_subset(a: Seq<Seq<bool>>, b: Seq<Seq<bool>>, k: int)
    requires
        0 <= k <= a.len(),
        a.len() == b.len(),
        forall|y: int| 0 <= y < a.len() ==> (#[trigger] a[y]).len() == b[y].len(),
        forall|y: int, x: int| 0 <= y < a.len() && 0 <= x < a[y].len() && #[trigger] a[y][x] ==> b[y][x],
    ensures
        0 <= size_upto(a, k) <= size_upto(b, k),
        (exists|y: int, x: int| 0 <= y < k && 0 <= x < a[y].len() && #[trigger] b[y][x] && !a[y][x])
            ==> size_upto(a, k) < size_upto(b, k),
    decreases k,
{
    if k > 0 {
        lemma_size_upto_subset(a, b, k - 1);
        let y = k - 1;
        lemma_count_true_subset(a[y], b[y], a[y].len() as int);
        lemma_count_true_bounds(a[y], a[y].len() as int);
        if exists|yy: int, x: int| 0 <= yy < k && 0 <= x < a[yy].len() && #[trigger] b[yy][x] && !a[yy][x] {
            let (yy, x) = choose|yy: int, x: int|
                0 <= yy < k && 0 <= x < a[yy].len() && #[trigger] b[yy][x] && !a[yy][x];
            if yy < k - 1 {
                assert(exists|y2: int, x2: int|
                    0 <= y2 < k - 1 && 0 <= x2 < a[y2].len() && #[trigger] b[y2][x2] && !a[y2][x2]);
            } else {
                assert(exists|i: int| 0 <= i < a[y].len() && #[trigger] b[y][i] && !a[y][i]);
            }
        }
    }
}

/// Some row of `s` before row `k` has a tile: the first such row.
proof fn lemma_first_nonempty_row(s: Seq<Seq<bool>>, k: int) -> (y: int)
    requires
        0 <= k <= s.len(),
        size_upto(s, k) > 0,
    ensures
        0 <= y < k,
        exists|x: int| 0 <= x < s[y].len() && #[trigger] s[y][x],
        forall|y2: int, x: int| 0 <= y2 < y && 0 <= x < s[y2].len() ==> !#[trigger] s[y2][x],
    decreases k,
{
    let r = k - 1;
    lemma_count_true_bounds(s[r], s[r].len() as int);
    lemma_size_upto_nonneg(s, k - 1);
    if size_upto(s, k - 1) > 0 {
        lemma_first_nonempty_row(s, k - 1)
    } else {
        assert forall|y2: int, x: int| 0 <= y2 < r && 0 <= x < s[y2].len() implies !#[trigger] s[y2][x] by {
            lemma_size_upto_zero(s, k - 1, y2);
            lemma_count_true_bounds(s[y2], s[y2].len() as int);
        }
        r
    }
}

proof fn lemma_size_upto_zero(s: Seq<Seq<bool>>, k: int, y: int)
    requires
        0 <= y < k <= s.len(),
        size_upto(s, k) == 0,
    ensures
        count_true(s[y], s[y].len() as int) == 0,
    decreases k,
{
    lemma_count_true_bounds(s[k - 1], s[k - 1].len() as int);
    lemma_size_upto_nonneg(s, k - 1);
    if y < k - 1 {
        lemma_size_upto_zero(s, k - 1, y);
    }
}

proof fn lemma_size_upto_nonneg(s: Seq<Seq<bool>>, k: int)
    requires
        0 <= k <= s.len(),
    ensures
        size_upto(s, k) >= 0,
    decreases k,
{
    if k > 0 {
        lemma_size_upto_nonneg(s, k - 1);
        lemma_count_true_bounds(s[k - 1], s[k - 1].len() as int);
    }
}

/// Some offset of `offs` moves a tile.
pub open spec fn has_moving_offset(offs: Seq<(isize, isize)>) -> bool {
    exists|i: int| 0 <= i < offs.len() && #[trigger] offs[i] != (0isize, 0isize)
}

/// Some row of `s` from row `k` on has a tile, and the rows after `k` have
/// none: the last such row.
proof fn lemma_last_nonempty_row(s: Seq<Seq<bool>>, k: int) -> (y: int)
    requires
        0 <= k <= s.len(),
        size_upto(s, k) > 0,
        forall|y2: int, x: int| k <= y2 < s.len() && 0 <= x < s[y2].len() ==> !#[trigger] s[y2][x],
    ensures
        0 <= y < k,
        exists|x: int| 0 <= x < s[y].len() && #[trigger] s[y][x],
        forall|y2: int, x: int| y < y2 < s.len() && 0 <= x < s[y2].len() ==> !#[trigger] s[y2][x],
    decreases k,
{
    let r = k - 1;
    lemma_count_true_bounds(s[r], s[r].len() as int);
    lemma_size_upto_nonneg(s, k - 1);
    if count_true(s[r], s[r].len() as int) > 0 {
        r
    } else {
        assert forall|y2: int, x: int| r <= y2 < s.len() && 0 <= x < s[y2].len() implies !#[trigger] s[y2][x] by {
            if y2 == r {
                if s[r][x] {
                    assert(exists|i: int| 0 <= i < s[r].len() && #[trigger] s[r][i]);
                }
            }
        }
        lemma_last_nonempty_row(s, k - 1)
    }
}

/// A row with a tile has a first one.
proof fn lemma_first_true(row: Seq<bool>, k: int) -> (x: int)
    requires
        0 <= k <= row.len(),
        exists|i: int| 0 <= i < k && #[trigger] row[i],
    ensures
        0 <= x < k,
        row[x],
        forall|i: int| 0 <= i < x ==> !#[trigger] row[i],
    decreases k,
{
    if exists|i: int| 0 <= i < k - 1 && #[trigger] row[i] {
        lemma_first_true(row, k - 1)
    } else {
        k - 1
    }
}

/// A row with a tile has a last one.
proof fn lemma_last_true(row: Seq<bool>, k: int) -> (x: int)
    requires
        0 <= k <= row.len(),
        exists|i: int| k <= i < row.len() && #[trigger] row[i],
    ensures
        k <= x < row.len(),
        row[x],
        forall|i: int| x < i < row.len() ==> !#[trigger] row[i],
    decreases row.len() - k,
{
    if exists|i: int| k + 1 <= i < row.len() && #[trigger] row[i] {
        lemma_last_true(row, k + 1)
    } else {
        k
    }
}

/// A round never adds tiles, and removes at least one while any remain: a
/// tile furthest in the direction of a moving offset has no neighbour there.
proof fn lemma_erode_shrinks(s: Seq<Seq<bool>>, offs: Seq<(isize, isize)>)
    requires
        unit_offsets(offs),
        has_moving_offset(offs),
    ensures
        0 <= size(erode(s, offs)) <= size(s),
        size(s) > 0 ==> size(erode(s, offs)) < size(s),
{
    let e = erode(s, offs);
    lemma_size_upto_subset(e, s, s.len() as int);
    if size(s) > 0 {
        let i = choose|i: int| 0 <= i < offs.len() && #[trigger] offs[i] != (0isize, 0isize);
        let (dx, dy) = offs[i];
        assert(-1 <= dx <= 1 && -1 <= dy <= 1);
        let top = lemma_first_nonempty_row(s, s.len() as int);
        let (x, y) = if dy == -1 {
            let x = choose|x: int| 0 <= x < s[top].len() && #[trigger] s[top][x];
            (x, top)
        } else if dy == 1 {
            let bottom = lemma_last_nonempty_row(s, s.len() as int);
            let x = choose|x: int| 0 <= x < s[bottom].len() && #[trigger] s[bottom][x];
            (x, bottom)
        } else if dx == -1 {
            let x = lemma_first_true(s[top], s[top].len() as int);
            (x, top)
        } else {
            assert(dx == 1);
            let x = lemma_last_true(s[top], 0);
            (x, top)
        };
        assert(0 <= y < s.len() && 0 <= x < s[y].len() && s[y][x]);
        assert(!in_set(s, x + offs[i].0, y + offs[i].1));
        assert(!e[y][x]);
        lemma_size_upto_subset(e, s, s.len() as int);
    }
}

/// The rows of tiles as sequences.
pub open spec fn tiles_view(v: Seq<Vec<bool>>) -> Seq<Seq<bool>> {
    v.map_values(|r: Vec<bool>| r@)
}

/// Each offset moves at most one step along each axis.
pub open spec fn unit_offsets(offs: Seq<(isize, isize)>) -> bool {
    forall|i: int| 0 <= i < offs.len() ==> -1 <= (#[trigger] offs[i]).0 <= 1 && -1 <= offs[i].1 <= 1
}

/// The rows and their lengths are small enough for `i64` coordinates.
pub open spec fn fits_coordinates(s: Seq<Seq<bool>>) -> bool {
    &&& s.len() <= 0x1_0000_0000
    &&& forall|y: int| 0 <= y < s.len() ==> (#[trigger] s[y]).len() <= 0x1_0000_0000
}

proof fn lemma_size_upto_grows(s: Seq<Seq<bool>>, j: int, k: int)
    requires
        0 <= j <= k <= s.len(),
    ensures
        size_upto(s, j) <= size_upto(s, k),
    decreases k - j,
{
    if j < k {
        lemma_size_upto_grows(s, j, k - 1);
        lemma_count_true_bounds(s[k - 1], s[k - 1].len() as int);
    }
}

proof fn lemma_count_true_grows(marks: Seq<bool>, j: int, k: int)
    requires
        0 <= j <= k <= marks.len(),
    ensures
        count_true(marks, j) <= count_true(marks, k),
    decreases k - j,
{
    if j < k {
        lemma_count_true_grows(marks, j, k - 1);
    }
}

/// The grid of `#` tiles of the map `input`, one row per line.
fn read_tiles(input: &[u8]) -> (r: Vec<Vec<bool>>)
    ensures
        tiles_view(r@) == tiles_of(input@),
{
    let lines = split_fields(input, 10);
    let ghost ls = fields(input@, 10);
    let mut rows: Vec<Vec<bool>> = Vec::new();
    let mut y: usize = 0;
    while y < lines.len()
        invariant
            fields_view(lines@) == ls,
            ls == fields(input@, 10),
            y <= lines.len(),
            rows@.len() == y,
            forall|k: int| 0 <= k < y ==> (#[trigger] rows@[k])@ == tiles_of(input@)[k],
        decreases lines.len() - y,
    {
        let line = &lines[y];
        proof {
            assert(ls[y as int] == line@);
        }
        let mut row: Vec<bool> = Vec::new();
        let mut x: usize = 0;
        while x < line.len()
            invariant
                x <= line.len(),
                row@.len() == x,
                forall|k: int| 0 <= k < x ==> row@[k] == (line@[k] == 35u8),
            decreases line.len() - x,
        {
            row.push(line[x] == 35);
            x = x + 1;
        }
        proof {
            assert(row@ =~= tiles_of(input@)[y as int]);
        }
        rows.push(row);
        y = y + 1;
    }
    proof {
        assert(tiles_view(rows@) =~= tiles_of(input@));
    }
    rows
}

/// The number of tiles remaining in `s`.
fn count_tiles(s: &Vec<Vec<bool>>) -> (r: u64)
    requires
        size(tiles_view(s@)) <= u64::MAX,
    ensures
        r == size(tiles_view(s@)),
{
    let ghost v = tiles_view(s@);
    let mut total: u64 = 0;
    let mut y: usize = 0;
    while y < s.len()
        invariant
            v == tiles_view(s@),
            size(v) <= u64::MAX,
            y <= s.len(),
            total == size_upto(v, y as int),
        decreases s.len() - y,
    {
        let row = &s[y];
        proof {
            assert(v[y as int] == row@);
            lemma_size_upto_grows(v, y + 1, v.len() as int);
        }
        let mut x: usize = 0;
        let mut in_row: u64 = 0;
        while x < row.len()
            invariant
                v == tiles_view(s@),
                y < s.len(),
                v[y as int] == row@,
                x <= row.len(),
                in_row == count_true(row@, x as int),
                total == size_upto(v, y as int),
                size_upto(v, y + 1) <= u64::MAX,
            decreases row.len() - x,
        {
            proof {
                lemma_count_true_grows(row@, x + 1, row@.len() as int);
                lemma_count_true_bounds(row@, x + 1);
            }
            if row[x] {
                in_row = in_row + 1;
            }
            x = x + 1;
        }
        total = total + in_row;
        y = y + 1;
    }
    total
}

/// Whether tile `(x, y)` remains in `s`.
fn has_tile(s: &Vec<Vec<bool>>, x: i64, y: i64) -> (r: bool)
    ensures
        r == in_set(tiles_view(s@), x as int, y as int),
{
    if y < 0 || x < 0 {
        return false;
    }
    if (y as u64) >= (s.len() as u64) {
        return false;
    }
    let row = &s[y as usize];
    if (x as u64) >= (row.len() as u64) {
        return false;
    }
    row[x as usize]
}

/// One round: the tiles of `s` whose neighbours at `offs` all remain.
fn erode_tiles(s: &Vec<Vec<bool>>, offs: &[(isize, isize)]) -> (r: Vec<Vec<bool>>)
    requires
        unit_offsets(offs@),
        fits_coordinates(tiles_view(s@)),
    ensures
        tiles_view(r@) == erode(tiles_view(s@), offs@),
{
    let ghost v = tiles_view(s@);
    let mut out: Vec<Vec<bool>> = Vec::new();
    let mut y: usize = 0;
    while y < s.len()
        invariant
            v == tiles_view(s@),
            unit_offsets(offs@),
            fits_coordinates(v),
            y <= s.len(),
            out@.len() == y,
            forall|k: int| 0 <= k < y ==> (#[trigger] out@[k])@ == erode(v, offs@)[k],
        decreases s.len() - y,
    {
        let row = &s[y];
        proof {
            assert(v[y as int] == row@);
        }
        let mut new_row: Vec<bool> = Vec::new();
        let mut x: usize = 0;
        while x < row.len()
            invariant
                v == tiles_view(s@),
                unit_offsets(offs@),
                fits_coordinates(v),
                y < s.len(),
                v[y as int] == row@,
                x <= row.len(),
                new_row@.len() == x,
                forall|k: int| 0 <= k < x ==> new_row@[k] == erode(v, offs@)[y as int][k],
            decreases row.len() - x,
        {
            let mut keep = row[x];
            let mut i: usize = 0;
            while i < offs.len() && keep
                invariant
                    v == tiles_view(s@),
                    unit_offsets(offs@),
                    fits_coordinates(v),
                    y < s.len(),
                    x < row.len(),
                    v[y as int] == row@,
                    i <= offs.len(),
                    keep ==> row@[x as int] && forall|j: int|
                        0 <= j < i ==> in_set(v, x + (#[trigger] offs@[j]).0, y + offs@[j].1),
                    !keep ==> !erode(v, offs@)[y as int][x as int],
                decreases offs.len() - i,
            {
                let (dx, dy) = offs[i];
                proof {
                    assert(-1 <= offs@[i as int].0 <= 1 && -1 <= offs@[i as int].1 <= 1);
                }
                let nx = x as i64 + dx as i64;
                let ny = y as i64 + dy as i64;
                if !has_tile(s, nx, ny) {
                    keep = false;
                }
                i = i + 1;
            }
            new_row.push(keep);
            x = x + 1;
        }
        proof {
            assert(new_row@ =~= erode(v, offs@)[y as int]);
        }
        out.push(new_row);
        y = y + 1;
    }
    proof {
        assert(tiles_view(out@) =~= erode(v, offs@));
    }
    out
}

proof fn lemma_dug_settles(s: Seq<Seq<bool>>, offs: Seq<(isize, isize)>, r: nat, k: nat)
    requires
        unit_offsets(offs),
        has_moving_offset(offs),
        size(after_erosions(s, offs, r)) == 0,
        r <= k,
    ensures
        dug_in_rounds(s, offs, k) == dug_in_rounds(s, offs, r),
        size(after_erosions(s, offs, k)) == 0,
    decreases k,
{
    if r < k {
        lemma_dug_settles(s, offs, r, (k - 1) as nat);
        lemma_erode_shrinks(after_erosions(s, offs, (k - 1) as nat), offs);
    }
}

/// Tiles dug out of the map `input` over all rounds: each `#` tile counts
/// once for every round in which it remains, a tile staying only while all
/// its neighbours at the offsets `neighbours` remain.
pub fn dig_out(input: &[u8], neighbours: &[(isize, isize)]) -> (r: i64)
    requires
        unit_offsets(neighbours@),
        has_moving_offset(neighbours@),
        fits_coordinates(tiles_of(input@)),
        size(tiles_of(input@)) <= 3_000_000_000,
    ensures
        r == dug_in_rounds(
            tiles_of(input@),
            neighbours@,
            (size(tiles_of(input@)) + 1) as nat,
        ),
{
    let ghost s0 = tiles_of(input@);
    let ghost n0 = size(s0);
    let ghost offs = neighbours@;
    let mut tiles = read_tiles(input);
    let mut total: i64 = 0;
    let ghost mut rounds: nat = 0;
    proof {
        lemma_size_upto_nonneg(s0, s0.len() as int);
    }
    loop
        invariant
            offs == neighbours@,
            unit_offsets(offs),
            has_moving_offset(offs),
            0 <= n0 <= 3_000_000_000,
            n0 == size(s0),
            tiles_view(tiles@) == after_erosions(s0, offs, rounds),
            fits_coordinates(tiles_view(tiles@)),
            total == dug_in_rounds(s0, offs, rounds),
            0 <= size(tiles_view(tiles@)),
            size(tiles_view(tiles@)) + rounds <= n0,
            0 <= total <= rounds * n0,
        ensures
            total == dug_in_rounds(s0, offs, rounds),
            size(after_erosions(s0, offs, rounds)) == 0,
            rounds <= n0,
        decreases size(tiles_view(tiles@)),
    {
        let ghost cur = tiles_view(tiles@);
        let n = count_tiles(&tiles);
        if n == 0 {
            break;
        }
        proof {
            assert(total + n <= (rounds + 1) * n0) by (nonlinear_arith)
                requires
                    total <= rounds * n0,
                    n <= n0,
            ;
            assert((rounds + 1) * n0 <= n0 * n0) by (nonlinear_arith)
                requires
                    rounds + 1 <= n0,
                    n0 >= 0,
            ;
            assert(n0 * n0 <= 9_000_000_000_000_000_000) by (nonlinear_arith)
                requires
                    0 <= n0 <= 3_000_000_000,
            ;
        }
        total = total + n as i64;
        tiles = erode_tiles(&tiles, neighbours);
        proof {
            lemma_erode_shrinks(cur, offs);
            assert(fits_coordinates(tiles_view(tiles@))) by {
                assert forall|y: int| 0 <= y < tiles_view(tiles@).len() implies (
                #[trigger] tiles_view(tiles@)[y]).len() <= 0x1_0000_0000 by {
                    assert(tiles_view(tiles@)[y].len() == cur[y].len());
                }
            }
            rounds = rounds + 1;
        }
    }
    proof {
        lemma_dug_settles(s0, offs, rounds, (n0 + 1) as nat);
    }
    total
}

/// The unit steps of the four orthogonal directions, clockwise from north.
pub open spec fn ortho_offsets() -> Seq<(isize, isize)> {
    seq![(0isize, -1isize), (1isize, 0isize), (0isize, 1isize), (-1isize, 0isize)]
}

/// The unit steps of the eight directions, clockwise from north.
pub open spec fn diag_offsets() -> Seq<(isize, isize)> {
    seq![
        (0isize, -1isize),
        (1isize, -1isize),
        (1isize, 0isize),
        (1isize, 1isize),
        (0isize, 1isize),
        (-1isize, 1isize),
        (-1isize, 0isize),
        (-1isize, -1isize),
    ]
}

/// Tiles dug out of the map `input` when a tile stays only while its four
/// orthogonal neighbours remain.
pub fn part1(input: &[u8]) -> (r: i64)
    requires
        fits_coordinates(tiles_of(input@)),
        size(tiles_of(input@)) <= 3_000_000_000,
    ensures
        r == dug_in_rounds(tiles_of(input@), ortho_offsets(), (size(tiles_of(input@)) + 1) as nat),
{
    let dirs = [OrthoDir::North, OrthoDir::East, OrthoDir::South, OrthoDir::West];
    let mut offsets: Vec<(isize, isize)> = Vec::new();
    let mut i: usize = 0;
    while i < 4
        invariant
            i <= 4,
            dirs@ == seq![OrthoDir::North, OrthoDir::East, OrthoDir::South, OrthoDir::West],
            offsets@ == ortho_offsets().take(i as int),
        decreases 4 - i,
    {
        let d = dirs[i];
        let delta = d.delta();
        proof {
            assert(ortho_delta(d) == (ortho_offsets()[i as int].0 as int, ortho_offsets()[i as int].1 as int));
        }
        offsets.push(delta);
        i = i + 1;
        proof {
            assert(offsets@ =~= ortho_offsets().take(i as int));
        }
    }
    proof {
        assert(offsets@ =~= ortho_offsets());
        assert(offsets@[0] != (0isize, 0isize));
    }
    dig_out(input, offsets.as_slice())
}

/// Tiles dug out of the map `input` when a tile stays only while all eight
/// neighbours remain.
pub fn part3(input: &[u8]) -> (r: i64)
    requires
        fits_coordinates(tiles_of(input@)),
        size(tiles_of(input@)) <= 3_000_000_000,
    ensures
        r == dug_in_rounds(tiles_of(input@), diag_offsets(), (size(tiles_of(input@)) + 1) as nat),
{
    let dirs = [
        DiagDir::North,
        DiagDir::NorthEast,
        DiagDir::East,
        DiagDir::SouthEast,
        DiagDir::South,
        DiagDir::SouthWest,
        DiagDir::West,
        DiagDir::NorthWest,
    ];
    let mut offsets: Vec<(isize, isize)> = Vec::new();
    let mut i: usize = 0;
    while i < 8
        invariant
            i <= 8,
            dirs@ == seq![
                DiagDir::North,
                DiagDir::NorthEast,
                DiagDir::East,
                DiagDir::SouthEast,
                DiagDir::South,
                DiagDir::SouthWest,
                DiagDir::West,
                DiagDir::NorthWest,
            ],
            offsets@ == diag_offsets().take(i as int),
        decreases 8 - i,
    {
        let d = dirs[i];
        let delta = d.step((0, 0));
        proof {
            assert(diag_delta(d) == (diag_offsets()[i as int].0 as int, diag_offsets()[i as int].1 as int));
        }
        offsets.push(delta);
        i = i + 1;
        proof {
            assert(offsets@ =~= diag_offsets().take(i as int));
        }
    }
    proof {
        assert(offsets@ =~= diag_offsets());
        assert(offsets@[0] != (0isize, 0isize));
    }
    dig_out(input, offsets.as_slice())
}
} // verus!
