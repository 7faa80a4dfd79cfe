//! Runic words hidden in 8x8 grids: each of the sixteen inner cells holds
//! the one symbol its row and its column share.

use vstd::prelude::*;

verus! {

/// The first symbol of `row`, other than `?`, that also occurs in `col`.
pub open spec fn first_shared(row: Seq<char>, col: Seq<char>) -> Option<char>
    decreases row.len(),
{
    if row.len() == 0 {
        None
    } else if row[0] != '?' && col.contains(row[0]) {
        Some(row[0])
    } else {
        first_shared(row.drop_first(), col)
    }
}

/// The symbols around inner row `r` of `grid`: the two leftmost and the two
/// rightmost cells of grid row `2 + r`.
pub open spec fn outer_row(grid: Seq<Seq<char>>, r: int) -> Seq<char> {
    grid[2 + r].subrange(0, 2) + grid[2 + r].subrange(6, 8)
}

/// The symbols around inner column `c` of `grid`: the two top and the two
/// bottom cells of grid column `2 + c`.
pub open spec fn outer_column(grid: Seq<Seq<char>>, c: int) -> Seq<char> {
    seq![grid[0][2 + c], grid[1][2 + c], grid[6][2 + c], grid[7][2 + c]]
}

/// The grid is at least 8x8.
pub open spec fn is_rune_grid(grid: Seq<Seq<char>>) -> bool {
    &&& grid.len() >= 8
    &&& forall|y: int| 0 <= y < grid.len() ==> #[trigger] grid[y].len() >= 8
}

/// Every inner cell of `grid` has a symbol that its row and column share.
pub open spec fn is_solvable(grid: Seq<Seq<char>>) -> bool {
    forall|r: int, c: int|
        0 <= r < 4 && 0 <= c < 4 ==> #[trigger] first_shared(outer_row(grid, r), outer_column(grid, c))
            is Some
}

/// The word read from the inner cells of `grid`, row by row.
pub open spec fn runic_word_of(grid: Seq<Seq<char>>) -> Seq<char> {
    Seq::new(16, |k: int| first_shared(outer_row(grid, k / 4), outer_column(grid, k % 4))->0)
}

/// The rows of `grid` as sequences of symbols.
pub open spec fn grid_view(grid: Seq<Vec<char>>) -> Seq<Seq<char>> {
    grid.map_values(|v: Vec<char>| v@)
}

/// The first symbol of `row`, other than `?`, that also occurs in `col`.
pub fn try_find_shared_symbol(row: &[char], col: &[char]) -> (r: Option<char>)
    ensures
        r == first_shared(row@, col@),
{
    let mut i: usize = 0;
    proof {
        assert(row@.skip(0) =~= row@);
    }
    while i < row.len()
        invariant
            i <= row.len(),
            first_shared(row@.skip(i as int), col@) == first_shared(row@, col@),
        decreases row.len() - i,
    {
        let r = row[i];
        proof {
            assert(row@.skip(i as int)[0] == r);
            assert(row@.skip(i as int).drop_first() =~= row@.skip(i + 1));
        }
        let mut j: usize = 0;
        while j < col.len()
            invariant
                i < row.len(),
                r == row@[i as int],
                row@.skip(i as int)[0] == r,
                first_shared(row@.skip(i as int), col@) == first_shared(row@, col@),
                j <= col.len(),
                forall|k: int| 0 <= k < j ==> !(r != '?' && r == #[trigger] col@[k]),
            decreases col.len() - j,
        {
            let c = col[j];
            if r != '?' && r == c {
                proof {
                    assert(col@[j as int] == r);
                    assert(col@.contains(r));
                }
                return Some(r);
            }
            j = j + 1;
        }
        proof {
            if r != '?' {
                assert(!col@.contains(r));
            }
        }
        i = i + 1;
    }
    proof {
        assert(row@.skip(i as int).len() == 0);
    }
    None
}

/// Relies on `String::push`: appends the character to the end of the string.
#[verifier::external_body]
fn push_char(s: &mut String, c: char)
    ensures
        final(s)@ == old(s)@.push(c),
{
    s.push(c);
}

/// The four symbols around inner row `r`.
fn row_symbols(grid: &[Vec<char>], r: usize) -> (v: Vec<char>)
    requires
        is_rune_grid(grid_view(grid@)),
        r < 4,
    ensures
        v@ == outer_row(grid_view(grid@), r as int),
{
    let ghost g = grid_view(grid@);
    proof {
        assert(g[2 + r as int] == grid@[2 + r as int]@);
    }
    let line = &grid[2 + r];
    let v: Vec<char> = vec![line[0], line[1], line[6], line[7]];
    proof {
        assert(v@ =~= outer_row(g, r as int));
    }
    v
}

/// The four symbols around inner column `c`.
fn column_symbols(grid: &[Vec<char>], c: usize) -> (v: Vec<char>)
    requires
        is_rune_grid(grid_view(grid@)),
        c < 4,
    ensures
        v@ == outer_column(grid_view(grid@), c as int),
{
    let ghost g = grid_view(grid@);
    proof {
        assert(g[0] == grid@[0]@);
        assert(g[1] == grid@[1]@);
        assert(g[6] == grid@[6]@);
        assert(g[7] == grid@[7]@);
    }
    let v: Vec<char> = vec![grid[0][2 + c], grid[1][2 + c], grid[6][2 + c], grid[7][2 + c]];
    proof {
        assert(v@ =~= outer_column(g, c as int));
    }
    v
}

/// The word hidden in the inner cells of `grid`, read row by row.
pub fn runic_word(grid: &[Vec<char>]) -> (w: String)
    requires
        is_rune_grid(grid_view(grid@)),
        is_solvable(grid_view(grid@)),
    ensures
        w@ == runic_word_of(grid_view(grid@)),
{
    let ghost g = grid_view(grid@);
    let mut word = String::new();
    let mut r: usize = 0;
    while r < 4
        invariant
            r <= 4,
            g == grid_view(grid@),
            is_rune_grid(g),
            is_solvable(g),
            word@ == runic_word_of(g).take(4 * r as int),
        decreases 4 - r,
    {
        let row = row_symbols(grid, r);
        let mut c: usize = 0;
        while c < 4
            invariant
                r < 4,
                c <= 4,
                g == grid_view(grid@),
                is_rune_grid(g),
                is_solvable(g),
                row@ == outer_row(g, r as int),
                word@ == runic_word_of(g).take(4 * r + c as int),
            decreases 4 - c,
        {
            let col = column_symbols(grid, c);
            let found = try_find_shared_symbol(&row, &col);
            proof {
                assert(first_shared(outer_row(g, r as int), outer_column(g, c as int)) is Some);
            }
            let symbol = match found {
                Some(s) => s,
                None => ' ',
            };
            push_char(&mut word, symbol);
            proof {
                let k = 4 * r + c as int;
                assert(k / 4 == r as int && k % 4 == c as int);
                assert(word@ =~= runic_word_of(g).take(k + 1));
            }
            c = c + 1;
        }
        r = r + 1;
    }
    proof {
        assert(runic_word_of(g).take(16) =~= runic_word_of(g));
    }
    word
}

/// The power of a word: each letter's place in the alphabet times its
/// position in the word, from one.
pub open spec fn word_power(word: Seq<char>) -> int
    decreases word.len(),
{
    if word.len() == 0 {
        0
    } else {
        word_power(word.drop_last()) + (word.last() as u32 - 64) * word.len()
    }
}

/// The power of `word`.
pub fn runic_word_power(word: &[char]) -> (p: u32)
    requires
        forall|i: int| 0 <= i < word.len() ==> (#[trigger] word@[i] as u32) >= 65,
        word_power(word@) <= u32::MAX,
    ensures
        p == word_power(word@),
{
    let mut total: u32 = 0;
    let mut i: usize = 0;
    while i < word.len()
        invariant
            i <= word.len(),
            forall|k: int| 0 <= k < word.len() ==> (#[trigger] word@[k] as u32) >= 65,
            word_power(word@) <= u32::MAX,
            total == word_power(word@.take(i as int)),
        decreases word.len() - i,
    {
        let c = word[i];
        proof {
            let t = word@.take(i + 1);
            assert(t.drop_last() =~= word@.take(i as int));
            assert(t.last() == c);
            lemma_word_power_grows(word@, i + 1);
        }
        let code = c as u32;
        let base = code - 64;
        proof {
            assert(total + base * (i + 1) <= u32::MAX);
            assert(base * (i + 1) <= u32::MAX && i + 1 <= u32::MAX) by (nonlinear_arith)
                requires
                    total + base * (i + 1) <= u32::MAX,
                    total >= 0,
                    base >= 1,
                    i >= 0,
            ;
        }
        total = total + base * (i as u32 + 1);
        i = i + 1;
    }
    proof {
        assert(word@.take(word.len() as int) =~= word@);
    }
    total
}

proof fn lemma_word_power_grows(word: Seq<char>, k: int)
    requires
        0 <= k <= word.len(),
        forall|i: int| 0 <= i < word.len() ==> (#[trigger] word[i] as u32) >= 65,
    ensures
        0 <= word_power(word.take(k)) <= word_power(word),
    decreases word.len() - k,
{
    if k < word.len() {
        lemma_word_power_grows(word, k + 1);
        assert forall|i: int| 0 <= i < word.take(k).len() implies (#[trigger] word.take(k)[i] as u32)
            >= 65 by {
            assert(word.take(k)[i] == word[i]);
        }
        lemma_word_power_nonneg(word.take(k));
        let t = word.take(k + 1);
        assert(t.drop_last() =~= word.take(k));
        assert(t.last() == word[k]);
        assert((t.last() as u32 - 64) * t.len() >= 0) by (nonlinear_arith)
            requires
                t.last() as u32 >= 65,
        ;
    } else {
        assert(word.take(k) =~= word);
        lemma_word_power_nonneg(word);
    }
}

proof fn lemma_word_power_nonneg(word: Seq<char>)
    requires
        forall|i: int| 0 <= i < word.len() ==> (#[trigger] word[i] as u32) >= 65,
    ensures
        word_power(word) >= 0,
    decreases word.len(),
{
    if word.len() > 0 {
        lemma_word_power_nonneg(word.drop_last());
        assert((word.last() as u32 - 64) * word.len() >= 0) by (nonlinear_arith)
            requires
                word.last() as u32 >= 65,
        ;
    }
}


/// The powers of the words of the grids `grids`, summed.
pub open spec fn total_power(grids: Seq<Seq<Seq<char>>>) -> int
    decreases grids.len(),
{
    if grids.len() == 0 {
        0
    } else {
        total_power(grids.drop_last()) + word_power(runic_word_of(grids.last()))
    }
}

/// Each grid is solvable, and its word is made of letters from `A` on.
pub open spec fn grids_solvable(grids: Seq<Seq<Seq<char>>>) -> bool {
    forall|i: int|
        0 <= i < grids.len() ==> is_rune_grid(#[trigger] grids[i]) && is_solvable(grids[i])
            && forall|k: int| 0 <= k < 16 ==> (runic_word_of(grids[i])[k] as u32) >= 65
}

/// The grids as sequences of rows of symbols.
pub open spec fn grids_view(grids: Seq<Vec<Vec<char>>>) -> Seq<Seq<Seq<char>>> {
    grids.map_values(|g: Vec<Vec<char>>| grid_view(g@))
}

proof fn lemma_total_power_grows(grids: Seq<Seq<Seq<char>>>, k: int)
    requires
        0 <= k <= grids.len(),
        grids_solvable(grids),
    ensures
        0 <= total_power(grids.take(k)) <= total_power(grids),
    decreases grids.len() - k,
{
    if k < grids.len() {
        lemma_total_power_grows(grids, k + 1);
        let t = grids.take(k + 1);
        assert(t.drop_last() =~= grids.take(k));
        assert(t.last() == grids[k]);
        let w = runic_word_of(grids[k]);
        assert(is_rune_grid(grids[k]));
        assert forall|i: int| 0 <= i < w.len() implies (#[trigger] w[i] as u32) >= 65 by {}
        lemma_word_power_nonneg(w);
        assert(grids_solvable(grids.take(k))) by {
            assert forall|i: int| 0 <= i < grids.take(k).len() implies #[trigger] grids.take(k)[i]
                == grids[i] by {}
        }
        lemma_total_power_nonneg(grids.take(k));
    } else {
        assert(grids.take(k) =~= grids);
        lemma_total_power_nonneg(grids);
    }
}

proof fn lemma_total_power_nonneg(grids: Seq<Seq<Seq<char>>>)
    requires
        grids_solvable(grids),
    ensures
        total_power(grids) >= 0,
    decreases grids.len(),
{
    if grids.len() > 0 {
        assert(grids_solvable(grids.drop_last())) by {
            assert forall|i: int| 0 <= i < grids.drop_last().len() implies #[trigger] grids.drop_last()[i]
                == grids[i] by {}
        }
        lemma_total_power_nonneg(grids.drop_last());
        let w = runic_word_of(grids.last());
        assert(is_rune_grid(grids[grids.len() - 1]));
        assert forall|i: int| 0 <= i < w.len() implies (#[trigger] w[i] as u32) >= 65 by {}
        lemma_word_power_nonneg(w);
    }
}

/// The powers of the words hidden in `grids`, summed.
pub fn part2(grids: &[Vec<Vec<char>>]) -> (r: u32)
    requires
        grids_solvable(grids_view(grids@)),
        total_power(grids_view(grids@)) <= u32::MAX,
    ensures
        r == total_power(grids_view(grids@)),
{
    let ghost gs = grids_view(grids@);
    let mut total: u32 = 0;
    let mut i: usize = 0;
    while i < grids.len()
        invariant
            gs == grids_view(grids@),
            grids_solvable(gs),
            total_power(gs) <= u32::MAX,
            i <= grids.len(),
            total == total_power(gs.take(i as int)),
        decreases grids.len() - i,
    {
        let grid = grids[i].as_slice();
        proof {
            assert(gs[i as int] == grid_view(grid@));
            assert(gs.take(i + 1).drop_last() =~= gs.take(i as int));
            assert(gs.take(i + 1).last() == gs[i as int]);
            lemma_total_power_grows(gs, i + 1);
            lemma_total_power_grows(gs, i as int);
        }
        let word = runic_word(grid);
        let letters = chars_of(&word);
        proof {
            assert(letters@.len() == 16);
            assert forall|k: int| 0 <= k < letters@.len() implies (#[trigger] letters@[k] as u32) >= 65 by {
                assert(letters@[k] == runic_word_of(gs[i as int])[k]);
            }
        }
        let power = runic_word_power(letters.as_slice());
        total = total + power;
        i = i + 1;
    }
    proof {
        assert(gs.take(gs.len() as int) =~= gs);
    }
    total
}

/// Relies on `str::chars`, collected: the characters of the string, in order.
#[verifier::external_body]
fn chars_of(s: &String) -> (r: Vec<char>)
    ensures
        r@ == s@,
{
    s.chars().collect()
}

/// A wall of overlapping 8x8 rune grids, each six cells from the next.
pub struct Wall {
    pub grid: Vec<Vec<char>>,
    pub width_blocks: usize,
    pub height_blocks: usize,
}

/// The eight cells `line[from..from + 8]`.
fn eight_cells(line: &Vec<char>, from: usize) -> (r: Vec<char>)
    requires
        from + 8 <= line@.len(),
    ensures
        r@ == line@.subrange(from as int, from + 8),
{
    let len = line.len();
    let end = from + 8;
    let mut row: Vec<char> = Vec::new();
    let mut c: usize = from;
    while c < end
        invariant
            end == from + 8,
            from + 8 <= line@.len(),
            from <= c <= from + 8,
            row@ == line@.subrange(from as int, c as int),
        decreases from + 8 - c,
    {
        row.push(line[c]);
        c = c + 1;
        proof {
            assert(row@ =~= line@.subrange(from as int, c as int));
        }
    }
    row
}

impl Wall {
    /// The 8x8 grid whose top-left cell is `(6 * x, 6 * y)`.
    pub fn get_grid_at(&self, x: usize, y: usize) -> (r: Vec<Vec<char>>)
        requires
            6 * y + 8 <= self.grid@.len(),
            forall|row: int| 6 * y <= row < 6 * y + 8 ==> (#[trigger] self.grid@[row])@.len() >= 6 * x + 8,
        ensures
            r@.len() == 8,
            forall|i: int| 0 <= i < 8 ==> (#[trigger] r@[i])@.len() == 8,
            forall|i: int, j: int|
                0 <= i < 8 && 0 <= j < 8 ==> #[trigger] r@[i]@[j] == self.grid@[6 * y + i]@[6 * x + j],
    {
        let n = self.grid.len();
        let base_row = y * 6;
        let w = self.grid[base_row].len();
        let base_col = x * 6;
        let row_end = base_row + 8;
        let mut out: Vec<Vec<char>> = Vec::new();
        let mut r: usize = base_row;
        while r < row_end
            invariant
                row_end == base_row + 8,
                base_row == 6 * y,
                base_col == 6 * x,
                6 * y + 8 <= self.grid@.len(),
                forall|row: int| 6 * y <= row < 6 * y + 8 ==> (#[trigger] self.grid@[row])@.len() >= 6 * x + 8,
                base_row <= r <= base_row + 8,
                out@.len() == r - base_row,
                forall|i: int| 0 <= i < out@.len() ==> (#[trigger] out@[i])@.len() == 8,
                forall|i: int, j: int|
                    0 <= i < out@.len() && 0 <= j < 8 ==> #[trigger] out@[i]@[j] == self.grid@[6 * y
                        + i]@[6 * x + j],
            decreases base_row + 8 - r,
        {
            let line = &self.grid[r];
            let row = eight_cells(line, base_col);
            let ghost before = out@;
            out.push(row);
            proof {
                assert forall|i: int| 0 <= i < out@.len() implies (#[trigger] out@[i])@.len() == 8 by {
                    if i < before.len() {
                        assert(out@[i] == before[i]);
                    }
                }
                assert forall|i: int, j: int|
                    0 <= i < out@.len() && 0 <= j < 8 implies #[trigger] out@[i]@[j]
                    == self.grid@[6 * y + i]@[6 * x + j] by {
                    if i < before.len() {
                        assert(out@[i] == before[i]);
                        assert(before[i]@[j] == self.grid@[6 * y + i]@[6 * x + j]);
                    } else {
                        assert(i == r - 6 * y);
                        assert(out@[i] == row);
                        assert(row@.len() == 8);
                        assert(*line == self.grid@[r as int]);
                        assert(row@[j] == line@[6 * x + j]);
                        assert(out@[i]@[j] == row@[j]);
                    }
                }
            }
            r = r + 1;
        }
        out
    }
}
} // verus!
