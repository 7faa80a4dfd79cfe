//! Runic words in an inscription: where each word occurs, how often, and
//! which symbols belong to some word read either way.

use vstd::prelude::*;
use vstd::arithmetic::div_mod::{lemma_fundamental_div_mod, lemma_mod_multiples_vanish, lemma_small_mod};
use crate::grid::{OrthoDir, ortho_at, ortho_delta};
use crate::text::{fields, fields_view, split_fields};

verus! {

/// `needle` occurs in `hay` at index `i`.
pub open spec fn occurs_at(hay: Seq<u8>, needle: Seq<u8>, i: int) -> bool {
    0 <= i && i + needle.len() <= hay.len() && hay.subrange(i, i + needle.len()) == needle
}

/// The indices from `k` on at which `needle` occurs in `hay`, in order,
/// overlapping ones included.
pub open spec fn occurrences_from(hay: Seq<u8>, needle: Seq<u8>, k: int) -> Seq<int>
    decreases hay.len() + 1 - k,
{
    if k < 0 || k + needle.len() > hay.len() {
        Seq::empty()
    } else {
        (if occurs_at(hay, needle, k) {
            seq![k]
        } else {
            Seq::empty()
        }) + occurrences_from(hay, needle, k + 1)
    }
}

/// The occurrences of each word of `words` in `hay`, counted.
pub open spec fn total_occurrences(words: Seq<Seq<u8>>, hay: Seq<u8>) -> int
    decreases words.len(),
{
    if words.len() == 0 {
        0
    } else {
        occurrences_from(hay, words[0], 0).len() + total_occurrences(words.drop_first(), hay)
    }
}

/// Index `p` of `hay` lies within an occurrence of `needle`.
pub open spec fn covered_by(hay: Seq<u8>, needle: Seq<u8>, p: int) -> bool {
    exists|i: int| occurs_at(hay, needle, i) && i <= p < i + needle.len()
}

/// Index `p` of `hay` lies within an occurrence of one of the first `k`
/// words of `words`, read forwards or backwards.
pub open spec fn covered_by_words(words: Seq<Seq<u8>>, k: int, hay: Seq<u8>, p: int) -> bool {
    exists|w: int|
        0 <= w < k && (covered_by(hay, words[w], p) || covered_by(hay, words[w].reverse(), p))
}

/// The number of indices below `k` at which `marks` is true.
pub open spec fn count_true(marks: Seq<bool>, k: int) -> int
    decreases k,
{
    if k <= 0 {
        0
    } else {
        count_true(marks, k - 1) + if marks[k - 1] {
            1int
        } else {
            0int
        }
    }
}

/// The words as sequences of bytes.
pub open spec fn words_view(words: Seq<Vec<u8>>) -> Seq<Seq<u8>> {
    words.map_values(|w: Vec<u8>| w@)
}

proof fn lemma_occurrences_from(hay: Seq<u8>, needle: Seq<u8>, k: int)
    requires
        0 <= k,
    ensures
        forall|i: int|
            #![trigger occurs_at(hay, needle, i)]
            k <= i ==> (occurrences_from(hay, needle, k).contains(i) <==> occurs_at(hay, needle, i)),
        forall|j: int|
            0 <= j < occurrences_from(hay, needle, k).len() ==> k <= #[trigger] occurrences_from(
                hay,
                needle,
                k,
            )[j],
        occurrences_from(hay, needle, k).len() <= if hay.len() >= k { hay.len() - k + 1 } else { 0 },
    decreases hay.len() + 1 - k,
{
    if k + needle.len() <= hay.len() {
        lemma_occurrences_from(hay, needle, k + 1);
        let head: Seq<int> = if occurs_at(hay, needle, k) {
            seq![k]
        } else {
            Seq::empty()
        };
        let rest = occurrences_from(hay, needle, k + 1);
        assert forall|i: int| #![trigger occurs_at(hay, needle, i)] k <= i implies (
        occurrences_from(hay, needle, k).contains(i) <==> occurs_at(hay, needle, i)) by {
            if occurrences_from(hay, needle, k).contains(i) {
                let j = choose|j: int|
                    0 <= j < (head + rest).len() && (head + rest)[j] == i;
                if j >= head.len() {
                    assert(rest[j - head.len()] == i);
                }
            }
            if occurs_at(hay, needle, i) {
                if i == k {
                    assert((head + rest)[0] == i);
                } else {
                    assert(rest.contains(i));
                    let j = choose|j: int| 0 <= j < rest.len() && rest[j] == i;
                    assert((head + rest)[head.len() + j] == i);
                }
            }
        }
        assert forall|j: int| 0 <= j < (head + rest).len() implies k <= #[trigger] (head + rest)[j] by {
            if j >= head.len() {
                assert((head + rest)[j] == rest[j - head.len()]);
            }
        }
    } else {
        assert forall|i: int| #![trigger occurs_at(hay, needle, i)] k <= i implies !occurs_at(
            hay,
            needle,
            i,
        ) by {}
    }
}

/// Whether `needle` occurs in `hay` at index `i`.
fn matches_at(hay: &[u8], needle: &[u8], i: usize) -> (r: bool)
    requires
        i + needle.len() <= hay.len(),
    ensures
        r == occurs_at(hay@, needle@, i as int),
{
    let mut j: usize = 0;
    while j < needle.len()
        invariant
            i + needle.len() <= hay.len(),
            j <= needle.len(),
            forall|k: int| 0 <= k < j ==> hay@[i + k] == needle@[k],
        decreases needle.len() - j,
    {
        if hay[i + j] != needle[j] {
            proof {
                assert(hay@.subrange(i as int, i + needle.len())[j as int] != needle@[j as int]);
            }
            return false;
        }
        j = j + 1;
    }
    proof {
        assert(hay@.subrange(i as int, i + needle.len()) =~= needle@);
    }
    true
}

/// The indices at which `needle` occurs in `haystack`, in order, overlapping
/// occurrences included.
pub fn matches_overlapping(needle: &[u8], haystack: &[u8]) -> (r: Vec<usize>)
    requires
        needle.len() >= 1,
    ensures
        r@.len() == occurrences_from(haystack@, needle@, 0).len(),
        forall|j: int|
            0 <= j < r@.len() ==> r@[j] as int == #[trigger] occurrences_from(
                haystack@,
                needle@,
                0,
            )[j],
{
    let ghost all = occurrences_from(haystack@, needle@, 0);
    let mut found: Vec<usize> = Vec::new();
    if needle.len() > haystack.len() {
        return found;
    }
    let last = haystack.len() - needle.len();
    let mut i: usize = 0;
    while i <= last
        invariant
            needle.len() >= 1,
            last + needle.len() == haystack.len(),
            i <= last + 1,
            found@.len() + occurrences_from(haystack@, needle@, i as int).len() == all.len(),
            all == occurrences_from(haystack@, needle@, 0),
            forall|j: int|
                0 <= j < found@.len() ==> found@[j] as int == #[trigger] all[j],
            found@.len() <= i,
            forall|j: int|
                0 <= j < occurrences_from(haystack@, needle@, i as int).len() ==> all[found@.len()
                    + j] == #[trigger] occurrences_from(haystack@, needle@, i as int)[j],
        decreases last + 1 - i,
    {
        let ghost rest = occurrences_from(haystack@, needle@, i as int);
        let ghost next = occurrences_from(haystack@, needle@, i + 1);
        if matches_at(haystack, needle, i) {
            proof {
                assert(rest =~= seq![i as int] + next);
                assert(rest[0] == i);
                assert(all[found@.len() + 0int] == rest[0]);
            }
            found.push(i);
            proof {
                assert forall|j: int| 0 <= j < next.len() implies all[found@.len() + j]
                    == #[trigger] next[j] by {
                    assert(rest[1 + j] == next[j]);
                }
            }
        } else {
            proof {
                assert(rest =~= next);
            }
        }
        i = i + 1;
    }
    proof {
        assert(occurrences_from(haystack@, needle@, i as int).len() == 0);
    }
    found
}


/// The number of indices of `hay` that lie within an occurrence of a word
/// of `words` read forwards or backwards.
pub open spec fn covered_count(words: Seq<Seq<u8>>, hay: Seq<u8>) -> int {
    count_true(
        Seq::new(hay.len(), |p: int| covered_by_words(words, words.len() as int, hay, p)),
        hay.len() as int,
    )
}

/// The occurrences of each word of `words` in `haystack`, counted.
pub fn part1(words: &[Vec<u8>], haystack: &[u8]) -> (r: usize)
    requires
        forall|w: int| 0 <= w < words.len() ==> (#[trigger] words@[w])@.len() >= 1,
        total_occurrences(words_view(words@), haystack@) <= usize::MAX,
    ensures
        r == total_occurrences(words_view(words@), haystack@),
{
    let ghost ws = words_view(words@);
    let mut total: usize = 0;
    let mut w: usize = 0;
    proof {
        assert(ws.skip(0) =~= ws);
    }
    while w < words.len()
        invariant
            ws == words_view(words@),
            forall|k: int| 0 <= k < words.len() ==> (#[trigger] words@[k])@.len() >= 1,
            total_occurrences(ws, haystack@) <= usize::MAX,
            w <= words.len(),
            total + total_occurrences(ws.skip(w as int), haystack@) == total_occurrences(
                ws,
                haystack@,
            ),
        decreases words.len() - w,
    {
        let found = matches_overlapping(words[w].as_slice(), haystack);
        proof {
            assert(ws.skip(w as int).drop_first() =~= ws.skip(w + 1));
            assert(ws.skip(w as int)[0] == words@[w as int]@);
            lemma_total_occurrences_nonneg(ws.skip(w + 1), haystack@);
        }
        total = total + found.len();
        w = w + 1;
    }
    total
}

proof fn lemma_total_occurrences_nonneg(words: Seq<Seq<u8>>, hay: Seq<u8>)
    ensures
        total_occurrences(words, hay) >= 0,
    decreases words.len(),
{
    if words.len() > 0 {
        lemma_total_occurrences_nonneg(words.drop_first(), hay);
    }
}

/// `w` backwards.
fn reversed(w: &[u8]) -> (r: Vec<u8>)
    ensures
        r@ == w@.reverse(),
{
    let mut r: Vec<u8> = Vec::new();
    let mut i = w.len();
    while i > 0
        invariant
            i <= w.len(),
            r@.len() == w.len() - i,
            forall|k: int| 0 <= k < r@.len() ==> r@[k] == w@[w.len() - 1 - k],
        decreases i,
    {
        i = i - 1;
        r.push(w[i]);
    }
    proof {
        assert(r@ =~= w@.reverse());
    }
    r
}

/// Marks every index of `haystack` within an occurrence of `needle`.
fn mark_matches(marked: &mut Vec<bool>, needle: &[u8], haystack: &[u8])
    requires
        old(marked)@.len() == haystack.len(),
        needle.len() >= 1,
    ensures
        final(marked)@.len() == haystack.len(),
        forall|p: int|
            0 <= p < haystack.len() ==> #[trigger] final(marked)@[p] == (old(marked)@[p]
                || covered_by(haystack@, needle@, p)),
{
    let ghost before = marked@;
    let ghost all = occurrences_from(haystack@, needle@, 0);
    let found = matches_overlapping(needle, haystack);
    proof {
        lemma_occurrences_from(haystack@, needle@, 0);
    }
    let mut j: usize = 0;
    while j < found.len()
        invariant
            marked@.len() == haystack.len(),
            found@.len() == all.len(),
            forall|k: int| 0 <= k < found@.len() ==> found@[k] as int == #[trigger] all[k],
            forall|k: int| 0 <= k < all.len() ==> occurs_at(haystack@, needle@, #[trigger] all[k]),
            j <= found.len(),
            forall|p: int|
                0 <= p < haystack.len() ==> #[trigger] marked@[p] == (before[p] || exists|k: int|
                    0 <= k < j && #[trigger] all[k] <= p < all[k] + needle.len()),
        decreases found.len() - j,
    {
        let i = found[j];
        proof {
            assert(occurs_at(haystack@, needle@, all[j as int]));
        }
        let mut q = i;
        while q < i + needle.len()
            invariant
                marked@.len() == haystack.len(),
                i as int == all[j as int],
                i + needle.len() <= haystack.len(),
                i <= q <= i + needle.len(),
                j < found.len(),
                forall|p: int|
                    0 <= p < haystack.len() ==> #[trigger] marked@[p] == (before[p] || (exists|k: int|
                        0 <= k < j && #[trigger] all[k] <= p < all[k] + needle.len()) || (i <= p < q)),
            decreases i + needle.len() - q,
        {
            marked.set(q, true);
            q = q + 1;
        }
        proof {
            assert forall|p: int| 0 <= p < haystack.len() implies #[trigger] marked@[p] == (before[p]
                || exists|k: int| 0 <= k < j + 1 && #[trigger] all[k] <= p < all[k] + needle.len()) by {
                if i <= p < i + needle.len() {
                    assert(all[j as int] <= p < all[j as int] + needle.len());
                }
                if exists|k: int| 0 <= k < j + 1 && #[trigger] all[k] <= p < all[k] + needle.len() {
                    let k = choose|k: int| 0 <= k < j + 1 && #[trigger] all[k] <= p < all[k] + needle.len();
                    if k < j {
                    }
                }
            }
        }
        j = j + 1;
    }
    proof {
        assert forall|p: int| 0 <= p < haystack.len() implies #[trigger] marked@[p] == (before[p]
            || covered_by(haystack@, needle@, p)) by {
            if exists|k: int| 0 <= k < j && #[trigger] all[k] <= p < all[k] + needle.len() {
                let k = choose|k: int| 0 <= k < j && #[trigger] all[k] <= p < all[k] + needle.len();
                assert(occurs_at(haystack@, needle@, all[k]));
            }
            if covered_by(haystack@, needle@, p) {
                let i = choose|i: int| occurs_at(haystack@, needle@, i) && i <= p < i + needle.len();
                assert(all.contains(i));
                let k = choose|k: int| 0 <= k < all.len() && all[k] == i;
                assert(0 <= k < j && #[trigger] all[k] <= p < all[k] + needle.len());
            }
        }
    }
}

/// The number of symbols of `haystack` that belong to an occurrence of a
/// word of `words`, read forwards or backwards.
pub fn part2(words: &[Vec<u8>], haystack: &[u8]) -> (r: usize)
    requires
        forall|w: int| 0 <= w < words.len() ==> (#[trigger] words@[w])@.len() >= 1,
    ensures
        r == covered_count(words_view(words@), haystack@),
{
    let ghost ws = words_view(words@);
    let mut marked: Vec<bool> = Vec::new();
    while marked.len() < haystack.len()
        invariant
            marked@.len() <= haystack.len(),
            forall|p: int| 0 <= p < marked@.len() ==> !#[trigger] marked@[p],
        decreases haystack.len() - marked@.len(),
    {
        marked.push(false);
    }
    let mut w: usize = 0;
    while w < words.len()
        invariant
            ws == words_view(words@),
            forall|k: int| 0 <= k < words.len() ==> (#[trigger] words@[k])@.len() >= 1,
            w <= words.len(),
            marked@.len() == haystack.len(),
            forall|p: int|
                0 <= p < haystack.len() ==> #[trigger] marked@[p] == covered_by_words(
                    ws,
                    w as int,
                    haystack@,
                    p,
                ),
        decreases words.len() - w,
    {
        let ghost before = marked@;
        let word = words[w].as_slice();
        proof {
            assert(ws[w as int] == words@[w as int]@);
        }
        mark_matches(&mut marked, word, haystack);
        let backwards = reversed(word);
        mark_matches(&mut marked, backwards.as_slice(), haystack);
        proof {
            assert forall|p: int| 0 <= p < haystack.len() implies #[trigger] marked@[p]
                == covered_by_words(ws, w + 1, haystack@, p) by {
                if covered_by_words(ws, w + 1, haystack@, p) {
                    let k = choose|k: int|
                        0 <= k < w + 1 && (covered_by(haystack@, ws[k], p) || covered_by(
                            haystack@,
                            ws[k].reverse(),
                            p,
                        ));
                    if k < w {
                        assert(covered_by_words(ws, w as int, haystack@, p));
                    }
                }
                if covered_by_words(ws, w as int, haystack@, p) {
                    let k = choose|k: int|
                        0 <= k < w && (covered_by(haystack@, ws[k], p) || covered_by(
                            haystack@,
                            ws[k].reverse(),
                            p,
                        ));
                    assert(0 <= k < w + 1);
                }
            }
        }
        w = w + 1;
    }
    let ghost marks = Seq::new(
        haystack@.len(),
        |p: int| covered_by_words(ws, words@.len() as int, haystack@, p),
    );
    proof {
        assert(marked@ =~= marks);
    }
    let mut count: usize = 0;
    let mut p: usize = 0;
    while p < haystack.len()
        invariant
            p <= haystack.len(),
            marked@ == marks,
            marks.len() == haystack.len(),
            count == count_true(marks, p as int),
            count <= p,
        decreases haystack.len() - p,
    {
        if marked[p] {
            count = count + 1;
        }
        p = p + 1;
    }
    count
}

/// A word-search grid whose rows wrap around from right to left.
pub struct WordSearch {
    width: usize,
    height: usize,
    grid: Vec<Vec<u8>>,
}

/// `x` wrapped into the columns `0..w`.
pub open spec fn wrap_x(x: int, w: int) -> int {
    x % w
}

/// The symbol at `pos` of the rows `g`, whose columns wrap at `w`, if there is one.
pub open spec fn cell(g: Seq<Seq<u8>>, w: int, pos: (int, int)) -> Option<u8> {
    let x = wrap_x(pos.0, w);
    if pos.1 < 0 || pos.1 >= g.len() || x >= g[pos.1].len() {
        None
    } else {
        Some(g[pos.1][x])
    }
}

/// The position `k` steps from `start` in direction `d`, before wrapping.
pub open spec fn walk(start: (isize, isize), d: OrthoDir, k: int) -> (int, int) {
    (start.0 + k * ortho_delta(d).0, start.1 + k * ortho_delta(d).1)
}

proof fn lemma_wrap_step(x: int, d: int, w: int)
    requires
        w >= 1,
    ensures
        (x % w + d) % w == (x + d) % w,
        0 <= x % w < w,
{
    lemma_fundamental_div_mod(x, w);
    lemma_mod_multiples_vanish(x / w, x % w + d, w);
    assert(w * (x / w) + (x % w + d) == x + d);
}

impl WordSearch {
    /// The rows of symbols.
    pub closed spec fn rows(&self) -> Seq<Seq<u8>> {
        fields_view(self.grid@)
    }

    /// The width: the length of the first row.
    pub closed spec fn spec_width(&self) -> int {
        self.width as int
    }

    /// The number of rows.
    pub closed spec fn spec_height(&self) -> int {
        self.height as int
    }

    pub closed spec fn wf(&self) -> bool {
        &&& self.grid@.len() >= 1
        &&& self.height == self.grid@.len()
        &&& self.width == self.grid@[0]@.len()
        &&& self.width <= isize::MAX
        &&& self.height <= isize::MAX
    }

    /// The grid whose rows are the lines of `haystack`.
    pub fn new(haystack: &[u8]) -> (r: Self)
        requires
            fields(haystack@, 10)[0].len() <= isize::MAX,
            fields(haystack@, 10).len() <= isize::MAX,
        ensures
            r.wf(),
            r.rows() == fields(haystack@, 10),
            r.spec_width() == fields(haystack@, 10)[0].len(),
            r.spec_height() == fields(haystack@, 10).len(),
    {
        let grid = split_fields(haystack, 10);
        proof {
            lemma_fields_nonempty(haystack@, 10);
            assert(fields_view(grid@)[0] == grid@[0]@);
        }
        let width = grid[0].len();
        let height = grid.len();
        WordSearch { width, height, grid }
    }

    /// `coords` with its column wrapped into the grid's width.
    pub fn wrap_coords(&self, coords: (isize, isize)) -> (r: (isize, isize))
        requires
            self.wf(),
            self.spec_width() >= 1,
        ensures
            r.0 == wrap_x(coords.0 as int, self.spec_width()),
            r.1 == coords.1,
    {
        let w = self.width as isize;
        let x = coords.0;
        if x >= 0 {
            (x % w, coords.1)
        } else {
            let back = -(x + 1);
            let r0 = back % w;
            proof {
                let q = (back as int) / (w as int);
                lemma_fundamental_div_mod(back as int, w as int);
                lemma_mod_multiples_vanish(q + 1, x as int, w as int);
                assert((w * (q + 1) + x) == w - 1 - r0) by (nonlinear_arith)
                    requires
                        back == w * q + r0,
                        back == -(x + 1),
                ;
                lemma_small_mod((w - 1 - r0) as nat, w as nat);
            }
            (w - 1 - r0, coords.1)
        }
    }

    /// The symbol at `coords`, the column wrapped, if the row has one there.
    pub fn get(&self, coords: (isize, isize)) -> (r: Option<u8>)
        requires
            self.wf(),
            self.spec_width() >= 1,
        ensures
            r == cell(self.rows(), self.spec_width(), (coords.0 as int, coords.1 as int)),
    {
        let (x, y) = self.wrap_coords(coords);
        if y < 0 {
            None
        } else if (y as usize) < self.grid.len() {
            let line = &self.grid[y as usize];
            proof {
                assert(self.rows()[y as int] == self.grid@[y as int]@);
            }
            if (x as usize) < line.len() {
                Some(line[x as usize])
            } else {
                None
            }
        } else {
            None
        }
    }

    /// Up to `len` symbols read from `start` in direction `dir`, stopping at
    /// the first position without one, with the (wrapped) position of each.
    pub fn get_word(&self, start: (isize, isize), dir: OrthoDir, len: usize) -> (r: (
        Vec<u8>,
        Vec<(isize, isize)>,
    ))
        requires
            self.wf(),
            self.spec_width() >= 1,
        ensures
            r.0@.len() == r.1@.len(),
            r.0@.len() <= len,
            forall|k: int|
                0 <= k < r.0@.len() ==> cell(self.rows(), self.spec_width(), walk(start, dir, k))
                    == Some(#[trigger] r.0@[k]),
            forall|k: int|
                0 <= k < r.1@.len() ==> (#[trigger] r.1@[k]).0 == wrap_x(
                    walk(start, dir, k).0,
                    self.spec_width(),
                ) && r.1@[k].1 == walk(start, dir, k).1,
            r.0@.len() < len ==> cell(
                self.rows(),
                self.spec_width(),
                walk(start, dir, r.0@.len() as int),
            ) is None,
    {
        let ghost w = self.spec_width();
        let mut coords = start;
        let mut word: Vec<u8> = Vec::new();
        let mut word_chars: Vec<(isize, isize)> = Vec::new();
        let mut i: usize = 0;
        while i < len
            invariant_except_break
                self.wf(),
                w == self.spec_width(),
                w >= 1,
                i <= len,
                word@.len() == i,
                word_chars@.len() == i,
                (coords.0 as int) % w == walk(start, dir, i as int).0 % w,
                coords.1 == walk(start, dir, i as int).1,
                forall|k: int|
                    0 <= k < i ==> cell(self.rows(), w, walk(start, dir, k)) == Some(
                        #[trigger] word@[k],
                    ),
                forall|k: int|
                    0 <= k < i ==> (#[trigger] word_chars@[k]).0 == wrap_x(
                        walk(start, dir, k).0,
                        w,
                    ) && word_chars@[k].1 == walk(start, dir, k).1,
            ensures
                word@.len() == word_chars@.len(),
                word@.len() <= len,
                forall|k: int|
                    0 <= k < word@.len() ==> cell(self.rows(), w, walk(start, dir, k)) == Some(
                        #[trigger] word@[k],
                    ),
                forall|k: int|
                    0 <= k < word_chars@.len() ==> (#[trigger] word_chars@[k]).0 == wrap_x(
                        walk(start, dir, k).0,
                        w,
                    ) && word_chars@[k].1 == walk(start, dir, k).1,
                word@.len() < len ==> cell(self.rows(), w, walk(start, dir, word@.len() as int))
                    is None,
            decreases len - i,
        {
            proof {
                lemma_wrap_step(coords.0 as int, 0, w);
            }
            coords = self.wrap_coords(coords);
            let found = self.get(coords);
            proof {
                assert(cell(self.rows(), w, (coords.0 as int, coords.1 as int)) == cell(
                    self.rows(),
                    w,
                    walk(start, dir, i as int),
                ));
            }
            let symbol = match found {
                Some(c) => c,
                None => {
                    break;
                },
            };
            word.push(symbol);
            word_chars.push(coords);
            proof {
                assert(0 <= coords.1 < self.spec_height());
                lemma_wrap_step(coords.0 as int, ortho_delta(dir).0, w);
                lemma_wrap_step(walk(start, dir, i as int).0, ortho_delta(dir).0, w);
                assert(walk(start, dir, i + 1) == (walk(start, dir, i as int).0 + ortho_delta(dir).0,
                    walk(start, dir, i as int).1 + ortho_delta(dir).1)) by (nonlinear_arith);
            }
            coords = dir.step(coords);
            i = i + 1;
        }
        (word, word_chars)
    }

    /// Every position of the grid, row by row.
    pub fn all_coords(&self) -> (r: Vec<(isize, isize)>)
        requires
            self.wf(),
            self.spec_width() * self.spec_height() <= usize::MAX,
        ensures
            r@.len() == self.spec_width() * self.spec_height(),
            forall|k: int|
                0 <= k < r@.len() ==> (#[trigger] r@[k]).0 as int == k % self.spec_width() && r@[k].1
                    as int == k / self.spec_width(),
    {
        let mut out: Vec<(isize, isize)> = Vec::new();
        let ghost w = self.spec_width();
        let mut y: usize = 0;
        while y < self.height
            invariant
                self.wf(),
                w == self.spec_width(),
                w * self.spec_height() <= usize::MAX,
                y <= self.height,
                out@.len() == y * w,
                forall|k: int|
                    0 <= k < out@.len() ==> (#[trigger] out@[k]).0 as int == k % w && out@[k].1 as int
                        == k / w,
            decreases self.height - y,
        {
            let mut x: usize = 0;
            while x < self.width
                invariant
                    self.wf(),
                    w == self.spec_width(),
                    w * self.spec_height() <= usize::MAX,
                    y < self.height,
                    x <= self.width,
                    out@.len() == y * w + x,
                    forall|k: int|
                        0 <= k < out@.len() ==> (#[trigger] out@[k]).0 as int == k % w && out@[k].1 as int
                        == k / w,
                decreases self.width - x,
            {
                proof {
                    let k = y * w + x;
                    assert(k % w == x && k / w == y) by (nonlinear_arith)
                        requires
                            k == y * w + x,
                            0 <= x < w,
                            0 <= y,
                    ;
                }
                out.push((x as isize, y as isize));
                x = x + 1;
            }
            proof {
                assert(y * w + w == (y + 1) * w) by (nonlinear_arith);
            }
            y = y + 1;
        }
        proof {
            assert(y * w == w * self.spec_height()) by (nonlinear_arith)
                requires
                    y == self.spec_height(),
            ;
        }
        out
    }
}

/// Splitting gives at least one field.
pub proof fn lemma_fields_nonempty(s: Seq<u8>, sep: u8)
    ensures
        fields(s, sep).len() >= 1,
    decreases s.len(),
{
    let p = crate::text::index_of(s, sep);
    if p < s.len() {
        lemma_fields_nonempty(s.skip(p + 1 as int), sep);
    }
}

/// Reading `needle` from `start` in direction `d` spells it out.
pub open spec fn spells(g: Seq<Seq<u8>>, w: int, start: (isize, isize), d: OrthoDir, needle: Seq<u8>) -> bool {
    forall|k: int| 0 <= k < needle.len() ==> cell(g, w, walk(start, d, k)) == Some(#[trigger] needle[k])
}

/// Attempt `t` of the search, for a grid of `wh` cells and width `w`: word
/// `t / (4 * wh)`, from cell `(t / 4) % wh`, in direction `t % 4`, spells
/// its word through cell `c` (`c % w` across, `c / w` down).
pub open spec fn hit_at(words: Seq<Seq<u8>>, g: Seq<Seq<u8>>, w: int, wh: int, t: int, c: int) -> bool {
    let needle = words[t / (4 * wh)];
    let si = (t / 4) % wh;
    let start = ((si % w) as isize, (si / w) as isize);
    let d = ortho_at((t % 4) as nat);
    &&& spells(g, w, start, d, needle)
    &&& exists|k: int|
        0 <= k < needle.len() && wrap_x(walk(start, d, k).0, w) == c % w && #[trigger] walk(
            start,
            d,
            k,
        ).1 == c / w
}

/// The number of cells of a grid with rows `g`, width `w` and height `h`
/// through which one of `words` is spelled in one of the four directions.
pub open spec fn spelled_cells(words: Seq<Seq<u8>>, g: Seq<Seq<u8>>, w: int, h: int) -> int {
    count_true(
        Seq::new(
            (w * h) as nat,
            |c: int| exists|t: int| 0 <= t < 4 * (w * h) * words.len() && #[trigger] hit_at(words, g, w, w * h, t, c),
        ),
        w * h,
    )
}

/// Whether `a` and `b` hold the same bytes.
pub fn same_bytes(a: &[u8], b: &[u8]) -> (r: bool)
    ensures
        r == (a@ == b@),
{
    if a.len() != b.len() {
        return false;
    }
    let mut i: usize = 0;
    while i < a.len()
        invariant
            a.len() == b.len(),
            i <= a.len(),
            forall|k: int| 0 <= k < i ==> a@[k] == b@[k],
        decreases a.len() - i,
    {
        if a[i] != b[i] {
            return false;
        }
        i = i + 1;
    }
    proof {
        assert(a@ =~= b@);
    }
    true
}

proof fn lemma_attempt_decode(wi: int, si: int, d: int, wh: int)
    requires
        0 <= wi,
        0 <= si < wh,
        0 <= d < 4,
    ensures
        ({
            let t = (wi * wh + si) * 4 + d;
            &&& t / (4 * wh) == wi
            &&& (t / 4) % wh == si
            &&& t % 4 == d
            &&& t + 1 == (wi * wh + si) * 4 + (d + 1)
        }),
{
    let t = (wi * wh + si) * 4 + d;
    assert(t % 4 == d && t / 4 == wi * wh + si) by (nonlinear_arith)
        requires
            t == (wi * wh + si) * 4 + d,
            0 <= d < 4,
            0 <= wi,
            0 <= si,
    ;
    assert((wi * wh + si) % wh == si && (wi * wh + si) / wh == wi) by (nonlinear_arith)
        requires
            0 <= si < wh,
            0 <= wi,
    ;
    assert(t / (4 * wh) == (t / 4) / wh) by (nonlinear_arith)
        requires
            t >= 0,
            wh >= 1,
    ;
}

/// The four directions in clockwise order.
fn direction(d: usize) -> (r: OrthoDir)
    requires
        d < 4,
    ensures
        r == ortho_at(d as nat),
{
    if d == 0 {
        OrthoDir::North
    } else if d == 1 {
        OrthoDir::East
    } else if d == 2 {
        OrthoDir::South
    } else {
        OrthoDir::West
    }
}

/// The number of cells of the grid written in `haystack` (one row per line)
/// through which one of `words` is spelled in one of the four directions,
/// rows wrapping around.
pub fn part3(words: &[Vec<u8>], haystack: &[u8]) -> (r: usize)
    requires
        fields(haystack@, 10)[0].len() <= isize::MAX,
        fields(haystack@, 10).len() <= isize::MAX,
        4 * fields(haystack@, 10)[0].len() * fields(haystack@, 10).len() * (words@.len() + 1) <= usize::MAX,
    ensures
        r == spelled_cells(
            words_view(words@),
            fields(haystack@, 10),
            fields(haystack@, 10)[0].len() as int,
            fields(haystack@, 10).len() as int,
        ),
{
    let wordsearch = WordSearch::new(haystack);
    let ghost ws = words_view(words@);
    let ghost g = wordsearch.rows();
    let w = wordsearch.width;
    let h = wordsearch.height;
    let ghost wh = (w * h) as int;
    proof {
        assert(g.len() == h);
    }
    if w == 0 {
        proof {
            assert(w * h == 0) by (nonlinear_arith)
                requires
                    w == 0,
            ;
        }
        return 0;
    }
    proof {
        assert(w * h <= 4 * w * h * (words@.len() + 1)) by (nonlinear_arith)
            requires
                w >= 1,
                h >= 0,
        ;
    }
    let cells = w * h;
    let mut marks: Vec<bool> = Vec::new();
    while marks.len() < cells
        invariant
            marks@.len() <= cells,
            forall|c: int| 0 <= c < marks@.len() ==> !#[trigger] marks@[c],
        decreases cells - marks@.len(),
    {
        marks.push(false);
    }
    let mut wi: usize = 0;
    while wi < words.len()
        invariant
            wordsearch.wf(),
            g == wordsearch.rows(),
            g.len() == h,
            w == wordsearch.spec_width(),
            h == wordsearch.spec_height(),
            ws == words_view(words@),
            w >= 1,
            cells == w * h,
            wh == cells,
            4 * w * h * (words@.len() + 1) <= usize::MAX,
            wi <= words.len(),
            marks@.len() == cells,
            forall|c: int|
                0 <= c < cells ==> #[trigger] marks@[c] == exists|t: int|
                    0 <= t < (wi * wh) * 4 && #[trigger] hit_at(ws, g, w as int, wh, t, c),
        decreases words.len() - wi,
    {
        let needle = words[wi].as_slice();
        proof {
            assert(ws[wi as int] == needle@);
        }
        let mut si: usize = 0;
        while si < cells
            invariant
                wordsearch.wf(),
                g == wordsearch.rows(),
                g.len() == h,
                w == wordsearch.spec_width(),
                h == wordsearch.spec_height(),
                ws == words_view(words@),
                ws[wi as int] == needle@,
                w >= 1,
                cells == w * h,
                wh == cells,
                4 * w * h * (words@.len() + 1) <= usize::MAX,
                wi < words.len(),
                si <= cells,
                marks@.len() == cells,
                forall|c: int|
                    0 <= c < cells ==> #[trigger] marks@[c] == exists|t: int|
                        0 <= t < (wi * wh + si) * 4 && #[trigger] hit_at(ws, g, w as int, wh, t, c),
            decreases cells - si,
        {
            let start = ((si % w) as isize, (si / w) as isize);
            let mut d: usize = 0;
            while d < 4
                invariant
                    wordsearch.wf(),
                    g == wordsearch.rows(),
                    g.len() == h,
                    w == wordsearch.spec_width(),
                    h == wordsearch.spec_height(),
                    ws == words_view(words@),
                    ws[wi as int] == needle@,
                    w >= 1,
                    cells == w * h,
                    wh == cells,
                    4 * w * h * (words@.len() + 1) <= usize::MAX,
                    wi < words.len(),
                    si < cells,
                    start == ((si % w) as isize, (si / w) as isize),
                    d <= 4,
                    marks@.len() == cells,
                    forall|c: int|
                        0 <= c < cells ==> #[trigger] marks@[c] == exists|t: int|
                            0 <= t < (wi * wh + si) * 4 + d && #[trigger] hit_at(
                                ws,
                                g,
                                w as int,
                                wh,
                                t,
                                c,
                            ),
                decreases 4 - d,
            {
                let dir = direction(d);
                let ghost t = ((wi * wh + si) * 4 + d) as int;
                proof {
                    lemma_attempt_decode(wi as int, si as int, d as int, wh);
                }
                let (word, word_coords) = wordsearch.get_word(start, dir, needle.len());
                let ghost before = marks@;
                if same_bytes(word.as_slice(), needle) {
                    let mut k: usize = 0;
                    while k < word_coords.len()
                        invariant
                            marks@.len() == cells,
                            g.len() == h,
                            word_coords@.len() == word@.len(),
                            k <= word_coords@.len(),
                            w >= 1,
                            cells == w * h,
                            h == wordsearch.spec_height(),
                            forall|j: int|
                                0 <= j < word_coords@.len() ==> (#[trigger] word_coords@[j]).0 == wrap_x(
                                    walk(start, dir, j).0,
                                    w as int,
                                ) && word_coords@[j].1 == walk(start, dir, j).1,
                            forall|j: int|
                                0 <= j < word@.len() ==> cell(g, w as int, walk(start, dir, j))
                                    == Some(#[trigger] word@[j]),
                            forall|c: int|
                                0 <= c < cells ==> #[trigger] marks@[c] == (before[c] || exists|j: int|
                                    0 <= j < k && wrap_x(walk(start, dir, j).0, w as int) == c % (w as int)
                                        && #[trigger] walk(start, dir, j).1 == c / (w as int)),
                        decreases word_coords@.len() - k,
                    {
                        let (x, y) = word_coords[k];
                        proof {
                            lemma_wrap_step(walk(start, dir, k as int).0, 0, w as int);
                            assert(cell(g, w as int, walk(start, dir, k as int)) == Some(word@[k as int]));
                            assert(0 <= y < h);
                            assert(0 <= x < w);
                            assert(y * w + x < w * h) by (nonlinear_arith)
                                requires
                                    0 <= y < h,
                                    0 <= x < w,
                            ;
                        }
                        let idx = (y as usize) * w + (x as usize);
                        proof {
                            assert((idx as int) % (w as int) == x && (idx as int) / (w as int) == y) by (nonlinear_arith)
                                requires
                                    idx == y * w + x,
                                    0 <= x < w,
                                    0 <= y,
                            ;
                        }
                        marks.set(idx, true);
                        proof {
                            assert forall|c: int| 0 <= c < cells implies #[trigger] marks@[c] == (before[c]
                                || exists|j: int|
                                0 <= j < k + 1 && wrap_x(walk(start, dir, j).0, w as int) == c % (w as int)
                                    && #[trigger] walk(start, dir, j).1 == c / (w as int)) by {
                                if c == idx {
                                    assert(walk(start, dir, k as int).1 == c / (w as int));
                                } else {
                                    if exists|j: int| 0 <= j < k + 1 && wrap_x(walk(start, dir, j).0, w as int) == c % (w as int)
                                        && #[trigger] walk(start, dir, j).1 == c / (w as int) {
                                        let j = choose|j: int| 0 <= j < k + 1 && wrap_x(walk(start, dir, j).0, w as int) == c % (w as int)
                                            && #[trigger] walk(start, dir, j).1 == c / (w as int);
                                        if j == k {
                                            assert(c == (c / (w as int)) * (w as int) + c % (w as int)) by (nonlinear_arith)
                                                requires
                                                    w >= 1,
                                            ;
                                            assert(false);
                                        }
                                    }
                                }
                            }
                        }
                        k = k + 1;
                    }
                    proof {
                        assert(word@ == needle@);
                        assert(spells(g, w as int, start, dir, needle@));
                        assert forall|c: int| 0 <= c < cells implies #[trigger] marks@[c] == exists|tt: int|
                            0 <= tt < t + 1 && #[trigger] hit_at(ws, g, w as int, wh, tt, c) by {
                            if hit_at(ws, g, w as int, wh, t, c) {
                            }
                            if exists|tt: int| 0 <= tt < t + 1 && #[trigger] hit_at(ws, g, w as int, wh, tt, c) {
                                let tt = choose|tt: int| 0 <= tt < t + 1 && #[trigger] hit_at(ws, g, w as int, wh, tt, c);
                                if tt < t {
                                    assert(before[c]);
                                }
                            }
                        }
                    }
                } else {
                    proof {
                        if spells(g, w as int, start, dir, needle@) {
                            if word@.len() < needle@.len() {
                                assert(cell(g, w as int, walk(start, dir, word@.len() as int)) is None);
                                assert(cell(g, w as int, walk(start, dir, word@.len() as int)) == Some(needle@[word@.len() as int]));
                            } else {
                                assert(word@ =~= needle@);
                            }
                        }
                        assert(!hit_at(ws, g, w as int, wh, t, 0int));
                        assert forall|c: int| 0 <= c < cells implies #[trigger] marks@[c] == exists|tt: int|
                            0 <= tt < t + 1 && #[trigger] hit_at(ws, g, w as int, wh, tt, c) by {
                            assert(!hit_at(ws, g, w as int, wh, t, c));
                            if exists|tt: int| 0 <= tt < t + 1 && #[trigger] hit_at(ws, g, w as int, wh, tt, c) {
                                let tt = choose|tt: int| 0 <= tt < t + 1 && #[trigger] hit_at(ws, g, w as int, wh, tt, c);
                                assert(tt < t);
                            }
                        }
                    }
                }
                d = d + 1;
            }
            si = si + 1;
        }
        proof {
            assert((wi * wh + cells) * 4 == ((wi + 1) * wh) * 4) by (nonlinear_arith)
                requires
                    wh == cells,
            ;
        }
        wi = wi + 1;
    }
    let ghost spelled = Seq::new(
        wh as nat,
        |c: int| exists|t: int| 0 <= t < 4 * wh * ws.len() && #[trigger] hit_at(ws, g, w as int, wh, t, c),
    );
    proof {
        assert((words@.len() * wh) * 4 == 4 * wh * ws.len()) by (nonlinear_arith)
            requires
                ws.len() == words@.len(),
        ;
        assert(marks@ =~= spelled);
    }
    let mut count: usize = 0;
    let mut c: usize = 0;
    while c < cells
        invariant
            c <= cells,
            marks@ == spelled,
            spelled.len() == cells,
            count == count_true(spelled, c as int),
            count <= c,
        decreases cells - c,
    {
        if marks[c] {
            count = count + 1;
        }
        c = c + 1;
    }
    count
}
} // verus!
