//! A dance of columns of numbers: the front dancer of one column claps its
//! way into the next column, and the fronts of the columns read as a number.

use vstd::prelude::*;
use crate::text::{
    fields, fields_view, parse_integer, signed_text_value, split_fields, split_whitespace, trim_bounds,
    trimmed, words,
};

verus! {

/// The numbers of each column.
pub open spec fn columns_view(cols: Seq<Vec<i64>>) -> Seq<Seq<i64>> {
    cols.map_values(|v: Vec<i64>| v@)
}

/// Where a clapper with number `clapper` lands in a column of `len` dancers:
/// it walks down one side and up the other.
pub open spec fn landing(clapper: int, len: int) -> int {
    let n = (clapper - 1) % (2 * len);
    if n < 2 * len - n {
        n
    } else {
        2 * len - n
    }
}

/// The columns after the front dancer of column `c` moves into the next column.
pub open spec fn dance_step(cols: Seq<Seq<i64>>, c: int) -> Seq<Seq<i64>> {
    let a = (c + 1) % (cols.len() as int);
    let clapper = cols[c][0];
    let removed = cols.update(c, cols[c].drop_first());
    removed.update(a, removed[a].insert(landing(clapper as int, removed[a].len() as int), clapper))
}

/// Column `c` can lead a round: it has a dancer with a positive number, and
/// the next column still has a dancer once that one has left.
pub open spec fn can_dance(cols: Seq<Seq<i64>>, c: int) -> bool {
    let a = (c + 1) % (cols.len() as int);
    &&& 0 <= c < cols.len()
    &&& cols[c].len() >= 1
    &&& cols[c][0] >= 1
    &&& (if a == c { cols[a].len() >= 2 } else { cols[a].len() >= 1 })
    &&& cols[a].len() <= usize::MAX / 2
}

/// One round led by column `clapper_col`.
pub fn dance_round(columns: &mut Vec<Vec<i64>>, clapper_col: usize)
    requires
        can_dance(columns_view(old(columns)@), clapper_col as int),
        old(columns)@.len() < usize::MAX,
    ensures
        columns_view(final(columns)@) == dance_step(columns_view(old(columns)@), clapper_col as int),
{
    let ghost before = columns_view(columns@);
    let absorption_col = (clapper_col + 1) % columns.len();
    let clapper = columns[clapper_col].remove(0);
    let ghost removed = before.update(clapper_col as int, before[clapper_col as int].drop_first());
    proof {
        assert(columns_view(columns@) =~= removed);
    }
    let len = columns[absorption_col].len();
    let n = (((clapper - 1) as u64) % (2 * len as u64)) as usize;
    let insert_pos = if n < 2 * len - n {
        n
    } else {
        2 * len - n
    };
    proof {
        assert(insert_pos == landing(clapper as int, len as int));
    }
    columns[absorption_col].insert(insert_pos, clapper);
    proof {
        assert(columns_view(columns@) =~= dance_step(before, clapper_col as int));
    }
}


/// Column `i` of the rows `rows`: the `i`-th number of each row.
pub open spec fn column_of(rows: Seq<Seq<i64>>, i: int) -> Seq<i64> {
    Seq::new(rows.len(), |j: int| rows[j][i])
}

/// The columns of `rows`, one per number of the first row.
pub fn transpose(rows: &[Vec<i64>]) -> (r: Vec<Vec<i64>>)
    requires
        rows.len() >= 1,
        forall|j: int| 0 <= j < rows.len() ==> #[trigger] rows@[j]@.len() >= rows@[0]@.len(),
    ensures
        r@.len() == rows@[0]@.len(),
        forall|i: int|
            0 <= i < r@.len() ==> #[trigger] r@[i]@ == column_of(columns_view(rows@), i),
{
    let width = rows[0].len();
    let mut columns: Vec<Vec<i64>> = Vec::new();
    let mut i: usize = 0;
    while i < width
        invariant
            width == rows@[0]@.len(),
            i <= width,
            columns@.len() == i,
            rows.len() >= 1,
            forall|j: int| 0 <= j < rows.len() ==> #[trigger] rows@[j]@.len() >= width,
            forall|k: int|
                0 <= k < i ==> #[trigger] columns@[k]@ == column_of(columns_view(rows@), k),
        decreases width - i,
    {
        let mut col: Vec<i64> = Vec::new();
        let mut j: usize = 0;
        while j < rows.len()
            invariant
                i < width,
                j <= rows.len(),
                forall|m: int| 0 <= m < rows.len() ==> #[trigger] rows@[m]@.len() >= width,
                col@ == column_of(columns_view(rows@), i as int).take(j as int),
            decreases rows.len() - j,
        {
            col.push(rows[j][i]);
            j = j + 1;
            proof {
                assert(col@ =~= column_of(columns_view(rows@), i as int).take(j as int));
            }
        }
        proof {
            assert(col@ =~= column_of(columns_view(rows@), i as int));
        }
        columns.push(col);
        i = i + 1;
    }
    columns
}

/// The number of decimal digits of `x`.
pub open spec fn digit_count(x: nat) -> nat
    decreases x,
{
    if x < 10 {
        1
    } else {
        1 + digit_count(x / 10)
    }
}

/// The number read from the decimal texts of the numbers `xs` written one
/// after the other.
pub open spec fn concat_value(xs: Seq<i64>) -> int
    decreases xs.len(),
{
    if xs.len() == 0 {
        0
    } else {
        concat_value(xs.drop_last()) * pow10(digit_count(xs.last() as nat)) + xs.last()
    }
}

/// Ten to the power `e`.
pub open spec fn pow10(e: nat) -> nat
    decreases e,
{
    if e == 0 {
        1
    } else {
        10 * pow10((e - 1) as nat)
    }
}

/// The front number of each column.
pub open spec fn fronts(cols: Seq<Seq<i64>>) -> Seq<i64> {
    Seq::new(cols.len(), |i: int| cols[i][0])
}

/// The fronts of `cols` can be read: there is a column, each has a front
/// dancer with a number that is not negative, and the number they spell fits
/// in an `i64`.
pub open spec fn fronts_readable(cols: Seq<Seq<i64>>) -> bool {
    &&& cols.len() >= 1
    &&& forall|i: int| 0 <= i < cols.len() ==> #[trigger] cols[i].len() >= 1 && cols[i][0] >= 0
    &&& concat_value(fronts(cols)) <= i64::MAX
}

proof fn lemma_concat_value_grows(xs: Seq<i64>, k: int)
    requires
        0 <= k <= xs.len(),
        forall|i: int| 0 <= i < xs.len() ==> #[trigger] xs[i] >= 0,
    ensures
        0 <= concat_value(xs.take(k)) <= concat_value(xs),
    decreases xs.len() - k,
{
    if k < xs.len() {
        let ys = xs.take(k + 1);
        lemma_concat_value_grows(xs, k + 1);
        assert(ys.drop_last() =~= xs.take(k));
        assert forall|i: int| 0 <= i < xs.take(k).len() implies #[trigger] xs.take(k)[i] >= 0 by {
            assert(xs.take(k)[i] == xs[i]);
        }
        lemma_concat_value_nonneg(xs.take(k));
        assert(ys.last() == xs[k]);
        lemma_pow10_positive(digit_count(ys.last() as nat));
        assert(concat_value(ys.drop_last()) <= concat_value(ys.drop_last()) * pow10(
            digit_count(ys.last() as nat),
        )) by (nonlinear_arith)
            requires
                concat_value(ys.drop_last()) >= 0,
                pow10(digit_count(ys.last() as nat)) >= 1,
        ;
    } else {
        assert(xs.take(k) =~= xs);
        lemma_concat_value_nonneg(xs);
    }
}

proof fn lemma_concat_value_nonneg(xs: Seq<i64>)
    requires
        forall|i: int| 0 <= i < xs.len() ==> #[trigger] xs[i] >= 0,
    ensures
        concat_value(xs) >= 0,
    decreases xs.len(),
{
    if xs.len() > 0 {
        lemma_concat_value_nonneg(xs.drop_last());
        lemma_pow10_positive(digit_count(xs.last() as nat));
        assert(concat_value(xs.drop_last()) * pow10(digit_count(xs.last() as nat)) >= 0)
            by (nonlinear_arith)
            requires
                concat_value(xs.drop_last()) >= 0,
                pow10(digit_count(xs.last() as nat)) >= 1,
        ;
    }
}

proof fn lemma_pow10_positive(e: nat)
    ensures
        pow10(e) >= 1,
    decreases e,
{
    if e > 0 {
        lemma_pow10_positive((e - 1) as nat);
    }
}

/// The power of ten just above `x`: `10` to the number of digits of `x`.
fn digit_shift(x: i64) -> (r: i64)
    requires
        0 <= x,
        pow10(digit_count(x as nat)) <= i64::MAX,
    ensures
        r == pow10(digit_count(x as nat)),
{
    let mut p: i64 = 10;
    let mut rest: i64 = x;
    let ghost mut e: nat = 1;
    proof {
        assert(pow10(1) == 10 * pow10(0));
    }
    while rest >= 10
        invariant
            0 <= rest <= x,
            digit_count(x as nat) == e - 1 + digit_count(rest as nat),
            e >= 1,
            p == pow10(e),
            pow10(digit_count(x as nat)) <= i64::MAX,
        decreases rest,
    {
        proof {
            assert(digit_count(rest as nat) == 1 + digit_count((rest / 10) as nat));
            lemma_digit_count_positive((rest / 10) as nat);
            lemma_pow10_monotone(e + 1, digit_count(x as nat));
            assert(pow10(e + 1) == 10 * pow10(e));
        }
        rest = rest / 10;
        p = p * 10;
        proof {
            e = e + 1;
        }
    }
    proof {
        assert(digit_count(rest as nat) == 1);
    }
    p
}

proof fn lemma_digit_count_positive(x: nat)
    ensures
        digit_count(x) >= 1,
    decreases x,
{
}

proof fn lemma_pow10_monotone(a: nat, b: nat)
    requires
        a <= b,
    ensures
        pow10(a) <= pow10(b),
    decreases b,
{
    if a < b {
        lemma_pow10_monotone(a, (b - 1) as nat);
        lemma_pow10_positive((b - 1) as nat);
    }
}

/// The number spelled by the front numbers of the columns, read left to right.
pub fn read_column_front(columns: &[Vec<i64>]) -> (r: i64)
    requires
        fronts_readable(columns_view(columns@)),
    ensures
        r == concat_value(fronts(columns_view(columns@))),
{
    let ghost xs = fronts(columns_view(columns@));
    proof {
        assert forall|i: int| 0 <= i < xs.len() implies #[trigger] xs[i] >= 0 by {
            assert(columns_view(columns@)[i] == columns@[i]@);
        }
    }
    let mut value: i64 = 0;
    let mut i: usize = 0;
    while i < columns.len()
        invariant
            xs == fronts(columns_view(columns@)),
            fronts_readable(columns_view(columns@)),
            forall|k: int| 0 <= k < xs.len() ==> #[trigger] xs[k] >= 0,
            i <= columns.len(),
            value == concat_value(xs.take(i as int)),
        decreases columns.len() - i,
    {
        proof {
            assert(columns_view(columns@)[i as int] == columns@[i as int]@);
        }
        let x = columns[i][0];
        proof {
            assert(x == xs[i as int]);
            let ys = xs.take(i + 1);
            assert(ys.drop_last() =~= xs.take(i as int));
            assert(ys.last() == x);
            lemma_concat_value_grows(xs, i + 1);
            lemma_concat_value_grows(xs, i as int);
            lemma_pow10_positive(digit_count(x as nat));
            if value >= 1 {
                assert(pow10(digit_count(x as nat)) <= value * pow10(digit_count(x as nat)))
                    by (nonlinear_arith)
                    requires
                        value >= 1,
                        pow10(digit_count(x as nat)) >= 1,
                ;
            }
        }
        if value == 0 {
            proof {
                assert(concat_value(xs.take(i as int)) * pow10(digit_count(x as nat)) == 0)
                    by (nonlinear_arith)
                    requires
                        concat_value(xs.take(i as int)) == 0,
                ;
                assert(concat_value(xs.take(i + 1)) == x);
            }
            value = x;
            i = i + 1;
            continue;
        }
        let shift = digit_shift(x);
        value = value * shift + x;
        i = i + 1;
    }
    proof {
        assert(xs.take(xs.len() as int) =~= xs);
    }
    value
}

/// The columns after `k` rounds, round `r` led by column `r` modulo the
/// number of columns.
pub open spec fn after_rounds(cols: Seq<Seq<i64>>, k: nat) -> Seq<Seq<i64>>
    decreases k,
{
    if k == 0 {
        cols
    } else {
        let prev = after_rounds(cols, (k - 1) as nat);
        dance_step(prev, (k - 1) as int % (cols.len() as int))
    }
}

/// A round keeps the number of columns.
proof fn lemma_after_rounds_len(cols: Seq<Seq<i64>>, k: nat)
    requires
        cols.len() >= 1,
    ensures
        after_rounds(cols, k).len() == cols.len(),
    decreases k,
{
    if k > 0 {
        lemma_after_rounds_len(cols, (k - 1) as nat);
    }
}

/// The fronts read after ten rounds of the dance.
pub fn part1(columns: Vec<Vec<i64>>) -> (r: i64)
    requires
        1 <= columns@.len() < usize::MAX,
        forall|k: nat|
            k < 10 ==> #[trigger] can_dance(
                after_rounds(columns_view(columns@), k),
                k as int % (columns@.len() as int),
            ),
        fronts_readable(after_rounds(columns_view(columns@), 10)),
    ensures
        r == concat_value(fronts(after_rounds(columns_view(columns@), 10))),
{
    let ghost start = columns_view(columns@);
    let mut columns = columns;
    let num_cols = columns.len();
    let mut i: usize = 0;
    while i < 10
        invariant
            i <= 10,
            num_cols == start.len(),
            1 <= num_cols < usize::MAX,
            columns_view(columns@) == after_rounds(start, i as nat),
            forall|k: nat| k < 10 ==> #[trigger] can_dance(
                after_rounds(start, k),
                k as int % (num_cols as int),
            ),
        decreases 10 - i,
    {
        proof {
            lemma_after_rounds_len(start, i as nat);
            assert(can_dance(after_rounds(start, i as nat), i as int % (num_cols as int)));
        }
        dance_round(&mut columns, i % num_cols);
        i = i + 1;
    }
    read_column_front(&columns)
}

/// The lines of the trimmed `input`.
pub open spec fn input_lines(input: Seq<u8>) -> Seq<Seq<u8>> {
    fields(trimmed(input), 10)
}

/// The numbers of each line of the trimmed `input`, read as whitespace-separated
/// signed decimals.
pub open spec fn number_rows(input: Seq<u8>) -> Seq<Seq<i64>> {
    Seq::new(
        input_lines(input).len(),
        |y: int|
            Seq::new(
                words(input_lines(input)[y]).len(),
                |k: int| signed_text_value(words(input_lines(input)[y])[k])->0,
            ),
    )
}

/// Every word of every line of the trimmed `input` is a number, and no row
/// is shorter than the first.
pub open spec fn is_number_grid(input: Seq<u8>) -> bool {
    &&& forall|y: int, k: int|
        0 <= y < input_lines(input).len() && 0 <= k < words(input_lines(input)[y]).len()
            ==> #[trigger] signed_text_value(words(input_lines(input)[y])[k]) is Some
    &&& forall|y: int|
        0 <= y < number_rows(input).len() ==> (#[trigger] number_rows(input)[y]).len()
            >= number_rows(input)[0].len()
}

/// The numbers of one line.
fn read_row(line: &[u8]) -> (r: Vec<i64>)
    requires
        forall|k: int|
            0 <= k < words(line@).len() ==> #[trigger] signed_text_value(words(line@)[k]) is Some,
    ensures
        r@ == Seq::new(words(line@).len(), |k: int| signed_text_value(words(line@)[k])->0),
{
    let parts = split_whitespace(line);
    let ghost ws = words(line@);
    let mut row: Vec<i64> = Vec::new();
    let mut k: usize = 0;
    while k < parts.len()
        invariant
            fields_view(parts@) == ws,
            ws == words(line@),
            forall|j: int| 0 <= j < ws.len() ==> #[trigger] signed_text_value(ws[j]) is Some,
            k <= parts.len(),
            row@.len() == k,
            forall|j: int| 0 <= j < k ==> row@[j] == signed_text_value(#[trigger] ws[j])->0,
        decreases parts.len() - k,
    {
        proof {
            assert(ws[k as int] == parts@[k as int]@);
            assert(signed_text_value(ws[k as int]) is Some);
        }
        let value = match parse_integer(parts[k].as_slice()) {
            Some(v) => v,
            None => 0,
        };
        row.push(value);
        k = k + 1;
    }
    proof {
        assert(row@ =~= Seq::new(ws.len(), |k: int| signed_text_value(ws[k])->0));
    }
    row
}

/// The columns of the number grid written in `input`, one row per line.
pub fn read_columns(input: &[u8]) -> (r: Vec<Vec<i64>>)
    requires
        is_number_grid(input@),
    ensures
        r@.len() == number_rows(input@)[0].len(),
        forall|i: int| 0 <= i < r@.len() ==> #[trigger] r@[i]@ == column_of(number_rows(input@), i),
{
    let (lo, hi) = trim_bounds(input);
    let mut text: Vec<u8> = Vec::new();
    let mut i = lo;
    while i < hi
        invariant
            lo <= i <= hi <= input.len(),
            text@ == input@.subrange(lo as int, i as int),
        decreases hi - i,
    {
        text.push(input[i]);
        i = i + 1;
        proof {
            assert(text@ =~= input@.subrange(lo as int, i as int));
        }
    }
    let lines = split_fields(text.as_slice(), 10);
    let ghost ls = input_lines(input@);
    let ghost nr = number_rows(input@);
    proof {
        assert(text@ == trimmed(input@));
    }
    let mut rows: Vec<Vec<i64>> = Vec::new();
    let mut y: usize = 0;
    while y < lines.len()
        invariant
            fields_view(lines@) == ls,
            ls == input_lines(input@),
            nr == number_rows(input@),
            is_number_grid(input@),
            y <= lines.len(),
            rows@.len() == y,
            forall|j: int| 0 <= j < y ==> (#[trigger] rows@[j])@ == nr[j],
        decreases lines.len() - y,
    {
        proof {
            assert(ls[y as int] == lines@[y as int]@);
            assert forall|k: int| 0 <= k < words(lines@[y as int]@).len() implies #[trigger] signed_text_value(
                words(lines@[y as int]@)[k],
            ) is Some by {
                assert(signed_text_value(words(ls[y as int])[k]) is Some);
            }
        }
        let row = read_row(lines[y].as_slice());
        proof {
            assert(row@ =~= nr[y as int]);
        }
        rows.push(row);
        y = y + 1;
    }
    proof {
        assert(columns_view(rows@) =~= nr);
        crate::inscriptions::lemma_fields_nonempty(trimmed(input@), 10);
        assert forall|j: int| 0 <= j < rows.len() implies #[trigger] rows@[j]@.len() >= rows@[0]@.len() by {
            assert(nr[j].len() >= nr[0].len());
        }
    }
    transpose(rows.as_slice())
}
} // verus!
