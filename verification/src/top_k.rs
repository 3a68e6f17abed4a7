//! The highest scores of a column.

use vstd::prelude::*;

use crate::float_bits::{is_nan, total_order_key};

verus! {

/// A score and where in its column it stands.
#[derive(Clone, Copy)]
pub struct Scored {
    /// Row of the column.
    pub index: usize,
    /// Bit pattern of the score.
    pub bits: u32,
}

/// Scores ranked against each other: the higher first, and of equal ones the earlier.
pub open spec fn beats(a: Scored, b: Scored) -> bool {
    let left = crate::float_bits::total_rank(a.bits);
    let right = crate::float_bits::total_rank(b.bits);
    left > right || (left == right && a.index < b.index)
}

/// `c` is an entry of the column, and a number.
pub open spec fn candidate(c: Scored, column: Seq<u32>) -> bool {
    &&& c.index < column.len()
    &&& column[c.index as int] == c.bits
    &&& !crate::float_bits::nan(c.bits)
}

/// How many entries of the column are numbers.
pub open spec fn number_count(column: Seq<u32>) -> nat
    decreases column.len(),
{
    if column.len() == 0 {
        0
    } else if crate::float_bits::nan(column.last()) {
        number_count(column.drop_last())
    } else {
        number_count(column.drop_last()) + 1
    }
}

/// `picked` holds the `k` best numbers of the column, or all of them where there are fewer, best
/// first.
pub open spec fn is_top(picked: Seq<Scored>, column: Seq<u32>, k: nat) -> bool {
    &&& picked.len() == if k < number_count(column) {
        k
    } else {
        number_count(column)
    }
    &&& forall|i: int| 0 <= i < picked.len() ==> candidate(#[trigger] picked[i], column)
    &&& forall|i: int, j: int|
        0 <= i < j < picked.len() ==> beats(#[trigger] picked[i], #[trigger] picked[j])
    &&& forall|c: Scored, i: int|
        #![trigger candidate(c, column), picked[i]]
        candidate(c, column) && !picked.contains(c) && 0 <= i < picked.len() ==> beats(picked[i], c)
    &&& picked.len() < k ==> forall|c: Scored| #[trigger]
        candidate(c, column) ==> picked.contains(c)
}

/// The best scores of a column, and how many of its entries were not numbers.
pub struct TopScores {
    /// Entries that are NaN, which take no part.
    pub nan_count: usize,
    /// The best of the others, best first.
    pub picked: Vec<Scored>,
}

/// Adding the next entry of a column keeps the best `k` in order.
proof fn lemma_insert(picked: Seq<Scored>, column: Seq<u32>, c: Scored, pos: int, k: nat)
    requires
        column.len() > 0,
        is_top(picked, column.drop_last(), k),
        c.index == column.len() - 1,
        c.bits == column.last(),
        !crate::float_bits::nan(c.bits),
        0 <= pos <= picked.len(),
        forall|i: int| 0 <= i < pos ==> beats(#[trigger] picked[i], c),
        forall|i: int| pos <= i < picked.len() ==> beats(c, #[trigger] picked[i]),
    ensures
        pos >= k ==> is_top(picked, column, k),
        pos < k && picked.len() < k ==> is_top(picked.insert(pos, c), column, k),
        pos < k && picked.len() == k ==> is_top(picked.insert(pos, c).drop_last(), column, k),
{
    let before = column.drop_last();
    assert forall|d: Scored| candidate(d, column) implies d == c || candidate(d, before) by {
        if d.index == column.len() - 1 {
            assert(d == c);
        }
    }
    assert forall|d: Scored| candidate(d, before) implies candidate(d, column) by {}
    if pos >= k {
        assert(pos == k && picked.len() == k);
        assert forall|d: Scored, i: int|
            #![trigger candidate(d, column), picked[i]]
            candidate(d, column) && !picked.contains(d) && 0 <= i < picked.len() implies beats(
            picked[i],
            d,
        ) by {
            if d != c {
                assert(candidate(d, before));
            }
        }
    } else {
        let all = picked.insert(pos, c);
        assert forall|i: int| 0 <= i < all.len() implies all[i] == c || candidate(
            #[trigger] all[i],
            before,
        ) by {
            if i < pos {
                assert(all[i] == picked[i]);
            } else if i > pos {
                assert(all[i] == picked[i - 1]);
            }
        }
        assert forall|i: int, j: int| 0 <= i < j < all.len() implies beats(
            #[trigger] all[i],
            #[trigger] all[j],
        ) by {
            if i < pos {
                assert(all[i] == picked[i]);
            } else if i > pos {
                assert(all[i] == picked[i - 1]);
            }
            if j < pos {
                assert(all[j] == picked[j]);
            } else if j > pos {
                assert(all[j] == picked[j - 1]);
            }
        }
        assert forall|d: Scored| picked.contains(d) implies all.contains(d) by {
            let at = choose|at: int| 0 <= at < picked.len() && picked[at] == d;
            if at < pos {
                assert(all[at] == d);
            } else {
                assert(all[at + 1] == d);
            }
        }
        assert(all[pos] == c);
        assert(all.contains(c));
        assert forall|d: Scored, i: int|
            #![trigger candidate(d, column), all[i]]
            candidate(d, column) && !all.contains(d) && 0 <= i < all.len() implies beats(
            all[i],
            d,
        ) by {
            assert(d != c);
            assert(candidate(d, before));
            assert(!picked.contains(d));
            if i < pos {
                assert(all[i] == picked[i]);
            } else if i > pos {
                assert(all[i] == picked[i - 1]);
            } else if picked.len() > pos {
                assert(beats(c, picked[pos]) && beats(picked[pos], d));
            } else {
                assert(picked.len() < k);
            }
        }
        if picked.len() == k {
            let kept = all.drop_last();
            assert forall|d: Scored, i: int|
                #![trigger candidate(d, column), kept[i]]
                candidate(d, column) && !kept.contains(d) && 0 <= i < kept.len() implies beats(
                kept[i],
                d,
            ) by {
                assert(kept[i] == all[i]);
                if all.contains(d) {
                    let at = choose|at: int| 0 <= at < all.len() && all[at] == d;
                    if at < kept.len() {
                        assert(kept[at] == d);
                    }
                    assert(beats(all[i], all[all.len() - 1]));
                }
            }
        }
    }
}

/// Picks the best `k` numbers of a column. Equal scores keep the column's order.
pub fn select_top(column: &Vec<u32>, k: usize) -> (top: TopScores)
    ensures
        top.nan_count == column@.len() - number_count(column@),
        is_top(top.picked@, column@, k as nat),
{
    let len: usize = column.len();
    let mut picked: Vec<Scored> = Vec::new();
    let mut nan_count: usize = 0;
    let mut at: usize = 0;
    assert(column@.take(0) =~= Seq::empty());
    while at < len
        invariant
            at <= len == column@.len(),
            nan_count <= at,
            nan_count == at - number_count(column@.take(at as int)),
            is_top(picked@, column@.take(at as int), k as nat),
        decreases len - at,
    {
        let bits: u32 = column[at];
        let ghost upto = column@.take(at + 1);
        proof {
            assert(upto.drop_last() =~= column@.take(at as int));
            assert(upto.last() == bits);
        }
        if is_nan(bits) {
            nan_count = nan_count + 1;
            proof {
                lemma_skip(picked@, upto, k as nat);
            }
        } else {
            let key: i64 = total_order_key(bits);
            let c = Scored { index: at, bits };
            let mut pos: usize = picked.len();
            while pos > 0 && total_order_key(picked[pos - 1].bits) < key
                invariant
                    pos <= picked@.len(),
                    c == (Scored { index: at, bits }),
                    key == crate::float_bits::total_rank(bits),
                    forall|i: int| pos <= i < picked@.len() ==> beats(c, #[trigger] picked@[i]),
                decreases pos,
            {
                pos = pos - 1;
            }
            assert forall|i: int| 0 <= i < pos implies beats(#[trigger] picked@[i], c) by {
                assert(candidate(picked@[i], column@.take(at as int)));
                assert(candidate(picked@[pos - 1], column@.take(at as int)));
                if i < pos - 1 {
                    assert(beats(picked@[i], picked@[pos - 1]));
                }
            }
            proof {
                lemma_insert(picked@, upto, c, pos as int, k as nat);
            }
            if pos < k {
                let full: bool = picked.len() == k;
                picked.insert(pos, c);
                if full {
                    picked.pop();
                }
            }
        }
        at = at + 1;
    }
    assert(column@.take(len as int) =~= column@);
    TopScores { nan_count, picked }
}

/// An entry that is not a number changes nothing.
proof fn lemma_skip(picked: Seq<Scored>, column: Seq<u32>, k: nat)
    requires
        column.len() > 0,
        crate::float_bits::nan(column.last()),
        is_top(picked, column.drop_last(), k),
    ensures
        is_top(picked, column, k),
{
    let before = column.drop_last();
    assert forall|d: Scored| candidate(d, column) <==> candidate(d, before) by {}
    assert forall|d: Scored, i: int|
        #![trigger candidate(d, column), picked[i]]
        candidate(d, column) && !picked.contains(d) && 0 <= i < picked.len() implies beats(
        picked[i],
        d,
    ) by {
        assert(candidate(d, before));
    }
}

/// Of two rankings of one column, the one beats what the other holds at a place where they differ.
proof fn lemma_first_difference(
    one: Seq<Scored>,
    other: Seq<Scored>,
    column: Seq<u32>,
    k: nat,
    at: int,
)
    requires
        is_top(one, column, k),
        is_top(other, column, k),
        0 <= at < one.len(),
        forall|i: int| 0 <= i < at ==> one[i] == other[i],
        one[at] != other[at],
    ensures
        beats(one[at], other[at]),
{
    let rival = other[at];
    assert(candidate(rival, column));
    if one.contains(rival) {
        let place = choose|place: int| 0 <= place < one.len() && one[place] == rival;
        if place < at {
            assert(one[place] == other[place]);
            assert(beats(other[place], other[at]));
        } else {
            assert(beats(one[at], one[place]));
        }
    } else {
        assert(beats(one[at], rival));
    }
}

/// A column has one ranking: `is_top` leaves nothing open.
pub proof fn law_top_is_unique(one: Seq<Scored>, other: Seq<Scored>, column: Seq<u32>, k: nat)
    requires
        is_top(one, column, k),
        is_top(other, column, k),
    ensures
        one == other,
{
    lemma_same_upto(one, other, column, k, one.len() as int);
    assert(one =~= other);
}

proof fn lemma_same_upto(
    one: Seq<Scored>,
    other: Seq<Scored>,
    column: Seq<u32>,
    k: nat,
    n: int,
)
    requires
        is_top(one, column, k),
        is_top(other, column, k),
        0 <= n <= one.len(),
    ensures
        forall|i: int| 0 <= i < n ==> one[i] == other[i],
    decreases n,
{
    if n > 0 {
        lemma_same_upto(one, other, column, k, n - 1);
        if one[n - 1] != other[n - 1] {
            lemma_first_difference(one, other, column, k, n - 1);
            lemma_first_difference(other, one, column, k, n - 1);
        }
    }
}

/// No score that was left out is above one that was picked.
pub proof fn law_picked_scores_are_highest(
    picked: Seq<Scored>,
    column: Seq<u32>,
    k: nat,
    kept: int,
    left: Scored,
)
    requires
        is_top(picked, column, k),
        0 <= kept < picked.len(),
        candidate(left, column),
        !picked.contains(left),
    ensures
        crate::float_bits::total_rank(left.bits) <= crate::float_bits::total_rank(
            picked[kept].bits,
        ),
{
    assert(beats(picked[kept], left));
}

/// What is picked of a column: at most `k` entries, each a number of the column at its row, no row
/// twice, higher scores first and of equal ones the earlier row. Where fewer than `k` are picked,
/// every number of the column is; and no number that was left out stands before one that was
/// picked.
pub proof fn law_picked_are_the_best_of_the_column(
    picked: Seq<Scored>,
    column: Seq<u32>,
    k: nat,
    row: int,
    i: int,
    j: int,
)
    requires
        is_top(picked, column, k),
        0 <= row < column.len() <= usize::MAX,
        0 <= i < picked.len(),
        0 <= j < picked.len(),
    ensures
        picked.len() <= k,
        picked[i].index < column.len(),
        picked[i].bits == column[picked[i].index as int],
        !crate::float_bits::nan(picked[i].bits),
        i < j ==> crate::float_bits::total_rank(picked[j].bits) < crate::float_bits::total_rank(
            picked[i].bits,
        ) || (picked[i].bits == picked[j].bits && picked[i].index < picked[j].index),
        !crate::float_bits::nan(column[row]) ==> {
            ||| exists|p: int| 0 <= p < picked.len() && (#[trigger] picked[p]).index == row
            ||| picked.len() == k && (crate::float_bits::total_rank(column[row])
                < crate::float_bits::total_rank(picked[i].bits) || (column[row] == picked[i].bits
                && picked[i].index < row))
        },
{
    assert(candidate(picked[i], column));
    if i < j {
        assert(beats(picked[i], picked[j]));
        crate::float_bits::law_total_order_separates(picked[i].bits, picked[j].bits);
    }
    if !crate::float_bits::nan(column[row]) {
        let c = Scored { index: row as usize, bits: column[row] };
        assert(candidate(c, column));
        if picked.contains(c) {
            let p = choose|p: int| 0 <= p < picked.len() && picked[p] == c;
            assert(picked[p].index == row);
        } else {
            assert(beats(picked[i], c));
            crate::float_bits::law_total_order_separates(picked[i].bits, c.bits);
        }
    }
}

/// Something is picked of every column that holds a number, where anything is asked for; and where
/// as many are asked for as the column has rows, every number is picked.
pub proof fn law_numbers_are_picked(picked: Seq<Scored>, column: Seq<u32>, k: nat, row: int)
    requires
        is_top(picked, column, k),
        0 <= row < column.len() <= usize::MAX,
        !crate::float_bits::nan(column[row]),
    ensures
        k > 0 ==> picked.len() > 0,
        k >= column.len() ==> exists|p: int|
            0 <= p < picked.len() && (#[trigger] picked[p]).index == row && picked[p].bits
                == column[row],
{
    let c = Scored { index: row as usize, bits: column[row] };
    assert(candidate(c, column));
    if k > 0 && picked.len() == 0 {
        assert(picked.contains(c));
    }
    if k >= column.len() {
        lemma_number_count(column);
        if picked.len() < k {
            assert(picked.contains(c));
        } else {
            lemma_distinct_rows(picked, column, k, row);
        }
        if picked.contains(c) {
            let p = choose|p: int| 0 <= p < picked.len() && picked[p] == c;
            assert(picked[p].index == row);
        } else {
            let p = choose|p: int| 0 <= p < picked.len() && (#[trigger] picked[p]).index == row;
            assert(candidate(picked[p], column));
        }
    }
}

/// Not more entries are numbers than there are entries.
proof fn lemma_number_count(column: Seq<u32>)
    ensures
        number_count(column) <= column.len(),
    decreases column.len(),
{
    if column.len() > 0 {
        lemma_number_count(column.drop_last());
    }
}

/// As many picked entries as rows leave no row out.
proof fn lemma_distinct_rows(picked: Seq<Scored>, column: Seq<u32>, k: nat, row: int)
    requires
        is_top(picked, column, k),
        picked.len() >= column.len(),
        0 <= row < column.len(),
    ensures
        exists|p: int| 0 <= p < picked.len() && (#[trigger] picked[p]).index == row,
{
    let rows = Seq::new(picked.len(), |p: int| picked[p].index as int);
    assert(rows.no_duplicates()) by {
        assert forall|p: int, q: int| 0 <= p < rows.len() && 0 <= q < rows.len() && p
            != q implies rows[p] != rows[q] by {
            assert(candidate(picked[p], column) && candidate(picked[q], column));
            if p < q {
                assert(beats(picked[p], picked[q]));
            } else {
                assert(beats(picked[q], picked[p]));
            }
        }
    }
    rows.unique_seq_to_set();
    let all = vstd::set_lib::set_int_range(0, column.len() as int);
    vstd::set_lib::lemma_int_range(0, column.len() as int);
    if forall|p: int| 0 <= p < picked.len() ==> (#[trigger] picked[p]).index != row {
        assert(rows.to_set().subset_of(all.remove(row))) by {
            assert forall|r: int| rows.to_set().contains(r) implies all.remove(row).contains(r) by {
                let p = choose|p: int| 0 <= p < rows.len() && rows[p] == r;
                assert(candidate(picked[p], column));
            }
        }
        vstd::set_lib::lemma_len_subset(rows.to_set(), all.remove(row));
    }
}

/// A number counts, a NaN does not.
pub proof fn law_numbers_are_counted(column: Seq<u32>, bits: u32)
    ensures
        number_count(Seq::<u32>::empty()) == 0,
        number_count(column.push(bits)) == number_count(column) + if crate::float_bits::nan(bits) {
            0int
        } else {
            1int
        },
{
    assert(column.push(bits).drop_last() =~= column);
}

} // verus!
