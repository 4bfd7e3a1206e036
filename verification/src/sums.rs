//! Sums of finite sequences of exact samples.

use crate::exact::{lemma_product_zero, lemma_sum_interchange, lemma_zero_sum, ExactSample};
use crate::sample::{multiple, Sample};
use crate::transform::{evens, odds};
use vstd::prelude::*;

verus! {

/// The sum of the samples of `s`, taken from the first to the last; 0 for the
/// empty sequence.
pub open spec fn total<S: Sample>(s: Seq<S>) -> S
    decreases s.len(),
{
    if s.len() == 0 {
        S::zero_value()
    } else {
        total(s.drop_last()).sum(s.last())
    }
}

/// The sum of one sample is that sample.
pub proof fn lemma_total_of_one<E: ExactSample>(a: E)
    ensures
        total(seq![a]) == a,
{
    assert(seq![a].drop_last() =~= Seq::<E>::empty());
    assert(total(seq![a]) == total(seq![a].drop_last()).sum(a));
    lemma_zero_sum(a);
}

/// The sum of a sequence of samples that are all 0 is 0.
pub proof fn lemma_total_of_zeros<E: ExactSample>(s: Seq<E>)
    requires
        forall|i: int| 0 <= i < s.len() ==> s[i] == E::zero_value(),
    ensures
        total(s) == E::zero_value(),
    decreases s.len(),
{
    if s.len() > 0 {
        lemma_total_of_zeros(s.drop_last());
        E::lemma_sum_zero(E::zero_value());
    }
}

/// Summing sample by sample: the sum of the sequence of `a[i] + b[i]` is the
/// sum of `a` plus the sum of `b`.
pub proof fn lemma_total_of_sums<E: ExactSample>(a: Seq<E>, b: Seq<E>, c: Seq<E>)
    requires
        a.len() == c.len(),
        b.len() == c.len(),
        forall|i: int| 0 <= i < c.len() ==> c[i] == a[i].sum(b[i]),
    ensures
        total(c) == total(a).sum(total(b)),
    decreases c.len(),
{
    if c.len() == 0 {
        E::lemma_sum_zero(E::zero_value());
    } else {
        lemma_total_of_sums(a.drop_last(), b.drop_last(), c.drop_last());
        lemma_sum_interchange(total(a.drop_last()), total(b.drop_last()), a.last(), b.last());
    }
}

/// A common factor comes out of a sum: the sum of the sequence of
/// `f * a[i]` is `f` times the sum of `a`.
pub proof fn lemma_total_of_products<E: ExactSample>(f: E, a: Seq<E>, c: Seq<E>)
    requires
        a.len() == c.len(),
        forall|i: int| 0 <= i < c.len() ==> c[i] == f.product(a[i]),
    ensures
        total(c) == f.product(total(a)),
    decreases c.len(),
{
    if c.len() == 0 {
        lemma_product_zero(f);
    } else {
        lemma_total_of_products(f, a.drop_last(), c.drop_last());
        E::lemma_product_distributes(f, total(a.drop_last()), a.last());
    }
}

/// The sum of a sequence of even length is the sum of its samples at even
/// indices plus the sum of those at odd indices.
pub proof fn lemma_total_by_parity<E: ExactSample>(s: Seq<E>)
    requires
        s.len() % 2 == 0,
    ensures
        total(s) == total(evens(s)).sum(total(odds(s))),
    decreases s.len(),
{
    if s.len() == 0 {
        assert(evens(s).len() == 0);
        assert(odds(s).len() == 0);
        E::lemma_sum_zero(E::zero_value());
    } else {
        let n = s.len() as int;
        let front = s.subrange(0, n - 2);
        lemma_total_by_parity(front);
        assert(s.drop_last().drop_last() =~= front);
        assert(evens(s).drop_last() =~= evens(front));
        assert(odds(s).drop_last() =~= odds(front));
        assert(evens(s).last() == s[n - 2]);
        assert(odds(s).last() == s[n - 1]);
        assert(s.drop_last().last() == s[n - 2]);
        assert(total(s) == total(s.drop_last()).sum(s[n - 1]));
        assert(total(s.drop_last()) == total(front).sum(s[n - 2]));
        assert(total(evens(s)) == total(evens(front)).sum(s[n - 2]));
        assert(total(odds(s)) == total(odds(front)).sum(s[n - 1]));
        E::lemma_sum_associates(total(front), s[n - 2], s[n - 1]);
        lemma_sum_interchange(total(evens(front)), total(odds(front)), s[n - 2], s[n - 1]);
    }
}

/// The sum of two sequences, one behind the other, is the sum of their sums.
pub proof fn lemma_total_of_concat<E: ExactSample>(a: Seq<E>, b: Seq<E>)
    ensures
        total(a + b) == total(a).sum(total(b)),
    decreases b.len(),
{
    if b.len() == 0 {
        assert(a + b =~= a);
        E::lemma_sum_zero(total(a));
    } else {
        assert((a + b).drop_last() =~= a + b.drop_last());
        lemma_total_of_concat(a, b.drop_last());
        E::lemma_sum_associates(total(a), total(b.drop_last()), b.last());
    }
}

/// A sum with at most one sample that is not 0 is that sample.
pub proof fn lemma_total_of_single<E: ExactSample>(s: Seq<E>, m: int)
    requires
        0 <= m < s.len(),
        forall|i: int| 0 <= i < s.len() && i != m ==> s[i] == E::zero_value(),
    ensures
        total(s) == s[m],
{
    let before = s.subrange(0, m);
    let after = s.subrange(m + 1, s.len() as int);
    assert(s =~= before + seq![s[m]] + after);
    lemma_total_of_concat(before + seq![s[m]], after);
    lemma_total_of_concat(before, seq![s[m]]);
    lemma_total_of_zeros(before);
    lemma_total_of_zeros(after);
    lemma_total_of_one(s[m]);
    lemma_zero_sum(s[m]);
    E::lemma_sum_zero(s[m]);
}

/// The sum of `n` copies of `a` is `n` times `a`.
pub proof fn lemma_total_of_copies<E: ExactSample>(a: E, n: nat)
    ensures
        total(Seq::new(n, |i: int| a)) == multiple(a, n),
    decreases n,
{
    if n > 0 {
        lemma_total_of_copies(a, (n - 1) as nat);
        assert(Seq::new(n, |i: int| a).drop_last() =~= Seq::new((n - 1) as nat, |i: int| a));
    }
}

/// `a * (n times 1)` is `n` times `a`.
pub proof fn lemma_multiple_of_one<E: ExactSample>(a: E, n: nat)
    ensures
        a.product(multiple(E::one_value(), n)) == multiple(a, n),
    decreases n,
{
    if n == 0 {
        lemma_product_zero(a);
    } else {
        lemma_multiple_of_one(a, (n - 1) as nat);
        E::lemma_product_distributes(a, multiple(E::one_value(), (n - 1) as nat), E::one_value());
        E::lemma_product_one(a);
    }
}

/// The sums of the rows of a table.
pub open spec fn row_sums<S: Sample>(table: Seq<Seq<S>>) -> Seq<S> {
    Seq::new(table.len(), |i: int| total(table[i]))
}

/// Column `j` of a table.
pub open spec fn column<S: Sample>(table: Seq<Seq<S>>, j: int) -> Seq<S> {
    Seq::new(table.len(), |i: int| table[i][j])
}

/// The sums of the first `cols` columns of a table.
pub open spec fn column_sums<S: Sample>(table: Seq<Seq<S>>, cols: nat) -> Seq<S> {
    Seq::new(cols, |j: int| total(column(table, j)))
}

/// A table of samples can be summed row by row or column by column: the sum
/// of the sums of its rows is the sum of the sums of its columns.
pub proof fn lemma_total_exchange<E: ExactSample>(table: Seq<Seq<E>>, cols: nat)
    requires
        forall|i: int| 0 <= i < table.len() ==> (#[trigger] table[i]).len() == cols,
    ensures
        total(row_sums(table)) == total(column_sums(table, cols)),
    decreases table.len(),
{
    if table.len() == 0 {
        assert forall|j: int| 0 <= j < cols implies column_sums(table, cols)[j]
            == E::zero_value() by {
            assert(column(table, j).len() == 0);
        }
        lemma_total_of_zeros(column_sums(table, cols));
    } else {
        let fewer = table.drop_last();
        let last_row = table.last();
        lemma_total_exchange(fewer, cols);
        assert(row_sums(table).drop_last() =~= row_sums(fewer));
        assert(row_sums(table).last() == total(last_row));
        assert forall|j: int| 0 <= j < cols implies column_sums(table, cols)[j] == column_sums(
            fewer,
            cols,
        )[j].sum(last_row[j]) by {
            assert(column(table, j).drop_last() =~= column(fewer, j));
            assert(total(column(table, j)) == total(column(table, j).drop_last()).sum(
                column(table, j).last(),
            ));
        }
        lemma_total_of_sums(column_sums(fewer, cols), last_row, column_sums(table, cols));
    }
}

} // verus!
