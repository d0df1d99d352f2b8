//! Sums of weights grouped by key: splitting a total into one group per
//! distinct key neither loses nor counts twice any part of it.

use vstd::prelude::*;

verus! {

/// `w(0) + ... + w(n - 1)`.
pub open spec fn total(w: spec_fn(int) -> nat, n: int) -> nat
    decreases n,
{
    if n <= 0 {
        0
    } else {
        total(w, n - 1) + w(n - 1)
    }
}

/// The part of `total(w, n)` whose index has key `k`.
pub open spec fn group_sum<K>(key_of: spec_fn(int) -> K, w: spec_fn(int) -> nat, n: int, k: K) -> nat
    decreases n,
{
    if n <= 0 {
        0
    } else {
        group_sum(key_of, w, n - 1, k) + if key_of(n - 1) == k {
            w(n - 1)
        } else {
            0nat
        }
    }
}

/// `f` summed over the rows.
pub open spec fn sum_rows<A>(rows: Seq<A>, f: spec_fn(A) -> nat) -> nat
    decreases rows.len(),
{
    if rows.len() == 0 {
        0
    } else {
        sum_rows(rows.drop_last(), f) + f(rows.last())
    }
}

/// No two rows share a key.
pub open spec fn keys_distinct<A, K>(rows: Seq<A>, rk: spec_fn(A) -> K) -> bool {
    forall|i: int, j: int| 0 <= i < j < rows.len() ==> rk(#[trigger] rows[i]) != rk(#[trigger] rows[j])
}

/// Some row has key `k`.
pub open spec fn has_key_row<A, K>(rows: Seq<A>, rk: spec_fn(A) -> K, k: K) -> bool {
    exists|i: int| 0 <= i < rows.len() && rk(#[trigger] rows[i]) == k
}

pub proof fn lemma_sum_rows_congruent<A>(rows: Seq<A>, f: spec_fn(A) -> nat, g: spec_fn(A) -> nat)
    requires
        forall|i: int| 0 <= i < rows.len() ==> f(#[trigger] rows[i]) == g(rows[i]),
    ensures
        sum_rows(rows, f) == sum_rows(rows, g),
    decreases rows.len(),
{
    if rows.len() > 0 {
        assert forall|i: int| 0 <= i < rows.drop_last().len() implies f(#[trigger] rows.drop_last()[i])
            == g(rows.drop_last()[i]) by {
            assert(rows.drop_last()[i] == rows[i]);
        }
        lemma_sum_rows_congruent(rows.drop_last(), f, g);
        assert(f(rows[rows.len() - 1]) == g(rows[rows.len() - 1]));
    }
}

proof fn lemma_sum_rows_add<A>(rows: Seq<A>, f: spec_fn(A) -> nat, g: spec_fn(A) -> nat)
    ensures
        sum_rows(rows, |a: A| f(a) + g(a)) == sum_rows(rows, f) + sum_rows(rows, g),
    decreases rows.len(),
{
    if rows.len() > 0 {
        lemma_sum_rows_add(rows.drop_last(), f, g);
    }
}

proof fn lemma_sum_rows_zero<A>(rows: Seq<A>, f: spec_fn(A) -> nat)
    requires
        forall|i: int| 0 <= i < rows.len() ==> f(#[trigger] rows[i]) == 0,
    ensures
        sum_rows(rows, f) == 0,
    decreases rows.len(),
{
    if rows.len() > 0 {
        assert forall|i: int| 0 <= i < rows.drop_last().len() implies f(#[trigger] rows.drop_last()[i]) == 0 by {
            assert(rows.drop_last()[i] == rows[i]);
        }
        lemma_sum_rows_zero(rows.drop_last(), f);
        assert(f(rows[rows.len() - 1]) == 0);
    }
}

/// Exactly one row has key `k`, so a weight that only that row carries is
/// summed once.
proof fn lemma_sum_rows_single<A, K>(rows: Seq<A>, rk: spec_fn(A) -> K, k: K, v: nat)
    requires
        keys_distinct(rows, rk),
        has_key_row(rows, rk, k),
    ensures
        sum_rows(rows, |a: A| if rk(a) == k { v } else { 0nat }) == v,
    decreases rows.len(),
{
    let f = |a: A| if rk(a) == k { v } else { 0nat };
    let i = choose|i: int| 0 <= i < rows.len() && rk(#[trigger] rows[i]) == k;
    let init = rows.drop_last();
    assert(keys_distinct(init, rk)) by {
        assert forall|a: int, b: int| 0 <= a < b < init.len() implies rk(#[trigger] init[a]) != rk(
            #[trigger] init[b],
        ) by {
            assert(init[a] == rows[a] && init[b] == rows[b]);
        }
    }
    if i == rows.len() - 1 {
        assert forall|j: int| 0 <= j < init.len() implies f(#[trigger] init[j]) == 0 by {
            assert(init[j] == rows[j]);
            assert(rk(rows[j]) != rk(rows[i]));
        }
        lemma_sum_rows_zero(init, f);
    } else {
        assert(init[i] == rows[i]);
        assert(has_key_row(init, rk, k));
        lemma_sum_rows_single(init, rk, k, v);
        assert(rk(rows[i]) != rk(rows[rows.len() - 1]));
    }
}

/// Summing each key's group over rows that hold every key once gives the
/// total: nothing is lost and nothing is counted twice.
pub proof fn lemma_groups_add_up<A, K>(
    rows: Seq<A>,
    rk: spec_fn(A) -> K,
    key_of: spec_fn(int) -> K,
    w: spec_fn(int) -> nat,
    n: int,
)
    requires
        keys_distinct(rows, rk),
        forall|j: int| 0 <= j < n ==> has_key_row(rows, rk, #[trigger] key_of(j)),
    ensures
        sum_rows(rows, |a: A| group_sum(key_of, w, n, rk(a))) == total(w, n),
    decreases n,
{
    if n <= 0 {
        lemma_sum_rows_zero(rows, |a: A| group_sum(key_of, w, n, rk(a)));
    } else {
        lemma_groups_add_up(rows, rk, key_of, w, n - 1);
        let prev = |a: A| group_sum(key_of, w, n - 1, rk(a));
        let k = key_of(n - 1);
        let v = w(n - 1);
        let one = |a: A| if rk(a) == k { v } else { 0nat };
        assert(has_key_row(rows, rk, key_of(n - 1)));
        lemma_sum_rows_single(rows, rk, k, v);
        lemma_sum_rows_add(rows, prev, one);
        assert((|a: A| group_sum(key_of, w, n, rk(a))) =~= (|a: A| prev(a) + one(a)));
    }
}

/// Summing over a sequence made by `Seq::new` is summing over its indices.
pub proof fn lemma_sum_rows_new<A>(n: nat, g: spec_fn(int) -> A, f: spec_fn(A) -> nat)
    ensures
        sum_rows(Seq::new(n, g), f) == total(|j: int| f(g(j)), n as int),
    decreases n,
{
    if n > 0 {
        lemma_sum_rows_new((n - 1) as nat, g, f);
        assert(Seq::new(n, g).drop_last() =~= Seq::new((n - 1) as nat, g));
    }
}

/// Counting one per index gives the number of indices.
pub proof fn lemma_total_ones(n: int)
    requires
        n >= 0,
    ensures
        total(|j: int| 1nat, n) == n,
    decreases n,
{
    if n > 0 {
        lemma_total_ones(n - 1);
    }
}

} // verus!
