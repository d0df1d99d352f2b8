//! Strictly sorted sequences: such a sequence is determined by the set of
//! its elements. The tables of a profile and the rows of the collapsed
//! output are kept this way, which is what makes them a function of their
//! input.

use vstd::prelude::*;

verus! {

pub open spec fn strictly_sorted<A>(s: Seq<A>, lt: spec_fn(A, A) -> bool) -> bool {
    forall|i: int, j: int| 0 <= i < j < s.len() ==> #[trigger] lt(s[i], s[j])
}

/// `lt` is a strict order, total on the elements of `s`.
pub open spec fn strict_order_on<A>(s: Seq<A>, lt: spec_fn(A, A) -> bool) -> bool {
    &&& forall|x: A| !#[trigger] lt(x, x)
    &&& forall|x: A, y: A, z: A| #[trigger] lt(x, y) && #[trigger] lt(y, z) ==> lt(x, z)
    &&& forall|x: A, y: A|
        s.contains(x) && s.contains(y) && x != y ==> #[trigger] lt(x, y) || #[trigger] lt(y, x)
}

proof fn lemma_first_not_in_tail<A>(s: Seq<A>, lt: spec_fn(A, A) -> bool)
    requires
        s.len() > 0,
        strictly_sorted(s, lt),
        forall|x: A| !#[trigger] lt(x, x),
    ensures
        forall|x: A| s.drop_first().contains(x) <==> (s.contains(x) && x != s[0]),
{
    assert forall|x: A| s.drop_first().contains(x) <==> (s.contains(x) && x != s[0]) by {
        if s.drop_first().contains(x) {
            let i = choose|i: int| 0 <= i < s.drop_first().len() && s.drop_first()[i] == x;
            assert(s[i + 1] == x);
            assert(lt(s[0], s[i + 1]));
        }
        if s.contains(x) && x != s[0] {
            let i = choose|i: int| 0 <= i < s.len() && s[i] == x;
            assert(i != 0);
            assert(s.drop_first()[i - 1] == x);
        }
    }
}

/// Two sequences strictly sorted by the same strict order, with the same
/// elements, are the same sequence.
pub proof fn lemma_sorted_unique<A>(s1: Seq<A>, s2: Seq<A>, lt: spec_fn(A, A) -> bool)
    requires
        strictly_sorted(s1, lt),
        strictly_sorted(s2, lt),
        strict_order_on(s1, lt),
        forall|x: A| s1.contains(x) <==> s2.contains(x),
    ensures
        s1 == s2,
    decreases s1.len(),
{
    if s1.len() == 0 {
        if s2.len() > 0 {
            assert(s2.contains(s2[0]));
        }
        assert(s1 =~= s2);
    } else {
        assert(s1.contains(s1[0]));
        let a = s1[0];
        let b = s2[0];
        if a != b {
            let i = choose|i: int| 0 <= i < s1.len() && s1[i] == b;
            let j = choose|j: int| 0 <= j < s2.len() && s2[j] == a;
            assert(s2.contains(b));
            assert(i != 0 && j != 0);
            assert(lt(s1[0], s1[i]));
            assert(lt(s2[0], s2[j]));
            assert(lt(a, a));
        }
        lemma_first_not_in_tail(s1, lt);
        lemma_first_not_in_tail(s2, lt);
        let t1 = s1.drop_first();
        let t2 = s2.drop_first();
        assert(strictly_sorted(t1, lt)) by {
            assert forall|i: int, j: int| 0 <= i < j < t1.len() implies #[trigger] lt(t1[i], t1[j]) by {
                assert(lt(s1[i + 1], s1[j + 1]));
            }
        }
        assert(strictly_sorted(t2, lt)) by {
            assert forall|i: int, j: int| 0 <= i < j < t2.len() implies #[trigger] lt(t2[i], t2[j]) by {
                assert(lt(s2[i + 1], s2[j + 1]));
            }
        }
        assert(strict_order_on(t1, lt)) by {
            assert forall|x: A, y: A|
                t1.contains(x) && t1.contains(y) && x != y implies #[trigger] lt(x, y) || #[trigger] lt(
                y,
                x,
            ) by {
                assert(s1.contains(x) && s1.contains(y));
            }
        }
        assert(a == b);
        assert forall|x: A| t1.contains(x) <==> t2.contains(x) by {
            assert(t1.contains(x) <==> (s1.contains(x) && x != a));
            assert(t2.contains(x) <==> (s2.contains(x) && x != b));
            assert(s1.contains(x) <==> s2.contains(x));
        }
        lemma_sorted_unique(t1, t2, lt);
        assert(s1 =~= seq![a] + t1);
        assert(s2 =~= seq![b] + t2);
    }
}

} // verus!
