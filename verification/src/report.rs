//! The final report: the collected successes, sorted by response time.
//!
//! The sort is stable: entries with equal response times keep the
//! order in which their verifications completed.

use vstd::prelude::*;

use vstd::seq_lib::lemma_multiset_commutative;

use crate::geo::ProxyResult;

verus! {

broadcast use {vstd::seq_lib::group_to_multiset_ensures, vstd::multiset::group_multiset_axioms};

/// `a` answered no slower than `b`.
pub open spec fn time_le(a: ProxyResult, b: ProxyResult) -> bool {
    a.response_time_ms <= b.response_time_ms
}

/// `s` is ordered by ascending response time.
pub open spec fn sorted_by_time(s: Seq<ProxyResult>) -> bool {
    forall|i: int, j: int| 0 <= i < j < s.len() ==> time_le(#[trigger] s[i], #[trigger] s[j])
}

/// Where a stable insertion puts `x`: the first index whose entry is
/// strictly slower, so `x` lands after every entry it ties with.
pub open spec fn insert_pos(s: Seq<ProxyResult>, x: ProxyResult) -> int
    decreases s.len(),
{
    if s.len() == 0 {
        0
    } else if s[0].response_time_ms > x.response_time_ms {
        0
    } else {
        1 + insert_pos(s.drop_first(), x)
    }
}

/// `s` with `x` inserted at its stable position.
pub open spec fn insert_by_time(s: Seq<ProxyResult>, x: ProxyResult) -> Seq<ProxyResult> {
    s.insert(insert_pos(s, x), x)
}

/// The stable sort of `s` by ascending response time.
pub open spec fn sort_by_time(s: Seq<ProxyResult>) -> Seq<ProxyResult>
    decreases s.len(),
{
    if s.len() == 0 {
        Seq::empty()
    } else {
        insert_by_time(sort_by_time(s.drop_last()), s.last())
    }
}

proof fn lemma_insert_pos_props(s: Seq<ProxyResult>, x: ProxyResult)
    ensures
        0 <= insert_pos(s, x) <= s.len(),
        forall|i: int|
            0 <= i < insert_pos(s, x) ==> (#[trigger] s[i]).response_time_ms
                <= x.response_time_ms,
        insert_pos(s, x) < s.len() ==> s[insert_pos(s, x)].response_time_ms
            > x.response_time_ms,
    decreases s.len(),
{
    if s.len() > 0 && s[0].response_time_ms <= x.response_time_ms {
        lemma_insert_pos_props(s.drop_first(), x);
        assert forall|i: int| 0 <= i < insert_pos(s, x) implies (#[trigger] s[i]).response_time_ms
            <= x.response_time_ms by {
            if i > 0 {
                assert(s[i] == s.drop_first()[i - 1]);
            }
        }
    }
}

proof fn lemma_insert_by_time_props(s: Seq<ProxyResult>, x: ProxyResult)
    requires
        sorted_by_time(s),
    ensures
        sorted_by_time(insert_by_time(s, x)),
        insert_by_time(s, x).to_multiset() == s.to_multiset().insert(x),
        insert_by_time(s, x).len() == s.len() + 1,
{
    lemma_insert_pos_props(s, x);
    let p = insert_pos(s, x);
    s.insert_ensures(p, x);
    let t = insert_by_time(s, x);
    assert forall|i: int, j: int| 0 <= i < j < t.len() implies time_le(t[i], t[j]) by {
        if j < p {
            assert(t[i] == s[i] && t[j] == s[j]);
        } else if i > p {
            assert(t[i] == s[i - 1] && t[j] == s[j - 1]);
        } else if i < p && j == p {
            assert(t[i] == s[i] && t[j] == x);
        } else if i < p && j > p {
            assert(t[i] == s[i] && t[j] == s[j - 1]);
            if j - 1 > i {
            } else {
                assert(i == p - 1 && j == p + 1 - 1 + 1);
            }
        } else if i == p {
            assert(t[i] == x && t[j] == s[j - 1]);
            assert(s[j - 1].response_time_ms >= s[p].response_time_ms);
        }
    }
    let front = s.subrange(0, p);
    let back = s.subrange(p, s.len() as int);
    assert(t =~= front.push(x) + back);
    assert(s =~= front + back);
    lemma_multiset_commutative(front.push(x), back);
    lemma_multiset_commutative(front, back);
    assert(front.push(x).to_multiset() =~= front.to_multiset().insert(x));
    assert(t.to_multiset() =~= s.to_multiset().insert(x));
}

/// The sorted report is ordered by ascending response time and holds
/// exactly the entries it was given, no more and no fewer.
pub proof fn lemma_sort_by_time_ensures(s: Seq<ProxyResult>)
    ensures
        sorted_by_time(sort_by_time(s)),
        sort_by_time(s).to_multiset() == s.to_multiset(),
        sort_by_time(s).len() == s.len(),
    decreases s.len(),
{
    if s.len() > 0 {
        lemma_sort_by_time_ensures(s.drop_last());
        lemma_insert_by_time_props(sort_by_time(s.drop_last()), s.last());
        assert(s =~= s.drop_last().push(s.last()));
    }
}

/// Stability: among the entries of any one response time, the sort
/// keeps their order of arrival — it never swaps ties.
pub proof fn lemma_sort_by_time_stable(s: Seq<ProxyResult>, t: u128)
    ensures
        sort_by_time(s).filter(|r: ProxyResult| r.response_time_ms == t) == s.filter(
            |r: ProxyResult| r.response_time_ms == t,
        ),
    decreases s.len(),
{
    let pred = |r: ProxyResult| r.response_time_ms == t;
    reveal_with_fuel(Seq::<ProxyResult>::filter, 2);
    if s.len() == 0 {
        assert(sort_by_time(s) =~= s);
    } else {
        let x = s.last();
        let pre = sort_by_time(s.drop_last());
        lemma_sort_by_time_ensures(s.drop_last());
        lemma_sort_by_time_stable(s.drop_last(), t);
        lemma_insert_pos_props(pre, x);
        let p = insert_pos(pre, x);
        let a = pre.subrange(0, p);
        let b = pre.subrange(p, pre.len() as int);
        let single = seq![x];
        assert(insert_by_time(pre, x) =~= a + (single + b));
        assert(pre =~= a + b);
        assert(s =~= s.drop_last() + single);
        Seq::filter_distributes_over_add(a, single + b, pred);
        Seq::filter_distributes_over_add(single, b, pred);
        Seq::filter_distributes_over_add(a, b, pred);
        Seq::filter_distributes_over_add(s.drop_last(), single, pred);
        assert(single.drop_last() =~= Seq::<ProxyResult>::empty());
        assert(Seq::<ProxyResult>::empty().filter(pred) =~= Seq::<ProxyResult>::empty());
        if pred(x) {
            assert(single.filter(pred) =~= Seq::<ProxyResult>::empty().push(x));
            // Everything at or past the insertion point is strictly
            // slower than x, so none of it carries x's time t.
            assert forall|i: int| 0 <= i < b.len() implies !pred(#[trigger] b[i]) by {
                assert(b[i] == pre[p + i]);
                if i > 0 {
                    assert(time_le(pre[p], pre[p + i]));
                }
            }
            b.lemma_all_neg_filter_empty(pred);
            assert(b.filter(pred) =~= Seq::<ProxyResult>::empty());
            assert(sort_by_time(s).filter(pred) =~= pre.filter(pred) + single.filter(pred));
            assert(sort_by_time(s).filter(pred) =~= s.filter(pred));
        } else {
            assert(single.filter(pred) =~= Seq::<ProxyResult>::empty());
            assert(sort_by_time(s).filter(pred) =~= pre.filter(pred));
            assert(sort_by_time(s).filter(pred) =~= s.filter(pred));
        }
    }
}

/// The first index of `v` whose entry is strictly slower than `x`.
fn lower_insert_index(v: &Vec<ProxyResult>, x: &ProxyResult) -> (i: usize)
    ensures
        i as int == insert_pos(v@, *x),
        i <= v@.len(),
{
    let mut i: usize = 0;
    loop
        invariant
            i <= v@.len(),
            forall|j: int|
                0 <= j < i ==> (#[trigger] v@[j]).response_time_ms <= x.response_time_ms,
        decreases v@.len() - i,
    {
        if i == v.len() {
            proof {
                lemma_insert_pos_props(v@, *x);
            }
            return i;
        }
        if v[i].response_time_ms > x.response_time_ms {
            proof {
                lemma_insert_pos_props(v@, *x);
            }
            return i;
        }
        i = i + 1;
    }
}

/// Sorts the collected successes by ascending response time.  The
/// sort is stable: ties keep their arrival order.
pub fn sort_results(results: Vec<ProxyResult>) -> (r: Vec<ProxyResult>)
    ensures
        r@ == sort_by_time(results@),
        sorted_by_time(r@),
        r@.to_multiset() == results@.to_multiset(),
        r@.len() == results@.len(),
{
    let ghost all = results@;
    let mut rest = results;
    let mut out: Vec<ProxyResult> = Vec::new();
    let ghost k: int = 0;
    proof {
        assert(all.subrange(0, 0) =~= Seq::<ProxyResult>::empty());
        assert(all.subrange(0, all.len() as int) =~= all);
    }
    while rest.len() > 0
        invariant
            0 <= k <= all.len(),
            rest@ =~= all.subrange(k, all.len() as int),
            out@ == sort_by_time(all.subrange(0, k)),
            sorted_by_time(out@),
        decreases rest@.len(),
    {
        let x = rest.remove(0);
        proof {
            assert(x == all[k]);
            assert(rest@ =~= all.subrange(k + 1, all.len() as int));
            lemma_insert_by_time_props(out@, x);
            assert(all.subrange(0, k + 1).drop_last() =~= all.subrange(0, k));
            assert(all.subrange(0, k + 1).last() == all[k]);
        }
        let i = lower_insert_index(&out, &x);
        out.insert(i, x);
        proof {
            k = k + 1;
        }
    }
    proof {
        assert(all.subrange(0, k) =~= all);
        lemma_sort_by_time_ensures(all);
    }
    out
}

} // verus!
