//! Facts about runs of operations, stated over the model that the
//! operations' contracts use.
use vstd::prelude::*;
use crate::model::{
    added, answers_for, bucket_or_empty, eq_answers, kept_where, moved, removed_where,
};

verus! {

/// The map reached from `m` by adding each `(score, item)` of `adds` in turn.
pub open spec fn added_all<T>(m: Map<i32, Seq<T>>, adds: Seq<(i32, T)>) -> Map<i32, Seq<T>>
    decreases adds.len(),
{
    if adds.len() == 0 {
        m
    } else {
        added(added_all(m, adds.drop_last()), adds.last().0, adds.last().1)
    }
}

/// The scores of a run of additions.
pub open spec fn scores_of<T>(adds: Seq<(i32, T)>) -> Seq<i32> {
    adds.map_values(|a: (i32, T)| a.0)
}

/// After any run of additions to an empty container, the scores with an
/// entry are exactly the scores that were added under.
pub proof fn lemma_added_scores<T>(adds: Seq<(i32, T)>)
    ensures
        added_all(Map::<i32, Seq<T>>::empty(), adds).dom() == scores_of(adds).to_set(),
    decreases adds.len(),
{
    if adds.len() > 0 {
        let front = adds.drop_last();
        lemma_added_scores(front);
        assert(scores_of(adds) =~= scores_of(front).push(adds.last().0));
        assert(added_all(Map::<i32, Seq<T>>::empty(), adds).dom() =~= scores_of(
            adds,
        ).to_set()) by {
            assert forall|k: i32| #[trigger] scores_of(adds).contains(k) == (
            scores_of(front).contains(k) || k == adds.last().0) by {
                if scores_of(adds).contains(k) && k != adds.last().0 {
                    let j = choose|j: int| 0 <= j < scores_of(adds).len() && scores_of(adds)[j] == k;
                    assert(scores_of(front)[j] == k);
                }
                if scores_of(front).contains(k) {
                    let j = choose|j: int|
                        0 <= j < scores_of(front).len() && scores_of(front)[j] == k;
                    assert(scores_of(adds)[j] == k);
                }
                if k == adds.last().0 {
                    assert(scores_of(adds)[adds.len() - 1] == k);
                }
            }
        }
    }
}

/// Adding `items` one after another under one score leaves that score's
/// bucket as its earlier contents followed by `items`, in the order added.
pub proof fn lemma_added_in_order<T>(m: Map<i32, Seq<T>>, k: i32, items: Seq<T>)
    ensures
        bucket_or_empty(added_all(m, items.map_values(|x: T| (k, x))), k) == bucket_or_empty(m, k)
            + items,
        items.len() > 0 ==> added_all(m, items.map_values(|x: T| (k, x))).contains_key(k),
    decreases items.len(),
{
    let adds = items.map_values(|x: T| (k, x));
    if items.len() == 0 {
        assert(bucket_or_empty(m, k) + items =~= bucket_or_empty(m, k));
    } else {
        let front = items.drop_last();
        lemma_added_in_order(m, k, front);
        assert(adds.drop_last() =~= front.map_values(|x: T| (k, x)));
        assert(bucket_or_empty(m, k) + items =~= (bucket_or_empty(m, k) + front).push(
            items.last(),
        ));
    }
}

/// Removing the only item of a score, when it compares equal, drops the
/// score's entry altogether.
pub proof fn lemma_remove_only_item<T>(m: Map<i32, Seq<T>>, k: i32, ans: Seq<bool>)
    requires
        m.contains_key(k),
        m[k].len() == 1,
        ans.len() == 1,
        ans[0],
    ensures
        removed_where(m, k, ans) == m.remove(k),
        !removed_where(m, k, ans).contains_key(k),
{
    assert(ans.contains(true)) by {
        assert(ans[0] == true);
    }
    assert(m[k].drop_last().len() == 0);
    assert(kept_where(m[k].drop_last(), ans.subrange(0, 0)).len() == 0);
    assert(kept_where(m[k], ans).len() == 0);
}

/// Moving the item at position `p` of the bucket of `from` to the score `to`
/// takes exactly that one item out of `from` (its entry goes with its last
/// item) and appends it to the bucket of `to`; every other score keeps its
/// bucket.
pub proof fn lemma_move_one<T>(m: Map<i32, Seq<T>>, from: i32, to: i32, p: int)
    requires
        m.contains_key(from),
        0 <= p < m[from].len(),
    ensures
        from != to ==> bucket_or_empty(moved(m, from, to, p), from) == m[from].remove(p),
        from != to ==> (moved(m, from, to, p).contains_key(from) <==> m[from].len() > 1),
        from != to ==> moved(m, from, to, p)[to] == bucket_or_empty(m, to).push(m[from][p]),
        from == to ==> moved(m, from, to, p)[to] == m[from].remove(p).push(m[from][p]),
        forall|q: i32|
            q != from && q != to ==> #[trigger] bucket_or_empty(moved(m, from, to, p), q)
                == bucket_or_empty(m, q),
        forall|q: i32|
            q != from && q != to ==> (#[trigger] moved(m, from, to, p).contains_key(q)
                <==> m.contains_key(q)),
{
}

/// An answer that comparing two strings can give is whether they hold the
/// same text.
pub proof fn lemma_string_answer(a: String, b: String, r: bool)
    requires
        eq_answers(a, b, r),
    ensures
        r == (a@ == b@),
{
}

/// Answers recorded for comparing strings with `item` say, item by item,
/// whether it holds the same text as `item`.
pub proof fn lemma_string_answers(b: Seq<String>, item: String, ans: Seq<bool>)
    requires
        answers_for(b, item, ans),
    ensures
        forall|j: int| 0 <= j < b.len() ==> #[trigger] ans[j] == (b[j]@ == item@),
{
    assert forall|j: int| 0 <= j < b.len() implies #[trigger] ans[j] == (b[j]@ == item@) by {
        lemma_string_answer(b[j], item, ans[j]);
    }
}

} // verus!
