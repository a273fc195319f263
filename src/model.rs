//! Mathematical model of the container: a map from score to a non-empty,
//! insertion-ordered sequence of items, and the entry list that stores it.
use vstd::prelude::*;

verus! {

/// The bucket stored under `k`, or the empty sequence when `k` has no entry.
pub open spec fn bucket_or_empty<T>(m: Map<i32, Seq<T>>, k: i32) -> Seq<T> {
    if m.contains_key(k) {
        m[k]
    } else {
        Seq::empty()
    }
}

/// `m` after appending `item` to the bucket of `k`, creating the bucket if needed.
pub open spec fn added<T>(m: Map<i32, Seq<T>>, k: i32, item: T) -> Map<i32, Seq<T>> {
    m.insert(k, bucket_or_empty(m, k).push(item))
}

/// Every element of the sequence is strictly below the next one.
pub open spec fn strictly_ascending(s: Seq<i32>) -> bool {
    forall|i: int, j: int| 0 <= i < j < s.len() ==> s[i] < s[j]
}

/// `b` holds, position by position, clones of the items of `a`.
pub open spec fn clones_of<T: Clone>(a: Seq<T>, b: Seq<T>) -> bool {
    &&& a.len() == b.len()
    &&& forall|i: int| 0 <= i < a.len() ==> cloned(#[trigger] a[i], b[i])
}

/// `r` is an answer that `a == b` can give.
pub open spec fn eq_answers<T: PartialEq>(a: T, b: T, r: bool) -> bool {
    call_ensures(T::eq, (&a, &b), r)
}

/// `ans` holds, for each item of `b` in turn, an answer that comparing it
/// with `item` can give.
pub open spec fn answers_for<T: PartialEq>(b: Seq<T>, item: T, ans: Seq<bool>) -> bool {
    &&& ans.len() == b.len()
    &&& forall|j: int| 0 <= j < b.len() ==> eq_answers(#[trigger] b[j], item, ans[j])
}

/// The items of `b` whose answer in `ans` is `false`, in order.
pub open spec fn kept_where<T>(b: Seq<T>, ans: Seq<bool>) -> Seq<T>
    decreases b.len(),
{
    if b.len() == 0 {
        Seq::empty()
    } else {
        let front = kept_where(b.drop_last(), ans.subrange(0, b.len() - 1));
        if ans[b.len() - 1] {
            front
        } else {
            front.push(b.last())
        }
    }
}

/// `m` after dropping from the bucket of `k` the items whose answer in `ans`
/// is `true`; the entry goes when its bucket is left empty, and nothing
/// changes when no answer is `true`.
pub open spec fn removed_where<T>(m: Map<i32, Seq<T>>, k: i32, ans: Seq<bool>) -> Map<i32, Seq<T>> {
    if !ans.contains(true) {
        m
    } else if kept_where(m[k], ans).len() == 0 {
        m.remove(k)
    } else {
        m.insert(k, kept_where(m[k], ans))
    }
}

/// Comparing `item` with the items of `b` from the front answers `false`
/// until position `p`, which answers `true`.
pub open spec fn is_first_equal<T: PartialEq>(b: Seq<T>, item: T, p: int) -> bool {
    &&& 0 <= p < b.len()
    &&& eq_answers(b[p], item, true)
    &&& forall|j: int| 0 <= j < p ==> eq_answers(#[trigger] b[j], item, false)
}

/// `idx` lists, in increasing order, positions of `t` that hold the items of `s`.
pub open spec fn picks<T>(idx: Seq<int>, s: Seq<T>, t: Seq<T>) -> bool {
    &&& idx.len() == s.len()
    &&& forall|i: int| 0 <= i < s.len() ==> 0 <= #[trigger] idx[i] < t.len() && s[i] == t[idx[i]]
    &&& forall|i: int, j: int| 0 <= i < j < s.len() ==> idx[i] < idx[j]
}

/// `s` is `t` with some of its items left out.
pub open spec fn is_subsequence<T>(s: Seq<T>, t: Seq<T>) -> bool {
    exists|idx: Seq<int>| picks(idx, s, t)
}

/// `m` after taking the item at position `p` out of the bucket of `from`
/// (dropping the entry if that empties it) and appending it to the bucket of
/// `to`.
pub open spec fn moved<T>(m: Map<i32, Seq<T>>, from: i32, to: i32, p: int) -> Map<i32, Seq<T>> {
    let rest = m[from].remove(p);
    let mid = if rest.len() == 0 {
        m.remove(from)
    } else {
        m.insert(from, rest)
    };
    added(mid, to, m[from][p])
}

/// The entries are ordered by strictly ascending score.
pub(crate) open spec fn sorted_entries<T>(s: Seq<(i32, Vec<T>)>) -> bool {
    forall|i: int, j: int| 0 <= i < j < s.len() ==> s[i].0 < s[j].0
}

/// Some entry of the list has score `k`.
pub(crate) open spec fn has_entry<T>(s: Seq<(i32, Vec<T>)>, k: i32) -> bool {
    exists|i: int| 0 <= i < s.len() && s[i].0 == k
}

/// The map that an entry list stands for.
pub(crate) open spec fn entry_map<T>(s: Seq<(i32, Vec<T>)>) -> Map<i32, Seq<T>> {
    Map::new(
        |k: i32| has_entry(s, k),
        |k: i32| s[choose|i: int| 0 <= i < s.len() && s[i].0 == k].1@,
    )
}

/// The entry at index `i` is what the map holds under its score.
pub(crate) proof fn lemma_entry_map_at<T>(s: Seq<(i32, Vec<T>)>, i: int)
    requires
        sorted_entries(s),
        0 <= i < s.len(),
    ensures
        entry_map(s).contains_key(s[i].0),
        entry_map(s)[s[i].0] == s[i].1@,
{
    assert(has_entry(s, s[i].0));
    let j = choose|j: int| 0 <= j < s.len() && s[j].0 == s[i].0;
    assert(j == i) by {
        if j < i {
            assert(s[j].0 < s[i].0);
        } else if i < j {
            assert(s[i].0 < s[j].0);
        }
    }
}

/// Replacing the bucket of one entry replaces it in the map.
pub(crate) proof fn lemma_entry_map_update<T>(s: Seq<(i32, Vec<T>)>, i: int, b: Vec<T>)
    requires
        sorted_entries(s),
        0 <= i < s.len(),
    ensures
        sorted_entries(s.update(i, (s[i].0, b))),
        entry_map(s.update(i, (s[i].0, b))) == entry_map(s).insert(s[i].0, b@),
{
    let t = s.update(i, (s[i].0, b));
    let m = entry_map(s).insert(s[i].0, b@);
    assert(sorted_entries(t)) by {
        assert forall|x: int, y: int| 0 <= x < y < t.len() implies t[x].0 < t[y].0 by {
            assert(s[x].0 < s[y].0);
        }
    }
    assert forall|k: i32| #[trigger] has_entry(t, k) == m.contains_key(k) by {
        if has_entry(t, k) {
            let j = choose|j: int| 0 <= j < t.len() && t[j].0 == k;
            assert(s[j].0 == k);
            lemma_entry_map_at(s, j);
        }
        if m.contains_key(k) && k != s[i].0 {
            let j = choose|j: int| 0 <= j < s.len() && s[j].0 == k;
            assert(t[j].0 == k);
        }
        if k == s[i].0 {
            assert(t[i].0 == k);
        }
    }
    assert forall|k: i32| #[trigger] m.contains_key(k) implies entry_map(t)[k] == m[k] by {
        if k == s[i].0 {
            lemma_entry_map_at(t, i);
        } else {
            let j = choose|j: int| 0 <= j < s.len() && s[j].0 == k;
            lemma_entry_map_at(s, j);
            lemma_entry_map_at(t, j);
        }
    }
    assert(entry_map(t) =~= m);
}

/// Inserting an entry at its place in the order adds its score to the map.
pub(crate) proof fn lemma_entry_map_insert<T>(s: Seq<(i32, Vec<T>)>, p: int, k: i32, b: Vec<T>)
    requires
        sorted_entries(s),
        0 <= p <= s.len(),
        forall|j: int| 0 <= j < p ==> s[j].0 < k,
        forall|j: int| p <= j < s.len() ==> s[j].0 > k,
    ensures
        sorted_entries(s.insert(p, (k, b))),
        !entry_map(s).contains_key(k),
        entry_map(s.insert(p, (k, b))) == entry_map(s).insert(k, b@),
{
    let t = s.insert(p, (k, b));
    let m = entry_map(s).insert(k, b@);
    assert(sorted_entries(t)) by {
        assert forall|x: int, y: int| 0 <= x < y < t.len() implies t[x].0 < t[y].0 by {
            if y < p {
                assert(s[x].0 < s[y].0);
            } else if y == p {
            } else if x < p {
            } else if x == p {
                assert(t[y] == s[y - 1]);
            } else {
                assert(s[x - 1].0 < s[y - 1].0);
            }
        }
    }
    assert(!has_entry(s, k));
    assert forall|q: i32| #[trigger] has_entry(t, q) == m.contains_key(q) by {
        if has_entry(t, q) && q != k {
            let j = choose|j: int| 0 <= j < t.len() && t[j].0 == q;
            if j < p {
                assert(s[j].0 == q);
            } else {
                assert(s[j - 1].0 == q);
            }
        }
        if m.contains_key(q) && q != k {
            let j = choose|j: int| 0 <= j < s.len() && s[j].0 == q;
            if j < p {
                assert(t[j].0 == q);
            } else {
                assert(t[j + 1].0 == q);
            }
        }
        if q == k {
            assert(t[p].0 == k);
        }
    }
    assert forall|q: i32| #[trigger] m.contains_key(q) implies entry_map(t)[q] == m[q] by {
        if q == k {
            lemma_entry_map_at(t, p);
        } else {
            let j = choose|j: int| 0 <= j < s.len() && s[j].0 == q;
            lemma_entry_map_at(s, j);
            if j < p {
                lemma_entry_map_at(t, j);
            } else {
                lemma_entry_map_at(t, j + 1);
            }
        }
    }
    assert(entry_map(t) =~= m);
}

/// Removing an entry removes its score from the map.
pub(crate) proof fn lemma_entry_map_remove<T>(s: Seq<(i32, Vec<T>)>, i: int)
    requires
        sorted_entries(s),
        0 <= i < s.len(),
    ensures
        sorted_entries(s.remove(i)),
        entry_map(s.remove(i)) == entry_map(s).remove(s[i].0),
{
    let t = s.remove(i);
    let k = s[i].0;
    let m = entry_map(s).remove(k);
    assert(sorted_entries(t)) by {
        assert forall|x: int, y: int| 0 <= x < y < t.len() implies t[x].0 < t[y].0 by {
            if y < i {
                assert(s[x].0 < s[y].0);
            } else if x < i {
                assert(s[x].0 < s[y + 1].0);
            } else {
                assert(s[x + 1].0 < s[y + 1].0);
            }
        }
    }
    assert forall|q: i32| #[trigger] has_entry(t, q) == m.contains_key(q) by {
        if has_entry(t, q) {
            let j = choose|j: int| 0 <= j < t.len() && t[j].0 == q;
            if j < i {
                assert(s[j].0 == q);
                assert(s[j].0 < k);
            } else {
                assert(s[j + 1].0 == q);
                assert(s[j + 1].0 > k);
            }
        }
        if m.contains_key(q) {
            let j = choose|j: int| 0 <= j < s.len() && s[j].0 == q;
            if j < i {
                assert(t[j].0 == q);
            } else {
                assert(t[j - 1].0 == q);
            }
        }
    }
    assert forall|q: i32| #[trigger] m.contains_key(q) implies entry_map(t)[q] == m[q] by {
        let j = choose|j: int| 0 <= j < s.len() && s[j].0 == q;
        lemma_entry_map_at(s, j);
        if j < i {
            lemma_entry_map_at(t, j);
        } else {
            lemma_entry_map_at(t, j - 1);
        }
    }
    assert(entry_map(t) =~= m);
}

} // verus!
