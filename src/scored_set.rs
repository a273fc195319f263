//! The container: scores kept in ascending order, each with the items added
//! under it, and no score ever left with an empty bucket.
use vstd::prelude::*;
use vstd::seq_lib::seq_to_set_is_finite;
use crate::model::{
    added, answers_for, clones_of, entry_map, eq_answers, is_first_equal, kept_where,
    is_subsequence, lemma_entry_map_at, picks,
    lemma_entry_map_insert, lemma_entry_map_remove, lemma_entry_map_update, moved, removed_where,
    sorted_entries, strictly_ascending,
};

verus! {

/// A score-ordered multimap from `i32` scores to insertion-ordered buckets of
/// items.
///
/// Mutation takes `&mut self` and reading takes `&self`, so the borrow rules
/// give writers exclusive access and let readers share: a value placed behind
/// a reader/writer lock gets the same discipline across threads.
pub struct ScoredSortedSet<T> {
    entries: Vec<(i32, Vec<T>)>,
}

impl<T> View for ScoredSortedSet<T> {
    type V = Map<i32, Seq<T>>;

    closed spec fn view(&self) -> Map<i32, Seq<T>> {
        entry_map(self.entries@)
    }
}

impl<T> ScoredSortedSet<T> {
    /// Entries are kept by strictly ascending score, and no bucket is empty.
    pub closed spec fn wf(&self) -> bool {
        &&& sorted_entries(self.entries@)
        &&& forall|i: int| 0 <= i < self.entries@.len() ==> (#[trigger] self.entries@[i]).1@.len() > 0
    }

    /// No score that has an entry holds an empty bucket.
    pub proof fn lemma_buckets_nonempty(&self)
        requires
            self.wf(),
        ensures
            forall|k: i32| #[trigger] self@.contains_key(k) ==> self@[k].len() > 0,
    {
        assert forall|k: i32| #[trigger] self@.contains_key(k) implies self@[k].len() > 0 by {
            let i = choose|i: int| 0 <= i < self.entries@.len() && self.entries@[i].0 == k;
            lemma_entry_map_at(self.entries@, i);
        }
    }

    /// The scores with an entry are as many as the stored entries.
    proof fn lemma_dom_len(&self)
        requires
            self.wf(),
        ensures
            self@.dom().finite(),
            self@.dom().len() == self.entries@.len(),
    {
        let ks = self.entries@.map_values(|e: (i32, Vec<T>)| e.0);
        assert(ks.no_duplicates()) by {
            assert forall|a: int, b: int| 0 <= a < ks.len() && 0 <= b < ks.len() && a != b implies ks[a]
                != ks[b] by {
                if a < b {
                    assert(self.entries@[a].0 < self.entries@[b].0);
                } else {
                    assert(self.entries@[b].0 < self.entries@[a].0);
                }
            }
        }
        assert forall|k: i32| #[trigger] ks.contains(k) == self@.dom().contains(k) by {
            if ks.contains(k) {
                let j = choose|j: int| 0 <= j < ks.len() && ks[j] == k;
                assert(self.entries@[j].0 == k);
            }
            if self@.dom().contains(k) {
                let j = choose|j: int| 0 <= j < self.entries@.len() && self.entries@[j].0 == k;
                assert(ks[j] == k);
            }
        }
        assert(ks.to_set() =~= self@.dom());
        seq_to_set_is_finite(ks);
        ks.unique_seq_to_set();
    }

    /// The container holds finitely many scores.
    pub proof fn lemma_finite(&self)
        requires
            self.wf(),
        ensures
            self@.dom().finite(),
    {
        self.lemma_dom_len();
    }

    /// Creates an empty container.
    pub fn new() -> (r: Self)
        ensures
            r.wf(),
            r@ == Map::<i32, Seq<T>>::empty(),
            r@.dom().finite(),
    {
        let r = ScoredSortedSet { entries: Vec::new() };
        assert(r@ =~= Map::<i32, Seq<T>>::empty());
        r
    }

    /// Binary search for `score`: `Ok` with its entry's index, or `Err` with
    /// the index where an entry for it would go.
    fn locate(&self, score: i32) -> (r: Result<usize, usize>)
        requires
            self.wf(),
        ensures
            match r {
                Ok(i) => i < self.entries@.len() && self.entries@[i as int].0 == score,
                Err(i) => {
                    &&& i <= self.entries@.len()
                    &&& forall|j: int| 0 <= j < i ==> self.entries@[j].0 < score
                    &&& forall|j: int| i <= j < self.entries@.len() ==> self.entries@[j].0 > score
                },
            },
    {
        let mut lo: usize = 0;
        let mut hi: usize = self.entries.len();
        while lo < hi
            invariant
                self.wf(),
                lo <= hi <= self.entries@.len(),
                forall|j: int| 0 <= j < lo ==> self.entries@[j].0 < score,
                forall|j: int| hi <= j < self.entries@.len() ==> self.entries@[j].0 > score,
            decreases hi - lo,
        {
            let mid: usize = lo + (hi - lo) / 2;
            let k: i32 = self.entries[mid].0;
            if k == score {
                return Ok(mid);
            } else if k < score {
                assert forall|j: int| 0 <= j <= mid implies self.entries@[j].0 < score by {
                    if j < mid {
                        assert(self.entries@[j].0 < self.entries@[mid as int].0);
                    }
                }
                lo = mid + 1;
            } else {
                assert forall|j: int| mid <= j < self.entries@.len() implies self.entries@[j].0
                    > score by {
                    if mid < j {
                        assert(self.entries@[mid as int].0 < self.entries@[j].0);
                    }
                }
                hi = mid;
            }
        }
        Err(lo)
    }

    /// Appends `item` to the bucket of `score`, creating the bucket when the
    /// score has none.
    pub fn add(&mut self, score: i32, item: T)
        requires
            old(self).wf(),
        ensures
            final(self).wf(),
            final(self)@.dom().finite(),
            final(self)@ == added(old(self)@, score, item),
    {
        match self.locate(score) {
            Ok(i) => {
                let ghost before = self.entries@;
                let mut slot: (i32, Vec<T>) = (score, Vec::new());
                self.entries.set_and_swap(i, &mut slot);
                slot.1.push(item);
                proof {
                    lemma_entry_map_at(before, i as int);
                    lemma_entry_map_update(before, i as int, slot.1);
                }
                self.entries.set(i, slot);
                assert(self.entries@ =~= before.update(i as int, (score, slot.1)));
            },
            Err(i) => {
                let mut bucket: Vec<T> = Vec::new();
                bucket.push(item);
                proof {
                    lemma_entry_map_insert(self.entries@, i as int, score, bucket);
                }
                self.entries.insert(i, (score, bucket));
            },
        }
        proof {
            self.lemma_finite();
        }
    }

    /// Drops from the bucket of `score` every item equal to `item`, and the
    /// entry itself when that leaves its bucket empty. Returns whether any
    /// item was dropped; when none was, nothing changes.
    ///
    /// Each item of the bucket is compared with `item` once, and the items
    /// that compare equal are the ones dropped: the outcome is `removed_where`
    /// of those answers. No other score changes.
    pub fn remove(&mut self, score: i32, item: &T) -> (r: bool)
        where
            T: PartialEq,
        requires
            old(self).wf(),
        ensures
            final(self).wf(),
            final(self)@.dom().finite(),
            !r ==> final(self)@ == old(self)@,
            r ==> old(self)@.contains_key(score),
            final(self)@.remove(score) == old(self)@.remove(score),
            final(self)@.contains_key(score) ==> old(self)@.contains_key(score) && is_subsequence(
                final(self)@[score],
                old(self)@[score],
            ),
            old(self)@.contains_key(score) ==> exists|ans: Seq<bool>|
                {
                    &&& answers_for(old(self)@[score], *item, ans)
                    &&& r == ans.contains(true)
                    &&& final(self)@ == #[trigger] removed_where(old(self)@, score, ans)
                },
    {
        proof {
            self.lemma_finite();
        }
        let i = match self.locate(score) {
            Ok(i) => i,
            Err(_) => {
                return false;
            },
        };
        let ghost before = self.entries@;
        let ghost m = self@;
        proof {
            lemma_entry_map_at(before, i as int);
        }
        let mut slot: (i32, Vec<T>) = (score, Vec::new());
        self.entries.set_and_swap(i, &mut slot);
        let mut rest = slot.1;
        let ghost orig = rest@;
        // Reverse the bucket onto a stack, so that popping yields its items
        // in bucket order.
        let mut pending: Vec<T> = Vec::new();
        while rest.len() > 0
            invariant
                rest@.len() + pending@.len() == orig.len(),
                rest@ == orig.subrange(0, rest@.len() as int),
                forall|j: int|
                    0 <= j < pending@.len() ==> #[trigger] pending@[j] == orig[orig.len() - 1 - j],
            decreases rest@.len(),
        {
            let x = rest.pop().unwrap();
            pending.push(x);
        }
        let mut kept: Vec<T> = Vec::new();
        let mut found = false;
        let ghost mut done: int = 0;
        let ghost mut idx: Seq<int> = Seq::empty();
        let ghost mut ans: Seq<bool> = Seq::empty();
        while pending.len() > 0
            invariant
                0 <= done <= orig.len(),
                pending@.len() == orig.len() - done,
                forall|j: int|
                    0 <= j < pending@.len() ==> #[trigger] pending@[j] == orig[orig.len() - 1 - j],
                answers_for(orig.subrange(0, done), *item, ans),
                kept@ == kept_where(orig.subrange(0, done), ans),
                found == ans.contains(true),
                !found ==> kept@ == orig.subrange(0, done),
                picks(idx, kept@, orig),
                forall|t: int| 0 <= t < idx.len() ==> #[trigger] idx[t] < done,
            decreases pending@.len(),
        {
            let x = pending.pop().unwrap();
            assert(x == orig[done]);
            let eq = x.eq(item);
            proof {
                let next = orig.subrange(0, done + 1);
                assert(eq_answers(x, *item, eq));
                assert(next =~= orig.subrange(0, done).push(x));
                assert(next.drop_last() =~= orig.subrange(0, done));
                assert(ans.push(eq).subrange(0, done) =~= ans);
                assert(answers_for(next, *item, ans.push(eq))) by {
                    assert forall|j: int| 0 <= j < next.len() implies eq_answers(
                        #[trigger] next[j],
                        *item,
                        ans.push(eq)[j],
                    ) by {
                        if j < done {
                            assert(next[j] == orig.subrange(0, done)[j]);
                        }
                    }
                }
                assert(ans.push(eq).contains(true) == (found || eq)) by {
                    if ans.push(eq).contains(true) && !eq {
                        let j = choose|j: int| 0 <= j < ans.push(eq).len() && ans.push(eq)[j] == true;
                        assert(ans[j] == true);
                    }
                    if found {
                        let j = choose|j: int| 0 <= j < ans.len() && ans[j] == true;
                        assert(ans.push(eq)[j] == true);
                    }
                    if eq {
                        assert(ans.push(eq)[done] == true);
                    }
                }
                if !eq {
                    idx = idx.push(done);
                }
                ans = ans.push(eq);
                done = done + 1;
            }
            if !eq {
                kept.push(x);
            } else {
                found = true;
            }
        }
        assert(orig.subrange(0, done) =~= orig);
        assert(is_subsequence(kept@, orig));
        // The answers recorded above witness the contract's `exists`.
        assert(removed_where(m, score, ans) == removed_where(m, score, ans));
        if !found {
            slot.1 = kept;
            proof {
                lemma_entry_map_update(before, i as int, slot.1);
                assert(m.insert(score, orig) =~= m);
            }
            self.entries.set(i, slot);
            assert(self.entries@ =~= before.update(i as int, (score, slot.1)));
            return false;
        }
        if kept.len() == 0 {
            self.entries.remove(i);
            proof {
                lemma_entry_map_remove(before, i as int);
                assert(self.entries@ =~= before.remove(i as int));
                assert(self@.remove(score) =~= m.remove(score));
            }
        } else {
            slot.1 = kept;
            proof {
                lemma_entry_map_update(before, i as int, slot.1);
            }
            self.entries.set(i, slot);
            assert(self.entries@ =~= before.update(i as int, (score, slot.1)));
            assert(self@.remove(score) =~= m.remove(score));
        }
        proof {
            self.lemma_finite();
        }
        true
    }

    /// Moves the first item of the bucket of `old_score` that is equal to
    /// `item` to the end of the bucket of `new_score`, dropping the entry of
    /// `old_score` if that empties it. When no item there is equal to `item`,
    /// nothing changes.
    ///
    /// The items of that bucket are compared with `item` from the front until
    /// one compares equal: that one moves. When none does, nothing changes.
    pub fn update_score(&mut self, old_score: i32, new_score: i32, item: &T)
        where
            T: PartialEq,
        requires
            old(self).wf(),
        ensures
            final(self).wf(),
            final(self)@.dom().finite(),
            !old(self)@.contains_key(old_score) ==> final(self)@ == old(self)@,
            old(self)@.contains_key(old_score) ==> {
                ||| {
                    &&& forall|j: int|
                        0 <= j < old(self)@[old_score].len() ==> eq_answers(
                            #[trigger] old(self)@[old_score][j],
                            *item,
                            false,
                        )
                    &&& final(self)@ == old(self)@
                }
                ||| exists|p: int|
                    {
                        &&& is_first_equal(old(self)@[old_score], *item, p)
                        &&& final(self)@ == #[trigger] moved(old(self)@, old_score, new_score, p)
                    }
            },
    {
        proof {
            self.lemma_finite();
        }
        let i = match self.locate(old_score) {
            Ok(i) => i,
            Err(_) => {
                return;
            },
        };
        let ghost before = self.entries@;
        let ghost m = self@;
        proof {
            lemma_entry_map_at(before, i as int);
        }
        let ghost b = before[i as int].1@;
        let n = self.entries[i].1.len();
        let mut p: usize = 0;
        let mut found = false;
        while p < n && !found
            invariant
                self.entries@ == before,
                i < before.len(),
                n == before[i as int].1@.len(),
                p <= n,
                found ==> p < n,
                b == before[i as int].1@,
                forall|j: int| 0 <= j < p ==> eq_answers(#[trigger] b[j], *item, false),
                found ==> eq_answers(b[p as int], *item, true),
            decreases n - p + (if found { 0int } else { 1int }),
        {
            let e = self.entries[i].1[p].eq(item);
            assert(eq_answers(b[p as int], *item, e));
            if e {
                found = true;
            } else {
                p = p + 1;
            }
        }
        if !found {
            return;
        }
        assert(is_first_equal(b, *item, p as int));
        let mut slot: (i32, Vec<T>) = (old_score, Vec::new());
        self.entries.set_and_swap(i, &mut slot);
        let x = slot.1.remove(p);
        assert(slot.1@ == b.remove(p as int) && x == b[p as int]);
        if slot.1.len() == 0 {
            self.entries.remove(i);
            proof {
                lemma_entry_map_remove(before, i as int);
                assert(self.entries@ =~= before.remove(i as int));
            }
        } else {
            proof {
                lemma_entry_map_update(before, i as int, slot.1);
            }
            self.entries.set(i, slot);
            assert(self.entries@ =~= before.update(i as int, (old_score, slot.1)));
        }
        self.add(new_score, x);
        assert(self@ == moved(m, old_score, new_score, p as int));
        proof {
            self.lemma_finite();
        }
    }

    /// A copy of the bucket of `score`, or `None` when the score has no entry.
    pub fn get(&self, score: i32) -> (r: Option<Vec<T>>)
        where
            T: Clone,
        requires
            self.wf(),
        ensures
            r.is_some() == self@.contains_key(score),
            r matches Some(v) ==> clones_of(self@[score], v@),
    {
        match self.locate(score) {
            Ok(i) => {
                proof {
                    lemma_entry_map_at(self.entries@, i as int);
                }
                Some(self.entries[i].1.clone())
            },
            Err(_) => None,
        }
    }

    /// The `n` greatest scores with copies of their buckets, greatest first;
    /// every entry when there are fewer than `n`.
    pub fn highest_scores(&self, n: usize) -> (r: Vec<(i32, Vec<T>)>)
        where
            T: Clone,
        requires
            self.wf(),
        ensures
            r@.len() <= n,
            r@.len() == if n < self@.dom().len() {
                n as int
            } else {
                self@.dom().len() as int
            },
            forall|i: int, j: int| 0 <= i < j < r@.len() ==> r@[i].0 > r@[j].0,
            forall|i: int|
                0 <= i < r@.len() ==> {
                    &&& self@.contains_key(#[trigger] r@[i].0)
                    &&& clones_of(self@[r@[i].0], r@[i].1@)
                },
            forall|i: int, k: i32|
                #![trigger self@.contains_key(k), r@[i]]
                0 <= i < r@.len() && self@.contains_key(k) && k > r@[i].0 ==> exists|
                    j: int,
                | 0 <= j < i && #[trigger] r@[j].0 == k,
            r@.len() < n ==> forall|k: i32|
                #[trigger] self@.contains_key(k) ==> exists|j: int|
                    0 <= j < r@.len() && #[trigger] r@[j].0 == k,
    {
        proof {
            self.lemma_dom_len();
        }
        let len = self.entries.len();
        let mut r: Vec<(i32, Vec<T>)> = Vec::new();
        let mut i: usize = 0;
        while i < n && i < len
            invariant
                self.wf(),
                len == self.entries@.len(),
                i <= len,
                i <= n,
                r@.len() == i,
                forall|j: int|
                    0 <= j < i ==> {
                        &&& (#[trigger] r@[j]).0 == self.entries@[len - 1 - j].0
                        &&& clones_of(self.entries@[len - 1 - j].1@, r@[j].1@)
                    },
            decreases len - i,
        {
            let e = &self.entries[len - 1 - i];
            r.push((e.0, e.1.clone()));
            i = i + 1;
        }
        assert forall|a: int, b: int| 0 <= a < b < r@.len() implies r@[a].0 > r@[b].0 by {
            assert(r@[a].0 == self.entries@[len - 1 - a].0);
            assert(r@[b].0 == self.entries@[len - 1 - b].0);
        }
        assert forall|j: int| 0 <= j < r@.len() implies {
            &&& self@.contains_key(#[trigger] r@[j].0)
            &&& clones_of(self@[r@[j].0], r@[j].1@)
        } by {
            assert(r@[j].0 == self.entries@[len - 1 - j].0);
            lemma_entry_map_at(self.entries@, len - 1 - j);
        }
        assert forall|a: int, k: i32|
            #![trigger self@.contains_key(k), r@[a]]
            0 <= a < r@.len() && self@.contains_key(k) && k > r@[a].0 implies exists|
                j: int,
            | 0 <= j < a && #[trigger] r@[j].0 == k by {
            let m = choose|m: int| 0 <= m < len && self.entries@[m].0 == k;
            assert(r@[a].0 == self.entries@[len - 1 - a].0);
            if m <= len - 1 - a {
                if m < len - 1 - a {
                    assert(self.entries@[m].0 < self.entries@[len - 1 - a].0);
                }
            } else {
                assert(r@[len - 1 - m].0 == k);
            }
        }
        assert forall|k: i32| r@.len() < n && #[trigger] self@.contains_key(k) implies exists|j: int|
            0 <= j < r@.len() && #[trigger] r@[j].0 == k by {
            let m = choose|m: int| 0 <= m < len && self.entries@[m].0 == k;
            assert(r@[len - 1 - m].0 == k);
        }
        r
    }

    /// The greatest score with a copy of its bucket, or `None` when the
    /// container is empty.
    pub fn highest_score(&self) -> (r: Option<(i32, Vec<T>)>)
        where
            T: Clone,
        requires
            self.wf(),
        ensures
            self@.dom().finite(),
            r.is_none() == (self@.dom().len() == 0),
            r.is_none() == (self@.dom() == Set::<i32>::empty()),
            r matches Some((k, v)) ==> {
                &&& self@.contains_key(k)
                &&& clones_of(self@[k], v@)
                &&& forall|q: i32| #[trigger] self@.contains_key(q) ==> q <= k
            },
    {
        let len = self.entries.len();
        if len == 0 {
            assert(self@.dom() =~= Set::<i32>::empty());
            proof {
                self.lemma_dom_len();
            }
            return None;
        }
        let e = &self.entries[len - 1];
        proof {
            lemma_entry_map_at(self.entries@, len - 1);
            assert forall|q: i32| #[trigger] self@.contains_key(q) implies q <= e.0 by {
                let m = choose|m: int| 0 <= m < len && self.entries@[m].0 == q;
                if m < len - 1 {
                    assert(self.entries@[m].0 < self.entries@[len - 1].0);
                }
            }
            assert(self@.dom().contains(e.0));
            self.lemma_dom_len();
        }
        Some((e.0, e.1.clone()))
    }

    /// The least score with a copy of its bucket, or `None` when the
    /// container is empty.
    pub fn lowest_score(&self) -> (r: Option<(i32, Vec<T>)>)
        where
            T: Clone,
        requires
            self.wf(),
        ensures
            self@.dom().finite(),
            r.is_none() == (self@.dom().len() == 0),
            r.is_none() == (self@.dom() == Set::<i32>::empty()),
            r matches Some((k, v)) ==> {
                &&& self@.contains_key(k)
                &&& clones_of(self@[k], v@)
                &&& forall|q: i32| #[trigger] self@.contains_key(q) ==> k <= q
            },
    {
        if self.entries.len() == 0 {
            assert(self@.dom() =~= Set::<i32>::empty());
            proof {
                self.lemma_dom_len();
            }
            return None;
        }
        let e = &self.entries[0];
        proof {
            lemma_entry_map_at(self.entries@, 0);
            assert forall|q: i32| #[trigger] self@.contains_key(q) implies e.0 <= q by {
                let m = choose|m: int| 0 <= m < self.entries@.len() && self.entries@[m].0 == q;
                if 0 < m {
                    assert(self.entries@[0].0 < self.entries@[m].0);
                }
            }
            assert(self@.dom().contains(e.0));
            self.lemma_dom_len();
        }
        Some((e.0, e.1.clone()))
    }

    /// Every score that has an entry, ascending, each once.
    pub fn all_scores(&self) -> (r: Vec<i32>)
        requires
            self.wf(),
        ensures
            strictly_ascending(r@),
            r@.to_set() == self@.dom(),
    {
        let mut r: Vec<i32> = Vec::new();
        let mut i: usize = 0;
        while i < self.entries.len()
            invariant
                self.wf(),
                i <= self.entries@.len(),
                r@.len() == i,
                forall|j: int| 0 <= j < i ==> r@[j] == self.entries@[j].0,
            decreases self.entries@.len() - i,
        {
            r.push(self.entries[i].0);
            i = i + 1;
        }
        assert forall|k: i32| #[trigger] r@.contains(k) == self@.dom().contains(k) by {
            if r@.contains(k) {
                let j = choose|j: int| 0 <= j < r@.len() && r@[j] == k;
                assert(self.entries@[j].0 == k);
            }
            if self@.dom().contains(k) {
                let j = choose|j: int| 0 <= j < self.entries@.len() && self.entries@[j].0 == k;
                assert(r@[j] == k);
            }
        }
        assert(r@.to_set() =~= self@.dom());
        r
    }
}

} // verus!
