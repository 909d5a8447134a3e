use vstd::prelude::*;

verus! {

/// Total number of items held by a row of buckets.
pub open spec fn total_len<T>(buckets: Seq<Vec<T>>) -> nat
    decreases buckets.len(),
{
    if buckets.len() == 0 {
        0
    } else {
        total_len(buckets.drop_last()) + buckets.last()@.len()
    }
}

/// Replacing one bucket changes the total by the change in that bucket's length.
pub proof fn lemma_total_len_update<T>(buckets: Seq<Vec<T>>, i: int, bucket: Vec<T>)
    requires
        0 <= i < buckets.len(),
    ensures
        total_len(buckets.update(i, bucket)) + buckets[i]@.len() == total_len(buckets)
            + bucket@.len(),
    decreases buckets.len(),
{
    let updated = buckets.update(i, bucket);
    if i == buckets.len() - 1 {
        assert(updated.drop_last() =~= buckets.drop_last());
    } else {
        assert(updated.drop_last() =~= buckets.drop_last().update(i, bucket));
        lemma_total_len_update(buckets.drop_last(), i, bucket);
    }
}

/// Two rows whose buckets agree in length hold the same total.
pub proof fn lemma_total_len_congruent<T>(left: Seq<Vec<T>>, right: Seq<Vec<T>>)
    requires
        left.len() == right.len(),
        forall|i: int| 0 <= i < left.len() ==> (#[trigger] left[i])@.len() == right[i]@.len(),
    ensures
        total_len(left) == total_len(right),
    decreases left.len(),
{
    if left.len() > 0 {
        assert forall|i: int| 0 <= i < left.drop_last().len() implies (
        #[trigger] left.drop_last()[i])@.len() == right.drop_last()[i]@.len() by {
            assert(left[i]@.len() == right[i]@.len());
        }
        lemma_total_len_congruent(left.drop_last(), right.drop_last());
        assert(left[left.len() - 1]@.len() == right[left.len() - 1]@.len());
    }
}

/// A row of buckets holds nothing exactly when its total is zero.
pub proof fn lemma_total_len_zero<T>(buckets: Seq<Vec<T>>)
    ensures
        total_len(buckets) == 0 <==> forall|i: int|
            0 <= i < buckets.len() ==> (#[trigger] buckets[i])@.len() == 0,
    decreases buckets.len(),
{
    if buckets.len() > 0 {
        lemma_total_len_zero(buckets.drop_last());
        if total_len(buckets) == 0 {
            assert forall|i: int| 0 <= i < buckets.len() implies (#[trigger] buckets[i])@.len()
                == 0 by {
                if i < buckets.len() - 1 {
                    assert(buckets.drop_last()[i] == buckets[i]);
                }
            }
        }
        if forall|i: int| 0 <= i < buckets.len() ==> (#[trigger] buckets[i])@.len() == 0 {
            assert forall|i: int| 0 <= i < buckets.drop_last().len() implies (
            #[trigger] buckets.drop_last()[i])@.len() == 0 by {
                assert(buckets.drop_last()[i] == buckets[i]);
            }
            assert(buckets.last() == buckets[buckets.len() - 1]);
        }
    }
}

/// The slot of the circular bucket array that holds the priority lying `rel`
/// above the base, when the base itself sits in slot `offset`.
pub open spec fn slot(offset: int, rel: int, count: int) -> int {
    if offset + rel < count {
        offset + rel
    } else {
        offset + rel - count
    }
}

/// A monotone priority queue for priorities that never lie more than a fixed
/// distance above the smallest priority not yet drained.
///
/// The queue is a circular array of `max_weight + 1` buckets. Bucket `offset`
/// holds the items of priority `base_weight`, the next bucket those of
/// priority `base_weight + 1`, and so on, wrapping round at the end.
pub struct FixedPriorityQueue<T> {
    queues: Vec<Vec<T>>,
    offset: usize,
    base_weight: u32,
}

impl<T> FixedPriorityQueue<T> {
    /// The largest distance above the base at which an item may be pushed.
    pub closed spec fn max_weight(&self) -> nat {
        (self.queues@.len() - 1) as nat
    }

    /// The smallest priority that has not been drained yet.
    pub closed spec fn base(&self) -> nat {
        self.base_weight as nat
    }

    /// The items pending at `priority`, oldest first.
    pub closed spec fn pending(&self, priority: int) -> Seq<T> {
        if self.base_weight <= priority < self.base_weight + self.queues@.len() {
            self.queues@[slot(
                self.offset as int,
                priority - self.base_weight,
                self.queues@.len() as int,
            )]@
        } else {
            Seq::empty()
        }
    }

    /// The number of pending items.
    pub closed spec fn len(&self) -> nat {
        total_len(self.queues@)
    }

    /// The representation invariant.
    pub closed spec fn wf(&self) -> bool {
        &&& self.queues@.len() >= 1
        &&& self.offset < self.queues@.len()
        &&& forall|rel: int|
            0 <= rel < self.queues@.len() && self.base_weight + rel > u32::MAX ==> (
            #[trigger] self.queues@[slot(self.offset as int, rel, self.queues@.len() as int)])@.len()
                == 0
    }

    /// Nothing is pending outside the window that starts at the base.
    pub proof fn lemma_window(&self, priority: int)
        requires
            self.wf(),
            self.pending(priority).len() > 0,
        ensures
            self.base() <= priority <= self.base() + self.max_weight(),
            priority <= u32::MAX,
            self.len() > 0,
    {
        let rel = priority - self.base_weight;
        let i = slot(self.offset as int, rel, self.queues@.len() as int);
        assert(self.queues@[i]@.len() > 0);
        lemma_total_len_zero(self.queues@);
    }

    /// A queue that holds something has a pending priority.
    pub proof fn lemma_nonempty(&self)
        requires
            self.wf(),
            self.len() > 0,
        ensures
            exists|priority: int| (#[trigger] self.pending(priority)).len() > 0,
    {
        lemma_total_len_zero(self.queues@);
        let i = choose|i: int| 0 <= i < self.queues@.len() && (#[trigger] self.queues@[i])@.len() > 0;
        let n = self.queues@.len() as int;
        let rel = if i >= self.offset { i - self.offset } else { i + n - self.offset };
        assert(slot(self.offset as int, rel, n) == i);
        assert(self.pending(self.base_weight + rel) == self.queues@[i]@);
    }

    /// An empty queue with base 0 that accepts priorities up to `max_weight`
    /// above its base.
    pub fn new(max_weight: usize) -> (queue: Self)
        requires
            max_weight < usize::MAX,
        ensures
            queue.wf(),
            queue.max_weight() == max_weight,
            queue.base() == 0,
            queue.len() == 0,
            forall|priority: int| (#[trigger] queue.pending(priority)).len() == 0,
    {
        let mut queues: Vec<Vec<T>> = Vec::new();
        let mut i: usize = 0;
        while i <= max_weight
            invariant
                max_weight < usize::MAX,
                i <= max_weight + 1,
                queues@.len() == i,
                forall|j: int| 0 <= j < i ==> (#[trigger] queues@[j])@.len() == 0,
            decreases max_weight + 1 - i,
        {
            queues.push(Vec::new());
            i += 1;
        }
        proof {
            lemma_total_len_zero(queues@);
        }
        FixedPriorityQueue { queues, offset: 0, base_weight: 0 }
    }

    /// Adds `item` at `priority`, which must lie in the window of
    /// `max_weight() + 1` priorities that starts at the base.
    pub fn push(&mut self, priority: u32, item: T)
        requires
            old(self).wf(),
            old(self).base() <= priority <= old(self).base() + old(self).max_weight(),
        ensures
            final(self).wf(),
            final(self).max_weight() == old(self).max_weight(),
            final(self).base() == old(self).base(),
            final(self).len() == old(self).len() + 1,
            final(self).pending(priority as int) == old(self).pending(priority as int).push(item),
            forall|other: int|
                other != priority ==> #[trigger] final(self).pending(other) == old(self).pending(
                    other,
                ),
    {
        let count = self.queues.len();
        let rel = (priority - self.base_weight) as usize;
        let mut idx = self.offset;
        if rel >= count - idx {
            idx = rel - (count - idx);
        } else {
            idx = idx + rel;
        }
        assert(idx == slot(self.offset as int, rel as int, count as int));
        let ghost before = self.queues@;
        self.queues[idx].push(item);
        proof {
            lemma_total_len_update(before, idx as int, self.queues@[idx as int]);
            assert(self.queues@ =~= before.update(idx as int, self.queues@[idx as int]));
            assert forall|other: int| other != priority implies #[trigger] self.pending(other)
                == old(self).pending(other) by {
                if self.base_weight <= other < self.base_weight + count {
                    assert(slot(self.offset as int, other - self.base_weight, count as int)
                        != idx);
                }
            }
            assert forall|r: int|
                0 <= r < self.queues@.len() && self.base_weight + r > u32::MAX implies (
            #[trigger] self.queues@[slot(self.offset as int, r, self.queues@.len() as int)])@.len()
                == 0 by {
                assert(slot(self.offset as int, r, count as int) != idx);
                assert(before[slot(self.offset as int, r, count as int)]@.len() == 0);
            }
        }
    }

    /// Removes and returns the pending item of least priority, together with
    /// that priority, which becomes the new base. Among several items of that
    /// priority the one pushed last leaves first.
    ///
    /// A drained queue gives `None`; its base has then moved past the whole
    /// window, or as far as a 32-bit priority can go.
    pub fn pop(&mut self) -> (popped: Option<(u32, T)>)
        requires
            old(self).wf(),
        ensures
            final(self).wf(),
            final(self).max_weight() == old(self).max_weight(),
            match popped {
                Some((priority, item)) => {
                    &&& old(self).base() <= priority
                    &&& old(self).pending(priority as int).len() > 0
                    &&& forall|lower: int|
                        lower < priority ==> (#[trigger] old(self).pending(lower)).len() == 0
                    &&& item == old(self).pending(priority as int).last()
                    &&& final(self).base() == priority
                    &&& final(self).len() + 1 == old(self).len()
                    &&& final(self).pending(priority as int) == old(self).pending(
                        priority as int,
                    ).drop_last()
                    &&& forall|other: int|
                        other != priority ==> #[trigger] final(self).pending(other) == old(
                            self,
                        ).pending(other)
                },
                None => {
                    &&& old(self).len() == 0
                    &&& final(self).len() == 0
                    &&& forall|priority: int|
                        (#[trigger] final(self).pending(priority)).len() == 0
                    &&& final(self).base() == if old(self).base() + old(self).max_weight() + 1
                        <= u32::MAX {
                        old(self).base() + old(self).max_weight() + 1
                    } else {
                        u32::MAX as nat
                    }
                },
            },
    {
        let count = self.queues.len();
        let mut scanned: usize = 0;
        while scanned < count
            invariant
                old(self).wf(),
                self.wf(),
                count == self.queues@.len(),
                count == old(self).queues@.len(),
                forall|i: int| 0 <= i < count ==> (#[trigger] self.queues@[i])@ == old(self).queues@[i]@,
                scanned <= count,
                self.base_weight == old(self).base_weight + scanned,
                self.offset as int == slot(old(self).offset as int, scanned as int, count as int)
                    || (scanned == count && self.offset == old(self).offset),
                forall|rel: int|
                    0 <= rel < scanned ==> (#[trigger] old(self).queues@[slot(
                        old(self).offset as int,
                        rel,
                        count as int,
                    )])@.len() == 0,
            decreases count - scanned,
        {
            let ghost before = self.queues@;
            let ghost at = self.offset as int;
            match self.queues[self.offset].pop() {
                Some(item) => {
                    proof {
                        let priority = self.base_weight as int;
                        assert(self.queues@ =~= before.update(at, self.queues@[at]));
                        lemma_total_len_update(before, at, self.queues@[at]);
                        lemma_total_len_congruent(before, old(self).queues@);
                        assert(before[at]@.drop_last() =~= before[at]@.subrange(
                            0,
                            before[at]@.len() - 1,
                        ));
                        assert(slot(at, 0, count as int) == at);
                        assert(old(self).pending(priority) == before[at]@);
                        assert forall|lower: int| lower < priority implies (#[trigger] old(
                            self,
                        ).pending(lower)).len() == 0 by {
                            if old(self).base_weight <= lower {
                                let rel = lower - old(self).base_weight;
                                assert(old(self).queues@[slot(
                                    old(self).offset as int,
                                    rel,
                                    count as int,
                                )]@.len() == 0);
                            }
                        }
                        assert forall|other: int| other != priority implies #[trigger] self.pending(
                            other,
                        ) == old(self).pending(other) by {
                            Self::lemma_shifted_window(*old(self), *self, scanned as int, other);
                        }
                        assert forall|rel: int|
                            0 <= rel < count && self.base_weight + rel > u32::MAX implies (
                        #[trigger] self.queues@[slot(at, rel, count as int)])@.len() == 0 by {
                            let s = slot(at, rel, count as int);
                            if s != at {
                                assert(before[s]@.len() == 0);
                            }
                        }
                    }
                    return Some((self.base_weight, item));
                },
                None => {},
            }
            assert(self.queues@[at]@ =~= before[at]@);
            if self.base_weight == u32::MAX {
                proof {
                    Self::lemma_all_empty(*old(self), *self, scanned as int);
                }
                return None;
            }
            self.offset += 1;
            if self.offset == count {
                self.offset = 0;
            }
            self.base_weight += 1;
            scanned += 1;
            assert forall|rel: int|
                0 <= rel < count && self.base_weight + rel > u32::MAX implies (
            #[trigger] self.queues@[slot(self.offset as int, rel, count as int)])@.len() == 0 by {
                if rel + 1 < count {
                    let s = slot(at, rel + 1, count as int);
                    assert(slot(self.offset as int, rel, count as int) == s);
                    assert(before[s]@.len() == 0);
                } else {
                    assert(slot(self.offset as int, rel, count as int) == at);
                }
            }
        }
        proof {
            lemma_total_len_zero(self.queues@);
            lemma_total_len_zero(old(self).queues@);
            assert forall|i: int| 0 <= i < count implies (#[trigger] old(self).queues@[i])@.len()
                == 0 by {
                let o = old(self).offset as int;
                let rel = if i >= o { i - o } else { i + count - o };
                assert(slot(o, rel, count as int) == i);
            }
            assert forall|i: int| 0 <= i < count implies (#[trigger] self.queues@[i])@.len()
                == 0 by {
                assert(self.queues@[i]@ == old(self).queues@[i]@);
            }
        }
        None
    }

    /// After the base has moved up past empty buckets, every priority but the
    /// new base still holds what it held.
    proof fn lemma_shifted_window(before: Self, after: Self, scanned: int, priority: int)
        requires
            before.wf(),
            0 <= scanned < before.queues@.len(),
            after.queues@.len() == before.queues@.len(),
            after.base_weight == before.base_weight + scanned,
            after.offset as int == slot(
                before.offset as int,
                scanned,
                before.queues@.len() as int,
            ),
            forall|rel: int|
                0 <= rel < scanned ==> (#[trigger] before.queues@[slot(
                    before.offset as int,
                    rel,
                    before.queues@.len() as int,
                )])@.len() == 0,
            forall|i: int|
                0 <= i < before.queues@.len() && i != after.offset ==> (#[trigger] after.queues@[i])@
                    == before.queues@[i]@,
            priority != after.base_weight,
        ensures
            after.pending(priority) == before.pending(priority),
    {
        let count = before.queues@.len() as int;
        let o = before.offset as int;
        if after.base_weight <= priority < after.base_weight + count {
            let rel = priority - after.base_weight;
            let s = slot(after.offset as int, rel, count);
            assert(s != after.offset);
            if priority < before.base_weight + count {
                assert(s == slot(o, priority - before.base_weight, count));
            } else {
                let back = priority - count - before.base_weight;
                assert(0 <= back < scanned);
                assert(s == slot(o, back, count));
                assert(before.queues@[s]@.len() == 0);
                assert(after.pending(priority) =~= Seq::<T>::empty());
            }
        } else if before.base_weight <= priority < before.base_weight + count {
            let rel = priority - before.base_weight;
            assert(0 <= rel < scanned);
            assert(before.queues@[slot(o, rel, count)]@.len() == 0);
            assert(before.pending(priority) =~= Seq::<T>::empty());
        }
    }

    /// A queue whose base has reached the largest priority, with everything
    /// below it scanned and found empty and nothing at the base, is drained.
    proof fn lemma_all_empty(before: Self, after: Self, scanned: int)
        requires
            before.wf(),
            after.wf(),
            0 <= scanned < before.queues@.len(),
            after.queues@.len() == before.queues@.len(),
            forall|i: int|
                0 <= i < before.queues@.len() ==> (#[trigger] after.queues@[i])@
                    == before.queues@[i]@,
            after.base_weight == before.base_weight + scanned,
            after.base_weight == u32::MAX,
            after.offset as int == slot(
                before.offset as int,
                scanned,
                before.queues@.len() as int,
            ),
            after.queues@[after.offset as int]@.len() == 0,
            forall|rel: int|
                0 <= rel < scanned ==> (#[trigger] before.queues@[slot(
                    before.offset as int,
                    rel,
                    before.queues@.len() as int,
                )])@.len() == 0,
        ensures
            before.len() == 0,
            after.len() == 0,
            forall|priority: int| (#[trigger] after.pending(priority)).len() == 0,
    {
        let count = before.queues@.len() as int;
        let o = before.offset as int;
        assert forall|i: int| 0 <= i < count implies (#[trigger] before.queues@[i])@.len()
            == 0 by {
            let rel = if i >= o { i - o } else { i + count - o };
            assert(slot(o, rel, count) == i);
            if rel > scanned {
                assert(before.base_weight + rel > u32::MAX);
            } else if rel == scanned {
                assert(after.queues@[i]@ == before.queues@[i]@);
            }
        }
        assert forall|i: int| 0 <= i < count implies (#[trigger] after.queues@[i])@.len()
            == 0 by {
            assert(after.queues@[i]@ == before.queues@[i]@);
        }
        lemma_total_len_zero(before.queues@);
        lemma_total_len_zero(after.queues@);
    }
}

} // verus!
