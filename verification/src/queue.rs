//! A priority queue for small integer keys.
//!
//! The queue keeps one stack per key. Taking an item out yields the item that
//! was put in last among those with the least key. Its model is the sequence
//! of those stacks, indexed by key.

use vstd::prelude::*;

verus! {

/// `buckets` with empty buckets appended until there are at least `n`.
pub open spec fn widen<T>(buckets: Seq<Seq<T>>, n: nat) -> Seq<Seq<T>> {
    if buckets.len() >= n {
        buckets
    } else {
        buckets + Seq::new((n - buckets.len()) as nat, |i: int| Seq::<T>::empty())
    }
}

/// `buckets` after `item` was put in under `key`.
pub open spec fn put<T>(buckets: Seq<Seq<T>>, key: nat, item: T) -> Seq<Seq<T>> {
    let wide = widen(buckets, key + 1);
    wide.update(key as int, wide[key as int].push(item))
}

/// The least key at or above `from` whose bucket holds an item, or the number
/// of buckets if there is none.
pub open spec fn lowest_from<T>(buckets: Seq<Seq<T>>, from: nat) -> nat
    decreases buckets.len() - from,
{
    if from >= buckets.len() {
        buckets.len()
    } else if buckets[from as int].len() > 0 {
        from
    } else {
        lowest_from(buckets, from + 1)
    }
}

/// The least key whose bucket holds an item, or the number of buckets if
/// every bucket is empty.
pub open spec fn lowest<T>(buckets: Seq<Seq<T>>) -> nat {
    lowest_from(buckets, 0)
}

/// Whether no bucket holds an item.
pub open spec fn is_empty<T>(buckets: Seq<Seq<T>>) -> bool {
    lowest(buckets) >= buckets.len()
}

/// The item that leaves next: the newest one under the least key.
pub open spec fn next<T>(buckets: Seq<Seq<T>>) -> T {
    buckets[lowest(buckets) as int].last()
}

/// `buckets` after the next item has left.
pub open spec fn without_next<T>(buckets: Seq<Seq<T>>) -> Seq<Seq<T>> {
    let key = lowest(buckets) as int;
    buckets.update(key, buckets[key].drop_last())
}

/// Whether `item` is in one of `buckets`.
pub open spec fn holds<T>(buckets: Seq<Seq<T>>, item: T) -> bool {
    exists|key: int, i: int|
        #![trigger buckets[key][i]]
        0 <= key < buckets.len() && 0 <= i < buckets[key].len() && buckets[key][i] == item
}

/// The least key with an item is a key of a bucket that holds one, and every
/// bucket below it is empty.
pub proof fn lemma_lowest_from<T>(buckets: Seq<Seq<T>>, from: nat)
    requires
        from <= buckets.len(),
    ensures
        from <= lowest_from(buckets, from) <= buckets.len(),
        lowest_from(buckets, from) < buckets.len() ==> buckets[lowest_from(buckets, from) as int].len()
            > 0,
        forall|key: int|
            #![trigger buckets[key]]
            from <= key < lowest_from(buckets, from) ==> buckets[key].len() == 0,
    decreases buckets.len() - from,
{
    if from < buckets.len() && buckets[from as int].len() == 0 {
        lemma_lowest_from(buckets, from + 1);
    }
}

/// If every bucket from `from` up to `key` is empty, the search for the least
/// key may start at `key`.
pub proof fn lemma_lowest_skips<T>(buckets: Seq<Seq<T>>, from: nat, key: nat)
    requires
        from <= key <= buckets.len(),
        forall|k: int| #![trigger buckets[k]] from <= k < key ==> buckets[k].len() == 0,
    ensures
        lowest_from(buckets, from) == lowest_from(buckets, key),
    decreases key - from,
{
    if from < key {
        assert(buckets[from as int].len() == 0);
        lemma_lowest_skips(buckets, from + 1, key);
    }
}

/// What a queue holds after an item was put in: what it held, and the item.
pub proof fn lemma_put_holds<T>(buckets: Seq<Seq<T>>, key: nat, item: T)
    ensures
        holds(put(buckets, key, item), item),
        forall|other: T|
            #![trigger holds(put(buckets, key, item), other)]
            holds(put(buckets, key, item), other) <==> holds(buckets, other) || other == item,
{
    let wide = widen(buckets, key + 1);
    let after = put(buckets, key, item);
    assert(after[key as int][wide[key as int].len() as int] == item);
    assert forall|other: T|
        #![trigger holds(after, other)]
        holds(after, other) <==> holds(buckets, other) || other == item by {
        if holds(buckets, other) {
            let (k, i) = choose|k: int, i: int|
                #![trigger buckets[k][i]]
                0 <= k < buckets.len() && 0 <= i < buckets[k].len() && buckets[k][i] == other;
            assert(wide[k] == buckets[k]);
            assert(after[k][i] == other);
        }
        if holds(after, other) {
            let (k, i) = choose|k: int, i: int|
                #![trigger after[k][i]]
                0 <= k < after.len() && 0 <= i < after[k].len() && after[k][i] == other;
            if k == key && i == wide[k].len() {
            } else if k < buckets.len() {
                assert(wide[k] == buckets[k]);
                assert(buckets[k][i] == other);
            } else {
                assert(wide[k].len() == 0);
            }
        }
    }
}

/// What a queue holds after its next item left, it held before; and it held
/// that item.
pub proof fn lemma_without_next_holds<T>(buckets: Seq<Seq<T>>)
    requires
        !is_empty(buckets),
    ensures
        holds(buckets, next(buckets)),
        forall|other: T|
            #![trigger holds(without_next(buckets), other)]
            holds(without_next(buckets), other) ==> holds(buckets, other),
{
    lemma_lowest_from(buckets, 0);
    let key = lowest(buckets) as int;
    let after = without_next(buckets);
    assert(buckets[key][buckets[key].len() - 1] == next(buckets));
    assert forall|other: T| #![trigger holds(after, other)] holds(after, other) implies holds(
        buckets,
        other,
    ) by {
        let (k, i) = choose|k: int, i: int|
            #![trigger after[k][i]]
            0 <= k < after.len() && 0 <= i < after[k].len() && after[k][i] == other;
        assert(buckets[k][i] == other);
    }
}

/// A queue of items with small integer keys. The item that leaves is always
/// the newest one among those with the least key.
pub struct BucketQueue<T> {
    buckets: Vec<Vec<T>>,
}

impl<T> View for BucketQueue<T> {
    type V = Seq<Seq<T>>;

    closed spec fn view(&self) -> Seq<Seq<T>> {
        Seq::new(self.buckets@.len(), |key: int| self.buckets@[key]@)
    }
}

impl<T> BucketQueue<T> {
    /// A queue that holds nothing.
    pub fn new() -> (queue: Self)
        ensures
            queue@ == Seq::<Seq<T>>::empty(),
            is_empty(queue@),
    {
        let queue = BucketQueue { buckets: Vec::new() };
        assert(queue@ =~= Seq::<Seq<T>>::empty());
        queue
    }

    /// Puts `item` in under `key`.
    pub fn push(&mut self, key: usize, item: T)
        requires
            key < usize::MAX,
        ensures
            final(self)@ == put(old(self)@, key as nat, item),
    {
        let ghost before = self@;
        while self.buckets.len() <= key
            invariant
                key < usize::MAX,
                self.buckets@.len() <= key + 1 || self.buckets@.len() == before.len(),
                before.len() <= self.buckets@.len(),
                forall|k: int| 0 <= k < before.len() ==> self.buckets@[k]@ == #[trigger] before[k],
                forall|k: int|
                    before.len() <= k < self.buckets@.len() ==> (#[trigger] self.buckets@[k])@.len()
                        == 0,
            decreases key + 1 - self.buckets.len(),
        {
            self.buckets.push(Vec::new());
        }
        assert(self@ =~~= widen(before, (key + 1) as nat));
        self.buckets[key].push(item);
        assert(self@ =~~= put(before, key as nat, item));
    }

    /// Takes out the newest item among those with the least key, if the queue
    /// holds anything.
    pub fn pop(&mut self) -> (item: Option<T>)
        ensures
            item is None <==> is_empty(old(self)@),
            item is None ==> final(self)@ == old(self)@,
            item matches Some(taken) ==> taken == next(old(self)@) && final(self)@ == without_next(
                old(self)@,
            ),
    {
        let ghost before = self@;
        let mut key: usize = 0;
        while key < self.buckets.len()
            invariant
                key <= self.buckets.len(),
                self@ == before,
                before == old(self)@,
                before.len() == self.buckets@.len(),
                forall|k: int| #![trigger before[k]] 0 <= k < key ==> before[k].len() == 0,
            decreases self.buckets.len() - key,
        {
            if self.buckets[key].len() > 0 {
                proof {
                    assert(before[key as int].len() > 0);
                    lemma_lowest_skips(before, 0, key as nat);
                    assert(lowest(before) == key);
                }
                let ghost bucket = self.buckets@[key as int]@;
                let taken = self.buckets[key].pop();
                assert(bucket == before[key as int]);
                assert(taken == Some(bucket.last()));
                assert(self.buckets@[key as int]@ =~= bucket.drop_last());
                assert(self@ =~~= without_next(before));
                return taken;
            }
            assert(before[key as int].len() == 0);
            key += 1;
        }
        proof {
            lemma_lowest_skips(before, 0, before.len());
        }
        None
    }

    /// Whether the queue holds nothing.
    pub fn is_empty(&self) -> (empty: bool)
        ensures
            empty == is_empty(self@),
    {
        let mut key: usize = 0;
        while key < self.buckets.len()
            invariant
                key <= self.buckets.len(),
                self@.len() == self.buckets@.len(),
                forall|k: int| #![trigger self@[k]] 0 <= k < key ==> self@[k].len() == 0,
            decreases self.buckets.len() - key,
        {
            if self.buckets[key].len() > 0 {
                proof {
                    assert(self@[key as int].len() > 0);
                    lemma_lowest_skips(self@, 0, key as nat);
                }
                return false;
            }
            assert(self@[key as int].len() == 0);
            key += 1;
        }
        proof {
            lemma_lowest_skips(self@, 0, self@.len());
        }
        true
    }
}

} // verus!
