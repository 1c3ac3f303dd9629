//! A priority queue over a `Vec`, kept in descending order of key so that the
//! entry with the smallest key is the last one and leaves first.
use vstd::multiset::Multiset;
use vstd::prelude::*;

verus! {

broadcast use vstd::seq_lib::group_to_multiset_ensures;

/// An entry that carries the key it is ordered by.
pub trait GetKey {
    spec fn key(&self) -> int;

    fn get_key(&self) -> (k: u32)
        ensures
            k as int == self.key(),
    ;
}

/// Keys never grow from front to back.
pub open spec fn sorted_desc<T: GetKey>(s: Seq<T>) -> bool {
    forall|i: int, j: int| 0 <= i < j < s.len() ==> s[i].key() >= s[j].key()
}

/// The entries of `s` whose flag in `keep` is set, order kept.
pub open spec fn select<T>(s: Seq<T>, keep: Seq<bool>) -> Seq<T>
    decreases s.len(),
{
    if s.len() == 0 {
        Seq::empty()
    } else {
        let rest = select(s.drop_last(), keep.drop_last());
        if keep.last() {
            rest.push(s.last())
        } else {
            rest
        }
    }
}

/// Entries ordered by key; `pop` hands out one with the smallest key.
pub struct PriorityQueue<T: GetKey> {
    data: Vec<T>,
}

/// The queue's entries, handed out smallest key first.
pub struct QueueDrain<T: GetKey> {
    queue: PriorityQueue<T>,
}

/// Puts `element` after every entry with a larger key and before the rest.
fn ordered_insert<T: GetKey>(vector: &mut Vec<T>, element: T)
    requires
        sorted_desc(old(vector)@),
    ensures
        sorted_desc(final(vector)@),
        final(vector)@.to_multiset() == old(vector)@.to_multiset().insert(element),
        final(vector)@.len() == old(vector)@.len() + 1,
        exists|i: int| 0 <= i <= old(vector)@.len() && final(vector)@ == old(vector)@.insert(i, element),
{
    let value = element.get_key();
    let mut lo: usize = 0;
    let mut hi: usize = vector.len();
    while lo < hi
        invariant
            0 <= lo <= hi <= vector@.len(),
            vector@ == old(vector)@,
            sorted_desc(vector@),
            forall|i: int| 0 <= i < lo ==> vector@[i].key() > value,
            forall|i: int| hi <= i < vector@.len() ==> vector@[i].key() <= value,
        decreases hi - lo,
    {
        let mid = lo + (hi - lo) / 2;
        if vector[mid].get_key() > value {
            lo = mid + 1;
        } else {
            hi = mid;
        }
    }
    let ghost before = vector@;
    vector.insert(lo, element);
    assert(vector@ == before.insert(lo as int, element));
    assert(vector@.to_multiset() == before.to_multiset().insert(element)) by {
        let s = vector@;
        assert(s.remove(lo as int) =~= before);
    }
}

impl<T: GetKey> PriorityQueue<T> {
    /// The entries, largest key first.
    pub closed spec fn items(&self) -> Seq<T> {
        self.data@
    }

    pub open spec fn wf(&self) -> bool {
        sorted_desc(self.items())
    }

    pub fn new() -> (r: PriorityQueue<T>)
        ensures
            r.wf(),
            r.items() == Seq::<T>::empty(),
    {
        PriorityQueue { data: Vec::new() }
    }

    pub fn insert(&mut self, element: T)
        requires
            old(self).wf(),
        ensures
            final(self).wf(),
            final(self).items().to_multiset() == old(self).items().to_multiset().insert(element),
            exists|i: int|
                0 <= i <= old(self).items().len() && final(self).items() == old(self).items().insert(
                    i,
                    element,
                ),
    {
        ordered_insert(&mut self.data, element)
    }

    /// Inserts every entry of `items`.
    pub fn insert_all(&mut self, items: Vec<T>)
        requires
            old(self).wf(),
        ensures
            final(self).wf(),
            final(self).items().to_multiset() == old(self).items().to_multiset().add(
                items@.to_multiset(),
            ),
            items@.len() == 0 ==> final(self).items() == old(self).items(),
    {
        let mut items = items;
        let ghost all = items@;
        while items.len() > 0
            invariant
                self.wf(),
                self.items().to_multiset().add(items@.to_multiset()) == old(
                    self,
                ).items().to_multiset().add(all.to_multiset()),
                all.len() == 0 ==> self.items() == old(self).items() && items@.len() == 0,
            decreases items@.len(),
        {
            let ghost before = items@;
            let e = items.pop().unwrap();
            assert(before =~= items@.push(e));
            self.insert(e);
            assert(self.items().to_multiset().add(items@.to_multiset()) =~= old(
                self,
            ).items().to_multiset().add(all.to_multiset()));
        }
        assert(items@.to_multiset() =~= Multiset::empty());
        assert(self.items().to_multiset() =~= self.items().to_multiset().add(items@.to_multiset()));
    }

    /// Takes out an entry with the smallest key, `None` when empty.
    pub fn pop(&mut self) -> (r: Option<T>)
        requires
            old(self).wf(),
        ensures
            final(self).wf(),
            old(self).items().len() == 0 ==> r is None && final(self).items() == old(self).items(),
            old(self).items().len() > 0 ==> {
                &&& r == Some(old(self).items().last())
                &&& final(self).items() == old(self).items().drop_last()
                &&& forall|i: int|
                    0 <= i < old(self).items().len() ==> old(self).items()[i].key()
                        >= old(self).items().last().key()
            },
    {
        self.data.pop()
    }

    pub fn len(&self) -> (r: usize)
        ensures
            r == self.items().len(),
    {
        self.data.len()
    }

    /// The entry at `i` in queue order.
    pub fn index(&self, i: usize) -> (r: &T)
        requires
            i < self.items().len(),
        ensures
            *r == self.items()[i as int],
    {
        &self.data[i]
    }

    /// Drops the entries for which `f` says yes, the others keep their order.
    pub fn remove_by<F: Fn(&T) -> bool>(&mut self, f: F)
        requires
            old(self).wf(),
            forall|t: &T| #[trigger] f.requires((t,)),
        ensures
            final(self).wf(),
            exists|keep: Seq<bool>|
                {
                    &&& keep.len() == old(self).items().len()
                    &&& forall|i: int|
                        0 <= i < keep.len() ==> f.ensures((&old(self).items()[i],), !#[trigger] keep[i])
                    &&& final(self).items() == select(old(self).items(), keep)
                },
    {
        let ghost orig = self.data@;
        let ghost mut keep: Seq<bool> = Seq::empty();
        let mut i: usize = 0;
        while i < self.data.len()
            invariant
                0 <= i <= self.data@.len(),
                keep.len() <= orig.len(),
                sorted_desc(self.data@),
                forall|j: int|
                    0 <= j < keep.len() ==> f.ensures((&orig[j],), !#[trigger] keep[j]),
                self.data@ == select(orig.subrange(0, keep.len() as int), keep) + orig.subrange(
                    keep.len() as int,
                    orig.len() as int,
                ),
                i == select(orig.subrange(0, keep.len() as int), keep).len(),
                forall|t: &T| #[trigger] f.requires((t,)),
            decreases orig.len() - keep.len(),
        {
            let ghost k = keep.len() as int;
            let ghost before = self.data@;
            assert(before[i as int] == orig[k]);
            let drop = f(&self.data[i]);
            proof {
                let keep2 = keep.push(!drop);
                assert(orig.subrange(0, k + 1).drop_last() =~= orig.subrange(0, k));
                assert(keep2.drop_last() =~= keep);
                keep = keep2;
            }
            if drop {
                self.data.remove(i);
                assert(self.data@ =~= select(orig.subrange(0, keep.len() as int), keep)
                    + orig.subrange(keep.len() as int, orig.len() as int));
                assert forall|a: int, b: int| 0 <= a < b < self.data@.len() implies self.data@[a].key()
                    >= self.data@[b].key() by {
                    let a0 = if a < i { a } else { a + 1 };
                    let b0 = if b < i { b } else { b + 1 };
                    assert(self.data@[a] == before[a0]);
                    assert(self.data@[b] == before[b0]);
                }
            } else {
                i = i + 1;
                assert(self.data@ =~= select(orig.subrange(0, keep.len() as int), keep)
                    + orig.subrange(keep.len() as int, orig.len() as int));
            }
        }
        proof {
            assert(orig.subrange(0, orig.len() as int) =~= orig);
            assert(self.data@ =~= select(orig, keep));
        }
    }

    /// Brings the entries back into key order, whatever order they are in.
    /// A queue already in order is left exactly as it is.
    pub fn update(&mut self)
        ensures
            final(self).wf(),
            final(self).items().to_multiset() == old(self).items().to_multiset(),
            old(self).wf() ==> final(self).items() == old(self).items(),
    {
        if self.data.len() == 0 {
            return;
        }
        let mut reinsert: Vec<T> = Vec::new();
        let mut cur_key = self.data[0].get_key();
        let mut i: usize = 1;
        while i < self.data.len()
            invariant
                1 <= i <= self.data@.len(),
                cur_key as int == self.data@[i - 1].key(),
                sorted_desc(self.data@.subrange(0, i as int)),
                self.data@.to_multiset().add(reinsert@.to_multiset()) == old(
                    self,
                ).data@.to_multiset(),
                sorted_desc(old(self).data@) ==> self.data@ == old(self).data@ && reinsert@.len()
                    == 0,
            decreases self.data@.len() - i,
        {
            let key = self.data[i].get_key();
            proof {
                let s = self.data@;
                if key <= cur_key {
                    let t = s.subrange(0, i + 1);
                    assert forall|a: int, b: int| 0 <= a < b < t.len() implies #[trigger] t[a].key()
                        >= #[trigger] t[b].key() by {
                        assert(s.subrange(0, i as int)[a] == s[a]);
                        if b < i {
                            assert(s.subrange(0, i as int)[b] == s[b]);
                        } else if a < i - 1 {
                            assert(s.subrange(0, i as int)[i - 1] == s[i - 1]);
                        }
                    }
                }
            }
            if key < cur_key {
                cur_key = key;
                i = i + 1;
            } else if key == cur_key {
                i = i + 1;
            } else {
                let ghost before = self.data@;
                let e = self.data.remove(i);
                assert(self.data@.subrange(0, i as int) =~= before.subrange(0, i as int));
                reinsert.push(e);
                assert(self.data@.to_multiset().add(reinsert@.to_multiset()) =~= old(
                    self,
                ).data@.to_multiset());
            }
        }
        assert(self.data@.subrange(0, i as int) =~= self.data@);
        assert(self.wf());
        self.insert_all(reinsert);
    }

    /// The entries in queue order, largest key first.
    pub fn iter(&self) -> (r: &[T])
        ensures
            r@ == self.items(),
    {
        self.data.as_slice()
    }

    /// Hands the entries out one by one, smallest key first.
    pub fn into_iter(self) -> (r: QueueDrain<T>)
        requires
            self.wf(),
        ensures
            r.wf(),
            r.rest() == self.items(),
    {
        QueueDrain { queue: self }
    }
}

impl<T: GetKey> QueueDrain<T> {
    /// The entries still to come, the next one last.
    pub closed spec fn rest(&self) -> Seq<T> {
        self.queue.items()
    }

    pub closed spec fn wf(&self) -> bool {
        self.queue.wf()
    }

    pub fn next(&mut self) -> (r: Option<T>)
        requires
            old(self).wf(),
        ensures
            final(self).wf(),
            old(self).rest().len() == 0 ==> r is None,
            old(self).rest().len() > 0 ==> r == Some(old(self).rest().last())
                && final(self).rest() == old(self).rest().drop_last(),
    {
        self.queue.pop()
    }
}

} // verus!
