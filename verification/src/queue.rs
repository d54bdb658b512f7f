//! A minimum-first queue of `(count, index)` entries, ordered by count and,
//! among equal counts, by index.

use vstd::prelude::*;

verus! {

/// One entry of the queue: a count and the index that breaks ties.
pub type Entry = (usize, usize);

/// Whether `a` comes before `b`: by the smaller count, then by the smaller index.
pub open spec fn entry_before(a: Entry, b: Entry) -> bool {
    a.0 < b.0 || (a.0 == b.0 && a.1 < b.1)
}

/// The sum of the counts of a sequence of entries.
pub open spec fn sum_counts(items: Seq<Entry>) -> nat
    decreases items.len(),
{
    if items.len() == 0 {
        0
    } else {
        sum_counts(items.drop_last()) + items.last().0 as nat
    }
}

proof fn lemma_sum_counts_insert(items: Seq<Entry>, pos: int, e: Entry)
    requires
        0 <= pos <= items.len(),
    ensures
        sum_counts(items.insert(pos, e)) == sum_counts(items) + e.0,
    decreases items.len(),
{
    let grown = items.insert(pos, e);
    if pos == items.len() {
        assert(grown.drop_last() =~= items);
    } else {
        assert(grown.drop_last() =~= items.drop_last().insert(pos, e));
        assert(grown.last() == items.last());
        lemma_sum_counts_insert(items.drop_last(), pos, e);
    }
}

/// A queue that hands out its entries smallest first. The entries are kept in
/// a vector in falling order, so that the smallest stands last.
pub struct MinQueue {
    items: Vec<Entry>,
}

impl View for MinQueue {
    type V = Set<Entry>;

    closed spec fn view(&self) -> Set<Entry> {
        self.items@.to_set()
    }
}

impl MinQueue {
    /// The entries stand in strictly falling order.
    pub closed spec fn wf(self) -> bool {
        forall|i: int, j: int|
            0 <= i < j < self.items@.len() ==> entry_before(
                #[trigger] self.items@[j],
                #[trigger] self.items@[i],
            )
    }

    /// The sum of the counts of all entries.
    pub closed spec fn total(self) -> nat {
        sum_counts(self.items@)
    }

    proof fn lemma_len(self)
        requires
            self.wf(),
        ensures
            self@.finite(),
            self@.len() == self.items@.len(),
    {
        assert(self.items@.no_duplicates());
        self.items@.unique_seq_to_set();
    }

    /// A queue with no entries.
    pub fn new() -> (q: Self)
        ensures
            q.wf(),
            q@ == Set::<Entry>::empty(),
            q.total() == 0,
    {
        let q = MinQueue { items: Vec::new() };
        assert(q.items@.to_set() =~= Set::<Entry>::empty());
        q
    }

    /// The number of entries.
    pub fn len(&self) -> (n: usize)
        requires
            self.wf(),
        ensures
            self@.finite(),
            n == self@.len(),
    {
        proof {
            self.lemma_len();
        }
        self.items.len()
    }

    /// Adds an entry that the queue does not hold yet.
    pub fn push(&mut self, e: Entry)
        requires
            old(self).wf(),
            !old(self)@.contains(e),
        ensures
            final(self).wf(),
            final(self)@ == old(self)@.insert(e),
            final(self).total() == old(self).total() + e.0,
    {
        let mut pos: usize = 0;
        while pos < self.items.len() && before(e, self.items[pos])
            invariant
                *self == *old(self),
                pos <= self.items@.len(),
                forall|i: int| 0 <= i < pos ==> entry_before(e, #[trigger] self.items@[i]),
            decreases self.items@.len() - pos,
        {
            pos += 1;
        }
        proof {
            let before_items = self.items@;
            let after_items = before_items.insert(pos as int, e);
            lemma_sum_counts_insert(before_items, pos as int, e);
            assert(forall|i: int| pos <= i < before_items.len() ==> entry_before(#[trigger] before_items[i], e)) by {
                assert forall|i: int| pos <= i < before_items.len() implies entry_before(
                    #[trigger] before_items[i],
                    e,
                ) by {
                    assert(before_items.contains(before_items[i]));
                    assert(before_items[i] != e);
                    if i > pos {
                        assert(entry_before(before_items[i], before_items[pos as int]));
                    }
                }
            }
            assert forall|i: int, j: int| 0 <= i < j < after_items.len() implies entry_before(
                #[trigger] after_items[j],
                #[trigger] after_items[i],
            ) by {
                if i < pos && j > pos {
                    assert(entry_before(before_items[j - 1], before_items[i]));
                } else if i < pos && j < pos {
                    assert(entry_before(before_items[j], before_items[i]));
                } else if i > pos {
                    assert(entry_before(before_items[j - 1], before_items[i - 1]));
                }
            }
            assert(after_items.to_set() =~= before_items.to_set().insert(e)) by {
                assert forall|x: Entry| after_items.to_set().contains(x) <==> before_items.to_set().insert(e).contains(x) by {
                    if after_items.contains(x) {
                        let k = choose|k: int| 0 <= k < after_items.len() && after_items[k] == x;
                        if k < pos {
                            assert(before_items[k] == x);
                        } else if k > pos {
                            assert(before_items[k - 1] == x);
                        }
                    }
                    if before_items.contains(x) {
                        let k = choose|k: int| 0 <= k < before_items.len() && before_items[k] == x;
                        if k < pos {
                            assert(after_items[k] == x);
                        } else {
                            assert(after_items[k + 1] == x);
                        }
                    }
                    if x == e {
                        assert(after_items[pos as int] == x);
                    }
                }
            }
        }
        self.items.insert(pos, e);
    }

    /// Takes out the entry that comes before all others, if there is one.
    pub fn pop(&mut self) -> (r: Option<Entry>)
        requires
            old(self).wf(),
        ensures
            final(self).wf(),
            old(self)@.len() == 0 ==> r.is_none() && final(self)@ == old(self)@,
            r.is_none() ==> old(self)@.len() == 0,
            r matches Some(e) ==> {
                &&& old(self)@.contains(e)
                &&& forall|x: Entry| old(self)@.contains(x) && x != e ==> entry_before(e, x)
                &&& final(self)@ == old(self)@.remove(e)
                &&& final(self).total() + e.0 == old(self).total()
            },
    {
        proof {
            self.lemma_len();
        }
        let r = self.items.pop();
        proof {
            let before_items = old(self).items@;
            if before_items.len() > 0 {
                let e = before_items.last();
                assert(self.items@ =~= before_items.drop_last());
                assert(before_items.contains(e));
                assert forall|x: Entry| old(self)@.contains(x) && x != e implies entry_before(
                    e,
                    x,
                ) by {
                    let k = choose|k: int| 0 <= k < before_items.len() && before_items[k] == x;
                    assert(entry_before(before_items[before_items.len() - 1], before_items[k]));
                }
                assert(self.items@.to_set() =~= before_items.to_set().remove(e)) by {
                    assert forall|x: Entry| self.items@.to_set().contains(x) <==> before_items.to_set().remove(e).contains(x) by {
                        if self.items@.contains(x) {
                            let k = choose|k: int| 0 <= k < self.items@.len() && self.items@[k] == x;
                            assert(before_items[k] == x);
                            assert(entry_before(before_items[before_items.len() - 1], before_items[k]));
                        }
                        if before_items.contains(x) && x != e {
                            let k = choose|k: int| 0 <= k < before_items.len() && before_items[k] == x;
                            assert(self.items@[k] == x);
                        }
                    }
                }
            }
        }
        r
    }
}

/// Whether `a` comes before `b` in the queue's order.
fn before(a: Entry, b: Entry) -> (r: bool)
    ensures
        r == entry_before(a, b),
{
    a.0 < b.0 || (a.0 == b.0 && a.1 < b.1)
}

} // verus!
