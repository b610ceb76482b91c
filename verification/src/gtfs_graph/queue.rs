//! A priority queue of stops by duration: a binary heap in a vector.

use vstd::prelude::*;

verus! {

/// Whether `first` comes out of the queue no later than `second`: the shorter
/// duration first, and of two equal durations the stop of the lower position.
pub open spec fn comes_first(first: (u64, usize), second: (u64, usize)) -> bool {
    first.0 < second.0 || (first.0 == second.0 && first.1 <= second.1)
}

/// Whether `after` holds the entries of `before` and `entry` besides.
pub open spec fn pushed(
    before: Seq<(u64, usize)>,
    after: Seq<(u64, usize)>,
    entry: (u64, usize),
) -> bool {
    &&& after.len() == before.len() + 1
    &&& forall|other: (u64, usize)|
        #[trigger] after.contains(other) <==> (before.contains(other) || other == entry)
}

/// Whether `after` is `before` with one occurrence of `entry` taken out, where no
/// entry of `before` comes before `entry`.
pub open spec fn popped(
    before: Seq<(u64, usize)>,
    after: Seq<(u64, usize)>,
    entry: (u64, usize),
) -> bool {
    &&& before.contains(entry)
    &&& after.len() + 1 == before.len()
    &&& forall|other: (u64, usize)| #[trigger] before.contains(other) ==> comes_first(entry, other)
    &&& forall|other: (u64, usize)| #[trigger] after.contains(other) ==> before.contains(other)
    &&& forall|other: (u64, usize)|
        #[trigger] before.contains(other) && other != entry ==> after.contains(other)
}

/// The position of the parent of a position of the heap other than the root.
pub open spec fn parent(i: int) -> int {
    (i - 1) / 2
}

/// Whether every entry other than the one at `hole` comes no earlier than its
/// parent, and the children of `hole` no earlier than the parent of `hole`.
spec fn ordered_but(items: Seq<(u64, usize)>, hole: int) -> bool {
    &&& forall|i: int|
        0 < i < items.len() && i != hole ==> comes_first(items[parent(i)], #[trigger] items[i])
    &&& forall|i: int|
        0 < i < items.len() && parent(i) == hole && hole > 0 ==> comes_first(
            items[parent(hole)],
            #[trigger] items[i],
        )
}

/// Whether every entry whose parent is not at `hole` comes no earlier than its
/// parent, and the children of `hole` no earlier than the parent of `hole`.
spec fn settled_but(items: Seq<(u64, usize)>, hole: int) -> bool {
    &&& forall|i: int|
        0 < i < items.len() && parent(i) != hole ==> comes_first(
            items[parent(i)],
            #[trigger] items[i],
        )
    &&& forall|i: int|
        0 < i < items.len() && parent(i) == hole && hole > 0 ==> comes_first(
            items[parent(hole)],
            #[trigger] items[i],
        )
}

/// Whether every entry comes no earlier than its parent.
spec fn ordered(items: Seq<(u64, usize)>) -> bool {
    forall|i: int| 0 < i < items.len() ==> comes_first(items[parent(i)], #[trigger] items[i])
}

/// Whether two sequences hold the same entries.
spec fn same_entries(first: Seq<(u64, usize)>, second: Seq<(u64, usize)>) -> bool {
    &&& first.len() == second.len()
    &&& forall|entry: (u64, usize)|
        #![trigger first.contains(entry)]
        #![trigger second.contains(entry)]
        first.contains(entry) <==> second.contains(entry)
}

proof fn lemma_swap(items: Seq<(u64, usize)>, i: int, j: int)
    requires
        0 <= i < items.len(),
        0 <= j < items.len(),
    ensures
        same_entries(items, items.update(i, items[j]).update(j, items[i])),
{
    let swapped = items.update(i, items[j]).update(j, items[i]);
    assert forall|entry: (u64, usize)| #[trigger] items.contains(entry) implies swapped.contains(
        entry,
    ) by {
        let at = choose|at: int| 0 <= at < items.len() && items[at] == entry;
        if at == i {
            assert(swapped[j] == entry);
        } else if at == j {
            assert(swapped[i] == entry);
        } else {
            assert(swapped[at] == entry);
        }
    }
    assert forall|entry: (u64, usize)| #[trigger] swapped.contains(entry) implies items.contains(
        entry,
    ) by {
        let at = choose|at: int| 0 <= at < swapped.len() && swapped[at] == entry;
        if at == i {
            assert(items[j] == entry);
        } else if at == j {
            assert(items[i] == entry);
        } else {
            assert(items[at] == entry);
        }
    }
}

proof fn lemma_root_first(items: Seq<(u64, usize)>, i: int)
    requires
        ordered(items),
        0 <= i < items.len(),
    ensures
        comes_first(items[0], items[i]),
    decreases i,
{
    if i > 0 {
        lemma_root_first(items, parent(i));
        assert(comes_first(items[parent(i)], items[i]));
    }
}

/// A priority queue of stops, each with a duration, from which the entry of the
/// least duration comes out first.
pub struct MinQueue {
    items: Vec<(u64, usize)>,
}

impl View for MinQueue {
    type V = Seq<(u64, usize)>;

    /// The entries of the queue, in no order that callers may rely on.
    closed spec fn view(&self) -> Seq<(u64, usize)> {
        self.items@
    }
}

impl MinQueue {
    /// The entries are laid out as a heap.
    pub closed spec fn wf(&self) -> bool {
        ordered(self.items@)
    }

    /// A queue without entries.
    pub fn new() -> (queue: MinQueue)
        ensures
            queue.wf(),
            queue@.len() == 0,
    {
        MinQueue { items: Vec::new() }
    }

    /// The number of entries.
    pub fn len(&self) -> (n: usize)
        ensures
            n == self@.len(),
    {
        self.items.len()
    }

    /// Exchanges the entries at two positions.
    fn swap(&mut self, i: usize, j: usize)
        requires
            i < old(self).items@.len(),
            j < old(self).items@.len(),
        ensures
            final(self).items@ == old(self).items@.update(i as int, old(self).items@[j as int]).update(
                j as int,
                old(self).items@[i as int],
            ),
    {
        let first = self.items[i];
        let second = self.items[j];
        self.items[i] = second;
        self.items[j] = first;
    }

    /// Puts an entry into the queue.
    pub fn push(&mut self, entry: (u64, usize))
        requires
            old(self).wf(),
        ensures
            final(self).wf(),
            pushed(old(self)@, final(self)@, entry),
    {
        self.items.push(entry);
        let ghost start = self.items@;
        proof {
            assert forall|other: (u64, usize)| #[trigger]
                start.contains(other) <==> (old(self)@.contains(other) || other == entry) by {
                if start.contains(other) {
                    let at = choose|at: int| 0 <= at < start.len() && start[at] == other;
                    if at < old(self)@.len() {
                        assert(old(self)@[at] == other);
                    }
                }
                if old(self)@.contains(other) {
                    let at = choose|at: int| 0 <= at < old(self)@.len() && old(self)@[at] == other;
                    assert(start[at] == other);
                }
                if other == entry {
                    assert(start[start.len() - 1] == other);
                }
            }
        }
        let mut hole: usize = self.items.len() - 1;
        while hole > 0
            invariant
                0 <= hole < self.items@.len(),
                ordered_but(self.items@, hole as int),
                same_entries(start, self.items@),
                pushed(old(self)@, start, entry),
            decreases hole,
        {
            let above: usize = (hole - 1) / 2;
            let upper = self.items[above];
            let lower = self.items[hole];
            if upper.0 < lower.0 || (upper.0 == lower.0 && upper.1 <= lower.1) {
                assert(ordered(self.items@));
                return ;
            }
            let ghost before = self.items@;
            self.swap(above, hole);
            proof {
                lemma_swap(before, above as int, hole as int);
                let after = self.items@;
                assert forall|i: int| 0 < i < after.len() && i != above implies comes_first(
                    after[parent(i)],
                    #[trigger] after[i],
                ) by {
                    if i == hole {
                    } else if parent(i) == hole {
                        assert(comes_first(before[parent(hole as int)], before[i]));
                    } else if parent(i) == above {
                        assert(comes_first(before[above as int], before[i]));
                    } else {
                        assert(comes_first(before[parent(i)], before[i]));
                    }
                }
                assert forall|i: int|
                    0 < i < after.len() && parent(i) == above && above > 0 implies comes_first(
                    after[parent(above as int)],
                    #[trigger] after[i],
                ) by {
                    assert(comes_first(before[parent(above as int)], before[above as int]));
                    if i == hole {
                    } else {
                        assert(comes_first(before[above as int], before[i]));
                    }
                }
            }
            hole = above;
        }
        assert(ordered(self.items@));
    }

    /// Takes the entry that comes first out of the queue.
    pub fn pop(&mut self) -> (entry: (u64, usize))
        requires
            old(self).wf(),
            old(self)@.len() > 0,
        ensures
            final(self).wf(),
            popped(old(self)@, final(self)@, entry),
    {
        let ghost full = self.items@;
        let last: usize = self.items.len() - 1;
        proof {
            assert forall|other: (u64, usize)| #[trigger] full.contains(other) implies comes_first(
                full[0],
                other,
            ) by {
                let at = choose|at: int| 0 <= at < full.len() && full[at] == other;
                lemma_root_first(full, at);
            }
        }
        self.swap(0, last);
        let ghost swapped = self.items@;
        let entry = self.items.pop().unwrap();
        let ghost start = self.items@;
        proof {
            lemma_swap(full, 0, last as int);
            assert(entry == full[0]);
            assert(full.contains(entry));
            assert forall|other: (u64, usize)| #[trigger] start.contains(other) implies full.contains(
                other,
            ) by {
                let at = choose|at: int| 0 <= at < start.len() && start[at] == other;
                assert(swapped[at] == other);
                assert(swapped.contains(other));
            }
            assert forall|other: (u64, usize)| #[trigger]
                full.contains(other) && other != entry implies start.contains(other) by {
                assert(swapped.contains(other));
                let at = choose|at: int| 0 <= at < swapped.len() && swapped[at] == other;
                assert(at != last);
                assert(start[at] == other);
            }
            assert forall|i: int| 0 < i < start.len() && parent(i) != 0 implies comes_first(
                start[parent(i)],
                #[trigger] start[i],
            ) by {
                assert(comes_first(full[parent(i)], full[i]));
            }
        }
        let n: usize = self.items.len();
        let mut hole: usize = 0;
        while hole < n / 2
            invariant
                n == self.items@.len(),
                0 <= hole,
                hole < n || n == 0,
                settled_but(self.items@, hole as int),
                same_entries(start, self.items@),
                full == old(self)@,
                popped(full, start, entry),
            decreases n - hole,
        {
            let left: usize = 2 * hole + 1;
            let right: usize = left + 1;
            let mut child: usize = left;
            if right < n {
                let a = self.items[left];
                let b = self.items[right];
                if b.0 < a.0 || (b.0 == a.0 && b.1 < a.1) {
                    child = right;
                }
            }
            let upper = self.items[hole];
            let lower = self.items[child];
            if upper.0 < lower.0 || (upper.0 == lower.0 && upper.1 <= lower.1) {
                proof {
                    let items = self.items@;
                    assert forall|i: int| 0 < i < items.len() implies comes_first(
                        items[parent(i)],
                        #[trigger] items[i],
                    ) by {
                        if parent(i) == hole {
                            assert(i == left || i == right);
                        }
                    }
                }
                return entry;
            }
            let ghost before = self.items@;
            self.swap(hole, child);
            proof {
                lemma_swap(before, hole as int, child as int);
                let after = self.items@;
                assert forall|i: int| 0 < i < after.len() && parent(i) != child implies comes_first(
                    after[parent(i)],
                    #[trigger] after[i],
                ) by {
                    if i == hole {
                        assert(parent(child as int) == hole);
                        assert(comes_first(before[parent(hole as int)], before[child as int]));
                    } else if parent(i) == hole {
                        assert(i == left || i == right);
                    } else {
                        assert(comes_first(before[parent(i)], before[i]));
                    }
                }
                assert forall|i: int|
                    0 < i < after.len() && parent(i) == child && child > 0 implies comes_first(
                    after[parent(child as int)],
                    #[trigger] after[i],
                ) by {
                    assert(comes_first(before[parent(i)], before[i]));
                }
            }
            hole = child;
        }
        proof {
            let items = self.items@;
            assert forall|i: int| 0 < i < items.len() implies comes_first(
                items[parent(i)],
                #[trigger] items[i],
            ) by {
                assert(parent(i) != hole);
            }
        }
        entry
    }
}

} // verus!
