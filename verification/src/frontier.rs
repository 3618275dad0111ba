//! The open set of a search: a binary min-heap of cells keyed by cost.

use vstd::multiset::{lemma_multiset_empty_len, Multiset};
use vstd::prelude::*;
use vstd::seq_lib::{to_multiset_build, to_multiset_contains, to_multiset_len, to_multiset_update};

verus! {

/// A cell waiting to be expanded, with the cost by which it is ranked.
#[derive(Clone, Copy, Debug, PartialEq, Eq, Structural)]
pub struct State {
    /// Index of the cell.
    pub position: usize,
    /// Estimated cost of a path through the cell.
    pub cost: i64,
}

/// Whether every entry costs at least as much as its parent in the heap.
pub open spec fn heap_ordered(s: Seq<State>) -> bool {
    forall|i: int| 0 < i < s.len() ==> (#[trigger] s[(i - 1) / 2]).cost <= s[i].cost
}

/// Heap order everywhere but between `k` and its parent, with the children
/// of `k` already no cheaper than the parent of `k`.
spec fn ordered_but_above(s: Seq<State>, k: int) -> bool {
    &&& forall|i: int| 0 < i < s.len() && i != k ==> (#[trigger] s[(i - 1) / 2]).cost <= s[i].cost
    &&& forall|i: int|
        0 < i < s.len() && (i - 1) / 2 == k && k > 0 ==> s[(k - 1) / 2].cost <= (#[trigger] s[i]).cost
}

/// Heap order everywhere but between `k` and its children, with the
/// children of `k` already no cheaper than the parent of `k`.
spec fn ordered_but_below(s: Seq<State>, k: int) -> bool {
    &&& forall|i: int|
        0 < i < s.len() && (i - 1) / 2 != k ==> (#[trigger] s[(i - 1) / 2]).cost <= s[i].cost
    &&& forall|i: int|
        0 < i < s.len() && (i - 1) / 2 == k && k > 0 ==> s[(k - 1) / 2].cost <= (#[trigger] s[i]).cost
}

/// In a heap no entry is cheaper than the first.
proof fn lemma_first_is_cheapest(s: Seq<State>, i: int)
    requires
        heap_ordered(s),
        0 <= i < s.len(),
    ensures
        s[0].cost <= s[i].cost,
    decreases i,
{
    if i > 0 {
        lemma_first_is_cheapest(s, (i - 1) / 2);
        assert(s[(i - 1) / 2].cost <= s[i].cost);
    }
}

/// Exchanging two entries of a sequence leaves its multiset unchanged.
proof fn lemma_exchange(s: Seq<State>, i: int, j: int)
    requires
        0 <= i < s.len(),
        0 <= j < s.len(),
    ensures
        s.update(i, s[j]).update(j, s[i]).to_multiset() == s.to_multiset(),
{
    let t = s.update(i, s[j]);
    to_multiset_update(s, i, s[j]);
    to_multiset_update(t, j, s[i]);
    to_multiset_contains(s, s[i]);
    to_multiset_contains(s, s[j]);
    assert(s.contains(s[i]));
    assert(s.contains(s[j]));
    assert(t.update(j, s[i]).to_multiset() =~= s.to_multiset());
}

/// Appends an entry and moves it up to where the heap order holds again.
fn heap_insert(entries: &mut Vec<State>, state: State)
    requires
        heap_ordered(old(entries)@),
    ensures
        heap_ordered(final(entries)@),
        final(entries)@.to_multiset() == old(entries)@.to_multiset().insert(state),
{
    entries.push(state);
    proof {
        to_multiset_build(old(entries)@, state);
    }
    let ghost target = entries@.to_multiset();
    let mut k: usize = entries.len() - 1;
    assert(ordered_but_above(entries@, k as int));
    while k > 0 && entries[(k - 1) / 2].cost > entries[k].cost
        invariant
            0 <= k < entries@.len(),
            ordered_but_above(entries@, k as int),
            entries@.to_multiset() == target,
        ensures
            heap_ordered(entries@),
            entries@.to_multiset() == target,
        decreases k,
    {
        let parent: usize = (k - 1) / 2;
        let child_state = entries[k];
        let parent_state = entries[parent];
        let ghost before = entries@;
        entries[k] = parent_state;
        entries[parent] = child_state;
        proof {
            lemma_exchange(before, k as int, parent as int);
            assert(entries@ == before.update(k as int, before[parent as int]).update(
                parent as int,
                before[k as int],
            ));
            assert forall|i: int| 0 < i < entries@.len() && i != parent implies (
            #[trigger] entries@[(i - 1) / 2]).cost <= entries@[i].cost by {
                if i == k {
                } else if (i - 1) / 2 == k {
                    assert(before[(k - 1) / 2].cost <= before[i].cost);
                } else if (i - 1) / 2 == parent {
                    assert(before[(i - 1) / 2].cost <= before[i].cost);
                } else {
                    assert(before[(i - 1) / 2].cost <= before[i].cost);
                }
            }
            assert forall|i: int|
                0 < i < entries@.len() && (i - 1) / 2 == parent && parent > 0 implies entries@[(
            parent - 1) / 2].cost <= (#[trigger] entries@[i]).cost by {
                assert(before[(parent - 1) / 2].cost <= before[parent as int].cost);
                if i != k {
                    assert(before[(i - 1) / 2].cost <= before[i].cost);
                }
            }
        }
        k = parent;
    }
}

/// Takes the first entry out, puts the last in its place and moves it down
/// to where the heap order holds again.
fn heap_remove_first(entries: &mut Vec<State>) -> (first: State)
    requires
        heap_ordered(old(entries)@),
        old(entries)@.len() > 0,
    ensures
        heap_ordered(final(entries)@),
        first == old(entries)@[0],
        final(entries)@.to_multiset() == old(entries)@.to_multiset().remove(first),
{
    let first = entries[0];
    let last = entries.pop().unwrap();
    let ghost shorter = entries@;
    proof {
        assert(old(entries)@ == shorter.push(last));
        to_multiset_build(shorter, last);
        to_multiset_contains(old(entries)@, first);
        assert(old(entries)@.contains(first));
    }
    let n = entries.len();
    if n == 0 {
        proof {
            assert(shorter.to_multiset() =~= old(entries)@.to_multiset().remove(first));
        }
        return first;
    }
    entries[0] = last;
    proof {
        to_multiset_update(shorter, 0, last);
        assert(entries@.to_multiset() =~= old(entries)@.to_multiset().remove(first));
        assert forall|i: int| 0 < i < entries@.len() && (i - 1) / 2 != 0 implies (
        #[trigger] entries@[(i - 1) / 2]).cost <= entries@[i].cost by {
            assert(old(entries)@[(i - 1) / 2].cost <= old(entries)@[i].cost);
        }
    }
    let ghost target = entries@.to_multiset();
    let mut k: usize = 0;
    loop
        invariant
            n == entries@.len(),
            0 <= k < n,
            ordered_but_below(entries@, k as int),
            entries@.to_multiset() == target,
        ensures
            heap_ordered(entries@),
            entries@.to_multiset() == target,
        decreases n - k,
    {
        if n < 2 || k > (n - 2) / 2 {
            break ;
        }
        let left: usize = 2 * k + 1;
        let mut least: usize = left;
        if left < n - 1 && entries[left + 1].cost < entries[left].cost {
            least = left + 1;
        }
        if entries[k].cost <= entries[least].cost {
            proof {
                assert forall|i: int| 0 < i < entries@.len() implies (#[trigger] entries@[(i - 1)
                    / 2]).cost <= entries@[i].cost by {
                    if (i - 1) / 2 == k {
                        assert(i == left || i == left + 1);
                    }
                }
            }
            break ;
        }
        let upper = entries[k];
        let lower = entries[least];
        let ghost before = entries@;
        entries[k] = lower;
        entries[least] = upper;
        proof {
            lemma_exchange(before, k as int, least as int);
            assert(entries@ == before.update(k as int, before[least as int]).update(
                least as int,
                before[k as int],
            ));
            assert forall|i: int| 0 < i < entries@.len() && (i - 1) / 2 != least implies (
            #[trigger] entries@[(i - 1) / 2]).cost <= entries@[i].cost by {
                if (i - 1) / 2 == k {
                    assert(i == left || i == left + 1);
                } else if i == k {
                    assert(before[(k - 1) / 2].cost <= before[least as int].cost);
                } else {
                    assert(before[(i - 1) / 2].cost <= before[i].cost);
                }
            }
            assert forall|i: int|
                0 < i < entries@.len() && (i - 1) / 2 == least && least > 0 implies entries@[(least
                - 1) / 2].cost <= (#[trigger] entries@[i]).cost by {
                assert(before[(i - 1) / 2].cost <= before[i].cost);
            }
        }
        k = least;
    }
    first
}

/// The cells that wait to be expanded. The cheapest comes out first.
pub struct Frontier {
    entries: Vec<State>,
}

impl View for Frontier {
    type V = Multiset<State>;

    closed spec fn view(&self) -> Multiset<State> {
        self.entries@.to_multiset()
    }
}

impl Frontier {
    #[verifier::type_invariant]
    spec fn inv(&self) -> bool {
        heap_ordered(self.entries@)
    }

    /// The empty frontier.
    pub fn new() -> (frontier: Frontier)
        ensures
            frontier@ == Multiset::<State>::empty(),
    {
        let entries: Vec<State> = Vec::new();
        proof {
            to_multiset_len(entries@);
            lemma_multiset_empty_len(entries@.to_multiset());
        }
        Frontier { entries }
    }

    /// Number of entries, each counted as often as it was pushed.
    pub fn len(&self) -> (n: usize)
        ensures
            n == self@.len(),
    {
        proof {
            to_multiset_len(self.entries@);
        }
        self.entries.len()
    }

    /// Adds an entry.
    pub fn push(&mut self, state: State)
        ensures
            final(self)@ == old(self)@.insert(state),
    {
        proof {
            use_type_invariant(&*self);
        }
        let mut entries: Vec<State> = Vec::new();
        core::mem::swap(&mut entries, &mut self.entries);
        heap_insert(&mut entries, state);
        self.entries = entries;
    }

    /// Takes out an entry that no other entry is cheaper than, or returns
    /// `None` where the frontier is empty.
    pub fn pop(&mut self) -> (r: Option<State>)
        ensures
            old(self)@.len() == 0 ==> r is None && final(self)@ == old(self)@,
            old(self)@.len() > 0 ==> r is Some,
            r is Some ==> {
                let first = r->Some_0;
                &&& old(self)@.contains(first)
                &&& final(self)@ == old(self)@.remove(first)
                &&& forall|other: State| old(self)@.contains(other) ==> first.cost <= other.cost
            },
    {
        proof {
            use_type_invariant(&*self);
            to_multiset_len(self.entries@);
        }
        if self.entries.len() == 0 {
            return None;
        }
        let ghost before = self.entries@;
        let mut entries: Vec<State> = Vec::new();
        core::mem::swap(&mut entries, &mut self.entries);
        let first = heap_remove_first(&mut entries);
        self.entries = entries;
        proof {
            to_multiset_contains(before, first);
            assert(before.contains(first));
            assert forall|other: State| before.to_multiset().contains(other) implies first.cost
                <= other.cost by {
                to_multiset_contains(before, other);
                let i = choose|i: int| 0 <= i < before.len() && before[i] == other;
                lemma_first_is_cheapest(before, i);
            }
        }
        Some(first)
    }
}

} // verus!
