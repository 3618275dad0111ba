//! Short lists of cells, stored inline for up to ten entries.
//!
//! A cell has at most eight neighbours, so these lists never touch the heap.
//! The storage is `SmallVec`; what is claimed of its methods is stated on
//! the private functions below and taken on trust.

use bracket_pathfinding::prelude::SmallVec;
use vstd::prelude::*;

verus! {

/// A list of cell indices.
#[verifier::external_body]
pub struct IndexList {
    items: SmallVec<[usize; 10]>,
}

/// A list of exits: the index of a cell and the cost of stepping onto it.
#[verifier::external_body]
pub struct ExitList {
    items: SmallVec<[(usize, u32); 10]>,
}

/// The indices that an `IndexList` holds, in order.
pub uninterp spec fn index_list_items(list: IndexList) -> Seq<usize>;

/// The exits that an `ExitList` holds, in order.
pub uninterp spec fn exit_list_items(list: ExitList) -> Seq<(usize, u32)>;

impl View for IndexList {
    type V = Seq<usize>;

    open spec fn view(&self) -> Seq<usize> {
        index_list_items(*self)
    }
}

impl View for ExitList {
    type V = Seq<(usize, u32)>;

    open spec fn view(&self) -> Seq<(usize, u32)> {
        exit_list_items(*self)
    }
}

impl IndexList {
    /// `SmallVec::new`: the list it returns holds nothing.
    #[verifier::external_body]
    pub(crate) fn new() -> (list: IndexList)
        ensures
            index_list_items(list) == Seq::<usize>::empty(),
    {
        IndexList { items: SmallVec::new() }
    }

    /// `SmallVec::push`: the item is appended behind what the list held.
    #[verifier::external_body]
    pub(crate) fn push(&mut self, item: usize)
        ensures
            index_list_items(*final(self)) == index_list_items(*old(self)).push(item),
    {
        self.items.push(item)
    }

    /// `SmallVec::len`: the number of items held.
    #[verifier::external_body]
    fn stored(&self) -> (n: usize)
        ensures
            n == index_list_items(*self).len(),
    {
        self.items.len()
    }

    /// Indexing a `SmallVec` below its length: the item at that place.
    #[verifier::external_body]
    fn item(&self, i: usize) -> (item: usize)
        requires
            i < index_list_items(*self).len(),
        ensures
            item == index_list_items(*self)[i as int],
    {
        self.items[i]
    }

    /// Number of indices in the list.
    pub fn len(&self) -> (n: usize)
        ensures
            n == self@.len(),
    {
        self.stored()
    }

    /// The index at place `i`, or `None` where the list is shorter.
    pub fn get(&self, i: usize) -> (r: Option<usize>)
        ensures
            i < self@.len() ==> r == Some(self@[i as int]),
            i >= self@.len() ==> r is None,
    {
        if i < self.stored() {
            Some(self.item(i))
        } else {
            None
        }
    }

    /// Whether the list holds the index.
    pub fn contains(&self, index: &usize) -> (r: bool)
        ensures
            r == self@.contains(*index),
    {
        let n = self.stored();
        let mut i: usize = 0;
        while i < n
            invariant
                i <= n,
                n == self@.len(),
                forall|k: int| 0 <= k < i ==> self@[k] != *index,
            decreases n - i,
        {
            if self.item(i) == *index {
                return true;
            }
            i = i + 1;
        }
        false
    }

    /// The indices as a vector, in the same order.
    pub fn to_vec(&self) -> (v: Vec<usize>)
        ensures
            v@ == self@,
    {
        let n = self.stored();
        let mut v: Vec<usize> = Vec::new();
        let mut i: usize = 0;
        while i < n
            invariant
                i <= n,
                n == self@.len(),
                v@ == self@.take(i as int),
            decreases n - i,
        {
            v.push(self.item(i));
            assert(self@.take(i + 1) == self@.take(i as int).push(self@[i as int]));
            i = i + 1;
        }
        assert(self@.take(n as int) == self@);
        v
    }
}

impl ExitList {
    /// `SmallVec::new`: the list it returns holds nothing.
    #[verifier::external_body]
    pub(crate) fn new() -> (list: ExitList)
        ensures
            exit_list_items(list) == Seq::<(usize, u32)>::empty(),
    {
        ExitList { items: SmallVec::new() }
    }

    /// `SmallVec::push`: the item is appended behind what the list held.
    #[verifier::external_body]
    pub(crate) fn push(&mut self, item: (usize, u32))
        ensures
            exit_list_items(*final(self)) == exit_list_items(*old(self)).push(item),
    {
        self.items.push(item)
    }

    /// `SmallVec::len`: the number of items held.
    #[verifier::external_body]
    fn stored(&self) -> (n: usize)
        ensures
            n == exit_list_items(*self).len(),
    {
        self.items.len()
    }

    /// Indexing a `SmallVec` below its length: the item at that place.
    #[verifier::external_body]
    fn item(&self, i: usize) -> (item: (usize, u32))
        requires
            i < exit_list_items(*self).len(),
        ensures
            item == exit_list_items(*self)[i as int],
    {
        self.items[i]
    }

    /// Number of exits in the list.
    pub fn len(&self) -> (n: usize)
        ensures
            n == self@.len(),
    {
        self.stored()
    }

    /// The exit at place `i`, or `None` where the list is shorter.
    pub fn get(&self, i: usize) -> (r: Option<(usize, u32)>)
        ensures
            i < self@.len() ==> r == Some(self@[i as int]),
            i >= self@.len() ==> r is None,
    {
        if i < self.stored() {
            Some(self.item(i))
        } else {
            None
        }
    }

    /// The exits as a vector, in the same order.
    pub fn to_vec(&self) -> (v: Vec<(usize, u32)>)
        ensures
            v@ == self@,
    {
        let n = self.stored();
        let mut v: Vec<(usize, u32)> = Vec::new();
        let mut i: usize = 0;
        while i < n
            invariant
                i <= n,
                n == self@.len(),
                v@ == self@.take(i as int),
            decreases n - i,
        {
            v.push(self.item(i));
            assert(self@.take(i + 1) == self@.take(i as int).push(self@[i as int]));
            i = i + 1;
        }
        assert(self@.take(n as int) == self@);
        v
    }
}

} // verus!
