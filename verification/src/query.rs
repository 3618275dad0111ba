//! Tile queries: which cells of a grid meet a set of optional constraints.

use crate::grid::{Grid, GridError};
use crate::lists::IndexList;
use crate::random::draw_below;
use crate::tiles::{MapIndex, TileType};
use bevy_turborand::rng::Rng;
use vstd::prelude::*;

verus! {

/// A set of constraints on tiles. A field that is `None` constrains nothing;
/// a tile meets the query when it meets every constraint that is present.
pub struct TileQuery {
    /// The tile is walkable, or is not.
    pub walkable: Option<bool>,
    /// The tile is growable, or is not.
    pub growable: Option<bool>,
    /// The tile lies closer than a radius, given in tenths of a cell, to the
    /// cell with the given index, in a straight line.
    pub distance: Option<(u32, usize)>,
    /// The tile's index is none of these.
    pub exclude: Option<Vec<usize>>,
    /// The tile's terrain is one of these.
    pub types: Option<Vec<TileType>>,
}

impl Default for TileQuery {
    /// The query without constraints.
    fn default() -> (query: Self)
        ensures
            query.unconstrained(),
    {
        TileQuery { walkable: None, growable: None, distance: None, exclude: None, types: None }
    }
}

impl TileQuery {
    /// Whether no constraint is present.
    pub open spec fn unconstrained(&self) -> bool {
        &&& self.walkable is None
        &&& self.growable is None
        &&& self.distance is None
        &&& self.exclude is None
        &&& self.types is None
    }

    /// Whether the cell from which distance is measured, if any, is a cell
    /// of the grid.
    pub open spec fn origin_in(&self, grid: &Grid) -> bool {
        self.distance matches Some(d) ==> d.1 < grid.spec_len()
    }

    /// Whether the cell with the given index meets every constraint that is
    /// present.
    pub open spec fn admits(&self, grid: &Grid, index: int) -> bool {
        &&& self.walkable matches Some(w) ==> grid.spec_walkable(index) == w
        &&& self.growable matches Some(g) ==> grid.spec_growable(index) == g
        &&& self.distance matches Some(d) ==> grid.spec_within(index, d.1 as int, d.0 as int)
        &&& self.exclude matches Some(e) ==> !e@.contains(index as usize)
        &&& self.types matches Some(t) ==> t@.contains(grid.cells()[index])
    }

    /// Whether this query holds every constraint of `other`, and possibly
    /// more.
    pub open spec fn narrows(&self, other: &TileQuery) -> bool {
        &&& other.walkable is Some ==> self.walkable == other.walkable
        &&& other.growable is Some ==> self.growable == other.growable
        &&& other.distance is Some ==> self.distance == other.distance
        &&& other.exclude is Some ==> self.exclude is Some && self.exclude->Some_0@
            == other.exclude->Some_0@
        &&& other.types is Some ==> self.types is Some && self.types->Some_0@
            == other.types->Some_0@
    }

    /// Whether the cell with the given index meets the query.
    pub fn matches(&self, grid: &Grid, index: usize) -> (r: bool)
        requires
            index < grid.spec_len(),
            self.origin_in(grid),
        ensures
            r == self.admits(grid, index as int),
    {
        if let Some((radius, origin)) = self.distance {
            if !grid.within(index, origin, radius) {
                return false;
            }
        }
        if let Some(walkable) = self.walkable {
            if grid.is_walkable(&index) != walkable {
                return false;
            }
        }
        if let Some(growable) = self.growable {
            if grid.is_growable(&index) != growable {
                return false;
            }
        }
        if let Some(excludes) = &self.exclude {
            if holds_index(excludes, index) {
                return false;
            }
        }
        if let Some(types) = &self.types {
            if !holds_type(types, grid.tile(index)) {
                return false;
            }
        }
        true
    }
}

/// Whether the vector holds the index.
fn holds_index(items: &Vec<usize>, index: usize) -> (r: bool)
    ensures
        r == items@.contains(index),
{
    let mut i: usize = 0;
    while i < items.len()
        invariant
            i <= items.len(),
            forall|k: int| 0 <= k < i ==> items@[k] != index,
        decreases items.len() - i,
    {
        if items[i] == index {
            return true;
        }
        i = i + 1;
    }
    false
}

/// Whether the vector holds the terrain class.
fn holds_type(items: &Vec<TileType>, tile_type: TileType) -> (r: bool)
    ensures
        r == items@.contains(tile_type),
{
    let mut i: usize = 0;
    while i < items.len()
        invariant
            i <= items.len(),
            forall|k: int| 0 <= k < i ==> items@[k] != tile_type,
        decreases items.len() - i,
    {
        if items[i] == tile_type {
            return true;
        }
        i = i + 1;
    }
    false
}

impl Grid {
    /// The indices among the first `n` candidates that meet the query, in
    /// the candidates' order.
    pub open spec fn kept(&self, query: &TileQuery, candidates: Seq<usize>, n: nat) -> Seq<usize>
        decreases n,
    {
        if n == 0 {
            Seq::empty()
        } else {
            let rest = self.kept(query, candidates, (n - 1) as nat);
            if query.admits(self, candidates[n - 1] as int) {
                rest.push(candidates[n - 1])
            } else {
                rest
            }
        }
    }

    /// Every index of the grid, ascending.
    pub open spec fn all_indices(&self) -> Seq<usize> {
        Seq::new(self.spec_len(), |i: int| i as usize)
    }

    /// The cells of the grid that meet the query, by ascending index.
    pub open spec fn spec_query(&self, query: &TileQuery) -> Seq<usize> {
        self.kept(query, self.all_indices(), self.spec_len())
    }

    /// The neighbours of a cell that meet the query, in the neighbours'
    /// order.
    pub open spec fn spec_query_neighbours(&self, index: int, query: &TileQuery) -> Seq<usize> {
        self.kept(query, self.spec_neighbours(index), self.spec_neighbours(index).len())
    }

    /// The cells that meet the query, by ascending index, or
    /// `IndexOutOfRange` where the query measures distance from a cell that
    /// the grid does not have.
    pub fn query(&self, query: &TileQuery) -> (r: Result<Vec<usize>, GridError>)
        ensures
            query.origin_in(self) ==> r is Ok && r->Ok_0@ == self.spec_query(query),
            !query.origin_in(self) ==> r == Err::<Vec<usize>, GridError>(
                GridError::IndexOutOfRange,
            ),
    {
        let count = self.len();
        if let Some((_, origin)) = query.distance {
            if origin >= count {
                return Err(GridError::IndexOutOfRange);
            }
        }
        let mut result: Vec<usize> = Vec::new();
        let mut index: usize = 0;
        while index < count
            invariant
                index <= count,
                count == self.spec_len(),
                query.origin_in(self),
                result@ == self.kept(query, self.all_indices(), index as nat),
            decreases count - index,
        {
            if query.matches(self, index) {
                result.push(index);
            }
            index = index + 1;
        }
        Ok(result)
    }

    /// The neighbours of a cell that meet the query, or `IndexOutOfRange`
    /// where the grid has no such cell or the query measures distance from
    /// a cell that the grid does not have.
    pub fn query_neighbours(&self, index: usize, query: &TileQuery) -> (r: Result<
        IndexList,
        GridError,
    >)
        ensures
            (index < self.spec_len() && query.origin_in(self)) ==> r is Ok && r->Ok_0@
                == self.spec_query_neighbours(index as int, query),
            !(index < self.spec_len() && query.origin_in(self)) ==> r is Err && r->Err_0
                == GridError::IndexOutOfRange,
    {
        let count = self.len();
        if index >= count {
            return Err(GridError::IndexOutOfRange);
        }
        if let Some((_, origin)) = query.distance {
            if origin >= count {
                return Err(GridError::IndexOutOfRange);
            }
        }
        let neighbours = self.get_neighbours(index);
        let total = neighbours.len();
        let mut result = IndexList::new();
        let mut place: usize = 0;
        while place < total
            invariant
                place <= total,
                total == neighbours@.len(),
                count == self.spec_len(),
                index < count,
                self.wf(),
                query.origin_in(self),
                neighbours@ == self.spec_neighbours(index as int),
                result@ == self.kept(query, neighbours@, place as nat),
            decreases total - place,
        {
            let neighbour = neighbours.get(place).unwrap();
            proof {
                self.lemma_neighbours(index as int, neighbour);
                assert(neighbours@.contains(neighbour));
            }
            if query.matches(self, neighbour) {
                result.push(neighbour);
            }
            place = place + 1;
        }
        Ok(result)
    }

    /// A cell drawn from those that meet the query; `None` where no cell
    /// meets it; `IndexOutOfRange` where the query measures distance from a
    /// cell that the grid does not have.
    pub fn rand_from_query(&self, rng: &mut Rng, query: &TileQuery) -> (r: Result<
        Option<MapIndex>,
        GridError,
    >)
        ensures
            !query.origin_in(self) ==> r == Err::<Option<MapIndex>, GridError>(
                GridError::IndexOutOfRange,
            ),
            query.origin_in(self) ==> r is Ok,
            query.origin_in(self) && self.spec_query(query).len() == 0 ==> r == Ok::<
                Option<MapIndex>,
                GridError,
            >(None),
            query.origin_in(self) && self.spec_query(query).len() > 0 ==> r->Ok_0 is Some
                && self.spec_query(query).contains(r->Ok_0->Some_0.0),
    {
        match self.query(query) {
            Err(e) => Err(e),
            Ok(result) => {
                match sample_uniform(rng, &result) {
                    Some(index) => Ok(Some(MapIndex(index))),
                    None => Ok(None),
                }
            },
        }
    }
}

/// The item at place `roll`, or `None` where the vector is that short.
pub fn pick(matches: &Vec<usize>, roll: usize) -> (r: Option<usize>)
    ensures
        roll < matches@.len() ==> r == Some(matches@[roll as int]),
        roll >= matches@.len() ==> r is None,
{
    if roll < matches.len() {
        Some(matches[roll])
    } else {
        None
    }
}

/// One of the items, drawn with the given generator, or `None` where there
/// is none.
pub fn sample_uniform(rng: &mut Rng, matches: &Vec<usize>) -> (r: Option<usize>)
    ensures
        matches@.len() == 0 <==> r is None,
        r is Some ==> matches@.contains(r->Some_0),
{
    if matches.len() == 0 {
        None
    } else {
        let roll = draw_below(rng, matches.len());
        pick(matches, roll)
    }
}

impl Grid {
    /// What is kept of the first `n` candidates: exactly those that meet
    /// the query, and no more than `n`.
    pub proof fn lemma_kept(&self, query: &TileQuery, candidates: Seq<usize>, n: nat, j: usize)
        requires
            n <= candidates.len(),
        ensures
            self.kept(query, candidates, n).len() <= n,
            self.kept(query, candidates, n).contains(j) <==> (query.admits(self, j as int)
                && exists|k: int| 0 <= k < n && candidates[k] == j),
        decreases n,
    {
        if n > 0 {
            let m = (n - 1) as nat;
            self.lemma_kept(query, candidates, m, j);
            let rest = self.kept(query, candidates, m);
            let all = self.kept(query, candidates, n);
            let last = candidates[n - 1];
            if query.admits(self, last as int) {
                assert(all == rest.push(last));
                assert(all[all.len() - 1] == last);
                if rest.contains(j) {
                    let i = choose|i: int| 0 <= i < rest.len() && rest[i] == j;
                    assert(all[i] == j);
                }
                if j == last {
                    assert(all.contains(j));
                }
            }
        }
    }

    /// A query returns exactly the cells of the grid that meet it.
    pub proof fn lemma_query_members(&self, query: &TileQuery, j: usize)
        ensures
            self.spec_query(query).len() <= self.spec_len(),
            self.spec_query(query).contains(j) <==> (j < self.spec_len() && query.admits(
                self,
                j as int,
            )),
    {
        self.lemma_kept(query, self.all_indices(), self.spec_len(), j);
        if j < self.spec_len() {
            assert(self.all_indices()[j as int] == j);
        }
    }

    /// What is kept of the first `n` indices is ascending and below `n`.
    proof fn lemma_kept_ascending(&self, query: &TileQuery, n: nat)
        requires
            self.wf(),
            n <= self.spec_len(),
        ensures
            forall|a: int|
                0 <= a < self.kept(query, self.all_indices(), n).len() ==> #[trigger] self.kept(
                    query,
                    self.all_indices(),
                    n,
                )[a] < n,
            forall|a: int, b: int|
                0 <= a < b < self.kept(query, self.all_indices(), n).len() ==> #[trigger] self.kept(
                    query,
                    self.all_indices(),
                    n,
                )[a] < #[trigger] self.kept(query, self.all_indices(), n)[b],
        decreases n,
    {
        if n > 0 {
            let m = (n - 1) as nat;
            self.lemma_kept_ascending(query, m);
            let rest = self.kept(query, self.all_indices(), m);
            let all = self.kept(query, self.all_indices(), n);
            let last = self.all_indices()[n - 1];
            assert(last == n - 1);
            if query.admits(self, last as int) {
                assert(all == rest.push(last));
                assert forall|a: int| 0 <= a < all.len() implies #[trigger] all[a] < n by {
                    if a < rest.len() {
                        assert(all[a] == rest[a]);
                    }
                }
                assert forall|a: int, b: int| 0 <= a < b < all.len() implies #[trigger] all[a]
                    < #[trigger] all[b] by {
                    assert(all[a] == rest[a]);
                    if b < rest.len() {
                        assert(all[b] == rest[b]);
                    }
                }
            } else {
                assert(all == rest);
            }
        }
    }

    /// A query lists the cells it returns by ascending index.
    pub proof fn lemma_query_ascending(&self, query: &TileQuery, a: int, b: int)
        requires
            self.wf(),
            0 <= a < b < self.spec_query(query).len(),
        ensures
            self.spec_query(query)[a] < self.spec_query(query)[b],
    {
        self.lemma_kept_ascending(query, self.spec_len());
    }

    /// A query among the neighbours of a cell returns exactly the
    /// neighbours that meet it, and never the cell itself.
    pub proof fn lemma_query_neighbours_members(&self, index: usize, query: &TileQuery, j: usize)
        requires
            self.wf(),
            index < self.spec_len(),
        ensures
            self.spec_query_neighbours(index as int, query).len() <= 8,
            self.spec_query_neighbours(index as int, query).contains(j) <==> (
            self.spec_neighbours(index as int).contains(j) && query.admits(self, j as int)),
            !self.spec_query_neighbours(index as int, query).contains(index),
    {
        let around = self.spec_neighbours(index as int);
        self.lemma_kept(query, around, around.len(), j);
        self.lemma_kept(query, around, around.len(), index);
        self.lemma_neighbours(index as int, index);
        if around.contains(j) {
            let k = choose|k: int| 0 <= k < around.len() && around[k] == j;
            assert(0 <= k < around.len() && around[k] == j);
        }
    }

    /// Without constraints a query returns every cell.
    pub proof fn lemma_query_unconstrained(&self, query: &TileQuery)
        requires
            query.unconstrained(),
        ensures
            self.spec_query(query) == self.all_indices(),
    {
        self.lemma_kept_all(query, self.spec_len());
        assert(self.all_indices().take(self.spec_len() as int) == self.all_indices());
    }

    /// Without constraints every candidate is kept.
    proof fn lemma_kept_all(&self, query: &TileQuery, n: nat)
        requires
            query.unconstrained(),
            n <= self.spec_len(),
        ensures
            self.kept(query, self.all_indices(), n) == self.all_indices().take(n as int),
        decreases n,
    {
        if n > 0 {
            self.lemma_kept_all(query, (n - 1) as nat);
            assert(self.all_indices().take(n as int) == self.all_indices().take(n - 1).push(
                self.all_indices()[n - 1],
            ));
        } else {
            assert(self.all_indices().take(0) == Seq::<usize>::empty());
        }
    }

    /// A query that narrows another keeps no more of any candidates than
    /// the other does, and nothing that the other drops.
    pub proof fn lemma_narrower_keeps_less(
        &self,
        narrow: &TileQuery,
        wide: &TileQuery,
        candidates: Seq<usize>,
        n: nat,
    )
        requires
            narrow.narrows(wide),
            n <= candidates.len(),
        ensures
            self.kept(narrow, candidates, n).len() <= self.kept(wide, candidates, n).len(),
            forall|j: usize|
                self.kept(narrow, candidates, n).contains(j) ==> self.kept(
                    wide,
                    candidates,
                    n,
                ).contains(j),
        decreases n,
    {
        if n > 0 {
            self.lemma_narrower_keeps_less(narrow, wide, candidates, (n - 1) as nat);
        }
        assert forall|j: usize| self.kept(narrow, candidates, n).contains(j) implies self.kept(
            wide,
            candidates,
            n,
        ).contains(j) by {
            self.lemma_kept(narrow, candidates, n, j);
            self.lemma_kept(wide, candidates, n, j);
        }
    }

    /// Adding constraints to a query never adds a cell to what it returns:
    /// the narrower query returns no more cells, and only cells that the
    /// wider one returns too. The same holds among the neighbours of a cell.
    pub proof fn lemma_query_monotone(&self, narrow: &TileQuery, wide: &TileQuery, index: int)
        requires
            narrow.narrows(wide),
        ensures
            self.spec_query(narrow).len() <= self.spec_query(wide).len(),
            forall|j: usize|
                self.spec_query(narrow).contains(j) ==> self.spec_query(wide).contains(j),
            self.spec_query_neighbours(index, narrow).len() <= self.spec_query_neighbours(
                index,
                wide,
            ).len(),
            forall|j: usize|
                self.spec_query_neighbours(index, narrow).contains(j)
                    ==> self.spec_query_neighbours(index, wide).contains(j),
    {
        self.lemma_narrower_keeps_less(narrow, wide, self.all_indices(), self.spec_len());
        let around = self.spec_neighbours(index);
        self.lemma_narrower_keeps_less(narrow, wide, around, around.len());
    }
}

} // verus!
