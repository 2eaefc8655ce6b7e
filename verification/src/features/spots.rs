//! Places in files, and their order.

use vstd::prelude::*;
use vstd::string::*;

use crate::geometry::{least, numbers};
use crate::order::{sort_order, sorts, stable_order, Ordered};
use crate::paths::{components, part_list, parts, Component};
use crate::project_panel::{
    lemma_levels_strict, lemma_levels_transitive, levels, levels_precede, place_before, Level,
};

verus! {

broadcast use vstd::string::group_string_axioms;

/// A place in a file of a group of files.
#[derive(Debug, PartialEq, Eq)]
pub struct Spot {
    pub group: u64,
    pub path: String,
    pub row: u32,
    pub column: u32,
}

/// The plain values of a [`Spot`].
pub struct SpotView {
    pub group: u64,
    pub path: Seq<char>,
    pub row: u32,
    pub column: u32,
}

impl View for Spot {
    type V = SpotView;

    open spec fn view(&self) -> SpotView {
        SpotView { group: self.group, path: self.path@, row: self.row, column: self.column }
    }
}

/// The plain values of some places.
pub open spec fn spot_views(list: Seq<Spot>) -> Seq<SpotView> {
    Seq::new(list.len(), |i: int| list[i]@)
}

/// The components of a path, for their order.
pub open spec fn path_levels(path: Seq<char>) -> Seq<Level> {
    levels(parts(path), true)
}

/// Whether one place comes before another: by group, then by the components
/// of the path, then by row and column.
pub open spec fn spot_precedes(a: SpotView, b: SpotView) -> bool {
    a.group < b.group || a.group == b.group && (levels_precede(
        path_levels(a.path),
        path_levels(b.path),
    ) || path_levels(a.path) == path_levels(b.path) && (a.row < b.row || a.row == b.row && a.column
        < b.column))
}

/// The order of some places.
pub open spec fn spot_order(list: Seq<SpotView>) -> spec_fn(int, int) -> bool {
    |i: int, j: int| spot_precedes(list[i], list[j])
}

struct SpotList<'a> {
    spots: &'a Vec<Spot>,
    keys: &'a Vec<Vec<Component>>,
}

impl<'a> SpotList<'a> {
    spec fn key(&self, i: int) -> Seq<Level> {
        levels(part_list(self.keys@[i]@), true)
    }
}

impl<'a> Ordered for SpotList<'a> {
    closed spec fn count(&self) -> nat {
        least(self.spots@.len() as int, self.keys@.len() as int) as nat
    }

    closed spec fn before(&self, i: int, j: int) -> bool {
        let a = self.spots@[i];
        let b = self.spots@[j];
        a.group < b.group || a.group == b.group && (levels_precede(self.key(i), self.key(j))
            || self.key(i) == self.key(j) && (a.row < b.row || a.row == b.row && a.column
            < b.column))
    }

    proof fn before_is_asymmetric(&self, i: int, j: int) {
        lemma_levels_strict(self.key(i), self.key(j));
        lemma_levels_strict(self.key(j), self.key(i));
    }

    proof fn after_is_transitive(&self, i: int, j: int, k: int) {
        let (a, b, c) = (self.key(i), self.key(j), self.key(k));
        lemma_levels_strict(a, b);
        lemma_levels_strict(b, c);
        lemma_levels_strict(a, c);
        if levels_precede(c, b) && levels_precede(b, a) {
            lemma_levels_transitive(c, b, a);
        }
    }

    fn is_before(&self, i: usize, j: usize) -> (result: bool) {
        let a = &self.spots[i];
        let b = &self.spots[j];
        let left = &self.keys[i];
        let right = &self.keys[j];
        proof {
            lemma_levels_strict(self.key(i as int), self.key(j as int));
            lemma_levels_strict(self.key(j as int), self.key(i as int));
        }
        if a.group != b.group {
            return a.group < b.group;
        }
        if place_before(left, left.len(), true, right, right.len(), true) {
            return true;
        }
        if place_before(right, right.len(), true, left, left.len(), true) {
            return false;
        }
        a.row < b.row || a.row == b.row && a.column < b.column
    }
}

/// Sorts some places: the indices of the list, in the order of what they
/// stand for.
pub fn sort_spots(spots: &Vec<Spot>) -> (order: Vec<usize>)
    ensures
        numbers(order@) == stable_order(spots@.len() as int, spot_order(spot_views(spots@))),
        sorts(numbers(order@), spots@.len() as int, spot_order(spot_views(spots@))),
{
    let ghost list = spot_views(spots@);
    let mut keys: Vec<Vec<Component>> = Vec::new();
    let mut k: usize = 0;
    while k < spots.len()
        invariant
            k <= spots@.len(),
            keys@.len() == k,
            forall|n: int|
                0 <= n < k ==> part_list((#[trigger] keys@[n])@) == parts(spots@[n].path@),
        decreases spots@.len() - k,
    {
        keys.push(components(spots[k].path.as_str()));
        k += 1;
    }
    let listing = SpotList { spots, keys: &keys };
    proof {
        assert forall|i: int, j: int| 0 <= i < list.len() && 0 <= j < list.len() implies (
        #[trigger] spot_order(list)(i, j)) == listing.before(i, j) by {
            assert(part_list(keys@[i]@) == parts(list[i].path));
            assert(part_list(keys@[j]@) == parts(list[j].path));
        }
    }
    sort_order(&listing, spots.len(), Ghost(spot_order(list)))
}

} // verus!
