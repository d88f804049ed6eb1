use vstd::prelude::*;

verus! {

/// The largest distance; as a bound it admits every item.
pub const UNBOUNDED_DISTANCE: u64 = 0xffff_ffff_ffff_ffff;

/// Query parameters for a search of a [`crate::VpTree`].
///
/// - `max_items`: at most this many items are returned, the nearest ones.
/// - `max_distance`: only items at distance at most this are returned.
/// - `exclusive`: items at distance zero are left out.
/// - `sorted`: the result lists the items closest first.
#[derive(Debug, Clone, Copy)]
pub struct Querry {
    pub max_items: usize,
    pub max_distance: u64,
    pub exclusive: bool,
    pub sorted: bool,
}

impl Default for Querry {
    /// A query for every item, at any distance, unsorted.
    fn default() -> (q: Self)
        ensures
            q.max_items == usize::MAX,
            q.max_distance == UNBOUNDED_DISTANCE,
            !q.exclusive,
            !q.sorted,
    {
        Querry { max_items: usize::MAX, max_distance: UNBOUNDED_DISTANCE, exclusive: false, sorted: false }
    }
}

impl Querry {
    /// A query that is well formed asks for at least one item.
    pub open spec fn wf(self) -> bool {
        self.max_items > 0
    }

    /// A query with the given parameters; `max_items` must be positive.
    pub fn new(max_items: usize, max_distance: u64, exclusive: bool, sorted: bool) -> (q: Self)
        requires
            max_items > 0,
        ensures
            q == (Querry { max_items, max_distance, exclusive, sorted }),
            q.wf(),
    {
        Querry { max_items, max_distance, exclusive, sorted }
    }

    /// The `max_items` nearest items, at any distance.
    pub fn k_nearest_neighbors(max_items: usize) -> (q: Self)
        requires
            max_items > 0,
        ensures
            q == (Querry { max_items, max_distance: UNBOUNDED_DISTANCE, exclusive: false, sorted: false }),
            q.wf(),
    {
        Querry::new(max_items, UNBOUNDED_DISTANCE, false, false)
    }

    /// The `max_items` nearest items within `max_distance`.
    pub fn k_nearest_neighbors_within_radius(max_items: usize, max_distance: u64) -> (q: Self)
        requires
            max_items > 0,
        ensures
            q == (Querry { max_items, max_distance, exclusive: false, sorted: false }),
            q.wf(),
    {
        Querry::new(max_items, max_distance, false, false)
    }

    /// Every item within `max_distance`.
    pub fn neighbors_within_radius(max_distance: u64) -> (q: Self)
        ensures
            q == (Querry { max_items: usize::MAX, max_distance, exclusive: false, sorted: false }),
            q.wf(),
    {
        Querry::new(usize::MAX, max_distance, false, false)
    }

    /// Leaves out items at distance zero.
    pub fn exclusive(self) -> (q: Self)
        ensures
            q == (Querry { exclusive: true, ..self }),
    {
        Querry { exclusive: true, ..self }
    }

    /// Lists the result closest first.
    pub fn sorted(self) -> (q: Self)
        ensures
            q == (Querry { sorted: true, ..self }),
    {
        Querry { sorted: true, ..self }
    }

    /// Restricts the result to items within `max_distance`.
    pub fn within_radius(self, max_distance: u64) -> (q: Self)
        ensures
            q == (Querry { max_distance, ..self }),
    {
        Querry { max_distance, ..self }
    }

    /// Restricts the result to the `max_items` nearest items.
    pub fn max_items(self, max_items: usize) -> (q: Self)
        requires
            max_items > 0,
        ensures
            q == (Querry { max_items, ..self }),
            q.wf(),
    {
        Querry { max_items, ..self }
    }
}

} // verus!
