use crate::hex_coordinate::HexCoordinate;
use vstd::prelude::*;

verus! {

/// A set of cells, held in the hash set of the game framework's utilities
/// (`bevy::utils::HashSet`) under the pair of the cell's coordinates.
///
/// The verifier does not look inside: what the set holds is known to it by the name
/// `cell_set_contents` alone, and through what the methods below state of that name
/// without proof.
#[verifier::external_body]
pub struct CellSet {
    cells: bevy::utils::HashSet<(i32, i32)>,
}

/// The cells that a `CellSet` holds.
pub uninterp spec fn cell_set_contents(set: CellSet) -> Set<HexCoordinate>;

impl CellSet {
    /// `bevy::utils::HashSet::new`: the new set holds no cell.
    #[verifier::external_body]
    pub(crate) fn new() -> (store: CellSet)
        ensures
            cell_set_contents(store) == Set::<HexCoordinate>::empty(),
    {
        CellSet { cells: bevy::utils::HashSet::new() }
    }

    /// `bevy::utils::HashSet::insert`: afterwards the set holds the cell besides what it held
    /// before; the result says whether the cell was absent before.
    #[verifier::external_body]
    pub(crate) fn insert(&mut self, cell: HexCoordinate) -> (fresh: bool)
        ensures
            cell_set_contents(*final(self)) == cell_set_contents(*old(self)).insert(cell),
            fresh == !cell_set_contents(*old(self)).contains(cell),
    {
        self.cells.insert((cell.x, cell.y))
    }

    /// `bevy::utils::HashSet::contains`: the result says whether the set holds the cell.
    #[verifier::external_body]
    pub(crate) fn contains(&self, cell: &HexCoordinate) -> (found: bool)
        ensures
            found == cell_set_contents(*self).contains(*cell),
    {
        self.cells.contains(&(cell.x, cell.y))
    }
}

/// A map from cells to stacks of piece ids, held in the hash map of the game framework's
/// utilities (`bevy::utils::HashMap`) under the pair of the cell's coordinates.
///
/// The verifier does not look inside: what the map holds is known to it by the name
/// `cell_map_contents` alone, and through what the methods below state of that name
/// without proof.
#[verifier::external_body]
pub struct CellMap {
    cells: bevy::utils::HashMap<(i32, i32), Vec<u32>>,
}

/// The stacks that a `CellMap` holds, by cell.
pub uninterp spec fn cell_map_contents(map: CellMap) -> Map<HexCoordinate, Seq<u32>>;

impl CellMap {
    /// `bevy::utils::HashMap::new`: the new map holds no entry.
    #[verifier::external_body]
    pub(crate) fn new() -> (store: CellMap)
        ensures
            cell_map_contents(store).dom() == Set::<HexCoordinate>::empty(),
    {
        CellMap { cells: bevy::utils::HashMap::new() }
    }

    /// `bevy::utils::HashMap::insert`: afterwards the map holds the stack under the cell, in
    /// place of what the cell had before, and every other entry as before; the result is
    /// the stack that the cell had before, if it had one.
    #[verifier::external_body]
    pub(crate) fn insert(&mut self, cell: HexCoordinate, stack: Vec<u32>) -> (previous: Option<
        Vec<u32>,
    >)
        ensures
            cell_map_contents(*final(self)) == cell_map_contents(*old(self)).insert(cell, stack@),
            match previous {
                Some(ids) => cell_map_contents(*old(self)).dom().contains(cell) && ids@
                    == cell_map_contents(*old(self))[cell],
                None => !cell_map_contents(*old(self)).dom().contains(cell),
            },
    {
        self.cells.insert((cell.x, cell.y), stack)
    }

    /// `bevy::utils::HashMap::get`: the stack under the cell, or nothing where the cell has
    /// no entry.
    #[verifier::external_body]
    pub(crate) fn get(&self, cell: &HexCoordinate) -> (stack: Option<&Vec<u32>>)
        ensures
            match stack {
                Some(ids) => cell_map_contents(*self).dom().contains(*cell) && ids@
                    == cell_map_contents(*self)[*cell],
                None => !cell_map_contents(*self).dom().contains(*cell),
            },
    {
        self.cells.get(&(cell.x, cell.y))
    }

    /// `bevy::utils::HashMap::contains_key`: the result says whether the cell has an entry.
    #[verifier::external_body]
    pub(crate) fn contains_key(&self, cell: &HexCoordinate) -> (found: bool)
        ensures
            found == cell_map_contents(*self).dom().contains(*cell),
    {
        self.cells.contains_key(&(cell.x, cell.y))
    }

    /// `bevy::utils::HashMap::keys`: every cell that has an entry, once each, in an order
    /// that is not specified.
    #[verifier::external_body]
    pub(crate) fn keys(&self) -> (cells: Vec<HexCoordinate>)
        ensures
            cells@.no_duplicates(),
            cells@.to_set() == cell_map_contents(*self).dom(),
    {
        self.cells.keys().map(|key| HexCoordinate::new(key.0, key.1)).collect()
    }
}

} // verus!
