use crate::board::Board;
use crate::cells::{cell_set_contents, CellSet};
use crate::hex_coordinate::{
    all_directions, lemma_adjacent_symmetric, lemma_direction_index, HexCoordinate, HexDirection,
};
use vstd::prelude::*;
use vstd::seq_lib::seq_to_set_is_finite;
use vstd::set_lib::{lemma_set_subset_finite, lemma_subset_equality};

verus! {

/// `walk` is a non-empty sequence of cells of `cells` in which each cell is a neighbour of
/// the one before it.
pub open spec fn is_walk(cells: Set<HexCoordinate>, walk: Seq<HexCoordinate>) -> bool {
    &&& walk.len() > 0
    &&& forall|i: int| 0 <= i < walk.len() ==> cells.contains(#[trigger] walk[i])
    &&& forall|i: int| 0 <= i < walk.len() - 1 ==> (#[trigger] walk[i]).is_adjacent(walk[i + 1])
}

/// A walk within `cells` leads from `a` to `b`.
pub open spec fn linked(cells: Set<HexCoordinate>, a: HexCoordinate, b: HexCoordinate) -> bool {
    exists|walk: Seq<HexCoordinate>| #[trigger]
        is_walk(cells, walk) && walk[0] == a && walk.last() == b
}

/// The cells form a single connected group: a walk within `cells` leads from each of them
/// to each other. The empty set counts as connected.
pub open spec fn is_one_hive(cells: Set<HexCoordinate>) -> bool {
    forall|a: HexCoordinate, b: HexCoordinate|
        cells.contains(a) && cells.contains(b) ==> #[trigger] linked(cells, a, b)
}

/// `inner` holds, with each of its cells, every neighbour of that cell that is in `cells`.
pub open spec fn is_closed_in(inner: Set<HexCoordinate>, cells: Set<HexCoordinate>) -> bool {
    forall|c: HexCoordinate, d: HexDirection|
        inner.contains(c) && cells.contains(#[trigger] c.neighbor(d)) ==> inner.contains(
            c.neighbor(d),
        )
}

/// Every cell is linked to itself.
pub proof fn lemma_linked_to_itself(cells: Set<HexCoordinate>, a: HexCoordinate)
    requires
        cells.contains(a),
    ensures
        linked(cells, a, a),
{
    let walk = seq![a];
    assert(is_walk(cells, walk) && walk[0] == a && walk.last() == a);
}

/// A walk can be continued by one step to a neighbouring cell.
pub proof fn lemma_linked_step(
    cells: Set<HexCoordinate>,
    a: HexCoordinate,
    b: HexCoordinate,
    c: HexCoordinate,
)
    requires
        linked(cells, a, b),
        cells.contains(c),
        b.is_adjacent(c),
    ensures
        linked(cells, a, c),
{
    let walk = choose|walk: Seq<HexCoordinate>| #[trigger]
        is_walk(cells, walk) && walk[0] == a && walk.last() == b;
    let longer = walk.push(c);
    assert forall|i: int| 0 <= i < longer.len() - 1 implies (#[trigger] longer[i]).is_adjacent(
        longer[i + 1],
    ) by {
        if i < walk.len() - 1 {
            assert(walk[i].is_adjacent(walk[i + 1]));
        }
    }
    assert(is_walk(cells, longer) && longer[0] == a && longer.last() == c);
}

/// Two walks that meet can be joined.
pub proof fn lemma_linked_transitive(
    cells: Set<HexCoordinate>,
    a: HexCoordinate,
    b: HexCoordinate,
    c: HexCoordinate,
)
    requires
        linked(cells, a, b),
        linked(cells, b, c),
    ensures
        linked(cells, a, c),
{
    let first = choose|walk: Seq<HexCoordinate>| #[trigger]
        is_walk(cells, walk) && walk[0] == a && walk.last() == b;
    let second = choose|walk: Seq<HexCoordinate>| #[trigger]
        is_walk(cells, walk) && walk[0] == b && walk.last() == c;
    let joined = first + second.subrange(1, second.len() as int);
    assert forall|i: int| 0 <= i < joined.len() - 1 implies (#[trigger] joined[i]).is_adjacent(
        joined[i + 1],
    ) by {
        if i < first.len() - 1 {
            assert(first[i].is_adjacent(first[i + 1]));
        } else {
            let k: int = i - first.len() + 1;
            assert(second[k].is_adjacent(second[k + 1]));
        }
    }
    assert forall|i: int| 0 <= i < joined.len() implies cells.contains(#[trigger] joined[i]) by {
        if i >= first.len() {
            assert(cells.contains(second[i - first.len() + 1]));
        } else {
            assert(cells.contains(first[i]));
        }
    }
    assert(is_walk(cells, joined) && joined[0] == a && joined.last() == c);
}

/// A walk can be taken backwards.
pub proof fn lemma_linked_symmetric(cells: Set<HexCoordinate>, a: HexCoordinate, b: HexCoordinate)
    requires
        linked(cells, a, b),
    ensures
        linked(cells, b, a),
{
    let walk = choose|walk: Seq<HexCoordinate>| #[trigger]
        is_walk(cells, walk) && walk[0] == a && walk.last() == b;
    let back = walk.reverse();
    assert forall|i: int| 0 <= i < back.len() - 1 implies (#[trigger] back[i]).is_adjacent(
        back[i + 1],
    ) by {
        let k: int = walk.len() - 2 - i;
        assert(walk[k].is_adjacent(walk[k + 1]));
        assert(cells.contains(walk[k]));
        lemma_adjacent_symmetric(walk[k], walk[k + 1]);
    }
    assert forall|i: int| 0 <= i < back.len() implies cells.contains(#[trigger] back[i]) by {
        assert(cells.contains(walk[walk.len() - 1 - i]));
    }
    assert(is_walk(cells, back) && back[0] == b && back.last() == a);
}

/// A walk stays a walk when cells are added.
pub proof fn lemma_linked_in_superset(
    cells: Set<HexCoordinate>,
    more: Set<HexCoordinate>,
    a: HexCoordinate,
    b: HexCoordinate,
)
    requires
        cells.subset_of(more),
        linked(cells, a, b),
    ensures
        linked(more, a, b),
{
    let walk = choose|walk: Seq<HexCoordinate>| #[trigger]
        is_walk(cells, walk) && walk[0] == a && walk.last() == b;
    assert forall|i: int| 0 <= i < walk.len() implies more.contains(#[trigger] walk[i]) by {
        assert(cells.contains(walk[i]));
    }
    assert(is_walk(more, walk) && walk[0] == a && walk.last() == b);
}

/// A walk that starts in a closed set never leaves it.
pub proof fn lemma_walk_stays_in_closed(
    cells: Set<HexCoordinate>,
    inner: Set<HexCoordinate>,
    walk: Seq<HexCoordinate>,
    i: int,
)
    requires
        is_walk(cells, walk),
        inner.contains(walk[0]),
        is_closed_in(inner, cells),
        0 <= i < walk.len(),
    ensures
        inner.contains(walk[i]),
    decreases i,
{
    if i > 0 {
        lemma_walk_stays_in_closed(cells, inner, walk, i - 1);
        let previous = walk[i - 1];
        let next = walk[i];
        assert(walk[i - 1].is_adjacent(walk[i - 1 + 1]));
        let d = choose|d: HexDirection| previous.neighbor(d) == next;
        assert(cells.contains(walk[i]));
        assert(cells.contains(previous.neighbor(d)));
    }
}

/// Where every cell is linked to one of them, the cells are one hive.
pub proof fn lemma_star_is_one_hive(cells: Set<HexCoordinate>, center: HexCoordinate)
    requires
        forall|c: HexCoordinate| cells.contains(c) ==> linked(cells, center, c),
    ensures
        is_one_hive(cells),
{
    assert forall|a: HexCoordinate, b: HexCoordinate|
        cells.contains(a) && cells.contains(b) implies #[trigger] linked(cells, a, b) by {
        lemma_linked_symmetric(cells, center, a);
        lemma_linked_transitive(cells, a, center, b);
    }
}

/// One hive stays one hive when a cell next to one of its cells is added.
pub proof fn lemma_one_hive_with_neighbor(
    cells: Set<HexCoordinate>,
    near: HexCoordinate,
    cell: HexCoordinate,
)
    requires
        is_one_hive(cells),
        cells.contains(near),
        near.is_adjacent(cell),
    ensures
        is_one_hive(cells.insert(cell)),
{
    let more = cells.insert(cell);
    assert forall|c: HexCoordinate| more.contains(c) implies linked(more, near, c) by {
        if cells.contains(c) {
            assert(linked(cells, near, c));
            lemma_linked_in_superset(cells, more, near, c);
        } else {
            let walk = seq![near, cell];
            assert(is_walk(more, walk) && walk[0] == near && walk.last() == c);
        }
    }
    lemma_star_is_one_hive(more, near);
}

/// A single cell is one hive.
pub proof fn lemma_single_cell_is_one_hive(cell: HexCoordinate)
    ensures
        is_one_hive(set![cell]),
{
    let cells = set![cell];
    assert forall|a: HexCoordinate, b: HexCoordinate|
        cells.contains(a) && cells.contains(b) implies #[trigger] linked(cells, a, b) by {
        lemma_linked_to_itself(cells, a);
    }
}

/// `c` is a cut cell of `cells`: two other cells of `cells` are linked by no walk that
/// avoids `c`.
pub open spec fn is_cut_cell(cells: Set<HexCoordinate>, c: HexCoordinate) -> bool {
    exists|a: HexCoordinate, b: HexCoordinate|
        a != c && b != c && cells.contains(a) && cells.contains(b) && !#[trigger] linked(
            cells.remove(c),
            a,
            b,
        )
}

/// `c` is a leaf of `cells`: a cell of `cells` with exactly one neighbour in `cells`.
pub open spec fn is_leaf(cells: Set<HexCoordinate>, c: HexCoordinate) -> bool {
    &&& cells.contains(c)
    &&& exists|d: HexDirection|
        cells.contains(#[trigger] c.neighbor(d)) && forall|e: HexDirection|
            cells.contains(#[trigger] c.neighbor(e)) ==> e == d
}

/// What is left when a cell is taken away is one hive exactly if the cell is no cut cell.
pub proof fn lemma_one_hive_without_iff_no_cut_cell(cells: Set<HexCoordinate>, c: HexCoordinate)
    ensures
        is_one_hive(cells.remove(c)) <==> !is_cut_cell(cells, c),
{
    let rest = cells.remove(c);
    if !is_cut_cell(cells, c) {
        assert forall|a: HexCoordinate, b: HexCoordinate|
            rest.contains(a) && rest.contains(b) implies #[trigger] linked(rest, a, b) by {
            if !linked(rest, a, b) {
                assert(a != c && b != c && cells.contains(a) && cells.contains(b) && !linked(
                    cells.remove(c),
                    a,
                    b,
                ));
            }
        }
    } else {
        let (a, b) = choose|a: HexCoordinate, b: HexCoordinate|
            a != c && b != c && cells.contains(a) && cells.contains(b) && !#[trigger] linked(
                cells.remove(c),
                a,
                b,
            );
        assert(rest.contains(a) && rest.contains(b));
    }
}

/// A walk between two cells other than a leaf can do without the leaf.
pub proof fn lemma_walk_around_leaf(
    cells: Set<HexCoordinate>,
    c: HexCoordinate,
    walk: Seq<HexCoordinate>,
)
    requires
        is_leaf(cells, c),
        is_walk(cells, walk),
        walk[0] != c,
        walk.last() != c,
    ensures
        linked(cells.remove(c), walk[0], walk.last()),
    decreases walk.len(),
{
    let rest = cells.remove(c);
    if forall|i: int| 0 <= i < walk.len() ==> walk[i] != c {
        assert forall|i: int| 0 <= i < walk.len() implies rest.contains(#[trigger] walk[i]) by {
            assert(cells.contains(walk[i]));
        }
        assert(is_walk(rest, walk) && walk[0] == walk[0] && walk.last() == walk.last());
    } else {
        let i = choose|i: int| 0 <= i < walk.len() && walk[i] == c;
        let only = choose|d: HexDirection|
            cells.contains(#[trigger] c.neighbor(d)) && forall|e: HexDirection|
                cells.contains(#[trigger] c.neighbor(e)) ==> e == d;
        let previous = walk[i - 1];
        let next = walk[i + 1];
        assert(cells.contains(previous) && cells.contains(next));
        assert(walk[i - 1].is_adjacent(walk[i - 1 + 1]));
        assert(walk[i].is_adjacent(walk[i + 1]));
        lemma_adjacent_symmetric(previous, c);
        let back = choose|d: HexDirection| c.neighbor(d) == previous;
        assert(cells.contains(c.neighbor(back)));
        let forth = choose|d: HexDirection| c.neighbor(d) == next;
        assert(cells.contains(c.neighbor(forth)));
        assert(previous == next);
        let shorter = walk.subrange(0, i) + walk.subrange(i + 2, walk.len() as int);
        assert forall|j: int| 0 <= j < shorter.len() implies cells.contains(
            #[trigger] shorter[j],
        ) by {
            if j < i {
                assert(cells.contains(walk[j]));
            } else {
                assert(cells.contains(walk[j + 2]));
            }
        }
        assert forall|j: int| 0 <= j < shorter.len() - 1 implies (#[trigger] shorter[j]).is_adjacent(
            shorter[j + 1],
        ) by {
            if j < i - 1 {
                assert(walk[j].is_adjacent(walk[j + 1]));
            } else if j == i - 1 {
                assert(walk[i + 1].is_adjacent(walk[i + 1 + 1]));
            } else {
                assert(walk[j + 2].is_adjacent(walk[j + 2 + 1]));
            }
        }
        assert(shorter[0] == walk[0]);
        assert(shorter.last() == walk.last());
        lemma_walk_around_leaf(cells, c, shorter);
    }
}

/// Taking a leaf away from one hive leaves one hive.
pub proof fn lemma_one_hive_without_leaf(cells: Set<HexCoordinate>, c: HexCoordinate)
    requires
        is_one_hive(cells),
        is_leaf(cells, c),
    ensures
        is_one_hive(cells.remove(c)),
        !is_cut_cell(cells, c),
{
    let rest = cells.remove(c);
    assert forall|a: HexCoordinate, b: HexCoordinate|
        rest.contains(a) && rest.contains(b) implies #[trigger] linked(rest, a, b) by {
        assert(linked(cells, a, b));
        let walk = choose|walk: Seq<HexCoordinate>| #[trigger]
            is_walk(cells, walk) && walk[0] == a && walk.last() == b;
        lemma_walk_around_leaf(cells, c, walk);
    }
    lemma_one_hive_without_iff_no_cut_cell(cells, c);
}

/// Tells whether the occupied cells of the board form a single connected group.
///
/// The search floods from one occupied cell over occupied neighbours and compares the
/// number of cells it reached with the number of occupied cells.
pub fn is_connected(board: &Board) -> (connected: bool)
    ensures
        connected == is_one_hive(board.occupied()),
{
    let all = board.coordinates();
    let ghost occupied = board.occupied();
    proof {
        all@.unique_seq_to_set();
        seq_to_set_is_finite(all@);
    }
    if all.len() == 0 {
        assert forall|a: HexCoordinate| !occupied.contains(a) by {
            if occupied.contains(a) {
                assert(all@.to_set().contains(a));
                assert(all@.contains(a));
            }
        }
        return true;
    }
    let start = all[0];
    assert(all@.to_set().contains(start)) by {
        assert(all@.contains(all@[0]));
    }
    let directions = all_directions();
    let mut checked = CellSet::new();
    let mut open_list: Vec<HexCoordinate> = Vec::new();
    let mut reached: Vec<HexCoordinate> = Vec::new();
    open_list.push(start);
    proof {
        lemma_linked_to_itself(occupied, start);
        assert(open_list@[0] == start);
        assert(reached@.to_set() =~= cell_set_contents(checked));
    }
    while open_list.len() > 0
        invariant
            occupied.finite(),
            occupied == board.occupied(),
            occupied.contains(start),
            forall|k: int| 0 <= k < 6 ==> directions[k] == HexDirection::from_index(k),
            cell_set_contents(checked).subset_of(occupied),
            reached@.no_duplicates(),
            reached@.to_set() == cell_set_contents(checked),
            forall|k: int|
                0 <= k < open_list@.len() ==> occupied.contains(#[trigger] open_list@[k])
                    && linked(occupied, start, open_list@[k]),
            forall|c: HexCoordinate| #[trigger]
                cell_set_contents(checked).contains(c) ==> linked(occupied, start, c),
            cell_set_contents(checked).contains(start) || open_list@.contains(start),
            forall|c: HexCoordinate, d: HexDirection|
                cell_set_contents(checked).contains(c) && occupied.contains(
                    #[trigger] c.neighbor(d),
                ) ==> cell_set_contents(checked).contains(c.neighbor(d)) || open_list@.contains(
                    c.neighbor(d),
                ),
        decreases occupied.difference(cell_set_contents(checked)).len(), open_list@.len(),
    {
        let ghost before = open_list@;
        let ghost checked_before = cell_set_contents(checked);
        let position = open_list.pop().unwrap();
        assert(before == open_list@.push(position));
        assert(forall|c: HexCoordinate|
            before.contains(c) ==> c == position || open_list@.contains(c)) by {
            assert forall|c: HexCoordinate| before.contains(c) implies c == position
                || open_list@.contains(c) by {
                let k = choose|k: int| 0 <= k < before.len() && before[k] == c;
                if k < open_list@.len() {
                    assert(open_list@[k] == c);
                }
            }
        }
        assert(occupied.contains(before[before.len() - 1]));
        if !checked.contains(&position) {
            let ghost earlier = reached@;
            checked.insert(position);
            reached.push(position);
            proof {
                occupied.lemma_set_insert_diff_decreases(checked_before, position);
                assert(reached@.to_set() =~= cell_set_contents(checked)) by {
                    assert forall|c: HexCoordinate|
                        reached@.to_set().contains(c) <==> cell_set_contents(checked).contains(
                            c,
                        ) by {
                        if reached@.contains(c) {
                            let k = choose|k: int| 0 <= k < reached@.len() && reached@[k] == c;
                            if k < earlier.len() {
                                assert(earlier[k] == c);
                                assert(earlier.to_set().contains(c));
                            }
                        }
                        if checked_before.contains(c) {
                            assert(earlier.to_set().contains(c));
                            let k = choose|k: int| 0 <= k < earlier.len() && earlier[k] == c;
                            assert(reached@[k] == c);
                        }
                        if c == position {
                            assert(reached@[reached@.len() - 1] == c);
                        }
                    }
                }
                assert(reached@.no_duplicates()) by {
                    assert forall|i: int, j: int|
                        0 <= i < reached@.len() && 0 <= j < reached@.len() && i != j implies reached@[i]
                        != reached@[j] by {
                        if i < earlier.len() && j < earlier.len() {
                            assert(earlier[i] != earlier[j]);
                        } else if i < earlier.len() {
                            assert(earlier.to_set().contains(earlier[i]));
                        } else {
                            assert(earlier.to_set().contains(earlier[j]));
                        }
                    }
                }
            }
            let mut i: usize = 0;
            while i < 6
                invariant
                    i <= 6,
                    occupied == board.occupied(),
                    occupied.contains(start),
                    occupied.contains(position),
                    linked(occupied, start, position),
                    cell_set_contents(checked) == checked_before.insert(position),
                    forall|k: int| 0 <= k < 6 ==> directions[k] == HexDirection::from_index(k),
                    forall|k: int|
                        0 <= k < open_list@.len() ==> occupied.contains(#[trigger] open_list@[k])
                            && linked(occupied, start, open_list@[k]),
                    cell_set_contents(checked).contains(start) || open_list@.contains(start),
                    forall|c: HexCoordinate, d: HexDirection|
                        checked_before.contains(c) && occupied.contains(#[trigger] c.neighbor(d))
                            ==> cell_set_contents(checked).contains(c.neighbor(d))
                            || open_list@.contains(c.neighbor(d)),
                    forall|k: int|
                        0 <= k < i && occupied.contains(
                            #[trigger] position.neighbor(HexDirection::from_index(k)),
                        ) ==> cell_set_contents(checked).contains(
                            position.neighbor(HexDirection::from_index(k)),
                        ) || open_list@.contains(position.neighbor(HexDirection::from_index(k))),
                decreases 6 - i,
            {
                let ghost list_before = open_list@;
                let relative = position.get_relative(&directions[i]);
                if board.is_occupied(&relative) && !checked.contains(&relative) {
                    open_list.push(relative);
                    proof {
                        assert(position.is_adjacent(relative));
                        lemma_linked_step(occupied, start, position, relative);
                        assert(open_list@[open_list@.len() - 1] == relative);
                    }
                }
                proof {
                    assert forall|c: HexCoordinate| list_before.contains(c) implies open_list@.contains(
                        c,
                    ) by {
                        let k = choose|k: int| 0 <= k < list_before.len() && list_before[k] == c;
                        assert(open_list@[k] == c);
                    }
                }
                i += 1;
            }
            proof {
                assert forall|c: HexCoordinate, d: HexDirection|
                    cell_set_contents(checked).contains(c) && occupied.contains(
                        #[trigger] c.neighbor(d),
                    ) implies cell_set_contents(checked).contains(c.neighbor(d))
                    || open_list@.contains(c.neighbor(d)) by {
                    if c == position {
                        lemma_direction_index(d);
                        assert(occupied.contains(
                            position.neighbor(HexDirection::from_index(d.index())),
                        ));
                    }
                }
            }
        }
    }
    let ghost inner = cell_set_contents(checked);
    proof {
        reached@.unique_seq_to_set();
        assert(occupied.finite());
        lemma_set_subset_finite(occupied, inner);
        assert(inner.contains(start)) by {
            if open_list@.contains(start) {
                let k = choose|k: int| 0 <= k < open_list@.len() && open_list@[k] == start;
            }
        }
        assert(is_closed_in(inner, occupied)) by {
            assert forall|c: HexCoordinate, d: HexDirection|
                inner.contains(c) && occupied.contains(#[trigger] c.neighbor(d)) implies inner.contains(
                c.neighbor(d),
            ) by {
                if open_list@.contains(c.neighbor(d)) {
                    let k = choose|k: int|
                        0 <= k < open_list@.len() && open_list@[k] == c.neighbor(d);
                }
            }
        }
        if reached.len() == all.len() {
            lemma_subset_equality(inner, occupied);
            lemma_star_is_one_hive(occupied, start);
        } else {
            if is_one_hive(occupied) {
                assert forall|c: HexCoordinate| occupied.contains(c) implies inner.contains(c) by {
                    assert(linked(occupied, start, c));
                    let walk = choose|walk: Seq<HexCoordinate>| #[trigger]
                        is_walk(occupied, walk) && walk[0] == start && walk.last() == c;
                    lemma_walk_stays_in_closed(occupied, inner, walk, walk.len() - 1);
                }
                assert(inner =~= occupied);
            }
        }
    }
    reached.len() == all.len()
}

} // verus!
