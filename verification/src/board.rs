use crate::cells::{cell_map_contents, CellMap};
use crate::hex_coordinate::{
    all_directions, lemma_adjacent_symmetric, lemma_direction_index, lemma_gates_touch_both,
    HexCoordinate, HexDirection,
};
use vstd::prelude::*;

verus! {

/// The occupied cells of the grid, each with the stack of the ids of the pieces on it,
/// from the bottom to the top.
pub struct Board {
    cells: CellMap,
}

impl View for Board {
    type V = Map<HexCoordinate, Seq<u32>>;

    closed spec fn view(&self) -> Map<HexCoordinate, Seq<u32>> {
        cell_map_contents(self.cells)
    }
}

/// The cell is a neighbour of a cell of `occupied`.
pub open spec fn touches(occupied: Set<HexCoordinate>, cell: HexCoordinate) -> bool {
    exists|o: HexCoordinate| occupied.contains(o) && #[trigger] o.is_adjacent(cell)
}

/// A step from `from` in direction `d` is a slide over `occupied`: the cell it reaches is
/// empty and exactly one of the two cells that flank the step is occupied.
pub open spec fn is_slide(
    occupied: Set<HexCoordinate>,
    from: HexCoordinate,
    d: HexDirection,
) -> bool {
    &&& !occupied.contains(from.neighbor(d))
    &&& occupied.contains(from.neighbor(d.before())) != occupied.contains(
        from.neighbor(d.after()),
    )
}

/// The cells reached from `from` by a slide in one of the first `n` directions and not in
/// `ignore`, in the order of the directions.
pub open spec fn slides_among(
    occupied: Set<HexCoordinate>,
    from: HexCoordinate,
    ignore: Set<HexCoordinate>,
    n: int,
) -> Seq<HexCoordinate>
    decreases n,
{
    if n <= 0 {
        Seq::empty()
    } else {
        let d = HexDirection::from_index(n - 1);
        let earlier = slides_among(occupied, from, ignore, n - 1);
        if is_slide(occupied, from, d) && !ignore.contains(from.neighbor(d)) {
            earlier.push(from.neighbor(d))
        } else {
            earlier
        }
    }
}

/// The cells reached from `from` by one slide and not in `ignore`, in the order of the
/// directions.
pub open spec fn slides(
    occupied: Set<HexCoordinate>,
    from: HexCoordinate,
    ignore: Set<HexCoordinate>,
) -> Seq<HexCoordinate> {
    slides_among(occupied, from, ignore, 6)
}

/// A single slide over `occupied` leads from `from` to `to`.
pub open spec fn is_slide_to(
    occupied: Set<HexCoordinate>,
    from: HexCoordinate,
    to: HexCoordinate,
) -> bool {
    exists|d: HexDirection| #[trigger] from.neighbor(d) == to && is_slide(occupied, from, d)
}

/// A slide in one of the first `n` directions is listed by `slides_among`, unless its
/// target is in `ignore`.
pub proof fn lemma_slides_among_complete(
    occupied: Set<HexCoordinate>,
    from: HexCoordinate,
    ignore: Set<HexCoordinate>,
    n: int,
    d: HexDirection,
)
    requires
        0 <= n <= 6,
        d.index() < n,
        is_slide(occupied, from, d),
        !ignore.contains(from.neighbor(d)),
    ensures
        slides_among(occupied, from, ignore, n).contains(from.neighbor(d)),
    decreases n,
{
    let last = HexDirection::from_index(n - 1);
    let earlier = slides_among(occupied, from, ignore, n - 1);
    let all = slides_among(occupied, from, ignore, n);
    if d.index() < n - 1 {
        lemma_slides_among_complete(occupied, from, ignore, n - 1, d);
        let k = choose|k: int| 0 <= k < earlier.len() && earlier[k] == from.neighbor(d);
        if is_slide(occupied, from, last) && !ignore.contains(from.neighbor(last)) {
            assert(all[k] == from.neighbor(d));
        }
    } else {
        lemma_direction_index(d);
        assert(last == d);
        assert(all == earlier.push(from.neighbor(d)));
        assert(all[all.len() - 1] == from.neighbor(d));
    }
}

/// Whatever `slides_among` lists is the target of a slide and not in `ignore`.
pub proof fn lemma_slides_among_sound(
    occupied: Set<HexCoordinate>,
    from: HexCoordinate,
    ignore: Set<HexCoordinate>,
    n: int,
    c: HexCoordinate,
)
    requires
        0 <= n <= 6,
        slides_among(occupied, from, ignore, n).contains(c),
    ensures
        !ignore.contains(c),
        is_slide_to(occupied, from, c),
    decreases n,
{
    let all = slides_among(occupied, from, ignore, n);
    let k = choose|k: int| 0 <= k < all.len() && all[k] == c;
    if n > 0 {
        let last = HexDirection::from_index(n - 1);
        let earlier = slides_among(occupied, from, ignore, n - 1);
        if is_slide(occupied, from, last) && !ignore.contains(from.neighbor(last)) {
            assert(all == earlier.push(from.neighbor(last)));
            if k < earlier.len() {
                assert(earlier[k] == c);
                lemma_slides_among_sound(occupied, from, ignore, n - 1, c);
            } else {
                assert(from.neighbor(last) == c && is_slide(occupied, from, last));
            }
        } else {
            lemma_slides_among_sound(occupied, from, ignore, n - 1, c);
        }
    }
}

/// The cells listed by `slides` are the targets of the slides from `from` that are not in
/// `ignore`.
pub proof fn lemma_slides_contains(
    occupied: Set<HexCoordinate>,
    from: HexCoordinate,
    ignore: Set<HexCoordinate>,
    c: HexCoordinate,
)
    ensures
        slides(occupied, from, ignore).contains(c) <==> !ignore.contains(c) && is_slide_to(
            occupied,
            from,
            c,
        ),
{
    if slides(occupied, from, ignore).contains(c) {
        lemma_slides_among_sound(occupied, from, ignore, 6, c);
    }
    if !ignore.contains(c) && is_slide_to(occupied, from, c) {
        let d = choose|d: HexDirection| #[trigger]
            from.neighbor(d) == c && is_slide(occupied, from, d);
        lemma_slides_among_complete(occupied, from, ignore, 6, d);
    }
}

/// Steps in different directions lead to different cells.
pub proof fn lemma_neighbors_differ(c: HexCoordinate, d: HexDirection, e: HexDirection)
    requires
        c.neighbor(d) == c.neighbor(e),
    ensures
        d == e,
{
}

/// `slides_among` lists no cell twice.
pub proof fn lemma_slides_among_distinct(
    occupied: Set<HexCoordinate>,
    from: HexCoordinate,
    ignore: Set<HexCoordinate>,
    n: int,
)
    requires
        0 <= n <= 6,
    ensures
        slides_among(occupied, from, ignore, n).no_duplicates(),
        forall|c: HexCoordinate|
            slides_among(occupied, from, ignore, n).contains(c) ==> exists|d: HexDirection|
                d.index() < n && #[trigger] from.neighbor(d) == c,
    decreases n,
{
    if n > 0 {
        let last = HexDirection::from_index(n - 1);
        let earlier = slides_among(occupied, from, ignore, n - 1);
        let all = slides_among(occupied, from, ignore, n);
        lemma_slides_among_distinct(occupied, from, ignore, n - 1);
        if earlier.contains(from.neighbor(last)) {
            let e = choose|e: HexDirection|
                e.index() < n - 1 && #[trigger] from.neighbor(e) == from.neighbor(last);
            lemma_neighbors_differ(from, e, last);
        }
        assert forall|c: HexCoordinate| all.contains(c) implies exists|d: HexDirection|
            d.index() < n && #[trigger] from.neighbor(d) == c by {
            let k = choose|k: int| 0 <= k < all.len() && all[k] == c;
            if k < earlier.len() {
                assert(earlier[k] == c);
                assert(earlier.contains(c));
                let e = choose|e: HexDirection| e.index() < n - 1 && #[trigger] from.neighbor(e) == c;
                assert(e.index() < n && from.neighbor(e) == c);
            } else {
                assert(last.index() < n && from.neighbor(last) == c);
            }
        }
    }
}

/// The target of a slide is an empty neighbour of the cell that the slide leaves, and it has
/// an occupied neighbour: the occupied one of the two cells that flank the step.
pub proof fn lemma_slide_keeps_contact(
    occupied: Set<HexCoordinate>,
    from: HexCoordinate,
    to: HexCoordinate,
)
    requires
        is_slide_to(occupied, from, to),
    ensures
        !occupied.contains(to),
        to != from,
        from.is_adjacent(to),
        touches(occupied, to),
{
    let d = choose|d: HexDirection| #[trigger] from.neighbor(d) == to && is_slide(occupied, from, d);
    lemma_gates_touch_both(from, d);
    if occupied.contains(from.neighbor(d.before())) {
        let gate = from.neighbor(d.before());
        assert(to.neighbor(d.before().before()) == gate);
        lemma_adjacent_symmetric(to, gate);
        assert(occupied.contains(gate) && gate.is_adjacent(to));
    } else {
        let gate = from.neighbor(d.after());
        assert(to.neighbor(d.after().after()) == gate);
        lemma_adjacent_symmetric(to, gate);
        assert(occupied.contains(gate) && gate.is_adjacent(to));
    }
}

/// Tells whether `cells` holds `cell`.
pub fn holds_cell(cells: &Vec<HexCoordinate>, cell: &HexCoordinate) -> (found: bool)
    ensures
        found == cells@.contains(*cell),
{
    let mut i: usize = 0;
    while i < cells.len()
        invariant
            i <= cells@.len(),
            forall|j: int| 0 <= j < i ==> cells@[j] != *cell,
        decreases cells@.len() - i,
    {
        if cells[i] == *cell {
            return true;
        }
        i += 1;
    }
    false
}

impl Board {
    /// No stack is empty, and the occupied cells are finitely many.
    pub open spec fn wf(self) -> bool {
        &&& self@.dom().finite()
        &&& forall|c: HexCoordinate| #[trigger] self@.dom().contains(c) ==> self@[c].len() > 0
    }

    /// The occupied cells.
    pub open spec fn occupied(self) -> Set<HexCoordinate> {
        self@.dom()
    }

    /// The board without pieces.
    pub fn new() -> (board: Board)
        ensures
            board.occupied() == Set::<HexCoordinate>::empty(),
            board.wf(),
    {
        Board { cells: CellMap::new() }
    }

    /// Tells whether a piece stands on the cell.
    pub fn is_occupied(&self, cell: &HexCoordinate) -> (b: bool)
        ensures
            b == self.occupied().contains(*cell),
    {
        self.cells.contains_key(cell)
    }

    /// The stack on the cell, from the bottom to the top, if the cell is occupied.
    pub fn stack_at(&self, cell: &HexCoordinate) -> (stack: Option<&Vec<u32>>)
        ensures
            match stack {
                Some(ids) => self.occupied().contains(*cell) && ids@ == self@[*cell],
                None => !self.occupied().contains(*cell),
            },
    {
        self.cells.get(cell)
    }

    /// The id of the piece that lies on top of the cell's stack, if the cell is occupied.
    pub fn top_at(&self, cell: &HexCoordinate) -> (top: Option<u32>)
        requires
            self.wf(),
        ensures
            match top {
                Some(id) => self.occupied().contains(*cell) && id == self@[*cell].last(),
                None => !self.occupied().contains(*cell),
            },
    {
        match self.cells.get(cell) {
            Some(ids) => Some(ids[ids.len() - 1]),
            None => None,
        }
    }

    /// Puts `stack` on the cell, in place of what stood there.
    pub fn insert_stack(&mut self, cell: HexCoordinate, stack: Vec<u32>)
        requires
            old(self).wf(),
            stack@.len() > 0,
        ensures
            final(self)@ == old(self)@.insert(cell, stack@),
            final(self).wf(),
    {
        self.cells.insert(cell, stack);
    }

    /// The occupied cells, each once, in no particular order.
    pub fn coordinates(&self) -> (cells: Vec<HexCoordinate>)
        ensures
            cells@.no_duplicates(),
            cells@.to_set() == self.occupied(),
    {
        self.cells.keys()
    }

    /// The board as it is once everything that stands on `cell` is taken away.
    pub fn without(&self, cell: &HexCoordinate) -> (board: Board)
        requires
            self.wf(),
        ensures
            board@ == self@.remove(*cell),
            board.wf(),
    {
        let keys = self.cells.keys();
        let mut board = Board::new();
        let mut i: usize = 0;
        while i < keys.len()
            invariant
                i <= keys@.len(),
                self.wf(),
                board.wf(),
                keys@.to_set() == self@.dom(),
                forall|c: HexCoordinate| #[trigger]
                    board@.dom().contains(c) <==> c != *cell && exists|j: int|
                        0 <= j < i && keys@[j] == c,
                forall|c: HexCoordinate| #[trigger]
                    board@.dom().contains(c) ==> board@[c] == self@[c],
            decreases keys@.len() - i,
        {
            let key = keys[i];
            assert(keys@.to_set().contains(key));
            if key != *cell {
                match self.cells.get(&key) {
                    Some(ids) => {
                        let copy = copy_ids(ids);
                        board.insert_stack(key, copy);
                    },
                    None => {},
                }
            }
            i += 1;
        }
        assert(board@ =~= self@.remove(*cell)) by {
            assert forall|c: HexCoordinate| self@.remove(*cell).dom().contains(c) implies board@.dom().contains(c) by {
                assert(keys@.to_set().contains(c));
                let j = choose|j: int| 0 <= j < keys@.len() && keys@[j] == c;
                assert(0 <= j < i && keys@[j] == c);
            }
        }
        board
    }

    /// The empty neighbours of `origin` that a piece on `origin` reaches by sliding along
    /// the edge of a neighbouring piece, but for those in `ignore`; in the order of the
    /// directions.
    pub fn slidable_neighbors(
        &self,
        origin: HexCoordinate,
        ignore: &Vec<HexCoordinate>,
    ) -> (cells: Vec<HexCoordinate>)
        ensures
            cells@ == slides(self.occupied(), origin, ignore@.to_set()),
    {
        let directions = all_directions();
        let mut cells: Vec<HexCoordinate> = Vec::new();
        let mut i: usize = 0;
        while i < 6
            invariant
                i <= 6,
                forall|k: int| 0 <= k < 6 ==> directions[k] == HexDirection::from_index(k),
                cells@ == slides_among(self.occupied(), origin, ignore@.to_set(), i as int),
            decreases 6 - i,
        {
            let direction = directions[i];
            let target = origin.get_relative(&direction);
            let sides = direction.get_adjacent_directions();
            let left = self.is_occupied(&origin.get_relative(sides[0]));
            let right = self.is_occupied(&origin.get_relative(sides[1]));
            if !self.is_occupied(&target) && !holds_cell(ignore, &target) && left != right {
                cells.push(target);
            }
            i += 1;
        }
        cells
    }
}

/// Taking everything off a cell and putting the stack that stood there back on it gives
/// the board as it was.
pub proof fn lemma_reinsert_restores(board: Board, cell: HexCoordinate)
    requires
        board.occupied().contains(cell),
    ensures
        board@.remove(cell).insert(cell, board@[cell]) == board@,
{
    assert(board@.remove(cell).insert(cell, board@[cell]) =~= board@);
}

/// A copy of a stack of ids.
fn copy_ids(ids: &Vec<u32>) -> (copy: Vec<u32>)
    ensures
        copy@ == ids@,
{
    let mut copy: Vec<u32> = Vec::new();
    let mut i: usize = 0;
    while i < ids.len()
        invariant
            i <= ids@.len(),
            copy@ == ids@.subrange(0, i as int),
        decreases ids@.len() - i,
    {
        copy.push(ids[i]);
        assert(copy@ =~= ids@.subrange(0, i + 1));
        i += 1;
    }
    assert(copy@ =~= ids@);
    copy
}

} // verus!
