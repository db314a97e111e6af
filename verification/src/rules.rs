use crate::board::{
    holds_cell, is_slide, is_slide_to, lemma_neighbors_differ,
    lemma_slide_keeps_contact, lemma_slides_among_distinct, lemma_slides_contains, slides,
    touches, Board,
};
use crate::cells::{cell_set_contents, CellSet};
use crate::data::enums::Player;
use crate::game_model::piece::{
    board_of, lemma_stack_top, occupied_cells, owner_at, pieces_wf, Piece,
};
use crate::hex_coordinate::{
    all_directions, lemma_adjacent_symmetric, lemma_direction_index, wrapped, HexCoordinate,
    HexDirection,
};
use vstd::prelude::*;
use vstd::set_lib::lemma_set_subset_finite;

verus! {

/// The cells that a queen on `from` may move to: those it reaches by one slide.
pub open spec fn queen_moves(occupied: Set<HexCoordinate>, from: HexCoordinate) -> Seq<
    HexCoordinate,
> {
    slides(occupied, from, Set::empty())
}

/// The neighbours of `from` in the first `n` directions that a beetle may step on: all of
/// them where it may step on empty ground, else the occupied ones.
pub open spec fn beetle_steps(
    occupied: Set<HexCoordinate>,
    from: HexCoordinate,
    can_move_to_empty: bool,
    n: int,
) -> Seq<HexCoordinate>
    decreases n,
{
    if n <= 0 {
        Seq::empty()
    } else {
        let d = HexDirection::from_index(n - 1);
        let earlier = beetle_steps(occupied, from, can_move_to_empty, n - 1);
        if can_move_to_empty || occupied.contains(from.neighbor(d)) {
            earlier.push(from.neighbor(d))
        } else {
            earlier
        }
    }
}

/// The cells that a beetle on `from` may move to, in the order of the directions.
pub open spec fn beetle_moves(
    occupied: Set<HexCoordinate>,
    from: HexCoordinate,
    can_move_to_empty: bool,
) -> Seq<HexCoordinate> {
    beetle_steps(occupied, from, can_move_to_empty, 6)
}

/// The greatest number of steps that a jump may take.
pub const JUMP_LIMIT: i32 = 2_147_483_647;

/// `k` times `delta`, for a `delta` of -1, 0 or 1.
pub open spec fn stretch(delta: int, k: int) -> int {
    if delta == 0 {
        0
    } else if delta > 0 {
        k
    } else {
        -k
    }
}

/// The cell `k` steps from `from` in direction `d`, for a `k` up to `JUMP_LIMIT`.
pub open spec fn hop(from: HexCoordinate, d: HexDirection, k: int) -> HexCoordinate {
    HexCoordinate {
        x: wrapped(from.x + stretch(d.dx(), k)),
        y: wrapped(from.y + stretch(d.dy(), k)),
    }
}

/// A grasshopper on `from` can jump `k` steps in direction `d`: the cells before the
/// `k`-th, at least one, are occupied, and the `k`-th is empty. No jump takes more than
/// `JUMP_LIMIT` steps.
pub open spec fn is_jump(
    occupied: Set<HexCoordinate>,
    from: HexCoordinate,
    d: HexDirection,
    k: int,
) -> bool {
    &&& 2 <= k <= JUMP_LIMIT
    &&& forall|j: int| 1 <= j < k ==> occupied.contains(#[trigger] hop(from, d, j))
    &&& !occupied.contains(hop(from, d, k))
}

/// A grasshopper on `from` can jump in direction `d`.
pub open spec fn has_jump(
    occupied: Set<HexCoordinate>,
    from: HexCoordinate,
    d: HexDirection,
) -> bool {
    exists|k: int| is_jump(occupied, from, d, k)
}

/// The number of steps of the jump from `from` in direction `d`.
pub open spec fn jump_length(
    occupied: Set<HexCoordinate>,
    from: HexCoordinate,
    d: HexDirection,
) -> int {
    choose|k: int| is_jump(occupied, from, d, k)
}

/// The cells on which the jumps from `from` in the first `n` directions land, in the order
/// of the directions. A direction whose first cell is empty has no jump.
pub open spec fn jumps_among(occupied: Set<HexCoordinate>, from: HexCoordinate, n: int) -> Seq<
    HexCoordinate,
>
    decreases n,
{
    if n <= 0 {
        Seq::empty()
    } else {
        let d = HexDirection::from_index(n - 1);
        let earlier = jumps_among(occupied, from, n - 1);
        if has_jump(occupied, from, d) {
            earlier.push(hop(from, d, jump_length(occupied, from, d)))
        } else {
            earlier
        }
    }
}

/// The cells that a grasshopper on `from` may move to, in the order of the directions.
pub open spec fn grasshopper_moves(occupied: Set<HexCoordinate>, from: HexCoordinate) -> Seq<
    HexCoordinate,
> {
    jumps_among(occupied, from, 6)
}

/// The cells outside `ignore` that one slide reaches from a cell of `sources`.
pub open spec fn slide_targets(
    occupied: Set<HexCoordinate>,
    sources: Set<HexCoordinate>,
    ignore: Set<HexCoordinate>,
) -> Set<HexCoordinate> {
    Set::new(
        |t: HexCoordinate|
            !ignore.contains(t) && exists|a: HexCoordinate|
                sources.contains(a) && #[trigger] is_slide_to(occupied, a, t),
    )
}

/// `walk` is a sequence of at least one slide.
pub open spec fn is_slide_walk(occupied: Set<HexCoordinate>, walk: Seq<HexCoordinate>) -> bool {
    &&& walk.len() >= 2
    &&& forall|i: int|
        0 <= i < walk.len() - 1 ==> is_slide_to(occupied, #[trigger] walk[i], walk[i + 1])
}

/// A sequence of slides leads from `from` to `to`.
pub open spec fn slides_lead(
    occupied: Set<HexCoordinate>,
    from: HexCoordinate,
    to: HexCoordinate,
) -> bool {
    exists|walk: Seq<HexCoordinate>| #[trigger]
        is_slide_walk(occupied, walk) && walk[0] == from && walk.last() == to
}

/// The cells that an ant on `from` may move to: every other cell to which a sequence of
/// slides leads.
pub open spec fn ant_moves(occupied: Set<HexCoordinate>, from: HexCoordinate) -> Set<
    HexCoordinate,
> {
    Set::new(|to: HexCoordinate| to != from && slides_lead(occupied, from, to))
}

/// The cells first reached by the first, the second and the third slide of a spider on
/// `from`.
pub open spec fn spider_rounds(occupied: Set<HexCoordinate>, from: HexCoordinate) -> (
    Set<HexCoordinate>,
    Set<HexCoordinate>,
    Set<HexCoordinate>,
) {
    let first = slide_targets(occupied, set![from], Set::empty());
    let second = slide_targets(occupied, first, first.insert(from));
    let third = slide_targets(occupied, second, first.union(second).insert(from));
    (first, second, third)
}

/// The cells that a spider on `from` may move to: those first reached by its third slide;
/// where a slide reaches nothing new, those first reached by the slide before it.
pub open spec fn spider_moves(occupied: Set<HexCoordinate>, from: HexCoordinate) -> Set<
    HexCoordinate,
> {
    let (first, second, third) = spider_rounds(occupied, from);
    if second =~= Set::empty() {
        first
    } else if third =~= Set::empty() {
        second
    } else {
        third
    }
}

/// The cells that have a neighbour in `occupied`.
pub open spec fn border(occupied: Set<HexCoordinate>) -> Set<HexCoordinate> {
    Set::new(|c: HexCoordinate| touches(occupied, c))
}

/// The neighbours in direction `d` of the cells of `occupied`.
pub open spec fn shifted(occupied: Set<HexCoordinate>, d: HexDirection) -> Set<HexCoordinate> {
    occupied.map(|o: HexCoordinate| o.neighbor(d))
}

/// Finitely many cells have finitely many neighbours.
pub proof fn lemma_border_finite(occupied: Set<HexCoordinate>)
    requires
        occupied.finite(),
    ensures
        border(occupied).finite(),
{
    let around = shifted(occupied, HexDirection::UpRight).union(
        shifted(occupied, HexDirection::Right),
    ).union(shifted(occupied, HexDirection::DownRight)).union(
        shifted(occupied, HexDirection::DownLeft),
    ).union(shifted(occupied, HexDirection::Left)).union(shifted(occupied, HexDirection::UpLeft));
    occupied.lemma_map_finite(|o: HexCoordinate| o.neighbor(HexDirection::UpRight));
    occupied.lemma_map_finite(|o: HexCoordinate| o.neighbor(HexDirection::Right));
    occupied.lemma_map_finite(|o: HexCoordinate| o.neighbor(HexDirection::DownRight));
    occupied.lemma_map_finite(|o: HexCoordinate| o.neighbor(HexDirection::DownLeft));
    occupied.lemma_map_finite(|o: HexCoordinate| o.neighbor(HexDirection::Left));
    occupied.lemma_map_finite(|o: HexCoordinate| o.neighbor(HexDirection::UpLeft));
    assert(around.finite());
    assert forall|c: HexCoordinate| border(occupied).contains(c) implies around.contains(c) by {
        let o = choose|o: HexCoordinate| occupied.contains(o) && #[trigger] o.is_adjacent(c);
        let d = choose|d: HexDirection| o.neighbor(d) == c;
        assert(shifted(occupied, d).contains(c));
    }
    lemma_set_subset_finite(around, border(occupied));
}

/// The cells to which a queen on `current_position` may move over the given board, which
/// is the board without the queen.
pub fn get_moves_for_queen(position_cache: &Board, current_position: HexCoordinate) -> (moves: Vec<
    HexCoordinate,
>)
    ensures
        moves@ == queen_moves(position_cache.occupied(), current_position),
{
    let ignore: Vec<HexCoordinate> = Vec::new();
    assert(ignore@.to_set() =~= Set::<HexCoordinate>::empty());
    position_cache.slidable_neighbors(current_position, &ignore)
}

/// The cells to which a beetle on `current_position` may move over the given board, which
/// is the board without the beetle's cell: every neighbour where the beetle rests on
/// another piece, else the occupied neighbours.
///
/// A beetle on the ground climbs onto any occupied neighbour: whether it could slide there
/// between the pieces on either side is not asked, unlike in the game as it is played with
/// tiles.
pub fn get_moves_for_beetle(
    position_cache: &Board,
    current_position: HexCoordinate,
    can_move_to_empty: bool,
) -> (moves: Vec<HexCoordinate>)
    ensures
        moves@ == beetle_moves(position_cache.occupied(), current_position, can_move_to_empty),
{
    let directions = all_directions();
    let mut moves: Vec<HexCoordinate> = Vec::new();
    let mut i: usize = 0;
    while i < 6
        invariant
            i <= 6,
            forall|k: int| 0 <= k < 6 ==> directions[k] == HexDirection::from_index(k),
            moves@ == beetle_steps(
                position_cache.occupied(),
                current_position,
                can_move_to_empty,
                i as int,
            ),
        decreases 6 - i,
    {
        let potential_move = current_position.get_relative(&directions[i]);
        if can_move_to_empty || position_cache.is_occupied(&potential_move) {
            moves.push(potential_move);
        }
        i += 1;
    }
    moves
}

/// A direction has at most one jump.
pub proof fn lemma_jump_unique(
    occupied: Set<HexCoordinate>,
    from: HexCoordinate,
    d: HexDirection,
    k: int,
    m: int,
)
    requires
        is_jump(occupied, from, d, k),
        is_jump(occupied, from, d, m),
    ensures
        k == m,
{
    if k < m {
        assert(occupied.contains(hop(from, d, k)));
    } else if m < k {
        assert(occupied.contains(hop(from, d, m)));
    }
}

/// Each cell of a row is the neighbour, in the direction of the row, of the cell before it.
pub proof fn lemma_hop_step(from: HexCoordinate, d: HexDirection, k: int)
    requires
        0 <= k < JUMP_LIMIT,
    ensures
        hop(from, d, 0) == from,
        hop(from, d, k + 1) == hop(from, d, k).neighbor(d),
{
}

/// A jump never lands on a neighbour of the cell it starts from, nor on that cell: it lands
/// on the first empty cell behind a run of at least one occupied cell, the first of which
/// is the neighbour in the direction of the jump.
pub proof fn lemma_jump_lands_beyond_run(
    occupied: Set<HexCoordinate>,
    from: HexCoordinate,
    d: HexDirection,
    k: int,
)
    requires
        is_jump(occupied, from, d, k),
    ensures
        hop(from, d, k) != from,
        !from.is_adjacent(hop(from, d, k)),
        !occupied.contains(hop(from, d, k)),
        occupied.contains(from.neighbor(d)),
        hop(from, d, k - 1).is_adjacent(hop(from, d, k)),
        occupied.contains(hop(from, d, k - 1)),
{
    assert(occupied.contains(hop(from, d, 1)));
    lemma_hop_step(from, d, 0);
    assert(occupied.contains(hop(from, d, k - 1)));
    lemma_hop_step(from, d, k - 1);
    let to = hop(from, d, k);
    assert forall|e: HexDirection| from.neighbor(e) != to by {}
}

/// `c` is the landing cell of a jump in one of the first `n` directions.
pub open spec fn lands_in_first(
    occupied: Set<HexCoordinate>,
    from: HexCoordinate,
    n: int,
    c: HexCoordinate,
) -> bool {
    exists|d: HexDirection, k: int|
        d.index() < n && #[trigger] is_jump(occupied, from, d, k) && c == hop(from, d, k)
}

/// The cells listed by `jumps_among` are the landing cells of the jumps in the first `n`
/// directions.
pub proof fn lemma_jumps_among_contains(
    occupied: Set<HexCoordinate>,
    from: HexCoordinate,
    n: int,
    c: HexCoordinate,
)
    requires
        0 <= n <= 6,
        jumps_among(occupied, from, n).contains(c),
    ensures
        lands_in_first(occupied, from, n, c),
    decreases n,
{
    let all = jumps_among(occupied, from, n);
    let i = choose|i: int| 0 <= i < all.len() && all[i] == c;
    if n > 0 {
        let last = HexDirection::from_index(n - 1);
        let earlier = jumps_among(occupied, from, n - 1);
        if has_jump(occupied, from, last) && i >= earlier.len() {
            let k = jump_length(occupied, from, last);
            assert(last.index() < n && is_jump(occupied, from, last, k) && c == hop(
                from,
                last,
                k,
            ));
        } else {
            assert(earlier[i] == c);
            lemma_jumps_among_contains(occupied, from, n - 1, c);
            let (d, k) = choose|d: HexDirection, k: int|
                d.index() < n - 1 && #[trigger] is_jump(occupied, from, d, k) && c == hop(
                    from,
                    d,
                    k,
                );
            assert(d.index() < n && is_jump(occupied, from, d, k) && c == hop(from, d, k));
        }
    }
}

/// Jumps in different directions land on different cells.
pub proof fn lemma_jumps_differ(
    occupied: Set<HexCoordinate>,
    from: HexCoordinate,
    d: HexDirection,
    k: int,
    e: HexDirection,
    m: int,
)
    requires
        is_jump(occupied, from, d, k),
        is_jump(occupied, from, e, m),
        hop(from, d, k) == hop(from, e, m),
    ensures
        d == e,
{
}

/// `jumps_among` lists no cell twice.
pub proof fn lemma_jumps_among_distinct(occupied: Set<HexCoordinate>, from: HexCoordinate, n: int)
    requires
        0 <= n <= 6,
    ensures
        jumps_among(occupied, from, n).no_duplicates(),
    decreases n,
{
    if n > 0 {
        let last = HexDirection::from_index(n - 1);
        let earlier = jumps_among(occupied, from, n - 1);
        lemma_jumps_among_distinct(occupied, from, n - 1);
        if has_jump(occupied, from, last) {
            let k = jump_length(occupied, from, last);
            let landing = hop(from, last, k);
            if earlier.contains(landing) {
                lemma_jumps_among_contains(occupied, from, n - 1, landing);
                let (d, m) = choose|d: HexDirection, m: int|
                    d.index() < n - 1 && #[trigger] is_jump(occupied, from, d, m) && landing
                        == hop(from, d, m);
                lemma_jumps_differ(occupied, from, last, k, d, m);
            }
        }
    }
}

/// `beetle_steps` lists no cell twice, and only neighbours in the first `n` directions.
pub proof fn lemma_beetle_steps_distinct(
    occupied: Set<HexCoordinate>,
    from: HexCoordinate,
    can_move_to_empty: bool,
    n: int,
)
    requires
        0 <= n <= 6,
    ensures
        beetle_steps(occupied, from, can_move_to_empty, n).no_duplicates(),
        forall|c: HexCoordinate| #[trigger]
            beetle_steps(occupied, from, can_move_to_empty, n).contains(c) ==> near_in_first(
                from,
                n,
                c,
            ),
    decreases n,
{
    if n > 0 {
        let last = HexDirection::from_index(n - 1);
        let earlier = beetle_steps(occupied, from, can_move_to_empty, n - 1);
        let all = beetle_steps(occupied, from, can_move_to_empty, n);
        lemma_beetle_steps_distinct(occupied, from, can_move_to_empty, n - 1);
        if earlier.contains(from.neighbor(last)) {
            assert(near_in_first(from, n - 1, from.neighbor(last)));
            let e = choose|e: HexDirection|
                e.index() < n - 1 && #[trigger] from.neighbor(e) == from.neighbor(last);
            lemma_neighbors_differ(from, e, last);
        }
        assert forall|c: HexCoordinate| all.contains(c) implies near_in_first(from, n, c) by {
            let k = choose|k: int| 0 <= k < all.len() && all[k] == c;
            if k < earlier.len() {
                assert(earlier[k] == c);
                assert(earlier.contains(c));
                assert(near_in_first(from, n - 1, c));
                let e = choose|e: HexDirection| e.index() < n - 1 && #[trigger] from.neighbor(e) == c;
                assert(e.index() < n && from.neighbor(e) == c);
            } else {
                assert(last.index() < n && from.neighbor(last) == c);
            }
        }
    }
}

/// Every move of a grasshopper is a jump, and none lands on a neighbour of the cell that
/// the grasshopper leaves.
pub proof fn lemma_grasshopper_never_lands_adjacent(
    occupied: Set<HexCoordinate>,
    from: HexCoordinate,
    to: HexCoordinate,
)
    requires
        grasshopper_moves(occupied, from).contains(to),
    ensures
        to != from,
        !from.is_adjacent(to),
        !occupied.contains(to),
        exists|d: HexDirection, k: int| #[trigger]
            is_jump(occupied, from, d, k) && to == hop(from, d, k),
{
    lemma_jumps_among_contains(occupied, from, 6, to);
    let (d, k) = choose|d: HexDirection, k: int|
        d.index() < 6 && #[trigger] is_jump(occupied, from, d, k) && to == hop(from, d, k);
    lemma_jump_lands_beyond_run(occupied, from, d, k);
}

/// The cells to which a grasshopper on `start_position` may move over the given board,
/// which is the board without the grasshopper.
pub fn get_moves_for_grasshopper(position_cache: &Board, start_position: HexCoordinate) -> (moves:
    Vec<HexCoordinate>)
    ensures
        moves@ == grasshopper_moves(position_cache.occupied(), start_position),
{
    let ghost occupied = position_cache.occupied();
    let directions = all_directions();
    let mut moves: Vec<HexCoordinate> = Vec::new();
    let mut i: usize = 0;
    while i < 6
        invariant
            i <= 6,
            occupied == position_cache.occupied(),
            forall|k: int| 0 <= k < 6 ==> directions[k] == HexDirection::from_index(k),
            moves@ == jumps_among(occupied, start_position, i as int),
        decreases 6 - i,
    {
        let direction = directions[i];
        let mut position = start_position.get_relative(&direction);
        let mut steps: i32 = 1;
        proof {
            lemma_hop_step(start_position, direction, 0);
        }
        while steps < JUMP_LIMIT && position_cache.is_occupied(&position)
            invariant
                occupied == position_cache.occupied(),
                1 <= steps <= JUMP_LIMIT,
                position == hop(start_position, direction, steps as int),
                forall|j: int|
                    1 <= j < steps ==> occupied.contains(
                        #[trigger] hop(start_position, direction, j),
                    ),
            decreases JUMP_LIMIT - steps,
        {
            proof {
                lemma_hop_step(start_position, direction, steps as int);
            }
            position = position.get_relative(&direction);
            steps = steps + 1;
        }
        if steps >= 2 && !position_cache.is_occupied(&position) {
            proof {
                assert(is_jump(occupied, start_position, direction, steps as int));
                lemma_jump_unique(
                    occupied,
                    start_position,
                    direction,
                    steps as int,
                    jump_length(occupied, start_position, direction),
                );
            }
            moves.push(position);
        } else {
            proof {
                if has_jump(occupied, start_position, direction) {
                    let k = choose|k: int| is_jump(occupied, start_position, direction, k);
                    if steps < k {
                        assert(occupied.contains(hop(start_position, direction, steps as int)));
                    } else {
                        assert(!occupied.contains(hop(start_position, direction, k)));
                    }
                }
            }
        }
        i += 1;
    }
    moves
}

/// A copy of a list of cells.
fn copy_cells(cells: &Vec<HexCoordinate>) -> (copy: Vec<HexCoordinate>)
    ensures
        copy@ == cells@,
{
    let mut copy: Vec<HexCoordinate> = Vec::new();
    let mut i: usize = 0;
    while i < cells.len()
        invariant
            i <= cells@.len(),
            copy@ == cells@.subrange(0, i as int),
        decreases cells@.len() - i,
    {
        copy.push(cells[i]);
        assert(copy@ =~= cells@.subrange(0, i + 1));
        i += 1;
    }
    assert(copy@ =~= cells@);
    copy
}

/// One slide leads to `c` from one of the first `n` cells of `sources`.
pub open spec fn slid_from_first(
    occupied: Set<HexCoordinate>,
    sources: Seq<HexCoordinate>,
    n: int,
    c: HexCoordinate,
) -> bool {
    exists|j: int| 0 <= j < n && is_slide_to(occupied, #[trigger] sources[j], c)
}

/// `c` is one of the first `n` cells of `cells`.
pub open spec fn among_first(cells: Seq<HexCoordinate>, n: int, c: HexCoordinate) -> bool {
    exists|m: int| 0 <= m < n && #[trigger] cells[m] == c
}

/// The cells outside `ignore` that one slide over the board reaches from a cell of
/// `sources`, each once.
pub fn slide_from_all(
    board: &Board,
    sources: &Vec<HexCoordinate>,
    ignore: &Vec<HexCoordinate>,
) -> (found: Vec<HexCoordinate>)
    ensures
        found@.no_duplicates(),
        found@.to_set() == slide_targets(board.occupied(), sources@.to_set(), ignore@.to_set()),
{
    let ghost occupied = board.occupied();
    let ghost ignored = ignore@.to_set();
    let mut found: Vec<HexCoordinate> = Vec::new();
    let mut i: usize = 0;
    while i < sources.len()
        invariant
            i <= sources@.len(),
            occupied == board.occupied(),
            ignored == ignore@.to_set(),
            found@.no_duplicates(),
            forall|c: HexCoordinate| #[trigger]
                found@.contains(c) <==> !ignored.contains(c) && slid_from_first(
                    occupied,
                    sources@,
                    i as int,
                    c,
                ),
        decreases sources@.len() - i,
    {
        let source = sources[i];
        let next = board.slidable_neighbors(source, ignore);
        proof {
            assert forall|c: HexCoordinate| #[trigger]
                next@.contains(c) <==> !ignored.contains(c) && is_slide_to(occupied, source, c) by {
                lemma_slides_contains(occupied, source, ignored, c);
            }
        }
        let mut k: usize = 0;
        while k < next.len()
            invariant
                k <= next@.len(),
                i < sources@.len(),
                source == sources@[i as int],
                found@.no_duplicates(),
                forall|c: HexCoordinate| #[trigger]
                    found@.contains(c) <==> (!ignored.contains(c) && slid_from_first(
                        occupied,
                        sources@,
                        i as int,
                        c,
                    )) || among_first(next@, k as int, c),
            decreases next@.len() - k,
        {
            let cell = next[k];
            let ghost before = found@;
            if !holds_cell(&found, &cell) {
                found.push(cell);
                assert(found@[found@.len() - 1] == cell);
            }
            proof {
                assert forall|c: HexCoordinate| #[trigger]
                    found@.contains(c) <==> (!ignored.contains(c) && slid_from_first(
                        occupied,
                        sources@,
                        i as int,
                        c,
                    )) || among_first(next@, k + 1, c) by {
                    if before.contains(c) {
                        let j = choose|j: int| 0 <= j < before.len() && before[j] == c;
                        assert(found@[j] == c);
                    }
                    if found@.contains(c) {
                        let j = choose|j: int| 0 <= j < found@.len() && found@[j] == c;
                        if j < before.len() {
                            assert(before[j] == c);
                        }
                    }
                    assert(found@.contains(c) <==> before.contains(c) || c == cell);
                    if among_first(next@, k as int, c) {
                        let m = choose|m: int| 0 <= m < k && #[trigger] next@[m] == c;
                        assert(0 <= m < k + 1 && next@[m] == c);
                    }
                    if c == cell {
                        assert(0 <= k < k + 1 && next@[k as int] == c);
                    }
                    if among_first(next@, k + 1, c) {
                        let m = choose|m: int| 0 <= m < k + 1 && #[trigger] next@[m] == c;
                        if m < k {
                            assert(among_first(next@, k as int, c));
                        }
                    }
                }
            }
            k += 1;
        }
        proof {
            assert forall|c: HexCoordinate| #[trigger]
                found@.contains(c) <==> !ignored.contains(c) && slid_from_first(
                    occupied,
                    sources@,
                    i + 1,
                    c,
                ) by {
                if among_first(next@, k as int, c) {
                    let m = choose|m: int| 0 <= m < k && #[trigger] next@[m] == c;
                    assert(next@.contains(c));
                    assert(is_slide_to(occupied, sources@[i as int], c));
                }
                if slid_from_first(occupied, sources@, i as int, c) {
                    let j = choose|j: int|
                        0 <= j < i && is_slide_to(occupied, #[trigger] sources@[j], c);
                    assert(0 <= j < i + 1 && is_slide_to(occupied, sources@[j], c));
                }
                if !ignored.contains(c) && slid_from_first(occupied, sources@, i + 1, c) {
                    let j = choose|j: int|
                        0 <= j < i + 1 && is_slide_to(occupied, #[trigger] sources@[j], c);
                    if j == i {
                        assert(next@.contains(c));
                        let m = choose|m: int| 0 <= m < next@.len() && next@[m] == c;
                        assert(among_first(next@, k as int, c));
                    } else {
                        assert(slid_from_first(occupied, sources@, i as int, c));
                    }
                }
            }
        }
        i += 1;
    }
    proof {
        assert forall|c: HexCoordinate|
            found@.to_set().contains(c) <==> slide_targets(
                occupied,
                sources@.to_set(),
                ignored,
            ).contains(c) by {
            if found@.contains(c) {
                let j = choose|j: int|
                    0 <= j < i && is_slide_to(occupied, #[trigger] sources@[j], c);
                assert(sources@.contains(sources@[j]));
                assert(sources@.to_set().contains(sources@[j]));
            }
            if slide_targets(occupied, sources@.to_set(), ignored).contains(c) {
                let a = choose|a: HexCoordinate|
                    sources@.to_set().contains(a) && #[trigger] is_slide_to(occupied, a, c);
                let j = choose|j: int| 0 <= j < sources@.len() && sources@[j] == a;
                assert(is_slide_to(occupied, sources@[j], c));
                assert(slid_from_first(occupied, sources@, i as int, c));
            }
        }
        assert(found@.to_set() =~= slide_targets(occupied, sources@.to_set(), ignored));
    }
    found
}

/// A joined list holds what either part holds.
pub proof fn lemma_joined_contains(a: Seq<HexCoordinate>, b: Seq<HexCoordinate>, c: HexCoordinate)
    ensures
        (a + b).contains(c) <==> a.contains(c) || b.contains(c),
{
    let joined = a + b;
    if a.contains(c) {
        let i = choose|i: int| 0 <= i < a.len() && a[i] == c;
        assert(joined[i] == c);
    }
    if b.contains(c) {
        let i = choose|i: int| 0 <= i < b.len() && b[i] == c;
        assert(joined[a.len() + i] == c);
    }
    if joined.contains(c) {
        let i = choose|i: int| 0 <= i < joined.len() && joined[i] == c;
        if i < a.len() {
            assert(a[i] == c);
        } else {
            assert(b[i - a.len()] == c);
        }
    }
}

/// Two lists without repetition that share no cell join to a list without repetition.
pub proof fn lemma_joined_distinct(a: Seq<HexCoordinate>, b: Seq<HexCoordinate>)
    requires
        a.no_duplicates(),
        b.no_duplicates(),
        forall|c: HexCoordinate| a.contains(c) ==> !b.contains(c),
    ensures
        (a + b).no_duplicates(),
{
    let joined = a + b;
    assert forall|i: int, j: int|
        0 <= i < joined.len() && 0 <= j < joined.len() && i != j implies joined[i] != joined[j] by {
        if i < a.len() && j >= a.len() {
            assert(a.contains(a[i]));
            assert(b.contains(b[j - a.len()]));
        } else if j < a.len() && i >= a.len() {
            assert(a.contains(a[j]));
            assert(b.contains(b[i - a.len()]));
        }
    }
}

/// Adds the cells of `extra` to the end of `cells`.
fn append_cells(cells: &mut Vec<HexCoordinate>, extra: &Vec<HexCoordinate>)
    ensures
        final(cells)@ == old(cells)@ + extra@,
{
    let mut i: usize = 0;
    while i < extra.len()
        invariant
            i <= extra@.len(),
            cells@ == old(cells)@ + extra@.subrange(0, i as int),
        decreases extra@.len() - i,
    {
        cells.push(extra[i]);
        assert(cells@ =~= old(cells)@ + extra@.subrange(0, i + 1));
        i += 1;
    }
    assert(cells@ =~= old(cells)@ + extra@);
}

/// Whatever a sequence of slides from `start` reaches lies in a set that holds every cell
/// one slide away from `start` and, with each of its cells, every cell but `start` that is
/// one slide away from that cell.
pub proof fn lemma_slide_walk_stays(
    occupied: Set<HexCoordinate>,
    start: HexCoordinate,
    found: Set<HexCoordinate>,
    walk: Seq<HexCoordinate>,
    i: int,
)
    requires
        is_slide_walk(occupied, walk),
        walk[0] == start,
        forall|c: HexCoordinate| #[trigger] is_slide_to(occupied, start, c) ==> found.contains(c),
        forall|a: HexCoordinate, t: HexCoordinate|
            found.contains(a) && #[trigger] is_slide_to(occupied, a, t) ==> found.contains(t) || t
                == start,
        1 <= i < walk.len(),
    ensures
        found.contains(walk[i]) || walk[i] == start,
    decreases i,
{
    let previous = walk[i - 1];
    assert(is_slide_to(occupied, previous, walk[i - 1 + 1]));
    if i > 1 {
        lemma_slide_walk_stays(occupied, start, found, walk, i - 1);
    }
}

/// The first slides of a walk of slides are a walk of slides.
pub proof fn lemma_slide_walk_extends(
    occupied: Set<HexCoordinate>,
    start: HexCoordinate,
    a: HexCoordinate,
    t: HexCoordinate,
)
    requires
        a == start || slides_lead(occupied, start, a),
        is_slide_to(occupied, a, t),
    ensures
        slides_lead(occupied, start, t),
{
    if a == start {
        let walk = seq![start, t];
        assert(is_slide_walk(occupied, walk) && walk[0] == start && walk.last() == t);
    } else {
        let walk = choose|walk: Seq<HexCoordinate>| #[trigger]
            is_slide_walk(occupied, walk) && walk[0] == start && walk.last() == a;
        let longer = walk.push(t);
        assert forall|i: int| 0 <= i < longer.len() - 1 implies is_slide_to(
            occupied,
            #[trigger] longer[i],
            longer[i + 1],
        ) by {
            if i < walk.len() - 1 {
                assert(is_slide_to(occupied, walk[i], walk[i + 1]));
            }
        }
        assert(is_slide_walk(occupied, longer) && longer[0] == start && longer.last() == t);
    }
}

/// The cells to which an ant on `start_position` may move over the given board, which is
/// the board without the ant: every cell that slides along the pieces lead to.
pub fn get_moves_for_ant(position_cache: &Board, start_position: HexCoordinate) -> (moves: Vec<
    HexCoordinate,
>)
    requires
        position_cache.wf(),
    ensures
        moves@.no_duplicates(),
        moves@.to_set() == ant_moves(position_cache.occupied(), start_position),
{
    let ghost occupied = position_cache.occupied();
    let nothing: Vec<HexCoordinate> = Vec::new();
    let mut possible_moves = position_cache.slidable_neighbors(start_position, &nothing);
    let mut ignore = copy_cells(&possible_moves);
    ignore.push(start_position);
    let mut done = false;
    proof {
        assert(nothing@.to_set() =~= Set::<HexCoordinate>::empty());
        lemma_border_finite(occupied);
        lemma_slides_among_distinct(occupied, start_position, Set::empty(), 6);
        assert forall|c: HexCoordinate| #[trigger]
            is_slide_to(occupied, start_position, c) implies possible_moves@.contains(c) by {
            lemma_slides_contains(occupied, start_position, Set::empty(), c);
        }
        assert forall|k: int| 0 <= k < possible_moves@.len() implies {
            let c = #[trigger] possible_moves@[k];
            c != start_position && slides_lead(occupied, start_position, c) && border(
                occupied,
            ).contains(c)
        } by {
            let c = possible_moves@[k];
            assert(possible_moves@.contains(c));
            lemma_slides_contains(occupied, start_position, Set::empty(), c);
            lemma_slide_keeps_contact(occupied, start_position, c);
            lemma_slide_walk_extends(occupied, start_position, start_position, c);
        }
        assert(ignore@ == possible_moves@ + seq![start_position]);
        assert forall|c: HexCoordinate|
            ignore@.to_set().contains(c) <==> possible_moves@.to_set().insert(
                start_position,
            ).contains(c) by {
            lemma_joined_contains(possible_moves@, seq![start_position], c);
            if c == start_position {
                assert(seq![start_position][0] == c);
            }
        }
        assert(ignore@.to_set() =~= possible_moves@.to_set().insert(start_position));
    }
    while !done
        invariant
            occupied == position_cache.occupied(),
            border(occupied).finite(),
            possible_moves@.no_duplicates(),
            ignore@.to_set() == possible_moves@.to_set().insert(start_position),
            forall|k: int|
                0 <= k < possible_moves@.len() ==> {
                    let c = #[trigger] possible_moves@[k];
                    c != start_position && slides_lead(occupied, start_position, c)
                        && border(occupied).contains(c)
                },
            forall|c: HexCoordinate| #[trigger]
                is_slide_to(occupied, start_position, c) ==> possible_moves@.contains(c),
            done ==> slide_targets(occupied, possible_moves@.to_set(), ignore@.to_set())
                =~= Set::<HexCoordinate>::empty(),
        decreases
                border(occupied).difference(possible_moves@.to_set()).len(),
                (if done {
                    0int
                } else {
                    1int
                }),
    {
        let new_moves = slide_from_all(position_cache, &possible_moves, &ignore);
        if new_moves.len() == 0 {
            done = true;
            proof {
                assert forall|c: HexCoordinate| !new_moves@.to_set().contains(c) by {
                    if new_moves@.contains(c) {
                        let j = choose|j: int| 0 <= j < new_moves@.len() && new_moves@[j] == c;
                    }
                }
                assert(new_moves@.to_set() =~= Set::<HexCoordinate>::empty());
            }
        } else {
            let ghost earlier = possible_moves@;
            let ghost ignored = ignore@;
            append_cells(&mut possible_moves, &new_moves);
            append_cells(&mut ignore, &new_moves);
            proof {
                let targets = slide_targets(occupied, earlier.to_set(), ignored.to_set());
                assert forall|c: HexCoordinate| #[trigger] new_moves@.contains(c) implies {
                    &&& !earlier.contains(c)
                    &&& c != start_position
                    &&& slides_lead(occupied, start_position, c)
                    &&& border(occupied).contains(c)
                } by {
                    assert(new_moves@.to_set().contains(c));
                    assert(targets.contains(c));
                    let a = choose|a: HexCoordinate|
                        earlier.to_set().contains(a) && #[trigger] is_slide_to(occupied, a, c);
                    let j = choose|j: int| 0 <= j < earlier.len() && earlier[j] == a;
                    lemma_slide_keeps_contact(occupied, a, c);
                    lemma_slide_walk_extends(occupied, start_position, a, c);
                    assert(!ignored.to_set().contains(c));
                    if earlier.contains(c) {
                        assert(earlier.to_set().contains(c));
                    }
                }
                lemma_joined_distinct(earlier, new_moves@);
                assert forall|c: HexCoordinate|
                    ignore@.to_set().contains(c) <==> possible_moves@.to_set().insert(
                        start_position,
                    ).contains(c) by {
                    lemma_joined_contains(earlier, new_moves@, c);
                    lemma_joined_contains(ignored, new_moves@, c);
                    assert(ignored.to_set().contains(c) <==> earlier.to_set().insert(
                        start_position,
                    ).contains(c));
                }
                assert(ignore@.to_set() =~= possible_moves@.to_set().insert(start_position));
                assert forall|k: int| 0 <= k < possible_moves@.len() implies {
                    let c = #[trigger] possible_moves@[k];
                    c != start_position && slides_lead(occupied, start_position, c)
                        && border(occupied).contains(c)
                } by {
                    if k >= earlier.len() {
                        let c = new_moves@[k - earlier.len()];
                        assert(possible_moves@[k] == c);
                        assert(new_moves@.contains(c));
                    } else {
                        let c = earlier[k];
                        assert(possible_moves@[k] == c);
                        assert(c != start_position && slides_lead(occupied, start_position, c)
                            && border(occupied).contains(c));
                    }
                }
                assert forall|c: HexCoordinate| #[trigger]
                    is_slide_to(occupied, start_position, c) implies possible_moves@.contains(
                    c,
                ) by {
                    lemma_joined_contains(earlier, new_moves@, c);
                }
                let first = new_moves@[0];
                assert(new_moves@.contains(first));
                lemma_joined_contains(earlier, new_moves@, first);
                let smaller = border(occupied).difference(possible_moves@.to_set());
                let larger = border(occupied).difference(earlier.to_set());
                assert forall|c: HexCoordinate| smaller.contains(c) implies larger.contains(c) by {
                    lemma_joined_contains(earlier, new_moves@, c);
                }
                assert(larger.contains(first));
                assert(!smaller.contains(first));
                smaller.lemma_subset_not_in_lt(larger, first);
            }
        }
    }
    proof {
        let found = possible_moves@.to_set();
        assert forall|a: HexCoordinate, t: HexCoordinate|
            found.contains(a) && #[trigger] is_slide_to(occupied, a, t) implies found.contains(t)
            || t == start_position by {
            if !ignore@.to_set().contains(t) {
                assert(slide_targets(occupied, found, ignore@.to_set()).contains(t));
            }
        }
        assert forall|c: HexCoordinate|
            found.contains(c) <==> ant_moves(occupied, start_position).contains(c) by {
            if found.contains(c) {
                let k = choose|k: int| 0 <= k < possible_moves@.len() && possible_moves@[k] == c;
            }
            if c != start_position && slides_lead(occupied, start_position, c) {
                let walk = choose|walk: Seq<HexCoordinate>| #[trigger]
                    is_slide_walk(occupied, walk) && walk[0] == start_position && walk.last() == c;
                lemma_slide_walk_stays(occupied, start_position, found, walk, walk.len() - 1);
            }
        }
        assert(found =~= ant_moves(occupied, start_position));
    }
    possible_moves
}

/// The cells that a walk of slides reaches are empty and touch the occupied cells.
pub proof fn lemma_slide_walk_keeps_contact(
    occupied: Set<HexCoordinate>,
    walk: Seq<HexCoordinate>,
    i: int,
)
    requires
        is_slide_walk(occupied, walk),
        1 <= i < walk.len(),
    ensures
        touches(occupied, walk[i]),
        !occupied.contains(walk[i]),
    decreases i,
{
    if i > 1 {
        lemma_slide_walk_keeps_contact(occupied, walk, i - 1);
    }
    let previous = walk[i - 1];
    assert(is_slide_to(occupied, previous, walk[i - 1 + 1]));
    lemma_slide_keeps_contact(occupied, previous, walk[i]);
}

/// Every move of an ant leads to an empty cell that touches the other pieces.
pub proof fn lemma_ant_keeps_contact(
    occupied: Set<HexCoordinate>,
    from: HexCoordinate,
    to: HexCoordinate,
)
    requires
        ant_moves(occupied, from).contains(to),
    ensures
        to != from,
        touches(occupied, to),
        !occupied.contains(to),
{
    let walk = choose|walk: Seq<HexCoordinate>| #[trigger]
        is_slide_walk(occupied, walk) && walk[0] == from && walk.last() == to;
    lemma_slide_walk_keeps_contact(occupied, walk, walk.len() - 1);
}

/// Every move of a spider leads to an empty cell that touches the other pieces.
pub proof fn lemma_spider_keeps_contact(
    occupied: Set<HexCoordinate>,
    from: HexCoordinate,
    to: HexCoordinate,
)
    requires
        spider_moves(occupied, from).contains(to),
    ensures
        to != from,
        touches(occupied, to),
        !occupied.contains(to),
{
    let (first, second, third) = spider_rounds(occupied, from);
    assert forall|c: HexCoordinate| first.contains(c) implies c != from && touches(occupied, c)
        && !occupied.contains(c) by {
        let a = choose|a: HexCoordinate|
            set![from].contains(a) && #[trigger] is_slide_to(occupied, a, c);
        lemma_slide_keeps_contact(occupied, from, c);
    }
    assert forall|c: HexCoordinate| second.contains(c) implies c != from && touches(occupied, c)
        && !occupied.contains(c) by {
        let a = choose|a: HexCoordinate| first.contains(a) && #[trigger] is_slide_to(occupied, a, c);
        lemma_slide_keeps_contact(occupied, a, c);
    }
    assert forall|c: HexCoordinate| third.contains(c) implies c != from && touches(occupied, c)
        && !occupied.contains(c) by {
        let a = choose|a: HexCoordinate|
            second.contains(a) && #[trigger] is_slide_to(occupied, a, c);
        lemma_slide_keeps_contact(occupied, a, c);
    }
}

/// Every move of a grasshopper leads to an empty cell that touches the other pieces.
pub proof fn lemma_grasshopper_keeps_contact(
    occupied: Set<HexCoordinate>,
    from: HexCoordinate,
    to: HexCoordinate,
)
    requires
        grasshopper_moves(occupied, from).contains(to),
    ensures
        to != from,
        touches(occupied, to),
        !occupied.contains(to),
{
    lemma_jumps_among_contains(occupied, from, 6, to);
    let (d, k) = choose|d: HexDirection, k: int|
        d.index() < 6 && #[trigger] is_jump(occupied, from, d, k) && to == hop(from, d, k);
    lemma_jump_lands_beyond_run(occupied, from, d, k);
    let last = hop(from, d, k - 1);
    assert(occupied.contains(last) && last.is_adjacent(to));
}

/// Every move of a queen leads to an empty cell that touches the other pieces.
pub proof fn lemma_queen_keeps_contact(
    occupied: Set<HexCoordinate>,
    from: HexCoordinate,
    to: HexCoordinate,
)
    requires
        queen_moves(occupied, from).contains(to),
    ensures
        to != from,
        touches(occupied, to),
        !occupied.contains(to),
{
    lemma_slides_contains(occupied, from, Set::empty(), to);
    lemma_slide_keeps_contact(occupied, from, to);
}

/// Whatever `beetle_steps` lists is a neighbour of the cell that the beetle leaves, and it
/// is occupied unless the beetle may step on empty ground.
pub proof fn lemma_beetle_steps_contains(
    occupied: Set<HexCoordinate>,
    from: HexCoordinate,
    can_move_to_empty: bool,
    n: int,
    to: HexCoordinate,
)
    requires
        0 <= n <= 6,
        beetle_steps(occupied, from, can_move_to_empty, n).contains(to),
    ensures
        from.is_adjacent(to),
        can_move_to_empty || occupied.contains(to),
    decreases n,
{
    let all = beetle_steps(occupied, from, can_move_to_empty, n);
    let k = choose|k: int| 0 <= k < all.len() && all[k] == to;
    if n > 0 {
        let last = HexDirection::from_index(n - 1);
        let earlier = beetle_steps(occupied, from, can_move_to_empty, n - 1);
        if can_move_to_empty || occupied.contains(from.neighbor(last)) {
            if k < earlier.len() {
                assert(earlier[k] == to);
                lemma_beetle_steps_contains(occupied, from, can_move_to_empty, n - 1, to);
            } else {
                assert(from.neighbor(last) == to);
            }
        } else {
            lemma_beetle_steps_contains(occupied, from, can_move_to_empty, n - 1, to);
        }
    }
}

/// Whatever a queen reaches, an ant on the same cell of the same board reaches too.
pub proof fn lemma_ant_reaches_what_queen_reaches(
    occupied: Set<HexCoordinate>,
    from: HexCoordinate,
    to: HexCoordinate,
)
    requires
        queen_moves(occupied, from).contains(to),
    ensures
        ant_moves(occupied, from).contains(to),
{
    lemma_slides_contains(occupied, from, Set::empty(), to);
    lemma_slide_walk_extends(occupied, from, from, to);
    let d = choose|d: HexDirection| #[trigger] from.neighbor(d) == to && is_slide(occupied, from, d);
    assert(to != from);
}

/// The cells to which a spider on `start_position` may move over the given board, which is
/// the board without the spider.
pub fn get_moves_for_spider(position_cache: &Board, start_position: HexCoordinate) -> (moves: Vec<
    HexCoordinate,
>)
    ensures
        moves@.no_duplicates(),
        moves@.to_set() == spider_moves(position_cache.occupied(), start_position),
{
    let ghost occupied = position_cache.occupied();
    let ghost (first_set, second_set, third_set) = spider_rounds(occupied, start_position);
    let nothing: Vec<HexCoordinate> = Vec::new();
    let first = position_cache.slidable_neighbors(start_position, &nothing);
    let mut ignore = copy_cells(&first);
    ignore.push(start_position);
    proof {
        assert(nothing@.to_set() =~= Set::<HexCoordinate>::empty());
        lemma_slides_among_distinct(occupied, start_position, Set::empty(), 6);
        assert forall|c: HexCoordinate| first@.to_set().contains(c) <==> first_set.contains(c) by {
            lemma_slides_contains(occupied, start_position, Set::empty(), c);
            if first_set.contains(c) {
                let a = choose|a: HexCoordinate|
                    set![start_position].contains(a) && #[trigger] is_slide_to(occupied, a, c);
                assert(a == start_position);
            }
            if is_slide_to(occupied, start_position, c) {
                assert(set![start_position].contains(start_position));
            }
        }
        assert(first@.to_set() =~= first_set);
        assert(ignore@ == first@ + seq![start_position]);
        assert forall|c: HexCoordinate|
            ignore@.to_set().contains(c) <==> first_set.insert(start_position).contains(c) by {
            lemma_joined_contains(first@, seq![start_position], c);
            if c == start_position {
                assert(seq![start_position][0] == c);
            }
        }
        assert(ignore@.to_set() =~= first_set.insert(start_position));
    }
    let second = slide_from_all(position_cache, &first, &ignore);
    if second.len() == 0 {
        proof {
            assert forall|c: HexCoordinate| !second@.to_set().contains(c) by {
                if second@.contains(c) {
                    let j = choose|j: int| 0 <= j < second@.len() && second@[j] == c;
                }
            }
            assert(second_set =~= Set::<HexCoordinate>::empty());
        }
        return first;
    }
    let ghost ignored = ignore@;
    append_cells(&mut ignore, &second);
    proof {
        assert(second@.to_set().contains(second@[0])) by {
            assert(second@.contains(second@[0]));
        }
        assert(!(second_set =~= Set::<HexCoordinate>::empty()));
        assert forall|c: HexCoordinate|
            ignore@.to_set().contains(c) <==> first_set.union(second_set).insert(
                start_position,
            ).contains(c) by {
            lemma_joined_contains(ignored, second@, c);
            assert(ignored.to_set().contains(c) <==> first_set.insert(start_position).contains(c));
            assert(second@.to_set().contains(c) <==> second_set.contains(c));
        }
        assert(ignore@.to_set() =~= first_set.union(second_set).insert(start_position));
    }
    let third = slide_from_all(position_cache, &second, &ignore);
    if third.len() == 0 {
        proof {
            assert forall|c: HexCoordinate| !third@.to_set().contains(c) by {
                if third@.contains(c) {
                    let j = choose|j: int| 0 <= j < third@.len() && third@[j] == c;
                }
            }
            assert(third_set =~= Set::<HexCoordinate>::empty());
        }
        return second;
    }
    proof {
        assert(third@.to_set().contains(third@[0])) by {
            assert(third@.contains(third@[0]));
        }
        assert(!(third_set =~= Set::<HexCoordinate>::empty()));
    }
    third
}

/// A piece of another player than `player` lies on top of the cell.
pub open spec fn opposes(pieces: Seq<Piece>, cell: HexCoordinate, player: Player) -> bool {
    occupied_cells(pieces).contains(cell) && owner_at(pieces, cell) != player
}

/// A neighbour of the cell carries, on top, a piece of another player than `player`.
pub open spec fn touches_opponent(pieces: Seq<Piece>, cell: HexCoordinate, player: Player) -> bool {
    exists|o: HexCoordinate| #[trigger] o.is_adjacent(cell) && opposes(pieces, o, player)
}

/// The empty cells next to a piece on which `player` may place a piece: all of them where
/// the new piece may touch the other player's pieces, else those that touch none of them.
pub open spec fn contact_cells(
    pieces: Seq<Piece>,
    player: Player,
    may_touch_other_player: bool,
) -> Set<HexCoordinate> {
    Set::new(
        |c: HexCoordinate|
            !occupied_cells(pieces).contains(c) && touches(occupied_cells(pieces), c) && (
            may_touch_other_player || !touches_opponent(pieces, c, player)),
    )
}

/// The cell in the middle of the grid, on which the first piece of a game is placed.
pub open spec fn origin_cell() -> HexCoordinate {
    HexCoordinate { x: 0, y: 0 }
}

/// No piece is on the board.
pub open spec fn board_is_empty(pieces: Seq<Piece>) -> bool {
    forall|i: int| 0 <= i < pieces.len() ==> (#[trigger] pieces[i]).position is None
}

/// The player has a piece on the board.
pub open spec fn has_piece_on_board(pieces: Seq<Piece>, player: Player) -> bool {
    exists|i: int|
        0 <= i < pieces.len() && (#[trigger] pieces[i]).player == player && pieces[i].position
            is Some
}

/// The cells on which `player` may place a piece: the middle of the grid alone while the
/// board is empty; then the empty cells next to a piece, all of them where the new piece may
/// touch the other player's pieces, else those that touch none of them.
pub open spec fn placement_candidates(
    pieces: Seq<Piece>,
    player: Player,
    may_touch_other_player: bool,
) -> Set<HexCoordinate> {
    if board_is_empty(pieces) {
        set![origin_cell()]
    } else {
        contact_cells(pieces, player, may_touch_other_player)
    }
}

/// The cells on which `player` may place a piece under the rules of the game: the new piece
/// may touch the other player's pieces only while `player` has no piece on the board.
pub open spec fn placement_cells(pieces: Seq<Piece>, player: Player) -> Set<HexCoordinate> {
    placement_candidates(pieces, player, !has_piece_on_board(pieces, player))
}

/// One of the first `n` neighbours of the cell carries, on top, a piece of another player
/// than `player`.
pub open spec fn opposed_in_first(
    pieces: Seq<Piece>,
    cell: HexCoordinate,
    player: Player,
    n: int,
) -> bool {
    exists|d: HexDirection| d.index() < n && #[trigger] opposes(pieces, cell.neighbor(d), player)
}

/// `c` is a neighbour of one of the first `n` cells of `cells`.
pub open spec fn near_first(cells: Seq<HexCoordinate>, n: int, c: HexCoordinate) -> bool {
    exists|k: int| 0 <= k < n && (#[trigger] cells[k]).is_adjacent(c)
}

/// `c` is one of the first `n` neighbours of `cell`.
pub open spec fn near_in_first(cell: HexCoordinate, n: int, c: HexCoordinate) -> bool {
    exists|d: HexDirection| d.index() < n && #[trigger] cell.neighbor(d) == c
}

/// Tells whether a neighbour of the cell carries, on top, a piece of another player than
/// `player`.
pub fn touches_other_player(
    pieces: &Vec<Piece>,
    position_cache: &Board,
    cell: HexCoordinate,
    player: Player,
) -> (touched: bool)
    requires
        pieces_wf(pieces@),
        position_cache@ == board_of(pieces@),
        position_cache.wf(),
    ensures
        touched == touches_opponent(pieces@, cell, player),
{
    let directions = all_directions();
    let mut touched = false;
    let mut i: usize = 0;
    while i < 6
        invariant
            i <= 6,
            pieces_wf(pieces@),
            position_cache@ == board_of(pieces@),
            position_cache.wf(),
            forall|k: int| 0 <= k < 6 ==> directions[k] == HexDirection::from_index(k),
            touched == opposed_in_first(pieces@, cell, player, i as int),
        decreases 6 - i,
    {
        let surrounding = cell.get_relative(&directions[i]);
        let ghost before = touched;
        match position_cache.top_at(&surrounding) {
            Some(id) => {
                proof {
                    lemma_stack_top(pieces@, surrounding);
                }
                if pieces[(id - 1) as usize].player != player {
                    touched = true;
                }
            },
            None => {},
        }
        proof {
            let d = HexDirection::from_index(i as int);
            assert(d.index() == i);
            if opposes(pieces@, surrounding, player) {
                assert(d.index() < i + 1 && opposes(pieces@, cell.neighbor(d), player));
            }
            if before {
                let e = choose|e: HexDirection|
                    e.index() < i && #[trigger] opposes(pieces@, cell.neighbor(e), player);
                assert(e.index() < i + 1 && opposes(pieces@, cell.neighbor(e), player));
            }
            if opposed_in_first(pieces@, cell, player, i + 1) {
                let e = choose|e: HexDirection|
                    e.index() < i + 1 && #[trigger] opposes(pieces@, cell.neighbor(e), player);
                if e.index() < i {
                    assert(opposed_in_first(pieces@, cell, player, i as int));
                } else {
                    lemma_direction_index(e);
                    assert(e == d);
                }
            }
        }
        i += 1;
    }
    proof {
        if touched {
            let e = choose|e: HexDirection|
                e.index() < 6 && #[trigger] opposes(pieces@, cell.neighbor(e), player);
            let o = cell.neighbor(e);
            assert(cell.is_adjacent(o));
            lemma_adjacent_symmetric(cell, o);
            assert(o.is_adjacent(cell) && opposes(pieces@, o, player));
        }
        if touches_opponent(pieces@, cell, player) {
            let o = choose|o: HexCoordinate| #[trigger]
                o.is_adjacent(cell) && opposes(pieces@, o, player);
            assert(position_cache@.dom().contains(o));
            lemma_adjacent_symmetric(o, cell);
            let e = choose|e: HexDirection| cell.neighbor(e) == o;
            lemma_direction_index(e);
            assert(e.index() < 6 && opposes(pieces@, cell.neighbor(e), player));
        }
    }
    touched
}

/// The cells on which the player may place a piece, each once: the middle of the grid alone
/// while the board is empty, then the empty cells next to a piece, without those that touch
/// a piece of another player unless that is allowed.
pub fn get_moves_for_new_piece(
    pieces: &Vec<Piece>,
    position_cache: &Board,
    current_player: Player,
    may_touch_other_player: bool,
) -> (valid_moves: Vec<HexCoordinate>)
    requires
        pieces_wf(pieces@),
        position_cache@ == board_of(pieces@),
        position_cache.wf(),
    ensures
        valid_moves@.no_duplicates(),
        valid_moves@.to_set() == placement_candidates(
            pieces@,
            current_player,
            may_touch_other_player,
        ),
{
    let ghost occupied = occupied_cells(pieces@);
    let directions = all_directions();
    let keys = position_cache.coordinates();
    let mut valid_moves: Vec<HexCoordinate> = Vec::new();
    assert(position_cache@.dom() =~= occupied);
    if keys.len() == 0 {
        valid_moves.push(HexCoordinate::origin());
        proof {
            assert forall|k: int| 0 <= k < pieces@.len() implies (#[trigger] pieces@[k]).position
                is None by {
                if pieces@[k].position is Some {
                    let cell = pieces@[k].position->Some_0;
                    assert(occupied.contains(cell));
                    assert(keys@.to_set().contains(cell));
                    assert(keys@.contains(cell));
                }
            }
            assert(valid_moves@[0] == origin_cell());
            assert(valid_moves@.to_set() =~= set![origin_cell()]);
        }
        return valid_moves;
    }
    proof {
        assert(keys@.contains(keys@[0]));
        assert(keys@.to_set().contains(keys@[0]));
        let k = choose|k: int|
            0 <= k < pieces@.len() && (#[trigger] pieces@[k]).position == Some(keys@[0]);
        assert(!board_is_empty(pieces@));
    }
    let mut already_checked = CellSet::new();
    let mut i: usize = 0;
    while i < keys.len()
        invariant
            i <= keys@.len(),
            pieces_wf(pieces@),
            position_cache@ == board_of(pieces@),
            position_cache.wf(),
            occupied == occupied_cells(pieces@),
            keys@.to_set() == occupied,
            forall|k: int| 0 <= k < 6 ==> directions[k] == HexDirection::from_index(k),
            valid_moves@.no_duplicates(),
            forall|c: HexCoordinate| #[trigger]
                cell_set_contents(already_checked).contains(c) <==> near_first(keys@, i as int, c),
            forall|c: HexCoordinate| #[trigger]
                valid_moves@.contains(c) <==> cell_set_contents(already_checked).contains(c)
                    && contact_cells(pieces@, current_player, may_touch_other_player).contains(c),
        decreases keys@.len() - i,
    {
        let position = keys[i];
        assert(keys@.to_set().contains(position)) by {
            assert(keys@.contains(keys@[i as int]));
        }
        assert(position_cache@.dom().contains(position));
        let mut j: usize = 0;
        while j < 6
            invariant
                j <= 6,
                i < keys@.len(),
                position == keys@[i as int],
                occupied.contains(position),
                pieces_wf(pieces@),
                position_cache@ == board_of(pieces@),
                position_cache.wf(),
                occupied == occupied_cells(pieces@),
                forall|k: int| 0 <= k < 6 ==> directions[k] == HexDirection::from_index(k),
                valid_moves@.no_duplicates(),
                forall|c: HexCoordinate| #[trigger]
                    cell_set_contents(already_checked).contains(c) <==> near_first(
                        keys@,
                        i as int,
                        c,
                    ) || near_in_first(position, j as int, c),
                forall|c: HexCoordinate| #[trigger]
                    valid_moves@.contains(c) <==> cell_set_contents(already_checked).contains(c)
                        && contact_cells(
                        pieces@,
                        current_player,
                        may_touch_other_player,
                    ).contains(c),
            decreases 6 - j,
        {
            let position_to_check = position.get_relative(&directions[j]);
            let ghost checked_before = cell_set_contents(already_checked);
            let ghost valid_before = valid_moves@;
            if !already_checked.contains(&position_to_check) {
                already_checked.insert(position_to_check);
                if !position_cache.is_occupied(&position_to_check) {
                    let touched = !may_touch_other_player && touches_other_player(
                        pieces,
                        position_cache,
                        position_to_check,
                        current_player,
                    );
                    if !touched {
                        valid_moves.push(position_to_check);
                        assert(valid_moves@[valid_moves@.len() - 1] == position_to_check);
                    }
                }
            }
            proof {
                let d = HexDirection::from_index(j as int);
                assert(d.index() == j);
                assert(position.is_adjacent(position_to_check));
                assert(touches(occupied, position_to_check));
                assert forall|c: HexCoordinate| #[trigger]
                    cell_set_contents(already_checked).contains(c) <==> near_first(
                        keys@,
                        i as int,
                        c,
                    ) || near_in_first(position, j + 1, c) by {
                    if near_in_first(position, j as int, c) {
                        let e = choose|e: HexDirection|
                            e.index() < j && #[trigger] position.neighbor(e) == c;
                        assert(e.index() < j + 1 && position.neighbor(e) == c);
                    }
                    if c == position_to_check {
                        assert(d.index() < j + 1 && position.neighbor(d) == c);
                    }
                    if near_in_first(position, j + 1, c) {
                        let e = choose|e: HexDirection|
                            e.index() < j + 1 && #[trigger] position.neighbor(e) == c;
                        if e.index() < j {
                            assert(near_in_first(position, j as int, c));
                        } else {
                            lemma_direction_index(e);
                        }
                    }
                }
                let wanted = contact_cells(pieces@, current_player, may_touch_other_player);
                let pushed = valid_moves@.len() > valid_before.len();
                assert(pushed ==> valid_moves@ == valid_before.push(position_to_check));
                assert(!pushed ==> valid_moves@ == valid_before);
                assert(pushed <==> !checked_before.contains(position_to_check) && wanted.contains(
                    position_to_check,
                ));
                if pushed {
                    assert(!valid_before.contains(position_to_check));
                    lemma_joined_distinct(valid_before, seq![position_to_check]);
                    assert(valid_moves@ =~= valid_before + seq![position_to_check]);
                }
                assert forall|c: HexCoordinate| #[trigger]
                    valid_moves@.contains(c) <==> cell_set_contents(already_checked).contains(c)
                        && wanted.contains(c) by {
                    if pushed {
                        lemma_joined_contains(valid_before, seq![position_to_check], c);
                        assert(seq![position_to_check][0] == position_to_check);
                    }
                }
            }
            j += 1;
        }
        proof {
            assert forall|c: HexCoordinate| #[trigger]
                cell_set_contents(already_checked).contains(c) <==> near_first(keys@, i + 1, c) by {
                if near_first(keys@, i as int, c) {
                    let k = choose|k: int| 0 <= k < i && (#[trigger] keys@[k]).is_adjacent(c);
                    assert(0 <= k < i + 1 && keys@[k].is_adjacent(c));
                }
                if near_in_first(position, 6, c) {
                    assert(keys@[i as int].is_adjacent(c));
                }
                if near_first(keys@, i + 1, c) {
                    let k = choose|k: int| 0 <= k < i + 1 && (#[trigger] keys@[k]).is_adjacent(c);
                    if k < i {
                        assert(near_first(keys@, i as int, c));
                    } else {
                        let e = choose|e: HexDirection| position.neighbor(e) == c;
                        lemma_direction_index(e);
                        assert(e.index() < 6 && position.neighbor(e) == c);
                    }
                }
            }
        }
        i += 1;
    }
    proof {
        let wanted = contact_cells(pieces@, current_player, may_touch_other_player);
        assert forall|c: HexCoordinate| valid_moves@.to_set().contains(c) <==> wanted.contains(c) by {
            if wanted.contains(c) {
                let o = choose|o: HexCoordinate| occupied.contains(o) && #[trigger] o.is_adjacent(c);
                assert(keys@.to_set().contains(o));
                let k = choose|k: int| 0 <= k < keys@.len() && keys@[k] == o;
                assert(keys@[k].is_adjacent(c));
                assert(near_first(keys@, i as int, c));
            }
        }
        assert(valid_moves@.to_set() =~= wanted);
    }
    valid_moves
}

} // verus!
