//! Board geometry: tiles, slots, the initial board, tile placement and the
//! size of a hotel's chain.

use vstd::prelude::*;

use crate::pricing::Hotel;

verus! {

/// Number of rows of the board.
pub const ROWS: u8 = 9;

/// Number of columns of the board.
pub const COLS: u8 = 12;

/// Number of coordinates of the board, `ROWS * COLS`.
pub const TILES: usize = 108;

/// A (row, column) coordinate of the board.
#[derive(Clone, Copy, Debug, PartialEq, Eq, Structural)]
pub struct Tile {
    pub row: u8,
    pub col: u8,
}

/// Whether (row, col) lies on the board.
pub open spec fn in_bounds(row: int, col: int) -> bool {
    0 <= row < ROWS && 0 <= col < COLS
}

impl Tile {
    /// The tile at (row, col), or `None` where that coordinate lies off the board.
    pub fn new(row: u8, col: u8) -> (r: Option<Tile>)
        ensures
            r == (if in_bounds(row as int, col as int) {
                Some((Tile { row: row, col: col }))
            } else {
                None
            }),
    {
        if row < ROWS && col < COLS {
            Some(Tile { row: row, col: col })
        } else {
            None
        }
    }

    pub fn row(&self) -> (r: u8)
        ensures
            r == self.row,
    {
        self.row
    }

    pub fn col(&self) -> (r: u8)
        ensures
            r == self.col,
    {
        self.col
    }
}

/// One cell of the board: its coordinate, whether a tile lies there, and the
/// hotel that claims it, if any.
#[derive(Clone, Copy, Debug, PartialEq, Eq, Structural)]
pub struct Slot {
    pub row: u8,
    pub col: u8,
    pub has_tile: bool,
    pub hotel: Option<Hotel>,
}

impl Slot {
    /// A slot is claimed by a hotel only where a tile lies.
    pub open spec fn wf(&self) -> bool {
        self.hotel.is_some() ==> self.has_tile
    }
}

/// The board: one slot per coordinate, in row-major order.
pub struct Board {
    pub slots: Vec<Slot>,
}

impl View for Board {
    type V = Seq<Slot>;

    open spec fn view(&self) -> Seq<Slot> {
        self.slots@
    }
}

/// The coordinate at position `k` of the row-major order.
pub open spec fn coord_at(k: int) -> Tile {
    Tile { row: (k / COLS as int) as u8, col: (k % COLS as int) as u8 }
}

/// The slot at position `k` of a fresh board whose pre-placed tiles are `starting`.
pub open spec fn initial_slot_at(starting: Seq<Tile>, k: int) -> Slot {
    Slot {
        row: coord_at(k).row,
        col: coord_at(k).col,
        has_tile: starting.contains(coord_at(k)),
        hotel: None,
    }
}

/// The slots of a fresh board whose pre-placed tiles are `starting`.
pub open spec fn initial_slots_spec(starting: Seq<Tile>) -> Seq<Slot> {
    Seq::new(TILES as nat, |k: int| initial_slot_at(starting, k))
}

/// Every coordinate of the board, in row-major order.
pub open spec fn all_coords() -> Seq<Tile> {
    Seq::new(TILES as nat, |k: int| coord_at(k))
}

/// `slots` with a tile laid on the slot at `tile`'s coordinate.
pub open spec fn mark_tile(slots: Seq<Slot>, tile: Tile) -> Seq<Slot> {
    slots.map_values(
        |s: Slot|
            if s.row == tile.row && s.col == tile.col {
                Slot { row: s.row, col: s.col, has_tile: true, hotel: s.hotel }
            } else {
                s
            },
    )
}

/// Whether slot `s` holds a tile of `hotel`'s chain.
pub open spec fn owned_by(s: Slot, hotel: Hotel) -> bool {
    s.has_tile && s.hotel == Some(hotel)
}

/// Slots `a` and `b` lie side by side: in one row and neighbouring columns,
/// or in one column and neighbouring rows.
pub open spec fn adjacent(a: Slot, b: Slot) -> bool {
    (a.row == b.row && (a.col + 1 == b.col || b.col + 1 == a.col)) || (a.col == b.col && (a.row
        + 1 == b.row || b.row + 1 == a.row))
}

/// `path` walks over positions of `slots` that hold a tile of `hotel`, each
/// position next to the one before it.
pub open spec fn is_chain_path(slots: Seq<Slot>, hotel: Hotel, path: Seq<int>) -> bool {
    &&& path.len() > 0
    &&& forall|k: int|
        0 <= k < path.len() ==> 0 <= #[trigger] path[k] < slots.len() && owned_by(
            slots[path[k]],
            hotel,
        )
    &&& forall|k: int|
        0 <= k < path.len() - 1 ==> adjacent(#[trigger] slots[path[k]], slots[path[k + 1]])
}

/// Positions `from` and `to` lie in one chain of `hotel`.
pub open spec fn linked(slots: Seq<Slot>, hotel: Hotel, from: int, to: int) -> bool {
    exists|path: Seq<int>|
        #[trigger] is_chain_path(slots, hotel, path) && path[0] == from && path.last() == to
}

/// The positions of the chain of `hotel` through position `seed`.
pub open spec fn chain_of(slots: Seq<Slot>, hotel: Hotel, seed: int) -> Set<int> {
    Set::new(|j: int| linked(slots, hotel, seed, j))
}

/// `i` is the first position, in board order, of a slot holding a tile of `hotel`.
pub open spec fn is_first_owned(slots: Seq<Slot>, hotel: Hotel, i: int) -> bool {
    &&& 0 <= i < slots.len()
    &&& owned_by(slots[i], hotel)
    &&& forall|j: int| 0 <= j < i ==> !owned_by(slots[j], hotel)
}

/// Size of `hotel`'s chain: the connected group of adjacent tile-holding
/// slots that it claims, taken through the first such slot in board order;
/// 0 where it claims none.
pub open spec fn chain_size(slots: Seq<Slot>, hotel: Hotel) -> nat {
    if exists|i: int| is_first_owned(slots, hotel, i) {
        chain_of(slots, hotel, choose|i: int| is_first_owned(slots, hotel, i)).len()
    } else {
        0
    }
}

/// A walk that starts in a set closed under stepping to adjacent slots of
/// the chain stays in that set.
proof fn lemma_closed_set_holds_path(
    slots: Seq<Slot>,
    hotel: Hotel,
    closed: Set<int>,
    path: Seq<int>,
    k: int,
)
    requires
        is_chain_path(slots, hotel, path),
        closed.contains(path[0]),
        0 <= k < path.len(),
        forall|a: int, b: int|
            closed.contains(a) && 0 <= b < slots.len() && owned_by(slots[b], hotel)
                && #[trigger] adjacent(slots[a], slots[b]) ==> closed.contains(b),
    ensures
        closed.contains(path[k]),
    decreases k,
{
    if k > 0 {
        lemma_closed_set_holds_path(slots, hotel, closed, path, k - 1);
        assert(adjacent(slots[path[k - 1]], slots[path[(k - 1) + 1]]));
    }
}

/// A fresh board has one slot per coordinate: `ROWS * COLS` slots with
/// pairwise distinct coordinates, all on the board, every coordinate of the
/// board among them. A slot holds a tile exactly when its coordinate is among
/// the starting tiles, and no slot is claimed by a hotel.
pub proof fn lemma_initial_slots_cover_board(starting: Seq<Tile>)
    ensures
        initial_slots_spec(starting).len() == ROWS * COLS,
        forall|i: int, j: int|
            0 <= i < j < initial_slots_spec(starting).len() ==> (#[trigger] initial_slots_spec(
                starting,
            )[i]).row != (#[trigger] initial_slots_spec(starting)[j]).row
                || initial_slots_spec(starting)[i].col != initial_slots_spec(starting)[j].col,
        forall|i: int|
            0 <= i < initial_slots_spec(starting).len() ==> {
                let s = #[trigger] initial_slots_spec(starting)[i];
                &&& in_bounds(s.row as int, s.col as int)
                &&& s.hotel is None
                &&& s.wf()
                &&& (s.has_tile <==> starting.contains(Tile { row: s.row, col: s.col }))
            },
        forall|row: int, col: int|
            #![trigger in_bounds(row, col)]
            in_bounds(row, col) ==> initial_slots_spec(starting)[row * COLS + col].row == row
                && initial_slots_spec(starting)[row * COLS + col].col == col,
{
    let slots = initial_slots_spec(starting);
    assert forall|row: int, col: int| in_bounds(row, col) implies slots[row * COLS + col].row
        == row && slots[row * COLS + col].col == col by {
        assert(0 <= row * COLS + col < TILES) by (nonlinear_arith)
            requires
                0 <= row < 9,
                0 <= col < 12,
        ;
        assert((row * 12 + col) / 12 == row && (row * 12 + col) % 12 == col) by (nonlinear_arith)
            requires
                0 <= row < 9,
                0 <= col < 12,
        ;
    }
}

/// The coordinates of the board are pairwise distinct.
pub proof fn lemma_all_coords_distinct()
    ensures
        all_coords().no_duplicates(),
{
    assert forall|i: int, j: int|
        0 <= i < all_coords().len() && 0 <= j < all_coords().len() && i != j implies all_coords()[i]
        != all_coords()[j] by {
        assert(i == 12 * (i / 12) + i % 12 && j == 12 * (j / 12) + j % 12) by (nonlinear_arith)
            requires
                0 <= i,
                0 <= j,
        ;
    }
}

/// Every coordinate of the board, in row-major order.
pub fn board_tiles() -> (r: Vec<Tile>)
    ensures
        r@ == all_coords(),
{
    let mut tiles: Vec<Tile> = Vec::new();
    let mut k: usize = 0;
    while k < TILES
        invariant
            k <= TILES,
            tiles@ == all_coords().subrange(0, k as int),
        decreases TILES - k,
    {
        let row = (k / COLS as usize) as u8;
        let col = (k % COLS as usize) as u8;
        tiles.push(Tile { row: row, col: col });
        k += 1;
        assert(tiles@ =~= all_coords().subrange(0, k as int));
    }
    assert(tiles@ =~= all_coords());
    tiles
}

/// Whether `tiles` holds the tile at (row, col).
pub fn has_tile_on_slot(tiles: &Vec<Tile>, row: u8, col: u8) -> (r: bool)
    ensures
        r == tiles@.contains(Tile { row: row, col: col }),
{
    let target = Tile { row: row, col: col };
    let mut i: usize = 0;
    while i < tiles.len()
        invariant
            i <= tiles.len(),
            target == (Tile { row: row, col: col }),
            forall|j: int| 0 <= j < i ==> tiles@[j] != target,
        decreases tiles.len() - i,
    {
        let t = tiles[i];
        if t.row == row && t.col == col {
            assert(tiles@[i as int] == target);
            return true;
        }
        i += 1;
    }
    false
}

/// The slots of a fresh board: one per coordinate in row-major order, with a
/// tile exactly where `starting_tiles` has one, and no hotel anywhere.
pub fn initial_slots(starting_tiles: Vec<Tile>) -> (r: Vec<Slot>)
    ensures
        r@ == initial_slots_spec(starting_tiles@),
{
    let mut slots: Vec<Slot> = Vec::new();
    let mut k: usize = 0;
    while k < TILES
        invariant
            k <= TILES,
            slots@ == initial_slots_spec(starting_tiles@).subrange(0, k as int),
        decreases TILES - k,
    {
        let row = (k / COLS as usize) as u8;
        let col = (k % COLS as usize) as u8;
        let has_tile = has_tile_on_slot(&starting_tiles, row, col);
        slots.push(Slot { row: row, col: col, has_tile: has_tile, hotel: None });
        k += 1;
        assert(slots@ =~= initial_slots_spec(starting_tiles@).subrange(0, k as int));
    }
    assert(slots@ =~= initial_slots_spec(starting_tiles@));
    slots
}

/// The board with a tile laid at `tile`'s coordinate; every other slot, and
/// the hotel of that slot, are kept.
pub fn place_tile_on_board(board: &Board, tile: &Tile) -> (r: Board)
    ensures
        r@ == mark_tile(board@, *tile),
{
    let mut slots: Vec<Slot> = Vec::new();
    let mut i: usize = 0;
    while i < board.slots.len()
        invariant
            i <= board.slots.len(),
            slots@ == mark_tile(board@, *tile).subrange(0, i as int),
        decreases board.slots.len() - i,
    {
        let s = board.slots[i];
        if s.row == tile.row && s.col == tile.col {
            slots.push(Slot { row: s.row, col: s.col, has_tile: true, hotel: s.hotel });
        } else {
            slots.push(s);
        }
        i += 1;
        assert(slots@ =~= mark_tile(board@, *tile).subrange(0, i as int));
    }
    assert(slots@ =~= mark_tile(board@, *tile));
    Board { slots: slots }
}

/// Whether slots `a` and `b` lie side by side.
fn adjacent_slots(a: &Slot, b: &Slot) -> (r: bool)
    ensures
        r == adjacent(*a, *b),
{
    let (ar, ac, br, bc) = (a.row as u16, a.col as u16, b.row as u16, b.col as u16);
    (ar == br && (ac + 1 == bc || bc + 1 == ac)) || (ac == bc && (ar + 1 == br || br + 1 == ar))
}

/// Position of the first slot holding a tile of `hotel`, or `None` where
/// there is none.
fn first_owned(board: &Board, hotel: Hotel) -> (r: Option<usize>)
    ensures
        match r {
            Some(i) => is_first_owned(board@, hotel, i as int),
            None => forall|j: int| 0 <= j < board@.len() ==> !owned_by(board@[j], hotel),
        },
{
    let mut i: usize = 0;
    while i < board.slots.len()
        invariant
            i <= board.slots.len(),
            forall|j: int| 0 <= j < i ==> !owned_by(board@[j], hotel),
        decreases board.slots.len() - i,
    {
        let s = board.slots[i];
        if s.has_tile && s.hotel == Some(hotel) {
            return Some(i);
        }
        i += 1;
    }
    None
}

/// Size of `hotel`'s chain: a flood fill over adjacent tile-holding slots
/// that it claims, from the first such slot in board order.
pub fn hotel_chain_size(board: &Board, hotel: Hotel) -> (r: usize)
    ensures
        r == chain_size(board@, hotel),
{
    let n = board.slots.len();
    let seed = match first_owned(board, hotel) {
        Some(i) => i,
        None => {
            return 0;
        },
    };
    let mut visited: Vec<bool> = Vec::new();
    let mut k: usize = 0;
    while k < n
        invariant
            k <= n,
            visited@.len() == k,
            forall|j: int| 0 <= j < k ==> !visited@[j],
        decreases n - k,
    {
        visited.push(false);
        k += 1;
    }
    visited[seed] = true;
    let mut stack: Vec<usize> = Vec::new();
    stack.push(seed);
    let mut count: usize = 1;
    let ghost slots = board@;
    let ghost mut seen: Set<int> = set![seed as int];
    let ghost mut done: Set<int> = Set::empty();
    proof {
        assert(seen =~= Set::new(|j: int| 0 <= j < n && visited@[j]));
        assert(is_chain_path(slots, hotel, seq![seed as int]));
        assert(stack@[0] == seed);
        assert(stack@.contains(seed));
        vstd::set_lib::lemma_int_range(0, n as int);
        vstd::set_lib::lemma_len_subset(seen, vstd::set_lib::set_int_range(0, n as int));
    }
    while stack.len() > 0
        invariant
            slots == board@,
            n == slots.len(),
            visited@.len() == n,
            is_first_owned(slots, hotel, seed as int),
            seen.contains(seed as int),
            seen == Set::new(|j: int| 0 <= j < n && visited@[j]),
            seen.finite(),
            count == seen.len(),
            seen.len() <= n,
            vstd::set_lib::set_int_range(0, n as int).finite(),
            vstd::set_lib::set_int_range(0, n as int).len() == n,
            forall|q: int| 0 <= q < stack@.len() ==> seen.contains(#[trigger] stack@[q] as int),
            done.subset_of(seen),
            forall|a: int| seen.contains(a) ==> done.contains(a) || stack@.contains(a as usize),
            forall|a: int, b: int|
                done.contains(a) && 0 <= b < n && owned_by(slots[b], hotel) && #[trigger] adjacent(
                    slots[a],
                    slots[b],
                ) ==> seen.contains(b),
            forall|a: int| seen.contains(a) ==> linked(slots, hotel, seed as int, a),
        decreases 2 * (n - seen.len()) + stack.len(),
    {
        let ghost before_pop = stack@;
        let i = stack.pop().unwrap();
        let ghost bound = 2 * (n - seen.len()) + stack.len();
        proof {
            assert(seen.contains(before_pop[before_pop.len() - 1] as int));
            assert forall|a: int| seen.contains(a) implies done.contains(a) || stack@.contains(
                a as usize,
            ) || a == i by {
                if !done.contains(a) {
                    let q = choose|q: int| 0 <= q < before_pop.len() && before_pop[q] == a as usize;
                    if q < before_pop.len() - 1 {
                        assert(stack@[q] == a as usize);
                    }
                }
            }
        }
        let mut j: usize = 0;
        while j < n
            invariant
                slots == board@,
                n == slots.len(),
                visited@.len() == n,
                0 <= i < n,
                seen.contains(i as int),
                seen.contains(seed as int),
                seen == Set::new(|j: int| 0 <= j < n && visited@[j]),
                seen.finite(),
                count == seen.len(),
                seen.len() <= n,
                vstd::set_lib::set_int_range(0, n as int).finite(),
                vstd::set_lib::set_int_range(0, n as int).len() == n,
                2 * (n - seen.len()) + stack.len() <= bound,
                forall|q: int| 0 <= q < stack@.len() ==> seen.contains(#[trigger] stack@[q] as int),
                done.subset_of(seen),
                forall|a: int|
                    seen.contains(a) ==> done.contains(a) || stack@.contains(a as usize) || a == i,
                forall|a: int, b: int|
                    done.contains(a) && 0 <= b < n && owned_by(slots[b], hotel)
                        && #[trigger] adjacent(slots[a], slots[b]) ==> seen.contains(b),
                forall|b: int|
                    0 <= b < j && owned_by(slots[b], hotel) && adjacent(slots[i as int], slots[b])
                        ==> seen.contains(b),
                forall|a: int| seen.contains(a) ==> linked(slots, hotel, seed as int, a),
            decreases n - j,
        {
            let s = board.slots[j];
            if !visited[j] && s.has_tile && s.hotel == Some(hotel) && adjacent_slots(
                &board.slots[i],
                &s,
            ) {
                proof {
                    let p = choose|p: Seq<int>|
                        #[trigger] is_chain_path(slots, hotel, p) && p[0] == seed as int && p.last()
                            == i as int;
                    let p2 = p.push(j as int);
                    assert(p2[p2.len() - 2] == i as int);
                    assert(is_chain_path(slots, hotel, p2));
                    assert(linked(slots, hotel, seed as int, j as int));
                    assert(!seen.contains(j as int));
                    vstd::set_lib::lemma_len_subset(
                        seen.insert(j as int),
                        vstd::set_lib::set_int_range(0, n as int),
                    );
                }
                let ghost old_stack = stack@;
                visited[j] = true;
                stack.push(j);
                count += 1;
                proof {
                    seen = seen.insert(j as int);
                    assert(seen =~= Set::new(|x: int| 0 <= x < n && visited@[x]));
                    assert forall|a: int| seen.contains(a) implies done.contains(a)
                        || stack@.contains(a as usize) || a == i by {
                        if a != j && !done.contains(a) && a != i {
                            let q = choose|q: int|
                                0 <= q < old_stack.len() && old_stack[q] == a as usize;
                            assert(stack@[q] == a as usize);
                        } else if a == j {
                            assert(stack@[stack@.len() - 1] == j);
                        }
                    }
                }
            }
            j += 1;
        }
        proof {
            done = done.insert(i as int);
        }
    }
    proof {
        let root = choose|x: int| is_first_owned(slots, hotel, x);
        assert(root == seed) by {
            if root < seed {
                assert(!owned_by(slots[root], hotel));
            } else if seed < root {
                assert(!owned_by(slots[seed as int], hotel));
            }
        }
        assert forall|x: int| linked(slots, hotel, seed as int, x) implies seen.contains(x) by {
            let p = choose|p: Seq<int>|
                #[trigger] is_chain_path(slots, hotel, p) && p[0] == seed as int && p.last() == x;
            assert forall|a: int| seen.contains(a) implies done.contains(a) by {
                assert(!stack@.contains(a as usize));
            }
            lemma_closed_set_holds_path(slots, hotel, seen, p, p.len() - 1);
        }
        assert(seen =~= chain_of(slots, hotel, seed as int));
    }
    count
}

} // verus!
