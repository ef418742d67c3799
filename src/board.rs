//! The board: sixteen cells in row-major order and the score.
use vstd::prelude::*;
use crate::lane::{
    is_power_of_two, is_tile, lane_outcome, lane_sum, lemma_outcome_sum, lemma_outcome_tiles,
    lemma_unchanged_lane, slide_lane,
};
use crate::random::random_below;

verus! {

/// The edge the tiles slide toward.
#[derive(Clone, Copy, Debug, PartialEq, Eq, Structural)]
pub enum Direction {
    Left,
    Right,
    Down,
    Up,
}

/// The grid (index = row * 4 + column) and the score.
#[derive(Clone, Copy, Debug)]
pub struct Board {
    pub data: [u64; 16],
    pub score: u64,
}

/// The cell at position `pos` (counted from the edge inward) of lane `lane`.
pub open spec fn cell_of(dir: Direction, lane: int, pos: int) -> int {
    match dir {
        Direction::Up => lane + 4 * pos,
        Direction::Down => lane + 12 - 4 * pos,
        Direction::Left => lane * 4 + pos,
        Direction::Right => lane * 4 + 3 - pos,
    }
}

/// The lane that holds cell `k`.
pub open spec fn lane_id(dir: Direction, k: int) -> int {
    match dir {
        Direction::Up | Direction::Down => k % 4,
        Direction::Left | Direction::Right => k / 4,
    }
}

/// The position of cell `k` in its lane.
pub open spec fn lane_pos(dir: Direction, k: int) -> int {
    match dir {
        Direction::Up => k / 4,
        Direction::Down => 3 - k / 4,
        Direction::Left => k % 4,
        Direction::Right => 3 - k % 4,
    }
}

/// The values of lane `lane`, from the edge inward.
pub open spec fn lane_cells(s: Seq<u64>, dir: Direction, lane: int) -> Seq<u64> {
    seq![
        s[cell_of(dir, lane, 0)],
        s[cell_of(dir, lane, 1)],
        s[cell_of(dir, lane, 2)],
        s[cell_of(dir, lane, 3)],
    ]
}

/// The grid after sliding and merging every lane toward `dir`.
pub open spec fn moved(s: Seq<u64>, dir: Direction) -> Seq<u64> {
    Seq::new(16, |k: int| lane_outcome(lane_cells(s, dir, lane_id(dir, k))).0[lane_pos(dir, k)])
}

/// The score earned by the first `n` lanes.
pub open spec fn gain_of_lanes(s: Seq<u64>, dir: Direction, n: int) -> int
    decreases n,
{
    if n <= 0 {
        0
    } else {
        gain_of_lanes(s, dir, n - 1) + lane_outcome(lane_cells(s, dir, n - 1)).1
    }
}

/// The sum of the values in the first `n` lanes.
pub open spec fn sum_of_lanes(s: Seq<u64>, dir: Direction, n: int) -> int
    decreases n,
{
    if n <= 0 {
        0
    } else {
        sum_of_lanes(s, dir, n - 1) + lane_sum(lane_cells(s, dir, n - 1))
    }
}

/// The score a move toward `dir` earns.
pub open spec fn move_gain(s: Seq<u64>, dir: Direction) -> int {
    gain_of_lanes(s, dir, 4)
}

/// The sum of all sixteen cells.
pub open spec fn total(s: Seq<u64>) -> int {
    s[0] + s[1] + s[2] + s[3] + s[4] + s[5] + s[6] + s[7] + s[8] + s[9] + s[10] + s[11] + s[12]
        + s[13] + s[14] + s[15]
}

/// The score and the tiles leave room for a move: no doubled tile and no new
/// score exceeds `u64::MAX`.
pub open spec fn room_for_move(b: Board) -> bool {
    b.score + total(b.data@) <= u64::MAX
}

proof fn lemma_cell_index(dir: Direction)
    ensures
        forall|k: int|
            #![trigger lane_id(dir, k)]
            #![trigger lane_pos(dir, k)]
            0 <= k < 16 ==> 0 <= lane_id(dir, k) < 4 && 0 <= lane_pos(dir, k) < 4 && cell_of(
                dir,
                lane_id(dir, k),
                lane_pos(dir, k),
            ) == k,
        forall|l: int, p: int|
            #![trigger cell_of(dir, l, p)]
            0 <= l < 4 && 0 <= p < 4 ==> 0 <= cell_of(dir, l, p) < 16 && lane_id(
                dir,
                cell_of(dir, l, p),
            ) == l && lane_pos(dir, cell_of(dir, l, p)) == p,
{
}

/// Cells `i` and `j` are orthogonal neighbours on the grid.
pub open spec fn adjacent(i: int, j: int) -> bool {
    &&& 0 <= i < 16
    &&& 0 <= j < 16
    &&& (j == i + 1 && i % 4 != 3) || (j == i - 1 && i % 4 != 0) || j == i + 4 || j == i - 4
}

/// A lost grid: no empty cell and no two equal neighbours.
pub open spec fn is_loss(s: Seq<u64>) -> bool {
    &&& forall|k: int| 0 <= k < 16 ==> s[k] != 0
    &&& forall|i: int, j: int| #[trigger] adjacent(i, j) ==> s[i] != s[j]
}

/// The empty cells among the first `n`, in increasing order.
pub open spec fn vacant(s: Seq<u64>, n: int) -> Seq<usize>
    decreases n,
{
    if n <= 0 {
        Seq::empty()
    } else if s[n - 1] == 0 {
        vacant(s, n - 1).push((n - 1) as usize)
    } else {
        vacant(s, n - 1)
    }
}

/// Every cell is empty or holds a power of two no smaller than 2.
pub open spec fn tiles_ok(s: Seq<u64>) -> bool {
    forall|k: int| 0 <= k < 16 ==> is_tile(#[trigger] s[k])
}

/// The grid has an empty cell.
pub open spec fn has_vacancy(s: Seq<u64>) -> bool {
    exists|k: int| 0 <= k < 16 && s[k] == 0
}

/// `after` is `before` with one of its empty cells now holding a 2 or a 4.
pub open spec fn spawned(before: Seq<u64>, after: Seq<u64>) -> bool {
    exists|k: int|
        0 <= k < 16 && before[k] == 0 && (after[k] == 2 || after[k] == 4) && after == before.update(
            k,
            after[k],
        )
}

/// The tile a roll of a ten-sided die gives: a 4 on zero, a 2 otherwise.
pub open spec fn tile_of_roll(roll: usize) -> u64 {
    if roll == 0 {
        4
    } else {
        2
    }
}

proof fn lemma_vacant(s: Seq<u64>, n: int)
    requires
        0 <= n <= s.len(),
        n <= 16,
    ensures
        forall|j: int|
            0 <= j < vacant(s, n).len() ==> 0 <= #[trigger] vacant(s, n)[j] < n && s[vacant(
                s,
                n,
            )[j] as int] == 0,
        (exists|k: int| 0 <= k < n && s[k] == 0) ==> vacant(s, n).len() > 0,
    decreases n,
{
    if n > 0 {
        lemma_vacant(s, n - 1);
        assert forall|j: int| 0 <= j < vacant(s, n - 1).len() implies #[trigger] vacant(s, n)[j]
            == vacant(s, n - 1)[j] by {}
        if s[n - 1] != 0 {
            if exists|k: int| 0 <= k < n && s[k] == 0 {
                let k = choose|k: int| 0 <= k < n && s[k] == 0;
                assert(0 <= k < n - 1);
            }
        }
    }
}

proof fn lemma_lanes_cover(s: Seq<u64>, dir: Direction)
    requires
        s.len() == 16,
    ensures
        sum_of_lanes(s, dir, 4) == total(s),
        forall|n: int| 0 <= n <= 4 ==> #[trigger] sum_of_lanes(s, dir, n) <= sum_of_lanes(s, dir, 4),
{
    reveal_with_fuel(sum_of_lanes, 5);
}

/// Whether the board leaves room for a move: the score plus the sum of the
/// tiles fits in a `u64`.
pub fn room_for_move_holds(b: &Board) -> (r: bool)
    ensures
        r == room_for_move(*b),
{
    let d = &b.data;
    let sum: u128 = b.score as u128 + d[0] as u128 + d[1] as u128 + d[2] as u128 + d[3] as u128
        + d[4] as u128 + d[5] as u128 + d[6] as u128 + d[7] as u128 + d[8] as u128 + d[9] as u128
        + d[10] as u128 + d[11] as u128 + d[12] as u128 + d[13] as u128 + d[14] as u128
        + d[15] as u128;
    sum <= u64::MAX as u128
}

/// The cell at position `pos` of lane `lane` when sliding toward `dir`.
pub fn lane_index(dir: Direction, lane: usize, pos: usize) -> (r: usize)
    requires
        lane < 4,
        pos < 4,
    ensures
        r == cell_of(dir, lane as int, pos as int),
        r < 16,
{
    match dir {
        Direction::Up => lane + 4 * pos,
        Direction::Down => lane + 12 - 4 * pos,
        Direction::Left => lane * 4 + pos,
        Direction::Right => lane * 4 + 3 - pos,
    }
}

/// Whether two grids hold the same values.
fn same_cells(a: &[u64; 16], b: &[u64; 16]) -> (r: bool)
    ensures
        r == (a@ == b@),
{
    let mut i: usize = 0;
    while i < 16
        invariant
            i <= 16,
            forall|k: int| 0 <= k < i ==> a@[k] == b@[k],
        decreases 16 - i,
    {
        if a[i] != b[i] {
            return false;
        }
        i = i + 1;
    }
    assert(a@ =~= b@);
    true
}

/// The empty grid.
pub open spec fn empty_grid() -> Seq<u64> {
    Seq::new(16, |k: int| 0u64)
}

impl Default for Board {
    /// An empty grid and a zero score.
    fn default() -> (r: Board)
        ensures
            r.data@ == empty_grid(),
            r.score == 0,
    {
        let r = Board { data: [0u64; 16], score: 0 };
        assert(r.data@ =~= empty_grid());
        r
    }
}

impl Board {
    /// A fresh game: the empty grid with one tile spawned, and a zero score.
    pub fn new_game() -> (r: Board)
        ensures
            r.score == 0,
            spawned(empty_grid(), r.data@),
            tiles_ok(r.data@),
    {
        let mut b = Board::default();
        assert(b.data@[0] == 0);
        b.add_random();
        proof {
            lemma_spawn_keeps_tiles(empty_grid(), b.data@);
        }
        b
    }

    /// Slides and merges every lane toward `dir`, adding what the merges earn
    /// to the score. No tile is spawned. Returns whether the grid changed.
    #[verifier::rlimit(50)]
    pub fn slide(&mut self, dir: Direction) -> (changed: bool)
        requires
            room_for_move(*old(self)),
        ensures
            final(self).data@ == moved(old(self).data@, dir),
            final(self).score == old(self).score + move_gain(old(self).data@, dir),
            final(self).score >= old(self).score,
            changed == (final(self).data@ != old(self).data@),
    {
        let before = self.data;
        let ghost s = self.data@;
        let ghost score0 = self.score as int;
        proof {
            lemma_cell_index(dir);
            lemma_lanes_cover(s, dir);
        }
        let mut base: usize = 0;
        while base < 4
            invariant
                base <= 4,
                s == before@,
                s.len() == 16,
                score0 + total(s) <= u64::MAX,
                forall|k: int|
                    0 <= k < 16 && lane_id(dir, k) < base ==> self.data@[k] == moved(s, dir)[k],
                forall|k: int|
                    0 <= k < 16 && lane_id(dir, k) >= base ==> self.data@[k] == s[k],
                self.score == score0 + gain_of_lanes(s, dir, base as int),
                0 <= gain_of_lanes(s, dir, base as int) <= sum_of_lanes(s, dir, base as int),
                forall|k: int|
                    #![trigger lane_id(dir, k)]
                    #![trigger lane_pos(dir, k)]
                    0 <= k < 16 ==> 0 <= lane_id(dir, k) < 4 && 0 <= lane_pos(dir, k) < 4
                        && cell_of(dir, lane_id(dir, k), lane_pos(dir, k)) == k,
                forall|l: int, p: int|
                    #![trigger cell_of(dir, l, p)]
                    0 <= l < 4 && 0 <= p < 4 ==> 0 <= cell_of(dir, l, p) < 16 && lane_id(
                        dir,
                        cell_of(dir, l, p),
                    ) == l && lane_pos(dir, cell_of(dir, l, p)) == p,
                forall|n: int| 0 <= n <= 4 ==> #[trigger] sum_of_lanes(s, dir, n) <= total(s),
            decreases 4 - base,
        {
            let i0 = lane_index(dir, base, 0);
            let i1 = lane_index(dir, base, 1);
            let i2 = lane_index(dir, base, 2);
            let i3 = lane_index(dir, base, 3);
            let lane = [self.data[i0], self.data[i1], self.data[i2], self.data[i3]];
            let ghost cur = lane_cells(s, dir, base as int);
            assert(lane@ =~= cur);
            proof {
                assert(sum_of_lanes(s, dir, base + 1) == sum_of_lanes(s, dir, base as int)
                    + lane_sum(cur));
                assert(sum_of_lanes(s, dir, base + 1) <= total(s));
                lemma_outcome_sum(cur);
                assert(gain_of_lanes(s, dir, base + 1) == gain_of_lanes(s, dir, base as int)
                    + lane_outcome(cur).1);
            }
            let (out, gained) = slide_lane(lane);
            self.data[i0] = out[0];
            self.data[i1] = out[1];
            self.data[i2] = out[2];
            self.data[i3] = out[3];
            self.score = self.score + gained;
            base = base + 1;
        }
        assert(self.data@ =~= moved(s, dir));
        !same_cells(&before, &self.data)
    }

    /// Whether the grid is lost: no empty cell and no two equal neighbours.
    pub fn check_loss(&self) -> (r: bool)
        ensures
            r == is_loss(self.data@),
    {
        let mut i: usize = 0;
        while i < 16
            invariant
                i <= 16,
                forall|k: int| 0 <= k < i ==> self.data@[k] != 0,
                forall|k: int, j: int|
                    0 <= k < i && #[trigger] adjacent(k, j) ==> self.data@[k] != self.data@[j],
            decreases 16 - i,
        {
            let elem = self.data[i];
            // A move is always possible while a cell is empty.
            if elem == 0 {
                return false;
            }
            if i % 4 != 0 && self.data[i - 1] == elem {
                assert(adjacent(i as int, i - 1));
                return false;
            }
            if i % 4 != 3 && self.data[i + 1] == elem {
                assert(adjacent(i as int, i + 1));
                return false;
            }
            if i >= 4 && self.data[i - 4] == elem {
                assert(adjacent(i as int, i - 4));
                return false;
            }
            if i <= 11 && self.data[i + 4] == elem {
                assert(adjacent(i as int, i + 4));
                return false;
            }
            i = i + 1;
        }
        true
    }

    /// The indices of the empty cells, in increasing order.
    pub fn empty_cells(&self) -> (r: Vec<usize>)
        ensures
            r@ == vacant(self.data@, 16),
    {
        let mut cells: Vec<usize> = Vec::new();
        let mut i: usize = 0;
        while i < 16
            invariant
                i <= 16,
                cells@ == vacant(self.data@, i as int),
            decreases 16 - i,
        {
            if self.data[i] == 0 {
                cells.push(i);
            }
            i = i + 1;
        }
        cells
    }

    /// Writes the tile that `roll` gives into the `pick`-th empty cell.
    pub fn place_tile(&mut self, pick: usize, roll: usize)
        requires
            pick < vacant(old(self).data@, 16).len(),
        ensures
            final(self).data@ == old(self).data@.update(
                vacant(old(self).data@, 16)[pick as int] as int,
                tile_of_roll(roll),
            ),
            final(self).score == old(self).score,
            spawned(old(self).data@, final(self).data@),
    {
        let cells = self.empty_cells();
        proof {
            lemma_vacant(self.data@, 16);
        }
        let cell = cells[pick];
        let ghost s = self.data@;
        self.data[cell] = tile_for_roll(roll) as u64;
        assert(spawned(s, self.data@)) by {
            assert(self.data@ =~= s.update(cell as int, self.data@[cell as int]));
        }
    }

    /// Writes a 2 (nine times in ten) or a 4 into an empty cell chosen at random.
    pub fn add_random(&mut self)
        requires
            has_vacancy(old(self).data@),
        ensures
            final(self).score == old(self).score,
            spawned(old(self).data@, final(self).data@),
    {
        let cells = self.empty_cells();
        proof {
            lemma_vacant(self.data@, 16);
        }
        let pick = random_below(cells.len());
        let roll = random_below(10);
        self.place_tile(pick, roll);
    }

    /// Resolves a move toward `dir`. When the grid changes, a tile is spawned at
    /// random and `Ok` is returned; otherwise the board is left as it was.
    pub fn player_move(&mut self, dir: Direction) -> (r: Result<(), &'static str>)
        requires
            room_for_move(*old(self)),
        ensures
            r is Err <==> moved(old(self).data@, dir) == old(self).data@,
            r is Err ==> *final(self) == *old(self),
            r is Ok ==> final(self).score == old(self).score + move_gain(old(self).data@, dir)
                && spawned(moved(old(self).data@, dir), final(self).data@),
            final(self).score >= old(self).score,
            tiles_ok(old(self).data@) ==> tiles_ok(final(self).data@),
    {
        proof {
            lemma_move_frees_a_cell(self.data@, dir);
            lemma_illegal_move_is_stable(self.data@, dir);
            if tiles_ok(self.data@) {
                lemma_move_keeps_tiles(self.data@, dir);
            }
        }
        let ghost before = *self;
        if self.slide(dir) {
            let ghost slid = self.data@;
            self.add_random();
            proof {
                if tiles_ok(slid) {
                    lemma_spawn_keeps_tiles(slid, self.data@);
                }
            }
            Ok(())
        } else {
            assert(self.data@ =~= before.data@);
            assert(self.data == before.data);
            Err("Player played an illegal move")
        }
    }

    /// Resolves a move toward `dir` with the spawn given: when the grid changes,
    /// the tile that `roll` gives goes to the empty cell numbered `pick` modulo
    /// their count, and `Ok` is returned; otherwise the board is left as it was.
    #[verifier::rlimit(50)]
    pub fn resolve_move(&mut self, dir: Direction, pick: usize, roll: usize) -> (r: Result<
        (),
        &'static str,
    >)
        requires
            room_for_move(*old(self)),
        ensures
            r is Err <==> moved(old(self).data@, dir) == old(self).data@,
            r is Err ==> *final(self) == *old(self),
            r is Ok ==> ({
                let m = moved(old(self).data@, dir);
                let cells = vacant(m, 16);
                &&& final(self).score == old(self).score + move_gain(old(self).data@, dir)
                &&& final(self).data@ == m.update(
                    cells[pick as int % cells.len() as int] as int,
                    tile_of_roll(roll),
                )
                &&& spawned(m, final(self).data@)
            }),
            final(self).score >= old(self).score,
            tiles_ok(old(self).data@) ==> tiles_ok(final(self).data@),
    {
        proof {
            lemma_move_frees_a_cell(self.data@, dir);
            lemma_illegal_move_is_stable(self.data@, dir);
            if tiles_ok(self.data@) {
                lemma_move_keeps_tiles(self.data@, dir);
            }
        }
        let ghost before = *self;
        if self.slide(dir) {
            let count = self.empty_cells().len();
            proof {
                lemma_vacant(self.data@, 16);
            }
            let ghost slid = self.data@;
            self.place_tile(pick % count, roll);
            proof {
                if tiles_ok(slid) {
                    lemma_spawn_keeps_tiles(slid, self.data@);
                }
            }
            Ok(())
        } else {
            assert(self.data@ =~= before.data@);
            assert(self.data == before.data);
            Err("Player played an illegal move")
        }
    }
}

/// The tile a roll of a ten-sided die gives: a 4 on zero, a 2 otherwise.
pub fn tile_for_roll(roll: usize) -> (r: u8)
    ensures
        r as u64 == tile_of_roll(roll),
{
    if roll == 0 {
        4
    } else {
        2
    }
}

/// A 2 nine times in ten, a 4 otherwise.
pub fn two_or_four() -> (r: u8)
    ensures
        r == 2 || r == 4,
{
    tile_for_roll(random_below(10))
}

/// A move that changes the grid leaves an empty cell for the spawn.
pub proof fn lemma_move_frees_a_cell(s: Seq<u64>, dir: Direction)
    requires
        s.len() == 16,
    ensures
        moved(s, dir) != s ==> has_vacancy(moved(s, dir)),
{
    lemma_cell_index(dir);
    if moved(s, dir) != s {
        assert(!(moved(s, dir) =~= s));
        let k = choose|k: int| 0 <= k < 16 && moved(s, dir)[k] != s[k];
        let l = lane_id(dir, k);
        let cur = lane_cells(s, dir, l);
        lemma_unchanged_lane(cur);
        let e = cell_of(dir, l, 3);
        assert(moved(s, dir)[e] == 0);
    }
}

/// A move that leaves the grid as it was earns nothing, so trying it again
/// fails again and changes nothing either.
pub proof fn lemma_illegal_move_is_stable(s: Seq<u64>, dir: Direction)
    requires
        s.len() == 16,
    ensures
        moved(s, dir) == s ==> move_gain(s, dir) == 0 && moved(moved(s, dir), dir) == moved(s, dir),
{
    lemma_cell_index(dir);
    if moved(s, dir) == s {
        assert forall|l: int| 0 <= l < 4 implies lane_outcome(#[trigger] lane_cells(s, dir, l)).1
            == 0 by {
            let cur = lane_cells(s, dir, l);
            lemma_unchanged_lane(cur);
            assert(lane_outcome(cur).0 =~= cur) by {
                assert forall|p: int| 0 <= p < 4 implies lane_outcome(cur).0[p] == cur[p] by {
                    assert(moved(s, dir)[cell_of(dir, l, p)] == s[cell_of(dir, l, p)]);
                }
            }
        }
        reveal_with_fuel(gain_of_lanes, 5);
    }
}

proof fn lemma_moved_lane(s: Seq<u64>, dir: Direction, l: int)
    requires
        s.len() == 16,
        0 <= l < 4,
        total(s) <= u64::MAX,
    ensures
        lane_sum(lane_cells(moved(s, dir), dir, l)) == lane_sum(lane_cells(s, dir, l)),
{
    lemma_cell_index(dir);
    lemma_lanes_cover(s, dir);
    reveal_with_fuel(sum_of_lanes, 5);
    let cur = lane_cells(s, dir, l);
    lemma_outcome_sum(cur);
    assert(lane_cells(moved(s, dir), dir, l) =~= lane_outcome(cur).0);
}

/// A move keeps the sum of the tiles: each merge of two tiles `v` makes one
/// tile `2 * v`.
pub proof fn lemma_move_conserves_total(s: Seq<u64>, dir: Direction)
    requires
        s.len() == 16,
        total(s) <= u64::MAX,
    ensures
        total(moved(s, dir)) == total(s),
{
    lemma_lanes_cover(s, dir);
    lemma_lanes_cover(moved(s, dir), dir);
    lemma_moved_lane(s, dir, 0);
    lemma_moved_lane(s, dir, 1);
    lemma_moved_lane(s, dir, 2);
    lemma_moved_lane(s, dir, 3);
    reveal_with_fuel(sum_of_lanes, 5);
}

/// A spawn adds a 2 or a 4 to the sum of the tiles.
pub proof fn lemma_spawn_adds_tile(before: Seq<u64>, after: Seq<u64>)
    requires
        before.len() == 16,
        spawned(before, after),
    ensures
        total(after) == total(before) + 2 || total(after) == total(before) + 4,
{
    let k = choose|k: int|
        0 <= k < 16 && before[k] == 0 && (after[k] == 2 || after[k] == 4) && after
            == before.update(k, after[k]);
    assert(after.len() == 16);
}

/// A move keeps every cell empty or a power of two no smaller than 2.
pub proof fn lemma_move_keeps_tiles(s: Seq<u64>, dir: Direction)
    requires
        s.len() == 16,
        total(s) <= u64::MAX,
        tiles_ok(s),
    ensures
        tiles_ok(moved(s, dir)),
{
    lemma_cell_index(dir);
    lemma_lanes_cover(s, dir);
    reveal_with_fuel(sum_of_lanes, 5);
    assert forall|k: int| 0 <= k < 16 implies is_tile(#[trigger] moved(s, dir)[k]) by {
        let cur = lane_cells(s, dir, lane_id(dir, k));
        lemma_outcome_tiles(cur);
    }
}

/// A spawn keeps every cell empty or a power of two no smaller than 2.
pub proof fn lemma_spawn_keeps_tiles(before: Seq<u64>, after: Seq<u64>)
    requires
        before.len() == 16,
        tiles_ok(before),
        spawned(before, after),
    ensures
        tiles_ok(after),
{
    reveal_with_fuel(is_power_of_two, 3);
    assert(is_tile(2) && is_tile(4));
}

} // verus!
