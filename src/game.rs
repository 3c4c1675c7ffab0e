use vstd::prelude::*;
use crate::block::{any_resting_at, at, fresh_block, resting_at, spawn_random_block, Block};
use crate::player::{
    fits, fall_delay_ticked, fall_state_checked, gravity_applied, jump_ticked, jumped, landed, lemma_step_on_grid,
    new_player, on_grid, released, step, Player,
};
use crate::types::{Direction, GameConfig, GameUpdateResult, InputAction};

verus! {

/// The whole simulation: the grid, its blocks, the player and the score.
pub struct GameState {
    pub grid_size: usize,
    /// The side of a cell in pixels; only presentation reads it.
    pub cell_size: u32,
    pub player: Player,
    /// The interval between two ticks, kept by the caller's timer.
    pub refresh_rate_milliseconds: u64,
    pub blocks: Vec<Block>,
    /// Rows a falling block descends per tick.
    pub block_fall_speed: usize,
    /// Ticks between two spawned blocks.
    pub block_spawn_rate: u64,
    pub block_spawn_counter: u64,
    pub game_over: bool,
    pub score: u32,
    /// The direction of the last horizontal input, if it is still held.
    pub last_move_direction: Option<Direction>,
}

/// Below `(x, y)`, down to the bottom row, every cell holds a resting block.
pub open spec fn anchored(bs: Seq<Block>, grid_size: int, x: int, y: int) -> bool {
    forall|y2: int| y < y2 < grid_size ==> #[trigger] resting_at(bs, x, y2)
}

/// The blocks once every resting block that is not held up by an unbroken
/// stack of resting blocks reaching the bottom row has started to fall.
pub open spec fn settled(bs: Seq<Block>, grid_size: int) -> Seq<Block> {
    Seq::new(
        bs.len(),
        |i: int|
            if !bs[i].falling && !anchored(bs, grid_size, bs[i].position.0 as int, bs[i].position.1 as int) {
                Block { falling: true, ..bs[i] }
            } else {
                bs[i]
            },
    )
}

/// Whether a resting block at `(x, y)` is held up down to the bottom row.
fn is_anchored(blocks: &[Block], grid_size: usize, x: usize, y: usize) -> (r: bool)
    requires
        grid_size >= 1,
    ensures
        r == anchored(blocks@, grid_size as int, x as int, y as int),
{
    if y >= grid_size - 1 {
        return true;
    }
    let mut y2: usize = y + 1;
    while y2 < grid_size
        invariant
            y < y2 <= grid_size,
            forall|y3: int| y < y3 < y2 ==> #[trigger] resting_at(blocks@, x as int, y3),
        decreases grid_size - y2,
    {
        if !any_resting_at(blocks, x, y2) {
            return false;
        }
        y2 = y2 + 1;
    }
    true
}

/// The number of resting blocks on row `row`.
pub open spec fn row_count(bs: Seq<Block>, row: int) -> nat
    decreases bs.len(),
{
    if bs.len() == 0 {
        0
    } else {
        row_count(bs.drop_last(), row) + if !bs.last().falling && bs.last().position.1 == row {
            1nat
        } else {
            0nat
        }
    }
}

/// The number of blocks, resting or falling, on row `row`.
pub open spec fn blocks_in_row(bs: Seq<Block>, row: int) -> nat
    decreases bs.len(),
{
    if bs.len() == 0 {
        0
    } else {
        blocks_in_row(bs.drop_last(), row) + if bs.last().position.1 == row {
            1nat
        } else {
            0nat
        }
    }
}

/// Row `row` holds `grid_size` resting blocks.
pub open spec fn full_row(bs: Seq<Block>, grid_size: int, row: int) -> bool {
    row_count(bs, row) == grid_size
}

/// The lowest full row among rows `0..=row`, scanning from `row` upwards.
pub open spec fn full_row_from(bs: Seq<Block>, grid_size: int, row: int) -> Option<int>
    decreases row + 1,
{
    if row < 0 {
        None
    } else if full_row(bs, grid_size, row) {
        Some(row)
    } else {
        full_row_from(bs, grid_size, row - 1)
    }
}

/// The blocks that are not on row `row`, in their order.
pub open spec fn without_row(bs: Seq<Block>, row: int) -> Seq<Block>
    decreases bs.len(),
{
    if bs.len() == 0 {
        bs
    } else {
        let rest = without_row(bs.drop_last(), row);
        if bs.last().position.1 == row {
            rest
        } else {
            rest.push(bs.last())
        }
    }
}

proof fn lemma_take_step(bs: Seq<Block>, i: int)
    requires
        0 <= i < bs.len(),
    ensures
        bs.take(i + 1).drop_last() == bs.take(i),
        bs.take(i + 1).last() == bs[i],
{
    assert(bs.take(i + 1).drop_last() =~= bs.take(i));
}

/// Removing a row takes away exactly the blocks on it.
proof fn lemma_without_row_len(bs: Seq<Block>, row: int)
    ensures
        without_row(bs, row).len() + blocks_in_row(bs, row) == bs.len(),
    decreases bs.len(),
{
    if bs.len() > 0 {
        lemma_without_row_len(bs.drop_last(), row);
    }
}

/// Removing a row keeps every block of every other row.
proof fn lemma_without_row_keeps(bs: Seq<Block>, row: int, other: int)
    requires
        other != row,
    ensures
        blocks_in_row(without_row(bs, row), other) == blocks_in_row(bs, other),
    decreases bs.len(),
{
    if bs.len() > 0 {
        lemma_without_row_keeps(bs.drop_last(), row, other);
        let rest = without_row(bs.drop_last(), row);
        if bs.last().position.1 != row {
            assert(rest.push(bs.last()).drop_last() =~= rest);
        }
    }
}

/// A block is left after removing a row exactly when it was on another row.
proof fn lemma_without_row_contains(bs: Seq<Block>, row: int, b: Block)
    ensures
        without_row(bs, row).contains(b) <==> (bs.contains(b) && b.position.1 != row),
    decreases bs.len(),
{
    if bs.len() > 0 {
        let init = bs.drop_last();
        lemma_without_row_contains(init, row, b);
        let rest = without_row(init, row);
        assert(bs =~= init.push(bs.last()));
        if bs.contains(b) && b != bs.last() {
            let i = choose|i: int| 0 <= i < bs.len() && bs[i] == b;
            assert(init[i] == b);
        }
        if init.contains(b) {
            let i = choose|i: int| 0 <= i < init.len() && init[i] == b;
            assert(bs[i] == b);
        }
        if bs.last().position.1 != row {
            if rest.contains(b) {
                let i = choose|i: int| 0 <= i < rest.len() && rest[i] == b;
                assert(rest.push(bs.last())[i] == b);
            }
            if rest.push(bs.last()).contains(b) && b != bs.last() {
                let i = choose|i: int| 0 <= i < rest.len() + 1 && rest.push(bs.last())[i] == b;
                assert(rest[i] == b);
            }
            assert(rest.push(bs.last())[rest.len() as int] == bs.last());
        }
        assert(bs[bs.len() - 1] == bs.last());
    }
}

/// When every block of a row rests, the row's blocks are its resting ones.
proof fn lemma_row_all_resting(bs: Seq<Block>, row: int)
    requires
        forall|j: int| 0 <= j < bs.len() && bs[j].position.1 == row ==> !bs[j].falling,
    ensures
        blocks_in_row(bs, row) == row_count(bs, row),
    decreases bs.len(),
{
    if bs.len() > 0 {
        let init = bs.drop_last();
        assert forall|j: int| 0 <= j < init.len() && init[j].position.1 == row implies !init[j].falling by {
            assert(init[j] == bs[j]);
        }
        lemma_row_all_resting(init, row);
    }
}

/// The scan from `row` upwards meets the lowest full row at or above it.
proof fn lemma_scan_finds(bs: Seq<Block>, grid_size: int, row: int, found: int)
    requires
        0 <= found <= row,
        full_row(bs, grid_size, found),
        forall|r: int| found < r <= row ==> !full_row(bs, grid_size, r),
    ensures
        full_row_from(bs, grid_size, row) == Some(found),
    decreases row,
{
    if row > found {
        lemma_scan_finds(bs, grid_size, row - 1, found);
    }
}

/// Clearing a full row whose blocks all rest removes exactly `grid_size`
/// blocks, those of that row; the others stay, at the same cells, whether or
/// not they then start to fall.
pub proof fn lemma_clear_row(bs: Seq<Block>, grid_size: int, row: int)
    requires
        full_row(bs, grid_size, row),
        forall|j: int| 0 <= j < bs.len() && bs[j].position.1 == row ==> !bs[j].falling,
    ensures
        ({
            let left = settled(without_row(bs, row), grid_size);
            &&& left.len() + grid_size == bs.len()
            &&& forall|k: int| 0 <= k < left.len() ==> left[k].position == without_row(bs, row)[k].position
            &&& forall|b: Block| without_row(bs, row).contains(b) <==> (bs.contains(b) && b.position.1 != row)
        }),
{
    lemma_without_row_len(bs, row);
    lemma_row_all_resting(bs, row);
    assert forall|b: Block| without_row(bs, row).contains(b) <==> (bs.contains(b) && b.position.1 != row) by {
        lemma_without_row_contains(bs, row, b);
    }
}

/// With two full rows, one call clears only the lower of them, and every
/// block of the upper one is still there afterwards.
pub proof fn lemma_one_row_per_call(bs: Seq<Block>, grid_size: int, lower: int, upper: int)
    requires
        0 <= upper < lower < grid_size,
        full_row(bs, grid_size, lower),
        full_row(bs, grid_size, upper),
        forall|r: int| 0 <= r < grid_size && full_row(bs, grid_size, r) ==> r == lower || r == upper,
    ensures
        full_row_from(bs, grid_size, grid_size - 1) == Some(lower),
        blocks_in_row(settled(without_row(bs, lower), grid_size), upper) == blocks_in_row(bs, upper),
{
    lemma_scan_finds(bs, grid_size, grid_size - 1, lower);
    lemma_without_row_keeps(bs, lower, upper);
    lemma_settled_keeps_rows(without_row(bs, lower), grid_size, upper);
}

/// Settling moves no block: each row keeps its blocks.
proof fn lemma_settled_keeps_rows(bs: Seq<Block>, grid_size: int, row: int)
    ensures
        blocks_in_row(settled(bs, grid_size), row) == blocks_in_row(bs, row),
{
    lemma_same_cells_same_rows(settled(bs, grid_size), bs, row);
}

/// Two sequences whose blocks stand on the same cells have as many blocks
/// on each row.
proof fn lemma_same_cells_same_rows(a: Seq<Block>, b: Seq<Block>, row: int)
    requires
        a.len() == b.len(),
        forall|k: int| 0 <= k < a.len() ==> a[k].position == b[k].position,
    ensures
        blocks_in_row(a, row) == blocks_in_row(b, row),
    decreases a.len(),
{
    if a.len() > 0 {
        lemma_same_cells_same_rows(a.drop_last(), b.drop_last(), row);
    }
}

/// Some resting block other than block `i` stands on `(x, y)`.
pub open spec fn other_resting_at(bs: Seq<Block>, i: int, x: int, y: int) -> bool {
    exists|j: int| 0 <= j < bs.len() && j != i && !bs[j].falling && #[trigger] at(bs[j], x, y)
}

/// One falling block `i` takes its step: onto the player's head (the second
/// result, which ends the game), onto the floor, onto a resting block, or
/// down by `speed` rows. Carried and resting blocks stay.
pub open spec fn fall_one(bs: Seq<Block>, i: int, grid_size: int, speed: int, player: Player) -> (Seq<Block>, bool) {
    let b = bs[i];
    let x = b.position.0 as int;
    let ny = b.position.1 + speed;
    if b.carried || !b.falling {
        (bs, false)
    } else if x == player.position.0 && ny == player.position.1 {
        (bs, true)
    } else if ny >= grid_size {
        (bs.update(i, Block { position: (b.position.0, (grid_size - 1) as usize), falling: false, ..b }), false)
    } else if other_resting_at(bs, i, x, ny) {
        (bs.update(i, Block { falling: false, ..b }), false)
    } else {
        (bs.update(i, Block { position: (b.position.0, ny as usize), ..b }), false)
    }
}

/// Blocks `0..n` take their steps in order, stopping at the first that
/// lands on the player.
pub open spec fn fall_pass(bs: Seq<Block>, n: int, grid_size: int, speed: int, player: Player) -> (Seq<Block>, bool)
    decreases n,
{
    if n <= 0 {
        (bs, false)
    } else {
        let (s, hit) = fall_pass(bs, n - 1, grid_size, speed, player);
        if hit {
            (s, true)
        } else {
            fall_one(s, n - 1, grid_size, speed, player)
        }
    }
}

/// Once a block has landed on the player, later blocks do not move.
proof fn lemma_fall_pass_stops(bs: Seq<Block>, k: int, n: int, grid_size: int, speed: int, player: Player)
    requires
        0 <= k <= n,
        fall_pass(bs, k, grid_size, speed, player).1,
    ensures
        fall_pass(bs, n, grid_size, speed, player) == fall_pass(bs, k, grid_size, speed, player),
    decreases n - k,
{
    if n > k {
        lemma_fall_pass_stops(bs, k, n - 1, grid_size, speed, player);
    }
}

/// `after` is `before` with one new block at a column of the top row.
pub open spec fn spawned_onto(before: Seq<Block>, after: Seq<Block>, grid_size: int) -> bool {
    &&& after.len() == before.len() + 1
    &&& after.drop_last() == before
    &&& after.last().position.0 < grid_size
    &&& after.last() == fresh_block((after.last().position.0, 0))
}

/// The player after the player's half of a tick: jump timer, fall delay,
/// loss of support, gravity, landing.
pub open spec fn player_ticked(p: Player, bs: Seq<Block>, grid_size: int) -> Player {
    landed(
        gravity_applied(fall_state_checked(fall_delay_ticked(jump_ticked(p)), bs, grid_size)),
        bs,
        grid_size,
    )
}

/// The blocks, game-over flag, spawn counter and score after the blocks'
/// half of a tick from `s`, when a block spawned now would appear in
/// `column`: falling, spawning, settling, clearing a row.
pub open spec fn blocks_tick_result(s: GameState, column: int) -> (Seq<Block>, bool, u64, u32) {
    let g = s.grid_size as int;
    let (bs1, hit) = fall_pass(s.blocks@, s.blocks@.len() as int, g, s.block_fall_speed as int, s.player);
    let c = s.block_spawn_counter + 1;
    let bs2 = if c >= s.block_spawn_rate { bs1.push(fresh_block((column as usize, 0usize))) } else { bs1 };
    let counter = if c >= s.block_spawn_rate { 0u64 } else { c as u64 };
    let bs3 = settled(bs2, g);
    match full_row_from(bs3, g, g - 1) {
        None => (bs3, s.game_over || hit, counter, s.score),
        Some(row) => (settled(without_row(bs3, row), g), s.game_over || hit, counter, (s.score + 1) as u32),
    }
}

/// `t` is `s` after the blocks' half of a tick, a spawned block appearing
/// in `column`.
pub open spec fn blocks_ticked(s: GameState, t: GameState, column: int) -> bool {
    let (bs, over, counter, score) = blocks_tick_result(s, column);
    &&& t.blocks@ == bs
    &&& t == (GameState {
        blocks: t.blocks,
        game_over: over,
        block_spawn_counter: counter,
        score,
        ..s
    })
}

/// `t` is `s` after a whole tick, a spawned block appearing in `column`.
pub open spec fn ticked(s: GameState, t: GameState, column: int) -> bool {
    let p = player_ticked(s.player, s.blocks@, s.grid_size as int);
    blocks_ticked(GameState { player: p, ..s }, t, column)
}

/// `t` is `s` started afresh: same settings, a new player, one new block,
/// score and counters at zero.
pub open spec fn restarted(s: GameState, t: GameState) -> bool {
    &&& spawned_onto(Seq::empty(), t.blocks@, s.grid_size as int)
    &&& t == (GameState {
        player: new_player(s.grid_size),
        blocks: t.blocks,
        block_spawn_counter: 0,
        game_over: false,
        score: 0,
        last_move_direction: None,
        ..s
    })
}

/// Every block after the player's direction became `dir`.
pub open spec fn released_all(bs: Seq<Block>, dir: Option<isize>) -> Seq<Block> {
    Seq::new(bs.len(), |i: int| released(bs[i], dir))
}

/// `t` is `s` after input `action` (neither a restart nor in a finished
/// game): the player's step, jump or stop, carried blocks let go unless
/// still carried the same way, and the blocks settled.
pub open spec fn input_applied(s: GameState, t: GameState, action: InputAction) -> bool {
    let (p, bs, dir) = match action {
        InputAction::Left => {
            let (p, bs) = step(s.player, s.blocks@, -1);
            (p, bs, Some(-1isize))
        },
        InputAction::Right => {
            let (p, bs) = step(s.player, s.blocks@, 1);
            (p, bs, Some(1isize))
        },
        InputAction::Up => (jumped(s.player), s.blocks@, s.last_move_direction),
        _ => (s.player, released_all(s.blocks@, None), None),
    };
    &&& t.blocks@ == settled(released_all(bs, dir), s.grid_size as int)
    &&& t == (GameState { player: p, blocks: t.blocks, last_move_direction: dir, ..s })
}

proof fn lemma_without_row_on_grid(bs: Seq<Block>, row: int, grid_size: int)
    requires
        on_grid(bs, grid_size),
    ensures
        on_grid(without_row(bs, row), grid_size),
    decreases bs.len(),
{
    if bs.len() > 0 {
        let init = bs.drop_last();
        assert(on_grid(init, grid_size)) by {
            assert forall|i: int| 0 <= i < init.len() implies (#[trigger] init[i]).position.0 < grid_size
                && init[i].position.1 < grid_size by {
                assert(init[i] == bs[i]);
            }
        }
        lemma_without_row_on_grid(init, row, grid_size);
        assert(bs.last() == bs[bs.len() - 1]);
    }
}

impl GameState {
    /// The state's own invariant: a grid of at least two rows, blocks on it,
    /// and counters that cannot overflow.
    pub open spec fn well_formed(&self) -> bool {
        &&& self.grid_size >= 2
        &&& self.grid_size + self.block_fall_speed <= usize::MAX
        &&& on_grid(self.blocks@, self.grid_size as int)
        &&& self.player.grid_size == self.grid_size
        &&& fits(self.player)
        &&& self.block_spawn_counter < u64::MAX
    }

    /// Makes every resting block that has lost its support fall, and every
    /// block that rested on such a block, up the column: the state in which
    /// no resting block is left unsupported.
    pub fn check_for_levitating_blocks(&mut self)
        requires
            old(self).grid_size >= 1,
        ensures
            final(self).blocks@ == settled(old(self).blocks@, old(self).grid_size as int),
            *final(self) == (GameState { blocks: final(self).blocks, ..*old(self) }),
    {
        let ghost bs = self.blocks@;
        let n = self.blocks.len();
        let mut drop: Vec<bool> = Vec::new();
        let mut i: usize = 0;
        while i < n
            invariant
                n == bs.len(),
                bs == self.blocks@,
                self.grid_size >= 1,
                0 <= i <= n,
                drop@.len() == i,
                forall|k: int| 0 <= k < i ==> drop@[k] == (!bs[k].falling && !anchored(
                    bs,
                    self.grid_size as int,
                    bs[k].position.0 as int,
                    bs[k].position.1 as int,
                )),
            decreases n - i,
        {
            let b = self.blocks[i];
            let d = !b.falling && !is_anchored(self.blocks.as_slice(), self.grid_size, b.position.0, b.position.1);
            drop.push(d);
            i = i + 1;
        }
        let ghost s0 = *self;
        let mut i: usize = 0;
        while i < n
            invariant
                n == bs.len(),
                drop@.len() == n,
                self.blocks@.len() == n,
                *self == (GameState { blocks: self.blocks, ..s0 }),
                forall|k: int| 0 <= k < n ==> drop@[k] == (!bs[k].falling && !anchored(
                    bs,
                    s0.grid_size as int,
                    bs[k].position.0 as int,
                    bs[k].position.1 as int,
                )),
                0 <= i <= n,
                forall|k: int| 0 <= k < i ==> self.blocks@[k] == settled(bs, s0.grid_size as int)[k],
                forall|k: int| i <= k < n ==> self.blocks@[k] == bs[k],
            decreases n - i,
        {
            if drop[i] {
                let mut b = self.blocks[i];
                b.falling = true;
                self.blocks.set(i, b);
            }
            i = i + 1;
        }
        assert(self.blocks@ =~= settled(bs, s0.grid_size as int));
    }

    /// Clears the lowest full row, scanning from the bottom up: its blocks
    /// go, the score rises by one and the blocks above are let fall. At
    /// most one row is cleared per call.
    pub fn check_full_rows(&mut self)
        requires
            old(self).grid_size >= 1,
            old(self).score < u32::MAX,
        ensures
            match full_row_from(old(self).blocks@, old(self).grid_size as int, old(self).grid_size - 1) {
                None => *final(self) == *old(self),
                Some(row) => {
                    &&& final(self).blocks@ == settled(without_row(old(self).blocks@, row), old(self).grid_size as int)
                    &&& final(self).score == old(self).score + 1
                    &&& *final(self) == (GameState { blocks: final(self).blocks, score: final(self).score, ..*old(self) })
                },
            },
    {
        let ghost bs = self.blocks@;
        let ghost g = self.grid_size as int;
        let ghost s0 = *self;
        let mut row: usize = self.grid_size;
        while row > 0
            invariant
                *self == s0,
                s0 == *old(self),
                bs == self.blocks@,
                g == self.grid_size,
                self.score < u32::MAX,
                self.grid_size >= 1,
                row <= self.grid_size,
                full_row_from(bs, g, g - 1) == full_row_from(bs, g, row - 1),
            decreases row,
        {
            let r = row - 1;
            let mut count: usize = 0;
            let mut i: usize = 0;
            while i < self.blocks.len()
                invariant
                    bs == self.blocks@,
                    0 <= i <= bs.len(),
                    count <= i,
                    count == row_count(bs.take(i as int), r as int),
                decreases self.blocks.len() - i,
            {
                proof {
                    lemma_take_step(bs, i as int);
                }
                if !self.blocks[i].falling && self.blocks[i].position.1 == r {
                    count = count + 1;
                }
                i = i + 1;
            }
            assert(bs.take(bs.len() as int) =~= bs);
            if count == self.grid_size {
                let mut kept: Vec<Block> = Vec::new();
                let mut j: usize = 0;
                while j < self.blocks.len()
                    invariant
                        bs == self.blocks@,
                        0 <= j <= bs.len(),
                        kept@ == without_row(bs.take(j as int), r as int),
                    decreases self.blocks.len() - j,
                {
                    proof {
                        lemma_take_step(bs, j as int);
                    }
                    if self.blocks[j].position.1 != r {
                        kept.push(self.blocks[j]);
                    }
                    j = j + 1;
                }
                self.blocks = kept;
                self.score = self.score + 1;
                self.check_for_levitating_blocks();
                return;
            }
            row = row - 1;
        }
    }


    /// Whether a block stepping to `(x, new_y)` lands on the player's head;
    /// if so the game is over.
    pub fn check_block_player_collision(&mut self, x: usize, new_y: usize) -> (r: bool)
        ensures
            r == (x == old(self).player.position.0 && new_y == old(self).player.position.1),
            *final(self) == (GameState { game_over: old(self).game_over || r, ..*old(self) }),
    {
        let (player_x, player_y) = self.player.position;
        if x == player_x && new_y == player_y {
            self.game_over = true;
            return true;
        }
        false
    }

    /// Whether block `block_idx` stepping to row `new_y` reaches the floor;
    /// if so it comes to rest on the bottom row.
    pub fn check_block_bottom_collision(&mut self, block_idx: usize, new_y: usize) -> (r: bool)
        requires
            block_idx < old(self).blocks@.len(),
            old(self).grid_size >= 1,
        ensures
            r == (new_y >= old(self).grid_size),
            final(self).blocks@ == if r {
                old(self).blocks@.update(
                    block_idx as int,
                    Block {
                        position: (old(self).blocks@[block_idx as int].position.0, (old(self).grid_size - 1) as usize),
                        falling: false,
                        ..old(self).blocks@[block_idx as int]
                    },
                )
            } else {
                old(self).blocks@
            },
            *final(self) == (GameState { blocks: final(self).blocks, ..*old(self) }),
    {
        if new_y >= self.grid_size {
            let mut b = self.blocks[block_idx];
            b.position.1 = self.grid_size - 1;
            b.falling = false;
            self.blocks.set(block_idx, b);
            return true;
        }
        false
    }

    /// Whether a resting block other than `block_idx` stands on `(x, new_y)`.
    pub fn check_block_block_collision(&self, block_idx: usize, x: usize, new_y: usize) -> (r: bool)
        ensures
            r == other_resting_at(self.blocks@, block_idx as int, x as int, new_y as int),
    {
        let mut j: usize = 0;
        while j < self.blocks.len()
            invariant
                0 <= j <= self.blocks@.len(),
                forall|k: int|
                    0 <= k < j && k != block_idx && !self.blocks@[k].falling ==> !#[trigger] at(
                        self.blocks@[k],
                        x as int,
                        new_y as int,
                    ),
            decreases self.blocks.len() - j,
        {
            let b = self.blocks[j];
            if block_idx != j && !b.falling && b.position.0 == x && b.position.1 == new_y {
                assert(at(self.blocks@[j as int], x as int, new_y as int));
                return true;
            }
            j = j + 1;
        }
        false
    }

    /// Moves every falling block that is not carried one step down, in
    /// order; a block landing on the player ends the game and the pass.
    pub fn update_falling_blocks(&mut self)
        requires
            old(self).well_formed(),
        ensures
            ({
                let (bs, hit) = fall_pass(
                    old(self).blocks@,
                    old(self).blocks@.len() as int,
                    old(self).grid_size as int,
                    old(self).block_fall_speed as int,
                    old(self).player,
                );
                &&& final(self).blocks@ == bs
                &&& final(self).game_over == (old(self).game_over || hit)
            }),
            *final(self) == (GameState { blocks: final(self).blocks, game_over: final(self).game_over, ..*old(self) }),
            final(self).well_formed(),
    {
        let ghost bs = self.blocks@;
        let ghost s0 = *self;
        let ghost g = self.grid_size as int;
        let ghost speed = self.block_fall_speed as int;
        let n = self.blocks.len();
        let mut i: usize = 0;
        while i < n
            invariant
                s0 == *old(self),
                s0.well_formed(),
                bs == s0.blocks@,
                g == s0.grid_size,
                speed == s0.block_fall_speed,
                n == bs.len(),
                0 <= i <= n,
                self.blocks@.len() == n,
                *self == (GameState { blocks: self.blocks, ..s0 }),
                fall_pass(bs, i as int, g, speed, s0.player) == (self.blocks@, false),
                on_grid(self.blocks@, g),
            decreases n - i,
        {
            let b = self.blocks[i];
            if !b.carried && b.falling {
                assert(self.blocks@[i as int].position.1 < g);
                let new_y = b.position.1 + self.block_fall_speed;
                if self.check_block_player_collision(b.position.0, new_y) {
                    proof {
                        lemma_fall_pass_stops(bs, i + 1, n as int, g, speed, s0.player);
                    }
                    return;
                }
                if !self.check_block_bottom_collision(i, new_y) {
                    let mut nb = b;
                    if self.check_block_block_collision(i, b.position.0, new_y) {
                        nb.falling = false;
                    } else {
                        nb.position.1 = new_y;
                    }
                    self.blocks.set(i, nb);
                }
            }
            i = i + 1;
        }
    }


    /// Starts a game with the settings of `config`: a new player and one
    /// new block.
    pub fn new(config: GameConfig) -> (game: GameState)
        requires
            config.grid_size >= 2,
            config.grid_size + config.block_fall_speed <= usize::MAX,
        ensures
            game.well_formed(),
            game.grid_size == config.grid_size,
            game.cell_size == config.cell_size,
            game.refresh_rate_milliseconds == config.refresh_rate_milliseconds,
            game.block_fall_speed == config.block_fall_speed,
            game.block_spawn_rate == config.block_spawn_rate,
            game.player == new_player(config.grid_size),
            spawned_onto(Seq::empty(), game.blocks@, config.grid_size as int),
            game.block_spawn_counter == 0,
            !game.game_over,
            game.score == 0,
            game.last_move_direction is None,
    {
        let mut game = GameState {
            grid_size: config.grid_size,
            cell_size: config.cell_size,
            player: Player::new(config.grid_size),
            refresh_rate_milliseconds: config.refresh_rate_milliseconds,
            blocks: Vec::new(),
            block_fall_speed: config.block_fall_speed,
            block_spawn_rate: config.block_spawn_rate,
            block_spawn_counter: 0,
            game_over: false,
            score: 0,
            last_move_direction: None,
        };
        game.spawn_block();
        assert(game.blocks@.drop_last() =~= Seq::<Block>::empty());
        game
    }

    /// Starts the game afresh with the same settings.
    pub fn restart(&mut self)
        requires
            old(self).well_formed(),
        ensures
            restarted(*old(self), *final(self)),
            final(self).well_formed(),
    {
        self.player = Player::new(self.grid_size);
        self.blocks.clear();
        self.block_spawn_counter = 0;
        self.game_over = false;
        self.score = 0;
        self.last_move_direction = None;
        self.spawn_block();
        assert(self.blocks@.drop_last() =~= Seq::<Block>::empty());
    }

    /// Adds a new falling block at a random column of the top row.
    pub fn spawn_block(&mut self)
        requires
            old(self).grid_size >= 1,
        ensures
            spawned_onto(old(self).blocks@, final(self).blocks@, old(self).grid_size as int),
            *final(self) == (GameState { blocks: final(self).blocks, ..*old(self) }),
    {
        let b = spawn_random_block(self.grid_size);
        self.blocks.push(b);
        assert(self.blocks@.drop_last() =~= old(self).blocks@);
    }

    /// Counts a tick towards the next spawn, and spawns a block when the
    /// count reaches the spawn rate.
    pub fn handle_block_spawning(&mut self)
        requires
            old(self).grid_size >= 1,
            old(self).block_spawn_counter < u64::MAX,
        ensures
            old(self).block_spawn_counter + 1 >= old(self).block_spawn_rate ==> {
                &&& spawned_onto(old(self).blocks@, final(self).blocks@, old(self).grid_size as int)
                &&& *final(self) == (GameState { blocks: final(self).blocks, block_spawn_counter: 0, ..*old(self) })
            },
            old(self).block_spawn_counter + 1 < old(self).block_spawn_rate ==> *final(self) == (GameState {
                block_spawn_counter: (old(self).block_spawn_counter + 1) as u64,
                ..*old(self)
            }),
    {
        self.block_spawn_counter = self.block_spawn_counter + 1;
        if self.block_spawn_counter >= self.block_spawn_rate {
            self.spawn_block();
            self.block_spawn_counter = 0;
        }
    }

    /// The player's half of a tick.
    pub fn update_player(&mut self)
        requires
            fits(old(self).player),
        ensures
            final(self).player == player_ticked(old(self).player, old(self).blocks@, old(self).grid_size as int),
            *final(self) == (GameState { player: final(self).player, ..*old(self) }),
            fits(final(self).player),
    {
        self.player.update_jump();
        self.player.update_fall_delay();
        self.player.update_falling_state(self.blocks.as_slice(), self.grid_size);
        if self.player.is_falling {
            self.player.apply_gravity();
        }
        self.player.land(self.blocks.as_slice(), self.grid_size);
    }

    /// The blocks' half of a tick: falling blocks step, a block may spawn,
    /// unsupported blocks start to fall, and one full row may be cleared.
    pub fn update_blocks(&mut self)
        requires
            old(self).well_formed(),
            old(self).score < u32::MAX,
        ensures
            exists|column: int| 0 <= column < old(self).grid_size && blocks_ticked(*old(self), *final(self), column),
            final(self).well_formed(),
    {
        let ghost s0 = *self;
        self.update_falling_blocks();
        let ghost bs1 = self.blocks@;
        self.handle_block_spawning();
        let ghost column: int = if s0.block_spawn_counter + 1 >= s0.block_spawn_rate {
            self.blocks@.last().position.0 as int
        } else {
            0
        };
        proof {
            if s0.block_spawn_counter + 1 >= s0.block_spawn_rate {
                assert(self.blocks@ =~= bs1.push(fresh_block((column as usize, 0usize))));
            }
            assert(on_grid(self.blocks@, s0.grid_size as int)) by {
                assert forall|i: int| 0 <= i < self.blocks@.len() implies (#[trigger] self.blocks@[i]).position.0
                    < s0.grid_size && self.blocks@[i].position.1 < s0.grid_size by {
                    if i < bs1.len() {
                        assert(self.blocks@[i] == bs1[i]);
                    }
                }
            }
        }
        self.check_for_levitating_blocks();
        let ghost bs3 = self.blocks@;
        self.check_full_rows();
        proof {
            let g = s0.grid_size as int;
            assert(on_grid(bs3, g));
            if let Some(row) = full_row_from(bs3, g, g - 1) {
                lemma_without_row_on_grid(bs3, row, g);
            }
            assert(blocks_ticked(s0, *self, column));
        }
    }

    /// Applies one resolved input. A finished game takes only a restart.
    pub fn process_input(&mut self, action: InputAction) -> (r: GameUpdateResult)
        requires
            old(self).well_formed(),
        ensures
            action == InputAction::Restart ==> r == GameUpdateResult::Restart && restarted(*old(self), *final(self)),
            action != InputAction::Restart && old(self).game_over ==> r == GameUpdateResult::GameOver
                && *final(self) == *old(self),
            action != InputAction::Restart && !old(self).game_over ==> r == GameUpdateResult::Continue
                && input_applied(*old(self), *final(self), action),
            final(self).well_formed(),
    {
        if self.game_over {
            if let InputAction::Restart = action {
                self.restart();
                return GameUpdateResult::Restart;
            }
            return GameUpdateResult::GameOver;
        }
        let ghost s0 = *self;
        match action {
            InputAction::Left => {
                self.last_move_direction = Some(-1);
                self.player.move_left(self.blocks.as_mut_slice());
                proof {
                    lemma_step_on_grid(s0.player, s0.blocks@, -1);
                }
            },
            InputAction::Right => {
                self.last_move_direction = Some(1);
                self.player.move_right(self.blocks.as_mut_slice());
                proof {
                    lemma_step_on_grid(s0.player, s0.blocks@, 1);
                }
            },
            InputAction::Up => {
                self.player.jump();
            },
            InputAction::Restart => {
                self.restart();
                return GameUpdateResult::Restart;
            },
            InputAction::Idle => {
                self.player.release_carried_blocks(self.blocks.as_mut_slice(), None);
                self.last_move_direction = None;
                assert(self.blocks@ =~= released_all(s0.blocks@, None));
            },
        }
        let ghost bs1 = self.blocks@;
        self.player.release_carried_blocks(self.blocks.as_mut_slice(), self.last_move_direction);
        assert(self.blocks@ =~= released_all(bs1, self.last_move_direction));
        self.check_for_levitating_blocks();
        GameUpdateResult::Continue
    }

    /// Runs one tick, unless the game is over: the player's half, then the
    /// blocks' half. The caller's timer calls it once per interval.
    pub fn update(&mut self) -> (r: GameUpdateResult)
        requires
            old(self).well_formed(),
            !old(self).game_over ==> old(self).score < u32::MAX,
        ensures
            old(self).game_over ==> r == GameUpdateResult::GameOver && *final(self) == *old(self),
            !old(self).game_over ==> exists|column: int|
                0 <= column < old(self).grid_size && ticked(*old(self), *final(self), column),
            !old(self).game_over ==> r == if final(self).game_over {
                GameUpdateResult::GameOver
            } else {
                GameUpdateResult::Continue
            },
            final(self).well_formed(),
    {
        if self.game_over {
            return GameUpdateResult::GameOver;
        }
        let ghost s0 = *self;
        self.update_player();
        let ghost s1 = *self;
        self.update_blocks();
        proof {
            let column = choose|column: int| 0 <= column < s1.grid_size && blocks_ticked(s1, *self, column);
            assert(ticked(s0, *self, column));
        }
        if self.game_over {
            GameUpdateResult::GameOver
        } else {
            GameUpdateResult::Continue
        }
    }


    /// Whether a tick is due, `elapsed_milliseconds` after the last one.
    pub fn tick_due(&self, elapsed_milliseconds: u64) -> (r: bool)
        ensures
            r == (elapsed_milliseconds >= self.refresh_rate_milliseconds),
    {
        elapsed_milliseconds >= self.refresh_rate_milliseconds
    }

}

/// Once the blocks have settled, every resting block lies on the bottom row
/// or on a resting block directly beneath it.
pub proof fn lemma_settled_supported(bs: Seq<Block>, grid_size: int, i: int)
    requires
        0 <= i < bs.len(),
        !settled(bs, grid_size)[i].falling,
    ensures
        ({
            let s = settled(bs, grid_size);
            let b = s[i];
            b.position.1 >= grid_size - 1 || resting_at(s, b.position.0 as int, b.position.1 + 1)
        }),
{
    let s = settled(bs, grid_size);
    let b = s[i];
    let x = b.position.0 as int;
    let y = b.position.1 as int;
    if y < grid_size - 1 {
        assert(resting_at(bs, x, y + 1));
        let j = choose|j: int| 0 <= j < bs.len() && !bs[j].falling && #[trigger] at(bs[j], x, y + 1);
        assert(anchored(bs, grid_size, x, y + 1)) by {
            assert forall|y2: int| y + 1 < y2 < grid_size implies #[trigger] resting_at(bs, x, y2) by {
                assert(resting_at(bs, x, y2));
            }
        }
        assert(!s[j].falling && at(s[j], x, y + 1));
    }
}

} // verus!
