use vstd::prelude::*;
use crate::block::{any_block_at, any_resting_at, at, occupied, resting_at, Block};
use crate::types::Position;

verus! {

/// Ticks an unsupported player waits before starting to fall.
pub const FALL_DELAY: u8 = 3;

/// The player: a body `body_size` cells tall whose top cell is `position`.
pub struct Player {
    pub position: Position,
    /// Set while a jump is under way.
    pub in_air: bool,
    /// Set while the player falls for lack of support.
    pub is_falling: bool,
    /// Ticks left at the top of a jump.
    pub jump_counter: u8,
    /// Set on the tick of a jump, so that the jump timer waits one tick.
    pub just_jumped: bool,
    pub body_size: usize,
    /// Ticks left before an unsupported player starts to fall.
    pub fall_delay_counter: u8,
    /// The side of the grid, for the boundary checks.
    pub grid_size: usize,
}

/// The column a player starts in: the middle one, or the left of the two
/// middle ones.
pub open spec fn start_column(grid_size: int) -> int {
    if grid_size % 2 == 0 { grid_size / 2 - 1 } else { grid_size / 2 }
}

/// A player at the start of a game on a grid of side `grid_size`: at the
/// bottom of the start column, standing.
pub open spec fn new_player(grid_size: usize) -> Player {
    Player {
        position: (start_column(grid_size as int) as usize, (grid_size - 2) as usize),
        in_air: false,
        is_falling: false,
        jump_counter: 0,
        just_jumped: false,
        body_size: 2,
        fall_delay_counter: 0,
        grid_size,
    }
}

/// The player stands on the floor or on a resting block.
pub open spec fn supported(p: Player, bs: Seq<Block>, grid_size: int) -> bool {
    p.position.1 + p.body_size >= grid_size
        || resting_at(bs, p.position.0 as int, p.position.1 + p.body_size)
}

/// The rows of the player's body stay within `usize`.
pub open spec fn fits(p: Player) -> bool {
    p.position.1 + p.body_size <= usize::MAX
}

/// The player after a jump: up one cell and in the air, when standing
/// below the top row.
pub open spec fn jumped(p: Player) -> Player {
    if !p.in_air && !p.is_falling && p.position.1 > 0 {
        Player {
            position: (p.position.0, (p.position.1 - 1) as usize),
            in_air: true,
            jump_counter: 1,
            just_jumped: true,
            ..p
        }
    } else {
        p
    }
}

/// The player after a tick of the jump timer: the tick of the jump itself
/// only clears `just_jumped`; later ones count the time in the air down.
pub open spec fn jump_ticked(p: Player) -> Player {
    if p.just_jumped {
        Player { just_jumped: false, ..p }
    } else if p.in_air && p.jump_counter > 0 {
        Player { jump_counter: (p.jump_counter - 1) as u8, ..p }
    } else {
        p
    }
}

/// The player after the support check: an unsupported player not yet
/// falling starts the fall delay, a supported one stops falling; nothing
/// changes during a jump.
pub open spec fn fall_state_checked(p: Player, bs: Seq<Block>, grid_size: int) -> Player {
    if p.in_air {
        p
    } else if !supported(p, bs, grid_size) {
        if !p.is_falling && p.fall_delay_counter == 0 {
            Player { fall_delay_counter: FALL_DELAY, ..p }
        } else {
            p
        }
    } else {
        Player { is_falling: false, fall_delay_counter: 0, ..p }
    }
}

/// The player after gravity: a falling player moves down one cell, never
/// below the bottom row.
pub open spec fn gravity_applied(p: Player) -> Player {
    if p.is_falling && p.position.1 + p.body_size < p.grid_size {
        Player { position: (p.position.0, (p.position.1 + 1) as usize), ..p }
    } else {
        p
    }
}

/// The player after a tick of the fall delay: when it runs out, a player
/// not in a jump starts to fall.
pub open spec fn fall_delay_ticked(p: Player) -> Player {
    if p.fall_delay_counter > 0 {
        let c = (p.fall_delay_counter - 1) as u8;
        Player {
            fall_delay_counter: c,
            is_falling: if c == 0 && !p.in_air { true } else { p.is_falling },
            ..p
        }
    } else {
        p
    }
}

/// The player after landing: a finished jump ends, in a fall when nothing
/// is beneath; a fall ends once there is support.
pub open spec fn landed(p: Player, bs: Seq<Block>, grid_size: int) -> Player {
    let q = if p.in_air && p.jump_counter == 0 && !p.just_jumped {
        Player { in_air: false, is_falling: !supported(p, bs, grid_size), ..p }
    } else {
        p
    };
    if q.is_falling && supported(q, bs, grid_size) {
        Player { is_falling: false, ..q }
    } else {
        q
    }
}

/// The first body row `r >= from` (counted from the head) beside which, in
/// column `x`, some block stands; `body` when there is none.
pub open spec fn first_row_hit(bs: Seq<Block>, x: int, y: int, body: int, from: int) -> int
    decreases body - from,
{
    if from >= body {
        body
    } else if occupied(bs, x, y + from) {
        from
    } else {
        first_row_hit(bs, x, y, body, from + 1)
    }
}

/// The first index `i >= from` of a block standing on `(x, y)`; `bs.len()`
/// when there is none.
pub open spec fn first_at(bs: Seq<Block>, x: int, y: int, from: int) -> int
    decreases bs.len() - from,
{
    if from >= bs.len() {
        bs.len() as int
    } else if at(bs[from], x, y) {
        from
    } else {
        first_at(bs, x, y, from + 1)
    }
}

/// The block that stops a player stepping into column `x`: the first one
/// found beside the body, scanning from the head down.
pub open spec fn blocker(p: Player, bs: Seq<Block>, x: int) -> Option<int> {
    let r = first_row_hit(bs, x, p.position.1 as int, p.body_size as int, 0);
    if r < p.body_size {
        Some(first_at(bs, x, p.position.1 + r, 0))
    } else {
        None
    }
}

/// A column one step from `x` in direction `d` still lies on the grid.
pub open spec fn step_fits(x: int, d: int, grid_size: int) -> bool {
    if d < 0 { x > 0 } else { x + 1 < grid_size }
}

/// The carried block can enter its new cell and no other block stands in
/// the way of the player's body below the head.
pub open spec fn carry_clear(p: Player, bs: Seq<Block>, i: int, player_x: int, block_x: int) -> bool {
    &&& !occupied(bs, block_x, bs[i].position.1 as int)
    &&& !(exists|j: int, r: int|
        0 <= j < bs.len() && j != i && 1 <= r < p.body_size && #[trigger] at(
            bs[j],
            player_x,
            p.position.1 + r,
        ))
}

/// The sign of `v`.
pub open spec fn sign(v: int) -> int {
    if v > 0 { 1 } else if v < 0 { -1 } else { 0 }
}

/// A falling block moved to column `x`; marked as carried in direction `d`
/// when it was met at the player's head.
pub open spec fn carried_block(b: Block, x: int, head: bool, d: int) -> Block {
    if head {
        Block {
            position: (x as usize, b.position.1),
            carried: true,
            carrying_direction: Some(d as isize),
            ..b
        }
    } else {
        Block { position: (x as usize, b.position.1), ..b }
    }
}

/// Block `k` moves with a push into column `x`: it rests in that column,
/// beside the player's body or above the head on an unbroken stack of
/// resting blocks that reaches the head's row.
pub open spec fn pushable(p: Player, bs: Seq<Block>, x: int, k: int) -> bool {
    let top = p.position.1 as int;
    let y = bs[k].position.1 as int;
    &&& 0 <= k < bs.len()
    &&& bs[k].position.0 == x
    &&& !bs[k].falling
    &&& (top <= y < top + p.body_size || (y < top && forall|y2: int|
        y < y2 <= top ==> #[trigger] resting_at(bs, x, y2)))
}

/// Every pushable block of column `x` can enter its cell in column `to`:
/// none stands there but pushable ones.
pub open spec fn push_clear(p: Player, bs: Seq<Block>, x: int, to: int) -> bool {
    !(exists|k: int, j: int|
        #![trigger pushable(p, bs, x, k), at(bs[j], to, bs[k].position.1 as int)]
        pushable(p, bs, x, k) && 0 <= j < bs.len() && !pushable(p, bs, x, j) && at(
            bs[j],
            to,
            bs[k].position.1 as int,
        ))
}

/// The blocks after the pushable ones of column `x` moved to column `to`.
pub open spec fn pushed(p: Player, bs: Seq<Block>, x: int, to: int) -> Seq<Block> {
    Seq::new(
        bs.len(),
        |k: int|
            if pushable(p, bs, x, k) {
                Block { position: (to as usize, bs[k].position.1), ..bs[k] }
            } else {
                bs[k]
            },
    )
}

/// The player standing in column `x`, all else kept.
pub open spec fn moved_to(p: Player, x: int) -> Player {
    Player { position: (x as usize, p.position.1), ..p }
}

/// The blocks after the player carries falling block `i` into column `to`,
/// stepping into column `player_x`; `None` when the way is blocked.
pub open spec fn carry_result(p: Player, bs: Seq<Block>, i: int, player_x: int, to: int) -> Option<Seq<Block>> {
    if carry_clear(p, bs, i, player_x, to) {
        let head = bs[i].position.1 == p.position.1;
        Some(bs.update(i, carried_block(bs[i], to, head, sign(to - bs[i].position.0))))
    } else {
        None
    }
}

/// The blocks after the player pushes column `x` into column `to`; `None`
/// when nothing there can be pushed or the push is blocked.
pub open spec fn push_result(p: Player, bs: Seq<Block>, x: int, to: int) -> Option<Seq<Block>> {
    if (exists|k: int| pushable(p, bs, x, k)) && push_clear(p, bs, x, to) {
        Some(pushed(p, bs, x, to))
    } else {
        None
    }
}

/// The blocks after the player, stepping by `d` into column `player_x`,
/// meets block `i`: it is carried when falling and pushed with its column
/// when resting; `None` when the block cannot move.
pub open spec fn collision_result(p: Player, bs: Seq<Block>, i: int, d: int, player_x: int, grid_size: int) -> Option<Seq<Block>> {
    let bx = bs[i].position.0 as int;
    if !step_fits(bx, d, grid_size) {
        None
    } else if bs[i].falling {
        carry_result(p, bs, i, player_x, bx + d)
    } else {
        push_result(p, bs, bx, bx + d)
    }
}

/// What a step by `d` (one column left or right) does to the blocks, when
/// the player may take it; `None` when the step is refused.
pub open spec fn shove(p: Player, bs: Seq<Block>, d: int) -> Option<Seq<Block>> {
    let x = p.position.0 as int;
    if p.fall_delay_counter > 0 || !step_fits(x, d, p.grid_size as int) {
        None
    } else {
        match blocker(p, bs, x + d) {
            None => Some(bs),
            Some(i) => collision_result(p, bs, i, d, x + d, p.grid_size as int),
        }
    }
}

/// Block `b` after the player's direction became `dir`: a carried block
/// whose carrying direction differs is let go and falls again.
pub open spec fn released(b: Block, dir: Option<isize>) -> Block {
    if b.carried && dir != b.carrying_direction {
        Block { carried: false, falling: true, carrying_direction: None, ..b }
    } else {
        b
    }
}

/// The player after a step by `d` into blocks `bs`: in the new column, with
/// the fall delay started when the step left them standing on nothing.
pub open spec fn stepped(p: Player, bs: Seq<Block>, d: int) -> Player {
    let q = moved_to(p, p.position.0 + d);
    if !q.in_air && !q.is_falling && !supported(q, bs, q.grid_size as int) {
        Player { fall_delay_counter: FALL_DELAY, ..q }
    } else {
        q
    }
}

/// The player and the blocks after a step by `d`; both unchanged when the
/// step is refused.
pub open spec fn step(p: Player, bs: Seq<Block>, d: int) -> (Player, Seq<Block>) {
    match shove(p, bs, d) {
        Some(nbs) => (stepped(p, nbs, d), nbs),
        None => (p, bs),
    }
}

/// Every block lies on the `grid_size` by `grid_size` grid.
pub open spec fn on_grid(bs: Seq<Block>, grid_size: int) -> bool {
    forall|i: int|
        0 <= i < bs.len() ==> (#[trigger] bs[i]).position.0 < grid_size && bs[i].position.1 < grid_size
}

proof fn lemma_first_row_hit(bs: Seq<Block>, x: int, y: int, body: int, from: int)
    requires
        from <= body,
    ensures
        from <= first_row_hit(bs, x, y, body, from) <= body,
        first_row_hit(bs, x, y, body, from) < body ==> occupied(
            bs,
            x,
            y + first_row_hit(bs, x, y, body, from),
        ),
    decreases body - from,
{
    if from < body && !occupied(bs, x, y + from) {
        lemma_first_row_hit(bs, x, y, body, from + 1);
    }
}

proof fn lemma_first_at(bs: Seq<Block>, x: int, y: int, from: int)
    requires
        0 <= from,
        exists|j: int| from <= j < bs.len() && #[trigger] at(bs[j], x, y),
    ensures
        from <= first_at(bs, x, y, from) < bs.len(),
        at(bs[first_at(bs, x, y, from)], x, y),
    decreases bs.len() - from,
{
    if !at(bs[from], x, y) {
        let j = choose|j: int| from <= j < bs.len() && #[trigger] at(bs[j], x, y);
        assert(from + 1 <= j);
        lemma_first_at(bs, x, y, from + 1);
    }
}

/// The block that stops a step is one of the blocks, in the column stepped
/// into, beside the player's body.
pub proof fn lemma_blocker_in_range(p: Player, bs: Seq<Block>, x: int)
    requires
        blocker(p, bs, x) is Some,
    ensures
        0 <= blocker(p, bs, x)->0 < bs.len(),
        bs[blocker(p, bs, x)->0].position.0 == x,
        p.position.1 <= bs[blocker(p, bs, x)->0].position.1 < p.position.1 + p.body_size,
{
    let r = first_row_hit(bs, x, p.position.1 as int, p.body_size as int, 0);
    lemma_first_row_hit(bs, x, p.position.1 as int, p.body_size as int, 0);
    lemma_first_at(bs, x, p.position.1 + r, 0);
}

/// A step keeps every block on the grid.
pub proof fn lemma_step_on_grid(p: Player, bs: Seq<Block>, d: int)
    requires
        on_grid(bs, p.grid_size as int),
        d == 1 || d == -1,
    ensures
        on_grid(step(p, bs, d).1, p.grid_size as int),
{
    let x = p.position.0 + d;
    if shove(p, bs, d) is Some {
        if blocker(p, bs, x) is Some {
            lemma_blocker_in_range(p, bs, x);
        }
    }
}

/// A push is all or nothing: when a block that would move with the push
/// has its new cell taken by a block that would not, neither the player
/// nor any block moves.
pub proof fn lemma_push_atomic(p: Player, bs: Seq<Block>, d: int, k: int, j: int)
    requires
        d == 1 || d == -1,
        blocker(p, bs, p.position.0 + d) is Some,
        !bs[blocker(p, bs, p.position.0 + d)->0].falling,
        pushable(p, bs, p.position.0 + d, k),
        0 <= j < bs.len(),
        !pushable(p, bs, p.position.0 + d, j),
        at(bs[j], p.position.0 + d + d, bs[k].position.1 as int),
    ensures
        step(p, bs, d) == (p, bs),
{
    lemma_blocker_in_range(p, bs, p.position.0 + d);
}

impl Player {
    pub fn new(grid_size: usize) -> (p: Player)
        requires
            grid_size >= 2,
        ensures
            p == new_player(grid_size),
    {
        let body_height: usize = 2;
        let start_x: usize = if grid_size % 2 == 0 { grid_size / 2 - 1 } else { grid_size / 2 };
        Player {
            position: (start_x, grid_size - body_height),
            in_air: false,
            is_falling: false,
            jump_counter: 0,
            just_jumped: false,
            body_size: body_height,
            fall_delay_counter: 0,
            grid_size,
        }
    }

    /// Starts a jump: the player rises one cell, if standing and not at the top.
    pub fn jump(&mut self)
        ensures
            *final(self) == jumped(*old(self)),
    {
        if !self.in_air && !self.is_falling && self.position.1 > 0 {
            self.position.1 = self.position.1 - 1;
            self.in_air = true;
            self.jump_counter = 1;
            self.just_jumped = true;
        }
    }

    /// Advances the jump timer by one tick.
    pub fn update_jump(&mut self)
        ensures
            *final(self) == jump_ticked(*old(self)),
    {
        if self.just_jumped {
            self.just_jumped = false;
        } else if self.in_air && self.jump_counter > 0 {
            self.jump_counter = self.jump_counter - 1;
        }
    }

    /// Whether the floor or a resting block is directly beneath the player.
    pub fn has_support(&self, blocks: &[Block], grid_size: usize) -> (r: bool)
        requires
            fits(*self),
        ensures
            r == supported(*self, blocks@, grid_size as int),
    {
        let below = self.position.1 + self.body_size;
        if below >= grid_size {
            return true;
        }
        any_resting_at(blocks, self.position.0, below)
    }

    /// Starts the fall delay when the player has lost support, and clears
    /// the falling state when the player has it; nothing during a jump.
    pub fn update_falling_state(&mut self, blocks: &[Block], grid_size: usize)
        requires
            fits(*old(self)),
        ensures
            *final(self) == fall_state_checked(*old(self), blocks@, grid_size as int),
    {
        if self.in_air {
            return;
        }
        if !self.has_support(blocks, grid_size) {
            if !self.is_falling && self.fall_delay_counter == 0 {
                self.fall_delay_counter = FALL_DELAY;
            }
        } else {
            self.is_falling = false;
            self.fall_delay_counter = 0;
        }
    }

    /// Moves a falling player down one cell, never below the bottom row.
    pub fn apply_gravity(&mut self)
        ensures
            *final(self) == gravity_applied(*old(self)),
    {
        if self.is_falling && self.position.1 < self.grid_size
            && self.body_size < self.grid_size - self.position.1 {
            self.position.1 = self.position.1 + 1;
        }
    }

    /// Counts the fall delay down; at zero the player starts falling.
    pub fn update_fall_delay(&mut self)
        ensures
            *final(self) == fall_delay_ticked(*old(self)),
    {
        if self.fall_delay_counter > 0 {
            self.fall_delay_counter = self.fall_delay_counter - 1;
            if self.fall_delay_counter == 0 && !self.in_air {
                self.is_falling = true;
            }
        }
    }

    /// Ends a finished jump, falling on when there is nothing beneath, and
    /// ends a fall once the player has support.
    pub fn land(&mut self, blocks: &[Block], grid_size: usize)
        requires
            fits(*old(self)),
        ensures
            *final(self) == landed(*old(self), blocks@, grid_size as int),
    {
        if self.in_air && self.jump_counter == 0 && !self.just_jumped {
            let has_support = self.has_support(blocks, grid_size);
            if !has_support {
                self.in_air = false;
                self.is_falling = true;
            } else {
                self.in_air = false;
            }
        }
        if self.is_falling && self.has_support(blocks, grid_size) {
            self.is_falling = false;
        }
    }

    /// Whether a step by `move_by` keeps the player on the grid.
    fn can_move_in_direction(&self, move_by: isize, grid_size: usize) -> (r: bool)
        ensures
            r == step_fits(self.position.0 as int, move_by as int, grid_size as int),
    {
        if move_by < 0 {
            self.position.0 > 0
        } else {
            self.position.0 < grid_size && 1 < grid_size - self.position.0
        }
    }

    /// Whether a block in column `block_x` can move one step by `move_by`.
    fn can_block_move_in_direction(&self, block_x: usize, move_by: isize, grid_size: usize) -> (r: bool)
        ensures
            r == step_fits(block_x as int, move_by as int, grid_size as int),
    {
        if move_by < 0 {
            block_x > 0
        } else {
            block_x < grid_size && 1 < grid_size - block_x
        }
    }

    /// The block standing beside the player's body in column `target_x`,
    /// scanning the body from the head down.
    fn find_blocking_block(&self, target_x: usize, blocks: &[Block]) -> (r: Option<usize>)
        requires
            fits(*self),
        ensures
            r is None <==> blocker(*self, blocks@, target_x as int) is None,
            r is Some ==> blocker(*self, blocks@, target_x as int) == Some(r->0 as int),
            r is Some ==> r->0 < blocks@.len() && blocks@[r->0 as int].position.0 == target_x,
    {
        let ghost bs = blocks@;
        let ghost x = target_x as int;
        let ghost y = self.position.1 as int;
        let ghost body = self.body_size as int;
        let mut row: usize = 0;
        while row < self.body_size
            invariant
                fits(*self),
                bs == blocks@,
                x == target_x,
                y == self.position.1,
                body == self.body_size,
                0 <= row <= body,
                first_row_hit(bs, x, y, body, 0) == first_row_hit(bs, x, y, body, row as int),
            decreases self.body_size - row,
        {
            let yy = self.position.1 + row;
            let mut i: usize = 0;
            while i < blocks.len()
                invariant
                    bs == blocks@,
                    x == target_x,
                    y == self.position.1,
                    body == self.body_size,
                    0 <= i <= bs.len(),
                    row < body,
                    yy == y + row,
                    first_row_hit(bs, x, y, body, 0) == first_row_hit(bs, x, y, body, row as int),
                    forall|j: int| 0 <= j < i ==> !at(#[trigger] bs[j], x, yy as int),
                    first_at(bs, x, yy as int, 0) == first_at(bs, x, yy as int, i as int),
                decreases blocks.len() - i,
            {
                if blocks[i].position.0 == target_x && blocks[i].position.1 == yy {
                    assert(at(bs[i as int], x, yy as int));
                    assert(occupied(bs, x, y + row));
                    return Some(i);
                }
                i = i + 1;
            }
            assert(!occupied(bs, x, y + row));
            row = row + 1;
        }
        None
    }

    /// Whether a block other than `skip` stands in column `x` beside the
    /// player's body below the head.
    fn body_blocked(&self, skip: usize, x: usize, blocks: &[Block]) -> (r: bool)
        requires
            fits(*self),
        ensures
            r == (exists|j: int, k: int|
                0 <= j < blocks@.len() && j != skip && 1 <= k < self.body_size && #[trigger] at(
                    blocks@[j],
                    x as int,
                    self.position.1 + k,
                )),
    {
        let mut k: usize = 1;
        while k < self.body_size
            invariant
                fits(*self),
                1 <= k,
                forall|j: int, k2: int|
                    0 <= j < blocks@.len() && j != skip && 1 <= k2 < k ==> !#[trigger] at(
                        blocks@[j],
                        x as int,
                        self.position.1 + k2,
                    ),
            decreases self.body_size - k,
        {
            let yy = self.position.1 + k;
            let mut j: usize = 0;
            while j < blocks.len()
                invariant
                    fits(*self),
                    1 <= k < self.body_size,
                    yy == self.position.1 + k,
                    0 <= j <= blocks@.len(),
                    forall|j2: int, k2: int|
                        0 <= j2 < blocks@.len() && j2 != skip && 1 <= k2 < k ==> !#[trigger] at(
                            blocks@[j2],
                            x as int,
                            self.position.1 + k2,
                        ),
                    forall|j2: int|
                        0 <= j2 < j && j2 != skip ==> !#[trigger] at(blocks@[j2], x as int, yy as int),
                decreases blocks.len() - j,
            {
                if j != skip && blocks[j].position.0 == x && blocks[j].position.1 == yy {
                    assert(at(blocks@[j as int], x as int, self.position.1 + k));
                    return true;
                }
                j = j + 1;
            }
            k = k + 1;
        }
        false
    }

    /// Carries falling block `block_idx` into column `block_target_x` while
    /// the player steps into column `player_target_x`, when nothing is in
    /// the way.
    fn handle_falling_block_movement(
        &mut self,
        block_idx: usize,
        block_target_x: usize,
        player_target_x: usize,
        blocks: &mut [Block],
    )
        requires
            block_idx < old(blocks)@.len(),
            fits(*old(self)),
        ensures
            match carry_result(*old(self), old(blocks)@, block_idx as int, player_target_x as int, block_target_x as int) {
                Some(nbs) => final(blocks)@ == nbs && *final(self) == moved_to(*old(self), player_target_x as int),
                None => final(blocks)@ == old(blocks)@ && *final(self) == *old(self),
            },
    {
        let b = blocks[block_idx];
        let is_block_blocked = any_block_at(blocks, block_target_x, b.position.1);
        let is_player_blocked = self.body_blocked(block_idx, player_target_x, blocks);
        if !is_block_blocked && !is_player_blocked {
            let mut nb = b;
            if b.position.1 == self.position.1 {
                let dir: isize = if block_target_x > b.position.0 {
                    1
                } else if block_target_x < b.position.0 {
                    -1
                } else {
                    0
                };
                nb.carried = true;
                nb.carrying_direction = Some(dir);
            }
            nb.position = (block_target_x, b.position.1);
            blocks[block_idx] = nb;
            self.position.0 = player_target_x;
        }
    }


    /// Marks the blocks that a push moves along with the resting blocks of
    /// column `block_x`: those beside the body, and those stacked without a
    /// gap above them up to the head's row.
    fn find_pushable_blocks(&self, block_x: usize, blocks: &[Block]) -> (mask: Vec<bool>)
        requires
            fits(*self),
        ensures
            mask@.len() == blocks@.len(),
            forall|k: int| 0 <= k < blocks@.len() ==> mask@[k] == pushable(*self, blocks@, block_x as int, k),
    {
        let ghost bs = blocks@;
        let ghost x = block_x as int;
        let top = self.position.1;
        // Walk up from the head's row while the column holds resting blocks.
        let mut lo = top;
        let mut climbing = true;
        while climbing
            invariant
                bs == blocks@,
                x == block_x,
                top == self.position.1,
                lo <= top,
                forall|y2: int| lo < y2 <= top ==> #[trigger] resting_at(bs, x, y2),
                !climbing ==> (lo == 0 || !resting_at(bs, x, lo as int)),
            decreases lo + if climbing { 1int } else { 0int },
        {
            if lo > 0 && any_resting_at(blocks, block_x, lo) {
                lo = lo - 1;
            } else {
                climbing = false;
            }
        }
        let end = top + self.body_size;
        let mut mask: Vec<bool> = Vec::new();
        let mut i: usize = 0;
        while i < blocks.len()
            invariant
                fits(*self),
                bs == blocks@,
                x == block_x,
                top == self.position.1,
                end == top + self.body_size,
                lo <= top,
                forall|y2: int| lo < y2 <= top ==> #[trigger] resting_at(bs, x, y2),
                lo == 0 || !resting_at(bs, x, lo as int),
                0 <= i <= bs.len(),
                mask@.len() == i,
                forall|k: int| 0 <= k < i ==> mask@[k] == pushable(*self, bs, x, k),
            decreases blocks.len() - i,
        {
            let b = blocks[i];
            let m = b.position.0 == block_x && !b.falling && lo <= b.position.1 && b.position.1 < end;
            proof {
                let y = b.position.1 as int;
                if y < lo {
                    assert(lo > 0);
                    if y < top && (forall|y2: int| y < y2 <= top ==> #[trigger] resting_at(bs, x, y2)) {
                        assert(resting_at(bs, x, lo as int));
                    }
                }
            }
            mask.push(m);
            i = i + 1;
        }
        mask
    }

    /// Whether every marked block can enter its cell in column `target_x`:
    /// no unmarked block stands there.
    fn is_path_clear_for_blocks(&self, pushable: &[bool], target_x: usize, blocks: &[Block]) -> (r: bool)
        requires
            pushable@.len() == blocks@.len(),
        ensures
            r == !(exists|k: int, j: int|
                #![trigger pushable@[k], at(blocks@[j], target_x as int, blocks@[k].position.1 as int)]
                0 <= k < blocks@.len() && pushable@[k] && 0 <= j < blocks@.len() && !pushable@[j]
                    && at(blocks@[j], target_x as int, blocks@[k].position.1 as int)),
    {
        let mut k: usize = 0;
        while k < blocks.len()
            invariant
                pushable@.len() == blocks@.len(),
                0 <= k <= blocks@.len(),
                forall|k2: int, j: int|
                    #![trigger pushable@[k2], at(blocks@[j], target_x as int, blocks@[k2].position.1 as int)]
                    0 <= k2 < k && pushable@[k2] && 0 <= j < blocks@.len() && !pushable@[j] ==> !at(
                        blocks@[j],
                        target_x as int,
                        blocks@[k2].position.1 as int,
                    ),
            decreases blocks.len() - k,
        {
            if pushable[k] {
                let y = blocks[k].position.1;
                let mut j: usize = 0;
                while j < blocks.len()
                    invariant
                        pushable@.len() == blocks@.len(),
                        0 <= k < blocks@.len(),
                        pushable@[k as int],
                        y == blocks@[k as int].position.1,
                        0 <= j <= blocks@.len(),
                        forall|k2: int, j2: int|
                            #![trigger pushable@[k2], at(blocks@[j2], target_x as int, blocks@[k2].position.1 as int)]
                            0 <= k2 < k && pushable@[k2] && 0 <= j2 < blocks@.len() && !pushable@[j2] ==> !at(
                                blocks@[j2],
                                target_x as int,
                                blocks@[k2].position.1 as int,
                            ),
                        forall|j2: int|
                            0 <= j2 < j && !pushable@[j2] ==> !#[trigger] at(blocks@[j2], target_x as int, y as int),
                    decreases blocks.len() - j,
                {
                    if !pushable[j] && blocks[j].position.0 == target_x && blocks[j].position.1 == y {
                        assert(at(blocks@[j as int], target_x as int, blocks@[k as int].position.1 as int));
                        return false;
                    }
                    j = j + 1;
                }
            }
            k = k + 1;
        }
        true
    }

    /// Pushes the resting blocks of column `block_x` that move with a push
    /// into column `block_target_x` while the player steps into column
    /// `player_target_x`; nothing moves when any of them is blocked.
    fn handle_normal_block_movement(
        &mut self,
        block_x: usize,
        block_target_x: usize,
        player_target_x: usize,
        blocks: &mut [Block],
    )
        requires
            fits(*old(self)),
        ensures
            match push_result(*old(self), old(blocks)@, block_x as int, block_target_x as int) {
                Some(nbs) => final(blocks)@ == nbs && *final(self) == moved_to(*old(self), player_target_x as int),
                None => final(blocks)@ == old(blocks)@ && *final(self) == *old(self),
            },
    {
        let ghost bs = blocks@;
        let ghost x = block_x as int;
        let ghost to = block_target_x as int;
        let mask = self.find_pushable_blocks(block_x, blocks);
        let mut any = false;
        let mut i: usize = 0;
        while i < mask.len()
            invariant
                0 <= i <= mask@.len(),
                mask@.len() == bs.len(),
                any == (exists|k: int| 0 <= k < i && #[trigger] mask@[k]),
            decreases mask.len() - i,
        {
            if mask[i] {
                any = true;
            }
            i = i + 1;
        }
        if !any {
            assert(!(exists|k: int| pushable(*self, bs, x, k))) by {
                if exists|k: int| pushable(*self, bs, x, k) {
                    let k = choose|k: int| pushable(*self, bs, x, k);
                    assert(mask@[k]);
                }
            }
            return;
        }
        if !self.is_path_clear_for_blocks(mask.as_slice(), block_target_x, blocks) {
            assert(!push_clear(*self, bs, x, to)) by {
                let (k, j) = choose|k: int, j: int|
                    0 <= k < bs.len() && mask@[k] && 0 <= j < bs.len() && !mask@[j]
                        && at(bs[j], to, bs[k].position.1 as int);
                assert(pushable(*self, bs, x, k) && !pushable(*self, bs, x, j));
            }
            return;
        }
        assert(push_clear(*self, bs, x, to)) by {
            if !push_clear(*self, bs, x, to) {
                let (k, j) = choose|k: int, j: int|
                    pushable(*self, bs, x, k) && 0 <= j < bs.len() && !pushable(*self, bs, x, j)
                        && at(bs[j], to, bs[k].position.1 as int);
                assert(mask@[k] && !mask@[j]);
            }
        }
        let ghost p0 = *self;
        let mut i: usize = 0;
        while i < blocks.len()
            invariant
                blocks@.len() == bs.len(),
                mask@.len() == bs.len(),
                x == block_x,
                to == block_target_x,
                forall|k: int| 0 <= k < bs.len() ==> mask@[k] == pushable(p0, bs, x, k),
                0 <= i <= bs.len(),
                forall|k: int| 0 <= k < i ==> blocks@[k] == pushed(p0, bs, x, to)[k],
                forall|k: int| i <= k < bs.len() ==> blocks@[k] == bs[k],
            decreases blocks.len() - i,
        {
            if mask[i] {
                let mut b = blocks[i];
                b.position = (block_target_x, b.position.1);
                blocks[i] = b;
            }
            i = i + 1;
        }
        assert(blocks@ =~= pushed(p0, bs, x, to));
        self.position.0 = player_target_x;
    }


    /// Meets block `block_idx` while stepping by `move_by` into column
    /// `target_x`: carries it when falling, pushes its column when resting.
    fn handle_block_collision(
        &mut self,
        block_idx: usize,
        move_by: isize,
        target_x: usize,
        grid_size: usize,
        blocks: &mut [Block],
    )
        requires
            block_idx < old(blocks)@.len(),
            move_by == 1 || move_by == -1,
            fits(*old(self)),
        ensures
            match collision_result(*old(self), old(blocks)@, block_idx as int, move_by as int, target_x as int, grid_size as int) {
                Some(nbs) => final(blocks)@ == nbs && *final(self) == moved_to(*old(self), target_x as int),
                None => final(blocks)@ == old(blocks)@ && *final(self) == *old(self),
            },
    {
        let block = blocks[block_idx];
        if !self.can_block_move_in_direction(block.position.0, move_by, grid_size) {
            return;
        }
        let block_target_x: usize = if move_by < 0 { block.position.0 - 1 } else { block.position.0 + 1 };
        if block.falling {
            self.handle_falling_block_movement(block_idx, block_target_x, target_x, blocks);
        } else {
            self.handle_normal_block_movement(block.position.0, block_target_x, target_x, blocks);
        }
    }

    /// Starts the fall delay when a step has left a standing player with
    /// nothing beneath.
    fn check_support_after_move(&mut self, grid_size: usize, blocks: &[Block])
        requires
            fits(*old(self)),
        ensures
            *final(self) == if !old(self).in_air && !old(self).is_falling && !supported(*old(self), blocks@, grid_size as int) {
                Player { fall_delay_counter: FALL_DELAY, ..*old(self) }
            } else {
                *old(self)
            },
    {
        if !self.in_air && !self.is_falling && !self.has_support(blocks, grid_size) {
            self.fall_delay_counter = FALL_DELAY;
        }
    }

    /// Steps one column by `move_by`, carrying or pushing what stands in
    /// the way, unless the step is refused.
    fn move_horizontal(&mut self, move_by: isize, grid_size: usize, blocks: &mut [Block])
        requires
            move_by == 1 || move_by == -1,
            grid_size == old(self).grid_size,
            fits(*old(self)),
        ensures
            match shove(*old(self), old(blocks)@, move_by as int) {
                Some(nbs) => final(blocks)@ == nbs && *final(self) == stepped(*old(self), nbs, move_by as int),
                None => final(blocks)@ == old(blocks)@ && *final(self) == *old(self),
            },
    {
        if self.fall_delay_counter > 0 {
            return;
        }
        if !self.can_move_in_direction(move_by, grid_size) {
            return;
        }
        let target_x: usize = if move_by < 0 { self.position.0 - 1 } else { self.position.0 + 1 };
        match self.find_blocking_block(target_x, blocks) {
            Some(block_idx) => {
                self.handle_block_collision(block_idx, move_by, target_x, grid_size, blocks);
            },
            None => {
                self.position.0 = target_x;
            },
        }
        if self.position.0 == target_x {
            self.check_support_after_move(grid_size, blocks);
        }
    }

    /// Lets go of every carried block whose carrying direction is not
    /// `current_direction`: it falls again.
    pub fn release_carried_blocks(&self, blocks: &mut [Block], current_direction: Option<isize>)
        ensures
            final(blocks)@.len() == old(blocks)@.len(),
            forall|i: int|
                0 <= i < old(blocks)@.len() ==> final(blocks)@[i] == released(old(blocks)@[i], current_direction),
    {
        let ghost bs = blocks@;
        let mut i: usize = 0;
        while i < blocks.len()
            invariant
                blocks@.len() == bs.len(),
                0 <= i <= bs.len(),
                forall|k: int| 0 <= k < i ==> blocks@[k] == released(bs[k], current_direction),
                forall|k: int| i <= k < bs.len() ==> blocks@[k] == bs[k],
            decreases blocks.len() - i,
        {
            let b = blocks[i];
            if b.carried {
                let same = match (current_direction, b.carrying_direction) {
                    (Some(a), Some(c)) => a == c,
                    (None, None) => true,
                    _ => false,
                };
                if !same {
                    let mut nb = b;
                    nb.carried = false;
                    nb.falling = true;
                    nb.carrying_direction = None;
                    blocks[i] = nb;
                }
            }
            i = i + 1;
        }
    }

    /// Steps one column left; see [`shove`]. At the left edge nothing moves.
    pub fn move_left(&mut self, blocks: &mut [Block])
        requires
            fits(*old(self)),
        ensures
            (*final(self), final(blocks)@) == step(*old(self), old(blocks)@, -1),
            old(self).position.0 == 0 ==> final(blocks)@ == old(blocks)@ && *final(self) == *old(self),
    {
        let grid_size = self.grid_size;
        self.move_horizontal(-1, grid_size, blocks);
    }

    /// Steps one column right; see [`shove`]. At the right edge nothing
    /// moves.
    pub fn move_right(&mut self, blocks: &mut [Block])
        requires
            fits(*old(self)),
        ensures
            (*final(self), final(blocks)@) == step(*old(self), old(blocks)@, 1),
            old(self).position.0 + 1 >= old(self).grid_size ==> final(blocks)@ == old(blocks)@
                && *final(self) == *old(self),
    {
        let grid_size = self.grid_size;
        self.move_horizontal(1, grid_size, blocks);
    }

}

} // verus!
