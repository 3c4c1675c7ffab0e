use vstd::prelude::*;

verus! {

/// A cell of the grid: column, then row (row 0 is the top).
pub type Position = (usize, usize);

/// A horizontal direction: negative is left, positive is right.
pub type Direction = isize;

/// One resolved input for a tick.
#[derive(Debug, Clone, Copy, PartialEq, Eq, Structural)]
pub enum InputAction {
    Left,
    Right,
    Up,
    Restart,
    /// No key is held.
    Idle,
}

/// What a call into the game reports back.
#[derive(Debug, Clone, Copy, PartialEq, Eq, Structural)]
pub enum GameUpdateResult {
    Continue,
    GameOver,
    Restart,
}

/// The settings a game is started with. `cell_size` is the side of a cell in
/// pixels; only presentation reads it.
#[derive(Debug, Clone, Copy, PartialEq, Eq, Structural)]
pub struct GameConfig {
    pub grid_size: usize,
    pub cell_size: u32,
    pub refresh_rate_milliseconds: u64,
    pub block_fall_speed: usize,
    pub block_spawn_rate: u64,
}

} // verus!
