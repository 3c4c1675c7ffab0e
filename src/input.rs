use vstd::prelude::*;
use crate::types::InputAction;

verus! {

/// The keys the game listens to.
#[derive(Debug, Clone, Copy, PartialEq, Eq, Structural)]
pub enum Key {
    Left,
    Right,
    Up,
}

/// `s` with every `k` taken out, the rest in order.
pub open spec fn without_key(s: Seq<Key>, k: Key) -> Seq<Key>
    decreases s.len(),
{
    if s.len() == 0 {
        s
    } else {
        let rest = without_key(s.drop_last(), k);
        if s.last() == k {
            rest
        } else {
            rest.push(s.last())
        }
    }
}

/// The action for a tick: a jump when Up was pressed since the last tick,
/// else the held direction pressed most recently, else none.
pub open spec fn resolved(up_pressed: bool, held: Seq<Key>) -> InputAction {
    if up_pressed {
        InputAction::Up
    } else if held.len() > 0 {
        match held.last() {
            Key::Left => InputAction::Left,
            Key::Right => InputAction::Right,
            Key::Up => InputAction::Idle,
        }
    } else {
        InputAction::Idle
    }
}

/// Turns key presses and releases into one action per tick.
pub struct InputArbiter {
    /// Up was pressed since the last tick.
    pub up_pressed: bool,
    /// The direction keys held down, the most recently pressed last.
    pub held_directions: Vec<Key>,
}

/// `s` without `k`, the rest in order.
fn remove_key(s: &Vec<Key>, k: Key) -> (r: Vec<Key>)
    ensures
        r@ == without_key(s@, k),
{
    let mut kept: Vec<Key> = Vec::new();
    let mut i: usize = 0;
    while i < s.len()
        invariant
            0 <= i <= s@.len(),
            kept@ == without_key(s@.take(i as int), k),
        decreases s.len() - i,
    {
        proof {
            assert(s@.take(i + 1).drop_last() =~= s@.take(i as int));
        }
        if s[i] != k {
            kept.push(s[i]);
        }
        i = i + 1;
    }
    assert(s@.take(s@.len() as int) =~= s@);
    kept
}

impl InputArbiter {
    /// An arbiter with no key held or pressed.
    pub fn new() -> (a: InputArbiter)
        ensures
            !a.up_pressed,
            a.held_directions@.len() == 0,
    {
        InputArbiter { up_pressed: false, held_directions: Vec::new() }
    }

    /// The action that the keys call for now.
    pub fn determine_movement(&self) -> (r: InputAction)
        ensures
            r == resolved(self.up_pressed, self.held_directions@),
    {
        if self.up_pressed {
            return InputAction::Up;
        }
        let n = self.held_directions.len();
        if n > 0 {
            return match self.held_directions[n - 1] {
                Key::Left => InputAction::Left,
                Key::Right => InputAction::Right,
                Key::Up => InputAction::Idle,
            };
        }
        InputAction::Idle
    }

    /// A key went down: Up is noted for the next tick, a direction becomes
    /// the most recently pressed one.
    pub fn key_down(&mut self, key: Key)
        ensures
            final(self).up_pressed == (old(self).up_pressed || key == Key::Up),
            final(self).held_directions@ == if key == Key::Up {
                old(self).held_directions@
            } else {
                without_key(old(self).held_directions@, key).push(key)
            },
    {
        if key == Key::Up {
            self.up_pressed = true;
        } else {
            let mut held = remove_key(&self.held_directions, key);
            held.push(key);
            self.held_directions = held;
        }
    }

    /// A key went up: a direction is no longer considered.
    pub fn key_up(&mut self, key: Key)
        ensures
            final(self).up_pressed == old(self).up_pressed,
            final(self).held_directions@ == if key == Key::Up {
                old(self).held_directions@
            } else {
                without_key(old(self).held_directions@, key)
            },
    {
        if key != Key::Up {
            self.held_directions = remove_key(&self.held_directions, key);
        }
    }

    /// The action for this tick; the Up press is then forgotten.
    pub fn take_action(&mut self) -> (r: InputAction)
        ensures
            r == resolved(old(self).up_pressed, old(self).held_directions@),
            !final(self).up_pressed,
            final(self).held_directions@ == old(self).held_directions@,
    {
        let action = self.determine_movement();
        self.up_pressed = false;
        action
    }
}

} // verus!
