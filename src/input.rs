//! Input state and game timers.

use vstd::prelude::*;
use crate::state::State;

verus! {

/// Timer periods or counters, in ticks.
#[derive(Copy, Clone, Debug, PartialEq, Eq, Structural)]
pub struct Clock {
    pub gravity: i32,
    pub player: i32,
}

/// How many times each key is held down, or whether it was pressed.
#[derive(Copy, Clone, Debug, PartialEq, Eq, Structural)]
pub struct InputState {
    pub move_left: u8,
    pub move_right: u8,
    pub soft_drop: u8,
    pub hard_drop: u8,
    pub rotate_cw: u8,
    pub rotate_ccw: u8,
}

/// Player input and the timers that pace it.
#[derive(Copy, Clone, Debug, PartialEq, Eq, Structural)]
pub struct Input {
    pub speed: Clock,
    pub timers: Clock,
    pub state: InputState,
}

impl Input {
    /// Creates the input with the given speeds; the timers start full and no
    /// key is down.
    pub fn new(speed: Clock) -> (r: Input)
        ensures
            r.speed == speed,
            r.timers == speed,
            r.state == (InputState { move_left: 0, move_right: 0, soft_drop: 0, hard_drop: 0, rotate_cw: 0, rotate_ccw: 0 }),
    {
        Input {
            speed,
            timers: speed,
            state: InputState { move_left: 0, move_right: 0, soft_drop: 0, hard_drop: 0, rotate_cw: 0, rotate_ccw: 0 },
        }
    }

    /// The move left key went down.
    pub fn move_left_down(&mut self)
        requires
            old(self).state.move_left < u8::MAX,
        ensures
            *final(self) == (Input { state: InputState { move_left: (old(self).state.move_left + 1) as u8, ..old(self).state }, ..*old(self) }),
    {
        self.state.move_left = self.state.move_left + 1;
    }

    /// The move left key came up.
    pub fn move_left_up(&mut self)
        requires
            old(self).state.move_left > 0,
        ensures
            *final(self) == (Input { state: InputState { move_left: (old(self).state.move_left - 1) as u8, ..old(self).state }, ..*old(self) }),
    {
        self.state.move_left = self.state.move_left - 1;
    }

    /// The move right key went down.
    pub fn move_right_down(&mut self)
        requires
            old(self).state.move_right < u8::MAX,
        ensures
            *final(self) == (Input { state: InputState { move_right: (old(self).state.move_right + 1) as u8, ..old(self).state }, ..*old(self) }),
    {
        self.state.move_right = self.state.move_right + 1;
    }

    /// The move right key came up.
    pub fn move_right_up(&mut self)
        requires
            old(self).state.move_right > 0,
        ensures
            *final(self) == (Input { state: InputState { move_right: (old(self).state.move_right - 1) as u8, ..old(self).state }, ..*old(self) }),
    {
        self.state.move_right = self.state.move_right - 1;
    }

    /// The soft drop key went down.
    pub fn soft_drop_down(&mut self)
        requires
            old(self).state.soft_drop < u8::MAX,
        ensures
            *final(self) == (Input { state: InputState { soft_drop: (old(self).state.soft_drop + 1) as u8, ..old(self).state }, ..*old(self) }),
    {
        self.state.soft_drop = self.state.soft_drop + 1;
    }

    /// The soft drop key came up.
    pub fn soft_drop_up(&mut self)
        requires
            old(self).state.soft_drop > 0,
        ensures
            *final(self) == (Input { state: InputState { soft_drop: (old(self).state.soft_drop - 1) as u8, ..old(self).state }, ..*old(self) }),
    {
        self.state.soft_drop = self.state.soft_drop - 1;
    }

    /// The hard drop key was pressed.
    pub fn hard_drop(&mut self)
        ensures
            *final(self) == (Input { state: InputState { hard_drop: 1, ..old(self).state }, ..*old(self) }),
    {
        self.state.hard_drop = 1;
    }

    /// The rotate clockwise key was pressed.
    pub fn rotate_cw(&mut self)
        ensures
            *final(self) == (Input { state: InputState { rotate_cw: 1, ..old(self).state }, ..*old(self) }),
    {
        self.state.rotate_cw = 1;
    }

    /// The rotate counter-clockwise key was pressed.
    pub fn rotate_ccw(&mut self)
        ensures
            *final(self) == (Input { state: InputState { rotate_ccw: 1, ..old(self).state }, ..*old(self) }),
    {
        self.state.rotate_ccw = 1;
    }

    /// Fast forwards to the next time new user input will be accepted.
    ///
    /// The gravity timer runs down by the player timer and is refilled with
    /// the gravity period as often as it takes to bring it back to zero or
    /// above; returns how many refills, each one a drop, that took.
    pub fn ffw(&mut self) -> (drops: usize)
        requires
            old(self).speed.gravity > 0,
            i32::MIN <= old(self).timers.gravity - old(self).timers.player <= i32::MAX,
        ensures
            final(self).speed == old(self).speed,
            final(self).state == old(self).state,
            final(self).timers.player == old(self).timers.player,
            final(self).timers.gravity == old(self).timers.gravity - old(self).timers.player + drops
                * old(self).speed.gravity,
            final(self).timers.gravity >= 0,
            drops > 0 ==> final(self).timers.gravity < old(self).speed.gravity,
    {
        // Advance the timer to the next player input
        self.timers.gravity = self.timers.gravity - self.timers.player;
        let ghost d = self.timers.gravity as int;
        let s = self.speed.gravity;
        // Fixup gravity timer
        let mut drops: usize = 0;
        while self.timers.gravity < 0
            invariant
                s == self.speed.gravity,
                s > 0,
                self.speed == old(self).speed,
                self.state == old(self).state,
                self.timers.player == old(self).timers.player,
                d == old(self).timers.gravity - old(self).timers.player,
                self.timers.gravity == d + drops * s,
                d >= i32::MIN,
                drops > 0 ==> self.timers.gravity < s,
                drops > 0 ==> d < 0,
                drops <= 0x8000_0000,
            decreases s - self.timers.gravity,
        {
            proof {
                assert(drops + 1 <= 0x8000_0000) by (nonlinear_arith)
                    requires
                        d + drops * s < 0,
                        d >= -0x8000_0000,
                        s >= 1,
                        drops >= 0,
                ;
            }
            self.timers.gravity = self.timers.gravity + s;
            drops += 1;
            proof {
                assert(self.timers.gravity == d + drops * s) by (nonlinear_arith)
                    requires
                        self.timers.gravity == d + (drops - 1) * s + s,
                ;
            }
        }
        drops
    }

    /// Advances the player timer by one tick.
    pub fn tick(&mut self, _state: &mut State)
        ensures
            final(self).speed == old(self).speed,
            final(self).state == old(self).state,
            final(self).timers.gravity == old(self).timers.gravity,
            final(self).timers.player == if old(self).timers.player > 0 {
                old(self).timers.player - 1
            } else {
                old(self).timers.player as int
            },
            *final(_state) == *old(_state),
    {
        if self.timers.player > 0 {
            self.timers.player = self.timers.player - 1;
        }
    }
}

} // verus!
