//! Game-side input: the abstract actions a player can issue, the states a
//! binding can be observed in, and the velocity rules that a frame of
//! device input applies to the primary entity's collider.
use vstd::prelude::*;

use crate::Collider;
use crate::Collision;
use crate::physics::WORLD_BOUND;
use crate::physics::abs;

verus! {

/// The abstract game actions a device binding can map to.
#[derive(Hash, PartialEq, Eq, Debug, Clone, Copy)]
pub enum GameInput {
    PlayerLeft,
    PlayerRight,
    PlayerUp,
    PlayerDown,
    PlayerAccept,
}

/// The three states a bound input can be observed in for one frame.
#[derive(Debug, Clone, Copy)]
pub enum InputState {
    Pressed,
    Held,
    Released,
}

/// Horizontal walking speed, in subpixel units per frame.
pub const WALK_VEL: i64 = 100;

/// Vertical jump speed from the ground, in subpixel units per frame.
pub const JUMP_VEL: i64 = 1000;

/// Vertical boost of a wall jump, in subpixel units per frame.
pub const WALL_JUMP_VEL_Y: i64 = 700;

/// Horizontal kick of a wall jump, in subpixel units per frame.
pub const WALL_JUMP_VEL_X: i64 = 5000;

/// Downward dive speed, in subpixel units per frame.
pub const DIVE_VEL: i64 = 1000;

/// One frame of observed player input, already read from the devices.
#[derive(Debug, Clone, Copy)]
pub struct PlayerInput {
    pub left_held: bool,
    pub left_released: bool,
    pub right_held: bool,
    pub right_released: bool,
    pub up_pressed: bool,
    pub down_held: bool,
}

/// The horizontal velocity after the walk rules: walking left or right
/// sets a fixed speed, releasing either direction stops, later rules win.
pub open spec fn walked_vel_x(vel_x: i64, input: PlayerInput) -> i64 {
    let v1 = if input.left_held {
        (-WALK_VEL) as i64
    } else {
        vel_x
    };
    let v2 = if input.left_released {
        0i64
    } else {
        v1
    };
    let v3 = if input.right_held {
        WALK_VEL as i64
    } else {
        v2
    };
    if input.right_released {
        0i64
    } else {
        v3
    }
}

/// Applies one frame of player input to the primary entity's collider:
/// walking and stopping set the horizontal velocity, a jump pressed while
/// grounded boosts away from the contact side, and diving sets a fixed
/// downward velocity.  Returns the new facing when a walk changed it:
/// `Some(true)` means facing left (the sprite is drawn reversed).
pub fn apply_player_input(collider: &mut Collider, input: PlayerInput) -> (facing_reversed: Option<
    bool,
>)
    requires
        abs(old(collider).vel_x as int) <= WORLD_BOUND,
        abs(old(collider).vel_y as int) <= WORLD_BOUND,
    ensures
        final(collider).boundary == old(collider).boundary,
        final(collider).sticky == old(collider).sticky,
        final(collider).rigid_body == old(collider).rigid_body,
        final(collider).active == old(collider).active,
        final(collider).collision == old(collider).collision,
        final(collider).grounded == old(collider).grounded,
        facing_reversed == (if input.left_held && !input.right_held {
            Some(true)
        } else if input.right_held {
            Some(false)
        } else {
            None::<bool>
        }),
        ({
            let walked = walked_vel_x(old(collider).vel_x, input);
            let jumped = input.up_pressed && old(collider).grounded is Some;
            match old(collider).grounded {
                Some(Collision::Left) => {
                    &&& final(collider).vel_x == (if jumped {
                        walked + WALL_JUMP_VEL_X
                    } else {
                        walked as int
                    })
                    &&& (!input.down_held ==> final(collider).vel_y == (if jumped {
                        old(collider).vel_y + WALL_JUMP_VEL_Y
                    } else {
                        old(collider).vel_y as int
                    }))
                },
                Some(Collision::Right) => {
                    &&& final(collider).vel_x == (if jumped {
                        walked - WALL_JUMP_VEL_X
                    } else {
                        walked as int
                    })
                    &&& (!input.down_held ==> final(collider).vel_y == (if jumped {
                        old(collider).vel_y + WALL_JUMP_VEL_Y
                    } else {
                        old(collider).vel_y as int
                    }))
                },
                Some(Collision::Down) => {
                    &&& final(collider).vel_x == walked
                    &&& (!input.down_held ==> final(collider).vel_y == (if jumped {
                        JUMP_VEL as int
                    } else {
                        old(collider).vel_y as int
                    }))
                },
                _ => {
                    &&& final(collider).vel_x == walked
                    &&& (!input.down_held ==> final(collider).vel_y == old(collider).vel_y)
                },
            }
        }),
        input.down_held ==> final(collider).vel_y == -DIVE_VEL,
{
    let mut facing: Option<bool> = None;
    if input.left_held {
        collider.vel_x = -WALK_VEL;
        facing = Some(true);
    }
    if input.left_released {
        collider.vel_x = 0;
    }
    if input.right_held {
        collider.vel_x = WALK_VEL;
        facing = Some(false);
    }
    if input.right_released {
        collider.vel_x = 0;
    }
    if input.up_pressed && collider.grounded.is_some() {
        match collider.grounded {
            Some(Collision::Left) => {
                collider.vel_y = collider.vel_y + WALL_JUMP_VEL_Y;
                collider.vel_x = collider.vel_x + WALL_JUMP_VEL_X;
            },
            Some(Collision::Right) => {
                collider.vel_y = collider.vel_y + WALL_JUMP_VEL_Y;
                collider.vel_x = collider.vel_x - WALL_JUMP_VEL_X;
            },
            Some(Collision::Down) => {
                collider.vel_y = JUMP_VEL;
            },
            _ => (),
        }
    }
    if input.down_held {
        collider.vel_y = -DIVE_VEL;
    }
    facing
}

} // verus!
