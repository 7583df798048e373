//! Frame physics: gravity and velocity integration, a spatial-grid broad
//! phase, and AABB narrow-phase collision resolution for the primary
//! entity.
//!
//! All positions, velocities and box extents are integers in subpixel units
//! (`SUBPIXELS` units to one pixel), so every computation here is exact.
use vstd::prelude::*;

use crate::Camera;
use crate::Collider;
use crate::Collision;
use crate::Coordinates;
use crate::SUBPIXELS;

verus! {

/// Broad-phase bucket width, in pixels.
pub const CELL_WIDTH: i64 = 71;

/// Broad-phase bucket height, in pixels.
pub const CELL_HEIGHT: i64 = 48;

/// Number of bucket columns in the broad-phase grid.
pub const GRID_COLS: usize = 6;

/// Number of bucket rows in the broad-phase grid.
pub const GRID_ROWS: usize = 5;

/// Gravity decrement applied to the vertical velocity of active rigid
/// bodies once per frame, in subpixel units.
pub const GRAVITY: i64 = 1;

/// Bound on positions, velocities and box extents under which all frame
/// arithmetic stays well inside `i64`.
pub const WORLD_BOUND: i64 = 0x100_0000_0000;

/// Absolute value.
pub open spec fn abs(v: int) -> int {
    if v >= 0 {
        v
    } else {
        -v
    }
}

/// A position within four world bounds of the origin: integration and
/// resolution keep the primary inside this range, and the narrow phase is
/// exact on it.
pub open spec fn coords_in_range(p: Coordinates) -> bool {
    &&& abs(p.coord_x as int) <= 4 * (WORLD_BOUND as int)
    &&& abs(p.coord_y as int) <= 4 * (WORLD_BOUND as int)
}

/// A collider whose box extents are nonnegative and within the world
/// bound.
pub open spec fn collider_in_range(b: Collider) -> bool {
    &&& 0 <= b.boundary.2 <= WORLD_BOUND
    &&& 0 <= b.boundary.3 <= WORLD_BOUND
}

/// Velocity ranges that hold right after the gravity and velocity pass.
pub open spec fn collider_integrated_range(b: Collider) -> bool {
    &&& collider_in_range(b)
    &&& abs(b.vel_x as int) <= 2 * (WORLD_BOUND as int)
    &&& abs(b.vel_y as int) <= 2 * (WORLD_BOUND as int)
}

/// Position range that holds right after the velocity pass.
pub open spec fn coords_integrated_range(p: Coordinates) -> bool {
    &&& abs(p.coord_x as int) <= 3 * (WORLD_BOUND as int)
    &&& abs(p.coord_y as int) <= 3 * (WORLD_BOUND as int)
}

/// Standard AABB intersection: true iff the two boxes' intervals intersect
/// on both axes.  Box extents are `boundary.2` (width) and `boundary.3`
/// (height).
pub open spec fn overlap(p1: Coordinates, b1: Collider, p2: Coordinates, b2: Collider) -> bool {
    &&& p1.coord_x < p2.coord_x + b2.boundary.2
    &&& p1.coord_x + b1.boundary.2 > p2.coord_x
    &&& p1.coord_y < p2.coord_y + b2.boundary.3
    &&& p1.coord_y + b1.boundary.3 > p2.coord_y
}

/// Twice the horizontal offset between box centers (doubled to stay in
/// integers), positive when the primary's center lies to the right.
pub open spec fn center_diff2_x(p1: Coordinates, b1: Collider, p2: Coordinates, b2: Collider) -> int {
    2 * p1.coord_x + b1.boundary.2 - 2 * p2.coord_x - b2.boundary.2
}

/// Twice the vertical offset between box centers, positive when the
/// primary's center lies above.
pub open spec fn center_diff2_y(p1: Coordinates, b1: Collider, p2: Coordinates, b2: Collider) -> int {
    2 * p1.coord_y + b1.boundary.3 - 2 * p2.coord_y - b2.boundary.3
}

/// Twice the signed horizontal penetration depth: the sum of half-extents
/// minus the center distance, signed by the side of contact.
pub open spec fn depth2_x(p1: Coordinates, b1: Collider, p2: Coordinates, b2: Collider) -> int {
    let diff = center_diff2_x(p1, b1, p2, b2);
    let min_dist = b1.boundary.2 + b2.boundary.2;
    if diff > 0 {
        min_dist - diff
    } else {
        -min_dist - diff
    }
}

/// Twice the signed vertical penetration depth.
pub open spec fn depth2_y(p1: Coordinates, b1: Collider, p2: Coordinates, b2: Collider) -> int {
    let diff = center_diff2_y(p1, b1, p2, b2);
    let min_dist = b1.boundary.3 + b2.boundary.3;
    if diff > 0 {
        min_dist - diff
    } else {
        -min_dist - diff
    }
}

/// The contact side reported for a pair of boxes: `None` without overlap;
/// otherwise the axis of smaller absolute penetration wins
/// (minimum-translation-vector tie-break) and the sign of the penetration
/// picks the side.
pub open spec fn collision_side(p1: Coordinates, b1: Collider, p2: Coordinates, b2: Collider) -> Option<Collision> {
    if !overlap(p1, b1, p2, b2) {
        None
    } else if abs(depth2_x(p1, b1, p2, b2)) < abs(depth2_y(p1, b1, p2, b2)) {
        if depth2_x(p1, b1, p2, b2) > 0 {
            Some(Collision::Left)
        } else {
            Some(Collision::Right)
        }
    } else {
        if depth2_y(p1, b1, p2, b2) > 0 {
            Some(Collision::Down)
        } else {
            Some(Collision::Up)
        }
    }
}

/// Checks if two boxes are colliding, and returns the side they are
/// colliding on if true.
pub fn box_collision(entity1: (&Coordinates, &Collider), entity2: (&Coordinates, &Collider)) -> (r:
    Option<Collision>)
    requires
        coords_in_range(*entity1.0),
        coords_in_range(*entity2.0),
        collider_in_range(*entity1.1),
        collider_in_range(*entity2.1),
    ensures
        r == collision_side(*entity1.0, *entity1.1, *entity2.0, *entity2.1),
        (r is Some <==> overlap(*entity1.0, *entity1.1, *entity2.0, *entity2.1)),
{
    if entity1.0.coord_x < entity2.0.coord_x + entity2.1.boundary.2 && entity1.0.coord_x
        + entity1.1.boundary.2 > entity2.0.coord_x && entity1.0.coord_y < entity2.0.coord_y
        + entity2.1.boundary.3 && entity1.0.coord_y + entity1.1.boundary.3 > entity2.0.coord_y {
        let diff_x: i64 = 2 * entity1.0.coord_x + entity1.1.boundary.2 - 2 * entity2.0.coord_x
            - entity2.1.boundary.2;
        let diff_y: i64 = 2 * entity1.0.coord_y + entity1.1.boundary.3 - 2 * entity2.0.coord_y
            - entity2.1.boundary.3;

        let min_x_distance: i64 = entity1.1.boundary.2 + entity2.1.boundary.2;
        let min_y_distance: i64 = entity1.1.boundary.3 + entity2.1.boundary.3;

        let depth_x: i64 = if diff_x > 0 {
            min_x_distance - diff_x
        } else {
            -min_x_distance - diff_x
        };
        let depth_y: i64 = if diff_y > 0 {
            min_y_distance - diff_y
        } else {
            -min_y_distance - diff_y
        };

        let abs_x: i64 = if depth_x >= 0 {
            depth_x
        } else {
            -depth_x
        };
        let abs_y: i64 = if depth_y >= 0 {
            depth_y
        } else {
            -depth_y
        };

        if abs_x < abs_y {
            if depth_x > 0 {
                return Some(Collision::Left);
            } else {
                return Some(Collision::Right);
            }
        } else {
            if depth_y > 0 {
                return Some(Collision::Down);
            } else {
                return Some(Collision::Up);
            }
        }
    }
    None
}

/// The primary's position after snapping flush against the other box along
/// the resolved axis.
pub open spec fn resolved_coords(
    p: Coordinates,
    b: Collider,
    q: Coordinates,
    c: Collider,
    side: Collision,
) -> Coordinates {
    match side {
        Collision::Left => Coordinates { coord_x: (q.coord_x + c.boundary.2) as i64, ..p },
        Collision::Right => Coordinates { coord_x: (q.coord_x - b.boundary.2) as i64, ..p },
        Collision::Up => Coordinates { coord_y: (q.coord_y - b.boundary.3) as i64, ..p },
        Collision::Down => Coordinates { coord_y: (q.coord_y + c.boundary.3) as i64, ..p },
    }
}

/// An entity takes part in the frame when both its collider and its
/// coordinates are present.
pub open spec fn both_present(
    cs: Seq<Option<Collider>>,
    qs: Seq<Option<Coordinates>>,
    i: int,
) -> bool {
    &&& 0 <= i < cs.len()
    &&& i < qs.len()
    &&& cs[i] is Some
    &&& qs[i] is Some
}

/// The primary (player) entity is the first one with both components.
pub open spec fn is_primary(cs: Seq<Option<Collider>>, qs: Seq<Option<Coordinates>>, i: int) -> bool {
    &&& both_present(cs, qs, i)
    &&& forall|j: int| 0 <= j < i ==> !both_present(cs, qs, j)
}

/// Every participating entity starts the frame with extents, velocities
/// and positions inside the world bound.
pub open spec fn frame_in_range(cs: Seq<Option<Collider>>, qs: Seq<Option<Coordinates>>) -> bool {
    forall|i: int|
        #![trigger both_present(cs, qs, i)]
        both_present(cs, qs, i) ==> {
            &&& collider_in_range(cs[i]->0)
            &&& abs(cs[i]->0.vel_x as int) <= WORLD_BOUND
            &&& abs(cs[i]->0.vel_y as int) <= WORLD_BOUND
            &&& abs(qs[i]->0.coord_x as int) <= WORLD_BOUND
            &&& abs(qs[i]->0.coord_y as int) <= WORLD_BOUND
        }
}

/// Collider after the gravity pass: active rigid bodies lose `GRAVITY`
/// from their vertical velocity, everything else is untouched.
pub open spec fn integrated_collider(b: Collider) -> Collider {
    if b.active && b.rigid_body {
        Collider { vel_y: (b.vel_y - GRAVITY) as i64, ..b }
    } else {
        b
    }
}

/// Position after the velocity pass: active colliders move by their
/// post-gravity velocity, others stay put.
pub open spec fn integrated_coords(p: Coordinates, b: Collider) -> Coordinates {
    if b.active {
        Coordinates {
            coord_x: (p.coord_x + b.vel_x) as i64,
            coord_y: (p.coord_y + integrated_collider(b).vel_y) as i64,
        }
    } else {
        p
    }
}

/// Whether index `i` occurs among the first `t` entries of `pairs`.
pub open spec fn seen(pairs: Seq<usize>, t: int, i: int) -> bool {
    exists|u: int| 0 <= u < t && (#[trigger] pairs[u]) == i
}

/// Extending the scanned prefix by one entry adds exactly that entry.
proof fn lemma_seen_step(pairs: Seq<usize>, t: int, i: int)
    requires
        0 <= t < pairs.len(),
    ensures
        seen(pairs, t + 1, i) == (seen(pairs, t, i) || pairs[t] == i),
{
    if seen(pairs, t + 1, i) {
        let u = choose|u: int| 0 <= u < t + 1 && (#[trigger] pairs[u]) == i;
        if u < t {
            assert(seen(pairs, t, i));
        }
    }
    if pairs[t] == i {
        assert(0 <= t < t + 1 && pairs[t] == i);
        assert(seen(pairs, t + 1, i));
    }
}

/// Appending an entry to the scanned list adds exactly that entry.
proof fn lemma_seen_push(s: Seq<usize>, v: usize, j: int)
    ensures
        seen(s.push(v), s.len() as int + 1, j) == (seen(s, s.len() as int, j) || v == j),
{
    if seen(s.push(v), s.len() as int + 1, j) {
        let u = choose|u: int| 0 <= u < s.len() + 1 && (#[trigger] s.push(v)[u]) == j;
        if u < s.len() {
            assert(s[u] == j);
            assert(seen(s, s.len() as int, j));
        } else {
            assert(v == j);
        }
    }
    if seen(s, s.len() as int, j) {
        let u = choose|u: int| 0 <= u < s.len() && (#[trigger] s[u]) == j;
        assert(s.push(v)[u] == j);
        assert(seen(s.push(v), s.len() as int + 1, j));
    }
    if v == j {
        assert(s.push(v)[s.len() as int] == j);
        assert(seen(s.push(v), s.len() as int + 1, j));
    }
}

/// The ascending list of indices of entities with both components: the
/// frame's participants, with the primary first.
fn collect_pairs(colliders: &Vec<Option<Collider>>, coordinates: &Vec<Option<Coordinates>>) -> (pairs:
    Vec<usize>)
    requires
        colliders@.len() == coordinates@.len(),
    ensures
        forall|t: int|
            0 <= t < pairs@.len() ==> both_present(colliders@, coordinates@, #[trigger] pairs@[t] as int),
        forall|t1: int, t2: int|
            #![trigger pairs@[t1], pairs@[t2]]
            0 <= t1 < t2 < pairs@.len() ==> pairs@[t1] < pairs@[t2],
        forall|i: int|
            #![trigger both_present(colliders@, coordinates@, i)]
            both_present(colliders@, coordinates@, i) ==> seen(pairs@, pairs@.len() as int, i),
        (exists|i: int| both_present(colliders@, coordinates@, i)) ==> pairs@.len() > 0,
        pairs@.len() > 0 ==> is_primary(colliders@, coordinates@, pairs@[0] as int),
{
    let mut pairs: Vec<usize> = Vec::new();
    let n = colliders.len();
    let mut i: usize = 0;
    while i < n
        invariant
            colliders@.len() == coordinates@.len(),
            n == colliders@.len(),
            0 <= i <= n,
            forall|t: int|
                0 <= t < pairs@.len() ==> both_present(
                    colliders@,
                    coordinates@,
                    #[trigger] pairs@[t] as int,
                ),
            forall|t: int| 0 <= t < pairs@.len() ==> #[trigger] pairs@[t] < i,
            forall|t1: int, t2: int|
                #![trigger pairs@[t1], pairs@[t2]]
                0 <= t1 < t2 < pairs@.len() ==> pairs@[t1] < pairs@[t2],
            forall|j: int|
                #![trigger both_present(colliders@, coordinates@, j)]
                0 <= j < i && both_present(colliders@, coordinates@, j) ==> seen(
                    pairs@,
                    pairs@.len() as int,
                    j,
                ),
        decreases n - i,
    {
        if colliders[i].is_some() && coordinates[i].is_some() {
            let ghost prev = pairs@;
            pairs.push(i);
            proof {
                assert(pairs@ == prev.push(i));
                assert forall|j: int|
                    #![trigger both_present(colliders@, coordinates@, j)]
                    0 <= j < i + 1 && both_present(colliders@, coordinates@, j) implies seen(
                    pairs@,
                    pairs@.len() as int,
                    j,
                ) by {
                    lemma_seen_push(prev, i, j);
                }
            }
        }
        i = i + 1;
    }
    proof {
        if exists|i: int| both_present(colliders@, coordinates@, i) {
            let w = choose|i: int| both_present(colliders@, coordinates@, i);
            assert(seen(pairs@, pairs@.len() as int, w));
            let u = choose|u: int| 0 <= u < pairs@.len() && (#[trigger] pairs@[u]) == w;
        }
        if pairs@.len() > 0 {
            assert forall|j: int| 0 <= j < pairs@[0] as int implies !both_present(
                colliders@,
                coordinates@,
                j,
            ) by {
                if both_present(colliders@, coordinates@, j) {
                    assert(seen(pairs@, pairs@.len() as int, j));
                    let t = choose|t: int| 0 <= t < pairs@.len() && (#[trigger] pairs@[t]) == j;
                    if t > 0 {
                        assert(pairs@[0] < pairs@[t]);
                    }
                }
            }
        }
    }
    pairs
}

/// Integration pass: every participating entity's collider takes gravity
/// and its position takes one velocity step; everything else is untouched.
fn integrate_frame(
    colliders: &mut Vec<Option<Collider>>,
    coordinates: &mut Vec<Option<Coordinates>>,
    pairs: &Vec<usize>,
)
    requires
        old(colliders)@.len() == old(coordinates)@.len(),
        frame_in_range(old(colliders)@, old(coordinates)@),
        forall|t: int|
            0 <= t < pairs@.len() ==> both_present(
                old(colliders)@,
                old(coordinates)@,
                #[trigger] pairs@[t] as int,
            ),
        forall|t1: int, t2: int|
            #![trigger pairs@[t1], pairs@[t2]]
            0 <= t1 < t2 < pairs@.len() ==> pairs@[t1] < pairs@[t2],
        forall|i: int|
            #![trigger both_present(old(colliders)@, old(coordinates)@, i)]
            both_present(old(colliders)@, old(coordinates)@, i) ==> seen(
                pairs@,
                pairs@.len() as int,
                i,
            ),
    ensures
        final(colliders)@.len() == old(colliders)@.len(),
        final(coordinates)@.len() == old(coordinates)@.len(),
        forall|i: int|
            #![trigger final(colliders)@[i]]
            #![trigger final(coordinates)@[i]]
            0 <= i < old(colliders)@.len() ==> {
                if both_present(old(colliders)@, old(coordinates)@, i) {
                    &&& final(colliders)@[i] == Some(integrated_collider(old(colliders)@[i]->0))
                    &&& final(coordinates)@[i] == Some(
                        integrated_coords(old(coordinates)@[i]->0, old(colliders)@[i]->0),
                    )
                } else {
                    &&& final(colliders)@[i] == old(colliders)@[i]
                    &&& final(coordinates)@[i] == old(coordinates)@[i]
                }
            },
{
    let mut t: usize = 0;
    while t < pairs.len()
        invariant
            old(colliders)@.len() == old(coordinates)@.len(),
            colliders@.len() == old(colliders)@.len(),
            coordinates@.len() == old(coordinates)@.len(),
            frame_in_range(old(colliders)@, old(coordinates)@),
            0 <= t <= pairs@.len(),
            forall|u: int|
                0 <= u < pairs@.len() ==> both_present(
                    old(colliders)@,
                    old(coordinates)@,
                    #[trigger] pairs@[u] as int,
                ),
            forall|t1: int, t2: int|
                #![trigger pairs@[t1], pairs@[t2]]
                0 <= t1 < t2 < pairs@.len() ==> pairs@[t1] < pairs@[t2],
            forall|i: int|
                #![trigger both_present(old(colliders)@, old(coordinates)@, i)]
                both_present(old(colliders)@, old(coordinates)@, i) ==> seen(
                    pairs@,
                    pairs@.len() as int,
                    i,
                ),
            forall|i: int|
                #![trigger colliders@[i]]
                #![trigger coordinates@[i]]
                0 <= i < old(colliders)@.len() ==> {
                    if seen(pairs@, t as int, i) {
                        &&& colliders@[i] == Some(integrated_collider(old(colliders)@[i]->0))
                        &&& coordinates@[i] == Some(
                            integrated_coords(old(coordinates)@[i]->0, old(colliders)@[i]->0),
                        )
                    } else {
                        &&& colliders@[i] == old(colliders)@[i]
                        &&& coordinates@[i] == old(coordinates)@[i]
                    }
                },
        decreases pairs@.len() - t,
    {
        let idx = pairs[t];
        proof {
            assert(both_present(old(colliders)@, old(coordinates)@, idx as int));
            assert forall|u: int| 0 <= u < t implies (#[trigger] pairs@[u]) != idx by {
                assert(pairs@[u] < pairs@[t as int]);
            }
            assert(!seen(pairs@, t as int, idx as int));
        }
        let mut b = colliders[idx].unwrap();
        let mut p = coordinates[idx].unwrap();
        if b.active {
            if b.rigid_body {
                b.vel_y = b.vel_y - GRAVITY;
            }
            p.coord_x = p.coord_x + b.vel_x;
            p.coord_y = p.coord_y + b.vel_y;
        }
        colliders[idx] = Some(b);
        coordinates[idx] = Some(p);
        proof {
            assert(colliders@[idx as int] == Some(integrated_collider(old(colliders)@[idx as int]->0)));
            assert(coordinates@[idx as int] == Some(
                integrated_coords(old(coordinates)@[idx as int]->0, old(colliders)@[idx as int]->0),
            ));
            assert forall|i: int| #![trigger seen(pairs@, t + 1, i)] true implies seen(pairs@, t + 1, i) == (seen(
                pairs@,
                t as int,
                i,
            ) || pairs@[t as int] == i) by {
                lemma_seen_step(pairs@, t as int, i);
            }
        }
        t = t + 1;
    }
    proof {
        assert forall|i: int|
            #![trigger both_present(old(colliders)@, old(coordinates)@, i)]
            0 <= i < old(colliders)@.len() && !both_present(old(colliders)@, old(coordinates)@, i)
            implies !seen(pairs@, pairs@.len() as int, i) by {
            if seen(pairs@, pairs@.len() as int, i) {
                let u = choose|u: int| 0 <= u < pairs@.len() && (#[trigger] pairs@[u]) == i;
                assert(both_present(old(colliders)@, old(coordinates)@, pairs@[u] as int));
            }
        }
    }
}

/// Truncating conversion from subpixel units to whole pixels (rounds
/// toward zero, as narrowing a fractional position to an integer pixel
/// does).
pub open spec fn spec_px(v: int) -> int {
    if v >= 0 {
        v / (SUBPIXELS as int)
    } else {
        -((-v) / (SUBPIXELS as int))
    }
}

fn px_of(v: i64) -> (r: i64)
    requires
        abs(v as int) <= 8 * (WORLD_BOUND as int),
    ensures
        r == spec_px(v as int),
        abs(r as int) <= abs(v as int),
{
    proof {
        if v >= 0 {
            vstd::arithmetic::div_mod::lemma_div_pos_is_pos(v as int, SUBPIXELS as int);
            vstd::arithmetic::div_mod::lemma_div_nonincreasing(v as int, SUBPIXELS as int);
        } else {
            vstd::arithmetic::div_mod::lemma_div_pos_is_pos(-(v as int), SUBPIXELS as int);
            vstd::arithmetic::div_mod::lemma_div_nonincreasing(-(v as int), SUBPIXELS as int);
        }
    }
    if v >= 0 {
        v / SUBPIXELS
    } else {
        -((-v) / SUBPIXELS)
    }
}

/// Camera-relative pixel position of an entity.
pub open spec fn rel_px_x(p: Coordinates, cam: Camera) -> int {
    spec_px(p.coord_x as int) - cam.x
}

/// Camera-relative pixel position of an entity.
pub open spec fn rel_px_y(p: Coordinates, cam: Camera) -> int {
    spec_px(p.coord_y as int) - cam.y
}

/// Whether the broad phase registers a box into bucket `(col, row)`: the
/// bucket range spanned by the box's camera-relative pixel interval,
/// intersected with the grid.  Boxes outside the tracked world bound are
/// silently skipped.
pub open spec fn registers(p: Coordinates, b: Collider, cam: Camera, col: int, row: int) -> bool {
    let x = rel_px_x(p, cam);
    let y = rel_px_y(p, cam);
    let xe = x + spec_px(b.boundary.2 as int);
    let ye = y + spec_px(b.boundary.3 as int);
    &&& 0 <= col < GRID_COLS as int
    &&& 0 <= row < GRID_ROWS as int
    &&& 0 <= xe && 0 <= ye
    &&& x < (GRID_COLS as int) * (CELL_WIDTH as int)
    &&& y < (GRID_ROWS as int) * (CELL_HEIGHT as int)
    &&& (x < 0 || x / (CELL_WIDTH as int) <= col)
    &&& col <= xe / (CELL_WIDTH as int)
    &&& (y < 0 || y / (CELL_HEIGHT as int) <= row)
    &&& row <= ye / (CELL_HEIGHT as int)
}

/// Registers participant `k` into every grid bucket its camera-relative
/// box overlaps; buckets are stored column-major, `col * GRID_ROWS + row`.
fn register_entity(
    grid: &mut Vec<Vec<usize>>,
    k: usize,
    p: &Coordinates,
    b: &Collider,
    cam: &Camera,
)
    requires
        old(grid)@.len() == GRID_COLS * GRID_ROWS,
        coords_in_range(*p),
        collider_in_range(*b),
    ensures
        final(grid)@.len() == old(grid)@.len(),
        forall|col: int, row: int|
            #![trigger final(grid)@[col * (GRID_ROWS as int) + row]]
            0 <= col < GRID_COLS && 0 <= row < GRID_ROWS ==> final(grid)@[col * (GRID_ROWS as int)
                + row]@ == (if registers(*p, *b, *cam, col, row) {
                old(grid)@[col * (GRID_ROWS as int) + row]@.push(k)
            } else {
                old(grid)@[col * (GRID_ROWS as int) + row]@
            }),
{
    let x_rel: i64 = px_of(p.coord_x) - (cam.x as i64);
    let y_rel: i64 = px_of(p.coord_y) - (cam.y as i64);
    let w: i64 = px_of(b.boundary.2);
    let h: i64 = px_of(b.boundary.3);
    let cols: i64 = GRID_COLS as i64;
    let rows: i64 = GRID_ROWS as i64;
    if x_rel + w >= 0 && y_rel + h >= 0 && x_rel < cols * CELL_WIDTH && y_rel < rows * CELL_HEIGHT {
        let start_col: i64 = if x_rel < 0 {
            0
        } else {
            x_rel / CELL_WIDTH
        };
        let mut end_col: i64 = (x_rel + w) / CELL_WIDTH;
        if end_col > cols - 1 {
            end_col = cols - 1;
        }
        let start_row: i64 = if y_rel < 0 {
            0
        } else {
            y_rel / CELL_HEIGHT
        };
        let mut end_row: i64 = (y_rel + h) / CELL_HEIGHT;
        if end_row > rows - 1 {
            end_row = rows - 1;
        }
        proof {
            vstd::arithmetic::div_mod::lemma_div_pos_is_pos(
                (x_rel + w) as int,
                CELL_WIDTH as int,
            );
            vstd::arithmetic::div_mod::lemma_div_pos_is_pos(
                (y_rel + h) as int,
                CELL_HEIGHT as int,
            );
            if x_rel >= 0 {
                vstd::arithmetic::div_mod::lemma_div_pos_is_pos(x_rel as int, CELL_WIDTH as int);
                vstd::arithmetic::div_mod::lemma_div_is_ordered(
                    x_rel as int,
                    (x_rel + w) as int,
                    CELL_WIDTH as int,
                );
            }
            if y_rel >= 0 {
                vstd::arithmetic::div_mod::lemma_div_pos_is_pos(y_rel as int, CELL_HEIGHT as int);
                vstd::arithmetic::div_mod::lemma_div_is_ordered(
                    y_rel as int,
                    (y_rel + h) as int,
                    CELL_HEIGHT as int,
                );
            }
            assert forall|col: int, row: int|
                #![trigger registers(*p, *b, *cam, col, row)]
                0 <= col < GRID_COLS && 0 <= row < GRID_ROWS implies registers(*p, *b, *cam, col, row)
                == (start_col <= col <= end_col && start_row <= row <= end_row) by {
            }
        }
        let mut col: i64 = start_col;
        while col <= end_col
            invariant
                grid@.len() == GRID_COLS * GRID_ROWS,
                old(grid)@.len() == GRID_COLS * GRID_ROWS,
                0 <= start_col <= col <= end_col + 1,
                start_row <= end_row + 1,
                end_col < GRID_COLS,
                forall|c: int, r: int|
                    #![trigger grid@[c * (GRID_ROWS as int) + r]]
                    0 <= c < GRID_COLS && 0 <= r < GRID_ROWS ==> grid@[c * (GRID_ROWS as int) + r]@
                        == (if c < col && registers(*p, *b, *cam, c, r) {
                        old(grid)@[c * (GRID_ROWS as int) + r]@.push(k)
                    } else {
                        old(grid)@[c * (GRID_ROWS as int) + r]@
                    }),
                forall|c: int, r: int|
                    #![trigger registers(*p, *b, *cam, c, r)]
                    0 <= c < GRID_COLS && 0 <= r < GRID_ROWS ==> registers(*p, *b, *cam, c, r) == (
                    start_col <= c <= end_col && start_row <= r <= end_row),
                0 <= start_row,
                end_row < GRID_ROWS,
            decreases end_col + 1 - col,
        {
            let mut row: i64 = start_row;
            while row <= end_row
                invariant
                    grid@.len() == GRID_COLS * GRID_ROWS,
                    old(grid)@.len() == GRID_COLS * GRID_ROWS,
                    0 <= start_col <= col <= end_col,
                    end_col < GRID_COLS,
                    0 <= start_row <= row <= end_row + 1,
                    end_row < GRID_ROWS,
                    forall|c: int, r: int|
                        #![trigger grid@[c * (GRID_ROWS as int) + r]]
                        0 <= c < GRID_COLS && 0 <= r < GRID_ROWS ==> grid@[c * (GRID_ROWS as int)
                            + r]@ == (if (c < col || (c == col && r < row)) && registers(
                            *p,
                            *b,
                            *cam,
                            c,
                            r,
                        ) {
                            old(grid)@[c * (GRID_ROWS as int) + r]@.push(k)
                        } else {
                            old(grid)@[c * (GRID_ROWS as int) + r]@
                        }),
                    forall|c: int, r: int|
                        #![trigger registers(*p, *b, *cam, c, r)]
                        0 <= c < GRID_COLS && 0 <= r < GRID_ROWS ==> registers(*p, *b, *cam, c, r)
                            == (start_col <= c <= end_col && start_row <= r <= end_row),
                decreases end_row + 1 - row,
            {
                let bi: usize = (col as usize) * GRID_ROWS + (row as usize);
                grid[bi].push(k);
                row = row + 1;
            }
            col = col + 1;
        }
    } else {
        proof {
            assert forall|col: int, row: int|
                #![trigger registers(*p, *b, *cam, col, row)]
                0 <= col < GRID_COLS && 0 <= row < GRID_ROWS implies !registers(
                *p,
                *b,
                *cam,
                col,
                row,
            ) by {}
        }
    }
}

/// The broad-phase bucket contents after the first `upto` participants:
/// ascending participant numbers whose boxes cover bucket `(col, row)`.
pub open spec fn bucket_upto(
    cs: Seq<Option<Collider>>,
    qs: Seq<Option<Coordinates>>,
    pairs: Seq<usize>,
    cam: Camera,
    col: int,
    row: int,
    upto: int,
) -> Seq<usize>
    decreases upto,
{
    if upto <= 0 {
        Seq::empty()
    } else {
        let prev = bucket_upto(cs, qs, pairs, cam, col, row, upto - 1);
        if registers(qs[pairs[upto - 1] as int]->0, cs[pairs[upto - 1] as int]->0, cam, col, row) {
            prev.push((upto - 1) as usize)
        } else {
            prev
        }
    }
}

/// Every member of a broad-phase bucket is a valid participant number, and
/// members are strictly ascending.
pub proof fn lemma_bucket_upto_props(
    cs: Seq<Option<Collider>>,
    qs: Seq<Option<Coordinates>>,
    pairs: Seq<usize>,
    cam: Camera,
    col: int,
    row: int,
    upto: int,
)
    requires
        0 <= upto <= usize::MAX,
    ensures
        forall|u: int|
            0 <= u < bucket_upto(cs, qs, pairs, cam, col, row, upto).len()
                ==> #[trigger] bucket_upto(cs, qs, pairs, cam, col, row, upto)[u] < upto,
        forall|u1: int, u2: int|
            #![trigger bucket_upto(cs, qs, pairs, cam, col, row, upto)[u1], bucket_upto(cs, qs, pairs, cam, col, row, upto)[u2]]
            0 <= u1 < u2 < bucket_upto(cs, qs, pairs, cam, col, row, upto).len() ==> bucket_upto(
                cs,
                qs,
                pairs,
                cam,
                col,
                row,
                upto,
            )[u1] < bucket_upto(cs, qs, pairs, cam, col, row, upto)[u2],
    decreases upto,
{
    if upto > 0 {
        lemma_bucket_upto_props(cs, qs, pairs, cam, col, row, upto - 1);
        let prev = bucket_upto(cs, qs, pairs, cam, col, row, upto - 1);
        let cur = bucket_upto(cs, qs, pairs, cam, col, row, upto);
        if registers(qs[pairs[upto - 1] as int]->0, cs[pairs[upto - 1] as int]->0, cam, col, row) {
            assert(cur == prev.push((upto - 1) as usize));
            assert forall|u: int| 0 <= u < cur.len() implies #[trigger] cur[u] < upto by {
                if u < prev.len() {
                    assert(cur[u] == prev[u]);
                } else {
                    assert(cur[u] == (upto - 1) as usize);
                }
            }
            assert forall|u1: int, u2: int|
                #![trigger cur[u1], cur[u2]]
                0 <= u1 < u2 < cur.len() implies cur[u1] < cur[u2] by {
                if u2 < prev.len() {
                    assert(cur[u1] == prev[u1] && cur[u2] == prev[u2]);
                } else {
                    assert(cur[u1] == prev[u1]);
                    assert(prev[u1] < upto - 1);
                    assert(cur[u2] == (upto - 1) as usize);
                }
            }
        } else {
            assert(cur == prev);
        }
    }
}

/// Broad phase: drops every participant's camera-relative box into the
/// grid buckets it overlaps.
fn build_grid(
    colliders: &Vec<Option<Collider>>,
    coordinates: &Vec<Option<Coordinates>>,
    pairs: &Vec<usize>,
    camera: &Camera,
) -> (grid: Vec<Vec<usize>>)
    requires
        colliders@.len() == coordinates@.len(),
        frame_in_range(colliders@, coordinates@),
        forall|t: int|
            0 <= t < pairs@.len() ==> both_present(
                colliders@,
                coordinates@,
                #[trigger] pairs@[t] as int,
            ),
    ensures
        grid@.len() == GRID_COLS * GRID_ROWS,
        forall|col: int, row: int|
            #![trigger grid@[col * (GRID_ROWS as int) + row]]
            0 <= col < GRID_COLS && 0 <= row < GRID_ROWS ==> grid@[col * (GRID_ROWS as int) + row]@
                == bucket_upto(
                colliders@,
                coordinates@,
                pairs@,
                *camera,
                col,
                row,
                pairs@.len() as int,
            ),
{
    let mut grid: Vec<Vec<usize>> = Vec::new();
    while grid.len() < GRID_COLS * GRID_ROWS
        invariant
            forall|j: int| 0 <= j < grid@.len() ==> #[trigger] grid@[j]@ == Seq::<usize>::empty(),
            grid@.len() <= GRID_COLS * GRID_ROWS,
        decreases GRID_COLS * GRID_ROWS - grid@.len(),
    {
        grid.push(Vec::new());
    }
    let mut t: usize = 0;
    while t < pairs.len()
        invariant
            colliders@.len() == coordinates@.len(),
            frame_in_range(colliders@, coordinates@),
            forall|u: int|
                0 <= u < pairs@.len() ==> both_present(
                    colliders@,
                    coordinates@,
                    #[trigger] pairs@[u] as int,
                ),
            0 <= t <= pairs@.len(),
            grid@.len() == GRID_COLS * GRID_ROWS,
            forall|col: int, row: int|
                #![trigger grid@[col * (GRID_ROWS as int) + row]]
                0 <= col < GRID_COLS && 0 <= row < GRID_ROWS ==> grid@[col * (GRID_ROWS as int)
                    + row]@ == bucket_upto(
                    colliders@,
                    coordinates@,
                    pairs@,
                    *camera,
                    col,
                    row,
                    t as int,
                ),
        decreases pairs@.len() - t,
    {
        let idx = pairs[t];
        let p = coordinates[idx].unwrap();
        let b = colliders[idx].unwrap();
        register_entity(&mut grid, t, &p, &b, camera);
        t = t + 1;
    }
    grid
}

/// AABB overlap symmetry: `overlap(A, B) == overlap(B, A)` for all box
/// pairs.
pub proof fn lemma_overlap_symmetry(p1: Coordinates, b1: Collider, p2: Coordinates, b2: Collider)
    ensures
        overlap(p1, b1, p2, b2) == overlap(p2, b2, p1, b1),
{
}

/// Collision resolution idempotence: once the primary is snapped flush
/// against the box it penetrated, the pair no longer overlaps, so a second
/// resolution pass reports no further penetration.
pub proof fn lemma_resolution_idempotent(
    p: Coordinates,
    b: Collider,
    q: Coordinates,
    c: Collider,
    side: Collision,
)
    requires
        coords_in_range(p),
        coords_in_range(q),
        collider_in_range(b),
        collider_in_range(c),
        collision_side(p, b, q, c) == Some(side),
    ensures
        !overlap(resolved_coords(p, b, q, c, side), b, q, c),
        collision_side(resolved_coords(p, b, q, c, side), b, q, c) is None,
{
}


/// Resolution keeps the primary's shape and participation flags; only its
/// position, velocities and grounded tag may change.
pub open spec fn same_shape(a: Collider, b: Collider) -> bool {
    &&& a.sticky == b.sticky
    &&& a.rigid_body == b.rigid_body
    &&& a.active == b.active
    &&& a.collision == b.collision
    &&& a.boundary == b.boundary
}

/// The primary's state shows a resolved contact on `side` with entity `j`:
/// snapped flush against `j`'s box on the resolved axis, with the velocity
/// component on that axis zeroed.
pub open spec fn resolved_with(
    fp: Coordinates,
    fb: Collider,
    cs: Seq<Option<Collider>>,
    qs: Seq<Option<Coordinates>>,
    prim: int,
    j: int,
    side: Collision,
) -> bool {
    let q = qs[j]->0;
    let c = cs[j]->0;
    &&& 0 <= j < cs.len()
    &&& j != prim
    &&& both_present(cs, qs, j)
    &&& match side {
        Collision::Left => fp.coord_x == (q.coord_x + c.boundary.2) as i64 && fb.vel_x == 0,
        Collision::Right => fp.coord_x == (q.coord_x - fb.boundary.2) as i64 && fb.vel_x == 0,
        Collision::Up => fp.coord_y == (q.coord_y - fb.boundary.3) as i64 && fb.vel_y == 0,
        Collision::Down => fp.coord_y == (q.coord_y + c.boundary.3) as i64 && fb.vel_y == 0,
    }
}

/// One narrow-phase correction: at position `pre` the primary's box
/// actually overlapped participant `j`'s box, the reported contact side
/// was `side`, and the correction moved the primary flush to `post`.
pub open spec fn hop_ok(
    cs: Seq<Option<Collider>>,
    qs: Seq<Option<Coordinates>>,
    prim: int,
    b: Collider,
    pre: Coordinates,
    j: int,
    side: Collision,
    post: Coordinates,
) -> bool {
    &&& 0 <= j < cs.len()
    &&& j != prim
    &&& both_present(cs, qs, j)
    &&& collision_side(pre, b, qs[j]->0, cs[j]->0) == Some(side)
    &&& post == resolved_coords(pre, b, qs[j]->0, cs[j]->0, side)
}

/// The position a correction chain hop lands on: the next hop's starting
/// position, or the chain's final position for the last hop.
pub open spec fn hop_post(
    hops: Seq<(Coordinates, int, Collision)>,
    endp: Coordinates,
    i: int,
) -> Coordinates {
    if i == hops.len() - 1 {
        endp
    } else {
        hops[i + 1].0
    }
}

/// The narrow phase's correction chain: starting from the integrated
/// position, every hop resolves an actual overlap with some participant
/// and lands where the next hop starts; the last hop lands on the final
/// position.  An empty chain means the primary was never moved.
pub open spec fn chain_ok(
    cs: Seq<Option<Collider>>,
    qs: Seq<Option<Coordinates>>,
    prim: int,
    b: Collider,
    start: Coordinates,
    hops: Seq<(Coordinates, int, Collision)>,
    endp: Coordinates,
) -> bool {
    &&& (hops.len() == 0 ==> endp == start)
    &&& (hops.len() > 0 ==> hops[0].0 == start)
    &&& forall|i: int|
        0 <= i < hops.len() ==> hop_ok(
            cs,
            qs,
            prim,
            b,
            (#[trigger] hops[i]).0,
            hops[i].1,
            hops[i].2,
            hop_post(hops, endp, i),
        )
}

/// No participating box overlaps the primary's box at position `p`.
pub open spec fn no_overlap_with_primary(
    cs: Seq<Option<Collider>>,
    qs: Seq<Option<Coordinates>>,
    prim: int,
    p: Coordinates,
    b: Collider,
) -> bool {
    forall|j: int|
        #![trigger both_present(cs, qs, j)]
        0 <= j < cs.len() && j != prim && both_present(cs, qs, j) ==> !overlap(
            p,
            b,
            qs[j]->0,
            cs[j]->0,
        )
}

/// A correction chain grows by one hop taken from its current end.
proof fn lemma_chain_push(
    cs: Seq<Option<Collider>>,
    qs: Seq<Option<Coordinates>>,
    prim: int,
    b: Collider,
    start: Coordinates,
    hops: Seq<(Coordinates, int, Collision)>,
    old_end: Coordinates,
    j: int,
    side: Collision,
    new_end: Coordinates,
)
    requires
        chain_ok(cs, qs, prim, b, start, hops, old_end),
        hop_ok(cs, qs, prim, b, old_end, j, side, new_end),
    ensures
        chain_ok(cs, qs, prim, b, start, hops.push((old_end, j, side)), new_end),
{
    let nh = hops.push((old_end, j, side));
    if hops.len() == 0 {
        assert(nh[0] == (old_end, j, side));
    } else {
        assert(nh[0] == hops[0]);
    }
    assert forall|i: int|
        0 <= i < nh.len() implies hop_ok(
        cs,
        qs,
        prim,
        b,
        (#[trigger] nh[i]).0,
        nh[i].1,
        nh[i].2,
        hop_post(nh, new_end, i),
    ) by {
        if i < hops.len() {
            assert(nh[i] == hops[i]);
            assert(hop_ok(cs, qs, prim, b, hops[i].0, hops[i].1, hops[i].2, hop_post(hops, old_end, i)));
            if i == hops.len() - 1 {
                assert(hop_post(hops, old_end, i) == old_end);
                assert(nh[i + 1] == (old_end, j, side));
                assert(hop_post(nh, new_end, i) == old_end);
            } else {
                assert(nh[i + 1] == hops[i + 1]);
                assert(hop_post(nh, new_end, i) == hop_post(hops, old_end, i));
            }
        } else {
            assert(i == hops.len());
            assert(nh[i] == (old_end, j, side));
            assert(hop_post(nh, new_end, i) == new_end);
        }
    }
}

/// Frame-level resolution idempotence: the position a narrow-phase hop
/// lands on no longer overlaps the box the hop resolved, so a second
/// resolution pass reports no penetration for that pair.
pub proof fn lemma_hop_separates(
    cs: Seq<Option<Collider>>,
    qs: Seq<Option<Coordinates>>,
    prim: int,
    b: Collider,
    pre: Coordinates,
    j: int,
    side: Collision,
    post: Coordinates,
)
    requires
        hop_ok(cs, qs, prim, b, pre, j, side, post),
        coords_in_range(pre),
        coords_in_range(qs[j]->0),
        collider_in_range(b),
        collider_in_range(cs[j]->0),
    ensures
        !overlap(post, b, qs[j]->0, cs[j]->0),
        collision_side(post, b, qs[j]->0, cs[j]->0) is None,
{
    lemma_resolution_idempotent(pre, b, qs[j]->0, cs[j]->0, side);
}

/// Loop-constant context of the narrow phase: valid ascending participant
/// list, post-integration value ranges, and a grid of valid participant
/// numbers.
pub open spec fn narrow_ctx(
    cs: Seq<Option<Collider>>,
    qs: Seq<Option<Coordinates>>,
    pairs: Seq<usize>,
    grid: Seq<Vec<usize>>,
) -> bool {
    &&& cs.len() == qs.len()
    &&& pairs.len() >= 1
    &&& forall|t: int|
        0 <= t < pairs.len() ==> both_present(cs, qs, #[trigger] pairs[t] as int)
    &&& forall|t1: int, t2: int|
        #![trigger pairs[t1], pairs[t2]]
        0 <= t1 < t2 < pairs.len() ==> pairs[t1] < pairs[t2]
    &&& forall|t: int|
        0 <= t < pairs.len() ==> collider_integrated_range(cs[#[trigger] pairs[t] as int]->0)
            && coords_integrated_range(qs[pairs[t] as int]->0)
    &&& grid.len() == GRID_COLS * GRID_ROWS
    &&& forall|b: int, u: int|
        #![trigger grid[b]@[u]]
        0 <= b < grid.len() && 0 <= u < grid[b]@.len() ==> grid[b]@[u] < pairs.len()
}

/// The narrow phase's running guarantee about the two component columns:
/// everything but the primary slot is untouched; the primary is either
/// untouched on an axis or flush against the last contact resolved on that
/// axis, with the grounded tag naming the side of the last contact; every
/// correction in the chain that moved the primary resolved an actual
/// overlap; and a primary whose box overlaps no participant is exactly its
/// integrated state with no contact tag.
pub open spec fn resolution_state(
    cs_now: Seq<Option<Collider>>,
    qs_now: Seq<Option<Coordinates>>,
    cs0: Seq<Option<Collider>>,
    qs0: Seq<Option<Coordinates>>,
    prim: int,
) -> bool {
    let eb = cs0[prim]->0;
    let ep = qs0[prim]->0;
    let fb = cs_now[prim]->0;
    let fp = qs_now[prim]->0;
    &&& cs_now.len() == cs0.len()
    &&& qs_now.len() == qs0.len()
    &&& forall|i: int|
        #![trigger cs_now[i]]
        0 <= i < cs0.len() && i != prim ==> cs_now[i] == cs0[i]
    &&& forall|i: int|
        #![trigger qs_now[i]]
        0 <= i < qs0.len() && i != prim ==> qs_now[i] == qs0[i]
    &&& cs_now[prim] is Some
    &&& qs_now[prim] is Some
    &&& same_shape(fb, eb)
    &&& coords_in_range(fp)
    &&& ((fp.coord_x == ep.coord_x && fb.vel_x == eb.vel_x) || (exists|j: int|
        resolved_with(fp, fb, cs0, qs0, prim, j, Collision::Left) || resolved_with(
            fp,
            fb,
            cs0,
            qs0,
            prim,
            j,
            Collision::Right,
        )))
    &&& ((fp.coord_y == ep.coord_y && fb.vel_y == eb.vel_y) || (exists|j: int|
        resolved_with(fp, fb, cs0, qs0, prim, j, Collision::Up) || resolved_with(
            fp,
            fb,
            cs0,
            qs0,
            prim,
            j,
            Collision::Down,
        )))
    &&& match fb.grounded {
        None => fp == ep && fb.vel_x == eb.vel_x && fb.vel_y == eb.vel_y,
        Some(side) => exists|j: int| resolved_with(fp, fb, cs0, qs0, prim, j, side),
    }
    &&& exists|hops: Seq<(Coordinates, int, Collision)>|
        {
            &&& #[trigger] chain_ok(cs0, qs0, prim, eb, ep, hops, fp)
            &&& (fb.grounded is None <==> hops.len() == 0)
            &&& (hops.len() > 0 ==> fb.grounded == Some(hops.last().2))
        }
    &&& (no_overlap_with_primary(cs0, qs0, prim, ep, eb) ==> fp == ep && fb.vel_x == eb.vel_x
        && fb.vel_y == eb.vel_y && fb.grounded is None)
}

/// Narrow phase: walks the grid buckets in order and, in every bucket led
/// by the primary, resolves the primary against each other member in
/// order.  When the primary penetrates several boxes, the last processed
/// overlapping pair's correction is the one that remains.
fn resolve_buckets(
    colliders: &mut Vec<Option<Collider>>,
    coordinates: &mut Vec<Option<Coordinates>>,
    pairs: &Vec<usize>,
    grid: &Vec<Vec<usize>>,
)
    requires
        narrow_ctx(old(colliders)@, old(coordinates)@, pairs@, grid@),
        abs(old(coordinates)@[pairs@[0] as int]->0.coord_x as int) <= 4 * (WORLD_BOUND as int),
        abs(old(coordinates)@[pairs@[0] as int]->0.coord_y as int) <= 4 * (WORLD_BOUND as int),
    ensures
        resolution_state(
            final(colliders)@,
            final(coordinates)@,
            old(colliders)@,
            old(coordinates)@,
            pairs@[0] as int,
        ),
{
    proof {
        assert(both_present(colliders@, coordinates@, pairs@[0] as int));
    }
    let prim = pairs[0];
    let ghost cs0 = colliders@;
    let ghost qs0 = coordinates@;
    let ghost mut hops: Seq<(Coordinates, int, Collision)> = Seq::empty();
    let mut pb = colliders[prim].unwrap();
    pb.grounded = None;
    colliders[prim] = Some(pb);
    proof {
        assert(colliders@ =~= cs0.update(prim as int, Some(pb)));
        assert(chain_ok(
            cs0,
            qs0,
            prim as int,
            cs0[prim as int]->0,
            qs0[prim as int]->0,
            hops,
            coordinates@[prim as int]->0,
        ));
    }
    let mut col: usize = 0;
    while col < GRID_COLS
        invariant
            narrow_ctx(cs0, qs0, pairs@, grid@),
            prim == pairs@[0],
            0 <= col <= GRID_COLS,
            colliders@.len() == cs0.len(),
            coordinates@.len() == qs0.len(),
            forall|i: int|
                #![trigger colliders@[i]]
                0 <= i < cs0.len() && i != prim as int ==> colliders@[i] == cs0[i],
            forall|i: int|
                #![trigger coordinates@[i]]
                0 <= i < qs0.len() && i != prim as int ==> coordinates@[i] == qs0[i],
            colliders@[prim as int] is Some,
            coordinates@[prim as int] is Some,
            same_shape(colliders@[prim as int]->0, cs0[prim as int]->0),
            coords_in_range(coordinates@[prim as int]->0),
            ({
                let eb = cs0[prim as int]->0;
                let ep = qs0[prim as int]->0;
                let fb = colliders@[prim as int]->0;
                let fp = coordinates@[prim as int]->0;
                &&& ((fp.coord_x == ep.coord_x && fb.vel_x == eb.vel_x) || (exists|j: int|
                    resolved_with(fp, fb, cs0, qs0, prim as int, j, Collision::Left)
                        || resolved_with(fp, fb, cs0, qs0, prim as int, j, Collision::Right)))
                &&& ((fp.coord_y == ep.coord_y && fb.vel_y == eb.vel_y) || (exists|j: int|
                    resolved_with(fp, fb, cs0, qs0, prim as int, j, Collision::Up)
                        || resolved_with(fp, fb, cs0, qs0, prim as int, j, Collision::Down)))
                &&& match fb.grounded {
                    None => fp == ep && fb.vel_x == eb.vel_x && fb.vel_y == eb.vel_y,
                    Some(side) => exists|j: int|
                        resolved_with(fp, fb, cs0, qs0, prim as int, j, side),
                }
            }),
            chain_ok(
                cs0,
                qs0,
                prim as int,
                cs0[prim as int]->0,
                qs0[prim as int]->0,
                hops,
                coordinates@[prim as int]->0,
            ),
            (colliders@[prim as int]->0.grounded is None <==> hops.len() == 0),
            (hops.len() > 0 ==> colliders@[prim as int]->0.grounded == Some(hops.last().2)),
        decreases GRID_COLS - col,
    {
        let mut row: usize = 0;
        while row < GRID_ROWS
            invariant
                narrow_ctx(cs0, qs0, pairs@, grid@),
                prim == pairs@[0],
                0 <= col < GRID_COLS,
                0 <= row <= GRID_ROWS,
                colliders@.len() == cs0.len(),
                coordinates@.len() == qs0.len(),
                forall|i: int|
                    #![trigger colliders@[i]]
                    0 <= i < cs0.len() && i != prim as int ==> colliders@[i] == cs0[i],
                forall|i: int|
                    #![trigger coordinates@[i]]
                    0 <= i < qs0.len() && i != prim as int ==> coordinates@[i] == qs0[i],
                colliders@[prim as int] is Some,
                coordinates@[prim as int] is Some,
                same_shape(colliders@[prim as int]->0, cs0[prim as int]->0),
                coords_in_range(coordinates@[prim as int]->0),
                ({
                    let eb = cs0[prim as int]->0;
                    let ep = qs0[prim as int]->0;
                    let fb = colliders@[prim as int]->0;
                    let fp = coordinates@[prim as int]->0;
                    &&& ((fp.coord_x == ep.coord_x && fb.vel_x == eb.vel_x) || (exists|j: int|
                        resolved_with(fp, fb, cs0, qs0, prim as int, j, Collision::Left)
                            || resolved_with(fp, fb, cs0, qs0, prim as int, j, Collision::Right)))
                    &&& ((fp.coord_y == ep.coord_y && fb.vel_y == eb.vel_y) || (exists|j: int|
                        resolved_with(fp, fb, cs0, qs0, prim as int, j, Collision::Up)
                            || resolved_with(fp, fb, cs0, qs0, prim as int, j, Collision::Down)))
                    &&& match fb.grounded {
                        None => fp == ep && fb.vel_x == eb.vel_x && fb.vel_y == eb.vel_y,
                        Some(side) => exists|j: int|
                            resolved_with(fp, fb, cs0, qs0, prim as int, j, side),
                    }
                }),
                chain_ok(
                    cs0,
                    qs0,
                    prim as int,
                    cs0[prim as int]->0,
                    qs0[prim as int]->0,
                    hops,
                    coordinates@[prim as int]->0,
                ),
                (colliders@[prim as int]->0.grounded is None <==> hops.len() == 0),
                (hops.len() > 0 ==> colliders@[prim as int]->0.grounded == Some(hops.last().2)),
            decreases GRID_ROWS - row,
        {
            let bucket = &grid[col * GRID_ROWS + row];
            if bucket.len() > 0 && bucket[0] == 0 {
                let mut u: usize = 0;
                while u < bucket.len()
                    invariant
                        narrow_ctx(cs0, qs0, pairs@, grid@),
                        prim == pairs@[0],
                        0 <= col < GRID_COLS,
                        0 <= row < GRID_ROWS,
                        bucket == &grid[col * GRID_ROWS + row],
                        0 <= u <= bucket@.len(),
                        colliders@.len() == cs0.len(),
                        coordinates@.len() == qs0.len(),
                        forall|i: int|
                            #![trigger colliders@[i]]
                            0 <= i < cs0.len() && i != prim as int ==> colliders@[i] == cs0[i],
                        forall|i: int|
                            #![trigger coordinates@[i]]
                            0 <= i < qs0.len() && i != prim as int ==> coordinates@[i] == qs0[i],
                        colliders@[prim as int] is Some,
                        coordinates@[prim as int] is Some,
                        same_shape(colliders@[prim as int]->0, cs0[prim as int]->0),
                        coords_in_range(coordinates@[prim as int]->0),
                        ({
                            let eb = cs0[prim as int]->0;
                            let ep = qs0[prim as int]->0;
                            let fb = colliders@[prim as int]->0;
                            let fp = coordinates@[prim as int]->0;
                            &&& ((fp.coord_x == ep.coord_x && fb.vel_x == eb.vel_x) || (exists|
                                j: int,
                            |
                                resolved_with(fp, fb, cs0, qs0, prim as int, j, Collision::Left)
                                    || resolved_with(
                                    fp,
                                    fb,
                                    cs0,
                                    qs0,
                                    prim as int,
                                    j,
                                    Collision::Right,
                                )))
                            &&& ((fp.coord_y == ep.coord_y && fb.vel_y == eb.vel_y) || (exists|
                                j: int,
                            |
                                resolved_with(fp, fb, cs0, qs0, prim as int, j, Collision::Up)
                                    || resolved_with(
                                    fp,
                                    fb,
                                    cs0,
                                    qs0,
                                    prim as int,
                                    j,
                                    Collision::Down,
                                )))
                            &&& match fb.grounded {
                                None => fp == ep && fb.vel_x == eb.vel_x && fb.vel_y == eb.vel_y,
                                Some(side) => exists|j: int|
                                    resolved_with(fp, fb, cs0, qs0, prim as int, j, side),
                            }
                        }),
                        chain_ok(
                            cs0,
                            qs0,
                            prim as int,
                            cs0[prim as int]->0,
                            qs0[prim as int]->0,
                            hops,
                            coordinates@[prim as int]->0,
                        ),
                        (colliders@[prim as int]->0.grounded is None <==> hops.len() == 0),
                        (hops.len() > 0 ==> colliders@[prim as int]->0.grounded == Some(hops.last().2)),
                    decreases bucket@.len() - u,
                {
                    let k = bucket[u];
                    if k != 0 {
                        proof {
                            assert(grid@[col * GRID_ROWS + row]@[u as int] < pairs@.len());
                            assert(pairs@[0] < pairs@[k as int]);
                            assert(both_present(cs0, qs0, pairs@[k as int] as int));
                        }
                        let oidx = pairs[k];
                        let p0 = coordinates[prim].unwrap();
                        let b0 = colliders[prim].unwrap();
                        let q = coordinates[oidx].unwrap();
                        let c = colliders[oidx].unwrap();
                        match box_collision((&p0, &b0), (&q, &c)) {
                            Some(Collision::Left) => {
                                let mut np = p0;
                                let mut nb = b0;
                                np.coord_x = q.coord_x + c.boundary.2;
                                nb.vel_x = 0;
                                nb.grounded = Some(Collision::Left);
                                coordinates[prim] = Some(np);
                                colliders[prim] = Some(nb);
                                proof {
                                    assert(resolved_with(
                                        np,
                                        nb,
                                        cs0,
                                        qs0,
                                        prim as int,
                                        oidx as int,
                                        Collision::Left,
                                    ));
                                    let ebx = cs0[prim as int]->0;
                                    assert(ebx.boundary == b0.boundary);
                                    assert(collision_side(p0, ebx, q, c) == Some(Collision::Left));
                                    assert(np == resolved_coords(p0, ebx, q, c, Collision::Left));
                                    assert(q == qs0[oidx as int]->0 && c == cs0[oidx as int]->0);
                                    assert(hop_ok(
                                        cs0,
                                        qs0,
                                        prim as int,
                                        ebx,
                                        p0,
                                        oidx as int,
                                        Collision::Left,
                                        np,
                                    ));
                                    lemma_chain_push(
                                        cs0,
                                        qs0,
                                        prim as int,
                                        ebx,
                                        qs0[prim as int]->0,
                                        hops,
                                        p0,
                                        oidx as int,
                                        Collision::Left,
                                        np,
                                    );
                                    hops = hops.push((p0, oidx as int, Collision::Left));
                                    assert(hops.last() == (p0, oidx as int, Collision::Left));
                                    let eb = cs0[prim as int]->0;
                                    let ep = qs0[prim as int]->0;
                                    if !(p0.coord_y == ep.coord_y && b0.vel_y == eb.vel_y) {
                                        let j = choose|j: int|
                                            resolved_with(p0, b0, cs0, qs0, prim as int, j, Collision::Up)
                                                || resolved_with(p0, b0, cs0, qs0, prim as int, j, Collision::Down);
                                        assert(resolved_with(np, nb, cs0, qs0, prim as int, j, Collision::Up)
                                            || resolved_with(np, nb, cs0, qs0, prim as int, j, Collision::Down));
                                    }
                                }
                            },
                            Some(Collision::Right) => {
                                let mut np = p0;
                                let mut nb = b0;
                                np.coord_x = q.coord_x - b0.boundary.2;
                                nb.vel_x = 0;
                                nb.grounded = Some(Collision::Right);
                                coordinates[prim] = Some(np);
                                colliders[prim] = Some(nb);
                                proof {
                                    assert(resolved_with(
                                        np,
                                        nb,
                                        cs0,
                                        qs0,
                                        prim as int,
                                        oidx as int,
                                        Collision::Right,
                                    ));
                                    let ebx = cs0[prim as int]->0;
                                    assert(ebx.boundary == b0.boundary);
                                    assert(collision_side(p0, ebx, q, c) == Some(Collision::Right));
                                    assert(np == resolved_coords(p0, ebx, q, c, Collision::Right));
                                    assert(q == qs0[oidx as int]->0 && c == cs0[oidx as int]->0);
                                    assert(hop_ok(
                                        cs0,
                                        qs0,
                                        prim as int,
                                        ebx,
                                        p0,
                                        oidx as int,
                                        Collision::Right,
                                        np,
                                    ));
                                    lemma_chain_push(
                                        cs0,
                                        qs0,
                                        prim as int,
                                        ebx,
                                        qs0[prim as int]->0,
                                        hops,
                                        p0,
                                        oidx as int,
                                        Collision::Right,
                                        np,
                                    );
                                    hops = hops.push((p0, oidx as int, Collision::Right));
                                    assert(hops.last() == (p0, oidx as int, Collision::Right));
                                    let eb = cs0[prim as int]->0;
                                    let ep = qs0[prim as int]->0;
                                    if !(p0.coord_y == ep.coord_y && b0.vel_y == eb.vel_y) {
                                        let j = choose|j: int|
                                            resolved_with(p0, b0, cs0, qs0, prim as int, j, Collision::Up)
                                                || resolved_with(p0, b0, cs0, qs0, prim as int, j, Collision::Down);
                                        assert(resolved_with(np, nb, cs0, qs0, prim as int, j, Collision::Up)
                                            || resolved_with(np, nb, cs0, qs0, prim as int, j, Collision::Down));
                                    }
                                }
                            },
                            Some(Collision::Up) => {
                                let mut np = p0;
                                let mut nb = b0;
                                np.coord_y = q.coord_y - b0.boundary.3;
                                nb.vel_y = 0;
                                nb.grounded = Some(Collision::Up);
                                coordinates[prim] = Some(np);
                                colliders[prim] = Some(nb);
                                proof {
                                    assert(resolved_with(
                                        np,
                                        nb,
                                        cs0,
                                        qs0,
                                        prim as int,
                                        oidx as int,
                                        Collision::Up,
                                    ));
                                    let ebx = cs0[prim as int]->0;
                                    assert(ebx.boundary == b0.boundary);
                                    assert(collision_side(p0, ebx, q, c) == Some(Collision::Up));
                                    assert(np == resolved_coords(p0, ebx, q, c, Collision::Up));
                                    assert(q == qs0[oidx as int]->0 && c == cs0[oidx as int]->0);
                                    assert(hop_ok(
                                        cs0,
                                        qs0,
                                        prim as int,
                                        ebx,
                                        p0,
                                        oidx as int,
                                        Collision::Up,
                                        np,
                                    ));
                                    lemma_chain_push(
                                        cs0,
                                        qs0,
                                        prim as int,
                                        ebx,
                                        qs0[prim as int]->0,
                                        hops,
                                        p0,
                                        oidx as int,
                                        Collision::Up,
                                        np,
                                    );
                                    hops = hops.push((p0, oidx as int, Collision::Up));
                                    assert(hops.last() == (p0, oidx as int, Collision::Up));
                                    let eb = cs0[prim as int]->0;
                                    let ep = qs0[prim as int]->0;
                                    if !(p0.coord_x == ep.coord_x && b0.vel_x == eb.vel_x) {
                                        let j = choose|j: int|
                                            resolved_with(p0, b0, cs0, qs0, prim as int, j, Collision::Left)
                                                || resolved_with(p0, b0, cs0, qs0, prim as int, j, Collision::Right);
                                        assert(resolved_with(np, nb, cs0, qs0, prim as int, j, Collision::Left)
                                            || resolved_with(np, nb, cs0, qs0, prim as int, j, Collision::Right));
                                    }
                                }
                            },
                            Some(Collision::Down) => {
                                let mut np = p0;
                                let mut nb = b0;
                                np.coord_y = q.coord_y + c.boundary.3;
                                nb.vel_y = 0;
                                nb.grounded = Some(Collision::Down);
                                coordinates[prim] = Some(np);
                                colliders[prim] = Some(nb);
                                proof {
                                    assert(resolved_with(
                                        np,
                                        nb,
                                        cs0,
                                        qs0,
                                        prim as int,
                                        oidx as int,
                                        Collision::Down,
                                    ));
                                    let ebx = cs0[prim as int]->0;
                                    assert(ebx.boundary == b0.boundary);
                                    assert(collision_side(p0, ebx, q, c) == Some(Collision::Down));
                                    assert(np == resolved_coords(p0, ebx, q, c, Collision::Down));
                                    assert(q == qs0[oidx as int]->0 && c == cs0[oidx as int]->0);
                                    assert(hop_ok(
                                        cs0,
                                        qs0,
                                        prim as int,
                                        ebx,
                                        p0,
                                        oidx as int,
                                        Collision::Down,
                                        np,
                                    ));
                                    lemma_chain_push(
                                        cs0,
                                        qs0,
                                        prim as int,
                                        ebx,
                                        qs0[prim as int]->0,
                                        hops,
                                        p0,
                                        oidx as int,
                                        Collision::Down,
                                        np,
                                    );
                                    hops = hops.push((p0, oidx as int, Collision::Down));
                                    assert(hops.last() == (p0, oidx as int, Collision::Down));
                                    let eb = cs0[prim as int]->0;
                                    let ep = qs0[prim as int]->0;
                                    if !(p0.coord_x == ep.coord_x && b0.vel_x == eb.vel_x) {
                                        let j = choose|j: int|
                                            resolved_with(p0, b0, cs0, qs0, prim as int, j, Collision::Left)
                                                || resolved_with(p0, b0, cs0, qs0, prim as int, j, Collision::Right);
                                        assert(resolved_with(np, nb, cs0, qs0, prim as int, j, Collision::Left)
                                            || resolved_with(np, nb, cs0, qs0, prim as int, j, Collision::Right));
                                    }
                                }
                            },
                            None => {},
                        }
                    }
                    proof {
                        let eb = cs0[prim as int]->0;
                        let ep = qs0[prim as int]->0;
                        let fb = colliders@[prim as int]->0;
                        let fp = coordinates@[prim as int]->0;
                        assert(same_shape(fb, eb));
                        assert(coords_in_range(fp));
                        assert((fp.coord_x == ep.coord_x && fb.vel_x == eb.vel_x) || (exists|j: int|
                            resolved_with(fp, fb, cs0, qs0, prim as int, j, Collision::Left)
                                || resolved_with(fp, fb, cs0, qs0, prim as int, j, Collision::Right)));
                        assert((fp.coord_y == ep.coord_y && fb.vel_y == eb.vel_y) || (exists|j: int|
                            resolved_with(fp, fb, cs0, qs0, prim as int, j, Collision::Up)
                                || resolved_with(fp, fb, cs0, qs0, prim as int, j, Collision::Down)));
                        assert(match fb.grounded {
                            None => fp == ep && fb.vel_x == eb.vel_x && fb.vel_y == eb.vel_y,
                            Some(side) => exists|j: int|
                                resolved_with(fp, fb, cs0, qs0, prim as int, j, side),
                        });
                    }
                    u = u + 1;
                }
            }
            row = row + 1;
        }
        col = col + 1;
    }
    proof {
        let eb = cs0[prim as int]->0;
        let ep = qs0[prim as int]->0;
        let fb = colliders@[prim as int]->0;
        let fp = coordinates@[prim as int]->0;
        assert(chain_ok(cs0, qs0, prim as int, eb, ep, hops, fp));
        if no_overlap_with_primary(cs0, qs0, prim as int, ep, eb) && hops.len() > 0 {
            // the first correction would have required an overlap at the
            // integrated position
            assert(hop_ok(
                cs0,
                qs0,
                prim as int,
                eb,
                hops[0].0,
                hops[0].1,
                hops[0].2,
                hop_post(hops, fp, 0),
            ));
            assert(hops[0].0 == ep);
            assert(both_present(cs0, qs0, hops[0].1));
            assert(overlap(ep, eb, qs0[hops[0].1]->0, cs0[hops[0].1]->0));
            assert(false);
        }
        assert(resolution_state(colliders@, coordinates@, cs0, qs0, prim as int));
    }
}


/// One frame of physics, as the per-frame loop runs it: buckets every
/// entity that has both a collider and coordinates into the spatial grid
/// (using pre-step positions), applies gravity and velocity integration,
/// then resolves the primary entity's collisions bucket by bucket.
///
/// Every non-primary participant ends the frame exactly integrated; the
/// primary additionally carries the outcome of narrow-phase resolution.
/// When the primary penetrates several boxes at once, the correction of
/// the last processed overlapping pair is the one that remains - an
/// artifact of bucket iteration order rather than a chosen policy.
pub fn simulate_frame(
    colliders: &mut Vec<Option<Collider>>,
    coordinates: &mut Vec<Option<Coordinates>>,
    camera: &Camera,
)
    requires
        old(colliders)@.len() == old(coordinates)@.len(),
        frame_in_range(old(colliders)@, old(coordinates)@),
        exists|i: int| both_present(old(colliders)@, old(coordinates)@, i),
    ensures
        final(colliders)@.len() == old(colliders)@.len(),
        final(coordinates)@.len() == old(coordinates)@.len(),
        forall|i: int|
            #![trigger final(colliders)@[i]]
            #![trigger final(coordinates)@[i]]
            0 <= i < old(colliders)@.len() && !both_present(old(colliders)@, old(coordinates)@, i)
                ==> final(colliders)@[i] == old(colliders)@[i] && final(coordinates)@[i] == old(
                coordinates,
            )@[i],
        forall|i: int|
            #![trigger final(colliders)@[i]]
            #![trigger final(coordinates)@[i]]
            both_present(old(colliders)@, old(coordinates)@, i) && !is_primary(
                old(colliders)@,
                old(coordinates)@,
                i,
            ) ==> final(colliders)@[i] == Some(integrated_collider(old(colliders)@[i]->0))
                && final(coordinates)@[i] == Some(
                integrated_coords(old(coordinates)@[i]->0, old(colliders)@[i]->0),
            ),
        forall|prim: int|
            #![trigger is_primary(old(colliders)@, old(coordinates)@, prim)]
            is_primary(old(colliders)@, old(coordinates)@, prim) ==> resolution_state(
                final(colliders)@,
                final(coordinates)@,
                integrated_seq_colliders(old(colliders)@, old(coordinates)@),
                integrated_seq_coords(old(colliders)@, old(coordinates)@),
                prim,
            ),
{
    let ghost oc = colliders@;
    let ghost oq = coordinates@;
    let pairs = collect_pairs(colliders, coordinates);
    let grid = build_grid(colliders, coordinates, &pairs, camera);
    integrate_frame(colliders, coordinates, &pairs);
    proof {
        assert(colliders@ =~= integrated_seq_colliders(oc, oq));
        assert(coordinates@ =~= integrated_seq_coords(oc, oq));
        let ics = colliders@;
        let iqs = coordinates@;
        assert forall|i: int| #![trigger both_present(ics, iqs, i)] true implies both_present(
            ics,
            iqs,
            i,
        ) == both_present(oc, oq, i) by {}
        assert forall|t: int| 0 <= t < pairs@.len() implies both_present(
            ics,
            iqs,
            #[trigger] pairs@[t] as int,
        ) && collider_integrated_range(ics[pairs@[t] as int]->0) && coords_integrated_range(
            iqs[pairs@[t] as int]->0,
        ) by {
            assert(both_present(oc, oq, pairs@[t] as int));
        }
        let ghost prim = pairs@[0] as int;
        assert(abs(iqs[prim]->0.coord_x as int) <= 4 * (WORLD_BOUND as int));
        assert(abs(iqs[prim]->0.coord_y as int) <= 4 * (WORLD_BOUND as int));
        assert forall|b: int, u: int|
            #![trigger grid@[b]@[u]]
            0 <= b < grid@.len() && 0 <= u < grid@[b]@.len() implies grid@[b]@[u] < pairs@.len() by {
            let col = b / (GRID_ROWS as int);
            let row = b % (GRID_ROWS as int);
            vstd::arithmetic::div_mod::lemma_fundamental_div_mod(b, GRID_ROWS as int);
            vstd::arithmetic::div_mod::lemma_mod_division_less_than_divisor(b, GRID_ROWS as int);
            vstd::arithmetic::div_mod::lemma_div_pos_is_pos(b, GRID_ROWS as int);
            assert(b == col * (GRID_ROWS as int) + row);
            assert(col < GRID_COLS) by {
                if col >= GRID_COLS {
                    assert(b >= (GRID_COLS as int) * (GRID_ROWS as int)) by (nonlinear_arith)
                        requires
                            col >= GRID_COLS as int,
                            0 <= row,
                            b == col * (GRID_ROWS as int) + row,
                    ;
                }
            }
            assert(grid@[col * (GRID_ROWS as int) + row]@ == bucket_upto(
                oc,
                oq,
                pairs@,
                *camera,
                col,
                row,
                pairs@.len() as int,
            ));
            lemma_bucket_upto_props(oc, oq, pairs@, *camera, col, row, pairs@.len() as int);
        }
        assert(narrow_ctx(colliders@, coordinates@, pairs@, grid@));
    }
    resolve_buckets(colliders, coordinates, &pairs, &grid);
    proof {
        let ics = integrated_seq_colliders(oc, oq);
        let iqs = integrated_seq_coords(oc, oq);
        assert forall|prim: int|
            #![trigger is_primary(oc, oq, prim)]
            is_primary(oc, oq, prim) implies prim == pairs@[0] as int by {
            assert(both_present(oc, oq, prim));
            assert(pairs@.len() > 0);
            assert(is_primary(oc, oq, pairs@[0] as int));
            if prim < pairs@[0] as int {
                assert(!both_present(oc, oq, prim));
            }
            if prim > pairs@[0] as int {
                assert(!both_present(oc, oq, pairs@[0] as int));
            }
        }
        assert forall|i: int|
            #![trigger final(colliders)@[i]]
            #![trigger final(coordinates)@[i]]
            0 <= i < oc.len() && i != pairs@[0] as int implies final(colliders)@[i] == ics[i]
            && final(coordinates)@[i] == iqs[i] by {}
    }
}

/// The collider column as it stands after the integration pass.
pub open spec fn integrated_seq_colliders(
    cs: Seq<Option<Collider>>,
    qs: Seq<Option<Coordinates>>,
) -> Seq<Option<Collider>> {
    Seq::new(
        cs.len(),
        |i: int|
            if both_present(cs, qs, i) {
                Some(integrated_collider(cs[i]->0))
            } else {
                cs[i]
            },
    )
}

/// The coordinates column as it stands after the integration pass.
pub open spec fn integrated_seq_coords(
    cs: Seq<Option<Collider>>,
    qs: Seq<Option<Coordinates>>,
) -> Seq<Option<Coordinates>> {
    Seq::new(
        qs.len(),
        |i: int|
            if both_present(cs, qs, i) {
                Some(integrated_coords(qs[i]->0, cs[i]->0))
            } else {
                qs[i]
            },
    )
}

} // verus!
