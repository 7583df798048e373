use gametesting::Camera;
use gametesting::Collider;
use gametesting::Collision;
use gametesting::Coordinates;
use gametesting::physics::GRAVITY;
use gametesting::physics::box_collision;
use gametesting::physics::simulate_frame;

fn block(x: i64, y: i64, w: i64, h: i64) -> (Coordinates, Collider) {
    (
        Coordinates { coord_x: x, coord_y: y },
        Collider {
            sticky: false,
            rigid_body: false,
            active: false,
            collision: true,
            boundary: (0, 0, w, h),
            vel_x: 0,
            vel_y: 0,
            grounded: None,
        },
    )
}

#[test]
fn overlap_is_symmetric() {
    // overlap(A, B) == overlap(B, A) over a spread of box pairs.
    let cases = [
        (0i64, 0i64, 10i64, 10i64, 5i64, 5i64, 10i64, 10i64),
        (0, 0, 10, 10, 20, 20, 10, 10),
        (0, 0, 10, 10, 9, 0, 10, 10),
        (0, 0, 10, 10, 10, 0, 10, 10),
        (3, 4, 7, 2, 1, 1, 9, 9),
        (-5, -5, 10, 10, 0, 0, 3, 3),
    ];
    for &(ax, ay, aw, ah, bx, by, bw, bh) in cases.iter() {
        let a = block(ax, ay, aw, ah);
        let b = block(bx, by, bw, bh);
        let ab = box_collision((&a.0, &a.1), (&b.0, &b.1));
        let ba = box_collision((&b.0, &b.1), (&a.0, &a.1));
        assert_eq!(ab.is_some(), ba.is_some());
    }
}

#[test]
fn collision_side_picks_smaller_penetration() {
    // Box deeply overlapping from the left: resolved on the x axis.
    let a = block(0, 0, 10, 10);
    let b = block(8, 0, 10, 10);
    // a's center is left of b's center, a penetrates b from the left
    assert_eq!(box_collision((&a.0, &a.1), (&b.0, &b.1)), Some(Collision::Right));
    assert_eq!(box_collision((&b.0, &b.1), (&a.0, &a.1)), Some(Collision::Left));
    // Vertical stack: resolved on the y axis.
    let c = block(0, 8, 10, 10);
    let d = block(0, 0, 10, 10);
    assert_eq!(box_collision((&c.0, &c.1), (&d.0, &d.1)), Some(Collision::Down));
    assert_eq!(box_collision((&d.0, &d.1), (&c.0, &c.1)), Some(Collision::Up));
}

#[test]
fn no_overlap_no_collision() {
    let a = block(0, 0, 10, 10);
    let b = block(10, 0, 10, 10);
    assert_eq!(box_collision((&a.0, &a.1), (&b.0, &b.1)), None);
    let c = block(0, 30, 10, 10);
    assert_eq!(box_collision((&a.0, &a.1), (&c.0, &c.1)), None);
}

#[test]
fn resolution_is_idempotent() {
    // Two non-moving deeply overlapping boxes resolved once: a second pass
    // reports no further penetration.
    let a = block(0, 0, 10, 10);
    let b = block(8, 0, 10, 10);
    let side = box_collision((&a.0, &a.1), (&b.0, &b.1)).unwrap();
    assert_eq!(side, Collision::Right);
    // Snap flush per the resolver's Right rule: a.x = b.x - a.width
    let resolved = Coordinates { coord_x: b.0.coord_x - a.1.boundary.2, coord_y: a.0.coord_y };
    assert_eq!(box_collision((&resolved, &a.1), (&b.0, &b.1)), None);
}

#[test]
fn simulate_frame_integrates_and_snaps() {
    // A falling player above a static block: gravity pulls it down, the
    // narrow phase snaps it back on top and grounds it.
    let mut colliders: Vec<Option<Collider>> = Vec::new();
    let mut coordinates: Vec<Option<Coordinates>> = Vec::new();
    let player = block(200000, 160001, 160000, 160000);
    let mut player_col = player.1;
    player_col.active = true;
    player_col.rigid_body = true;
    player_col.vel_y = -2;
    colliders.push(Some(player_col));
    coordinates.push(Some(player.0));
    let floor = block(0, 0, 4260000, 160000);
    colliders.push(Some(floor.1));
    coordinates.push(Some(floor.0));
    let camera = Camera { x: 0, y: 0 };
    simulate_frame(&mut colliders, &mut coordinates, &camera);
    let p = coordinates[0].unwrap();
    let c = colliders[0].unwrap();
    // gravity applied then the snap put the player flush on the floor top
    assert_eq!(c.grounded, Some(Collision::Down));
    assert_eq!(p.coord_y, 160000);
    assert_eq!(c.vel_y, 0);
    // the static block was untouched
    assert_eq!(coordinates[1].unwrap(), floor.0);
    assert_eq!(colliders[1].unwrap(), floor.1);
}

#[test]
fn simulate_frame_gravity_only() {
    // An active rigid body far from everything: exact integration.
    let mut colliders: Vec<Option<Collider>> = Vec::new();
    let mut coordinates: Vec<Option<Coordinates>> = Vec::new();
    let solo = block(5000000, 5000000, 160000, 160000);
    let mut solo_col = solo.1;
    solo_col.active = true;
    solo_col.rigid_body = true;
    solo_col.vel_x = 70;
    solo_col.vel_y = 30;
    colliders.push(Some(solo_col));
    coordinates.push(Some(solo.0));
    let camera = Camera { x: 0, y: 0 };
    simulate_frame(&mut colliders, &mut coordinates, &camera);
    let p = coordinates[0].unwrap();
    let c = colliders[0].unwrap();
    assert_eq!(c.vel_y, 30 - GRAVITY);
    assert_eq!(p.coord_x, 5000000 + 70);
    assert_eq!(p.coord_y, 5000000 + 30 - GRAVITY);
    assert_eq!(c.grounded, None);
}

#[test]
fn simulate_frame_skips_inactive() {
    let mut colliders: Vec<Option<Collider>> = Vec::new();
    let mut coordinates: Vec<Option<Coordinates>> = Vec::new();
    let still = block(100, 100, 10, 10);
    colliders.push(Some(still.1));
    coordinates.push(Some(still.0));
    let camera = Camera { x: 0, y: 0 };
    simulate_frame(&mut colliders, &mut coordinates, &camera);
    assert_eq!(coordinates[0].unwrap(), still.0);
    let c = colliders[0].unwrap();
    assert_eq!(c.vel_x, 0);
    assert_eq!(c.vel_y, 0);
}
