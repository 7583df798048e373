use gametesting::Collider;
use gametesting::Coordinates;
use gametesting::econtainer::EContainer;

fn plain_collider() -> Collider {
    Collider {
        sticky: false,
        rigid_body: false,
        active: false,
        collision: true,
        boundary: (0, 0, 160000, 160000),
        vel_x: 0,
        vel_y: 0,
        grounded: None,
    }
}

#[test]
fn entity_id_reuse_smallest_free() {
    // Allocate N ids, release one, allocate again: the released id returns.
    let mut container = EContainer::new();
    for expected in 0..5usize {
        let id = container.new_entity();
        assert_eq!(id, expected);
    }
    container.remove_entity(2);
    assert_eq!(container.new_entity(), 2);
    // With nothing free, allocation continues past the end.
    assert_eq!(container.new_entity(), 5);
}

#[test]
fn entity_id_reuse_prefers_smallest() {
    let mut container = EContainer::new();
    for _ in 0..6usize {
        container.new_entity();
    }
    container.remove_entity(4);
    container.remove_entity(1);
    container.remove_entity(3);
    assert_eq!(container.new_entity(), 1);
    assert_eq!(container.new_entity(), 3);
    assert_eq!(container.new_entity(), 4);
    assert_eq!(container.new_entity(), 6);
}

#[test]
fn column_grows_with_new_entities() {
    // Every previously-registered column grows by one absent slot per
    // fresh entity.
    let mut container = EContainer::new();
    let e0 = container.new_entity();
    container.add_component_to_entity(e0, 3i32);
    let markers = container.borrow_component_vec::<i32>().unwrap();
    assert_eq!(markers.len(), 1);
    let _ = markers;
    container.new_entity();
    let markers = container.borrow_component_vec::<i32>().unwrap();
    assert_eq!(markers.len(), 2);
    assert_eq!(markers[0], Some(3));
    assert_eq!(markers[1], None);
}

#[test]
fn add_and_remove_components() {
    let mut container = EContainer::new();
    let e0 = container.new_entity();
    let e1 = container.new_entity();
    container.add_component_to_entity(e0, 3i32);
    container.add_component_to_entity(e1, 5i32);
    container.add_component_to_entity(
        e1,
        Coordinates { coord_x: 10, coord_y: 20 },
    );
    container.add_component_to_entity(e1, plain_collider());
    {
        let markers = container.borrow_component_vec::<i32>().unwrap();
        assert_eq!(markers[0], Some(3));
        assert_eq!(markers[1], Some(5));
    }
    container.remove_entity_component(e1, 0i32);
    {
        let markers = container.borrow_component_vec::<i32>().unwrap();
        assert_eq!(markers[1], None);
    }
    {
        let coords = container.borrow_component_vec::<Coordinates>().unwrap();
        assert_eq!(coords[0], None);
        assert_eq!(coords[1], Some(Coordinates { coord_x: 10, coord_y: 20 }));
    }
}

#[test]
fn unregistered_kind_has_no_column() {
    let mut container = EContainer::new();
    container.new_entity();
    assert!(container.borrow_component_vec::<Collider>().is_none());
    assert!(container.borrow_component_vec_mut::<Coordinates>().is_none());
}

#[test]
fn remove_entity_clears_all_columns() {
    let mut container = EContainer::new();
    let e0 = container.new_entity();
    container.add_component_to_entity(e0, 7i32);
    container.add_component_to_entity(
        e0,
        Coordinates { coord_x: 1, coord_y: 2 },
    );
    container.remove_entity(e0);
    {
        let markers = container.borrow_component_vec::<i32>().unwrap();
        assert_eq!(markers[0], None);
        let coords = container.borrow_component_vec::<Coordinates>().unwrap();
        assert_eq!(coords[0], None);
    }
    assert_eq!(container.new_entity(), 0);
}

#[test]
fn mutable_borrow_writes_through() {
    let mut container = EContainer::new();
    let e0 = container.new_entity();
    container.add_component_to_entity(e0, 1i32);
    {
        let markers = container.borrow_component_vec_mut::<i32>().unwrap();
        markers[0] = Some(99);
    }
    let markers = container.borrow_component_vec::<i32>().unwrap();
    assert_eq!(markers[0], Some(99));
}
