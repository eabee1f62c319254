use firefly::search::{Index, Rack};

#[test]
fn test_alloc() {
    let mut rack: Rack<u32> = Rack::new(3);
    let index = rack.allocate(42);
    let data = rack.get(index);
    assert_eq!(*data, 42);
}

#[test]
fn test_rent_shelf() {
    let rack: Rack<u32> = Rack::new(3);
    let shelf_ref = rack.rent_shelf();
    assert_eq!(rack.shelf_len(&shelf_ref), 0);
}

#[test]
fn test_append() {
    let mut rack: Rack<u32> = Rack::new(3);
    let shelf_ref = rack.rent_shelf();
    let index = rack.append(&shelf_ref, 42);
    drop(shelf_ref);

    let data = rack.get(index);
    assert_eq!(*data, 42);
}

#[test]
fn test_append_vec() {
    let mut rack: Rack<u32> = Rack::new(3);
    let shelf_ref = rack.rent_shelf();
    let vec = vec![1, 2, 3];
    let range = rack.append_vec(&shelf_ref, vec);
    drop(shelf_ref);

    let data = rack.get_range(range);
    assert_eq!(*data, [1, 2, 3]);
}

#[test]
fn places_stay_where_they_are() {
    let mut rack: Rack<u32> = Rack::new(4);
    let shelf = rack.rent_shelf();
    let first = rack.append(&shelf, 7);
    let range = rack.append_vec(&shelf, vec![8, 9]);
    let other = rack.allocate(10);
    assert_eq!(first, Index { shelf: shelf.shelf, slot: 0 });
    assert_eq!((range.start, range.end), (first.slot + 1, first.slot + 3));
    assert_eq!(*rack.get(first), 7);
    assert_eq!(*rack.get(other), 10);
    rack.set(first, 70);
    assert_eq!(*rack.get(first), 70);
    assert_eq!(*rack.get_range(range), [8, 9]);
    assert_eq!(rack.len(), 4);
}
