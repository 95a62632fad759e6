use territorial::builder::tile_build_system;
use territorial::dijkstra::{Pathfind, Vertex};
use territorial::map::{map_setup, GridError, Tile, TileMap, TileType};

fn floor_everything(map: &mut TileMap) {
    for y in 0..map.height {
        for x in 0..map.width {
            let _ = map.set_floor(x, y);
        }
    }
}

fn is_adjacent(a: (usize, usize), b: (usize, usize)) -> bool {
    let dx = if a.0 > b.0 { a.0 - b.0 } else { b.0 - a.0 };
    let dy = if a.1 > b.1 { a.1 - b.1 } else { b.1 - a.1 };
    dx + dy == 1
}

fn assert_valid_walk(map: &TileMap, start: Tile, end: Tile, path: &[Tile]) {
    assert!(!path.is_empty());
    assert_eq!(*path.last().unwrap(), end);
    let mut prev = (start.x, start.y);
    for t in path {
        assert!(is_adjacent(prev, (t.x, t.y)));
        assert_ne!(t.tile_type, TileType::Empty);
        assert_eq!(map.get_tile_at(t.x, t.y), *t);
        prev = (t.x, t.y);
    }
}

#[test]
fn setup_builds_five_by_five_with_start_and_end() {
    let map = map_setup();
    assert_eq!(map.width, 5);
    assert_eq!(map.height, 5);
    assert_eq!(map.start, (0, 0));
    assert_eq!(map.end, (4, 4));
    assert_eq!(map.classify(0, 0), Ok(TileType::Start));
    assert_eq!(map.classify(4, 4), Ok(TileType::End));
    assert_eq!(map.classify(2, 3), Ok(TileType::Empty));
    assert_eq!(map.get_tile_at(2, 3).id, 17);
    assert_eq!(map.get_tile_at(2, 3).get_id(), 17);
}

#[test]
fn classify_rejects_out_of_bounds() {
    let map = map_setup();
    assert_eq!(map.classify(5, 0), Err(GridError::OutOfBounds));
    assert_eq!(map.classify(0, 5), Err(GridError::OutOfBounds));
}

#[test]
fn set_floor_round_trip() {
    let mut map = map_setup();
    assert_eq!(map.set_floor(1, 2), Ok(true));
    assert_eq!(map.classify(1, 2), Ok(TileType::Floor));
    assert_eq!(map.set_floor(1, 2), Ok(false));
    assert_eq!(map.classify(1, 2), Ok(TileType::Floor));
    assert_eq!(map.get_tile_at(1, 2).id, 11);
}

#[test]
fn set_floor_leaves_start_end_and_rejects_out_of_bounds() {
    let mut map = map_setup();
    assert_eq!(map.set_floor(0, 0), Ok(false));
    assert_eq!(map.classify(0, 0), Ok(TileType::Start));
    assert_eq!(map.set_floor(4, 4), Ok(false));
    assert_eq!(map.classify(4, 4), Ok(TileType::End));
    assert_eq!(map.set_floor(7, 1), Err(GridError::OutOfBounds));
}

#[test]
fn full_floor_path_is_manhattan_optimal() {
    let mut map = map_setup();
    floor_everything(&mut map);
    let start = map.get_tile_at(0, 0);
    let end = map.get_tile_at(4, 4);
    let path = map.find_path(start, end).expect("a path exists");
    assert_eq!(path.len(), 8);
    let mut sum = 0;
    for t in &path {
        assert_eq!(t.x + t.y, sum + 1);
        sum += 1;
    }
    assert_valid_walk(&map, start, end, &path);
}

#[test]
fn connected_corridor_gives_valid_walk() {
    let mut map = TileMap::new(4, 3, (0, 0), (3, 2));
    // an L-shaped corridor: along the bottom row, then up the right column
    for (x, y) in [(1, 0), (2, 0), (3, 0), (3, 1)] {
        assert_eq!(map.set_floor(x, y), Ok(true));
    }
    assert!(map.has_path());
    let start = map.get_tile_at(0, 0);
    let end = map.get_tile_at(3, 2);
    let path = map.find_path(start, end).expect("corridor connects");
    let coords: Vec<(usize, usize)> = path.iter().map(|t| (t.x, t.y)).collect();
    assert_eq!(coords, vec![(1, 0), (2, 0), (3, 0), (3, 1), (3, 2)]);
    assert_valid_walk(&map, start, end, &path);
}

#[test]
fn start_not_at_tile_zero_still_routes() {
    let mut map = TileMap::new(3, 3, (2, 2), (0, 0));
    assert_eq!(map.set_floor(1, 2), Ok(true));
    assert_eq!(map.set_floor(1, 1), Ok(true));
    assert_eq!(map.set_floor(0, 1), Ok(true));
    let start = map.get_tile_at(2, 2);
    let end = map.get_tile_at(0, 0);
    let path = map.find_path(start, end).expect("path exists");
    assert_eq!(path.len(), 4);
    assert_valid_walk(&map, start, end, &path);
}

#[test]
fn disconnected_grid_has_no_path() {
    let mut map = map_setup();
    assert!(!map.has_path());
    let start = map.get_tile_at(0, 0);
    let end = map.get_tile_at(4, 4);
    assert_eq!(map.find_path(start, end), None);
    // floor everywhere but a wall across the middle column
    for y in 0..5 {
        for x in 0..5 {
            if x != 2 {
                let _ = map.set_floor(x, y);
            }
        }
    }
    assert!(!map.has_path());
    assert_eq!(map.find_path(start, end), None);
    assert_eq!(map.set_floor(2, 4), Ok(true));
    assert!(map.has_path());
}

#[test]
fn same_start_and_end_gives_none() {
    let mut map = map_setup();
    floor_everything(&mut map);
    let t = map.get_tile_at(2, 2);
    assert_eq!(map.find_path(t, t), None);
}

#[test]
fn neighbours_are_traversable_and_adjacent() {
    let mut map = map_setup();
    assert_eq!(map.set_floor(1, 0), Ok(true));
    let corner = map.get_tile_at(0, 0);
    let n = map.get_neighbours(&corner);
    assert_eq!(n, vec![map.get_tile_at(1, 0)]);
    floor_everything(&mut map);
    let mid = map.get_tile_at(2, 2);
    let n = map.get_neighbours(&mid);
    let coords: Vec<(usize, usize)> = n.iter().map(|t| (t.x, t.y)).collect();
    assert_eq!(coords, vec![(1, 2), (2, 1), (3, 2), (2, 3)]);
}

#[test]
fn all_verticies_are_the_non_empty_tiles() {
    let mut map = map_setup();
    assert_eq!(map.get_all_verticies().len(), 2);
    assert_eq!(map.set_floor(3, 1), Ok(true));
    let v = map.get_all_verticies();
    assert_eq!(v.len(), 3);
    assert!(v.contains(&map.get_tile_at(3, 1)));
    floor_everything(&mut map);
    assert_eq!(map.get_all_verticies().len(), 25);
}

#[test]
fn build_system_floors_empty_tile_only() {
    let mut map = map_setup();
    assert_eq!(tile_build_system(&mut map, 2, 1, false), None);
    assert_eq!(map.classify(2, 1), Ok(TileType::Empty));
    assert_eq!(tile_build_system(&mut map, 2, 1, true), Some((2, 1)));
    assert_eq!(map.classify(2, 1), Ok(TileType::Floor));
    assert_eq!(tile_build_system(&mut map, 2, 1, true), None);
    assert_eq!(tile_build_system(&mut map, 0, 0, true), None);
    assert_eq!(tile_build_system(&mut map, -1, 2, true), None);
    assert_eq!(tile_build_system(&mut map, 2, 5, true), None);
    assert_eq!(map.classify(0, 0), Ok(TileType::Start));
}

#[test]
fn all_verticies_come_in_row_major_order() {
    let mut map = map_setup();
    assert_eq!(
        map.get_all_verticies(),
        vec![
            Tile { id: 0, x: 0, y: 0, tile_type: TileType::Start },
            Tile { id: 24, x: 4, y: 4, tile_type: TileType::End },
        ]
    );
    assert_eq!(map.set_floor(3, 1), Ok(true));
    assert_eq!(map.set_floor(1, 3), Ok(true));
    let ids: Vec<usize> = map.get_all_verticies().iter().map(|t| t.id).collect();
    assert_eq!(ids, vec![0, 8, 16, 24]);
}

#[test]
fn neighbours_skip_empty_and_keep_order() {
    let mut map = map_setup();
    assert_eq!(map.set_floor(2, 1), Ok(true));
    assert_eq!(map.set_floor(2, 3), Ok(true));
    let n = map.get_neighbours(&map.get_tile_at(2, 2));
    let coords: Vec<(usize, usize)> = n.iter().map(|t| (t.x, t.y)).collect();
    assert_eq!(coords, vec![(2, 1), (2, 3)]);
}
