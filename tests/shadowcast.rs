use veil::coord::Coord;
use veil::knowledge::{KnowledgeGrid, ObservationMetadata};
use veil::shadowcast::{observe, visible_cells, RoundType, ShadowcastEnv, Sighting, VISIBILITY_MAX};
use veil::static_grid::StaticGrid;

fn world_with(width: usize, height: usize, cells: &[(usize, usize, u32)]) -> StaticGrid<u32> {
    let mut world = StaticGrid::new_copy(width, height, 0u32);
    for &(x, y, opacity) in cells {
        *world.get_mut((x, y)).unwrap() = opacity;
    }
    world
}

fn sightings(eye: (i32, i32), world: &StaticGrid<u32>, distance: u32) -> Vec<Sighting> {
    let mut env = ShadowcastEnv::new();
    visible_cells(&mut env, Coord::new(eye.0, eye.1), world, distance)
}

fn visibilities_at(seen: &[Sighting], x: i32, y: i32) -> Vec<u32> {
    seen.iter()
        .filter(|s| s.coord == Coord::new(x, y))
        .map(|s| s.visibility)
        .collect()
}

fn seen_set(seen: &[Sighting]) -> Vec<(i32, i32)> {
    let mut v: Vec<(i32, i32)> = seen.iter().map(|s| (s.coord.x, s.coord.y)).collect();
    v.sort();
    v.dedup();
    v
}

#[test]
fn transparent_grid_reports_every_cell_in_range_at_full_visibility() {
    let world = world_with(9, 9, &[]);
    let seen = sightings((4, 4), &world, 3);
    for s in &seen {
        assert_eq!(s.visibility, VISIBILITY_MAX);
    }
    let mut expected = Vec::new();
    for x in 0..9i32 {
        for y in 0..9i32 {
            let d2 = (x - 4) * (x - 4) + (y - 4) * (y - 4);
            if d2 <= 9 {
                expected.push((x, y));
            }
        }
    }
    expected.sort();
    assert_eq!(seen_set(&seen), expected);
}

#[test]
fn transparent_grid_near_a_corner() {
    let world = world_with(4, 3, &[]);
    let seen = sightings((0, 0), &world, 5);
    let mut expected = Vec::new();
    for x in 0..4i32 {
        for y in 0..3i32 {
            if x * x + y * y <= 25 {
                expected.push((x, y));
            }
        }
    }
    expected.sort();
    assert_eq!(seen_set(&seen), expected);
}

#[test]
fn opaque_neighbour_hides_the_ray_behind_it() {
    let world = world_with(9, 9, &[(5, 4, VISIBILITY_MAX)]);
    let seen = sightings((4, 4), &world, 5);
    // The cell lies on the boundary of two octants, and each reports it.
    assert_eq!(visibilities_at(&seen, 5, 4), vec![0, 0]);
    for x in 6..9 {
        assert!(visibilities_at(&seen, x, 4).is_empty());
    }
}

#[test]
fn opaque_neighbour_hides_the_ray_in_every_direction() {
    for &(nx, ny, dx, dy) in &[(4, 3, 0, -1), (3, 4, -1, 0), (4, 5, 0, 1), (5, 4, 1, 0)] {
        let world = world_with(9, 9, &[(nx as usize, ny as usize, VISIBILITY_MAX), (6, 2, 300)]);
        let seen = sightings((4, 4), &world, 6);
        assert!(!visibilities_at(&seen, nx, ny).is_empty());
        for t in 2..5 {
            assert!(visibilities_at(&seen, 4 + t * dx, 4 + t * dy).is_empty());
        }
    }
}

#[test]
fn opaque_diagonal_neighbour_hides_the_diagonal() {
    for &(dx, dy) in &[(1, 1), (1, -1), (-1, 1), (-1, -1)] {
        let world = world_with(9, 9, &[((4 + dx) as usize, (4 + dy) as usize, VISIBILITY_MAX)]);
        let seen = sightings((4, 4), &world, 6);
        assert!(!visibilities_at(&seen, 4 + dx, 4 + dy).is_empty());
        for t in 2..5 {
            assert!(visibilities_at(&seen, 4 + t * dx, 4 + t * dy).is_empty());
        }
    }
}

#[test]
fn opaque_cell_below_the_eye_casts_a_shadow() {
    let world = world_with(5, 5, &[(2, 3, VISIBILITY_MAX)]);
    let seen = sightings((2, 2), &world, 3);
    let at = visibilities_at(&seen, 2, 3);
    assert!(!at.is_empty());
    assert!(at.iter().all(|&v| v == 0));
    assert!(visibilities_at(&seen, 2, 4).is_empty());
    for &(x, y) in &[(1, 3), (3, 3), (1, 2), (3, 2), (2, 1)] {
        let at = visibilities_at(&seen, x, y);
        assert!(!at.is_empty());
        assert!(at.iter().all(|&v| v == VISIBILITY_MAX));
    }
}

#[test]
fn partial_opacity_is_applied_once_along_the_ray() {
    let world = world_with(5, 5, &[(1, 0, 400)]);
    let seen = sightings((0, 0), &world, 2);
    assert_eq!(visibilities_at(&seen, 1, 0), vec![600, 600]);
    // (2, 0) lies exactly at the view distance.
    assert_eq!(visibilities_at(&seen, 2, 0), vec![600, 600]);
    // (2, 1) lies beyond it.
    assert!(visibilities_at(&seen, 2, 1).is_empty());
}

#[test]
fn distance_cutoff_is_euclidean() {
    let world = world_with(9, 9, &[]);
    let seen = sightings((0, 0), &world, 3);
    // (3, 0) lies exactly at the view distance and is reported.
    assert!(!visibilities_at(&seen, 3, 0).is_empty());
    assert!(!visibilities_at(&seen, 2, 2).is_empty());
    // Row 3 is within the scan window, but (3, 1) lies at squared distance 10.
    assert!(visibilities_at(&seen, 3, 1).is_empty());
    assert!(visibilities_at(&seen, 3, 3).is_empty());
    for s in &seen {
        let d2 = s.coord.x * s.coord.x + s.coord.y * s.coord.y;
        assert!(d2 <= 9);
    }
}

#[test]
fn split_wedges_stay_inside_their_parent() {
    // Partially opaque cells near the diagonal split wedges close to their
    // upper edge; the scan still ends with every wedge ordered.
    let world = world_with(6, 6, &[(4, 3, 500), (3, 1, 500)]);
    let seen = sightings((0, 0), &world, 7);
    assert_eq!(visibilities_at(&seen, 3, 1), vec![500]);
    assert!(!visibilities_at(&seen, 4, 3).is_empty());
    assert!(!visibilities_at(&seen, 1, 1).is_empty());
    for s in &seen {
        assert!(s.visibility <= VISIBILITY_MAX);
        assert!(s.coord.x * s.coord.x + s.coord.y * s.coord.y <= 49);
    }
}

#[test]
fn eye_cell_is_reported_first_even_at_distance_zero() {
    let world = world_with(3, 3, &[(1, 1, 300)]);
    let seen = sightings((1, 1), &world, 0);
    assert_eq!(seen, vec![Sighting { coord: Coord::new(1, 1), opacity: 300, visibility: VISIBILITY_MAX }]);
}

#[test]
fn eye_outside_the_grid_is_not_reported() {
    let world = world_with(3, 3, &[]);
    let seen = sightings((-1, 1), &world, 3);
    assert!(visibilities_at(&seen, -1, 1).is_empty());
    assert!(!visibilities_at(&seen, 0, 1).is_empty());
}

fn rotate(n: i32, (x, y): (i32, i32)) -> (i32, i32) {
    (n - 1 - y, x)
}

#[test]
fn rotating_the_grid_rotates_what_is_seen() {
    let n: i32 = 11;
    let walls = [(6, 5, 1000u32), (3, 3, 1000), (5, 8, 500), (7, 7, 1000), (4, 6, 700), (8, 4, 1000)];
    let eye = (5, 5);
    let mut cells: Vec<(usize, usize, u32)> = walls.iter().map(|&(x, y, o)| (x as usize, y as usize, o)).collect();
    let mut current_eye = eye;
    let expected_base = seen_set(&sightings(eye, &world_with(11, 11, &cells), 6));
    let mut expected = expected_base.clone();
    for _ in 0..3 {
        cells = cells.iter().map(|&(x, y, o)| {
            let (rx, ry) = rotate(n, (x as i32, y as i32));
            (rx as usize, ry as usize, o)
        }).collect();
        current_eye = rotate(n, current_eye);
        expected = expected.iter().map(|&c| rotate(n, c)).collect();
        expected.sort();
        let got = seen_set(&sightings(current_eye, &world_with(11, 11, &cells), 6));
        assert_eq!(got, expected);
    }
}

#[test]
fn observe_records_cells_and_flags() {
    let world = world_with(5, 5, &[(2, 3, VISIBILITY_MAX)]);
    let mut env = ShadowcastEnv::new();
    let mut knowledge = KnowledgeGrid::new(5, 5);
    let m = observe(&mut env, Coord::new(2, 2), &world, 3, 7, &mut knowledge);
    assert_eq!(m, ObservationMetadata { changed: true, newly_seen: true });
    assert_eq!(knowledge.time(), 7);
    let wall = knowledge.get(Coord::new(2, 3)).unwrap();
    assert!(wall.known);
    assert_eq!(wall.last_seen, 7);
    assert_eq!(wall.opacity, VISIBILITY_MAX);
    assert!(!knowledge.get(Coord::new(2, 4)).unwrap().known);

    // Nothing new at the same time.
    let m = observe(&mut env, Coord::new(2, 2), &world, 3, 7, &mut knowledge);
    assert_eq!(m, ObservationMetadata { changed: false, newly_seen: false });

    // Later, the same cells are seen anew but nothing changed.
    let m = observe(&mut env, Coord::new(2, 2), &world, 3, 8, &mut knowledge);
    assert_eq!(m, ObservationMetadata { changed: false, newly_seen: true });
}

#[test]
fn update_cell_twice_merges_like_once() {
    let mut knowledge = KnowledgeGrid::new(4, 4);
    knowledge.set_time(3);
    let first = knowledge.update_cell(Coord::new(1, 2), 250);
    assert_eq!(first, ObservationMetadata { changed: true, newly_seen: true });
    let second = knowledge.update_cell(Coord::new(1, 2), 250);
    assert_eq!(second, ObservationMetadata::empty());
    assert_eq!(first.merge(second), first);
    let outside = knowledge.update_cell(Coord::new(4, 0), 250);
    assert_eq!(outside, ObservationMetadata::empty());
}

#[test]
fn floor_rounds_down() {
    assert_eq!(RoundType::Floor.round(4, 2), 2);
    assert_eq!(RoundType::Floor.round(5, 2), 2);
    assert_eq!(RoundType::Floor.round(7, 2), 3);
    assert_eq!(RoundType::Floor.round(0, 3), 0);
    assert_eq!(RoundType::Floor.round(-1, 2), -1);
    assert_eq!(RoundType::Floor.round(-4, 2), -2);
    assert_eq!(RoundType::Floor.round(-5, 2), -3);
}

#[test]
fn exclusive_floor_steps_past_whole_numbers() {
    assert_eq!(RoundType::ExclusiveFloor.round(4, 2), 1);
    assert_eq!(RoundType::ExclusiveFloor.round(5, 2), 2);
    assert_eq!(RoundType::ExclusiveFloor.round(999, 1000), 0);
    assert_eq!(RoundType::ExclusiveFloor.round(1001, 1000), 1);
    assert_eq!(RoundType::ExclusiveFloor.round(0, 3), -1);
    assert_eq!(RoundType::ExclusiveFloor.round(-1, 2), -1);
    assert_eq!(RoundType::ExclusiveFloor.round(-4, 2), -3);
}

#[test]
fn large_distance_in_a_small_world() {
    let world = world_with(3, 3, &[(1, 1, 500)]);
    let seen = sightings((0, 0), &world, u32::MAX);
    assert_eq!(seen_set(&seen).len(), 9);
    // The diagonal lies on the boundary of two octants.
    assert_eq!(visibilities_at(&seen, 2, 2), vec![500, 500]);
}
