use veil::coord::Coord;
use veil::direction::{CardinalDirection, Direction, OrdinalDirection};

const ALL: [Direction; 8] = [
    Direction::North,
    Direction::NorthEast,
    Direction::East,
    Direction::SouthEast,
    Direction::South,
    Direction::SouthWest,
    Direction::West,
    Direction::NorthWest,
];

const CARDINALS: [CardinalDirection; 4] = [
    CardinalDirection::North,
    CardinalDirection::East,
    CardinalDirection::South,
    CardinalDirection::West,
];

#[test]
fn opposite_negates_the_vector() {
    for &d in ALL.iter() {
        let v = d.vector();
        assert_eq!(d.opposite().vector(), Coord::new(-v.x, -v.y));
        assert_eq!(d.opposite().opposite(), d);
    }
    assert_eq!(Direction::NorthEast.opposite(), Direction::SouthWest);
}

#[test]
fn left90_turns_anticlockwise() {
    assert_eq!(Direction::North.left90(), Direction::West);
    assert_eq!(Direction::SouthEast.left90(), Direction::NorthEast);
    for &d in ALL.iter() {
        assert_eq!(d.left90().left90().left90().left90(), d);
        assert_eq!(d.left90().left90(), d.opposite());
    }
    assert_eq!(CardinalDirection::East.left90(), CardinalDirection::North);
    assert_eq!(OrdinalDirection::NorthWest.left90(), OrdinalDirection::SouthWest);
}

#[test]
fn cardinal_and_ordinal_agree_with_direction() {
    for &c in CARDINALS.iter() {
        assert_eq!(c.direction().vector(), c.vector());
        assert_eq!(c.opposite().direction(), c.direction().opposite());
    }
    assert_eq!(OrdinalDirection::SouthWest.direction(), Direction::SouthWest);
    assert_eq!(OrdinalDirection::SouthWest.opposite(), OrdinalDirection::NorthEast);
    assert_eq!(OrdinalDirection::SouthEast.vector(), Coord::new(1, 1));
}

#[test]
fn from_cardinals_combines_perpendicular_directions() {
    let (n, e, s, w) = (
        CardinalDirection::North,
        CardinalDirection::East,
        CardinalDirection::South,
        CardinalDirection::West,
    );
    assert_eq!(OrdinalDirection::from_cardinals(n, e), Some(OrdinalDirection::NorthEast));
    assert_eq!(OrdinalDirection::from_cardinals(e, n), Some(OrdinalDirection::NorthEast));
    assert_eq!(OrdinalDirection::from_cardinals(s, w), Some(OrdinalDirection::SouthWest));
    assert_eq!(OrdinalDirection::from_cardinals(w, n), Some(OrdinalDirection::NorthWest));
    assert_eq!(OrdinalDirection::from_cardinals(n, n), None);
    assert_eq!(OrdinalDirection::from_cardinals(e, w), None);
    for &a in CARDINALS.iter() {
        for &b in CARDINALS.iter() {
            if let Some(o) = OrdinalDirection::from_cardinals(a, b) {
                let (va, vb) = (a.vector(), b.vector());
                assert_eq!(o.vector(), Coord::new(va.x + vb.x, va.y + vb.y));
            }
        }
    }
}
