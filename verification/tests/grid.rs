use gridist::distance::Distance;
use gridist::grid::{Belief, Grid, Measure, Point, Terrain, Tile};
use std::f64::consts::SQRT_2;

fn as_float(d: Distance) -> f64 {
    d.straight() as f64 + d.diagonal() as f64 * SQRT_2
}

#[test]
fn octile_heuristic_distance() {
    let p0 = Point::new(0, 0);
    let p1 = Point::new(0, 1);
    let p2 = Point::new(1, 1);
    let p3 = Point::new(5, 5);

    assert_eq!(as_float(Distance::octile_heuristic(&p0, &p1)), 1.0);
    assert_eq!(as_float(Distance::octile_heuristic(&p0, &p2)), SQRT_2);
    assert_eq!(as_float(Distance::octile_heuristic(&p1, &p3)), 1.0 + 4.0 * SQRT_2);
}

#[test]
fn euclidean_heuristic_distance() {
    let p0 = Point::new(0, 0);
    let p1 = Point::new(0, 1);
    let p2 = Point::new(1, 1);
    let p3 = Point::new(5, 5);

    assert_eq!(as_float(Distance::euclidean_heuristic(&p0, &p1)), 1.0);
    assert_eq!(as_float(Distance::euclidean_heuristic(&p0, &p2)), SQRT_2);
    assert_eq!(as_float(Distance::euclidean_heuristic(&p2, &p3)), 4.0 * SQRT_2);
}

#[test]
fn neighbors() {
    let corner = Point::new(0, 0);
    let corner_neighbors = [
        None,
        None,
        None,
        None,
        Some(Point::new(0, 1)),
        None,
        Some(Point::new(1, 0)),
        Some(Point::new(1, 1)),
    ];
    assert_eq!(corner.neighbors(), corner_neighbors);

    let top = Point::new(0, 10);
    let top_neighbors = [
        None,
        None,
        None,
        Some(Point::new(0, 9)),
        Some(Point::new(0, 11)),
        Some(Point::new(1, 9)),
        Some(Point::new(1, 10)),
        Some(Point::new(1, 11)),
    ];
    assert_eq!(top.neighbors(), top_neighbors);

    let left = Point::new(10, 0);
    let left_neighbors = [
        None,
        Some(Point::new(9, 0)),
        Some(Point::new(9, 1)),
        None,
        Some(Point::new(10, 1)),
        None,
        Some(Point::new(11, 0)),
        Some(Point::new(11, 1)),
    ];
    assert_eq!(left.neighbors(), left_neighbors);

    let inner = Point::new(10, 10);
    let inner_neighbors = [
        Some(Point::new(9, 9)),
        Some(Point::new(9, 10)),
        Some(Point::new(9, 11)),
        Some(Point::new(10, 9)),
        Some(Point::new(10, 11)),
        Some(Point::new(11, 9)),
        Some(Point::new(11, 10)),
        Some(Point::new(11, 11)),
    ];
    assert_eq!(inner.neighbors(), inner_neighbors);
}

fn small_grid() -> Grid {
    // . T .
    // . . W
    let rows = vec![
        vec![Tile::new(Terrain::Ground), Tile::new(Terrain::Trees), Tile::new(Terrain::Ground)],
        vec![Tile::new(Terrain::Ground), Tile::new(Terrain::Ground), Tile::new(Terrain::Water)],
    ];
    Grid::new(rows)
}

fn beliefs(grid: &Grid) -> Vec<Vec<Belief>> {
    let mut all = Vec::new();
    for y in 0..grid.height() {
        let mut row = Vec::new();
        for x in 0..grid.width() {
            row.push(*grid.get(&Point::new(y, x)).unwrap().belief());
        }
        all.push(row);
    }
    all
}

#[test]
fn get_misses_outside_the_grid() {
    let grid = small_grid();
    assert_eq!(grid.height(), 2);
    assert_eq!(grid.width(), 3);
    assert!(grid.get(&Point::new(1, 2)).is_some());
    assert!(grid.get(&Point::new(2, 0)).is_none());
    assert!(grid.get(&Point::new(0, 3)).is_none());
    assert!(grid.get(&Point::new(usize::MAX, usize::MAX)).is_none());
}

#[test]
fn look_reveals_the_neighbourhood_only() {
    let mut grid = small_grid();
    grid.look(&Point::new(0, 0));
    assert_eq!(
        beliefs(&grid),
        vec![
            vec![Belief::Passable, Belief::Impassable, Belief::Unknown],
            vec![Belief::Passable, Belief::Passable, Belief::Unknown],
        ]
    );
}

#[test]
fn look_twice_changes_nothing() {
    let mut grid = small_grid();
    grid.look(&Point::new(1, 1));
    let once = beliefs(&grid);
    grid.look(&Point::new(1, 1));
    assert_eq!(beliefs(&grid), once);
    assert_eq!(
        once,
        vec![
            vec![Belief::Passable, Belief::Impassable, Belief::Passable],
            vec![Belief::Passable, Belief::Passable, Belief::Impassable],
        ]
    );
}

#[test]
fn look_at_the_far_corner_of_the_plane() {
    let mut grid = small_grid();
    grid.look(&Point::new(usize::MAX, usize::MAX));
    assert_eq!(beliefs(&grid), vec![vec![Belief::Unknown; 3], vec![Belief::Unknown; 3]]);
}

#[test]
fn forget_then_look_restores_beliefs() {
    let mut grid = small_grid();
    grid.look(&Point::new(0, 1));
    let seen = beliefs(&grid);
    grid.forget();
    assert_eq!(beliefs(&grid), vec![vec![Belief::Unknown; 3], vec![Belief::Unknown; 3]]);
    grid.look(&Point::new(0, 1));
    assert_eq!(beliefs(&grid), seen);
}

#[test]
fn forget_keeps_terrain() {
    let mut grid = small_grid();
    grid.look(&Point::new(0, 1));
    grid.forget();
    assert!(grid.get(&Point::new(0, 0)).unwrap().passable());
    assert!(!grid.get(&Point::new(0, 1)).unwrap().passable());
    assert!(!grid.get(&Point::new(1, 2)).unwrap().passable());
}

#[test]
fn episodes_count_up() {
    let mut grid = small_grid();
    assert_eq!(grid.next_episode(), 1);
    assert_eq!(grid.next_episode(), 2);
    assert_eq!(grid.episodes_left(), usize::MAX - 2);
    assert!(!grid.exhausted());
}

#[test]
fn has_path_takes_a_search_number_every_time() {
    let mut grid = small_grid();
    let source = Point::new(0, 0);
    grid.has_path(&source, &Point::new(0, 2));
    assert_eq!(grid.episodes_left(), usize::MAX - 1);
    grid.has_path(&source, &Point::new(1, 2));
    assert_eq!(grid.episodes_left(), usize::MAX - 2);
    // outside the grid
    assert!(!grid.has_path(&source, &Point::new(7, 7)));
    assert_eq!(grid.episodes_left(), usize::MAX - 3);
    // as far out as can be
    assert!(!grid.has_path(&source, &Point::new(usize::MAX, 0)));
    assert_eq!(grid.episodes_left(), usize::MAX - 4);
    assert!(!grid.has_path(&source, &Point::new(1, usize::MAX)));
    assert_eq!(grid.episodes_left(), usize::MAX - 5);
    assert!(grid.has_path(&source, &source));
    assert_eq!(grid.next_episode(), 7);
}

#[test]
fn has_path_goes_by_terrain() {
    let mut grid = small_grid();
    assert!(grid.has_path(&Point::new(0, 0), &Point::new(0, 2)));
    assert!(!grid.has_path(&Point::new(0, 0), &Point::new(1, 2)));
    assert!(!grid.has_path(&Point::new(0, 0), &Point::new(5, 5)));
    assert!(grid.has_path(&Point::new(1, 1), &Point::new(1, 1)));
    // belief plays no part
    assert_eq!(beliefs(&grid), vec![vec![Belief::Unknown; 3], vec![Belief::Unknown; 3]]);
}

#[test]
fn tile_marks() {
    let mut tile = Tile::new(Terrain::Swamp);
    assert!(!tile.passable());
    assert!(tile.freespace());
    assert_eq!(*tile.belief(), Belief::Unknown);
    assert!(tile.visited(0));
    tile.look();
    assert_eq!(*tile.belief(), Belief::Impassable);
    assert!(!tile.freespace());
    tile.visit(Point::new(3, 4), Distance::new(2, 1), Distance::new(0, 3), 7);
    assert!(tile.visited(7));
    assert_eq!(tile.parent(), Some(Point::new(3, 4)));
    assert_eq!(tile.g(), Distance::new(2, 1));
    assert_eq!(tile.f(), Distance::new(2, 4));
    tile.visit_initial(Distance::new(1, 1), 8);
    assert_eq!(tile.parent(), None);
    assert_eq!(tile.g(), Distance::zero());
    assert_eq!(tile.f(), Distance::new(1, 1));
    tile.forget();
    assert_eq!(*tile.belief(), Belief::Unknown);
    assert_eq!(tile.symbol(), 'S');
}

#[test]
fn symbols() {
    assert_eq!(Terrain::Ground.symbol(), '.');
    assert_eq!(Terrain::OutOfBounds.symbol(), '@');
    assert_eq!(Terrain::Trees.symbol(), 'T');
    assert_eq!(Terrain::Water.symbol(), 'W');
    assert_eq!(Belief::Unknown.symbol(), '?');
    assert_eq!(Belief::Passable.symbol(), '.');
    assert_eq!(Belief::Impassable.symbol(), 'X');
}

#[test]
fn euclidean_rounds_down_to_steps_of_one_kind() {
    let origin = Point::new(0, 0);
    // 3-4-5
    assert_eq!(Distance::euclidean_heuristic(&origin, &Point::new(3, 4)), Distance::new(5, 0));
    // sqrt(5) = 2.23..: 2 beats sqrt(2)
    assert_eq!(Distance::euclidean_heuristic(&origin, &Point::new(1, 2)), Distance::new(2, 0));
    // sqrt(50) = 5 sqrt(2)
    assert_eq!(Distance::euclidean_heuristic(&origin, &Point::new(1, 7)), Distance::new(0, 5));
    // sqrt(10) = 3.16..: 3 beats 2 sqrt(2) = 2.82..
    assert_eq!(Distance::euclidean_heuristic(&Point::new(4, 4), &Point::new(1, 3)), Distance::new(3, 0));
    // sqrt(18) = 3 sqrt(2) = 4.24..
    assert_eq!(Distance::euclidean_heuristic(&Point::new(3, 0), &Point::new(0, 3)), Distance::new(0, 3));
    assert_eq!(Distance::euclidean_heuristic(&origin, &origin), Distance::zero());
}

#[test]
fn octile_and_euclidean_agree_on_single_steps() {
    for y in 1..4usize {
        for x in 1..4usize {
            let p = Point::new(y, x);
            for n in p.neighbors().iter() {
                let q = n.unwrap();
                assert_eq!(Distance::octile_heuristic(&p, &q), Distance::euclidean_heuristic(&p, &q));
            }
            assert_eq!(Distance::octile_heuristic(&p, &Point::new(y, x + 1)), Distance::new(1, 0));
            assert_eq!(Distance::euclidean_heuristic(&p, &Point::new(y + 1, x + 1)), Distance::new(0, 1));
        }
    }
}

#[test]
fn new_grid_numbers_searches_from_the_largest_mark() {
    let mut marked = Tile::new(Terrain::Ground);
    marked.visit_initial(Distance::zero(), 41);
    let mut grid = Grid::new(vec![vec![Tile::new(Terrain::Ground), marked]]);
    assert_eq!(grid.next_episode(), 42);
    assert!(grid.can_be_searched());
    let mut plain = small_grid();
    assert_eq!(plain.next_episode(), 1);
}

#[test]
fn rows_come_in_order() {
    let grid = small_grid();
    let symbols: Vec<String> =
        grid.iter().map(|row| row.iter().map(|tile| tile.symbol()).collect()).collect();
    assert_eq!(symbols, vec![".T.".to_string(), "..W".to_string()]);
}

#[test]
fn ragged_grid() {
    let rows = vec![
        vec![Tile::new(Terrain::Ground)],
        vec![Tile::new(Terrain::Ground), Tile::new(Terrain::Ground), Tile::new(Terrain::Ground)],
        vec![],
    ];
    let mut grid = Grid::new(rows);
    assert_eq!((grid.height(), grid.width()), (3, 1));
    assert!(grid.get(&Point::new(1, 2)).is_some());
    assert!(grid.get(&Point::new(0, 1)).is_none());
    assert!(grid.get(&Point::new(2, 0)).is_none());
    assert!(grid.has_path(&Point::new(0, 0), &Point::new(1, 2)));
    grid.look(&Point::new(1, 1));
    assert_eq!(*grid.get(&Point::new(0, 0)).unwrap().belief(), Belief::Passable);
    assert_eq!(*grid.get(&Point::new(1, 2)).unwrap().belief(), Belief::Passable);
}
