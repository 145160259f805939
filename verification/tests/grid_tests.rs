use wave_collapse::direction::Direction;
use wave_collapse::error::WfcError;
use wave_collapse::grid::Grid;
use wave_collapse::prototype::Prototype;
use wave_collapse::render::max_dimensions;

fn entries(n: bool, e: bool, s: bool, w: bool) -> Vec<(Direction, bool)> {
    vec![
        (Direction::North, n),
        (Direction::East, e),
        (Direction::South, s),
        (Direction::West, w),
    ]
}

fn no_way() -> Vec<(Direction, bool)> {
    entries(false, false, false, false)
}

fn one_way() -> Vec<(Direction, bool)> {
    entries(true, false, false, false)
}

fn cell_sizes(g: &Grid) -> Vec<usize> {
    let mut sizes = Vec::new();
    for x in 0..g.get_width() {
        for y in 0..g.get_height() {
            sizes.push(g.candidates_at(x, y).len());
        }
    }
    sizes
}

#[test]
fn single_prototype_grid_is_collapsed_at_once() {
    let catalogue = vec![no_way()];
    let g = Grid::generate_grid(2, 1, &catalogue).unwrap();
    assert_eq!(g.prototype_count(), 1);
    assert_eq!(*g.candidates_at(0, 0), vec![0]);
    assert_eq!(*g.candidates_at(1, 0), vec![0]);
    assert!(g.is_collapsed());
}

#[test]
fn construction_seeds_every_cell_with_every_prototype() {
    let catalogue = vec![no_way(), one_way()];
    let g = Grid::generate_grid(2, 2, &catalogue).unwrap();
    assert_eq!(g.get_width(), 2);
    assert_eq!(g.get_height(), 2);
    assert_eq!(g.prototype_count(), 5);
    for x in 0..2 {
        for y in 0..2 {
            assert_eq!(*g.candidates_at(x, y), vec![0, 1, 2, 3, 4]);
        }
    }
    assert!(!g.is_collapsed());
}

#[test]
fn construction_rejects_incomplete_catalogue_entry() {
    let catalogue = vec![no_way(), vec![(Direction::North, true)]];
    assert!(matches!(
        Grid::generate_grid(2, 2, &catalogue),
        Err(WfcError::ConfigurationError)
    ));
}

#[test]
fn propagation_prunes_neighbors_of_a_collapsed_cell() {
    // prototypes: 0 = all closed; 1..=4 = single edge open toward
    // north, east, south, west in that order
    let catalogue = vec![no_way(), one_way()];
    let mut g = Grid::generate_grid(2, 2, &catalogue).unwrap();
    g.collapse_at_choice(0, 0, 1);
    assert_eq!(*g.candidates_at(0, 0), vec![1]);
    let collapsed = g.propagate(0, 0).unwrap();
    assert_eq!(collapsed, vec![(0, 0)]);
    // the south neighbor keeps exactly the prototypes whose north edge is
    // closed, like the chosen tile's south edge
    assert_eq!(*g.candidates_at(0, 1), vec![0, 2, 3, 4]);
    // the east neighbor keeps the prototypes whose west edge is closed
    assert_eq!(*g.candidates_at(1, 0), vec![0, 1, 2, 3]);
    // the far corner is constrained by neither
    assert_eq!(*g.candidates_at(1, 1), vec![0, 1, 2, 3, 4]);
}

#[test]
fn min_entropy_selects_most_constrained_cells() {
    let catalogue = vec![no_way(), one_way()];
    let mut g = Grid::generate_grid(2, 2, &catalogue).unwrap();
    g.collapse_at_choice(0, 0, 1);
    g.propagate(0, 0).unwrap();
    let cands = g.min_entropy_candidates();
    assert_eq!(cands, vec![(0, 1), (1, 0)]);
    let (x, y) = g.get_min_entropy_coords();
    assert_eq!(g.candidates_at(x, y).len(), 4);
}

#[test]
fn collapse_at_keeps_one_previous_candidate() {
    let catalogue = vec![no_way(), one_way()];
    let mut g = Grid::generate_grid(3, 3, &catalogue).unwrap();
    g.collapse_at(1, 1);
    let cell = g.candidates_at(1, 1);
    assert_eq!(cell.len(), 1);
    assert!(cell[0] < 5);
    // no other cell was touched
    for x in 0..3 {
        for y in 0..3 {
            if (x, y) != (1, 1) {
                assert_eq!(g.candidates_at(x, y).len(), 5);
            }
        }
    }
}

#[test]
fn candidate_sets_never_grow_across_iterations() {
    let catalogue = vec![no_way(), one_way()];
    let mut g = Grid::generate_grid(3, 1, &catalogue).unwrap();
    let mut sizes = cell_sizes(&g);
    let mut steps = 0;
    while !g.is_collapsed() {
        g.iterate().unwrap();
        let next = cell_sizes(&g);
        for k in 0..sizes.len() {
            assert!(next[k] <= sizes[k]);
            assert!(next[k] >= 1);
        }
        sizes = next;
        steps += 1;
        assert!(steps <= 3);
    }
}

#[test]
fn iteration_collapses_the_grid_within_bounds() {
    let catalogue = vec![no_way(), one_way()];
    let mut g = Grid::generate_grid(4, 1, &catalogue).unwrap();
    let mut steps = 0;
    while !g.is_collapsed() {
        let newly = g.iterate().unwrap();
        assert!(!newly.is_empty());
        for (x, y) in newly {
            assert_eq!(g.candidates_at(x, y).len(), 1);
        }
        steps += 1;
        assert!(steps <= 4);
    }
    for x in 0..4 {
        let c = g.candidates_at(x, 0);
        assert_eq!(c.len(), 1);
    }
}

#[test]
fn contradiction_is_reported() {
    // a hand-built state: the left cell is already resolved to the
    // east-open tile, the right cell offers no west-open candidate
    let protos: Vec<Prototype> = Prototype::new(0, &one_way()).unwrap();
    let mut g = Grid {
        width: 2,
        height: 1,
        prototypes: protos,
        cells: vec![vec![1], vec![0, 2]],
    };
    assert_eq!(
        g.propagate(0, 0),
        Err(WfcError::PropagationContradiction)
    );
    assert!(g.candidates_at(1, 0).is_empty());
}

#[test]
fn max_dimensions_covers_catalogue_and_placeholder() {
    let dims: Vec<(u32, u32)> = vec![(16, 8), (4, 32), (10, 10)];
    assert_eq!(max_dimensions(&dims, (1, 1)), (16, 32));
    assert_eq!(max_dimensions(&dims, (64, 2)), (64, 32));
    let none: Vec<(u32, u32)> = Vec::new();
    assert_eq!(max_dimensions(&none, (5, 6)), (5, 6));
}
