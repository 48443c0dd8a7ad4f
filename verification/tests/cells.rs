use life_banner::cells::Cell;
use life_banner::cells::Cells;
use life_banner::cells::ConfigurationError;
use life_banner::primes::Prime;
use life_banner::primes::PrimeType;

#[test]
fn test_new() {
    let cells = Cells::new(2, 2).unwrap();

    assert_eq!(2, cells.size_x);
    assert_eq!(2, cells.size_y);
    assert_eq!(vec![vec![Cell::Dead; 2]; 2], cells.cells);
}

#[test]
fn test_from_vec() {
    let cells = Cells::from_vec(vec![vec![1, 1, 1], vec![1, 0, 0], vec![0, 0, 0]]);

    assert_eq!(3, cells.size_x);
    assert_eq!(3, cells.size_y);
    assert_eq!(
        vec![
            vec![Cell::Alive, Cell::Alive, Cell::Dead],
            vec![Cell::Alive, Cell::Dead, Cell::Dead],
            vec![Cell::Alive, Cell::Dead, Cell::Dead]
        ],
        cells.cells
    );
}

#[test]
fn test_cell_x() {
    let cells = Cells::new(10, 5).unwrap();

    assert_eq!(1, cells.cell_x(1));
    assert_eq!(2, cells.cell_x(12));
    assert_eq!(9, cells.cell_x(-1));
    assert_eq!(8, cells.cell_x(-12));
}

#[test]
fn test_cell_y() {
    let cells = Cells::new(10, 5).unwrap();

    assert_eq!(1, cells.cell_y(1));
    assert_eq!(2, cells.cell_y(7));
    assert_eq!(4, cells.cell_y(-1));
    assert_eq!(3, cells.cell_y(-7));
}

#[test]
fn test_make_alive() {
    let mut cells = Cells::new(2, 2).unwrap();
    cells.make_alive(0, 0);
    cells.make_alive(0, 1);

    let expected = Cells::from_vec(vec![vec![1, 0], vec![1, 0]]);

    assert_eq!(expected, cells);
}

#[test]
fn test_make_alive_square() {
    let mut cells = Cells::new(5, 5).unwrap();
    cells.make_alive_square(2, 3, 2);

    let expected = Cells::from_vec(vec![
        vec![0, 0, 0, 0, 0],
        vec![0, 0, 0, 0, 0],
        vec![0, 0, 0, 0, 0],
        vec![0, 0, 1, 1, 0],
        vec![0, 0, 1, 1, 0],
    ]);

    assert_eq!(expected, cells);
}

#[test]
fn test_make_dead() {
    let mut cells = Cells::from_vec(vec![vec![1, 1], vec![1, 1]]);
    cells.make_dead(1, 0);
    cells.make_dead(1, 1);

    let expected = Cells::from_vec(vec![vec![1, 0], vec![1, 0]]);

    assert_eq!(expected, cells);
}

#[test]
fn test_is_alive() {
    let cells = Cells::from_vec(vec![vec![1, 0], vec![1, 0]]);

    assert!(cells.is_alive(0, 0));
    assert!(!cells.is_alive(1, 0));
    assert!(cells.is_alive(0, 1));
    assert!(!cells.is_alive(1, 1));
}

#[test]
fn test_clear() {
    let mut cells = Cells::from_vec(vec![vec![1, 1], vec![1, 1]]);
    cells.clear();

    let expected = Cells::new(2, 2).unwrap();

    assert_eq!(expected, cells);
}

#[test]
fn test_is_allocatable() {
    let cells = Cells::from_vec(vec![
        vec![0, 0, 0, 0, 0, 0, 0, 0, 0, 0],
        vec![0, 0, 0, 0, 0, 0, 0, 0, 0, 0],
        vec![0, 0, 0, 0, 0, 0, 0, 0, 0, 0],
        vec![0, 0, 0, 0, 0, 0, 0, 0, 0, 0],
        vec![0, 0, 0, 0, 1, 1, 1, 1, 0, 0],
        vec![0, 0, 0, 0, 1, 1, 1, 1, 0, 0],
        vec![0, 0, 0, 0, 1, 1, 0, 0, 0, 0],
        vec![0, 0, 0, 0, 1, 1, 0, 0, 0, 0],
        vec![0, 0, 0, 0, 0, 0, 0, 0, 0, 0],
        vec![0, 0, 0, 0, 0, 0, 0, 0, 0, 0],
    ]);

    assert!(cells.is_allocatable(1, 2, 2));
    assert!(!cells.is_allocatable(3, 3, 2));
}

#[test]
fn test_allocate() {
    let mut cells = Cells::new(10, 10).unwrap();
    let font = Cells::from_vec(vec![vec![1, 1], vec![1, 0]]);

    cells.allocate(font, 4, 4, 2, 1);
    let expected = Cells::from_vec(vec![
        vec![0, 0, 0, 0, 0, 0, 0, 0, 0, 0],
        vec![0, 0, 0, 0, 0, 0, 0, 0, 0, 0],
        vec![0, 0, 0, 0, 0, 0, 0, 0, 0, 0],
        vec![0, 0, 0, 0, 0, 0, 0, 0, 0, 0],
        vec![0, 0, 0, 0, 1, 1, 1, 1, 0, 0],
        vec![0, 0, 0, 0, 1, 1, 1, 1, 0, 0],
        vec![0, 0, 0, 0, 1, 1, 0, 0, 0, 0],
        vec![0, 0, 0, 0, 1, 1, 0, 0, 0, 0],
        vec![0, 0, 0, 0, 0, 0, 0, 0, 0, 0],
        vec![0, 0, 0, 0, 0, 0, 0, 0, 0, 0],
    ]);

    assert_eq!(expected, cells);
}

#[test]
fn test_allocate_prime() {
    let mut cells = Cells::new(10, 10).unwrap();

    cells.allocate_prime(Prime::of(PrimeType::Beacon), 2, 2);
    let expected = Cells::from_vec(vec![
        vec![0, 0, 0, 0, 0, 0, 0, 0, 0, 0],
        vec![0, 0, 0, 0, 0, 0, 0, 0, 0, 0],
        vec![0, 0, 0, 0, 0, 0, 0, 0, 0, 0],
        vec![0, 0, 0, 1, 1, 0, 0, 0, 0, 0],
        vec![0, 0, 0, 1, 0, 0, 0, 0, 0, 0],
        vec![0, 0, 0, 0, 0, 0, 1, 0, 0, 0],
        vec![0, 0, 0, 0, 0, 1, 1, 0, 0, 0],
        vec![0, 0, 0, 0, 0, 0, 0, 0, 0, 0],
        vec![0, 0, 0, 0, 0, 0, 0, 0, 0, 0],
        vec![0, 0, 0, 0, 0, 0, 0, 0, 0, 0],
    ]);

    assert_eq!(expected, cells);
}

#[test]
fn new_rejects_a_zero_dimension() {
    assert_eq!(Err(ConfigurationError::ZeroDimension), Cells::new(0, 5));
    assert_eq!(Err(ConfigurationError::ZeroDimension), Cells::new(5, 0));
    assert_eq!(Err(ConfigurationError::ZeroDimension), Cells::new(0, 0));
    assert!(Cells::new(1, 1).is_ok());
}

#[test]
fn wrapping_is_periodic_and_in_range() {
    let cells = Cells::new(7, 3).unwrap();
    for k in -50i64..50 {
        let x = cells.cell_x(k);
        assert!(x < 7);
        assert_eq!(x, cells.cell_x(k + 7));
        assert_eq!(x, cells.cell_x(k - 7));
        let y = cells.cell_y(k);
        assert!(y < 3);
        assert_eq!(y, cells.cell_y(k + 3));
        assert_eq!(y, cells.cell_y(k - 3));
    }
    assert_eq!(0, cells.cell_x(0));
    assert_eq!(6, cells.cell_x(-1));
    assert_eq!(0, cells.cell_x(7));
}

#[test]
fn wrapping_takes_the_extremes() {
    let cells = Cells::new(10, 3).unwrap();
    assert_eq!(7, cells.cell_x(i64::MAX));
    assert_eq!(2, cells.cell_x(i64::MIN));
    assert_eq!(1, cells.cell_y(i64::MAX));
    assert_eq!(1, cells.cell_y(i64::MIN));
}

#[test]
fn arguments_past_the_edge_wrap_around() {
    let mut cells = Cells::new(4, 3).unwrap();
    cells.make_alive(5, 7);
    assert!(cells.is_alive(1, 1));
    assert!(cells.is_alive(5, 7));
    assert_eq!(Cell::Alive, cells.cells[1][1]);
    cells.make_dead(9, 4);
    assert!(!cells.is_alive(1, 1));
}

#[test]
fn the_largest_argument_names_the_cell_before_the_first() {
    let mut cells = Cells::new(4, 3).unwrap();
    cells.make_alive(usize::MAX, usize::MAX);
    if usize::BITS == 64 {
        assert_eq!(Cell::Alive, cells.cells[3][2]);
    }
    assert!(cells.is_alive(usize::MAX, usize::MAX));
}

#[test]
fn a_square_wraps_over_the_edge() {
    let mut cells = Cells::new(4, 4).unwrap();
    cells.make_alive_square(3, 3, 2);
    let expected = Cells::from_vec(vec![
        vec![1, 0, 0, 1],
        vec![0, 0, 0, 0],
        vec![0, 0, 0, 0],
        vec![1, 0, 0, 1],
    ]);
    assert_eq!(expected, cells);
    assert!(!cells.is_allocatable(2, 2, 2));
    assert!(cells.is_allocatable(1, 1, 2));
    assert!(cells.is_allocatable(0, 0, 0));
}

#[test]
fn allocate_overwrites_with_dead_cells() {
    let mut cells = Cells::from_vec(vec![vec![1, 1, 1], vec![1, 1, 1], vec![1, 1, 1]]);
    let patch = Cells::from_vec(vec![vec![0, 1], vec![0, 0]]);
    cells.allocate(patch, 0, 0, 1, 1);
    let expected = Cells::from_vec(vec![vec![0, 1, 1], vec![0, 0, 1], vec![1, 1, 1]]);
    assert_eq!(expected, cells);
}

#[test]
fn allocate_twice_changes_nothing_more() {
    let mut once = Cells::new(6, 6).unwrap();
    once.allocate(Cells::from_vec(vec![vec![1, 0], vec![1, 1]]), 1, 2, 2, 1);
    let mut twice = once.clone();
    twice.allocate(Cells::from_vec(vec![vec![1, 0], vec![1, 1]]), 1, 2, 2, 1);
    assert_eq!(once, twice);
}

#[test]
fn allocate_fills_the_scaled_rectangle() {
    let mut source = Cells::new(2, 2).unwrap();
    source.make_alive_square(0, 0, 2);
    let mut cells = Cells::new(6, 6).unwrap();
    cells.allocate(source, 0, 0, 3, 2);
    // the scale is 1.5: the image of the 2 by 2 patch is 3 by 3
    let expected = Cells::from_vec(vec![
        vec![1, 1, 1, 0, 0, 0],
        vec![1, 1, 1, 0, 0, 0],
        vec![1, 1, 1, 0, 0, 0],
        vec![0, 0, 0, 0, 0, 0],
        vec![0, 0, 0, 0, 0, 0],
        vec![0, 0, 0, 0, 0, 0],
    ]);
    assert_eq!(expected, cells);
}

#[test]
fn a_cell_of_the_image_shows_the_cell_below_the_quotient() {
    let mut cells = Cells::new(6, 6).unwrap();
    cells.allocate(Cells::from_vec(vec![vec![1, 0], vec![0, 1]]), 0, 0, 5, 2);
    // the scale is 2.5: the image is 5 by 5, the offsets 0, 1 and 2 show
    // cell 0, the offsets 3 and 4 show cell 1
    let expected = Cells::from_vec(vec![
        vec![1, 1, 1, 0, 0, 0],
        vec![1, 1, 1, 0, 0, 0],
        vec![1, 1, 1, 0, 0, 0],
        vec![0, 0, 0, 1, 1, 0],
        vec![0, 0, 0, 1, 1, 0],
        vec![0, 0, 0, 0, 0, 0],
    ]);
    assert_eq!(expected, cells);
}

#[test]
fn allocate_below_scale_one_samples_the_patch() {
    let mut cells = Cells::new(3, 3).unwrap();
    let patch = Cells::from_vec(vec![
        vec![1, 0, 0, 0],
        vec![0, 0, 0, 0],
        vec![0, 0, 1, 0],
        vec![0, 0, 0, 0],
    ]);
    cells.allocate(patch, 1, 1, 1, 2);
    // the image is 2 by 2 and shows the cells (0, 0), (2, 0), (0, 2), (2, 2)
    let expected = Cells::from_vec(vec![vec![0, 0, 0], vec![0, 1, 0], vec![0, 0, 1]]);
    assert_eq!(expected, cells);
}

#[test]
fn allocate_at_scale_zero_writes_nothing() {
    let mut cells = Cells::from_vec(vec![vec![1, 0], vec![0, 1]]);
    let before = cells.clone();
    cells.allocate(Cells::from_vec(vec![vec![1, 1], vec![1, 1]]), 0, 0, 0, 1);
    assert_eq!(before, cells);
    cells.allocate(Cells::from_vec(vec![vec![0, 0], vec![0, 0]]), 0, 0, 1, 3);
    assert_eq!(before, cells);
}

#[test]
fn a_later_cell_of_a_wrapping_patch_wins() {
    let mut cells = Cells::new(2, 1).unwrap();
    cells.allocate(Cells::from_vec(vec![vec![1, 0, 0], vec![0, 0, 0], vec![0, 0, 0]]), 0, 0, 1, 1);
    // column 0 is written by the offsets 0 and 2, and the later one is dead
    assert!(!cells.is_alive(0, 0));
    assert!(!cells.is_alive(1, 0));
}

#[test]
fn from_vec_exchanges_the_axes() {
    let cells = Cells::from_vec(vec![vec![0, 1], vec![0, 0]]);
    assert!(cells.is_alive(1, 0));
    assert!(!cells.is_alive(0, 1));
}

#[test]
fn from_vec_takes_the_longest_row_as_height() {
    let cells = Cells::from_vec(vec![vec![1], vec![0, 0], vec![0]]);
    assert_eq!(3, cells.size_x);
    assert_eq!(2, cells.size_y);
    assert_eq!(Cell::Alive, cells.cells[0][0]);
}
