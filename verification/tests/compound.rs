use life_banner::cells::Cells;
use life_banner::cells::ConfigurationError;
use life_banner::compound::Compound;
use life_banner::config::Config;
use life_banner::primes::Prime;
use life_banner::primes::PrimeType;

#[test]
fn a_new_map_holds_nothing() {
    let pattern = Compound::new(3);
    assert_eq!(3, pattern.font_size);
    assert_eq!(vec![vec![Prime::of(PrimeType::Empty); 3]; 3], pattern.pattern);
    assert_eq!(Cells::new(3, 3).unwrap(), pattern.to_cells().unwrap());
}

#[test]
fn a_map_of_side_zero_draws_no_grid() {
    let pattern = Compound::new(0);
    assert_eq!(Err(ConfigurationError::ZeroDimension), pattern.to_cells());
}

#[test]
fn set_and_remove_change_one_coordinate() {
    let mut pattern = Compound::new(4);
    pattern.set(Prime::of(PrimeType::Tub), 1, 2);
    for x in 0..4 {
        for y in 0..4 {
            let expected = if x == 1 && y == 2 { PrimeType::Tub } else { PrimeType::Empty };
            assert_eq!(expected, pattern.pattern[x][y].prime_type);
        }
    }
    pattern.set(Prime::of(PrimeType::Block), 1, 2);
    assert_eq!(Prime::of(PrimeType::Block), pattern.pattern[1][2]);
    pattern.remove(1, 2);
    assert_eq!(Compound::new(4).pattern, pattern.pattern);
}

#[test]
fn to_cells_writes_the_live_mask() {
    let mut pattern = Compound::new(10);
    pattern.set(Prime::of(PrimeType::Beacon), 2, 2);
    let mut expected = Cells::new(10, 10).unwrap();
    expected.allocate_prime(Prime::of(PrimeType::Beacon), 2, 2);
    assert_eq!(expected, pattern.to_cells().unwrap());
    assert!(pattern.to_cells().unwrap().is_alive(3, 3));
    assert!(!pattern.to_cells().unwrap().is_alive(4, 4));
}

#[test]
fn to_cells_wraps_a_pattern_over_the_edge() {
    let mut pattern = Compound::new(6);
    pattern.set(Prime::of(PrimeType::Block), 4, 4);
    let cells = pattern.to_cells().unwrap();
    let expected = Cells::from_vec(vec![
        vec![1, 0, 0, 0, 0, 1],
        vec![0, 0, 0, 0, 0, 0],
        vec![0, 0, 0, 0, 0, 0],
        vec![0, 0, 0, 0, 0, 0],
        vec![0, 0, 0, 0, 0, 0],
        vec![1, 0, 0, 0, 0, 1],
    ]);
    assert_eq!(expected, cells);
}

#[test]
fn a_later_pattern_overwrites_an_earlier_one() {
    let mut pattern = Compound::new(8);
    pattern.set(Prime::of(PrimeType::Block), 0, 0);
    pattern.set(Prime::of(PrimeType::Block), 1, 1);
    let cells = pattern.to_cells().unwrap();
    // the second block's square covers (1..5, 1..5) and kills (1, 1)
    assert!(!cells.is_alive(1, 1));
    assert!(!cells.is_alive(1, 2));
    assert!(!cells.is_alive(2, 1));
    assert!(cells.is_alive(2, 2));
    assert!(cells.is_alive(3, 3));
}

#[test]
fn a_duplicate_holds_the_same_and_is_its_own() {
    let mut pattern = Compound::new(5);
    pattern.set(Prime::of(PrimeType::Clock), 3, 1);
    let mut copy = pattern.duplicate();
    assert_eq!(pattern.font_size, copy.font_size);
    assert_eq!(pattern.pattern, copy.pattern);
    copy.remove(3, 1);
    assert_eq!(PrimeType::Clock, pattern.pattern[3][1].prime_type);
}

#[test]
fn the_defaults_are_black_on_white() {
    let config = Config::new();
    assert_eq!(4, config.cell_size);
    assert_eq!(40, config.font_size);
    assert_eq!("white", config.background_color);
    assert_eq!("black", config.cell_color);
    assert_eq!("black", config.grid_color);
    assert_eq!("black", config.mold_color);
}
