use life_banner::cells::Cells;
use life_banner::compound::Compound;
use life_banner::fonts::Font;
use life_banner::mold::Mold;
use life_banner::optimizer::place;
use life_banner::optimizer::prime_for;
use life_banner::optimizer::removes;
use life_banner::optimizer::seeds;
use life_banner::optimizer::sow_at;
use life_banner::optimizer::thin_at;
use life_banner::optimizer::weigh;
use life_banner::optimizer::GradientDescent;
use life_banner::optimizer::Optimizer;
use life_banner::primes::Prime;
use life_banner::primes::PrimeType;
use life_banner::randomizer::Rand;
use life_banner::randomizer::Randomizer;
use life_banner::randomizer::SourceUnavailable;
use rand::rngs::StdRng;
use rand::SeedableRng;

/// A generator whose draws are fixed by its seed.
struct Lcg {
    state: u64,
}

impl Lcg {
    fn seeded(seed: u64) -> Lcg {
        Lcg { state: seed }
    }
}

impl Randomizer for Lcg {
    fn new() -> Result<Self, SourceUnavailable> {
        Ok(Lcg::seeded(1))
    }

    fn random_number(&mut self) -> u32 {
        self.state = self.state.wrapping_mul(6364136223846793005).wrapping_add(1442695040888963407);
        (self.state >> 32) as u32
    }
}

/// A generator that always draws the same number.
struct Constant {
    draw: u32,
}

impl Randomizer for Constant {
    fn new() -> Result<Self, SourceUnavailable> {
        Ok(Constant { draw: 0 })
    }

    fn random_number(&mut self) -> u32 {
        self.draw
    }
}

fn letter() -> Font {
    Font {
        val: &[
            &[0, 0, 0, 0, 0, 0, 0, 0, 0, 0],
            &[0, 0, 0, 1, 1, 1, 1, 0, 0, 0],
            &[0, 0, 1, 1, 0, 0, 1, 1, 0, 0],
            &[0, 0, 1, 1, 0, 0, 1, 1, 0, 0],
            &[0, 0, 1, 1, 1, 1, 1, 1, 0, 0],
            &[0, 0, 1, 1, 1, 1, 1, 1, 0, 0],
            &[0, 0, 1, 1, 0, 0, 1, 1, 0, 0],
            &[0, 0, 1, 1, 0, 0, 1, 1, 0, 0],
            &[0, 0, 1, 1, 0, 0, 1, 1, 0, 0],
            &[0, 0, 0, 0, 0, 0, 0, 0, 0, 0],
        ],
    }
}

fn full(side: usize) -> Mold {
    let mut target = Cells::new(side, side).unwrap();
    target.make_alive_square(0, 0, side);
    Mold { font_size: side, target }
}

fn squares_overlap(pattern: &Compound) -> bool {
    let side = pattern.font_size;
    let mut owners = vec![vec![0usize; side]; side];
    for x in 0..side {
        for y in 0..side {
            let p = pattern.pattern[x][y];
            if p.prime_type != PrimeType::Empty {
                for a in 0..p.exclusive_size {
                    for b in 0..p.exclusive_size {
                        owners[(x + a) % side][(y + b) % side] += 1;
                    }
                }
            }
        }
    }
    owners.iter().any(|column| column.iter().any(|n| *n > 1))
}

fn count(pattern: &Compound) -> usize {
    pattern.pattern.iter().map(|c| c.iter().filter(|p| p.prime_type != PrimeType::Empty).count()).sum()
}

#[test]
fn no_two_exclusive_squares_overlap() {
    for seed in 0..12u64 {
        for n in [0usize, 1, 3, 8] {
            let mut search = GradientDescent { randomizer: Lcg::seeded(seed), n };
            let pattern = search.optimize(Mold::new(letter(), 40).unwrap());
            assert_eq!(40, pattern.font_size);
            assert!(!squares_overlap(&pattern));
        }
    }
}

#[test]
fn the_search_places_something() {
    let mut search = GradientDescent { randomizer: Lcg::seeded(7), n: 5 };
    let pattern = search.optimize(Mold::new(letter(), 40).unwrap());
    assert!(count(&pattern) > 0);
}

#[test]
fn every_pattern_is_a_catalog_entry_on_the_stroke() {
    for seed in 0..6u64 {
        let mold = Mold::new(letter(), 30).unwrap();
        let mut search = GradientDescent { randomizer: Lcg::seeded(seed), n: 4 };
        let seed_pattern = search.seed(&mold);
        let pattern = search.improve(&mold, seed_pattern);
        for x in 0..30 {
            for y in 0..30 {
                let p = pattern.pattern[x][y];
                assert_eq!(Prime::of(p.prime_type), p);
                if p.prime_type != PrimeType::Empty {
                    assert!(!mold.target.is_allocatable(x, y, 4));
                }
            }
        }
    }
}

#[test]
fn the_search_never_scores_below_its_seed() {
    for seed in 0..12u64 {
        for n in [1usize, 2, 5, 9] {
            let mold = Mold::new(letter(), 40).unwrap();
            let mut search = GradientDescent { randomizer: Lcg::seeded(seed), n };
            let first = search.seed(&mold);
            let seed_score = search.evaluate(&mold, &first);
            let best = search.improve(&mold, first);
            assert!(search.evaluate(&mold, &best) >= seed_score);
            assert_eq!(n, search.n);
        }
    }
}

#[test]
fn without_rounds_the_search_returns_its_seed() {
    for seed in 0..8u64 {
        let mold = Mold::new(letter(), 40).unwrap();
        let mut seeder = GradientDescent { randomizer: Lcg::seeded(seed), n: 0 };
        let first = seeder.seed(&mold);
        let mut search = GradientDescent { randomizer: Lcg::seeded(seed), n: 0 };
        let pattern = search.optimize(Mold::new(letter(), 40).unwrap());
        assert_eq!(first.pattern, pattern.pattern);
        let kept = seeder.improve(&mold, first.duplicate());
        assert_eq!(first.pattern, kept.pattern);
    }
}

#[test]
fn constant_draws_of_zero_tile_a_full_mold_with_blocks() {
    let mut search = GradientDescent { randomizer: Constant { draw: 0 }, n: 0 };
    let mold = full(8);
    let pattern = search.seed(&mold);
    for x in 0..8 {
        for y in 0..8 {
            let expected = if x % 4 == 0 && y % 4 == 0 { PrimeType::Block } else { PrimeType::Empty };
            assert_eq!(expected, pattern.pattern[x][y].prime_type);
        }
    }
    let drawn = pattern.to_cells().unwrap();
    assert_eq!(16, mold.intersect(&drawn));
    assert_eq!(0, mold.difference(&drawn));
    assert_eq!(32, search.evaluate(&mold, &pattern));
}

#[test]
fn draws_that_never_seed_leave_the_map_empty() {
    let mut search = GradientDescent { randomizer: Constant { draw: u32::MAX }, n: 3 };
    let pattern = search.optimize(full(8));
    assert_eq!(0, count(&pattern));
}

#[test]
fn nothing_is_placed_away_from_the_stroke() {
    let mut search = GradientDescent { randomizer: Constant { draw: 0 }, n: 2 };
    let blank = Mold { font_size: 12, target: Cells::new(12, 12).unwrap() };
    assert_eq!(0, count(&search.optimize(blank)));
}

#[test]
fn a_round_that_removes_and_replaces_alike_is_not_taken() {
    // every pattern is taken away and the same blocks come back: the score is
    // the same, and a trial is kept only if it scores strictly better
    let mold = full(8);
    let mut search = GradientDescent { randomizer: Constant { draw: 0 }, n: 4 };
    let first = search.seed(&mold);
    let best = search.improve(&mold, first.duplicate());
    assert_eq!(first.pattern, best.pattern);
}

#[test]
fn remove_primes_takes_all_or_nothing_with_constant_draws() {
    let mold = full(8);
    let mut search = GradientDescent { randomizer: Constant { draw: 0 }, n: 0 };
    let mut pattern = search.seed(&mold);
    let mut keep = GradientDescent { randomizer: Constant { draw: u32::MAX }, n: 0 };
    keep.remove_primes(&mold, &mut pattern);
    assert_eq!(4, count(&pattern));
    search.remove_primes(&mold, &mut pattern);
    assert_eq!(0, count(&pattern));
}

#[test]
fn allocate_compound_marks_the_exclusive_squares() {
    let search = GradientDescent { randomizer: Constant { draw: 0 }, n: 0 };
    let mut pattern = Compound::new(8);
    pattern.set(Prime::of(PrimeType::Tub), 5, 6);
    let mut occupied = Cells::new(8, 8).unwrap();
    search.allocate_compound(&mut occupied, &pattern);
    for x in 0..8 {
        for y in 0..8 {
            let inside = (x >= 5 || x < 2) && (y >= 6 || y < 3);
            assert_eq!(inside, occupied.is_alive(x, y));
        }
    }
}

#[test]
fn the_score_weighs_stray_cells_at_half() {
    assert_eq!(32, weigh(20, 8));
    assert_eq!(16.0, weigh(20, 8) as f64 / 2.0);
    assert_eq!(-1, weigh(0, 1));
    assert_eq!(0, weigh(0, 0));
    assert_eq!(2 * (u64::MAX as i128), weigh(u64::MAX, 0));
    assert_eq!(-(u64::MAX as i128), weigh(0, u64::MAX));
}

#[test]
fn the_score_of_a_map_counts_its_drawing() {
    let search = GradientDescent { randomizer: Constant { draw: 0 }, n: 0 };
    let mut target = Cells::new(8, 8).unwrap();
    target.make_alive(1, 1);
    target.make_alive(1, 2);
    target.make_alive(7, 7);
    let mold = Mold { font_size: 8, target };
    let mut pattern = Compound::new(8);
    pattern.set(Prime::of(PrimeType::Block), 0, 0);
    // the block has four live cells, two of them on the mold
    assert_eq!(2, search.evaluate(&mold, &pattern));
    assert_eq!(0, search.evaluate(&mold, &Compound::new(8)));
}

#[test]
fn a_draw_below_a_tenth_removes() {
    assert!(removes(0));
    assert!(removes(429_496_729));
    assert!(!removes(429_496_730));
    assert!(!removes(u32::MAX));
}

#[test]
fn a_draw_below_a_twentieth_seeds() {
    assert!(seeds(0));
    assert!(seeds(214_748_364));
    assert!(!seeds(214_748_365));
    assert!(!seeds(u32::MAX));
}

#[test]
fn the_draw_picks_among_seven() {
    assert_eq!(PrimeType::Block, prime_for(0).prime_type);
    assert_eq!(PrimeType::Block, prime_for(613_566_756).prime_type);
    assert_eq!(PrimeType::Tub, prime_for(613_566_757).prime_type);
    assert_eq!(PrimeType::Beehive, prime_for(1_227_133_514).prime_type);
    assert_eq!(PrimeType::Blinker, prime_for(0x8000_0000 - 300_000_000).prime_type);
    assert_eq!(PrimeType::Blinker, prime_for(0x8000_0000).prime_type);
    assert_eq!(PrimeType::Beacon, prime_for(2_454_267_027).prime_type);
    assert_eq!(PrimeType::Clock, prime_for(3_067_833_783).prime_type);
    assert_eq!(PrimeType::Toad, prime_for(3_681_400_540).prime_type);
    assert_eq!(PrimeType::Toad, prime_for(u32::MAX).prime_type);
    assert_eq!(Prime::of(PrimeType::Toad), prime_for(u32::MAX));
}

#[test]
fn get_random_prime_never_draws_the_empty_pattern() {
    let mut search = GradientDescent { randomizer: Lcg::seeded(3), n: 0 };
    let mut seen = vec![];
    for _ in 0..500 {
        let p = search.get_random_prime();
        assert!(p.prime_type != PrimeType::Empty);
        if !seen.contains(&p.prime_type) {
            seen.push(p.prime_type);
        }
    }
    assert_eq!(7, seen.len());
}

#[test]
fn the_system_generator_serves_the_search() {
    let mut search = GradientDescent { randomizer: Rand::new().unwrap(), n: 2 };
    let pattern = search.optimize(Mold::new(letter(), 40).unwrap());
    assert_eq!(40, pattern.font_size);
    assert!(!squares_overlap(&pattern));
}

#[test]
fn the_system_generator_varies() {
    let mut rand = Rand::new().unwrap();
    let first = rand.random_number();
    let mut varied = false;
    for _ in 0..64 {
        if rand.random_number() != first {
            varied = true;
        }
    }
    assert!(varied);
}

#[test]
fn place_takes_a_free_square_and_marks_it() {
    let mut pattern = Compound::new(8);
    let mut occupied = Cells::new(8, 8).unwrap();
    assert!(place(&mut pattern, &mut occupied, Prime::of(PrimeType::Tub), 5, 6));
    assert_eq!(Prime::of(PrimeType::Tub), pattern.pattern[5][6]);
    assert_eq!(1, count(&pattern));
    for x in 0..8 {
        for y in 0..8 {
            let inside = (x >= 5 || x < 2) && (y >= 6 || y < 3);
            assert_eq!(inside, occupied.is_alive(x, y));
        }
    }
}

#[test]
fn place_leaves_a_marked_square_alone() {
    let mut pattern = Compound::new(8);
    let mut occupied = Cells::new(8, 8).unwrap();
    occupied.make_alive(3, 3);
    let marks = occupied.clone();
    assert!(!place(&mut pattern, &mut occupied, Prime::of(PrimeType::Block), 0, 0));
    assert!(!place(&mut pattern, &mut occupied, Prime::of(PrimeType::Beacon), 6, 6));
    assert_eq!(0, count(&pattern));
    assert_eq!(marks, occupied);
    assert!(place(&mut pattern, &mut occupied, Prime::of(PrimeType::Block), 4, 0));
    assert!(!place(&mut pattern, &mut occupied, Prime::of(PrimeType::Block), 4, 0));
    assert_eq!(1, count(&pattern));
}

#[test]
fn add_primes_keeps_off_the_cells_marked_before() {
    let mold = full(8);
    let mut search = GradientDescent { randomizer: Constant { draw: 0 }, n: 0 };
    let mut pattern = Compound::new(8);
    let mut occupied = Cells::new(8, 8).unwrap();
    occupied.make_alive_square(0, 0, 4);
    search.add_primes(&mold, &mut pattern, &mut occupied);
    for x in 0..8 {
        for y in 0..8 {
            let expected = if (x, y) == (0, 4) || (x, y) == (4, 0) || (x, y) == (4, 4) {
                PrimeType::Block
            } else {
                PrimeType::Empty
            };
            assert_eq!(expected, pattern.pattern[x][y].prime_type);
            assert!(occupied.is_alive(x, y));
        }
    }
}

#[test]
fn add_primes_keeps_what_was_held() {
    let mold = full(12);
    let mut search = GradientDescent { randomizer: Constant { draw: 0 }, n: 0 };
    let mut pattern = Compound::new(12);
    let mut occupied = Cells::new(12, 12).unwrap();
    assert!(place(&mut pattern, &mut occupied, Prime::of(PrimeType::Toad), 1, 1));
    search.add_primes(&mold, &mut pattern, &mut occupied);
    assert_eq!(Prime::of(PrimeType::Toad), pattern.pattern[1][1]);
    assert!(count(&pattern) > 1);
    assert!(!squares_overlap(&pattern));
}

#[test]
fn the_search_returns_its_seed_or_something_better() {
    let mut kept = 0;
    let mut bettered = 0;
    for seed in 0..16u64 {
        for n in [1usize, 4] {
            let mold = Mold::new(letter(), 40).unwrap();
            let mut search = GradientDescent { randomizer: Lcg::seeded(seed), n };
            let first = search.seed(&mold);
            let seed_score = search.evaluate(&mold, &first);
            let best = search.improve(&mold, first.duplicate());
            if best.pattern == first.pattern {
                kept += 1;
            } else {
                bettered += 1;
                assert!(search.evaluate(&mold, &best) > seed_score);
            }
        }
    }
    assert_eq!(32, kept + bettered);
}

/// A generator that always draws the same number and counts its draws.
struct Counting {
    draw: u32,
    count: usize,
}

impl Randomizer for Counting {
    fn new() -> Result<Self, SourceUnavailable> {
        Ok(Counting { draw: 0, count: 0 })
    }

    fn random_number(&mut self) -> u32 {
        self.count += 1;
        self.draw
    }
}

#[test]
fn thin_at_takes_a_pattern_away_for_a_draw_below_a_tenth() {
    let mut pattern = Compound::new(4);
    pattern.set(Prime::of(PrimeType::Tub), 1, 2);
    pattern.set(Prime::of(PrimeType::Block), 3, 3);
    thin_at(&mut pattern, 1, 2, 429_496_730);
    assert_eq!(Prime::of(PrimeType::Tub), pattern.pattern[1][2]);
    thin_at(&mut pattern, 0, 0, 0);
    assert_eq!(2, count(&pattern));
    thin_at(&mut pattern, 1, 2, 429_496_729);
    assert_eq!(Prime::of(PrimeType::Empty), pattern.pattern[1][2]);
    assert_eq!(Prime::of(PrimeType::Block), pattern.pattern[3][3]);
    assert_eq!(1, count(&pattern));
}

#[test]
fn sow_at_places_what_the_second_draw_picks() {
    let mold = full(12);
    let mut pattern = Compound::new(12);
    let mut occupied = Cells::new(12, 12).unwrap();
    assert!(!sow_at(&mold, &mut pattern, &mut occupied, 2, 1, 214_748_365, 0));
    assert_eq!(0, count(&pattern));
    assert_eq!(Cells::new(12, 12).unwrap(), occupied);
    assert!(sow_at(&mold, &mut pattern, &mut occupied, 2, 1, 214_748_364, u32::MAX));
    assert_eq!(Prime::of(PrimeType::Toad), pattern.pattern[2][1]);
    assert_eq!(1, count(&pattern));
    for x in 0..12 {
        for y in 0..12 {
            assert_eq!((2..8).contains(&x) && (1..7).contains(&y), occupied.is_alive(x, y));
        }
    }
    assert!(!sow_at(&mold, &mut pattern, &mut occupied, 0, 0, 0, 0));
    assert!(sow_at(&mold, &mut pattern, &mut occupied, 8, 7, 0, 0));
    assert_eq!(Prime::of(PrimeType::Block), pattern.pattern[8][7]);
    assert_eq!(2, count(&pattern));
}

#[test]
fn sow_at_places_nothing_away_from_the_stroke() {
    let mut target = Cells::new(12, 12).unwrap();
    target.make_alive(6, 6);
    let mold = Mold { font_size: 12, target };
    let mut pattern = Compound::new(12);
    let mut occupied = Cells::new(12, 12).unwrap();
    assert!(!sow_at(&mold, &mut pattern, &mut occupied, 7, 6, 0, 0));
    assert!(!sow_at(&mold, &mut pattern, &mut occupied, 2, 6, 0, 0));
    assert!(sow_at(&mold, &mut pattern, &mut occupied, 3, 3, 0, 0));
    assert_eq!(1, count(&pattern));
}

#[test]
fn the_removal_pass_draws_once_for_each_pattern() {
    let mold = full(8);
    let mut pattern = Compound::new(8);
    pattern.set(Prime::of(PrimeType::Tub), 1, 2);
    pattern.set(Prime::of(PrimeType::Block), 3, 3);
    pattern.set(Prime::of(PrimeType::Clock), 7, 0);
    let mut search = GradientDescent { randomizer: Counting { draw: u32::MAX, count: 0 }, n: 0 };
    search.remove_primes(&mold, &mut pattern);
    assert_eq!(3, search.randomizer.count);
    assert_eq!(3, count(&pattern));
    search.randomizer.draw = 0;
    search.remove_primes(&mold, &mut pattern);
    assert_eq!(6, search.randomizer.count);
    assert_eq!(0, count(&pattern));
    search.remove_primes(&mold, &mut pattern);
    assert_eq!(6, search.randomizer.count);
}

#[test]
fn the_removal_pass_takes_its_draws_column_by_column() {
    let mold = full(8);
    let mut pattern = Compound::new(8);
    pattern.set(Prime::of(PrimeType::Tub), 0, 5);
    pattern.set(Prime::of(PrimeType::Block), 0, 6);
    pattern.set(Prime::of(PrimeType::Clock), 1, 0);
    // the generator gives 0, then ever larger draws: only its first removes
    struct Rising {
        next: u32,
    }
    impl Randomizer for Rising {
        fn new() -> Result<Self, SourceUnavailable> {
            Ok(Rising { next: 0 })
        }

        fn random_number(&mut self) -> u32 {
            let draw = self.next;
            self.next = self.next.saturating_add(1_000_000_000);
            draw
        }
    }
    let mut search = GradientDescent { randomizer: Rising { next: 0 }, n: 0 };
    search.remove_primes(&mold, &mut pattern);
    assert_eq!(PrimeType::Empty, pattern.pattern[0][5].prime_type);
    assert_eq!(PrimeType::Block, pattern.pattern[0][6].prime_type);
    assert_eq!(PrimeType::Clock, pattern.pattern[1][0].prime_type);
}

#[test]
fn the_seeding_pass_draws_once_on_the_stroke_and_twice_where_it_seeds() {
    let mold = full(8);
    let mut never = GradientDescent { randomizer: Counting { draw: u32::MAX, count: 0 }, n: 0 };
    assert_eq!(0, count(&never.seed(&mold)));
    assert_eq!(64, never.randomizer.count);
    let mut always = GradientDescent { randomizer: Counting { draw: 0, count: 0 }, n: 0 };
    assert_eq!(4, count(&always.seed(&mold)));
    assert_eq!(128, always.randomizer.count);
    let blank = Mold { font_size: 8, target: Cells::new(8, 8).unwrap() };
    let mut idle = GradientDescent { randomizer: Counting { draw: 0, count: 0 }, n: 0 };
    assert_eq!(0, count(&idle.seed(&blank)));
    assert_eq!(0, idle.randomizer.count);
}

#[test]
fn without_rounds_no_draw_is_made_beyond_the_seed_pass() {
    let mold = Mold::new(letter(), 40).unwrap();
    let mut seeder = GradientDescent { randomizer: Counting { draw: 0, count: 0 }, n: 0 };
    let first = seeder.seed(&mold);
    let after_seed = seeder.randomizer.count;
    let kept = seeder.improve(&mold, first.duplicate());
    assert_eq!(after_seed, seeder.randomizer.count);
    assert_eq!(first.pattern, kept.pattern);
    let mut search = GradientDescent { randomizer: Counting { draw: 0, count: 0 }, n: 0 };
    let pattern = search.optimize(Mold::new(letter(), 40).unwrap());
    assert_eq!(after_seed, search.randomizer.count);
    assert_eq!(first.pattern, pattern.pattern);
}

#[test]
fn draws_of_zero_give_four_blocks_whatever_the_rounds() {
    for n in [0usize, 2] {
        let mut search = GradientDescent { randomizer: Constant { draw: 0 }, n };
        let pattern = search.optimize(full(8));
        for x in 0..8 {
            for y in 0..8 {
                let expected = if x % 4 == 0 && y % 4 == 0 { Prime::of(PrimeType::Block) } else { Prime::of(PrimeType::Empty) };
                assert_eq!(expected, pattern.pattern[x][y]);
            }
        }
    }
}

#[test]
fn a_seeding_that_fails_gives_no_source() {
    let failed = Rand::from_seeding(Err(rand::Error::new("no entropy")));
    assert!(matches!(failed, Err(SourceUnavailable)));
}

#[test]
fn a_seeded_generator_draws_what_its_seed_fixes() {
    let mut a = Rand::from_seeding(Ok(StdRng::seed_from_u64(7))).unwrap();
    let mut b = Rand::from_seeding(Ok(StdRng::seed_from_u64(7))).unwrap();
    let mut c = Rand::from_seeding(Ok(StdRng::seed_from_u64(8))).unwrap();
    let first: Vec<u32> = (0..8).map(|_| a.random_number()).collect();
    let same: Vec<u32> = (0..8).map(|_| b.random_number()).collect();
    let other: Vec<u32> = (0..8).map(|_| c.random_number()).collect();
    assert_eq!(first, same);
    assert_ne!(first, other);
}
