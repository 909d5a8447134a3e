use puzzle_kit::beam_graph::{build_graph, run_bfs, Edge, GraphIndexing, InvalidTile};
use puzzle_kit::bricks::{Point, PointError};
use puzzle_kit::calibration::{to_digit, to_digit_rev};
use puzzle_kit::cubes::{parse_line, LineError};
use puzzle_kit::galaxies;
use puzzle_kit::hands::HandType;
use puzzle_kit::hike::MapError;
use puzzle_kit::lagoon::polygon_area;
use puzzle_kit::mirrors::count_reflections;
use puzzle_kit::oasis::extrapolate;
use puzzle_kit::enclosure;
use puzzle_kit::pipes;
use puzzle_kit::sketch::{parse_graph, SketchError};
use puzzle_kit::lens::hash;
use puzzle_kit::network::{ext_gcd, parse_node, solve_crt};
use puzzle_kit::platform::{eval_grid, part1, part2, tilt, tilt_cycle};
use puzzle_kit::pulses::IncrementalPrefixFunction;
use puzzle_kit::numbers::parse_u64;
use puzzle_kit::race::{binary_search, count_ways_to_beat, read_line, ReadError};
use puzzle_kit::schematic::is_symbol;
use puzzle_kit::springs::count_valid_arrangements;
use puzzle_kit::trails::{dag_dfs, grid_neighbors, longest_path_brute_force, Graph, UNKNOWN};
use puzzle_kit::wiring;
use puzzle_kit::labels::LabelCompression;
use puzzle_kit::modules::SystemError;
use puzzle_kit::pulses::{ModuleType, System};
use puzzle_kit::workflow::{Category, InvalidCategory};

#[test]
fn crossings_are_numbered_group_by_group() {
    let indexing = GraphIndexing { width: 3, height: 2 };
    assert_eq!(indexing.total(), 2 * 2 * 4 + 2 * 3 * 3);
    assert_eq!(indexing.east(0, 0), 0);
    assert_eq!(indexing.east(3, 1), 7);
    assert_eq!(indexing.west(0, 0), 8);
    assert_eq!(indexing.west(3, 1), 15);
    assert_eq!(indexing.north(0, 0), 16);
    assert_eq!(indexing.north(2, 2), 24);
    assert_eq!(indexing.south(0, 0), 25);
    assert_eq!(indexing.south(2, 2), 33);
}

#[test]
fn leaving_a_cell_is_entering_the_next() {
    let indexing = GraphIndexing { width: 3, height: 2 };
    assert_eq!(indexing.index(0, 0, Edge::OutEast), indexing.index(1, 0, Edge::InWest));
    assert_eq!(indexing.index(1, 0, Edge::OutWest), indexing.index(0, 0, Edge::InEast));
    assert_eq!(indexing.index(1, 0, Edge::OutSouth), indexing.index(1, 1, Edge::InNorth));
    assert_eq!(indexing.index(1, 1, Edge::OutNorth), indexing.index(1, 0, Edge::InSouth));
    assert_eq!(indexing.index(2, 1, Edge::InWest), 6);
    assert_eq!(indexing.index(2, 1, Edge::InEast), 8 + 4 + 3);
    assert_eq!(indexing.index(2, 1, Edge::InNorth), 25 + 3 + 2);
    assert_eq!(indexing.index(2, 1, Edge::InSouth), 16 + 6 + 2);
}

#[test]
fn crossings_into_cells_are_all_different() {
    let indexing = GraphIndexing { width: 4, height: 3 };
    let mut seen = vec![false; indexing.total()];
    for y in 0..3 {
        for x in 0..4 {
            for edge in [Edge::InWest, Edge::InEast, Edge::InNorth, Edge::InSouth] {
                let number = indexing.index(x, y, edge);
                assert!(!seen[number]);
                seen[number] = true;
            }
        }
    }
}

#[test]
fn digits_by_name_and_by_character() {
    let names = ["one", "two", "three", "four", "five", "six", "seven", "eight", "nine"];
    for (i, name) in names.iter().enumerate() {
        assert_eq!(to_digit(name), i as u32 + 1);
        let backwards: String = name.chars().rev().collect();
        assert_eq!(to_digit_rev(&backwards), i as u32 + 1);
    }
    assert_eq!(to_digit("0"), 0);
    assert_eq!(to_digit("7"), 7);
    assert_eq!(to_digit("9x"), 9);
    assert_eq!(to_digit_rev("4"), 4);
    // a name read the wrong way round is no name: its first byte is taken
    assert_eq!(to_digit("eno"), u32::from(b'e' - b'0'));
    assert_eq!(to_digit_rev("one"), u32::from(b'o' - b'0'));
}

#[test]
fn hash_of_known_strings() {
    assert_eq!(hash(""), 0);
    assert_eq!(hash("H"), 200);
    assert_eq!(hash("HASH"), 52);
    assert_eq!(hash("rn=1"), 30);
    assert_eq!(hash("cm-"), 253);
    assert_eq!(hash("rn"), 0);
    assert_eq!(hash("qp"), 1);
}

#[test]
fn node_labels_are_numbers_in_base_26() {
    assert_eq!(parse_node("AAA"), 0);
    assert_eq!(parse_node("AAB"), 1);
    assert_eq!(parse_node("ABA"), 26);
    assert_eq!(parse_node("BAA"), 676);
    assert_eq!(parse_node("ZZZ"), 26 * 26 * 26 - 1);
    assert_eq!(parse_node("ZZZ)"), 26 * 26 * 26 - 1);
}

#[test]
fn extended_euclid_on_known_pairs() {
    assert_eq!(ext_gcd(240, 46), (2, -9, 47));
    assert_eq!(ext_gcd(46, 240), (2, 47, -9));
    assert_eq!(ext_gcd(17, 0), (17, 1, 0));
    assert_eq!(ext_gcd(0, 17), (17, 0, 1));
    assert_eq!(ext_gcd(0, 0), (0, 1, 0));
    assert_eq!(ext_gcd(12, 12), (12, 0, 1));
    assert_eq!(ext_gcd(-6, 4), (-2, 1, 1));
}

#[test]
fn extended_euclid_coefficients_combine_to_the_divisor() {
    for a in -30i64..30 {
        for b in -30i64..30 {
            let (g, x, y) = ext_gcd(a, b);
            assert_eq!(a * x + b * y, g);
            if g != 0 {
                assert_eq!(a % g, 0);
                assert_eq!(b % g, 0);
            } else {
                assert_eq!((a, b), (0, 0));
            }
        }
    }
    let (g, x, y) = ext_gcd(i64::MAX, i64::MAX - 1);
    assert_eq!(g, 1);
    assert_eq!(i128::from(i64::MAX) * i128::from(x) + i128::from(i64::MAX - 1) * i128::from(y), 1);
    let (g, _, _) = ext_gcd(-i64::MAX, i64::MAX);
    assert_eq!(g.abs(), i64::MAX);
}

#[test]
fn binary_search_finds_the_last_failure() {
    assert_eq!(binary_search(0, 100, |x| x >= 37), 36);
    assert_eq!(binary_search(0, 100, |x| x * x > 50), 7);
    assert_eq!(binary_search(10, 20, |_| true), 10);
    assert_eq!(binary_search(10, 20, |_| false), 19);
    assert_eq!(binary_search(5, 5, |_| true), 5);
    assert_eq!(binary_search(5, 6, |_| false), 5);
}

#[test]
fn ways_to_beat_known_races() {
    assert_eq!(count_ways_to_beat(7, 9), 4);
    assert_eq!(count_ways_to_beat(15, 40), 8);
    assert_eq!(count_ways_to_beat(30, 200), 9);
    assert_eq!(count_ways_to_beat(71530, 940200), 71503);
    assert_eq!(count_ways_to_beat(0, 0), 0);
    assert_eq!(count_ways_to_beat(2, 0), 1);
    assert_eq!(count_ways_to_beat(2, 1), 0);
    assert_eq!(count_ways_to_beat(10, 24), 1);
    assert_eq!(count_ways_to_beat(10, 25), 0);
}

#[test]
fn ways_to_beat_counts_the_winning_holds() {
    for time in 0u64..40 {
        for distance in 0u64..450 {
            let expected = (0..=time).filter(|hold| hold * (time - hold) > distance).count();
            assert_eq!(count_ways_to_beat(time, distance), expected as u64);
        }
    }
}

#[test]
fn load_of_a_platform() {
    let rows = [
        "OOOO.#.O..",
        "OO..#....#",
        "OO..O##..O",
        "O..#.OO...",
        "........#.",
        "..#....#.#",
        "..O..#.O.O",
        "..O.......",
        "#....###..",
        "#....#....",
    ];
    let grid: Vec<u8> = rows.iter().flat_map(|row| row.bytes()).collect();
    assert_eq!(eval_grid(&grid, 10, 10), 136);
    assert_eq!(eval_grid(&[], 3, 1), 0);
    assert_eq!(eval_grid(b"O.O", 3, 1), 3 + 1);
    assert_eq!(eval_grid(b"O.O", 1, 3), 2);
}

#[test]
fn symbols_are_neither_digits_nor_dots() {
    for digit in b'0'..=b'9' {
        assert!(!is_symbol(digit));
    }
    assert!(!is_symbol(b'.'));
    assert!(is_symbol(b'*'));
    assert!(is_symbol(b'#'));
    assert!(is_symbol(b'/'));
    assert!(is_symbol(b':'));
    assert!(is_symbol(b'-'));
}

#[test]
fn neighbours_in_a_grid() {
    let rows: [&[u8]; 3] = [b"abc", b"def", b"gh"];
    assert_eq!(
        grid_neighbors(1, 1, &rows),
        vec![(2, 1, b'h'), (1, 2, b'f'), (0, 1, b'b'), (1, 0, b'd')]
    );
    assert_eq!(grid_neighbors(0, 0, &rows), vec![(1, 0, b'd'), (0, 1, b'b')]);
    assert_eq!(grid_neighbors(2, 1, &rows), vec![(1, 1, b'e'), (2, 0, b'g')]);
    assert_eq!(grid_neighbors(1, 2, &rows), vec![(0, 2, b'c'), (1, 1, b'e')]);
    assert_eq!(grid_neighbors(5, 5, &rows), vec![]);
}

#[test]
fn categories_have_their_places() {
    assert_eq!(Category::ExtremlyGoodLooking.as_index(), 0);
    assert_eq!(Category::Musical.as_index(), 1);
    assert_eq!(Category::Aerodynamic.as_index(), 2);
    assert_eq!(Category::Shiny.as_index(), 3);
}

#[test]
fn remainders_are_solved_for() {
    assert_eq!(solve_crt(2, 3, 3, 5), Some((8, 15)));
    assert_eq!(solve_crt(3, 5, 2, 3), Some((8, 15)));
    assert_eq!(solve_crt(3, 4, 5, 6), Some((11, 12)));
    assert_eq!(solve_crt(0, 1, 3, 7), Some((3, 7)));
    assert_eq!(solve_crt(0, 1, 0, 1), Some((0, 1)));
    assert_eq!(solve_crt(1, 4, 2, 6), None);
    assert_eq!(solve_crt(5, 6, 5, 6), Some((5, 6)));
    assert_eq!(solve_crt(-1, 4, 14, 5), Some((19, 20)));
    assert_eq!(solve_crt(23, 4, -6, 5), Some((19, 20)));
}

#[test]
fn remainders_agree_with_a_search() {
    for m in 1i64..13 {
        for n in 1i64..13 {
            for a in -13i64..13 {
                for b in -13i64..13 {
                    let lcm = (1..=m * n).find(|l| l % m == 0 && l % n == 0).unwrap();
                    let expected = (0..lcm)
                        .find(|c| (c - a).rem_euclid(m) == 0 && (c - b).rem_euclid(n) == 0)
                        .map(|c| (c, lcm));
                    assert_eq!(solve_crt(a, m, b, n), expected);
                }
            }
        }
    }
}

fn platform() -> (Vec<u8>, usize, usize) {
    let rows = [
        "O....#....",
        "O.OO#....#",
        ".....##...",
        "OO.#O....O",
        ".O.....O#.",
        "O.#..O.#.#",
        "..O..#O..O",
        ".......O..",
        "#....###..",
        "#OO..#....",
    ];
    (rows.iter().flat_map(|row| row.bytes()).collect(), 10, 10)
}

fn joined(rows: &[&str]) -> Vec<u8> {
    rows.iter().flat_map(|row| row.bytes()).collect()
}

#[test]
fn rocks_roll_to_the_start_of_their_line() {
    let mut line = b"..O.#O.O.##..O".to_vec();
    tilt(14, 1, &mut line, |j, _| j);
    assert_eq!(line, b"O...#OO..##O..".to_vec());
    // read from the other end they roll the other way
    let mut line = b"..O.#O.O.##..O".to_vec();
    tilt(14, 1, &mut line, |j, _| 13 - j);
    assert_eq!(line, b"...O#..OO##..O".to_vec());
}

#[test]
fn other_bytes_stay_unless_a_rock_rolls_onto_them() {
    let mut line = b"x.OyO".to_vec();
    tilt(5, 1, &mut line, |j, _| j);
    assert_eq!(line, b"OO.y.".to_vec());
    let mut line = b"#xO".to_vec();
    tilt(3, 1, &mut line, |j, _| j);
    assert_eq!(line, b"#O.".to_vec());
}

#[test]
fn cells_on_no_line_are_left_alone() {
    let mut grid = b".O.O.O.O".to_vec();
    // one line of the odd places, read backwards
    tilt(4, 1, &mut grid, |j, _| 7 - 2 * j);
    assert_eq!(grid, b".O.O.O.O".to_vec());
    let mut grid = b"O.O.O...".to_vec();
    tilt(4, 1, &mut grid, |j, _| 7 - 2 * j);
    assert_eq!(grid, b"O.O.O...".to_vec());
    let mut grid = b"OOO.....".to_vec();
    tilt(4, 1, &mut grid, |j, _| 7 - 2 * j);
    assert_eq!(grid, b"O.O....O".to_vec());
    tilt(0, 0, &mut grid, |j, _| j);
    assert_eq!(grid, b"O.O....O".to_vec());
}

#[test]
fn platform_tilted_north() {
    let (mut grid, height, width) = platform();
    tilt(height, width, &mut grid, |y, x| y * width + x);
    assert_eq!(
        grid,
        joined(&[
            "OOOO.#.O..",
            "OO..#....#",
            "OO..O##..O",
            "O..#.OO...",
            "........#.",
            "..#....#.#",
            "..O..#.O.O",
            "..O.......",
            "#....###..",
            "#....#....",
        ])
    );
}

#[test]
fn platform_after_rounds_of_tilting() {
    let (mut grid, height, width) = platform();
    tilt_cycle(&mut grid, height, width);
    assert_eq!(
        grid,
        joined(&[
            ".....#....",
            "....#...O#",
            "...OO##...",
            ".OO#......",
            ".....OOO#.",
            ".O#...O#.#",
            "....O#....",
            "......OOOO",
            "#...O###..",
            "#..OO#....",
        ])
    );
    tilt_cycle(&mut grid, height, width);
    assert_eq!(
        grid,
        joined(&[
            ".....#....",
            "....#...O#",
            ".....##...",
            "..O#......",
            ".....OOO#.",
            ".O#...O#.#",
            "....O#...O",
            ".......OOO",
            "#..OO###..",
            "#.OOO#...O",
        ])
    );
    tilt_cycle(&mut grid, height, width);
    assert_eq!(
        grid,
        joined(&[
            ".....#....",
            "....#...O#",
            ".....##...",
            "..O#......",
            ".....OOO#.",
            ".O#...O#.#",
            "....O#...O",
            ".......OOO",
            "#...O###.O",
            "#.OOO#...O",
        ])
    );
}

#[test]
fn load_after_tilting_north() {
    let (grid, height, width) = platform();
    assert_eq!(part1(grid, height, width), 136);
    assert_eq!(part1(vec![], 0, 0), 0);
    assert_eq!(part1(vec![], 5, 0), 0);
    assert_eq!(part1(b".O#O".to_vec(), 4, 1), 4 + 1);
    assert_eq!(part1(b"..OO".to_vec(), 2, 2), 4);
}

#[test]
fn cells_covered_by_a_closed_chain() {
    // a square of side 2 covers 3 by 3 cells
    assert_eq!(polygon_area(&[(0, 0), (2, 0), (2, 2), (0, 2), (0, 0)]), 9);
    // the same square walked the other way round
    assert_eq!(polygon_area(&[(0, 0), (0, 2), (2, 2), (2, 0), (0, 0)]), 9);
    assert_eq!(polygon_area(&[(0, 0)]), 1);
    assert_eq!(polygon_area(&[]), 1);
    assert_eq!(polygon_area(&[(0, 0), (5, 0), (0, 0)]), 6);
    let trench = [
        (0, 0), (6, 0), (6, 5), (4, 5), (4, 7), (6, 7), (6, 9), (1, 9),
        (1, 7), (0, 7), (0, 5), (2, 5), (2, 2), (0, 2), (0, 0),
    ];
    assert_eq!(polygon_area(&trench), 62);
    let shifted: Vec<(i64, i64)> = trench.iter().map(|(x, y)| (x - 100, y + 1000)).collect();
    assert_eq!(polygon_area(&shifted), 62);
}

fn hand(cards: &str) -> [u8; 5] {
    let mut hand = [0; 5];
    for (slot, card) in hand.iter_mut().zip(cards.bytes()) {
        *slot = b"23456789TJQKA".iter().position(|&c| c == card).unwrap() as u8;
    }
    hand
}

#[test]
fn kinds_of_hands_without_jokers() {
    assert_eq!(HandType::detect(hand("32T3K"), false), HandType::OnePair);
    assert_eq!(HandType::detect(hand("T55J5"), false), HandType::ThreeOfAKind);
    assert_eq!(HandType::detect(hand("KK677"), false), HandType::TwoPairs);
    assert_eq!(HandType::detect(hand("KTJJT"), false), HandType::TwoPairs);
    assert_eq!(HandType::detect(hand("QQQJA"), false), HandType::ThreeOfAKind);
    assert_eq!(HandType::detect(hand("AAAAA"), false), HandType::FiveOfAKind);
    assert_eq!(HandType::detect(hand("JJJJJ"), false), HandType::FiveOfAKind);
    assert_eq!(HandType::detect(hand("AA8AA"), false), HandType::FourOfAKind);
    assert_eq!(HandType::detect(hand("23332"), false), HandType::FullHouse);
    assert_eq!(HandType::detect(hand("23456"), false), HandType::HighCard);
}

#[test]
fn kinds_of_hands_with_jokers() {
    assert_eq!(HandType::detect(hand("32T3K"), true), HandType::OnePair);
    assert_eq!(HandType::detect(hand("T55J5"), true), HandType::FourOfAKind);
    assert_eq!(HandType::detect(hand("KK677"), true), HandType::TwoPairs);
    assert_eq!(HandType::detect(hand("KTJJT"), true), HandType::FourOfAKind);
    assert_eq!(HandType::detect(hand("QQQJA"), true), HandType::FourOfAKind);
    assert_eq!(HandType::detect(hand("JJJJJ"), true), HandType::FiveOfAKind);
    assert_eq!(HandType::detect(hand("JJJJ2"), true), HandType::FiveOfAKind);
    assert_eq!(HandType::detect(hand("2233J"), true), HandType::FullHouse);
    assert_eq!(HandType::detect(hand("234JJ"), true), HandType::ThreeOfAKind);
    assert_eq!(HandType::detect(hand("2345J"), true), HandType::OnePair);
    assert_eq!(HandType::detect(hand("23456"), true), HandType::HighCard);
}

#[test]
fn kinds_of_hands_are_ordered_by_strength() {
    assert!(HandType::HighCard < HandType::OnePair);
    assert!(HandType::OnePair < HandType::TwoPairs);
    assert!(HandType::TwoPairs < HandType::ThreeOfAKind);
    assert!(HandType::ThreeOfAKind < HandType::FullHouse);
    assert!(HandType::FullHouse < HandType::FourOfAKind);
    assert!(HandType::FourOfAKind < HandType::FiveOfAKind);
}

fn pattern(rows: &[&str]) -> Vec<Vec<u8>> {
    rows.iter().map(|row| row.as_bytes().to_vec()).collect()
}

fn transposed(grid: &[Vec<u8>]) -> Vec<Vec<u8>> {
    (0..grid[0].len())
        .map(|col| grid.iter().map(|row| row[col]).collect())
        .collect()
}

#[test]
fn reflections_of_known_patterns() {
    let first = pattern(&[
        "#.##..##.",
        "..#.##.#.",
        "##......#",
        "##......#",
        "..#.##.#.",
        "..##..##.",
        "#.#.##.#.",
    ]);
    let second = pattern(&[
        "#...##..#",
        "#....#..#",
        "..##..###",
        "#####.##.",
        "#####.##.",
        "..##..###",
        "#....#..#",
    ]);
    assert_eq!(count_reflections(&first, 0), 0);
    assert_eq!(count_reflections(&transposed(&first), 0), 5);
    assert_eq!(count_reflections(&second, 0), 4);
    assert_eq!(count_reflections(&transposed(&second), 0), 0);
    assert_eq!(count_reflections(&first, 1), 3);
    assert_eq!(count_reflections(&transposed(&first), 1), 0);
    assert_eq!(count_reflections(&second, 1), 1);
    assert_eq!(count_reflections(&transposed(&second), 1), 0);
}

#[test]
fn reflections_add_up_over_all_lines() {
    // every line of a pattern of equal rows is a mirror
    let same = pattern(&["ab", "ab", "ab", "ab"]);
    assert_eq!(count_reflections(&same, 0), 1 + 2 + 3);
    assert_eq!(count_reflections(&same, 1), 0);
    assert_eq!(count_reflections(&pattern(&["ab"]), 0), 0);
    // rows are compared as far as the shorter goes
    let ragged = pattern(&["abc", "ab", "xb"]);
    assert_eq!(count_reflections(&ragged, 0), 1);
    assert_eq!(count_reflections(&ragged, 1), 2);
    assert_eq!(count_reflections(&ragged, usize::MAX), 0);
}

#[test]
fn histories_are_continued() {
    assert_eq!(extrapolate(vec![0, 3, 6, 9, 12, 15]), 18);
    assert_eq!(extrapolate(vec![1, 3, 6, 10, 15, 21]), 28);
    assert_eq!(extrapolate(vec![10, 13, 16, 21, 30, 45]), 68);
    assert_eq!(extrapolate(vec![45, 30, 21, 16, 13, 10]), 5);
    assert_eq!(extrapolate(vec![7]), 7);
    assert_eq!(extrapolate(vec![7, 7, 7]), 7);
    assert_eq!(extrapolate(vec![1, 2]), 3);
    assert_eq!(extrapolate(vec![5, 1]), -3);
    assert_eq!(extrapolate(vec![0, 1, 4, 9, 16]), 25);
    assert_eq!(extrapolate(vec![-1, 1, -1]), -7);
}

#[test]
fn load_after_a_thousand_million_rounds() {
    let (grid, height, width) = platform();
    assert_eq!(part2(grid, height, width), 64);
}

#[test]
fn load_of_a_platform_that_comes_back_at_once() {
    // nothing rolls, so the first round already brings the first grid back
    assert_eq!(part2(b"O.#.".to_vec(), 2, 2), 2);
    assert_eq!(part2(b"....".to_vec(), 2, 2), 0);
    assert_eq!(part2(vec![], 0, 0), 0);
    // one rock goes to the corner in the first round and stays there
    assert_eq!(part2(b"O...".to_vec(), 2, 2), 1);
    assert_eq!(part2(b".O..".to_vec(), 2, 2), 1);
}

#[test]
fn load_after_rounds_agrees_with_going_through_them() {
    let (grid, height, width) = platform();
    // the platform comes back every seven rounds from the third on
    let mut seen = vec![grid.clone()];
    let mut current = grid.clone();
    for _ in 0..20 {
        tilt_cycle(&mut current, height, width);
        seen.push(current.clone());
    }
    assert_eq!(seen[3], seen[10]);
    assert_eq!(seen[4], seen[11]);
    let last = 3 + (1_000_000_000 - 3) % 7;
    assert_eq!(part2(grid, height, width), eval_grid(&seen[last], height, width));
}

fn borders(text: &str) -> Vec<usize> {
    let mut function = IncrementalPrefixFunction::default();
    for byte in text.bytes() {
        function.push(byte);
    }
    function.0.iter().map(|(_, border)| *border).collect()
}

#[test]
fn longest_borders_of_known_texts() {
    assert_eq!(borders(""), vec![]);
    assert_eq!(borders("a"), vec![0]);
    assert_eq!(borders("aaaa"), vec![0, 1, 2, 3]);
    assert_eq!(borders("abcabcd"), vec![0, 0, 0, 1, 2, 3, 0]);
    assert_eq!(borders("aabaaab"), vec![0, 1, 0, 1, 2, 2, 3]);
    assert_eq!(borders("abacabab"), vec![0, 0, 1, 0, 1, 2, 3, 2]);
}

#[test]
fn longest_borders_agree_with_a_search() {
    let text = b"abaababaabaababaababaabaab";
    let mut function = IncrementalPrefixFunction::default();
    for (pushed, &byte) in text.iter().enumerate() {
        function.push(byte);
        let so_far = &text[..=pushed];
        let longest = (0..so_far.len())
            .rev()
            .find(|&k| so_far[..k] == so_far[so_far.len() - k..])
            .unwrap();
        assert_eq!(function.0[pushed], (byte, longest));
        assert_eq!(function.cycle_len(), so_far.len() - longest);
    }
}

#[test]
fn least_periods() {
    let mut function = IncrementalPrefixFunction::default();
    assert_eq!(function.cycle_len(), 0);
    for state in [true, false, false, true, false, false, true, false] {
        function.push(state);
    }
    assert_eq!(function.cycle_len(), 3);
    function.push(true);
    assert_eq!(function.cycle_len(), 8);
    let mut steady = IncrementalPrefixFunction(Vec::new());
    for _ in 0..5 {
        steady.push(7u32);
    }
    assert_eq!(steady.cycle_len(), 1);
}

fn arrangements(records: &str, blocks: &[usize]) -> u64 {
    // a working spring in front, so that every block has one before it
    let mut padded = vec![b'.'];
    padded.extend_from_slice(records.as_bytes());
    count_valid_arrangements(&padded, blocks)
}

#[test]
fn arrangements_of_known_records() {
    assert_eq!(arrangements("???.###", &[1, 1, 3]), 1);
    assert_eq!(arrangements(".??..??...?##.", &[1, 1, 3]), 4);
    assert_eq!(arrangements("?#?#?#?#?#?#?#?", &[1, 3, 1, 6]), 1);
    assert_eq!(arrangements("????.#...#...", &[4, 1, 1]), 1);
    assert_eq!(arrangements("????.######..#####.", &[1, 6, 5]), 4);
    assert_eq!(arrangements("?###????????", &[3, 2, 1]), 10);
    assert_eq!(arrangements("", &[]), 1);
    assert_eq!(arrangements("", &[1]), 0);
    assert_eq!(arrangements("#", &[]), 0);
    assert_eq!(arrangements("?", &[]), 1);
    assert_eq!(arrangements("??", &[1]), 2);
    assert_eq!(arrangements("???", &[1, 1]), 1);
    assert_eq!(arrangements("?????", &[1, 1]), 6);
}

#[test]
fn arrangements_of_unfolded_records() {
    let unfold = |records: &str, blocks: &[usize]| {
        let records = vec![records; 5].join("?");
        let blocks = blocks.repeat(5);
        arrangements(&records, &blocks)
    };
    assert_eq!(unfold("???.###", &[1, 1, 3]), 1);
    assert_eq!(unfold(".??..??...?##.", &[1, 1, 3]), 16384);
    assert_eq!(unfold("????.######..#####.", &[1, 6, 5]), 2500);
    assert_eq!(unfold("?###????????", &[3, 2, 1]), 506250);
}

#[test]
fn arrangements_agree_with_trying_them_all() {
    let records = b".?#??.??#?.?";
    for blocks in [vec![], vec![1], vec![2, 1], vec![1, 2, 1], vec![3, 3], vec![2, 2, 1]] {
        let unknown: Vec<usize> = (0..records.len()).filter(|&i| records[i] == b'?').collect();
        let mut expected = 0;
        for choice in 0u32..1 << unknown.len() {
            let mut filled = records.to_vec();
            for (bit, &at) in unknown.iter().enumerate() {
                filled[at] = if choice >> bit & 1 == 1 { b'#' } else { b'.' };
            }
            let runs: Vec<usize> = filled
                .split(|&spring| spring == b'.')
                .map(|run| run.len())
                .filter(|&len| len > 0)
                .collect();
            if runs == blocks {
                expected += 1;
            }
        }
        assert_eq!(count_valid_arrangements(records, &blocks), expected);
    }
}

fn contraption() -> Vec<Vec<u8>> {
    pattern(&[
        r".|...\....",
        r"|.-.\.....",
        r".....|-...",
        r"........|.",
        r"..........",
        r".........\",
        r"..../.\\..",
        r".-.-/..|..",
        r".|....-|.\",
        r"..//.|....",
    ])
}

#[test]
fn beam_from_the_top_left_corner() {
    let grid = contraption();
    let indexing = GraphIndexing { width: 10, height: 10 };
    let adj = build_graph(indexing, &grid).unwrap();
    assert_eq!(adj.len(), indexing.total());
    let mut queue = std::collections::VecDeque::new();
    let mut seen = vec![0; indexing.total()];
    let start = indexing.index(0, 0, Edge::InWest);
    assert_eq!(run_bfs(&adj, indexing, start, &mut queue, &mut seen, 1), 46);
    assert!(queue.is_empty());
    assert_eq!(seen[start], 1);
    // the beam is turned down in the second column and never gets to the third
    assert_eq!(seen[indexing.index(2, 0, Edge::InWest)], 0);
}

#[test]
fn beams_from_every_side() {
    let grid = contraption();
    let indexing = GraphIndexing { width: 10, height: 10 };
    let adj = build_graph(indexing, &grid).unwrap();
    let mut queue = std::collections::VecDeque::new();
    let mut seen = vec![0; indexing.total()];
    let mut run = 0;
    let mut best = 0;
    for at in 0..10 {
        for (x, y, edge) in [
            (0, at, Edge::InWest),
            (9, at, Edge::InEast),
            (at, 0, Edge::InNorth),
            (at, 9, Edge::InSouth),
        ] {
            run += 1;
            let start = indexing.index(x, y, edge);
            best = best.max(run_bfs(&adj, indexing, start, &mut queue, &mut seen, run));
        }
    }
    assert_eq!(best, 51);
    let start = indexing.index(3, 0, Edge::InNorth);
    assert_eq!(run_bfs(&adj, indexing, start, &mut queue, &mut seen, run + 1), 51);
}

#[test]
fn crossings_lead_on_as_the_tiles_say() {
    let grid = pattern(&["-/", "|."]);
    let indexing = GraphIndexing { width: 2, height: 2 };
    let adj = build_graph(indexing, &grid).unwrap();
    let onward = |x, y, from| adj[indexing.index(x, y, from)].to_vec();
    let number = |x, y, edge| indexing.index(x, y, edge);
    // the flat splitter in the top left corner
    assert_eq!(onward(0, 0, Edge::InWest), vec![number(0, 0, Edge::OutEast)]);
    assert_eq!(onward(0, 0, Edge::InEast), vec![number(0, 0, Edge::OutWest)]);
    assert_eq!(
        onward(0, 0, Edge::InNorth),
        vec![number(0, 0, Edge::OutWest), number(0, 0, Edge::OutEast)]
    );
    assert_eq!(
        onward(0, 0, Edge::InSouth),
        vec![number(0, 0, Edge::OutWest), number(0, 0, Edge::OutEast)]
    );
    // the mirror in the top right corner
    assert_eq!(onward(1, 0, Edge::InWest), vec![number(1, 0, Edge::OutNorth)]);
    assert_eq!(onward(1, 0, Edge::InSouth), vec![number(1, 0, Edge::OutEast)]);
    // the upright splitter in the bottom left corner
    assert_eq!(
        onward(0, 1, Edge::InEast),
        vec![number(0, 1, Edge::OutNorth), number(0, 1, Edge::OutSouth)]
    );
    assert_eq!(onward(0, 1, Edge::InNorth), vec![number(0, 1, Edge::OutSouth)]);
    // empty space in the bottom right corner
    assert_eq!(onward(1, 1, Edge::InWest), vec![number(1, 1, Edge::OutEast)]);
    assert_eq!(onward(1, 1, Edge::InNorth), vec![number(1, 1, Edge::OutSouth)]);
    // a crossing out of the grid leads nowhere
    assert!(adj[number(1, 1, Edge::OutEast)].is_empty());
    assert!(adj[number(0, 0, Edge::OutWest)].is_empty());
    let used = adj.iter().filter(|slot| !slot.is_empty()).count();
    assert_eq!(used, 4 * 4);
}

#[test]
fn a_byte_that_is_no_tile_is_reported() {
    let indexing = GraphIndexing { width: 3, height: 2 };
    let built = build_graph(indexing, &pattern(&["..x", "y-."]));
    assert_eq!(built, Err(InvalidTile { tile: b'x' }));
    let built = build_graph(indexing, &pattern(&["..|", "#-?"]));
    assert_eq!(built, Err(InvalidTile { tile: b'#' }));
    let empty = build_graph(GraphIndexing { width: 0, height: 0 }, &[]).unwrap();
    assert!(empty.is_empty());
}

#[test]
fn ways_in_by_breadth_first_search() {
    const NONE: usize = usize::MAX;
    // 0 - 1 - 2 and 3 - 4 apart from them; the wire from 1 to 2 is cut on
    // the side of 1
    let adj = vec![
        vec![(1, 0)],
        vec![(0, 0), (2usize.wrapping_neg(), 0)],
        vec![(1, 1)],
        vec![(4, 0)],
        vec![(3, 0)],
    ];
    let mut queue = std::collections::VecDeque::new();
    let mut inc = vec![(0, 0); 5];
    wiring::run_bfs(&adj, &mut queue, &mut inc, 0);
    assert_eq!(inc, vec![(0, NONE), (0, 0), (NONE, NONE), (NONE, NONE), (NONE, NONE)]);
    assert!(queue.is_empty());
    wiring::run_bfs(&adj, &mut queue, &mut inc, 2);
    assert_eq!(inc, vec![(1, 0), (2, 0), (2, NONE), (NONE, NONE), (NONE, NONE)]);
    wiring::run_bfs(&adj, &mut queue, &mut inc, 4);
    assert_eq!(inc, vec![(NONE, NONE), (NONE, NONE), (NONE, NONE), (4, 0), (4, NONE)]);
    assert_eq!(wiring::NONE, NONE);
}

#[test]
fn breadth_first_search_takes_the_first_way_in() {
    const NONE: usize = usize::MAX;
    // a square 0 - 1 - 3 - 2 - 0 with a diagonal 0 - 3
    let adj = vec![
        vec![(1, 0), (2, 0), (3, 0)],
        vec![(0, 0), (3, 1)],
        vec![(0, 1), (3, 2)],
        vec![(1, 1), (2, 1), (0, 2)],
    ];
    let mut queue = std::collections::VecDeque::new();
    let mut inc = vec![(7, 7); 4];
    wiring::run_bfs(&adj, &mut queue, &mut inc, 0);
    assert_eq!(inc, vec![(0, NONE), (0, 0), (0, 1), (0, 2)]);
    wiring::run_bfs(&adj, &mut queue, &mut inc, 1);
    assert_eq!(inc, vec![(1, 0), (1, NONE), (0, 1), (1, 1)]);
}

fn graph(edges: &[(usize, usize)], weights: &[u16], start: usize, target: usize) -> Graph {
    let mut adj = [0; 128];
    for &(from, to) in edges {
        adj[from] |= 1 << to;
    }
    let mut node_weights = [0; 128];
    node_weights[..weights.len()].copy_from_slice(weights);
    Graph { num_nodes: weights.len(), adj, node_weights, start, target }
}

#[test]
fn neighbours_are_the_set_bits_in_ascending_order() {
    let mut wide = graph(&[(0, 5), (0, 1), (0, 127), (0, 64), (3, 0), (127, 126)], &[0; 4], 0, 3);
    assert_eq!(wide.neighbors(0, u128::MAX), vec![1, 5, 64, 127]);
    assert_eq!(wide.neighbors(0, !(1 << 5)), vec![1, 64, 127]);
    assert_eq!(wide.neighbors(0, 1 << 64 | 1 << 2), vec![64]);
    assert_eq!(wide.neighbors(0, 0), vec![]);
    assert_eq!(wide.neighbors(1, u128::MAX), vec![]);
    assert_eq!(wide.neighbors(3, u128::MAX), vec![0]);
    assert_eq!(wide.neighbors(127, u128::MAX), vec![126]);
    wide.adj[9] = u128::MAX;
    assert_eq!(wide.neighbors(9, u128::MAX), (0..128).collect::<Vec<_>>());
    assert_eq!(wide.neighbors(9, 1 << 127 | 1), vec![0, 127]);
}

#[test]
fn heaviest_walk_by_trying_them_all() {
    // 0 -> 1 -> 3 and 0 -> 2 -> 3, and back and forth between 1 and 2
    let edges = [(0, 1), (0, 2), (1, 3), (2, 3), (1, 2), (2, 1)];
    let hills = graph(&edges, &[1, 10, 20, 5], 0, 3);
    // 0, 1, 2, 3 and three edges
    assert_eq!(longest_path_brute_force(0, 0, &hills, 0), 1 + 10 + 20 + 5 + 3);
    assert_eq!(longest_path_brute_force(0, 100, &hills, 0), 100 + 39);
    // without node 2 only the way over node 1 is left
    assert_eq!(longest_path_brute_force(0, 0, &hills, 1 << 2), 1 + 10 + 5 + 2);
    assert_eq!(longest_path_brute_force(1, 0, &hills, 1), 10 + 20 + 5 + 2);
    assert_eq!(longest_path_brute_force(3, 7, &hills, 0), 7 + 5);
    // no way to the target
    assert_eq!(longest_path_brute_force(0, 0, &hills, 1 << 1 | 1 << 2), 0);
    assert_eq!(longest_path_brute_force(0, 0, &hills, 1 << 3), 0);
    let dead_end = graph(&[(0, 1)], &[1, 1, 1], 0, 2);
    assert_eq!(longest_path_brute_force(0, 0, &dead_end, 0), 0);
    // an edge from a node to itself can be gone along once, as the node is
    // only kept off once it has been left
    let turning = graph(&[(0, 0), (0, 1)], &[2, 3], 0, 1);
    assert_eq!(longest_path_brute_force(0, 0, &turning, 0), 2 + 1 + 2 + 1 + 3);
    assert_eq!(longest_path_brute_force(0, 0, &turning, 1), 2 + 1 + 3);
}

#[test]
fn numbers_in_decimal() {
    assert_eq!(parse_u64(b"0"), Some(0));
    assert_eq!(parse_u64(b"7"), Some(7));
    assert_eq!(parse_u64(b"+7"), Some(7));
    assert_eq!(parse_u64(b"007"), Some(7));
    assert_eq!(parse_u64(b"1234567890"), Some(1234567890));
    assert_eq!(parse_u64(b"18446744073709551615"), Some(u64::MAX));
    assert_eq!(parse_u64(b"00000000000000000000000000018446744073709551615"), Some(u64::MAX));
    assert_eq!(parse_u64(b"18446744073709551616"), None);
    assert_eq!(parse_u64(b"99999999999999999999"), None);
    assert_eq!(parse_u64(b"184467440737095516150"), None);
    assert_eq!(parse_u64(b""), None);
    assert_eq!(parse_u64(b"+"), None);
    assert_eq!(parse_u64(b"-"), None);
    assert_eq!(parse_u64(b"-7"), None);
    assert_eq!(parse_u64(b"++7"), None);
    assert_eq!(parse_u64(b"7+"), None);
    assert_eq!(parse_u64(b"7 "), None);
    assert_eq!(parse_u64(b" 7"), None);
    assert_eq!(parse_u64(b"7a"), None);
    assert_eq!(parse_u64(b"0x7"), None);
    assert_eq!(parse_u64(b"/"), None);
    assert_eq!(parse_u64(b":"), None);
}

#[test]
fn numbers_agree_with_the_standard_library() {
    for text in ["0", "+0", "42", "+42", "-42", "4 2", "", "+", "18446744073709551615",
        "18446744073709551616", "000", "1e3", "١٢٣", "12_3"]
    {
        assert_eq!(parse_u64(text.as_bytes()), text.parse::<u64>().ok());
    }
}

#[test]
fn lines_of_numbers() {
    assert_eq!(read_line("Time:      7  15   30"), Ok(vec![7, 15, 30]));
    assert_eq!(read_line("Distance:  9  40  200"), Ok(vec![9, 40, 200]));
    assert_eq!(read_line(":"), Ok(vec![]));
    assert_eq!(read_line("x:   "), Ok(vec![]));
    assert_eq!(read_line(":1"), Ok(vec![1]));
    assert_eq!(read_line("a b: +5\t6\r\n"), Ok(vec![5, 6]));
    assert_eq!(read_line("a:1\x0c2"), Ok(vec![1, 2]));
    assert_eq!(read_line("12: 18446744073709551615 0"), Ok(vec![u64::MAX, 0]));
    // only the first colon sets the numbers apart from what is before them
    assert_eq!(read_line("a: 1 : 2"), Err(ReadError::NotANumber));
    assert_eq!(read_line("a: 1:2"), Err(ReadError::NotANumber));
    assert_eq!(read_line("a: 1 -2"), Err(ReadError::NotANumber));
    assert_eq!(read_line("a: 1 18446744073709551616"), Err(ReadError::NotANumber));
    assert_eq!(read_line("a: x"), Err(ReadError::NotANumber));
    assert_eq!(read_line("a: 1\u{a0}2"), Err(ReadError::NotANumber));
    assert_eq!(read_line("a: 1\x0b2"), Err(ReadError::NotANumber));
    assert_eq!(read_line(""), Err(ReadError::NoColon));
    assert_eq!(read_line("1 2 3"), Err(ReadError::NoColon));
}

#[test]
fn heaviest_walk_through_a_graph_without_cycles() {
    // 0 -> 1 -> 3, 0 -> 2 -> 3 and 1 -> 2
    let edges = [(0, 1), (0, 2), (1, 3), (2, 3), (1, 2)];
    let hills = graph(&edges, &[1, 10, 20, 5], 0, 3);
    let mut known = vec![UNKNOWN; 4];
    known[3] = 5;
    // 3 from 2 is 5 + 1 + 20, 2 from 1 is 26 + 1 + 10, 1 from 0 is 37 + 1 + 1
    assert_eq!(dag_dfs(0, &hills, &mut known), 39);
    assert_eq!(known, vec![39, 37, 26, 5]);
    // what is known is taken as it is
    let mut known = vec![UNKNOWN, 100, UNKNOWN, 5];
    assert_eq!(dag_dfs(0, &hills, &mut known), 102);
    assert_eq!(known, vec![102, 100, 26, 5]);
    let mut known = vec![UNKNOWN, UNKNOWN, UNKNOWN, 5];
    assert_eq!(dag_dfs(2, &hills, &mut known), 26);
    assert_eq!(known, vec![UNKNOWN, UNKNOWN, 26, 5]);
    assert_eq!(dag_dfs(3, &hills, &mut known), 5);
    // a node without an edge and without a known weight weighs nothing
    let mut known = vec![UNKNOWN; 4];
    assert_eq!(dag_dfs(3, &hills, &mut known), 0);
    assert_eq!(dag_dfs(0, &hills, &mut known), 1 + 1 + 10 + 1 + 20 + 1);
    assert_eq!(known, vec![34, 32, 21, 0]);
    assert_eq!(UNKNOWN, u16::MAX);
}

#[test]
fn both_ways_of_finding_the_heaviest_walk_agree() {
    let edges = [(0, 1), (0, 2), (1, 3), (2, 3), (1, 2), (3, 4), (2, 4), (0, 4)];
    let hills = graph(&edges, &[3, 1, 4, 1, 5], 0, 4);
    let mut known = vec![UNKNOWN; 5];
    known[4] = hills.node_weights[4];
    let by_table = dag_dfs(0, &hills, &mut known);
    assert_eq!(by_table, longest_path_brute_force(0, 0, &hills, 0));
    assert_eq!(by_table, 3 + 1 + 4 + 1 + 5 + 4);
}

/// The tiles that each pipe of a sketch joins, where the start is the
/// pipe that `under_start` names.
fn field(rows: &[&str], under_start: u8) -> (Vec<Vec<pipes::Tile>>, (usize, usize)) {
    let mut start = (0, 0);
    let graph = rows
        .iter()
        .enumerate()
        .map(|(y, row)| {
            row.bytes()
                .enumerate()
                .map(|(x, mut pipe)| {
                    if pipe == b'S' {
                        start = (y, x);
                        pipe = under_start;
                    }
                    match pipe {
                        b'|' => Some([(y.wrapping_sub(1), x), (y + 1, x)]),
                        b'-' => Some([(y, x.wrapping_sub(1)), (y, x + 1)]),
                        b'L' => Some([(y.wrapping_sub(1), x), (y, x + 1)]),
                        b'J' => Some([(y.wrapping_sub(1), x), (y, x.wrapping_sub(1))]),
                        b'7' => Some([(y + 1, x), (y, x.wrapping_sub(1))]),
                        b'F' => Some([(y + 1, x), (y, x + 1)]),
                        _ => None,
                    }
                })
                .collect()
        })
        .collect();
    (graph, start)
}

#[test]
fn furthest_tile_of_a_loop_of_pipes() {
    let (graph, start) = field(&[".....", ".S-7.", ".|.|.", ".L-J.", "....."], b'F');
    let (furthest, seen) = pipes::part1(&graph, start);
    assert_eq!(furthest, 4);
    let marked: Vec<String> = seen
        .iter()
        .map(|row| row.iter().map(|&mark| if mark { '#' } else { '.' }).collect())
        .collect();
    assert_eq!(marked, vec![".....", ".###.", ".#.#.", ".###.", "....."]);

    let (graph, start) = field(&["..F7.", ".FJ|.", "SJ.L7", "|F--J", "LJ..."], b'F');
    let (furthest, seen) = pipes::part1(&graph, start);
    assert_eq!(furthest, 8);
    assert_eq!(seen.iter().flatten().filter(|&&mark| mark).count(), 16);
    assert!(!seen[0][0]);
    assert!(seen[2][0]);
}

#[test]
fn a_loop_of_pipes_beside_another() {
    // two loops of four tiles side by side
    let (graph, start) = field(&["F7F7", "LJLS"], b'J');
    let (furthest, seen) = pipes::part1(&graph, start);
    assert_eq!(furthest, 2);
    assert_eq!(seen, vec![vec![false, false, true, true], vec![false, false, true, true]]);
    // the other loop from one of its own tiles
    let (furthest, seen) = pipes::part1(&graph, (0, 0));
    assert_eq!(furthest, 2);
    assert_eq!(seen, vec![vec![true, true, false, false], vec![true, true, false, false]]);
}

/// The number of tiles that the loop through the start of a sketch
/// encloses.
fn enclosed(rows: &[&str], under_start: u8) -> usize {
    let (graph, start) = field(rows, under_start);
    let (_, on_loop) = pipes::part1(&graph, start);
    enclosure::part2(&graph, &on_loop).unwrap()
}

#[test]
fn tiles_enclosed_by_a_loop() {
    assert_eq!(enclosed(&["F-7", "|.|", "L-S"], b'J'), 1);
    assert_eq!(enclosed(&["S7", "LJ"], b'F'), 0);
    assert_eq!(
        enclosed(
            &[
                "...........",
                ".S-------7.",
                ".|F-----7|.",
                ".||.....||.",
                ".||.....||.",
                ".|L-7.F-J|.",
                ".|..|.|..|.",
                ".L--J.L--J.",
                "...........",
            ],
            b'F'
        ),
        4
    );
}

#[test]
fn water_squeezes_between_pipes() {
    assert_eq!(
        enclosed(
            &[
                "..........",
                ".S------7.",
                ".|F----7|.",
                ".||....||.",
                ".||....||.",
                ".|L-7F-J|.",
                ".|..||..|.",
                ".L--JL--J.",
                "..........",
            ],
            b'F'
        ),
        4
    );
    assert_eq!(
        enclosed(
            &[
                ".F----7F7F7F7F-7....",
                ".|F--7||||||||FJ....",
                ".||.FJ||||||||L7....",
                "FJL7L7LJLJ||LJ.L-7..",
                "L--J.L7...LJS7F-7L7.",
                "....F-J..F7FJ|L7L7L7",
                "....L7.F7||L7|.L7L7|",
                ".....|FJLJ|FJ|F7|.LJ",
                "....FJL-7.||.||||...",
                "....L---J.LJ.LJLJ...",
            ],
            b'F'
        ),
        8
    );
}

#[test]
fn pipes_off_the_loop_count_as_tiles() {
    assert_eq!(enclosed(&["7-F7-", "LFJ|7", "SJLL7", "|F--J", "LJ.LJ"], b'F'), 1);
    assert_eq!(enclosed(&["F----7", "|F--7|", "||JL||", "|L--J|", "S----J"], b'L'), 12);
    assert_eq!(enclosed(&["F--7", "|F7|", "|LJ|", "L--S"], b'J'), 4);
}

#[test]
fn nothing_is_enclosed_without_a_loop() {
    let (graph, _) = field(&["F-7", "|.|", "L-J"], b'.');
    let on_loop = vec![vec![false; 3]; 3];
    assert_eq!(enclosure::part2(&graph, &on_loop), Ok(0));
    let bare: Vec<Vec<pipes::Tile>> = vec![vec![None; 4]; 2];
    assert_eq!(enclosure::part2(&bare, &vec![vec![true; 4]; 2]), Ok(0));
}

#[test]
fn a_pipe_that_leads_away_from_its_tile() {
    let graph: Vec<Vec<pipes::Tile>> = vec![vec![None, Some([(0, 0), (5, 5)])]];
    let fault = enclosure::InvalidNeighbor { tile: (0, 1), neighbor: (5, 5) };
    assert_eq!(enclosure::part2(&graph, &[vec![true, true]]), Err(fault));
    // off the loop the pipe is not looked at
    assert_eq!(enclosure::part2(&graph, &[vec![true, false]]), Ok(0));
    // the first faulty end of the first faulty tile is named
    let graph: Vec<Vec<pipes::Tile>> =
        vec![vec![Some([(0, 1), (1, 0)])], vec![Some([(3, 0), (1, 0)])], vec![Some([(9, 9), (8, 8)])]];
    let fault = enclosure::InvalidNeighbor { tile: (0, 0), neighbor: (0, 1) };
    assert_eq!(enclosure::part2(&graph, &[vec![false], vec![true], vec![true]]).unwrap_err().tile, (1, 0));
    assert_eq!(
        enclosure::part2(&graph, &[vec![false], vec![true], vec![true]]).unwrap_err().neighbor,
        (3, 0)
    );
    assert_ne!(enclosure::part2(&graph, &[vec![true], vec![true], vec![true]]), Err(fault));
}

fn lines_of(rows: &[&str]) -> Vec<Vec<u8>> {
    rows.iter().map(|row| row.as_bytes().to_vec()).collect()
}

#[test]
fn a_sketch_of_pipes_is_read() {
    let rows = [".....", ".S-7.", ".|.|.", ".L-J.", "....."];
    let (graph, start) = parse_graph(&lines_of(&rows)).unwrap();
    assert_eq!(start, (1, 1));
    // the pipe under the start leads down and right, in the order in which
    // the tiles around it are looked at
    assert_eq!(graph[1][1], Some([(2, 1), (1, 2)]));
    assert_eq!(graph, {
        let (mut drawn, _) = field(&rows, b'F');
        drawn[1][1] = Some([(2, 1), (1, 2)]);
        drawn
    });
    assert_eq!(graph[0][0], None);
    assert_eq!(graph[1][2], Some([(1, 1), (1, 3)]));
    assert_eq!(graph[1][3], Some([(2, 3), (1, 2)]));
    assert_eq!(graph[2][1], Some([(1, 1), (3, 1)]));
    assert_eq!(graph[3][1], Some([(2, 1), (3, 2)]));
    assert_eq!(graph[3][3], Some([(2, 3), (3, 2)]));

    let (furthest, on_loop) = pipes::part1(&graph, start);
    assert_eq!(furthest, 4);
    assert_eq!(enclosure::part2(&graph, &on_loop), Ok(1));
}

#[test]
fn pipes_at_the_edge_of_a_sketch_lead_out_of_it() {
    let (graph, start) = parse_graph(&lines_of(&["S7", "LJ"])).unwrap();
    assert_eq!(start, (0, 0));
    assert_eq!(graph[0][0], Some([(1, 0), (0, 1)]));
    assert_eq!(graph[0][1], Some([(1, 1), (0, 0)]));
    let (graph, _) = parse_graph(&lines_of(&["-S-", "|.|"])).unwrap();
    assert_eq!(graph[0][0], Some([(0, usize::MAX), (0, 1)]));
    assert_eq!(graph[0][1], Some([(0, 0), (0, 2)]));
    assert_eq!(graph[1][1], None);
    assert_eq!(graph[1][0], Some([(0, 0), (2, 0)]));
    // rows need not be of one length
    let (graph, start) = parse_graph(&lines_of(&["F", "S.", "L-7"])).unwrap();
    assert_eq!(start, (1, 0));
    assert_eq!(graph[1][0], Some([(0, 0), (2, 0)]));
    assert_eq!(graph.iter().map(|row| row.len()).collect::<Vec<_>>(), vec![1, 2, 3]);
}

#[test]
fn faults_of_a_sketch() {
    assert_eq!(parse_graph(&lines_of(&["F7", "LJ"])), Err(SketchError::NoStart));
    assert_eq!(parse_graph(&[]), Err(SketchError::NoStart));
    assert_eq!(parse_graph(&lines_of(&["S7", "LS"])), Err(SketchError::MultipleStarts));
    assert_eq!(parse_graph(&lines_of(&["Sx", "LJ"])), Err(SketchError::InvalidTile(b'x')));
    // the first fault in reading order is named
    assert_eq!(parse_graph(&lines_of(&["S7", "?S"])), Err(SketchError::InvalidTile(b'?')));
    assert_eq!(parse_graph(&lines_of(&["SS", "?J"])), Err(SketchError::MultipleStarts));
    assert_eq!(parse_graph(&lines_of(&["a", "b"])), Err(SketchError::InvalidTile(b'a')));
    // three pipes lead to the start, or one, or none
    assert_eq!(parse_graph(&lines_of(&[".|.", "-S-"])), Err(SketchError::StartNeighbors));
    assert_eq!(parse_graph(&lines_of(&["S-"])), Err(SketchError::StartNeighbors));
    assert_eq!(parse_graph(&lines_of(&["S"])), Err(SketchError::StartNeighbors));
    assert_eq!(parse_graph(&lines_of(&["...", ".S7"])), Err(SketchError::StartNeighbors));
    assert_eq!(parse_graph(&lines_of(&["-S-", "|||"])), Err(SketchError::StartNeighbors));
}

#[test]
fn points_written_as_text() {
    assert_eq!(Point::from_str("1,2,3"), Ok(Point { x: 1, y: 2, z: 3 }));
    assert_eq!(Point::from_str("0,0,0"), Ok(Point { x: 0, y: 0, z: 0 }));
    assert_eq!(Point::from_str("9,9,123456"), Ok(Point { x: 9, y: 9, z: 123456 }));
    assert_eq!(Point::from_str("+1,02,+003"), Ok(Point { x: 1, y: 2, z: 3 }));
    assert_eq!(Point::from_str(""), Err(PointError::WrongCount));
    assert_eq!(Point::from_str("1"), Err(PointError::WrongCount));
    assert_eq!(Point::from_str("1,2"), Err(PointError::WrongCount));
    assert_eq!(Point::from_str("1,2,3,4"), Err(PointError::WrongCount));
    assert_eq!(Point::from_str("1,2,3,"), Err(PointError::WrongCount));
    assert_eq!(Point::from_str("x,y,z,w"), Err(PointError::WrongCount));
    assert_eq!(Point::from_str(",,"), Err(PointError::NotANumber));
    assert_eq!(Point::from_str("1,2,"), Err(PointError::NotANumber));
    assert_eq!(Point::from_str("a,2,3"), Err(PointError::NotANumber));
    assert_eq!(Point::from_str("1, 2,3"), Err(PointError::NotANumber));
    assert_eq!(Point::from_str("1,2,-3"), Err(PointError::NotANumber));
    assert_eq!(Point::from_str("1,2,99999999999999999999"), Err(PointError::NotANumber));
    assert_eq!(Point::from_str("10,2,3"), Err(PointError::XOutOfRange));
    assert_eq!(Point::from_str("1,10,3"), Err(PointError::YOutOfRange));
    assert_eq!(Point::from_str("10,10,3"), Err(PointError::XOutOfRange));
    // the first fault counts: numbers before ranges, the third number last
    assert_eq!(Point::from_str("10,y,3"), Err(PointError::NotANumber));
    assert_eq!(Point::from_str("10,2,z"), Err(PointError::XOutOfRange));
    assert_eq!(Point::from_str("1,10,z"), Err(PointError::YOutOfRange));
    assert_eq!(Point::from_str("1,2,z"), Err(PointError::NotANumber));
    assert!(Point { x: 1, y: 2, z: 3 } < Point { x: 1, y: 3, z: 0 });
    assert_eq!(Point::default(), Point { x: 0, y: 0, z: 0 });
}

#[test]
fn ratings_written_as_text() {
    assert_eq!(Category::from_str("x"), Ok(Category::ExtremlyGoodLooking));
    assert_eq!(Category::from_str("m"), Ok(Category::Musical));
    assert_eq!(Category::from_str("a"), Ok(Category::Aerodynamic));
    assert_eq!(Category::from_str("s"), Ok(Category::Shiny));
    assert_eq!(Category::from_str(""), Err(InvalidCategory));
    assert_eq!(Category::from_str("X"), Err(InvalidCategory));
    assert_eq!(Category::from_str("xm"), Err(InvalidCategory));
    assert_eq!(Category::from_str("z"), Err(InvalidCategory));
    assert_eq!(Category::from_str("é"), Err(InvalidCategory));
}

#[test]
fn state_of_a_system_of_modules() {
    let mut system = System {
        types: vec![ModuleType::Broadcast, ModuleType::FlipFlop, ModuleType::Conjunction],
        wires: vec![vec![(1, 0)], vec![(2, 0)], vec![]],
        state_offsets: vec![0, 0, 1, 2],
        broadcast_module: 0,
    };
    assert_eq!(system.state_len(), 2);
    system.state_offsets.push(7);
    assert_eq!(system.state_len(), 7);
    system.state_offsets.clear();
    assert_eq!(system.state_len(), 0);
}

#[test]
fn pulses_after_a_press_of_the_button() {
    // the broadcaster sends to three flip-flops in a row, the last of which
    // sends to an inverter that sends back to the first
    let system = System {
        types: vec![
            ModuleType::Broadcast,
            ModuleType::FlipFlop,
            ModuleType::FlipFlop,
            ModuleType::FlipFlop,
            ModuleType::Conjunction,
        ],
        wires: vec![
            vec![(1, 0), (2, 0), (3, 0)],
            vec![(2, 1)],
            vec![(3, 1)],
            vec![(4, 0)],
            vec![(1, 1)],
        ],
        state_offsets: vec![0, 0, 1, 2, 3, 4],
        broadcast_module: 0,
    };
    let mut state = vec![false; system.state_len()];
    let mut queue = std::collections::VecDeque::new();
    assert_eq!(system.simulate_cycle(&mut state, &mut queue), [8, 4]);
    assert_eq!(state, vec![false, false, false, false]);
    assert!(queue.is_empty());
    assert_eq!(system.simulate_cycle(&mut state, &mut queue), [8, 4]);
}

#[test]
fn pulses_of_a_system_that_comes_back_after_four_presses() {
    // broadcaster -> a; %a -> inv, con; &inv -> b; %b -> con; &con -> output
    let system = System {
        types: vec![
            ModuleType::Broadcast,
            ModuleType::FlipFlop,
            ModuleType::Conjunction,
            ModuleType::Conjunction,
            ModuleType::FlipFlop,
            ModuleType::Broadcast,
        ],
        wires: vec![
            vec![(1, 0)],
            vec![(2, 0), (3, 0)],
            vec![(4, 0)],
            vec![(5, 0)],
            vec![(3, 1)],
            vec![],
        ],
        // a holds one place, inv one, con two, b one, and the output none
        state_offsets: vec![0, 0, 1, 2, 4, 5, 5],
        broadcast_module: 0,
    };
    let mut state = vec![false; system.state_len()];
    let mut queue = std::collections::VecDeque::new();
    assert_eq!(system.simulate_cycle(&mut state, &mut queue), [4, 4]);
    assert_eq!(state, vec![true, true, true, true, true]);
    assert_eq!(system.simulate_cycle(&mut state, &mut queue), [4, 2]);
    assert_eq!(system.simulate_cycle(&mut state, &mut queue), [5, 3]);
    assert_eq!(system.simulate_cycle(&mut state, &mut queue), [4, 2]);
    assert_eq!(state, vec![false; 5]);
    let mut low = 0;
    let mut high = 0;
    for _ in 0..1000 {
        let [more_low, more_high] = system.simulate_cycle(&mut state, &mut queue);
        low += more_low;
        high += more_high;
    }
    assert_eq!((low, high), (4250, 2750));
}

#[test]
fn labels_are_numbered_as_they_are_met() {
    let mut labels = LabelCompression::new();
    assert_eq!(labels.len(), 0);
    assert_eq!(labels.find(b"jqt"), None);
    assert_eq!(labels.get("jqt"), 0);
    assert_eq!(labels.get("rhn"), 1);
    assert_eq!(labels.get("jqt"), 0);
    assert_eq!(labels.len(), 2);
    assert_eq!(labels.get(""), 2);
    assert_eq!(labels.number(b"rhn"), 1);
    assert_eq!(labels.number(b"xhk"), 3);
    assert_eq!(labels.find(b"xhk"), Some(3));
    assert_eq!(labels.find(b"xh"), None);
    assert_eq!(labels.len(), 4);
    assert_eq!(LabelCompression::default().len(), 0);
}

#[test]
fn a_system_of_modules_is_read() {
    let system =
        System::from_str("broadcaster -> a, b, c\n%a -> b\n%b -> c\n%c -> inv\n&inv -> a\n").unwrap();
    assert_eq!(
        system.types,
        vec![
            ModuleType::Broadcast,
            ModuleType::FlipFlop,
            ModuleType::FlipFlop,
            ModuleType::FlipFlop,
            ModuleType::Conjunction,
        ]
    );
    assert_eq!(
        system.wires,
        vec![vec![(1, 0), (2, 0), (3, 0)], vec![(2, 1)], vec![(3, 1)], vec![(4, 0)], vec![(1, 1)]]
    );
    assert_eq!(system.state_offsets, vec![0, 0, 1, 2, 3, 4]);
    assert_eq!(system.broadcast_module, 0);
    let mut state = vec![false; system.state_len()];
    let mut queue = std::collections::VecDeque::new();
    assert_eq!(system.simulate_cycle(&mut state, &mut queue), [8, 4]);
}

#[test]
fn modules_are_numbered_as_their_labels_are_met() {
    // no newline at the end, carriage returns before the others
    let text = "%a -> inv, con\r\n&inv -> b\r\nbroadcaster -> a\r\n%b -> con\r\n&con -> output";
    let system = System::from_str(text).unwrap();
    // a 0, inv 1, con 2, b 3, broadcaster 4, output 5
    assert_eq!(
        system.types,
        vec![
            ModuleType::FlipFlop,
            ModuleType::Conjunction,
            ModuleType::Conjunction,
            ModuleType::FlipFlop,
            ModuleType::Broadcast,
            ModuleType::Broadcast,
        ]
    );
    assert_eq!(
        system.wires,
        vec![vec![(1, 0), (2, 0)], vec![(3, 0)], vec![(5, 0)], vec![(2, 1)], vec![(0, 0)], vec![]]
    );
    assert_eq!(system.state_offsets, vec![0, 1, 2, 4, 5, 5, 5]);
    assert_eq!(system.broadcast_module, 4);
    let mut state = vec![false; system.state_len()];
    let mut queue = std::collections::VecDeque::new();
    let mut low = 0;
    let mut high = 0;
    for _ in 0..1000 {
        let [more_low, more_high] = system.simulate_cycle(&mut state, &mut queue);
        low += more_low;
        high += more_high;
    }
    assert_eq!((low, high), (4250, 2750));
}

#[test]
fn odd_systems_of_modules() {
    // the later of two lines for one module counts, but the wires of both
    // arrive
    let system = System::from_str("broadcaster -> x\n&x -> x\n%x -> broadcaster, x").unwrap();
    assert_eq!(system.types, vec![ModuleType::Broadcast, ModuleType::FlipFlop]);
    assert_eq!(system.wires, vec![vec![(1, 0)], vec![(0, 0), (1, 2)]]);
    assert_eq!(system.state_offsets, vec![0, 0, 1]);
    // a module that only receives is enough to be the broadcaster
    let system = System::from_str("%a -> broadcaster").unwrap();
    assert_eq!(system.broadcast_module, 1);
    assert_eq!(system.types, vec![ModuleType::FlipFlop, ModuleType::Broadcast]);
    assert_eq!(system.state_offsets, vec![0, 1, 1]);
    // labels may be empty, and a comma without a space parts nothing
    let system = System::from_str("broadcaster -> , a,b, ").unwrap();
    assert_eq!(system.wires, vec![vec![(1, 0), (2, 0), (1, 1)], vec![], vec![]]);
    // only the first arrow of a line parts it
    let system = System::from_str("broadcaster -> a -> b").unwrap();
    assert_eq!(system.wires, vec![vec![(1, 0)], vec![]]);
}

#[test]
fn faults_of_a_system_of_modules() {
    assert_eq!(System::from_str("").unwrap_err(), SystemError::NoBroadcaster);
    assert_eq!(System::from_str("%a -> b\n&b -> a\n").unwrap_err(), SystemError::NoBroadcaster);
    assert_eq!(System::from_str("%broadcaster -> b").unwrap().broadcast_module, 0);
    assert_eq!(System::from_str("broadcaster -> a\n%a-> b").unwrap_err(), SystemError::InvalidModule);
    assert_eq!(System::from_str("broadcaster -> a\n\n%a -> b").unwrap_err(), SystemError::InvalidModule);
    assert_eq!(System::from_str("\n").unwrap_err(), SystemError::InvalidModule);
    assert_eq!(System::from_str("broadcaster").unwrap_err(), SystemError::InvalidModule);
    // a carriage return alone ends no line
    assert_eq!(System::from_str("broadcaster -> a\r%a -> b").unwrap().wires[0], vec![(1, 0)]);
}

const HIKE: &str = "\
#.#####################
#.......#########...###
#######.#########.#.###
###.....#.>.>.###.#.###
###v#####.#v#.###.#.###
###.>...#.#.#.....#...#
###v###.#.#.#########.#
###...#.#.#.......#...#
#####.#.#.#######.#.###
#.....#.#.#.......#...#
#.#####.#.#.#########v#
#.#...#...#...###...>.#
#.#.#v#######v###.###v#
#...#.>.#...>.>.#.###.#
#####v#.#.###v#.#.###.#
#.....#...#...#.#.#...#
#.#########.###.#.#.###
#...###...#...#...#.###
###.###.#.###v#####v###
#...#...#.#.>.>.#.>.###
#.###.###.#.###.#.#v###
#.....###...###...#...#
#####################.#
";

#[test]
fn a_map_of_trails_is_read() {
    let graph = Graph::from_str(HIKE).unwrap();
    assert_eq!(graph.num_nodes, 19);
    assert_eq!((graph.start, graph.target), (0, 18));
    assert_eq!(
        &graph.node_weights[..19],
        &[14, 19, 1, 27, 1, 21, 19, 15, 1, 1, 9, 1, 7, 35, 7, 1, 7, 1, 4]
    );
    assert_eq!(
        &graph.adj[..19],
        &[
            16, 4, 40, 256, 66, 2048, 512, 256, 4096, 9216, 2048, 16512, 131072, 32768, 32768,
            65536, 131072, 262144, 0
        ]
    );
    assert!(graph.node_weights[19..].iter().all(|&weight| weight == 0));
    assert!(graph.adj[19..].iter().all(|&edges| edges == 0));

    // the longest way down the slopes
    let mut longest_path = vec![UNKNOWN; graph.num_nodes];
    longest_path[graph.target] = graph.node_weights[graph.target];
    assert_eq!(dag_dfs(graph.start, &graph, &mut longest_path) - 1, 94);

    // and the longest way where the slopes can be climbed
    let mut both_ways = graph.clone();
    for v in 0..graph.num_nodes {
        for v2 in graph.neighbors(v, u128::MAX) {
            both_ways.adj[v2] |= 1 << v;
        }
    }
    assert_eq!(longest_path_brute_force(both_ways.start, 0, &both_ways, 0) - 1, 154);
}

#[test]
fn small_maps_of_trails() {
    let graph = Graph::from_str("#.#\n#.#\n#.#").unwrap();
    assert_eq!((graph.num_nodes, graph.start, graph.target), (1, 0, 0));
    assert_eq!(graph.node_weights[0], 3);
    assert_eq!(graph.adj, [0; 128]);

    let graph = Graph::from_str("#.#\r\n#v#\r\n#.#\r\n").unwrap();
    assert_eq!((graph.num_nodes, graph.start, graph.target), (2, 0, 1));
    assert_eq!(&graph.node_weights[..3], &[1, 1, 0]);
    assert_eq!(&graph.adj[..3], &[1 << 1, 0, 0]);

    let graph = Graph::from_str("#.#\n#^#\n#.#").unwrap();
    assert_eq!(&graph.adj[..3], &[0, 1 << 0, 0]);

    // two trails round a corner with a slope between them
    let graph = Graph::from_str("..#..\n#.>.#").unwrap();
    assert_eq!((graph.num_nodes, graph.start, graph.target), (2, 0, 0));
    assert_eq!(&graph.node_weights[..3], &[3, 3, 0]);
    assert_eq!(&graph.adj[..3], &[1 << 1, 0, 0]);

    // slopes to both sides of a single tile
    let graph = Graph::from_str(".<.>.\n#####\n.>.<.").unwrap();
    assert_eq!((graph.num_nodes, graph.start, graph.target), (6, 0, 3));
    assert_eq!(&graph.node_weights[..7], &[1, 1, 1, 1, 1, 1, 0]);
    assert_eq!(&graph.adj[..7], &[0, 1 << 0 | 1 << 2, 0, 1 << 4, 0, 1 << 4, 0]);

    // a tile with two trails next to it is no end
    let graph = Graph::from_str(".#...\n##.#.\n.#...").unwrap();
    assert_eq!((graph.num_nodes, graph.start, graph.target), (2, 0, 1));
    assert_eq!(&graph.node_weights[..3], &[1, 1, 0]);
}

#[test]
fn faults_of_a_map_of_trails() {
    assert_eq!(Graph::from_str("").unwrap_err(), MapError::Empty);
    assert_eq!(Graph::from_str("#.#\n##\n").unwrap_err(), MapError::Ragged);
    assert_eq!(Graph::from_str("#.#\n\n#.#").unwrap_err(), MapError::Ragged);
    assert_eq!(Graph::from_str(">.#").unwrap_err(), MapError::SlopeUnconnected);
    assert_eq!(Graph::from_str(".>").unwrap_err(), MapError::SlopeUnconnected);
    assert_eq!(Graph::from_str(".>#").unwrap_err(), MapError::SlopeUnconnected);
    assert_eq!(Graph::from_str("#v#\n#.#").unwrap_err(), MapError::SlopeUnconnected);
    assert_eq!(Graph::from_str("#.#\n#^#").unwrap_err(), MapError::SlopeUnconnected);
    // the slope lies beside the middle of a trail
    assert_eq!(Graph::from_str("...\n#^#\n#.#").unwrap_err(), MapError::SlopeUnconnected);
    assert_eq!(Graph::from_str("###\n#.#").unwrap_err(), MapError::NoStart);
    assert_eq!(Graph::from_str("#.#\n###").unwrap_err(), MapError::NoTarget);
    assert_eq!(Graph::from_str("###").unwrap_err(), MapError::NoStart);
    // a ring of trails has no end
    assert_eq!(Graph::from_str(".....\n.###.\n.....").unwrap_err(), MapError::NoStart);
    assert_eq!(Graph::from_str(".#.\n.v.\n...").unwrap_err(), MapError::SlopeUnconnected);
}

#[test]
fn maps_of_trails_at_their_limits() {
    let many = ".#".repeat(128);
    let graph = Graph::from_str(&many).unwrap();
    assert_eq!(graph.num_nodes, 128);
    assert_eq!(graph.node_weights, [1; 128]);
    assert_eq!(Graph::from_str(&".#".repeat(129)).unwrap_err(), MapError::TooManyNodes);

    let long = ".".repeat(65535);
    let graph = Graph::from_str(&long).unwrap();
    assert_eq!((graph.num_nodes, graph.node_weights[0]), (1, 65535));
    assert_eq!(Graph::from_str(&".".repeat(65536)).unwrap_err(), MapError::TooLong);
}

#[test]
fn distances_between_galaxies() {
    let mut sky = vec![[3, 0], [7, 1], [0, 2], [6, 4], [1, 5], [9, 6], [7, 8], [0, 9], [4, 9]];
    assert_eq!(galaxies::solve(&mut sky), [374, 82000210]);
    // the galaxies are left in the order of their second coordinate
    assert_eq!(sky.iter().map(|galaxy| galaxy[1]).collect::<Vec<_>>(), vec![0, 1, 2, 4, 5, 6, 8, 9, 9]);
    let mut again = sky.clone();
    again.reverse();
    assert_eq!(galaxies::solve(&mut again), [374, 82000210]);

    assert_eq!(galaxies::solve(&mut []), [0, 0]);
    assert_eq!(galaxies::solve(&mut [[5, 5]]), [0, 0]);
    assert_eq!(galaxies::solve(&mut [[0, 0], [1, 0]]), [1, 1]);
    // one empty column between the two
    assert_eq!(galaxies::solve(&mut [[2, 0], [0, 0]]), [3, 1_000_001]);
    // empty lines before the first galaxy are the same for all
    assert_eq!(galaxies::solve(&mut [[102, 50], [100, 50]]), [3, 1_000_001]);
    assert_eq!(galaxies::solve(&mut [[0, 0], [0, 0]]), [0, 0]);
    assert_eq!(galaxies::solve(&mut [[0, 0], [2, 2], [4, 4]]), [24, 8_000_008]);
    assert_eq!(galaxies::COORD_EXPANSION_FACTORS, [2, 1_000_000]);
}

#[test]
fn distances_between_galaxies_agree_with_adding_up_all_pairs() {
    let sky = vec![[3usize, 0usize], [7, 1], [0, 2], [6, 4], [1, 5], [9, 6], [7, 8], [0, 9], [4, 9], [4, 9]];
    let mut expected = [0, 0];
    for (which, factor) in [2usize, 1_000_000].into_iter().enumerate() {
        let place = |galaxy: [usize; 2], dim: usize| {
            let empty = (0..galaxy[dim]).filter(|line| sky.iter().all(|other| other[dim] != *line));
            galaxy[dim] + empty.count() * (factor - 1)
        };
        for (i, &one) in sky.iter().enumerate() {
            for &other in &sky[..i] {
                for dim in 0..2 {
                    expected[which] += place(one, dim).abs_diff(place(other, dim));
                }
            }
        }
    }
    assert_eq!(galaxies::solve(&mut sky.clone()), expected);
}

#[test]
fn sets_of_a_game() {
    assert_eq!(
        parse_line("Game 1: 3 blue, 4 red; 1 red, 2 green, 6 blue; 2 green"),
        Ok(vec![Ok([4, 0, 3]), Ok([1, 2, 6]), Ok([0, 2, 0])])
    );
    assert_eq!(
        parse_line("Game 3: 8 green, 6 blue, 20 red; 5 blue, 4 red, 13 green; 5 green, 1 red"),
        Ok(vec![Ok([20, 8, 6]), Ok([4, 13, 5]), Ok([1, 5, 0])])
    );
    assert_eq!(parse_line(": 1 red"), Ok(vec![Ok([1, 0, 0])]));
    assert_eq!(parse_line("x: +07 blue"), Ok(vec![Ok([0, 0, 7])]));
    assert_eq!(parse_line("a: b: 1 red"), Ok(vec![Err(LineError::NotANumber)]));
    assert_eq!(parse_line("x: 4294967295 green"), Ok(vec![Ok([0, u32::MAX, 0])]));
}

#[test]
fn faults_of_a_game() {
    assert_eq!(parse_line("Game 1 3 blue"), Err(LineError::InvalidLine));
    assert_eq!(parse_line("Game 1:3 blue"), Err(LineError::InvalidLine));
    assert_eq!(parse_line(""), Err(LineError::InvalidLine));
    assert_eq!(parse_line("x: "), Ok(vec![Err(LineError::InvalidEntry)]));
    assert_eq!(parse_line("x: red"), Ok(vec![Err(LineError::InvalidEntry)]));
    assert_eq!(parse_line("x: 1 red,2 blue"), Ok(vec![Err(LineError::InvalidColor)]));
    assert_eq!(parse_line("x: 1 red;2 blue"), Ok(vec![Err(LineError::InvalidColor)]));
    assert_eq!(parse_line("x: 1  red"), Ok(vec![Err(LineError::InvalidColor)]));
    assert_eq!(parse_line("x: one red"), Ok(vec![Err(LineError::NotANumber)]));
    assert_eq!(parse_line("x: -1 red"), Ok(vec![Err(LineError::NotANumber)]));
    assert_eq!(parse_line("x: 4294967296 red"), Ok(vec![Err(LineError::NotANumber)]));
    assert_eq!(parse_line("x:  red"), Ok(vec![Err(LineError::NotANumber)]));
    assert_eq!(parse_line("x: 1 pink"), Ok(vec![Err(LineError::InvalidColor)]));
    assert_eq!(parse_line("x: 1 Red"), Ok(vec![Err(LineError::InvalidColor)]));
    assert_eq!(parse_line("x: 1 red, 2 red"), Ok(vec![Err(LineError::DuplicateColor)]));
    // a count of nothing is taken for no count
    assert_eq!(parse_line("x: 0 red, 2 red"), Ok(vec![Ok([2, 0, 0])]));
    // the first fault of a set counts, and the other sets are read all the same
    assert_eq!(
        parse_line("x: 1 red, 2 red, 3 pink; 1 blue; y green, 1 green, 1 green; 2 green"),
        Ok(vec![
            Err(LineError::DuplicateColor),
            Ok([0, 0, 1]),
            Err(LineError::NotANumber),
            Ok([0, 2, 0]),
        ])
    );
    assert_eq!(
        parse_line("x: 1 red; ; 2 blue"),
        Ok(vec![Ok([1, 0, 0]), Err(LineError::InvalidEntry), Ok([0, 0, 2])])
    );
}
