use aoc2024::{day01, day02, day03, day04, day05, day06, day07, day08, day09, day10, day11, day12, day13, day14, day15, day17, day18, day19, day22, day23, day24, day25};

const DAY01_EXAMPLE: &str = "3   4\n4   3\n2   5\n1   3\n3   9\n3   3\n";

const DAY02_EXAMPLE: &str =
    "7 6 4 2 1\n1 2 7 8 9\n9 7 6 2 1\n1 3 2 4 5\n8 6 4 4 1\n1 3 6 7 9\n";

#[test]
fn day01_first_part_example() {
    assert_eq!(day01::first_part(DAY01_EXAMPLE), Some(11));
}

#[test]
fn day01_second_part_example() {
    assert_eq!(day01::second_part(DAY01_EXAMPLE), Some(31));
}

#[test]
fn day01_rejects_a_line_with_one_number() {
    assert_eq!(day01::first_part("3   4\n5\n"), None);
    assert_eq!(day01::second_part("x   4\n"), None);
}

#[test]
fn day01_empty_input_gives_zero() {
    assert_eq!(day01::first_part(""), Some(0));
    assert_eq!(day01::second_part(""), Some(0));
}

#[test]
fn day01_parse_input_columns() {
    let (l, r) = day01::parse_input(b"10 2\n7   30").unwrap();
    assert_eq!(l, vec![10, 7]);
    assert_eq!(r, vec![2, 30]);
}

#[test]
fn day01_distance_overflow_is_none() {
    let big = 999_999_999_999_999_999u64;
    let left = vec![big; 20];
    let right = vec![0; 20];
    assert_eq!(day01::distance(left, right), None);
}

#[test]
fn day02_first_part_example() {
    assert_eq!(day02::first_part(DAY02_EXAMPLE), Some(2));
}

#[test]
fn day02_second_part_example() {
    assert_eq!(day02::second_part(DAY02_EXAMPLE), Some(4));
}

#[test]
fn day02_check_safe_cases() {
    assert!(day02::check_safe(&vec![1, 2, 3]));
    assert!(!day02::check_safe(&vec![1, 5, 6]));
    assert!(!day02::check_safe(&vec![1, 2, 2]));
    assert!(!day02::check_safe(&vec![1, 3, 2]));
    assert!(day02::check_safe_dampened(&vec![1, 3, 2, 4, 5]));
    assert!(!day02::check_safe_dampened(&vec![1, 2, 7, 8, 9]));
}

#[test]
fn day02_rejects_an_empty_report() {
    assert_eq!(day02::first_part("1 2 3\n\n4 5 6\n"), None);
}

#[test]
fn day11_first_part_example() {
    assert_eq!(day11::first_part("125 17\n"), Some(55312));
}

#[test]
fn day11_second_part_example() {
    assert_eq!(day11::second_part("125 17\n"), Some(65601038650482));
}

#[test]
fn day11_blink_rules() {
    assert_eq!(day11::blink(0), Some((1, None)));
    assert_eq!(day11::blink(1000), Some((10, Some(0))));
    assert_eq!(day11::blink(1), Some((2024, None)));
    assert_eq!(day11::blink(u64::MAX / 1000), None);
    assert_eq!(day11::digits(0), 1);
    assert_eq!(day11::digits(99999), 5);
}

#[test]
fn day11_few_blinks() {
    assert_eq!(day11::handle_blinking(&vec![125, 17], 6), Some(22));
    assert_eq!(day11::handle_blinking(&vec![0], 0), Some(1));
    assert_eq!(day11::first_part("1 2\n3\n"), None);
}

#[test]
fn day22_first_part_example() {
    assert_eq!(day22::first_part("1\n10\n100\n2024\n"), Some(37327623));
}

#[test]
fn day22_next_secrets() {
    assert_eq!(day22::get_next(123), 15887950);
    assert_eq!(day22::get_next(15887950), 16495136);
    assert_eq!(day22::secret_2000(1), 8685429);
    assert_eq!(day22::first_part("1\n99999999999\n"), None);
}

const DAY04_EXAMPLE: &str = "MMMSXXMASM\nMSAMXMSMSA\nAMXSXMAAMM\nMSAMASMSMX\nXMASAMXAMM\nXXAMMXXAMA\nSMSMSASXSS\nSAXAMASAAA\nMAMMMXMMMM\nMXMXAXMASX\n";

#[test]
fn day04_first_part_example() {
    assert_eq!(day04::first_part(DAY04_EXAMPLE), Some(18));
}

#[test]
fn day04_second_part_example() {
    assert_eq!(day04::second_part(DAY04_EXAMPLE), Some(9));
}

#[test]
fn day04_small_grids() {
    assert_eq!(day04::first_part("XMAS\n"), Some(1));
    assert_eq!(day04::first_part("SAMX"), Some(1));
    assert_eq!(day04::first_part("X\nM\nA\nS\n"), Some(1));
    assert_eq!(day04::first_part(""), Some(0));
    assert_eq!(day04::second_part("M.S\n.A.\nM.S\n"), Some(1));
    assert_eq!(day04::second_part("M.M\n.A.\nM.S\n"), Some(0));
}

const DAY05_EXAMPLE: &str = "47|53\n97|13\n97|61\n97|47\n75|29\n61|13\n75|53\n29|13\n97|29\n53|29\n61|53\n97|53\n61|29\n47|13\n75|47\n97|75\n47|61\n75|61\n47|29\n75|13\n53|13\n\n75,47,61,53,29\n97,61,53,29,13\n75,29,13\n75,97,47,61,53\n61,13,29\n97,13,75,29,47\n";

#[test]
fn day05_first_part_example() {
    assert_eq!(day05::first_part(DAY05_EXAMPLE), Some(143));
}

#[test]
fn day05_second_part_example() {
    assert_eq!(day05::second_part(DAY05_EXAMPLE), Some(123));
}

#[test]
fn day05_fixed_middle_pages() {
    let rules = vec![(1, 2), (2, 3), (1, 3)];
    assert_eq!(day05::fixed_middle_page(&vec![3, 1, 2], &rules), 2);
    assert_eq!(day05::fixed_middle_page(&vec![3, 2, 1], &rules), 2);
    assert_eq!(day05::fixed_middle_page(&vec![5, 6, 7], &rules), 0);
    assert_eq!(day05::sum_of_fixed_middles(&rules, &vec![vec![1, 2, 3], vec![2, 1, 3]]), Some(2));
}

#[test]
fn day05_rules() {
    assert!(day05::breaks_rule(&vec![75, 97, 47], 97, 75));
    assert!(!day05::breaks_rule(&vec![97, 75, 47], 97, 75));
    assert!(!day05::breaks_rule(&vec![75, 47], 97, 75));
    assert!(!day05::breaks_rule(&vec![5, 5], 5, 5));
    assert!(day05::follows_rules(&vec![1, 2, 3], &vec![(1, 2), (2, 3)]));
    assert!(!day05::follows_rules(&vec![1, 3, 2], &vec![(1, 2), (2, 3)]));
}

#[test]
fn day05_parse_input_sections() {
    let (rules, updates) = day05::parse_input(b"1|2\n3|4\n\n1,2,3\n4\n").unwrap();
    assert_eq!(rules, vec![(1, 2), (3, 4)]);
    assert_eq!(updates, vec![vec![1, 2, 3], vec![4]]);
    assert!(day05::parse_input(b"1-2\n\n1,2\n").is_none());
    assert!(day05::parse_input(b"1|2\n\n1,,2\n").is_none());
}

#[test]
fn day17_first_part_example() {
    let input = "Register A: 729\nRegister B: 0\nRegister C: 0\n\nProgram: 0,1,5,4,3,0\n";
    assert_eq!(
        day17::first_part(input, 1_000_000),
        Some(vec![4, 6, 3, 5, 6, 3, 5, 2, 1, 0])
    );
}

#[test]
fn day17_runs_out_of_fuel_or_input() {
    let input = "Register A: 729\nRegister B: 0\nRegister C: 0\n\nProgram: 0,1,5,4,3,0\n";
    assert_eq!(day17::first_part(input, 3), None);
    assert_eq!(day17::first_part("Register A: 1\n", 10), None);
    let bad = "Register A: 1\nRegister B: 0\nRegister C: 0\n\nProgram: 0,9\n";
    assert_eq!(day17::first_part(bad, 10), None);
}

#[test]
fn day17_small_programs() {
    let (m, p) = day17::parse_input(b"Register A: 0\nRegister B: 0\nRegister C: 9\n\nProgram: 2,6\n").unwrap();
    assert_eq!(m.c, 9);
    assert_eq!(p, vec![2, 6]);
    let m = day17::Machine { a: 0, b: 0, c: 9, ip: 0, out: vec![] };
    let mut m2 = m;
    assert!(day17::step_machine(&mut m2, &p));
    assert_eq!(m2.b, 1);
    let m = day17::Machine { a: 10, b: 0, c: 0, ip: 0, out: vec![] };
    assert_eq!(day17::execute_program(m, &vec![5, 0, 5, 1, 5, 4], 10), Some(vec![0, 1, 2]));
    assert_eq!(day17::short_program(8), vec![3, 2]);
    assert_eq!(day17::short_program(0), vec![3]);
}

#[test]
fn day03_first_part_example() {
    let input = "xmul(2,4)%&mul[3,7]!@^do_not_mul(5,5)+mul(32,64]then(mul(11,8)mul(8,5))";
    assert_eq!(day03::first_part(input), Some(161));
}

#[test]
fn day03_second_part_example() {
    let input = "xmul(2,4)&mul[3,7]!^don't()_mul(5,5)+mul(32,64](mul(11,8)undo()?mul(8,5))";
    assert_eq!(day03::second_part(input), Some(48));
}

#[test]
fn day03_instruction_shapes() {
    assert_eq!(day03::mul_here(b"mul(12,345)", 0), Some((12, 345)));
    assert_eq!(day03::mul_here(b"mul(12,345", 0), None);
    assert_eq!(day03::mul_here(b"mul( 1,2)", 0), None);
    assert_eq!(day03::mul_here(b"mul(,2)", 0), None);
    assert_eq!(day03::first_part("mul(1,2)mul(3,4)"), Some(14));
    assert_eq!(day03::second_part("don't()mul(1,2)do()mul(3,4)"), Some(12));
    assert_eq!(day03::first_part(""), Some(0));
}

const DAY19_EXAMPLE: &str =
    "r, wr, b, g, bwu, rb, gb, br\n\nbrwrr\nbggr\ngbbr\nrrbgbr\nubwu\nbwurrg\nbrgr\nbbrgwb\n";

#[test]
fn day19_first_part_example() {
    assert_eq!(day19::first_part(DAY19_EXAMPLE), Some(6));
}

#[test]
fn day19_second_part_example() {
    assert_eq!(day19::second_part(DAY19_EXAMPLE), Some(16));
}

#[test]
fn day19_check_design_counts() {
    let ps = vec![b"r".to_vec(), b"wr".to_vec(), b"b".to_vec(), b"g".to_vec(), b"bwu".to_vec(), b"rb".to_vec(), b"gb".to_vec(), b"br".to_vec()];
    assert_eq!(day19::check_design(&ps, &b"brwrr".to_vec()), Some(2));
    assert_eq!(day19::check_design(&ps, &b"ubwu".to_vec()), Some(0));
    assert_eq!(day19::check_design(&ps, &b"".to_vec()), Some(1));
    assert_eq!(day19::first_part("r, b\nrb\n"), None);
}

const DAY07_EXAMPLE: &str = "190: 10 19\n3267: 81 40 27\n83: 17 5\n156: 15 6\n7290: 6 8 6 15\n161011: 16 10 13\n192: 17 8 14\n21037: 9 7 18 13\n292: 11 6 16 20\n";

#[test]
fn day07_first_part_example() {
    assert_eq!(day07::first_part(DAY07_EXAMPLE), Some(3749));
}

#[test]
fn day07_second_part_example() {
    assert_eq!(day07::second_part(DAY07_EXAMPLE), Some(11387));
}

#[test]
fn day07_single_equations() {
    assert!(day07::can_make(&vec![15, 6], 2, 156, true));
    assert!(!day07::can_make(&vec![15, 6], 2, 156, false));
    assert!(day07::can_make(&vec![7], 1, 7, false));
    assert!(!day07::can_make(&vec![3, 4], 2, 1, false));
    assert_eq!(day07::parse_equation(b"10: 2 5", 0, 7), Some((10, vec![2, 5])));
    assert_eq!(day07::parse_equation(b"10: 0 5", 0, 7), None);
    assert_eq!(day07::first_part("10 2 5\n"), None);
}

const DAY10_EXAMPLE: &str = "89010123\n78121874\n87430965\n96549874\n45678903\n32019012\n01329801\n10456732\n";

#[test]
fn day10_first_part_example() {
    assert_eq!(day10::first_part(DAY10_EXAMPLE), Some(36));
}

#[test]
fn day10_second_part_example() {
    assert_eq!(day10::second_part(DAY10_EXAMPLE), Some(81));
}

#[test]
fn day10_small_maps() {
    let map = "0123\n1234\n8765\n9876\n";
    assert_eq!(day10::first_part(map), Some(1));
    assert_eq!(day10::second_part(map), Some(16));
    assert_eq!(day10::first_part("..90..9\n...1.98\n...2..7\n6543456\n765.987\n876....\n987....\n"), Some(4));
    assert_eq!(day10::second_part(""), Some(0));
}

const DAY23_EXAMPLE: &str = "kh-tc\nqp-kh\nde-cg\nka-co\nyn-aq\nqp-ub\ncg-tb\nvc-aq\ntb-ka\nwh-tc\nyn-cg\nkh-ub\nta-co\nde-co\ntc-td\ntb-wq\nwh-td\nta-ka\ntd-qp\naq-cg\nwq-ub\nub-vc\nde-ta\nwq-aq\nwq-vc\nwh-yn\nka-de\nkh-ta\nco-tc\nwh-qp\ntb-vc\ntd-yn\n";

#[test]
fn day23_first_part_example() {
    assert_eq!(day23::first_part(DAY23_EXAMPLE), Some(7));
}

#[test]
fn day23_small_networks() {
    assert_eq!(day23::first_part("ta-ab\nab-cd\ncd-ta\n"), Some(1));
    assert_eq!(day23::first_part("xa-ab\nab-cd\ncd-xa\n"), Some(0));
    assert_eq!(day23::first_part("ta-ab\n"), Some(0));
    assert_eq!(day23::first_part("ta_ab\n"), None);
    let links = day23::parse_input(b"ab-ba\n").unwrap();
    assert_eq!(links, vec![(1, 26)]);
    let adj = day23::get_graphs(&links);
    assert!(adj[1 * 676 + 26] && adj[26 * 676 + 1]);
    assert!(!adj[0]);
}

#[test]
fn day09_part1_example() {
    assert_eq!(day09::part1(b"2333133121414131402"), Some(1928));
    assert_eq!(day09::part1(b"12345"), Some(60));
}

#[test]
fn day09_part2_example() {
    assert_eq!(day09::part2(b"2333133121414131402"), Some(2858));
    assert_eq!(day09::part2(b"12345"), Some(132));
}

#[test]
fn day09_rejects_non_digits_and_expands() {
    assert_eq!(day09::part1(b"12a"), None);
    assert_eq!(day09::part2(b"12\n"), None);
    assert_eq!(day09::part1(b""), Some(0));
    assert_eq!(day09::expand(b"12"), vec![0, -1, -1]);
    assert_eq!(day09::compacted_checksum(&vec![0, -1, 1]), Some(1));
}

const DAY08_EXAMPLE: &str = "............\n........0...\n.....0......\n.......0....\n....0.......\n......A.....\n............\n............\n........A...\n.........A..\n............\n............\n";

#[test]
fn day08_first_part_example() {
    assert_eq!(day08::first_part(DAY08_EXAMPLE), Some(14));
}

#[test]
fn day08_second_part_example() {
    assert_eq!(day08::second_part(DAY08_EXAMPLE), Some(34));
}

#[test]
fn day08_small_maps() {
    assert_eq!(day08::first_part("....\n.a..\n..a.\n....\n"), Some(2));
    assert_eq!(day08::second_part("....\n.a..\n..a.\n....\n"), Some(4));
    assert_eq!(day08::first_part("a...\n...b\n"), Some(0));
    assert_eq!(day08::first_part(""), Some(0));
}

const DAY25_EXAMPLE: &str = "#####\n.####\n.####\n.####\n.#.#.\n.#...\n.....\n\n#####\n##.##\n.#.##\n...##\n...#.\n...#.\n.....\n\n.....\n#....\n#....\n#...#\n#.#.#\n#.###\n#####\n\n.....\n.....\n#.#..\n###..\n###.#\n###.#\n#####\n\n.....\n.....\n.....\n#....\n#.#..\n#.#.#\n#####\n";

#[test]
fn day25_first_part_example() {
    assert_eq!(day25::first_part(DAY25_EXAMPLE), Some(3));
}

#[test]
fn day25_parse_heights() {
    let (locks, keys) = day25::parse_input(DAY25_EXAMPLE.as_bytes());
    assert_eq!(locks, vec![vec![1, 6, 4, 5, 4], vec![2, 3, 1, 6, 4]]);
    assert_eq!(keys.len(), 3);
    assert_eq!(keys[0], vec![6, 1, 3, 2, 4]);
    assert_eq!(day25::first_part(""), Some(0));
}

const DAY14_EXAMPLE: &str = "p=0,4 v=3,-3\np=6,3 v=-1,-3\np=10,3 v=-1,2\np=2,0 v=2,-1\np=0,0 v=1,3\np=3,0 v=-2,-2\np=7,6 v=-1,-3\np=3,0 v=-1,-2\np=9,3 v=2,3\np=7,3 v=-1,2\np=2,4 v=2,-3\np=9,5 v=-3,-3\n";

#[test]
fn day14_safety_factor_example() {
    let rs = day14::parse_input(DAY14_EXAMPLE.as_bytes()).unwrap();
    assert_eq!(rs[0], (0, 4, 3, -3));
    assert_eq!(day14::safety_factor(&rs, 11, 7, 100), Some(12));
}

#[test]
fn day14_small_cases() {
    let rs = day14::parse_input(b"p=2,4 v=2,-3\n").unwrap();
    assert_eq!(day14::safety_factor(&rs, 11, 7, 0), Some(0));
    assert_eq!(day14::min_safety_step(&rs, 11, 7, 0, 10), Some(0));
    assert!(day14::parse_input(b"p=2,4\n").is_none());
    assert_eq!(day14::first_part("p=0,0 v=0,0\n"), Some(0));
    let four = "p=0,0 v=0,0\np=100,0 v=0,0\np=0,102 v=0,0\np=100,102 v=0,0\n";
    assert_eq!(day14::first_part(four), Some(1));
    assert_eq!(day14::second_part(four), Some(1000));
}

const DAY13_EXAMPLE: &str = "Button A: X+94, Y+34\nButton B: X+22, Y+67\nPrize: X=8400, Y=5400\n\nButton A: X+26, Y+66\nButton B: X+67, Y+21\nPrize: X=12748, Y=12176\n\nButton A: X+17, Y+86\nButton B: X+84, Y+37\nPrize: X=7870, Y=6450\n\nButton A: X+69, Y+23\nButton B: X+27, Y+71\nPrize: X=18641, Y=10279\n";

#[test]
fn day13_first_part_example() {
    assert_eq!(day13::first_part(DAY13_EXAMPLE), Some(480));
}

#[test]
fn day13_second_part_example() {
    assert_eq!(day13::second_part(DAY13_EXAMPLE), Some(875318608908));
}

#[test]
fn day13_single_machines() {
    assert_eq!(day13::machine_tokens((94, 34, 22, 67, 8400, 5400), 0), 280);
    assert_eq!(day13::machine_tokens((26, 66, 67, 21, 12748, 12176), 0), 0);
    assert_eq!(day13::machine_tokens((1, 1, 2, 2, 3, 3), 0), 0);
    let ms = day13::parse_to_matrix(b"Button A: X+1, Y+2\nButton B: X+3, Y+4\nPrize: X=5, Y=6\n").unwrap();
    assert_eq!(ms, vec![(1, 2, 3, 4, 5, 6)]);
    assert_eq!(day13::first_part("Button A: X+1, Y+2\n"), None);
}

const DAY06_EXAMPLE: &str = "....#.....\n.........#\n..........\n..#.......\n.......#..\n..........\n.#..^.....\n........#.\n#.........\n......#...\n";

#[test]
fn day06_first_part_example() {
    assert_eq!(day06::first_part(DAY06_EXAMPLE), Some(41));
}

#[test]
fn day06_second_part_example() {
    assert_eq!(day06::second_part(DAY06_EXAMPLE), Some(6));
}

#[test]
fn day06_second_part_small_maps() {
    assert_eq!(day06::second_part(".#..\n...#\n.^..\n..#.\n"), Some(1));
    assert_eq!(day06::second_part("...\n.^.\n...\n"), Some(0));
    assert_eq!(day06::second_part(""), None);
}

#[test]
fn day06_small_maps() {
    assert_eq!(day06::first_part("...\n.^.\n...\n"), Some(2));
    assert_eq!(day06::first_part(".#.\n#^#\n.#.\n"), None);
    assert_eq!(day06::first_part(""), None);
    assert_eq!(day06::rot_dir(day06::Direction::Left) == day06::Direction::Up, true);
    assert_eq!(day06::dir_to_vec(day06::Direction::Up), (0, -1));
}

#[test]
fn day24_wire_numbers() {
    assert_eq!(day24::hash_input(b"aaa"), Some(0));
    assert_eq!(day24::hash_input(b"www"), Some(12166));
    assert_eq!(day24::hash_input(b"x00"), Some(12167));
    assert_eq!(day24::hash_input(b"y44"), Some(12167 + 45 + 44));
    assert_eq!(day24::hash_input(b"z07"), Some(12174));
    assert_eq!(day24::hash_input(b"abz"), None);
    assert_eq!(day24::hash_input(b"x0"), None);
}

#[test]
fn day24_pack_and_unpack() {
    let w = day24::hash_instruction(2, 12167, 12212);
    assert_eq!(w, (2u32 << 30) | (12167 << 15) | 12212);
    assert_eq!(day24::decode_instruction(w), Some((2, 12167, 12212)));
    assert_eq!(day24::decode_instruction(3u32 << 30), None);
}

const DAY15_SMALL: &str = "########\n#..O.O.#\n##@.O..#\n#...O..#\n#.#.O..#\n#...O..#\n#......#\n########\n\n<^^>>>vv<v>>v<<\n";

#[test]
fn day15_first_part_small_example() {
    assert_eq!(day15::first_part(DAY15_SMALL), Some(2028));
}

#[test]
fn day15_pushing_rows_of_boxes() {
    assert_eq!(day15::first_part("#####\n#@OO.\n#####\n\n>\n"), Some(103 + 104));
    assert_eq!(day15::first_part("#####\n#@OO#\n#####\n\n>\n"), Some(102 + 103));
    assert_eq!(day15::first_part("#####\n#@OO#\n"), None);
    assert_eq!(day15::first_part("####\n#@O\n\n>"), None);
}

#[test]
fn day22_second_part_example() {
    assert_eq!(day22::second_part("1\n2\n3\n2024\n"), Some(23));
}

#[test]
fn day22_most_bananas_single_buyer() {
    let best = day22::most_bananas(&vec![123]);
    assert!(6 <= best && best <= 9);
    assert_eq!(day22::most_bananas(&vec![]), 0);
}

const DAY18_EXAMPLE: &str = "5,4\n4,2\n4,5\n3,0\n2,1\n6,3\n2,4\n1,5\n0,6\n3,3\n2,6\n5,1\n1,2\n5,5\n2,5\n6,5\n1,4\n0,4\n6,4\n1,1\n6,1\n1,0\n0,5\n1,6\n2,0\n";

#[test]
fn day18_first_part_example() {
    assert_eq!(day18::first_part(DAY18_EXAMPLE), Some(22));
}

#[test]
fn day18_second_part_example() {
    assert_eq!(day18::second_part(DAY18_EXAMPLE), Some((6, 1)));
}

#[test]
fn day18_small_grids() {
    let ws = day18::get_walls(b"1,0\n0,1\n").unwrap();
    assert_eq!(day18::fewest(&ws, 0, 2), Some(2));
    assert_eq!(day18::fewest(&ws, 1, 2), Some(2));
    assert_eq!(day18::fewest(&ws, 2, 2), None);
    assert_eq!(day18::fewest(&ws, 0, 1), Some(0));
    assert!(day18::get_walls(b"1;0\n").is_none());
}

#[test]
fn day24_first_part_example() {
    let input = "x00: 1\nx01: 1\nx02: 1\ny00: 0\ny01: 1\ny02: 0\n\nx00 AND y00 -> z00\nx01 XOR y01 -> z01\nx02 OR y02 -> z02\n";
    assert_eq!(day24::first_part(input), Some(4));
}

#[test]
fn day24_chained_gates() {
    let input = "x00: 1\ny00: 1\n\nx00 AND y00 -> abc\nabc XOR x00 -> z01\nabc OR y00 -> z00\n";
    assert_eq!(day24::first_part(input), Some(1));
    let looped = "x00: 1\n\nabc AND x00 -> abc\nabc OR x00 -> z00\n";
    assert_eq!(day24::first_part(looped), None);
    assert_eq!(day24::first_part("x00: 1\n"), None);
}

#[test]
fn day12_second_part_examples() {
    assert_eq!(day12::second_part("AAAA\nBBCD\nBBCC\nEEEC\n"), Some(80));
    assert_eq!(day12::second_part("EEEEE\nEXXXX\nEEEEE\nEXXXX\nEEEEE\n"), Some(236));
    assert_eq!(day12::second_part("AAAAAA\nAAABBA\nAAABBA\nABBAAA\nABBAAA\nAAAAAA\n"), Some(368));
}

#[test]
fn day12_second_part_larger_example() {
    let input = "RRRRIICCFF\nRRRRIICCCF\nVVRRRCCFFF\nVVRCCCJFFF\nVVVVCJJCFE\nVVIVCCJJEE\nVVIIICJJEE\nMIIIIIJJEE\nMIIISIJEEE\nMMMISSJEEE\n";
    assert_eq!(day12::second_part(input), Some(1206));
}

#[test]
fn day12_rejects_ragged_maps() {
    assert_eq!(day12::second_part("AA\nA\n"), None);
    assert_eq!(day12::second_part("A\n"), Some(4));
    assert_eq!(day12::fence_price(&vec![b'A', b'B'], 2, 1, true), 8);
    assert_eq!(day12::fence_price(&vec![b'A', b'B'], 2, 1, false), 8);
}

#[test]
fn day12_first_part_examples() {
    assert_eq!(day12::first_part("AAAA\nBBCD\nBBCC\nEEEC\n"), Some(140));
    assert_eq!(day12::first_part("OOOOO\nOXOXO\nOOOOO\nOXOXO\nOOOOO\n"), Some(772));
    let input = "RRRRIICCFF\nRRRRIICCCF\nVVRRRCCFFF\nVVRCCCJFFF\nVVVVCJJCFE\nVVIVCCJJEE\nVVIIICJJEE\nMIIIIIJJEE\nMIIISIJEEE\nMMMISSJEEE\n";
    assert_eq!(day12::first_part(input), Some(1930));
}
