use aoc2023::springs::{calculate_arrangements, is_valid_line, parse_input, part1, part2, test_arrangemnt, unfold_input, State};

fn get_test_input() -> Vec<String> {
    vec![
        "???.### 1,1,3".to_string(),
        ".??..??...?##. 1,1,3".to_string(),
        "?#?#?#?#?#?#?#? 1,3,1,6".to_string(),
        "????.#...#... 4,1,1".to_string(),
        "????.######..#####. 1,6,5".to_string(),
        "?###???????? 3,2,1".to_string(),
    ]
}

fn count(line: &str) -> u64 {
    let (states, configs) = parse_input(&line.to_string());
    calculate_arrangements(&states, &configs).unwrap()
}

fn count_unfolded(line: &str) -> u64 {
    let (states, configs) = unfold_input(&line.to_string());
    calculate_arrangements(&states, &configs).unwrap()
}

#[test]
fn test_part1() {
    assert_eq!(part1(get_test_input()), Some(21));
}

#[test]
fn test_part2() {
    assert_eq!(part2(get_test_input()), Some(525152));
}

#[test]
fn test_calculate_arrangements() {
    assert_eq!(count("???.### 1,1,3"), 1);
    assert_eq!(count(".??..??...?##. 1,1,3"), 4);
    assert_eq!(count("?#?#?#?#?#?#?#? 1,3,1,6"), 1);
    assert_eq!(count("????.#...#... 4,1,1"), 1);
    assert_eq!(count("????.######..#####. 1,6,5"), 4);
    assert_eq!(count("?###???????? 3,2,1"), 10);
}

#[test]
fn test_calculate_arrangements_part2() {
    assert_eq!(count_unfolded("???.### 1,1,3"), 1);
    assert_eq!(count_unfolded(".??..??...?##. 1,1,3"), 16384);
    assert_eq!(count_unfolded("?#?#?#?#?#?#?#? 1,3,1,6"), 1);
    assert_eq!(count_unfolded("????.#...#... 4,1,1"), 16);
    assert_eq!(count_unfolded("????.######..#####. 1,6,5"), 2500);
    assert_eq!(count_unfolded("?###???????? 3,2,1"), 506250);
}

#[test]
fn test_test_arrangement() {
    let (states, configs) = parse_input(&"#.#.### 1,1,3".to_string());
    assert_eq!(test_arrangemnt(&states, &configs), true);
    let (states, configs) = parse_input(&"#.#.### 1,1,2".to_string());
    assert_eq!(test_arrangemnt(&states, &configs), false);
}

#[test]
fn test_unfold_input() {
    let (unfold, config) = unfold_input(&"???.### 1,1,3".to_string());
    assert_eq!(unfold.len(), 39);
    assert_eq!(config.len(), 15);
    assert_eq!(unfold[7], State::Unknown);
    assert_eq!(config[3..6], [1, 1, 3]);
}

#[test]
fn parse_reads_symbols_and_runs() {
    let (states, configs) = parse_input(&"#.? 2,10".to_string());
    assert_eq!(states, vec![State::Broken, State::Operational, State::Unknown]);
    assert_eq!(configs, vec![2, 10]);
}

#[test]
fn malformed_lines_are_refused() {
    assert!(is_valid_line(&"#.? 1,2".to_string()));
    assert!(!is_valid_line(&"#x? 1".to_string()));
    assert!(!is_valid_line(&"#.? 1,a".to_string()));
    assert!(!is_valid_line(&"#.? 1,0".to_string()));
    assert!(!is_valid_line(&"#.?".to_string()));
    assert!(!is_valid_line(&"#.? 1 2".to_string()));
    assert_eq!(part1(vec!["??? 1".to_string(), "?x? 1".to_string()]), None);
}

#[test]
fn empty_record_and_empty_runs() {
    assert_eq!(calculate_arrangements(&vec![], &vec![1]), Some(0));
    assert_eq!(calculate_arrangements(&vec![], &vec![]), Some(1));
    assert_eq!(calculate_arrangements(&vec![State::Unknown, State::Operational], &vec![]), Some(1));
    assert_eq!(calculate_arrangements(&vec![State::Unknown, State::Broken], &vec![]), Some(0));
}

#[test]
fn runs_that_cannot_fit_give_zero() {
    assert_eq!(count("??? 2,2"), 0);
    assert_eq!(count("### 2"), 0);
    assert_eq!(count("??? 4"), 0);
    assert_eq!(calculate_arrangements(&vec![State::Unknown], &vec![0]), Some(0));
}

#[test]
fn counting_twice_gives_the_same_count() {
    let (states, configs) = parse_input(&"?###???????? 3,2,1".to_string());
    let first = calculate_arrangements(&states, &configs);
    let second = calculate_arrangements(&states, &configs);
    assert_eq!(first, second);
    assert_eq!(first, Some(10));
}

fn brute_force(states: &[State], configs: &Vec<u64>) -> u64 {
    let unknown: Vec<usize> = (0..states.len()).filter(|&i| states[i] == State::Unknown).collect();
    let mut total = 0;
    for mask in 0u32..(1u32 << unknown.len()) {
        let mut resolved = states.to_vec();
        for (bit, &i) in unknown.iter().enumerate() {
            resolved[i] = if mask & (1 << bit) != 0 { State::Broken } else { State::Operational };
        }
        if test_arrangemnt(&resolved, configs) {
            total += 1;
        }
    }
    total
}

#[test]
fn counter_agrees_with_enumeration_on_small_records() {
    let mut seed: u64 = 12345;
    let mut next = || {
        seed = seed.wrapping_mul(6364136223846793005).wrapping_add(1442695040888963407);
        (seed >> 33) as usize
    };
    for _ in 0..400 {
        let len = next() % 13;
        let states: Vec<State> = (0..len)
            .map(|_| match next() % 3 {
                0 => State::Broken,
                1 => State::Operational,
                _ => State::Unknown,
            })
            .collect();
        let runs: Vec<u64> = (0..next() % 4).map(|_| 1 + (next() % 4) as u64).collect();
        assert_eq!(calculate_arrangements(&states, &runs), Some(brute_force(&states, &runs)));
    }
}

#[test]
fn large_intermediate_totals_do_not_stop_the_count() {
    let mut states = vec![State::Broken, State::Operational];
    states.extend(std::iter::repeat(State::Unknown).take(130));
    let mut runs = vec![2];
    runs.extend(std::iter::repeat(1).take(40));
    assert_eq!(calculate_arrangements(&states, &runs), Some(0));
}

#[test]
fn counts_beyond_u64_are_refused() {
    let states = vec![State::Unknown; 140];
    let runs = vec![1; 30];
    assert_eq!(calculate_arrangements(&states, &runs), None);
    let states = vec![State::Unknown; 64];
    assert_eq!(calculate_arrangements(&states, &vec![1]), Some(64));
}
