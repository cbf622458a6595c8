use steiner_search::permutations;
use steiner_search::larger_sets;
use steiner_search::SearchError;
use steiner_search::SteinerSearcher;
use steiner_search::StepOutcome;

#[test]
fn permutations_test() {
    let xs: Vec<usize> = (1..=5).collect();
    println!("{:?}", permutations(&xs, 1));
}

#[test]
fn permutations_counts() {
    let xs: Vec<usize> = (1..=5).collect();
    let pairs = permutations(&xs, 2);
    assert_eq!(pairs.len(), 10);
    assert_eq!(pairs[0], vec![1, 2]);
    let empty_size = permutations(&xs, 0);
    assert_eq!(empty_size, vec![Vec::<usize>::new()]);
    let too_large = permutations(&xs, 6);
    assert_eq!(too_large.len(), 0);
}

#[test]
fn permutations_are_sorted_and_distinct() {
    let xs: Vec<usize> = (1..=6).collect();
    let triples = permutations(&xs, 3);
    assert_eq!(triples.len(), 20);
    for t in &triples {
        assert_eq!(t.len(), 3);
        assert!(t[0] < t[1] && t[1] < t[2]);
    }
    for i in 0..triples.len() {
        for j in (i + 1)..triples.len() {
            assert_ne!(triples[i], triples[j]);
        }
    }
}

#[test]
fn larger_sets_expands_pool() {
    let supersets = larger_sets(vec![2, 4], vec![1, 3, 5], 3);
    assert_eq!(supersets, vec![vec![1, 2, 4], vec![2, 3, 4], vec![2, 4, 5]]);
}

#[test]
fn larger_sets_counts() {
    let supersets = larger_sets(vec![1, 2], vec![3, 4, 5, 6], 4);
    assert_eq!(supersets.len(), 6);
    for s in &supersets {
        assert_eq!(s.len(), 4);
        assert_eq!(s[0], 1);
        assert_eq!(s[1], 2);
        assert!(s[2] < s[3]);
    }
    let already_there = larger_sets(vec![1, 2], vec![3], 2);
    assert_eq!(already_there, vec![vec![1, 2]]);
}

#[test]
fn invalid_parameters_rejected() {
    let r = SteinerSearcher::new(3, 2, 5);
    assert_eq!(r.err(), Some(SearchError::InvalidParameters));
    assert!(SteinerSearcher::new(2, 2, 5).is_err());
    assert!(SteinerSearcher::new(2, 5, 5).is_err());
}

#[test]
fn matchings_on_four_points() {
    let mut engine = SteinerSearcher::new(1, 2, 4).unwrap();
    let mut solutions: Vec<Vec<Vec<usize>>> = Vec::new();
    while let Some(design) = engine.next() {
        solutions.push(design);
    }
    for design in &solutions {
        assert_eq!(design.len(), 2);
        let mut seen: Vec<usize> = Vec::new();
        for block in design {
            assert_eq!(block.len(), 2);
            for &x in block {
                assert!(!seen.contains(&x));
                seen.push(x);
            }
        }
    }
    let expected: Vec<Vec<Vec<usize>>> = vec![
        vec![vec![1, 2], vec![3, 4]],
        vec![vec![1, 3], vec![2, 4]],
        vec![vec![1, 4], vec![2, 3]],
    ];
    for design in &expected {
        assert!(solutions.contains(design));
    }
}

#[test]
fn no_matching_on_three_points() {
    let mut engine = SteinerSearcher::new(1, 2, 3).unwrap();
    assert!(engine.next().is_none());
    assert!(engine.next().is_none());
}

#[test]
fn fano_plane_found() {
    let mut engine = SteinerSearcher::new(2, 3, 7).unwrap();
    let design = engine.next().expect("a Steiner triple system on 7 points exists");
    assert_eq!(design.len(), 7);
    for block in &design {
        assert_eq!(block.len(), 3);
        assert!(block[0] < block[1] && block[1] < block[2]);
    }
    for a in 1..=7usize {
        for b in (a + 1)..=7usize {
            let mut covering: usize = 0;
            for block in &design {
                if block.contains(&a) && block.contains(&b) {
                    covering += 1;
                }
            }
            assert_eq!(covering, 1);
        }
    }
}

#[test]
fn determinism_same_parameters_same_solutions() {
    let mut first = SteinerSearcher::new(1, 2, 4).unwrap();
    let mut second = SteinerSearcher::new(1, 2, 4).unwrap();
    let mut from_first: Vec<Vec<Vec<usize>>> = Vec::new();
    while let Some(design) = first.next() {
        from_first.push(design);
    }
    let mut from_second: Vec<Vec<Vec<usize>>> = Vec::new();
    while let Some(design) = second.next() {
        from_second.push(design);
    }
    assert_eq!(from_first, from_second);
}

#[test]
fn coverage_memoization_returns_block_coverage() {
    let mut engine = SteinerSearcher::new(2, 3, 7).unwrap();
    let covered = engine.get_item_permutations(vec![1, 2, 3]);
    assert_eq!(covered, vec![vec![1, 2], vec![1, 3], vec![2, 3]]);
    let again = engine.get_item_permutations(vec![1, 2, 3]);
    assert_eq!(again, covered);
}

#[test]
fn step_drives_the_search_one_pop_at_a_time() {
    let mut engine = SteinerSearcher::new(1, 2, 4).unwrap();
    let mut solutions: Vec<Vec<Vec<usize>>> = Vec::new();
    loop {
        match engine.step() {
            StepOutcome::Solution(design) => solutions.push(design),
            StepOutcome::Progress => {}
            StepOutcome::Exhausted => break,
        }
    }
    let mut by_next = SteinerSearcher::new(1, 2, 4).unwrap();
    let mut expected: Vec<Vec<Vec<usize>>> = Vec::new();
    while let Some(design) = by_next.next() {
        expected.push(design);
    }
    assert_eq!(solutions, expected);
}

#[test]
fn exhausted_engine_keeps_reporting_exhaustion() {
    let mut engine = SteinerSearcher::new(1, 2, 3).unwrap();
    assert!(engine.next().is_none());
    assert!(matches!(engine.step(), StepOutcome::Exhausted));
    assert!(matches!(engine.step(), StepOutcome::Exhausted));
    assert!(engine.next().is_none());
}
