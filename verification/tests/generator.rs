use permutations::Combinatorial;
use permutations::Permutation;
use permutations::Permutations;

/// Pull the generator until it ends, collecting every arrangement.
fn collect_all<T: Copy>(mut gen: Permutations<T>) -> Vec<Vec<T>> {
    let mut out: Vec<Vec<T>> = Vec::new();
    while let Some(arrangement) = gen.next() {
        out.push(arrangement);
    }
    out
}

/// How often `target` occurs among the produced arrangements.
fn occurrences<T: Copy + PartialEq>(outputs: &[Vec<T>], target: &[T]) -> usize {
    outputs.iter().filter(|o| o.as_slice() == target).count()
}

fn all_distinct<T: Copy + PartialEq>(outputs: &[Vec<T>]) -> bool {
    for i in 0..outputs.len() {
        for j in i + 1..outputs.len() {
            if outputs[i] == outputs[j] {
                return false;
            }
        }
    }
    true
}

#[test]
fn construction_rejects_zero_take_size() {
    assert!(Permutations::new(vec![1, 2, 3], 0).is_none());
}

#[test]
fn construction_rejects_empty_input() {
    let empty: Vec<i32> = Vec::new();
    assert!(Permutations::new(empty, 1).is_none());
}

#[test]
fn construction_rejects_oversized_take_size() {
    assert!(Permutations::new(vec![1, 2, 3], 4).is_none());
}

#[test]
fn construction_accepts_valid_bounds() {
    assert!(Permutations::new(vec![1, 2, 3], 1).is_some());
    assert!(Permutations::new(vec![1, 2, 3], 3).is_some());
}

#[test]
fn pairs_of_three() {
    let gen = Permutations::new(vec![1, 2, 3], 2).unwrap();
    let outputs = collect_all(gen);
    assert_eq!(outputs.len(), 6);
    for expected in [[1, 2], [1, 3], [2, 1], [2, 3], [3, 1], [3, 2]] {
        assert_eq!(occurrences(&outputs, &expected), 1);
    }
}

#[test]
fn full_permutations_of_three() {
    let gen = Permutations::new(vec![1, 2, 3], 3).unwrap();
    let outputs = collect_all(gen);
    assert_eq!(outputs.len(), 6);
    for expected in [
        [1, 2, 3],
        [1, 3, 2],
        [2, 1, 3],
        [2, 3, 1],
        [3, 1, 2],
        [3, 2, 1],
    ] {
        assert_eq!(occurrences(&outputs, &expected), 1);
    }
}

#[test]
fn single_element_input() {
    let gen = Permutations::new(vec!["a"], 1).unwrap();
    let outputs = collect_all(gen);
    assert_eq!(outputs, vec![vec!["a"]]);
}

#[test]
fn singles_of_two() {
    let gen = Permutations::new(vec![1, 2], 1).unwrap();
    let outputs = collect_all(gen);
    assert_eq!(outputs.len(), 2);
    assert_eq!(occurrences(&outputs, &[1]), 1);
    assert_eq!(occurrences(&outputs, &[2]), 1);
}

#[test]
fn counts_match_falling_factorial() {
    // n = 4: expect n! / (n-k)! arrangements, all distinct.
    let expected = [(1, 4), (2, 12), (3, 24), (4, 24)];
    for (k, count) in expected {
        let gen = Permutations::new(vec![10, 20, 30, 40], k).unwrap();
        let outputs = collect_all(gen);
        assert_eq!(outputs.len(), count, "take size {}", k);
        assert!(all_distinct(&outputs), "take size {}", k);
    }
}

#[test]
fn every_arrangement_has_length_k() {
    let gen = Permutations::new(vec![5, 6, 7, 8], 3).unwrap();
    let outputs = collect_all(gen);
    assert!(!outputs.is_empty());
    for o in &outputs {
        assert_eq!(o.len(), 3);
    }
}

#[test]
fn arrangements_respect_input_multiplicity() {
    // Duplicated input values: each input position may contribute at most
    // once, so no arrangement can hold the value 2 more than once.
    let gen = Permutations::new(vec![1, 2, 2], 2).unwrap();
    let outputs = collect_all(gen);
    assert_eq!(outputs.len(), 6);
    for o in &outputs {
        for value in [1, 2] {
            let in_output = o.iter().filter(|x| **x == value).count();
            let in_input = [1, 2, 2].iter().filter(|x| **x == value).count();
            assert!(in_output <= in_input);
        }
    }
}

#[test]
fn exhaustion_is_permanent() {
    let mut gen = Permutations::new(vec![1, 2, 3], 2).unwrap();
    let mut produced = 0;
    while gen.next().is_some() {
        produced += 1;
    }
    assert_eq!(produced, 6);
    assert!(gen.next().is_none());
    assert!(gen.next().is_none());
    assert!(gen.next().is_none());
}

#[test]
fn trait_construction_matches_direct_construction() {
    let via_trait = collect_all(vec![1, 2, 3].permutations(2).unwrap());
    let direct = collect_all(Permutations::new(vec![1, 2, 3], 2).unwrap());
    assert_eq!(via_trait, direct);
}

#[test]
fn trait_construction_rejects_invalid_take_size() {
    assert!(vec![1, 2, 3].permutations(0).is_none());
    assert!(vec![1, 2, 3].permutations(4).is_none());
}

#[test]
fn level_generator_walks_candidates() {
    // Pivot 0 over [1,2,3]: swaps are cumulative, starting past the pivot.
    let mut level = Permutation::new(vec![1, 2, 3], 0);
    assert_eq!(level.next(), Some(vec![2, 1, 3]));
    assert_eq!(level.next(), Some(vec![3, 1, 2]));
    assert_eq!(level.next(), None);
    assert_eq!(level.next(), None);
}

#[test]
fn level_generator_identity_first() {
    let mut level = Permutation::new(vec![1, 2, 3], 0);
    level.include_identity();
    assert_eq!(level.next(), Some(vec![1, 2, 3]));
    assert_eq!(level.next(), Some(vec![2, 1, 3]));
}

#[test]
fn level_generator_reseed_restarts_cursor() {
    let mut level = Permutation::new(vec![1, 2, 3], 0);
    assert_eq!(level.next(), Some(vec![2, 1, 3]));
    level.update(vec![7, 8, 9]);
    assert_eq!(level.next(), Some(vec![8, 7, 9]));
    assert_eq!(level.next(), Some(vec![9, 7, 8]));
    assert_eq!(level.next(), None);
}

#[test]
fn first_output_is_untouched_prefix() {
    let mut gen = Permutations::new(vec![4, 5, 6], 2).unwrap();
    assert_eq!(gen.next(), Some(vec![4, 5]));
}
