use permutations::PermError;
use permutations::Permutations;

fn collect_up_to(n: usize, limit: usize) -> Vec<Vec<usize>> {
    let mut gen = Permutations::of(n).unwrap();
    let mut out: Vec<Vec<usize>> = Vec::new();
    while out.len() < limit {
        match gen.next() {
            Some(p) => out.push(p),
            None => break,
        }
    }
    out
}

fn factorial(n: usize) -> usize {
    let mut r: usize = 1;
    let mut i: usize = 2;
    while i <= n {
        r *= i;
        i += 1;
    }
    r
}

fn is_rearrangement(p: &Vec<usize>, n: usize) -> bool {
    if p.len() != n {
        return false;
    }
    let mut seen = vec![false; n];
    for &v in p {
        if v >= n || seen[v] {
            return false;
        }
        seen[v] = true;
    }
    true
}

/// Prints permutations of 4
#[test]
fn print_permutations_of_4() {
    println!("All permutations of [4]");
    let mut gen = Permutations::of(4).unwrap();
    while let Some(perm) = gen.next() {
        println!("{:?}", perm);
    }
}

/// Prints first 50 permutations of 20
#[test]
fn print_first_50_permutations_of_20() {
    println!("First 50 permutations of [20]");
    let mut gen = Permutations::of(20).unwrap();
    let mut count: usize = 0;
    while count < 50 {
        match gen.next() {
            Some(perm) => {
                println!("{:?}", perm);
                count += 1;
            },
            None => break,
        }
    }
    assert_eq!(count, 50);
}

#[test]
fn produces_factorial_many_distinct() {
    for n in 1usize..=5 {
        let all = collect_up_to(n, factorial(n) + 2);
        assert_eq!(all.len(), factorial(n));
        for p in &all {
            assert!(is_rearrangement(p, n));
        }
        for i in 0..all.len() {
            for j in (i + 1)..all.len() {
                assert_ne!(all[i], all[j]);
            }
        }
    }
}

#[test]
fn first_is_identity() {
    for n in 1usize..=6 {
        let mut gen = Permutations::of(n).unwrap();
        let first = gen.next().unwrap();
        let identity: Vec<usize> = (0..n).collect();
        assert_eq!(first, identity);
    }
}

#[test]
fn consecutive_differ_by_adjacent_swap() {
    let all = collect_up_to(4, 30);
    assert_eq!(all.len(), 24);
    for w in all.windows(2) {
        let a = &w[0];
        let b = &w[1];
        let mut diffs: Vec<usize> = Vec::new();
        for i in 0..a.len() {
            if a[i] != b[i] {
                diffs.push(i);
            }
        }
        assert_eq!(diffs.len(), 2);
        assert_eq!(diffs[1], diffs[0] + 1);
        assert_eq!(a[diffs[0]], b[diffs[1]]);
        assert_eq!(a[diffs[1]], b[diffs[0]]);
    }
}

#[test]
fn exhaustion_is_idempotent() {
    let mut gen = Permutations::of(2).unwrap();
    assert!(gen.next().is_some());
    assert!(gen.next().is_some());
    assert!(gen.next().is_none());
    assert!(gen.next().is_none());
    assert!(gen.next().is_none());
    assert_eq!(gen.get_n(), 2);
}

#[test]
fn zero_is_rejected() {
    match Permutations::of(0) {
        Err(e) => assert_eq!(e, PermError::InvalidArgument),
        Ok(_) => panic!("a generator for zero elements must not be built"),
    }
}

#[test]
fn one_yields_single_permutation() {
    let mut gen = Permutations::of(1).unwrap();
    assert_eq!(gen.next().unwrap(), vec![0]);
    assert!(gen.next().is_none());
    assert!(gen.next().is_none());
}

#[test]
fn sequence_for_three_is_exact() {
    let expected: Vec<Vec<usize>> = vec![
        vec![0, 1, 2],
        vec![0, 2, 1],
        vec![2, 0, 1],
        vec![2, 1, 0],
        vec![1, 2, 0],
        vec![1, 0, 2],
    ];
    let mut gen = Permutations::of(3).unwrap();
    for e in &expected {
        assert_eq!(gen.next().unwrap(), *e);
    }
    assert!(gen.next().is_none());
}

#[test]
fn twenty_four_permutations_of_four() {
    let mut gen = Permutations::of(4).unwrap();
    let mut seen: Vec<Vec<usize>> = Vec::new();
    for _k in 0usize..24 {
        let p = gen.next().unwrap();
        assert!(is_rearrangement(&p, 4));
        assert!(!seen.contains(&p));
        seen.push(p);
    }
    assert!(gen.next().is_none());
}

#[test]
fn get_n_reports_size() {
    let gen = Permutations::of(7).unwrap();
    assert_eq!(gen.get_n(), 7);
}

#[test]
fn emitted_copies_are_independent() {
    let mut gen = Permutations::of(3).unwrap();
    let first = gen.next().unwrap();
    let second = gen.next().unwrap();
    assert_eq!(first, vec![0, 1, 2]);
    assert_eq!(second, vec![0, 2, 1]);
}
