// Permutation generator behavior: both strategies enumerate every ordering
// of 0..n exactly once, starting from the identity.

use block_blast::perm::Permutation;

fn factorial(n: usize) -> usize {
    (1..=n).product()
}

fn is_permutation(v: &[usize], n: usize) -> bool {
    let mut seen = vec![false; n];
    if v.len() != n {
        return false;
    }
    for &x in v {
        if x >= n || seen[x] {
            return false;
        }
        seen[x] = true;
    }
    true
}

fn collect_all(n: usize, sjt: bool) -> Vec<Vec<usize>> {
    let mut gen = Permutation::new(n, sjt);
    let mut all = vec![gen.perm.clone()];
    while gen.permute() {
        all.push(gen.perm.clone());
        assert!(all.len() <= factorial(n), "generator yielded too many orderings");
    }
    all
}

fn check_complete(n: usize, sjt: bool) {
    let all = collect_all(n, sjt);
    assert_eq!(all.len(), factorial(n));
    let identity: Vec<usize> = (0..n).collect();
    assert_eq!(all[0], identity);
    for p in &all {
        assert!(is_permutation(p, n));
    }
    for i in 0..all.len() {
        for j in 0..i {
            assert_ne!(all[i], all[j], "duplicate permutation");
        }
    }
}

#[test]
fn heap_complete_n1_to_n5() {
    for n in 1..=5 {
        check_complete(n, false);
    }
}

#[test]
fn sjt_complete_n1_to_n5() {
    for n in 1..=5 {
        check_complete(n, true);
    }
}

#[test]
fn sjt_steps_are_adjacent_transpositions() {
    let mut gen = Permutation::new(4, true);
    let mut prev = gen.perm.clone();
    while gen.permute() {
        let cur = gen.perm.clone();
        let diff: Vec<usize> = (0..4).filter(|&i| prev[i] != cur[i]).collect();
        assert_eq!(diff.len(), 2);
        assert_eq!(diff[0] + 1, diff[1], "swap must be adjacent");
        assert_eq!(prev[diff[0]], cur[diff[1]]);
        assert_eq!(prev[diff[1]], cur[diff[0]]);
        prev = cur;
    }
}

#[test]
fn exhausted_generator_leaves_perm_unchanged() {
    for sjt in [false, true] {
        let mut gen = Permutation::new(3, sjt);
        loop {
            let before = gen.perm.clone();
            if !gen.permute() {
                assert_eq!(gen.perm, before);
                break;
            }
        }
    }
}
