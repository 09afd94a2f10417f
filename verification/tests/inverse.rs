use permutations::inverse_perm;

#[test]
fn inverse_of_concrete_permutation() {
    let p: Vec<usize> = vec![2, 0, 1];
    assert_eq!(inverse_perm(&p), vec![1, 2, 0]);
}

#[test]
fn inverse_round_trip() {
    let p: Vec<usize> = vec![3, 1, 4, 0, 2];
    let inv = inverse_perm(&p);
    for i in 0..p.len() {
        assert_eq!(inv[p[i]], i);
    }
    assert_eq!(inverse_perm(&inv), p);
}

#[test]
fn inverse_of_identity_is_identity() {
    let p: Vec<usize> = vec![0, 1, 2, 3];
    assert_eq!(inverse_perm(&p), p);
}

#[test]
fn inverse_does_not_mutate_input() {
    let p: Vec<usize> = vec![1, 2, 0];
    let _inv = inverse_perm(&p);
    assert_eq!(p, vec![1, 2, 0]);
}
