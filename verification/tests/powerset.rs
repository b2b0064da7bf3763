use rwwf::powerset;

#[test]
fn test_empty_set() {
    let s: Vec<i32> = Vec::new();
    let p = powerset(&s[..]);
    assert_eq!(p, vec![vec![]]);
}

#[test]
fn test_1_set() {
    let s = vec![1];
    let p = powerset(&s[..]);
    assert_eq!(p, vec![
        vec![],
        vec![1],
    ]);
}

#[test]
fn test_2_set() {
    let s = vec![1, 2];
    let p = powerset(&s[..]);
    assert_eq!(p, vec![
        vec![],
        vec![1],
        vec![2],
        vec![1, 2],
    ]);
}

#[test]
fn test_3_set() {
    let s = vec![1, 2, 3];
    let p = powerset(&s[..]);
    assert_eq!(p, vec![
        vec![],
        vec![1],
        vec![2],
        vec![1, 2],
        vec![3],
        vec![1, 3],
        vec![2, 3],
        vec![1, 2, 3],
    ]);
}

#[test]
fn powerset_has_two_to_the_n_subsets() {
    for n in 0..11usize {
        let s: Vec<usize> = (0..n).collect();
        let p = powerset(&s[..]);
        assert_eq!(p.len(), 1usize << n);
        assert_eq!(p[0], Vec::<usize>::new());
        assert_eq!(p[p.len() - 1], s);
    }
}

#[test]
fn powerset_subset_follows_the_bits_of_its_mask() {
    let s = vec!['a', 'b', 'c', 'd', 'e'];
    let p = powerset(&s[..]);
    assert_eq!(p[0b10110], vec!['b', 'c', 'e']);
    assert_eq!(p[0b00001], vec!['a']);
    assert_eq!(p[0b10000], vec!['e']);
    for (mask, set) in p.iter().enumerate() {
        let expected: Vec<char> =
            (0..s.len()).filter(|i| mask & (1 << i) != 0).map(|i| s[i]).collect();
        assert_eq!(set, &expected);
    }
}

#[test]
fn powerset_treats_equal_values_as_distinct_elements() {
    let s = vec![7, 7];
    let p = powerset(&s[..]);
    assert_eq!(p, vec![vec![], vec![7], vec![7], vec![7, 7]]);
}
