use ch::partition::{
    par_partition_range_by_key, par_partition_range_by_key_inner, partition_by_key,
    partition_range_by_key, ranges_of,
};

#[test]
fn empty_slice_has_no_runs() {
    let v: Vec<(u32, u32)> = Vec::new();
    assert!(partition_range_by_key(v.as_slice(), |x: &(u32, u32)| x.0).is_empty());
    assert!(par_partition_range_by_key(v.as_slice(), |x: &(u32, u32)| x.0).is_empty());
    assert!(partition_by_key(v.as_slice(), |x: &(u32, u32)| x.0).is_empty());
}

#[test]
fn runs_of_equal_keys() {
    let v: Vec<(u32, char)> =
        vec![(1, 'a'), (1, 'b'), (2, 'c'), (5, 'd'), (5, 'e'), (5, 'f'), (1, 'g')];
    let runs = partition_range_by_key(v.as_slice(), |x: &(u32, char)| x.0);
    assert_eq!(runs, vec![(1, 0..2), (2, 2..3), (5, 3..6), (1, 6..7)]);
    let runs = par_partition_range_by_key(v.as_slice(), |x: &(u32, char)| x.0);
    assert_eq!(runs, vec![(1, 0..2), (2, 2..3), (5, 3..6), (1, 6..7)]);
}

#[test]
fn one_run_for_one_key() {
    let v: Vec<u32> = vec![7, 7, 7, 7];
    assert_eq!(partition_range_by_key(v.as_slice(), |x: &u32| *x), vec![(7, 0..4)]);
    assert_eq!(par_partition_range_by_key(v.as_slice(), |x: &u32| *x), vec![(7, 0..4)]);
}

#[test]
fn runs_are_numbered_from_the_base() {
    let v: Vec<u32> = vec![3, 3, 4];
    let f = |x: &u32| *x;
    assert_eq!(ranges_of(10, v.as_slice(), &f), vec![(3, 10..12), (4, 12..13)]);
    assert_eq!(
        par_partition_range_by_key_inner(10, v.as_slice(), &f),
        vec![(3, 10..12), (4, 12..13)]
    );
}

#[test]
fn parallel_runs_agree_with_serial_runs() {
    let mut v: Vec<u32> = Vec::new();
    for i in 0..500u32 {
        for _ in 0..(1 + (i * 7) % 5) {
            v.push(i / 3);
        }
    }
    let a = partition_range_by_key(v.as_slice(), |x: &u32| *x);
    let b = par_partition_range_by_key(v.as_slice(), |x: &u32| *x);
    assert_eq!(a, b);
    assert_eq!(a.len(), 167);
    assert_eq!(a[0].1.start, 0);
    assert_eq!(a[a.len() - 1].1.end, v.len());
}

#[test]
fn slices_of_equal_keys() {
    let v: Vec<(u32, char)> = vec![(1, 'a'), (1, 'b'), (2, 'c'), (5, 'd'), (5, 'e')];
    let parts = partition_by_key(v.as_slice(), |x: &(u32, char)| x.0);
    assert_eq!(parts.len(), 3);
    assert_eq!(parts[0], (1, &v[0..2]));
    assert_eq!(parts[1], (2, &v[2..3]));
    assert_eq!(parts[2], (5, &v[3..5]));
}
