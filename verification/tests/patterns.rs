use wfc::patterns::Pattern;
use wfc::slots::Location;

#[test]
fn rotate() {
    let data: Vec<u32> = vec![
        1, 2, 3,
        4, 5, 6,
        7, 8, 9
    ];

    let expected: Vec<u32> = vec![
        7, 4, 1,
        8, 5, 2,
        9, 6, 3
    ];

    let pattern = Pattern::new(data);
    let rotated = pattern.rotate();

    assert_eq!(&expected, rotated.data());

    let data: Vec<u32> = vec![
        1, 2, 3, 4,
        5, 6, 7, 8,
        9, 10, 11, 12,
        13, 14, 15, 16
    ];

    let expected: Vec<u32> = vec![
        13, 9, 5, 1,
        14, 10, 6, 2,
        15, 11, 7, 3,
        16, 12, 8, 4
    ];

    let pattern = Pattern::new(data);
    let rotated = pattern.rotate();

    assert_eq!(&expected, rotated.data());
}

#[test]
fn reflect() {
    let data: Vec<u32> = vec![
        1, 2, 3,
        4, 5, 6,
        7, 8, 9
    ];

    let expected: Vec<u32> = vec![
        3, 2, 1,
        6, 5, 4,
        9, 8, 7
    ];

    let pattern = Pattern::new(data);
    let reflected = pattern.reflect();

    assert_eq!(&expected, reflected.data());

    let data: Vec<u32> = vec![
        1, 2, 3, 4,
        5, 6, 7, 8,
        9, 10, 11, 12,
        13, 14, 15, 16
    ];

    let expected: Vec<u32> = vec![
        4, 3, 2, 1,
        8, 7, 6, 5,
        12, 11, 10, 9,
        16, 15, 14, 13
    ];

    let pattern = Pattern::new(data);
    let reflected = pattern.reflect();

    assert_eq!(&expected, reflected.data());
}

#[test]
fn north_slot() {
    let data: Vec<u32> = vec![
        1, 2, 3,
        4, 5, 6,
        7, 8, 9
    ];

    let pattern = Pattern::new(data);
    let slot = pattern.slot(Location::North);

    assert!(slot.data_eq(&vec![1, 2, 3]));
}

#[test]
fn east_slot() {
    let data: Vec<u32> = vec![
        1, 2, 3,
        4, 5, 6,
        7, 8, 9
    ];

    let pattern = Pattern::new(data);
    let slot = pattern.slot(Location::East);

    assert!(slot.data_eq(&vec![3, 6, 9]));
}

#[test]
fn south_slot() {
    let data: Vec<u32> = vec![
        1, 2, 3,
        4, 5, 6,
        7, 8, 9
    ];

    let pattern = Pattern::new(data);
    let slot = pattern.slot(Location::South);

    assert!(slot.data_eq(&vec![7, 8, 9]));
}

#[test]
fn west_slot() {
    let data: Vec<u32> = vec![
        1, 2, 3,
        4, 5, 6,
        7, 8, 9
    ];

    let pattern = Pattern::new(data);
    let slot = pattern.slot(Location::West);

    assert!(slot.data_eq(&vec![1, 4, 7]));
}

#[test]
fn is_compatible() {
    let a = Pattern::new((1..=9u32).collect());
    let b = a.rotate().rotate();

    assert!(a.is_compatible(&b, Location::South));
}

#[test]
fn rotate_four_times_is_identity() {
    let data: Vec<u32> = vec![3, 1, 4, 1, 5, 9, 2, 6, 5];
    let pattern = Pattern::new(data.clone());
    let back = pattern.rotate().rotate().rotate().rotate();
    assert_eq!(&data, back.data());
}

#[test]
fn reflect_twice_is_identity() {
    let data: Vec<u32> = vec![3, 1, 4, 1, 5, 9, 2, 6, 5];
    let pattern = Pattern::new(data.clone());
    let back = pattern.reflect().reflect();
    assert_eq!(&data, back.data());
}

#[test]
fn all_permutations_are_closed_under_symmetries() {
    let data: Vec<u32> = vec![1, 2, 3, 4];
    let perms = Pattern::new(data).all_permutations();
    assert_eq!(8, perms.len());

    // Rotating or reflecting any member lands back in the family.
    for p in perms.iter() {
        let r = p.rotate();
        assert!(perms.iter().any(|q| q.eq_pattern(&r)));
        let f = p.reflect();
        assert!(perms.iter().any(|q| q.eq_pattern(&f)));
    }
}

#[test]
fn all_permutations_of_uniform_pattern_coincide() {
    let perms = Pattern::new(vec![7, 7, 7, 7]).all_permutations();
    assert_eq!(8, perms.len());
    for p in perms.iter() {
        assert_eq!(&vec![7, 7, 7, 7], p.data());
    }
}
