use wfc::slots::{Location, Slot};

#[test]
fn can_be_adjacent() {
    assert_eq!(
        true,
        Slot::new(vec![1, 1, 1], Location::North)
            .can_be_adjacent(&Slot::new(vec![1, 1, 1], Location::South))
    );
    assert_eq!(
        true,
        Slot::new(vec![2, 2, 3, 1], Location::East)
            .can_be_adjacent(&Slot::new(vec![1, 3, 2, 2], Location::West))
    );
    assert_eq!(
        true,
        Slot::new(vec![2, 2, 3, 1], Location::South)
            .can_be_adjacent(&Slot::new(vec![1, 3, 2, 2], Location::North))
    );
    assert_eq!(
        true,
        Slot::new(vec![2, 2, 3, 1], Location::East)
            .can_be_adjacent(&Slot::new(vec![1, 3, 2, 2], Location::West))
    );
    assert_eq!(
        true,
        Slot::new(vec![2, 2, 3, 1], Location::West)
            .can_be_adjacent(&Slot::new(vec![1, 3, 2, 2], Location::East))
    );

    assert_eq!(
        false,
        Slot::new(vec![1, 2, 1], Location::North)
            .can_be_adjacent(&Slot::new(vec![1, 1, 1], Location::South))
    );
    assert_eq!(
        false,
        Slot::new(vec![2, 2, 1], Location::North)
            .can_be_adjacent(&Slot::new(vec![2, 2, 1], Location::South))
    );

    assert_eq!(
        false,
        Slot::new(vec![1, 1], Location::North)
            .can_be_adjacent(&Slot::new(vec![1, 1, 1], Location::South))
    );

    assert_eq!(
        false,
        Slot::new(vec![1, 1, 1], Location::North)
            .can_be_adjacent(&Slot::new(vec![1, 1, 1], Location::North))
    );
    assert_eq!(
        false,
        Slot::new(vec![1, 1, 1], Location::East)
            .can_be_adjacent(&Slot::new(vec![1, 1, 1], Location::East))
    );
    assert_eq!(
        false,
        Slot::new(vec![1, 1, 1], Location::South)
            .can_be_adjacent(&Slot::new(vec![1, 1, 1], Location::South))
    );
    assert_eq!(
        false,
        Slot::new(vec![1, 1, 1], Location::West)
            .can_be_adjacent(&Slot::new(vec![1, 1, 1], Location::West))
    );

    assert_eq!(
        false,
        Slot::new(vec![1, 1, 1], Location::North)
            .can_be_adjacent(&Slot::new(vec![1, 1, 1], Location::East))
    );
    assert_eq!(
        false,
        Slot::new(vec![1, 1, 1], Location::North)
            .can_be_adjacent(&Slot::new(vec![1, 1, 1], Location::West))
    );
    assert_eq!(
        false,
        Slot::new(vec![1, 1, 1], Location::South)
            .can_be_adjacent(&Slot::new(vec![1, 1, 1], Location::East))
    );
    assert_eq!(
        false,
        Slot::new(vec![1, 1, 1], Location::South)
            .can_be_adjacent(&Slot::new(vec![1, 1, 1], Location::West))
    );
}

#[test]
fn can_be_adjacent_is_symmetric() {
    let pairs = [
        (vec![1u32, 2, 3], Location::North, vec![3u32, 2, 1], Location::South),
        (vec![1, 2, 3], Location::East, vec![1, 2, 3], Location::West),
        (vec![1, 1, 1], Location::South, vec![1, 1, 1], Location::North),
        (vec![1, 2], Location::West, vec![9, 9], Location::East),
    ];
    for (da, la, db, lb) in pairs {
        let a = Slot::new(da, la);
        let b = Slot::new(db, lb);
        assert_eq!(a.can_be_adjacent(&b), b.can_be_adjacent(&a));
    }
}

#[test]
fn direction_tables() {
    assert_eq!(Location::North.opposite(), Location::South);
    assert_eq!(Location::East.opposite(), Location::West);
    assert_eq!(Location::South.opposite(), Location::North);
    assert_eq!(Location::West.opposite(), Location::East);

    assert_eq!(Location::North.rotate(), Location::East);
    assert_eq!(Location::East.rotate(), Location::South);
    assert_eq!(Location::South.rotate(), Location::West);
    assert_eq!(Location::West.rotate(), Location::North);

    assert_eq!(Location::North.reflect(), Location::North);
    assert_eq!(Location::East.reflect(), Location::West);
    assert_eq!(Location::South.reflect(), Location::South);
    assert_eq!(Location::West.reflect(), Location::East);
}
