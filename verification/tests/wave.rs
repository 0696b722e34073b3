use wfc::patterns::Pattern;
use wfc::tiles::Tile;
use wfc::{Wave, WaveCollapseError};

fn single_tile_wave() -> Wave {
    let tiles = vec![Tile::new(Pattern::new(vec![5]), 1, 0)];
    Wave::new(&tiles, 3, 3, 1)
}

#[test]
fn trivial_wave() {
    // One tile that can sit beside itself everywhere: every cell of the 3x3
    // grid holds a single possibility from the start, so all nine cells
    // count as collapsed and a further step reports the wave as finished.
    let mut wave = single_tile_wave();
    assert_eq!(9, wave.num_collapsed_cells());
    assert!(wave.collapsed());

    let result = wave.collapse();
    assert!(matches!(result, Err(WaveCollapseError::AlreadyCollapsed)));
    assert_eq!(9, wave.num_collapsed_cells());
    for i in 0..9 {
        let ids = wave.remaining_tile_ids(i);
        assert_eq!(1, ids.len());
        assert_eq!(0, ids[0].0);
        assert_eq!(0, wave.choosen_tile(i).unwrap().0);
    }
}

#[test]
fn already_collapsed_is_reported() {
    let mut wave = single_tile_wave();
    assert!(matches!(
        wave.collapse(),
        Err(WaveCollapseError::AlreadyCollapsed)
    ));
}

#[test]
fn single_cell_wave_collapses() {
    // Two tiles that can each only sit beside themselves, on a single cell:
    // one step picks one of them and the wave is done. This would go wrong
    // if either random draw could fall outside its range.
    let tiles = vec![
        Tile::new(Pattern::new(vec![1]), 1, 0),
        Tile::new(Pattern::new(vec![2]), 1, 1),
    ];
    let mut wave = Wave::new(&tiles, 1, 1, 1);
    assert!(!wave.collapsed());
    assert_eq!(0, wave.num_collapsed_cells());

    let result = wave.collapse();
    assert_eq!(Ok(true), result);
    assert!(wave.collapsed());
    let ids = wave.remaining_tile_ids(0);
    assert_eq!(1, ids.len());
    assert!(ids[0].0 <= 1);
}

#[test]
fn incompatible_tiles_settle_on_one_of_them() {
    // Two tiles, each compatible only with itself. On a 1x2 ring, collapsing
    // either cell forces the other to the same tile in the same step.
    let tiles = vec![
        Tile::new(Pattern::new(vec![1]), 1, 0),
        Tile::new(Pattern::new(vec![2]), 1, 1),
    ];
    let mut wave = Wave::new(&tiles, 2, 1, 1);
    assert!(!wave.collapsed());

    let result = wave.collapse();
    assert_eq!(Ok(true), result);
    assert!(wave.collapsed());

    let left = wave.remaining_tile_ids(0);
    let right = wave.remaining_tile_ids(1);
    assert_eq!(1, left.len());
    assert_eq!(1, right.len());
    assert_eq!(left[0].0, right[0].0);
}

#[test]
fn contradiction_is_detected() {
    // Three 2x2 tiles on a ring of three cells. Their horizontal fits: the
    // first tile accepts only the third to its east, while the second and
    // third each accept the first and the second. Some runs settle on a
    // consistent single-tile filling; in others a later observation picks a
    // tile whose propagated eliminations empty an already collapsed cell,
    // and the run reports that cell. Over many runs both outcomes appear.
    let mut saw_contradiction = false;
    let mut saw_success = false;
    for _ in 0..500 {
        let tiles = vec![
            Tile::new(Pattern::new(vec![1, 2, 1, 2]), 1, 0),
            Tile::new(Pattern::new(vec![1, 1, 1, 1]), 1, 1),
            Tile::new(Pattern::new(vec![2, 1, 2, 1]), 1, 2),
        ];
        let mut wave = Wave::new(&tiles, 3, 1, 2);
        loop {
            match wave.collapse() {
                Ok(true) => {
                    saw_success = true;
                    assert!(wave.collapsed());
                    assert_eq!(1, wave.remaining_tile_ids(0).len());
                    assert_eq!(1, wave.remaining_tile_ids(1).len());
                    assert_eq!(1, wave.remaining_tile_ids(2).len());
                    break;
                }
                Ok(false) => {
                    continue;
                }
                Err(WaveCollapseError::InvalidCell(i)) => {
                    saw_contradiction = true;
                    assert!(i < 3);
                    break;
                }
                Err(WaveCollapseError::AlreadyCollapsed) => {
                    panic!("a running wave reported itself as finished");
                }
            }
        }
        if saw_contradiction && saw_success {
            break;
        }
    }
    assert!(saw_success);
    assert!(saw_contradiction);
}

#[test]
fn larger_wave_runs_to_completion() {
    // A single self-fitting tile plus weights exercises a full 4x4 run.
    let tiles = vec![
        Tile::new(Pattern::new(vec![3]), 3, 0),
        Tile::new(Pattern::new(vec![3]), 1, 1),
    ];
    let mut wave = Wave::new(&tiles, 4, 4, 1);
    let mut steps = 0;
    while !wave.collapsed() {
        match wave.collapse() {
            Ok(_) => {}
            Err(e) => panic!("unexpected error: {:?}", e),
        }
        steps += 1;
        assert!(steps <= 16);
    }
    for i in 0..16 {
        assert_eq!(1, wave.remaining_tile_ids(i).len());
    }
}
