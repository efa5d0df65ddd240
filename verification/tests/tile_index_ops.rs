use tilesort::key_extractor::IdentityKey;
use tilesort::key_extractor::KeyExtractor;
use tilesort::tile_index::Tile;
use tilesort::tile_index::TileIndex;

/// Walk the index and check the invariants that must hold after every
/// insertion: tiles ordered by tile key, key ranges non-conflicting in
/// index order, index ranges pairwise disjoint, and the element total
/// equal to what was inserted so far.
fn check_invariants(index: &TileIndex, reverse: bool, expected_total: usize) {
    let mut total: usize = 0;
    let mut ranges: Vec<(usize, usize)> = Vec::new();
    let len = index.len();
    for i in 0..len {
        let t = index.get(i).unwrap();
        assert!(t.len() >= 1);
        total += t.len();
        ranges.push((t.start_idx(), t.start_idx() + t.len()));
        if i + 1 < len {
            let next = index.get(i + 1).unwrap();
            if reverse {
                assert!(t.tile_key >= next.tile_key);
                assert!(t.end_key >= next.tile_key);
            } else {
                assert!(t.tile_key <= next.tile_key);
                assert!(t.end_key <= next.tile_key);
            }
        }
    }
    assert_eq!(total, expected_total);
    for a in 0..ranges.len() {
        for b in (a + 1)..ranges.len() {
            let (s1, e1) = ranges[a];
            let (s2, e2) = ranges[b];
            assert!(e1 <= s2 || e2 <= s1);
        }
    }
}

#[test]
fn insert_tile_keeps_invariants_after_every_insertion() {
    // Keys of [1, 3, 5, 2, 4, 6]: two interleaved runs whose key ranges
    // overlap, so the second insertion must split.
    let element_keys: Vec<u64> = vec![1, 3, 5, 2, 4, 6];
    let mut index = TileIndex::new();

    let first_run = Tile::new(0, 3, 1, 5);
    index.insert_tile(first_run, &element_keys, false);
    check_invariants(&index, false, 3);
    assert_eq!(index.len(), 1);

    let second_run = Tile::new(3, 3, 2, 6);
    index.insert_tile(second_run, &element_keys, false);
    check_invariants(&index, false, 6);
    // The overlap must have produced at least one split.
    assert!(index.len() > 2);
}

#[test]
fn insert_tile_nested_range_splits_resident_tile() {
    // Keys of [10, 20, 30, 40, 21, 22]: the second run's key range lies
    // strictly inside the first run's.
    let element_keys: Vec<u64> = vec![10, 20, 30, 40, 21, 22];
    let mut index = TileIndex::new();

    index.insert_tile(Tile::new(0, 4, 10, 40), &element_keys, false);
    check_invariants(&index, false, 4);

    index.insert_tile(Tile::new(4, 2, 21, 22), &element_keys, false);
    check_invariants(&index, false, 6);
    assert!(index.len() >= 3);
}

#[test]
fn insert_tile_descending_direction() {
    // Keys of [6, 4, 2, 5, 3, 1] under a descending sort: runs [6,4,2]
    // and [5,3,1] interleave.
    let element_keys: Vec<u64> = vec![6, 4, 2, 5, 3, 1];
    let mut index = TileIndex::new();

    index.insert_tile(Tile::new(0, 3, 6, 2), &element_keys, true);
    check_invariants(&index, true, 3);

    index.insert_tile(Tile::new(3, 3, 5, 1), &element_keys, true);
    check_invariants(&index, true, 6);
}

#[test]
fn find_split_point_locates_boundary() {
    let element_keys: Vec<u64> = vec![1, 3, 5];
    let tile = Tile::new(0, 3, 1, 5);
    assert_eq!(tile.find_split_point(&element_keys, 2, false), 1);
    assert_eq!(tile.find_split_point(&element_keys, 3, false), 1);
    assert_eq!(tile.find_split_point(&element_keys, 4, false), 2);
    assert_eq!(tile.find_split_point(&element_keys, 6, false), 3);

    let desc_keys: Vec<u64> = vec![5, 3, 1];
    let desc_tile = Tile::new(0, 3, 5, 1);
    assert_eq!(desc_tile.find_split_point(&desc_keys, 4, true), 1);
    assert_eq!(desc_tile.find_split_point(&desc_keys, 3, true), 1);
    assert_eq!(desc_tile.find_split_point(&desc_keys, 0, true), 3);
}

#[test]
fn tile_accessors() {
    let tile = Tile::new(2, 3, 7, 9);
    assert_eq!(tile.start_idx(), 2);
    assert_eq!(tile.len(), 3);
    assert_eq!(tile.end_idx(), 5);
    assert_eq!(tile.end_index(), 4);
}

#[test]
fn tile_index_basic_operations() {
    let mut index = TileIndex::new();
    assert!(index.is_empty());
    assert_eq!(index.len(), 0);
    assert!(index.get(0).is_none());

    index.push(Tile::new(0, 2, 1, 2));
    assert!(!index.is_empty());
    assert_eq!(index.len(), 1);

    index.insert(0, Tile::new(2, 1, 0, 0));
    assert_eq!(index.len(), 2);
    let first = index.get(0).unwrap();
    assert_eq!(first.start_idx(), 2);
    assert_eq!(first.len(), 1);

    let tiles = index.iter();
    assert_eq!(tiles.len(), 2);
    assert_eq!(tiles[0].start_idx(), 2);
    assert_eq!(tiles[1].start_idx(), 0);
}

#[test]
fn identity_key_extracts_element_itself() {
    let extractor = IdentityKey;
    assert_eq!(extractor.extract_key(&17), 17);
    assert_eq!(extractor.extract_key(&0), 0);
    assert_eq!(extractor.extract_key(&u64::MAX), u64::MAX);
}
