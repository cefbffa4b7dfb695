use fnv::FnvHashMap;
use snake_block::{
    combine_positions, could_block_all, count_down_tree, possible_snakes, prepare_snakes,
    BranchIterator,
};

#[test]
fn one_step_from_corner() {
    let t = possible_snakes(1, 1 << 0);
    assert_eq!(t.len(), 512);
    // the two walks are {0, 1} and {0, 3}
    let marked: Vec<usize> = (0..512).filter(|&m| t[m]).collect();
    assert_eq!(marked, vec![0, 1, 2, 3, 8, 9]);
}

#[test]
fn two_steps_from_centre() {
    let t = possible_snakes(2, 1 << 4);
    // centre, up, up-right corner
    assert!(t[(1 << 4) | (1 << 1) | (1 << 2)]);
    // a straight line through the centre is not a walk that starts there
    assert!(!t[(1 << 3) | (1 << 4) | (1 << 5)]);
    assert!(t[(1 << 3) | (1 << 4)]);
    // cells that are three steps apart
    assert!(!t[(1 << 0) | (1 << 8)]);
}

#[test]
fn long_walk_covers_whole_row() {
    let t = possible_snakes(7, 1 << 0);
    assert!(t[0b_000_000_111]);
    // 0 1 2 5 4 3 6 7: eight cells, all but cell 8
    assert!(t[0b_011_111_111]);
    assert!(!t[0b_111_111_111]);
}

#[test]
fn table_layout() {
    let table = prepare_snakes();
    assert_eq!(table.len(), 9);
    for h in 0..9 {
        assert_eq!(table[h].len(), 7);
        for l in 1..=7 {
            assert_eq!(table[h][l - 1], possible_snakes(l, 1 << h));
        }
    }
}

#[test]
fn blocking_needs_a_covering_walk() {
    let table = prepare_snakes();
    // from cell 0, one step reaches {0, 1}
    assert!(could_block_all(1 << 0, 0b_000_000_011, &table, 1));
    // but not {1, 2}
    assert!(!could_block_all(1 << 0, 0b_000_000_110, &table, 1));
    // a second head at cell 2 covers {1, 2}
    assert!(could_block_all((1 << 0) | (1 << 2), 0b_000_000_110, &table, 1));
    // no head: nothing to cover
    assert!(!could_block_all(0, 0b_000_000_001, &table, 0));
}

#[test]
fn union_of_positions() {
    assert_eq!(combine_positions(&[1, 2, 4, 0, 0, 0, 0, 0, 0]), 7);
    assert_eq!(combine_positions(&[0; 9]), 0);
    assert_eq!(combine_positions(&[1, 1, 256, 0, 0, 0, 0, 0, 16]), 273);
}

#[test]
fn first_layer_is_every_single_cell() {
    let table = prepare_snakes();
    let mut it = BranchIterator::new(0, 0, &table);
    assert_eq!(it.count(), 9);
    let mut got = Vec::new();
    while let Some(b) = it.next() {
        got.push(b);
    }
    assert_eq!(got, vec![1, 2, 4, 8, 16, 32, 64, 128, 256]);
    assert_eq!(it.next(), None);
    assert_eq!(it.count(), 0);
}

#[test]
fn branches_avoid_single_head() {
    let table = prepare_snakes();
    for head in 0..9u32 {
        for len in 1..=7usize {
            let mut it = BranchIterator::new(1 << head, len, &table);
            let mut n = 0;
            while let Some(b) = it.next() {
                assert!(b != 0 && b < 512);
                assert_eq!(b & (1 << head), 0);
                n += 1;
            }
            assert!(n > 0);
        }
    }
}

#[test]
fn branches_below_corner_after_one_step() {
    let table = prepare_snakes();
    // the snake at cell 0 has walks {0,1} and {0,3}; a single cell other than
    // 1 and 3 cuts off both, while 1 or 3 alone leaves the other walk open
    let mut it = BranchIterator::new(1 << 0, 1, &table);
    let mut got = Vec::new();
    while let Some(b) = it.next() {
        got.push(b);
    }
    assert!(got.contains(&(1 << 4)));
    assert!(got.contains(&(1 << 8)));
    assert!(got.contains(&((1 << 1) | (1 << 3))));
    assert!(!got.contains(&(1 << 1)));
    assert!(!got.contains(&(1 << 3)));
}

#[test]
fn last_depth_counts_branches() {
    let table = prepare_snakes();
    let mut memo = FnvHashMap::default();
    for layer in [1u32, 2, 16, 3, 17] {
        let it = BranchIterator::new(layer, 7, &table);
        let n = it.count() as u128;
        assert_eq!(count_down_tree(7, layer, &table, &mut memo), Some(n));
        assert_eq!(memo.get(&(layer as u16, 7u8)), Some(&n));
    }
}

#[test]
fn one_level_above_sums_children() {
    let table = prepare_snakes();
    let mut memo = FnvHashMap::default();
    let layer = 1u32 << 4;
    let mut it = BranchIterator::new(layer, 6, &table);
    let mut seen: std::collections::HashMap<u32, u128> = std::collections::HashMap::new();
    let mut sum = 0u128;
    while let Some(b) = it.next() {
        let n = *seen
            .entry(b)
            .or_insert_with(|| BranchIterator::new(b, 7, &table).count() as u128);
        sum += n;
    }
    assert_eq!(count_down_tree(6, layer, &table, &mut memo), Some(sum));
}

#[test]
fn symmetric_layers_have_equal_counts() {
    let table = prepare_snakes();
    let mut memo = FnvHashMap::default();
    let corner = count_down_tree(6, 1 << 0, &table, &mut memo);
    assert!(corner.unwrap() > 0);
    for c in [2u32, 6, 8] {
        assert_eq!(count_down_tree(6, 1 << c, &table, &mut memo), corner);
    }
    let side = count_down_tree(6, 1 << 1, &table, &mut memo);
    for c in [3u32, 5, 7] {
        assert_eq!(count_down_tree(6, 1 << c, &table, &mut memo), side);
    }
}

#[test]
fn memo_holds_every_image() {
    let table = prepare_snakes();
    let mut memo = FnvHashMap::default();
    let layer = (1u32 << 0) | (1 << 1);
    let total = count_down_tree(7, layer, &table, &mut memo).unwrap();
    assert_eq!(memo.len(), 8);
    for v in snake_block::variations(layer) {
        assert_eq!(memo.get(&(v as u16, 7u8)), Some(&total));
    }
    // a second call is answered from the memo
    assert_eq!(count_down_tree(7, 0b_110_000_000, &table, &mut memo), Some(total));
}

#[test]
fn first_layer_total_combines_corner_side_centre() {
    let table = prepare_snakes();
    let mut memo = FnvHashMap::default();
    let total = count_down_tree(0, 0, &table, &mut memo).unwrap();
    let corner = count_down_tree(1, 1 << 0, &table, &mut memo).unwrap();
    let side = count_down_tree(1, 1 << 1, &table, &mut memo).unwrap();
    let centre = count_down_tree(1, 1 << 4, &table, &mut memo).unwrap();
    assert_eq!(4 * corner + 4 * side + centre, total);
    assert_eq!(count_down_tree(1, 1 << 8, &table, &mut memo).unwrap(), corner);
    assert_eq!(count_down_tree(1, 1 << 7, &table, &mut memo).unwrap(), side);
    println!("{}", total);
}
