use snake_block::{mirror_horizontal, mirror_vertical, rotate_right, variations};

#[test]
fn rotation_right() {
    for i in 0..=0b_111_111_111 {
        assert_eq!(rotate_right(rotate_right(rotate_right(rotate_right(i)))), i);
    }
}

#[test]
fn mirror_vert() {
    for i in 0..=0b_111_111_111 {
        assert_eq!(mirror_vertical(mirror_vertical(i)), i);
    }
}

#[test]
fn mirror_hori() {
    for i in 0..=0b_111_111_111 {
        assert_eq!(mirror_horizontal(mirror_horizontal(i)), i);
    }
}

#[test]
fn rotation_moves_corner_and_edge() {
    // cell 0 (top left) goes to cell 6 (bottom left); cell 1 goes to cell 3
    assert_eq!(rotate_right(0b_000_000_001), 0b_001_000_000);
    assert_eq!(rotate_right(0b_000_000_010), 0b_000_001_000);
    assert_eq!(rotate_right(0b_000_010_000), 0b_000_010_000);
    assert_eq!(rotate_right(0), 0);
    assert_eq!(rotate_right(0b_111_111_111), 0b_111_111_111);
}

#[test]
fn mirrors_move_cells() {
    assert_eq!(mirror_vertical(0b_000_000_001), 0b_000_000_100);
    assert_eq!(mirror_vertical(0b_000_001_000), 0b_000_100_000);
    assert_eq!(mirror_horizontal(0b_000_000_001), 0b_001_000_000);
    assert_eq!(mirror_horizontal(0b_000_000_011), 0b_011_000_000);
}

#[test]
fn diagonal_mirrors_undo_themselves() {
    for i in 0..=0b_111_111_111u32 {
        let v = variations(i);
        assert_eq!(variations(v[6])[6], i);
        assert_eq!(variations(v[7])[7], i);
    }
}

#[test]
fn variations_of_cells() {
    // cells 0 and 1
    let v = variations(0b_000_000_011);
    assert_eq!(v[0], 0b_000_000_011);
    assert_eq!(v[1], 0b_001_001_000);
    assert_eq!(v[2], 0b_110_000_000);
    assert_eq!(v[3], 0b_000_100_100);
    assert_eq!(v[4], 0b_000_000_110);
    assert_eq!(v[5], 0b_011_000_000);
    // main diagonal: cell 1 (row 0, column 1) goes to cell 3
    assert_eq!(v[6], 0b_000_001_001);
    // other diagonal: cell 0 goes to cell 8, cell 1 to cell 5
    assert_eq!(v[7], 0b_100_100_000);
}
