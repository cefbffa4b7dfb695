//! Cells of the board, cell sets packed in the low bits of a `u32`, and the
//! eight symmetries of the square acting on them.
use vstd::prelude::*;

verus! {

/// Cell `c` belongs to the set `s`.
pub open spec fn holds_cell(s: u32, c: u32) -> bool {
    (s >> c) & 1u32 == 1u32
}

/// `s` holds only cells of the board: the board is 3 by 3, cell `3 * r + k`
/// standing in row `r` and column `k`, and a cell set keeps cell `c` in bit `c`.
pub open spec fn is_cell_set(s: u32) -> bool {
    s < 512
}

/// The row of cell `c`, from the top.
pub open spec fn row(c: u32) -> int {
    c as int / 3
}

/// The column of cell `c`, from the left.
pub open spec fn col(c: u32) -> int {
    c as int % 3
}

/// The cell in row `r` and column `k`.
pub open spec fn cell_at(r: int, k: int) -> u32 {
    (3 * r + k) as u32
}

/// Where the symmetry `g` of the square sends cell `c`:
/// 0 identity, 1 a quarter turn, 2 a half turn, 3 three quarter turns,
/// 4 the mirror that swaps left and right, 5 the mirror that swaps top and
/// bottom, 6 the mirror in the main diagonal, 7 the mirror in the other one.
pub open spec fn sym_cell(g: int, c: u32) -> u32 {
    let r = row(c);
    let k = col(c);
    if g == 1 {
        cell_at(2 - k, r)
    } else if g == 2 {
        cell_at(2 - r, 2 - k)
    } else if g == 3 {
        cell_at(k, 2 - r)
    } else if g == 4 {
        cell_at(r, 2 - k)
    } else if g == 5 {
        cell_at(2 - r, k)
    } else if g == 6 {
        cell_at(k, r)
    } else if g == 7 {
        cell_at(2 - k, 2 - r)
    } else {
        c
    }
}

/// `t` is the image of the cell set `s` under the symmetry `g`: cell `c` is in
/// `s` exactly when its image is in `t`, and `t` holds nothing else.
pub open spec fn is_image(s: u32, t: u32, g: int) -> bool {
    &&& t < 512
    &&& forall|c: u32| c < 9 ==> #[trigger] holds_cell(t, sym_cell(g, c)) == holds_cell(s, c)
}

proof fn lemma_sym_cell_on_board(g: int, c: u32)
    requires
        c < 9,
    ensures
        sym_cell(g, c) < 9,
{
    assert(c == 0 || c == 1 || c == 2 || c == 3 || c == 4 || c == 5 || c == 6 || c == 7 || c == 8);
}

proof fn lemma_bits_agree(a: u32, b: u32)
    by (bit_vector)
    requires
        a < 512,
        b < 512,
        holds_cell(a, 0) == holds_cell(b, 0),
        holds_cell(a, 1) == holds_cell(b, 1),
        holds_cell(a, 2) == holds_cell(b, 2),
        holds_cell(a, 3) == holds_cell(b, 3),
        holds_cell(a, 4) == holds_cell(b, 4),
        holds_cell(a, 5) == holds_cell(b, 5),
        holds_cell(a, 6) == holds_cell(b, 6),
        holds_cell(a, 7) == holds_cell(b, 7),
        holds_cell(a, 8) == holds_cell(b, 8),
    ensures
        a == b,
{
}

/// Two cell sets with the same cells are equal.
pub proof fn lemma_same_cells(a: u32, b: u32)
    requires
        a < 512,
        b < 512,
        forall|c: u32| c < 9 ==> holds_cell(a, c) == holds_cell(b, c),
    ensures
        a == b,
{
    assert(holds_cell(a, 0) == holds_cell(b, 0));
    assert(holds_cell(a, 1) == holds_cell(b, 1));
    assert(holds_cell(a, 2) == holds_cell(b, 2));
    assert(holds_cell(a, 3) == holds_cell(b, 3));
    assert(holds_cell(a, 4) == holds_cell(b, 4));
    assert(holds_cell(a, 5) == holds_cell(b, 5));
    assert(holds_cell(a, 6) == holds_cell(b, 6));
    assert(holds_cell(a, 7) == holds_cell(b, 7));
    assert(holds_cell(a, 8) == holds_cell(b, 8));
    lemma_bits_agree(a, b);
}

/// Applying `g1` and then `g2` is applying `g3`.
proof fn lemma_compose(s: u32, a: u32, b: u32, g1: int, g2: int, g3: int)
    requires
        is_image(s, a, g1),
        is_image(a, b, g2),
        forall|c: u32| c < 9 ==> sym_cell(g2, #[trigger] sym_cell(g1, c)) == sym_cell(g3, c),
    ensures
        is_image(s, b, g3),
{
    assert forall|c: u32| c < 9 implies #[trigger] holds_cell(b, sym_cell(g3, c)) == holds_cell(s, c) by {
        lemma_sym_cell_on_board(g1, c);
        let d = sym_cell(g1, c);
        assert(holds_cell(b, sym_cell(g2, d)) == holds_cell(a, d));
        assert(holds_cell(a, sym_cell(g1, c)) == holds_cell(s, c));
    }
}

/// The image under the identity is the set itself.
proof fn lemma_identity_image(s: u32, t: u32)
    requires
        s < 512,
        is_image(s, t, 0),
    ensures
        t == s,
{
    assert forall|c: u32| c < 9 implies holds_cell(t, c) == holds_cell(s, c) by {
        assert(holds_cell(t, sym_cell(0, c)) == holds_cell(s, c));
    }
    lemma_same_cells(t, s);
}

/// Four quarter turns bring every cell set back to itself.
pub proof fn lemma_four_quarter_turns(s: u32, a: u32, b: u32, c: u32, d: u32)
    requires
        is_cell_set(s),
        is_image(s, a, 1),
        is_image(a, b, 1),
        is_image(b, c, 1),
        is_image(c, d, 1),
    ensures
        d == s,
{
    assert forall|x: u32| x < 9 implies sym_cell(1, #[trigger] sym_cell(1, x)) == sym_cell(2, x) by {
        assert(x == 0 || x == 1 || x == 2 || x == 3 || x == 4 || x == 5 || x == 6 || x == 7 || x == 8);
    }
    assert forall|x: u32| x < 9 implies sym_cell(1, #[trigger] sym_cell(2, x)) == sym_cell(3, x) by {
        assert(x == 0 || x == 1 || x == 2 || x == 3 || x == 4 || x == 5 || x == 6 || x == 7 || x == 8);
    }
    assert forall|x: u32| x < 9 implies sym_cell(1, #[trigger] sym_cell(3, x)) == sym_cell(0, x) by {
        assert(x == 0 || x == 1 || x == 2 || x == 3 || x == 4 || x == 5 || x == 6 || x == 7 || x == 8);
    }
    lemma_compose(s, a, b, 1, 1, 2);
    lemma_compose(s, b, c, 2, 1, 3);
    lemma_compose(s, c, d, 3, 1, 0);
    lemma_identity_image(s, d);
}

/// Each mirror (left-right, top-bottom and both diagonals) undoes itself.
pub proof fn lemma_mirror_twice(s: u32, a: u32, b: u32, g: int)
    requires
        is_cell_set(s),
        4 <= g < 8,
        is_image(s, a, g),
        is_image(a, b, g),
    ensures
        b == s,
{
    assert forall|x: u32| x < 9 implies sym_cell(g, #[trigger] sym_cell(g, x)) == sym_cell(0, x) by {
        assert(x == 0 || x == 1 || x == 2 || x == 3 || x == 4 || x == 5 || x == 6 || x == 7 || x == 8);
    }
    lemma_compose(s, a, b, g, g, 0);
    lemma_identity_image(s, b);
}

proof fn lemma_rotate_bits(n: u32, r: u32)
    by (bit_vector)
    requires
        n < 512,
        r == (n << 6u32 & 0x40u32) | (n << 2u32 & 0x108u32) | (n >> 2u32 & 0x21u32) | (n << 4u32
            & 0x80u32) | (n & 0x10u32) | (n >> 4u32 & 0x2u32) | (n >> 6u32 & 0x4u32),
    ensures
        r < 512,
        holds_cell(r, 6) == holds_cell(n, 0),
        holds_cell(r, 3) == holds_cell(n, 1),
        holds_cell(r, 0) == holds_cell(n, 2),
        holds_cell(r, 7) == holds_cell(n, 3),
        holds_cell(r, 4) == holds_cell(n, 4),
        holds_cell(r, 1) == holds_cell(n, 5),
        holds_cell(r, 8) == holds_cell(n, 6),
        holds_cell(r, 5) == holds_cell(n, 7),
        holds_cell(r, 2) == holds_cell(n, 8),
{
}

proof fn lemma_mirror_vertical_bits(n: u32, r: u32)
    by (bit_vector)
    requires
        n < 512,
        r == (n << 2u32 & 0x124u32) | (n & 0x92u32) | (n >> 2u32 & 0x49u32),
    ensures
        r < 512,
        holds_cell(r, 2) == holds_cell(n, 0),
        holds_cell(r, 1) == holds_cell(n, 1),
        holds_cell(r, 0) == holds_cell(n, 2),
        holds_cell(r, 5) == holds_cell(n, 3),
        holds_cell(r, 4) == holds_cell(n, 4),
        holds_cell(r, 3) == holds_cell(n, 5),
        holds_cell(r, 8) == holds_cell(n, 6),
        holds_cell(r, 7) == holds_cell(n, 7),
        holds_cell(r, 6) == holds_cell(n, 8),
{
}

proof fn lemma_mirror_horizontal_bits(n: u32, r: u32)
    by (bit_vector)
    requires
        n < 512,
        r == (n << 6u32 & 0x1c0u32) | (n & 0x38u32) | (n >> 6u32 & 0x7u32),
    ensures
        r < 512,
        holds_cell(r, 6) == holds_cell(n, 0),
        holds_cell(r, 7) == holds_cell(n, 1),
        holds_cell(r, 8) == holds_cell(n, 2),
        holds_cell(r, 3) == holds_cell(n, 3),
        holds_cell(r, 4) == holds_cell(n, 4),
        holds_cell(r, 5) == holds_cell(n, 5),
        holds_cell(r, 0) == holds_cell(n, 6),
        holds_cell(r, 1) == holds_cell(n, 7),
        holds_cell(r, 2) == holds_cell(n, 8),
{
}

/// Turns the board a quarter turn: the cell in row `r`, column `k` goes to
/// row `2 - k`, column `r`.
pub fn rotate_right(n: u32) -> (r: u32)
    requires
        is_cell_set(n),
    ensures
        is_image(n, r, 1),
{
    let r = (n << 6 & 0b_001_000_000) | (n << 2 & 0b_100_001_000) | (n >> 2 & 0b_000_100_001) | (n
        << 4 & 0b_010_000_000) | (n & 0b_000_010_000) | (n >> 4 & 0b_000_000_010) | (n >> 6
        & 0b_000_000_100);
    proof {
        lemma_rotate_image(n);
    }
    r
}

/// Mirrors the board left to right: column `k` becomes column `2 - k`.
pub fn mirror_vertical(n: u32) -> (r: u32)
    requires
        is_cell_set(n),
    ensures
        is_image(n, r, 4),
{
    let r = (n << 2 & 0b_100_100_100) | (n & 0b_010_010_010) | (n >> 2 & 0b_001_001_001);
    proof {
        lemma_mirror_vertical_image(n);
    }
    r
}

/// Mirrors the board top to bottom: row `r` becomes row `2 - r`.
pub fn mirror_horizontal(n: u32) -> (r: u32)
    requires
        is_cell_set(n),
    ensures
        is_image(n, r, 5),
{
    let r = (n << 6 & 0b_111_000_000) | (n & 0b_000_111_000) | (n >> 6 & 0b_000_000_111);
    proof {
        lemma_mirror_horizontal_image(n);
    }
    r
}

/// The eight images of `n`, the image under symmetry `g` at index `g`.
pub fn variations(n: u32) -> (r: [u32; 8])
    requires
        is_cell_set(n),
    ensures
        forall|g: int| 0 <= g < 8 ==> is_image(n, #[trigger] r@[g], g),
{
    let n_r1 = rotate_right(n);
    let n_r2 = rotate_right(n_r1);
    let n_r3 = rotate_right(n_r2);
    let mirrored_vertical = mirror_vertical(n);
    let mirrored_horizontal = mirror_horizontal(n);
    let mirrored_diagonal_down = mirror_horizontal(n_r1);
    let mirrored_diagonal_up = mirror_vertical(n_r1);
    proof {
        assert forall|x: u32| x < 9 implies #[trigger] holds_cell(n, sym_cell(0, x)) == holds_cell(n, x) by {}
        lemma_compose_table();
        lemma_compose(n, n_r1, n_r2, 1, 1, 2);
        lemma_compose(n, n_r2, n_r3, 2, 1, 3);
        lemma_compose(n, n_r1, mirrored_diagonal_down, 1, 5, 6);
        lemma_compose(n, n_r1, mirrored_diagonal_up, 1, 4, 7);
    }
    let r = [
        n,
        n_r1,
        n_r2,
        n_r3,
        mirrored_vertical,
        mirrored_horizontal,
        mirrored_diagonal_down,
        mirrored_diagonal_up,
    ];
    assert(r@[0] == n && r@[1] == n_r1 && r@[2] == n_r2 && r@[3] == n_r3 && r@[4] == mirrored_vertical
        && r@[5] == mirrored_horizontal && r@[6] == mirrored_diagonal_down && r@[7]
        == mirrored_diagonal_up);
    r
}

proof fn lemma_compose_table()
    ensures
        forall|x: u32| x < 9 ==> sym_cell(1, #[trigger] sym_cell(1, x)) == sym_cell(2, x),
        forall|x: u32| x < 9 ==> sym_cell(1, #[trigger] sym_cell(2, x)) == sym_cell(3, x),
        forall|x: u32| x < 9 ==> sym_cell(5, #[trigger] sym_cell(1, x)) == sym_cell(6, x),
        forall|x: u32| x < 9 ==> sym_cell(4, #[trigger] sym_cell(1, x)) == sym_cell(7, x),
{
    assert forall|x: u32| x < 9 implies {
        &&& sym_cell(1, sym_cell(1, x)) == sym_cell(2, x)
        &&& sym_cell(1, sym_cell(2, x)) == sym_cell(3, x)
        &&& sym_cell(5, sym_cell(1, x)) == sym_cell(6, x)
        &&& sym_cell(4, sym_cell(1, x)) == sym_cell(7, x)
    } by {
        assert(x == 0 || x == 1 || x == 2 || x == 3 || x == 4 || x == 5 || x == 6 || x == 7 || x == 8);
    }
}

/// The bits of `n` moved as a quarter turn moves the cells.
spec fn rotated(n: u32) -> u32 {
    (n << 6u32 & 0x40u32) | (n << 2u32 & 0x108u32) | (n >> 2u32 & 0x21u32) | (n << 4u32 & 0x80u32)
        | (n & 0x10u32) | (n >> 4u32 & 0x2u32) | (n >> 6u32 & 0x4u32)
}

/// The bits of `n` moved as the left-right mirror moves the cells.
spec fn mirrored_vertically(n: u32) -> u32 {
    (n << 2u32 & 0x124u32) | (n & 0x92u32) | (n >> 2u32 & 0x49u32)
}

/// The bits of `n` moved as the top-bottom mirror moves the cells.
spec fn mirrored_horizontally(n: u32) -> u32 {
    (n << 6u32 & 0x1c0u32) | (n & 0x38u32) | (n >> 6u32 & 0x7u32)
}

proof fn lemma_rotate_image(n: u32)
    requires
        n < 512,
    ensures
        is_image(n, rotated(n), 1),
{
    let r = rotated(n);
    lemma_rotate_bits(n, r);
    assert forall|c: u32| c < 9 implies #[trigger] holds_cell(r, sym_cell(1, c)) == holds_cell(n, c) by {
        assert(c == 0 || c == 1 || c == 2 || c == 3 || c == 4 || c == 5 || c == 6 || c == 7 || c == 8);
    }
}

proof fn lemma_mirror_vertical_image(n: u32)
    requires
        n < 512,
    ensures
        is_image(n, mirrored_vertically(n), 4),
{
    let r = mirrored_vertically(n);
    lemma_mirror_vertical_bits(n, r);
    assert forall|c: u32| c < 9 implies #[trigger] holds_cell(r, sym_cell(4, c)) == holds_cell(n, c) by {
        assert(c == 0 || c == 1 || c == 2 || c == 3 || c == 4 || c == 5 || c == 6 || c == 7 || c == 8);
    }
}

proof fn lemma_mirror_horizontal_image(n: u32)
    requires
        n < 512,
    ensures
        is_image(n, mirrored_horizontally(n), 5),
{
    let r = mirrored_horizontally(n);
    lemma_mirror_horizontal_bits(n, r);
    assert forall|c: u32| c < 9 implies #[trigger] holds_cell(r, sym_cell(5, c)) == holds_cell(n, c) by {
        assert(c == 0 || c == 1 || c == 2 || c == 3 || c == 4 || c == 5 || c == 6 || c == 7 || c == 8);
    }
}

/// The symmetry that undoes `g`.
pub open spec fn inverse(g: int) -> int {
    if g == 1 {
        3
    } else if g == 3 {
        1
    } else {
        g
    }
}

/// Each symmetry moves cells of the board to cells of the board, and its
/// inverse moves them back.
pub proof fn lemma_inverse(g: int, x: u32)
    requires
        0 <= g < 8,
        x < 9,
    ensures
        sym_cell(g, x) < 9,
        sym_cell(inverse(g), sym_cell(g, x)) == x,
        sym_cell(g, sym_cell(inverse(g), x)) == x,
        0 <= inverse(g) < 8,
        inverse(inverse(g)) == g,
{
    assert(x == 0 || x == 1 || x == 2 || x == 3 || x == 4 || x == 5 || x == 6 || x == 7 || x == 8);
    assert(g == 0 || g == 1 || g == 2 || g == 3 || g == 4 || g == 5 || g == 6 || g == 7);
}

/// The image of `s` under `g`.
pub open spec fn image(s: u32, g: int) -> u32 {
    choose|t: u32| is_image(s, t, g)
}

/// A cell set has exactly one image under each symmetry.
pub proof fn lemma_image(s: u32, g: int)
    requires
        s < 512,
        0 <= g < 8,
    ensures
        is_image(s, image(s, g), g),
        forall|t: u32| is_image(s, t, g) ==> t == image(s, g),
{
    assert(exists|t: u32| is_image(s, t, g)) by {
        lemma_compose_table();
        assert forall|x: u32| x < 9 implies #[trigger] holds_cell(s, sym_cell(0, x)) == holds_cell(s, x) by {}
        let r1 = rotated(s);
        lemma_rotate_image(s);
        lemma_rotate_image(r1);
        lemma_rotate_image(rotated(r1));
        lemma_mirror_vertical_image(s);
        lemma_mirror_horizontal_image(s);
        lemma_mirror_vertical_image(r1);
        lemma_mirror_horizontal_image(r1);
        if g == 0 {
            assert(is_image(s, s, g));
        } else if g == 1 {
            assert(is_image(s, r1, g));
        } else if g == 2 {
            lemma_compose(s, r1, rotated(r1), 1, 1, 2);
        } else if g == 3 {
            lemma_compose(s, r1, rotated(r1), 1, 1, 2);
            lemma_compose(s, rotated(r1), rotated(rotated(r1)), 2, 1, 3);
        } else if g == 4 {
            assert(is_image(s, mirrored_vertically(s), g));
        } else if g == 5 {
            assert(is_image(s, mirrored_horizontally(s), g));
        } else if g == 6 {
            lemma_compose(s, r1, mirrored_horizontally(r1), 1, 5, 6);
        } else {
            lemma_compose(s, r1, mirrored_vertically(r1), 1, 4, 7);
        }
    }
    let u = image(s, g);
    assert forall|t: u32| is_image(s, t, g) implies t == u by {
        assert forall|x: u32| x < 9 implies holds_cell(t, x) == holds_cell(u, x) by {
            lemma_inverse(g, x);
            let c = sym_cell(inverse(g), x);
            assert(holds_cell(t, sym_cell(g, c)) == holds_cell(s, c));
            assert(holds_cell(u, sym_cell(g, c)) == holds_cell(s, c));
        }
        lemma_same_cells(t, u);
    }
}

/// Mapping a set by `g` and then by the inverse of `g` gives it back.
pub proof fn lemma_image_inverse(s: u32, g: int)
    requires
        s < 512,
        0 <= g < 8,
    ensures
        image(s, g) < 512,
        image(image(s, g), inverse(g)) == s,
{
    lemma_image(s, g);
    let t = image(s, g);
    lemma_inverse(g, 0);
    lemma_image(t, inverse(g));
    let u = image(t, inverse(g));
    assert forall|x: u32| x < 9 implies holds_cell(u, x) == holds_cell(s, x) by {
        lemma_inverse(g, x);
        let y = sym_cell(g, x);
        assert(holds_cell(u, sym_cell(inverse(g), y)) == holds_cell(t, y));
    }
    lemma_same_cells(u, s);
}

} // verus!
