//! The symmetries of the board carry walks to walks, the table of walks to
//! itself, and the choices below a layer to the choices below its image; so
//! a layer and each of its images have the same number of ways below them.
use vstd::prelude::*;
use crate::geometry::{holds_cell, image, inverse, is_image, lemma_image, lemma_image_inverse, lemma_inverse, sym_cell};
use crate::oracle::{adjacent, can_step, covers, in_oracle, is_walk, step};
use crate::branches::{blocks, branches, explore, lemma_mask_of, mask_of};
use crate::counter::{count_below, layers_total, lemma_total_push};
use crate::oracle::{cell_bit, SEARCH_LENGTH};

verus! {

/// The walk `w` moved by the symmetry `g`.
pub open spec fn moved(w: Seq<u32>, g: int) -> Seq<u32> {
    w.map_values(|c: u32| sym_cell(g, c))
}

proof fn lemma_adjacent_moved(g: int, a: u32, b: u32)
    requires
        0 <= g < 8,
        a < 9,
        adjacent(a, b),
    ensures
        adjacent(sym_cell(g, a), sym_cell(g, b)),
{
    assert(a == 0 || a == 1 || a == 2 || a == 3 || a == 4 || a == 5 || a == 6 || a == 7 || a == 8);
    assert(g == 0 || g == 1 || g == 2 || g == 3 || g == 4 || g == 5 || g == 6 || g == 7);
}

proof fn lemma_walk_moved(w: Seq<u32>, head: u32, len: nat, g: int)
    requires
        0 <= g < 8,
        is_walk(w, head, len),
    ensures
        is_walk(moved(w, g), sym_cell(g, head), len),
{
    let v = moved(w, g);
    assert forall|i: int| 0 <= i < v.len() implies #[trigger] v[i] < 9 by {
        assert(w[i] < 9);
        lemma_inverse(g, w[i]);
    }
    assert forall|i: int| 0 <= i < len implies adjacent(#[trigger] v[i], v[i + 1]) by {
        assert(w[i] < 9);
        assert(adjacent(w[i], w[i + 1]));
        lemma_adjacent_moved(g, w[i], w[i + 1]);
    }
    assert forall|i: int, j: int| 0 <= i < j < v.len() implies #[trigger] v[i] != #[trigger] v[j] by {
        assert(w[i] != w[j]);
        assert(w[i] < 9 && w[j] < 9);
        lemma_inverse(g, w[i]);
        lemma_inverse(g, w[j]);
    }
}

proof fn lemma_oracle_moved(h: u32, len: nat, m: u32, g: int)
    requires
        0 <= g < 8,
        m < 512,
        in_oracle(h, len, m),
    ensures
        in_oracle(sym_cell(g, h), len, image(m, g)),
{
    let w = choose|w: Seq<u32>| #[trigger] is_walk(w, h, len) && covers(w, m);
    lemma_walk_moved(w, h, len, g);
    let v = moved(w, g);
    lemma_image(m, g);
    let t = image(m, g);
    assert forall|c: u32| c < 9 && #[trigger] holds_cell(t, c) implies v.contains(c) by {
        lemma_inverse(g, c);
        let c0 = sym_cell(inverse(g), c);
        assert(holds_cell(t, sym_cell(g, c0)) == holds_cell(m, c0));
        assert(w.contains(c0));
        let i = choose|i: int| 0 <= i < w.len() && w[i] == c0;
        assert(v[i] == c);
    }
    assert(covers(v, t));
}

/// A cell set fits inside a walk from `h` exactly when its image fits inside
/// a walk of the same length from the image of `h`.
pub proof fn lemma_oracle_symmetric(h: u32, len: nat, m: u32, g: int)
    requires
        0 <= g < 8,
        h < 9,
        m < 512,
    ensures
        in_oracle(sym_cell(g, h), len, image(m, g)) == in_oracle(h, len, m),
{
    if in_oracle(h, len, m) {
        lemma_oracle_moved(h, len, m, g);
    }
    if in_oracle(sym_cell(g, h), len, image(m, g)) {
        lemma_image_inverse(m, g);
        lemma_inverse(g, h);
        lemma_oracle_moved(sym_cell(g, h), len, image(m, g), inverse(g));
    }
}

/// A set blocks nothing more and nothing less after both it and the layer
/// are moved by the same symmetry.
pub proof fn lemma_blocks_symmetric(p: u32, len: nat, m: u32, g: int)
    requires
        0 <= g < 8,
        p < 512,
        m < 512,
    ensures
        blocks(image(p, g), len, image(m, g)) == blocks(p, len, m),
{
    lemma_image(p, g);
    let q = image(p, g);
    if blocks(p, len, m) {
        let h = choose|h: u32| h < 9 && holds_cell(p, h) && #[trigger] in_oracle(h, len, m);
        lemma_oracle_symmetric(h, len, m, g);
        lemma_inverse(g, h);
        assert(holds_cell(q, sym_cell(g, h)));
        assert(in_oracle(sym_cell(g, h), len, image(m, g)));
    }
    if blocks(q, len, image(m, g)) {
        let h = choose|h: u32|
            h < 9 && holds_cell(q, h) && #[trigger] in_oracle(h, len, image(m, g));
        lemma_inverse(g, h);
        let h0 = sym_cell(inverse(g), h);
        assert(sym_cell(g, h0) == h);
        assert(holds_cell(q, sym_cell(g, h0)) == holds_cell(p, h0));
        lemma_oracle_symmetric(h0, len, m, g);
        assert(in_oracle(h0, len, m));
    }
}

/// The sum of `f` over the items of `s`.
pub open spec fn seq_sum(s: Seq<u32>, f: spec_fn(u32) -> nat) -> nat
    decreases s.len(),
{
    if s.len() == 0 {
        0
    } else {
        seq_sum(s.drop_last(), f) + f(s.last())
    }
}

/// The sum of `f` over the cells from `start` to 8.
pub open spec fn sum_from(f: spec_fn(u32) -> nat, start: u32) -> nat
    decreases 9 - start,
{
    if start >= 9 {
        0
    } else {
        f(start) + sum_from(f, (start + 1) as u32)
    }
}

/// What the search yields from the tuples that put cell `c` after `prefix`.
pub open spec fn piece(p: u32, len: nat, prefix: Seq<u32>, c: u32) -> Seq<u32> {
    if cell_bit(c) == p || prefix.contains(c) {
        seq![]
    } else if prefix.len() <= len && blocks(p, len, mask_of(prefix.push(c))) {
        explore(p, len, prefix.push(c), 0)
    } else {
        seq![mask_of(prefix.push(c))]
    }
}

proof fn lemma_sum_concat(a: Seq<u32>, b: Seq<u32>, f: spec_fn(u32) -> nat)
    ensures
        seq_sum(a + b, f) == seq_sum(a, f) + seq_sum(b, f),
    decreases b.len(),
{
    if b.len() == 0 {
        assert(a + b =~= a);
    } else {
        lemma_sum_concat(a, b.drop_last(), f);
        assert((a + b).drop_last() =~= a + b.drop_last());
        assert((a + b).last() == b.last());
    }
}

proof fn lemma_explore_sum(p: u32, len: nat, prefix: Seq<u32>, start: u32, f: spec_fn(u32) -> nat)
    requires
        prefix.len() < 9,
        start <= 9,
    ensures
        seq_sum(explore(p, len, prefix, start), f) == sum_from(
            |c: u32| seq_sum(piece(p, len, prefix, c), f),
            start,
        ),
    decreases 9 - start,
{
    let h = |c: u32| seq_sum(piece(p, len, prefix, c), f);
    if start < 9 {
        lemma_explore_sum(p, len, prefix, (start + 1) as u32, f);
        let rest = explore(p, len, prefix, (start + 1) as u32);
        assert(explore(p, len, prefix, start) =~= piece(p, len, prefix, start) + rest);
        lemma_sum_concat(piece(p, len, prefix, start), rest, f);
    } else {
        assert(explore(p, len, prefix, start) =~= Seq::<u32>::empty());
    }
}

proof fn lemma_sum_permuted(f: spec_fn(u32) -> nat, h: spec_fn(u32) -> nat, g: int)
    requires
        0 <= g < 8,
        forall|c: u32| c < 9 ==> #[trigger] h(c) == f(sym_cell(g, c)),
    ensures
        sum_from(h, 0) == sum_from(f, 0),
{
    reveal_with_fuel(sum_from, 10);
    assert(h(0) == f(sym_cell(g, 0)));
    assert(h(1) == f(sym_cell(g, 1)));
    assert(h(2) == f(sym_cell(g, 2)));
    assert(h(3) == f(sym_cell(g, 3)));
    assert(h(4) == f(sym_cell(g, 4)));
    assert(h(5) == f(sym_cell(g, 5)));
    assert(h(6) == f(sym_cell(g, 6)));
    assert(h(7) == f(sym_cell(g, 7)));
    assert(h(8) == f(sym_cell(g, 8)));
    assert(g == 0 || g == 1 || g == 2 || g == 3 || g == 4 || g == 5 || g == 6 || g == 7);
}

proof fn lemma_contains_moved(t: Seq<u32>, g: int, c: u32)
    requires
        0 <= g < 8,
        c < 9,
        forall|i: int| 0 <= i < t.len() ==> #[trigger] t[i] < 9,
    ensures
        moved(t, g).contains(sym_cell(g, c)) == t.contains(c),
{
    let v = moved(t, g);
    if t.contains(c) {
        let i = choose|i: int| 0 <= i < t.len() && t[i] == c;
        assert(v[i] == sym_cell(g, c));
    }
    if v.contains(sym_cell(g, c)) {
        let i = choose|i: int| 0 <= i < v.len() && v[i] == sym_cell(g, c);
        assert(t[i] < 9);
        lemma_inverse(g, t[i]);
        lemma_inverse(g, c);
        assert(t[i] == c);
    }
}

proof fn lemma_mask_moved(t: Seq<u32>, g: int)
    requires
        0 <= g < 8,
        forall|i: int| 0 <= i < t.len() ==> #[trigger] t[i] < 9,
    ensures
        mask_of(moved(t, g)) == image(mask_of(t), g),
        mask_of(t) < 512,
{
    let v = moved(t, g);
    assert forall|i: int| 0 <= i < v.len() implies #[trigger] v[i] < 9 by {
        assert(t[i] < 9);
        lemma_inverse(g, t[i]);
    }
    lemma_mask_of(t);
    lemma_mask_of(v);
    assert forall|c: u32| c < 9 implies #[trigger] holds_cell(mask_of(v), sym_cell(g, c)) == holds_cell(
        mask_of(t),
        c,
    ) by {
        lemma_inverse(g, c);
        lemma_contains_moved(t, g, c);
    }
    assert(is_image(mask_of(t), mask_of(v), g));
    lemma_image(mask_of(t), g);
}

proof fn lemma_single_cell_image(c: u32, g: int)
    requires
        0 <= g < 8,
        c < 9,
    ensures
        image(cell_bit(c), g) == cell_bit(sym_cell(g, c)),
{
    let t = seq![c];
    assert(t[0] < 9);
    lemma_mask_moved(t, g);
    assert(t.drop_last() =~= Seq::<u32>::empty());
    assert(moved(t, g).drop_last() =~= Seq::<u32>::empty());
    assert(mask_of(Seq::<u32>::empty()) == 0);
    assert(mask_of(t) == 0 | cell_bit(c));
    assert(mask_of(moved(t, g)) == 0 | cell_bit(sym_cell(g, c)));
    assert(forall|x: u32| 0 | x == x) by (bit_vector);
}

/// Moving the layer and the tuple so far by a symmetry moves the search along:
/// summing `f` over what the moved search yields is summing `f2` over what
/// the search itself yields, where `f2` is `f` after the symmetry.
proof fn lemma_explore_moved(
    p: u32,
    len: nat,
    prefix: Seq<u32>,
    g: int,
    f: spec_fn(u32) -> nat,
    f2: spec_fn(u32) -> nat,
)
    requires
        0 <= g < 8,
        p < 512,
        forall|i: int| 0 <= i < prefix.len() ==> #[trigger] prefix[i] < 9,
        forall|m: u32| m < 512 ==> #[trigger] f2(m) == f(image(m, g)),
    ensures
        seq_sum(explore(image(p, g), len, moved(prefix, g), 0), f) == seq_sum(
            explore(p, len, prefix, 0),
            f2,
        ),
    decreases 9 - prefix.len(),
{
    let q = image(p, g);
    let mp = moved(prefix, g);
    if prefix.len() >= 9 {
        assert(explore(q, len, mp, 0) =~= Seq::<u32>::empty());
        assert(explore(p, len, prefix, 0) =~= Seq::<u32>::empty());
    } else {
        let hq = |c: u32| seq_sum(piece(q, len, mp, c), f);
        let hp = |c: u32| seq_sum(piece(p, len, prefix, c), f2);
        lemma_explore_sum(q, len, mp, 0, f);
        lemma_explore_sum(p, len, prefix, 0, f2);
        lemma_image(p, g);
        lemma_image_inverse(p, g);
        assert forall|c: u32| c < 9 implies #[trigger] hp(c) == hq(sym_cell(g, c)) by {
            let sc = sym_cell(g, c);
            lemma_inverse(g, c);
            let t = prefix.push(c);
            assert(moved(t, g) =~= mp.push(sc));
            assert forall|i: int| 0 <= i < t.len() implies #[trigger] t[i] < 9 by {
                if i < prefix.len() {
                    assert(prefix[i] < 9);
                }
            }
            lemma_contains_moved(prefix, g, c);
            lemma_single_cell_image(c, g);
            lemma_single_cell_image(sc, inverse(g));
            assert((cell_bit(sc) == q) == (cell_bit(c) == p)) by {
                if cell_bit(sc) == q {
                    assert(image(q, inverse(g)) == p);
                }
            }
            lemma_mask_moved(t, g);
            lemma_blocks_symmetric(p, len, mask_of(t), g);
            if cell_bit(c) == p || prefix.contains(c) {
            } else if prefix.len() <= len && blocks(p, len, mask_of(t)) {
                lemma_explore_moved(p, len, t, g, f, f2);
            } else {
                assert(seq![mask_of(t)].drop_last() =~= Seq::<u32>::empty());
                assert(seq![mask_of(moved(t, g))].drop_last() =~= Seq::<u32>::empty());
                assert(seq_sum(Seq::<u32>::empty(), f) == 0);
                assert(seq_sum(Seq::<u32>::empty(), f2) == 0);
                assert(f2(mask_of(t)) == f(image(mask_of(t), g)));
            }
        }
        lemma_sum_permuted(hq, hp, g);
    }
}

proof fn lemma_total_as_sum(depth: nat, s: Seq<u32>)
    ensures
        layers_total(depth, s) == seq_sum(s, |b: u32| count_below(depth, b)),
    decreases s.len(),
{
    if s.len() == 0 {
    } else {
        lemma_total_as_sum(depth, s.drop_last());
        lemma_total_push(depth, s.drop_last(), s.last());
        assert(s.drop_last().push(s.last()) =~= s);
    }
}

proof fn lemma_len_as_sum(s: Seq<u32>)
    ensures
        s.len() == seq_sum(s, |b: u32| 1nat),
    decreases s.len(),
{
    if s.len() > 0 {
        lemma_len_as_sum(s.drop_last());
    }
}

/// Below one layer: the number of choices at the last depth, else the sum of
/// the ways below each choice.
pub proof fn lemma_count_unfold(depth: nat, p: u32)
    ensures
        depth >= SEARCH_LENGTH ==> count_below(depth, p) == branches(p, depth).len(),
        depth < SEARCH_LENGTH ==> count_below(depth, p) == layers_total(
            depth + 1,
            branches(p, depth),
        ),
{
    assert(seq![p].drop_last() =~= Seq::<u32>::empty());
    assert(seq![p].last() == p);
    assert(layers_total(depth, Seq::<u32>::empty()) == 0);
}

/// A layer and each of its images under the eight symmetries of the board
/// have the same number of ways to fill the layers below them, at every
/// depth.
pub proof fn lemma_count_symmetric(depth: nat, p: u32, g: int)
    requires
        0 <= g < 8,
        p < 512,
    ensures
        count_below(depth, image(p, g)) == count_below(depth, p),
    decreases SEARCH_LENGTH - depth,
{
    let q = image(p, g);
    lemma_count_unfold(depth, p);
    lemma_count_unfold(depth, q);
    assert(moved(Seq::<u32>::empty(), g) =~= Seq::<u32>::empty());
    if depth >= SEARCH_LENGTH {
        let one = |b: u32| 1nat;
        lemma_explore_moved(p, depth, Seq::<u32>::empty(), g, one, one);
        lemma_len_as_sum(branches(p, depth));
        lemma_len_as_sum(branches(q, depth));
    } else {
        let f = |b: u32| count_below(depth + 1, b);
        assert forall|m: u32| m < 512 implies #[trigger] f(m) == f(image(m, g)) by {
            lemma_count_symmetric(depth + 1, m, g);
        }
        lemma_explore_moved(p, depth, Seq::<u32>::empty(), g, f, f);
        lemma_total_as_sum(depth + 1, branches(p, depth));
        lemma_total_as_sum(depth + 1, branches(q, depth));
    }
}

proof fn lemma_first_choices(start: u32)
    requires
        start <= 9,
    ensures
        explore(0, 0, Seq::<u32>::empty(), start) == Seq::new(
            (9 - start) as nat,
            |i: int| cell_bit((start + i) as u32),
        ),
    decreases 9 - start,
{
    let e = Seq::<u32>::empty();
    if start < 9 {
        lemma_first_choices((start + 1) as u32);
        let t = e.push(start);
        assert(cell_bit(start) != 0) by {
            assert(start < 9 ==> (1u32 << start) != 0) by (bit_vector);
        }
        assert(!blocks(0, 0, mask_of(t))) by {
            assert(forall|h: u32| !holds_cell(0, h)) by (bit_vector);
        }
        assert(t.drop_last() =~= e);
        assert(mask_of(e) == 0);
        assert(mask_of(t) == cell_bit(start)) by {
            assert(forall|x: u32| 0 | x == x) by (bit_vector);
        }
        assert(explore(0, 0, e, start) =~= Seq::new(
            (9 - start) as nat,
            |i: int| cell_bit((start + i) as u32),
        ));
    } else {
        assert(explore(0, 0, e, start) =~= Seq::new(
            (9 - start) as nat,
            |i: int| cell_bit((start + i) as u32),
        ));
    }
}

/// With nothing chosen yet, every cell is a choice for the first layer, so
/// the total is four times the count below a corner, four times the count
/// below a side cell, and once the count below the centre.
pub proof fn lemma_first_layer_total()
    ensures
        count_below(0, 0) == 4 * count_below(1, cell_bit(0)) + 4 * count_below(1, cell_bit(1))
            + count_below(1, cell_bit(4)),
{
    lemma_first_choices(0);
    let s = branches(0, 0);
    lemma_count_unfold(0, 0);
    lemma_total_as_sum(1, s);
    let f = |b: u32| count_below(1, b);
    reveal_with_fuel(seq_sum, 10);
    assert(s.drop_last().drop_last().drop_last().drop_last().drop_last().drop_last().drop_last().drop_last().drop_last() =~= Seq::<u32>::empty());
    assert(cell_bit(0) < 512 && cell_bit(1) < 512) by {
        assert((1u32 << 0u32) < 512 && (1u32 << 1u32) < 512) by (bit_vector);
    }
    lemma_single_cell_image(0, 4);
    lemma_single_cell_image(0, 5);
    lemma_single_cell_image(0, 2);
    lemma_single_cell_image(1, 6);
    lemma_single_cell_image(1, 5);
    lemma_single_cell_image(1, 7);
    lemma_count_symmetric(1, cell_bit(0), 4);
    lemma_count_symmetric(1, cell_bit(0), 5);
    lemma_count_symmetric(1, cell_bit(0), 2);
    lemma_count_symmetric(1, cell_bit(1), 6);
    lemma_count_symmetric(1, cell_bit(1), 5);
    lemma_count_symmetric(1, cell_bit(1), 7);
    assert(sym_cell(4, 0) == 2 && sym_cell(5, 0) == 6 && sym_cell(2, 0) == 8);
    assert(sym_cell(6, 1) == 3 && sym_cell(5, 1) == 7 && sym_cell(7, 1) == 5);
}

} // verus!
