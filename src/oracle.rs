//! Which cell sets fit inside the footprint of some short self-avoiding walk
//! from a given head cell, tabulated once for every head and length.
use vstd::prelude::*;
use crate::geometry::{holds_cell, row, col};

verus! {

/// Longest walk, in steps, that the table covers.
pub const SEARCH_LENGTH: usize = 7;

/// A step from cell `c` in direction `d` (0 up, 1 right, 2 down, 3 left)
/// stays on the board.
pub open spec fn can_step(c: u32, d: u32) -> bool {
    if d == 0 {
        row(c) > 0
    } else if d == 1 {
        col(c) < 2
    } else if d == 2 {
        row(c) < 2
    } else {
        col(c) > 0
    }
}

/// The cell one step from `c` in direction `d`.
pub open spec fn step(c: u32, d: u32) -> u32 {
    if d == 0 {
        (c - 3) as u32
    } else if d == 1 {
        (c + 1) as u32
    } else if d == 2 {
        (c + 3) as u32
    } else {
        (c - 1) as u32
    }
}

/// `b` is one step away from `a` on the board.
pub open spec fn adjacent(a: u32, b: u32) -> bool {
    ||| can_step(a, 0) && b == step(a, 0)
    ||| can_step(a, 1) && b == step(a, 1)
    ||| can_step(a, 2) && b == step(a, 2)
    ||| can_step(a, 3) && b == step(a, 3)
}

/// `w` is a self-avoiding walk of `len` steps on the board from `head`.
pub open spec fn is_walk(w: Seq<u32>, head: u32, len: nat) -> bool {
    &&& w.len() == len + 1
    &&& w[0] == head
    &&& forall|i: int| 0 <= i < w.len() ==> #[trigger] w[i] < 9
    &&& forall|i: int| 0 <= i < len ==> adjacent(#[trigger] w[i], w[i + 1])
    &&& forall|i: int, j: int| 0 <= i < j < w.len() ==> #[trigger] w[i] != #[trigger] w[j]
}

/// Every cell of the cell set `m` lies on the walk `w`.
pub open spec fn covers(w: Seq<u32>, m: u32) -> bool {
    &&& m < 512
    &&& forall|c: u32| c < 9 && #[trigger] holds_cell(m, c) ==> w.contains(c)
}

/// The cell set `m` fits inside the footprint of some self-avoiding walk of
/// `len` steps from `head`.
pub open spec fn in_oracle(head: u32, len: nat, m: u32) -> bool {
    exists|w: Seq<u32>| #[trigger] is_walk(w, head, len) && covers(w, m)
}

/// `t` answers, for every length from 1 to `SEARCH_LENGTH` and every cell set,
/// whether that set fits inside a walk of that length from each head cell:
/// `t[h][l - 1][m]`.
pub open spec fn is_oracle_table(t: Seq<Vec<Vec<bool>>>) -> bool {
    &&& t.len() == 9
    &&& forall|h: int| 0 <= h < 9 ==> (#[trigger] t[h])@.len() == SEARCH_LENGTH
    &&& forall|h: int, l: int|
        0 <= h < 9 && 0 <= l < SEARCH_LENGTH ==> (#[trigger] t[h]@[l])@.len() == 512
    &&& forall|h: int, l: int, m: int|
        0 <= h < 9 && 0 <= l < SEARCH_LENGTH && 0 <= m < 512 ==> (#[trigger] t[h]@[l]@[m])
            == in_oracle(h as u32, (l + 1) as nat, m as u32)
}

proof fn lemma_add_cell(a: u32, c: u32, x: u32)
    by (bit_vector)
    requires
        a < 512,
        c < 9,
        x < 9,
    ensures
        holds_cell(a | (1u32 << c), x) == (holds_cell(a, x) || x == c),
        (a | (1u32 << c)) < 512,
        holds_cell(1u32 << c, x) == (x == c),
        (1u32 << c) < 512,
{
}

proof fn lemma_sub_bit(m: u32, t: u32, c: u32)
    by (bit_vector)
    requires
        m & t == m,
        holds_cell(m, c),
    ensures
        holds_cell(t, c),
{
}

proof fn lemma_sub_bits(m: u32, t: u32)
    by (bit_vector)
    requires
        m < 512,
        holds_cell(m, 0) ==> holds_cell(t, 0),
        holds_cell(m, 1) ==> holds_cell(t, 1),
        holds_cell(m, 2) ==> holds_cell(t, 2),
        holds_cell(m, 3) ==> holds_cell(t, 3),
        holds_cell(m, 4) ==> holds_cell(t, 4),
        holds_cell(m, 5) ==> holds_cell(t, 5),
        holds_cell(m, 6) ==> holds_cell(t, 6),
        holds_cell(m, 7) ==> holds_cell(t, 7),
        holds_cell(m, 8) ==> holds_cell(t, 8),
    ensures
        m & t == m,
{
}

/// For cell sets, `m & t == m` says that every cell of `m` is in `t`.
proof fn lemma_submask(m: u32, t: u32)
    requires
        m < 512,
    ensures
        (m & t == m) == (forall|c: u32| c < 9 && #[trigger] holds_cell(m, c) ==> holds_cell(t, c)),
{
    if m & t == m {
        assert forall|c: u32| c < 9 && #[trigger] holds_cell(m, c) implies holds_cell(t, c) by {
            lemma_sub_bit(m, t, c);
        }
    }
    if forall|c: u32| c < 9 && #[trigger] holds_cell(m, c) ==> holds_cell(t, c) {
        assert(holds_cell(m, 0) ==> holds_cell(t, 0));
        assert(holds_cell(m, 1) ==> holds_cell(t, 1));
        assert(holds_cell(m, 2) ==> holds_cell(t, 2));
        assert(holds_cell(m, 3) ==> holds_cell(t, 3));
        assert(holds_cell(m, 4) ==> holds_cell(t, 4));
        assert(holds_cell(m, 5) ==> holds_cell(t, 5));
        assert(holds_cell(m, 6) ==> holds_cell(t, 6));
        assert(holds_cell(m, 7) ==> holds_cell(t, 7));
        assert(holds_cell(m, 8) ==> holds_cell(t, 8));
        lemma_sub_bits(m, t);
    }
}

/// Sets to true every entry of `table` whose index is a subset of `taken`.
fn mark_submasks(table: &mut Vec<bool>, taken: u32)
    requires
        old(table)@.len() == 512,
    ensures
        final(table)@.len() == 512,
        forall|m: u32|
            m < 512 ==> #[trigger] final(table)@[m as int] == (old(table)@[m as int] || m & taken
                == m),
{
    let mut m: u32 = 0;
    while m < 512
        invariant
            m <= 512,
            table@.len() == 512,
            forall|k: u32|
                k < 512 ==> #[trigger] table@[k as int] == (old(table)@[k as int] || (k < m && k
                    & taken == k)),
        decreases 512 - m,
    {
        if m & taken == m {
            table.set(m as usize, true);
        }
        m = m + 1;
    }
}

/// The direction in which `b` lies from `a`, for neighbouring cells.
pub open spec fn direction(a: u32, b: u32) -> u32 {
    if b + 3 == a {
        0
    } else if b == a + 1 {
        1
    } else if b == a + 3 {
        2
    } else {
        3
    }
}

proof fn lemma_direction(a: u32, b: u32)
    requires
        a < 9,
        adjacent(a, b),
    ensures
        direction(a, b) < 4,
        can_step(a, direction(a, b)),
        step(a, direction(a, b)) == b,
{
}

/// A walk of zero steps that covers `m` is its head alone, and so on: a walk
/// that is all of `path` covers exactly the subsets of `taken`.
proof fn lemma_covers_path(path: Seq<u32>, taken: u32, m: u32)
    requires
        m < 512,
        forall|c: u32| c < 9 ==> (holds_cell(taken, c) <==> path.contains(c)),
    ensures
        covers(path, m) == (m & taken == m),
{
    lemma_submask(m, taken);
    if covers(path, m) {
        assert forall|c: u32| c < 9 && #[trigger] holds_cell(m, c) implies holds_cell(taken, c) by {}
    }
    if m & taken == m {
        assert forall|c: u32| c < 9 && #[trigger] holds_cell(m, c) implies path.contains(c) by {}
    }
}


/// The cell that follows `path` on a walk that starts with `path` is a
/// neighbour of its last cell, in the direction `direction` gives, and is not
/// on `path`.
proof fn lemma_next_cell(w: Seq<u32>, head: u32, len: nat, path: Seq<u32>)
    requires
        is_walk(w, head, len),
        1 <= path.len() <= len,
        w.take(path.len() as int) == path,
    ensures
        direction(path.last(), w[path.len() as int]) < 4,
        can_step(path.last(), direction(path.last(), w[path.len() as int])),
        step(path.last(), direction(path.last(), w[path.len() as int])) == w[path.len() as int],
        !path.contains(w[path.len() as int]),
{
    let k = path.len() as int;
    assert(w[k - 1] == path[k - 1]) by {
        assert(w.take(k)[k - 1] == path[k - 1]);
    }
    assert(adjacent(w[k - 1], w[k]));
    assert(w[k - 1] < 9);
    lemma_direction(path.last(), w[k]);
    if path.contains(w[k]) {
        let i = choose|i: int| 0 <= i < path.len() && path[i] == w[k];
        assert(w.take(k)[i] == path[i]);
        assert(w[i] != w[k]);
    }
}

/// A walk starts with `path` and then `next` exactly when it starts with
/// `path.push(next)`.
proof fn lemma_take_push(w: Seq<u32>, path: Seq<u32>, next: u32)
    requires
        path.len() < w.len(),
    ensures
        (w.take(path.len() + 1int) == path.push(next)) == (w.take(path.len() as int) == path
            && w[path.len() as int] == next),
{
    let k = path.len() as int;
    if w.take(k + 1) == path.push(next) {
        assert(w.take(k) =~= path) by {
            assert forall|i: int| 0 <= i < k implies w.take(k)[i] == path[i] by {
                assert(w.take(k + 1)[i] == path.push(next)[i]);
            }
        }
        assert(w.take(k + 1)[k] == next);
    }
    if w.take(k) == path && w[k] == next {
        assert(w.take(k + 1) =~= path.push(next)) by {
            assert forall|i: int| 0 <= i < k implies w.take(k + 1)[i] == path.push(next)[i] by {
                assert(w.take(k)[i] == path[i]);
            }
        }
    }
}


/// One more step to a free neighbour keeps a walk a walk, and `taken` with
/// that cell added holds the cells of the longer walk.
proof fn lemma_extend_path(path: Seq<u32>, head: u32, taken: u32, next: u32)
    requires
        path.len() >= 1,
        is_walk(path, head, (path.len() - 1) as nat),
        taken < 512,
        forall|c: u32| c < 9 ==> (holds_cell(taken, c) <==> path.contains(c)),
        next < 9,
        adjacent(path.last(), next),
        !holds_cell(taken, next),
    ensures
        is_walk(path.push(next), head, path.len() as nat),
        (taken | (1u32 << next)) < 512,
        forall|c: u32|
            c < 9 ==> (holds_cell(taken | (1u32 << next), c) <==> path.push(next).contains(c)),
{
    let k = path.len() as int;
    let next_path = path.push(next);
    lemma_add_cell(taken, next, 0);
    assert(!path.contains(next));
    assert forall|c: u32| c < 9 implies (holds_cell(taken | (1u32 << next), c)
        <==> next_path.contains(c)) by {
        lemma_add_cell(taken, next, c);
        assert(next_path[k] == next);
        assert(holds_cell(taken, c) <==> path.contains(c));
        if next_path.contains(c) && c != next {
            let i = choose|i: int| 0 <= i < next_path.len() && next_path[i] == c;
            assert(path[i] == c);
        }
        if path.contains(c) {
            let i = choose|i: int| 0 <= i < path.len() && path[i] == c;
            assert(next_path[i] == c);
        }
    }
    assert forall|i: int| 0 <= i < next_path.len() - 1 implies adjacent(
        #[trigger] next_path[i],
        next_path[i + 1],
    ) by {
        if i < k - 1 {
            assert(adjacent(path[i], path[i + 1]));
        }
    }
    assert forall|i: int, j: int|
        0 <= i < j < next_path.len() implies #[trigger] next_path[i] != #[trigger] next_path[j] by {
        if j < k {
            assert(path[i] != path[j]);
        } else {
            assert(path[i] == next_path[i]);
        }
    }
    assert forall|i: int| 0 <= i < next_path.len() implies #[trigger] next_path[i] < 9 by {
        if i < k {
            assert(path[i] < 9);
        }
    }
}

/// Marks in `table` every cell set that fits inside some walk of `len` steps
/// from `head` whose first cells are `path`; `taken` holds the cells of `path`
/// and `pos` is its last cell.
fn mark_walks(
    table: &mut Vec<bool>,
    pos: u32,
    taken: u32,
    steps_left: usize,
    Ghost(head): Ghost<u32>,
    Ghost(len): Ghost<nat>,
    Ghost(path): Ghost<Seq<u32>>,
)
    requires
        old(table)@.len() == 512,
        path.len() >= 1,
        path.len() + steps_left == len + 1,
        is_walk(path, head, (path.len() - 1) as nat),
        pos == path.last(),
        taken < 512,
        forall|c: u32| c < 9 ==> (holds_cell(taken, c) <==> path.contains(c)),
    ensures
        final(table)@.len() == 512,
        forall|m: u32|
            m < 512 ==> #[trigger] final(table)@[m as int] == (old(table)@[m as int] || exists|
                w: Seq<u32>,
            | #[trigger] is_walk(w, head, len) && w.take(path.len() as int) == path && covers(
                w,
                m,
            )),
    decreases steps_left,
{
    let ghost k = path.len() as int;
    if steps_left == 0 {
        mark_submasks(table, taken);
        assert forall|m: u32| m < 512 implies #[trigger] table@[m as int] == (old(table)@[m as int]
            || exists|w: Seq<u32>|
            #[trigger] is_walk(w, head, len) && w.take(k) == path && covers(w, m)) by {
            lemma_covers_path(path, taken, m);
            if m & taken == m {
                assert(path.take(k) =~= path);
                assert(is_walk(path, head, len));
            }
            if exists|w: Seq<u32>| #[trigger] is_walk(w, head, len) && w.take(k) == path && covers(w, m) {
                let w = choose|w: Seq<u32>| #[trigger] is_walk(w, head, len) && w.take(k) == path && covers(w, m);
                assert(w =~= path);
            }
        }
        return;
    }
    let ghost start = table@;
    let mut d: u32 = 0;
    while d < 4
        invariant
            0 <= d <= 4,
            table@.len() == 512,
            start.len() == 512,
            start == old(table)@,
            k == path.len(),
            k >= 1,
            path.len() + steps_left == len + 1,
            steps_left > 0,
            is_walk(path, head, (path.len() - 1) as nat),
            pos == path.last(),
            taken < 512,
            forall|c: u32| c < 9 ==> (holds_cell(taken, c) <==> path.contains(c)),
            forall|m: u32|
                m < 512 ==> #[trigger] table@[m as int] == (start[m as int] || exists|w: Seq<u32>|
                    #[trigger] is_walk(w, head, len) && w.take(k) == path && covers(w, m)
                        && direction(pos, w[k]) < d),
        decreases 4 - d,
    {
        let movable = if d == 0 {
            pos >= 3
        } else if d == 1 {
            pos % 3 != 2
        } else if d == 2 {
            pos < 6
        } else {
            pos % 3 != 0
        };
        proof {
            assert(pos < 9) by {
                assert(path[k - 1] < 9);
            }
        }
        if movable {
            let next: u32 = if d == 0 {
                pos - 3
            } else if d == 1 {
                pos + 1
            } else if d == 2 {
                pos + 3
            } else {
                pos - 1
            };
            assert(can_step(pos, d) && next == step(pos, d));
            assert(next < 9);
            proof {
                lemma_add_cell(taken, next, 0);
            }
            if taken & (1u32 << next) == 0 {
                let ghost next_path = path.push(next);
                proof {
                    assert(!holds_cell(taken, next)) by {
                        assert(((taken >> next) & 1u32 == 1u32) ==> taken & (1u32 << next) != 0)
                            by (bit_vector);
                    }
                    assert(adjacent(pos, next));
                    lemma_extend_path(path, head, taken, next);
                }
                mark_walks(
                    table,
                    next,
                    taken | (1u32 << next),
                    steps_left - 1,
                    Ghost(head),
                    Ghost(len),
                    Ghost(next_path),
                );
                proof {
                    assert forall|m: u32| m < 512 implies #[trigger] table@[m as int] == (
                    start[m as int] || exists|w: Seq<u32>|
                        #[trigger] is_walk(w, head, len) && w.take(k) == path && covers(w, m)
                            && direction(pos, w[k]) < d + 1) by {
                        if exists|w: Seq<u32>|
                            #[trigger] is_walk(w, head, len) && w.take(k + 1) == next_path
                                && covers(w, m) {
                            let w = choose|w: Seq<u32>|
                                #[trigger] is_walk(w, head, len) && w.take(k + 1) == next_path
                                    && covers(w, m);
                            lemma_take_push(w, path, next);
                        }
                        if exists|w: Seq<u32>|
                            #[trigger] is_walk(w, head, len) && w.take(k) == path && covers(w, m)
                                && direction(pos, w[k]) < d + 1 {
                            let w = choose|w: Seq<u32>|
                                #[trigger] is_walk(w, head, len) && w.take(k) == path && covers(w, m)
                                    && direction(pos, w[k]) < d + 1;
                            lemma_next_cell(w, head, len, path);
                            lemma_take_push(w, path, next);
                        }
                    }
                }
            } else {
                proof {
                    assert(holds_cell(taken, next)) by {
                        assert(taken & (1u32 << next) != 0 && next < 9 ==> ((taken >> next) & 1u32
                            == 1u32)) by (bit_vector);
                    }
                    assert forall|m: u32| m < 512 implies #[trigger] table@[m as int] == (
                    start[m as int] || exists|w: Seq<u32>|
                        #[trigger] is_walk(w, head, len) && w.take(k) == path && covers(w, m)
                            && direction(pos, w[k]) < d + 1) by {
                        if exists|w: Seq<u32>|
                            #[trigger] is_walk(w, head, len) && w.take(k) == path && covers(w, m)
                                && direction(pos, w[k]) < d + 1 {
                            let w = choose|w: Seq<u32>|
                                #[trigger] is_walk(w, head, len) && w.take(k) == path && covers(w, m)
                                    && direction(pos, w[k]) < d + 1;
                            lemma_next_cell(w, head, len, path);
                        }
                    }
                }
            }
        } else {
            proof {
                assert forall|m: u32| m < 512 implies #[trigger] table@[m as int] == (start[m as int]
                    || exists|w: Seq<u32>|
                    #[trigger] is_walk(w, head, len) && w.take(k) == path && covers(w, m)
                        && direction(pos, w[k]) < d + 1) by {
                    if exists|w: Seq<u32>|
                        #[trigger] is_walk(w, head, len) && w.take(k) == path && covers(w, m)
                            && direction(pos, w[k]) < d + 1 {
                        let w = choose|w: Seq<u32>|
                            #[trigger] is_walk(w, head, len) && w.take(k) == path && covers(w, m)
                                && direction(pos, w[k]) < d + 1;
                        lemma_next_cell(w, head, len, path);
                    }
                }
            }
        }
        d = d + 1;
    }
    proof {
        assert forall|m: u32| m < 512 implies #[trigger] table@[m as int] == (old(table)@[m as int]
            || exists|w: Seq<u32>|
            #[trigger] is_walk(w, head, len) && w.take(k) == path && covers(w, m)) by {
            if exists|w: Seq<u32>| #[trigger] is_walk(w, head, len) && w.take(k) == path && covers(w, m) {
                let w = choose|w: Seq<u32>| #[trigger] is_walk(w, head, len) && w.take(k) == path && covers(w, m);
                lemma_next_cell(w, head, len, path);
            }
        }
    }
}

/// The cell set that holds cell `c` alone.
pub open spec fn cell_bit(c: u32) -> u32 {
    1u32 << c
}

/// `head` holds exactly one cell of the board.
pub open spec fn is_single_cell(head: u32) -> bool {
    exists|h: u32| h < 9 && head == cell_bit(h)
}

/// The table of one head and one length: entry `m` says whether the cell set
/// `m` fits inside the footprint of a self-avoiding walk of `tail_length` steps
/// from the cell of `head` (given as the set of that one cell).
pub fn possible_snakes(tail_length: usize, head: u32) -> (r: Vec<bool>)
    requires
        1 <= tail_length < 8,
        is_single_cell(head),
    ensures
        r@.len() == 512,
        forall|h: u32|
            h < 9 && head == #[trigger] cell_bit(h) ==> forall|m: u32|
                m < 512 ==> #[trigger] r@[m as int] == in_oracle(h, tail_length as nat, m),
{
    let mut h: u32 = 0;
    while h < 9 && (1u32 << h) != head
        invariant
            h <= 9,
            is_single_cell(head),
            forall|j: u32| j < h ==> cell_bit(j) != head,
        decreases 9 - h,
    {
        h = h + 1;
    }
    proof {
        let j = choose|j: u32| j < 9 && head == cell_bit(j);
        assert(h < 9);
    }
    let mut table: Vec<bool> = vec![false; 512];
    let ghost path = seq![h];
    proof {
        assert forall|c: u32| c < 9 implies (holds_cell(head, c) <==> path.contains(c)) by {
            lemma_add_cell(0, h, c);
            if c == h {
                assert(path[0] == c);
            }
        }
        assert(is_walk(path, h, 0));
        lemma_add_cell(0, h, 0);
    }
    mark_walks(&mut table, h, head, tail_length, Ghost(h), Ghost(tail_length as nat), Ghost(path));
    proof {
        assert forall|g: u32| g < 9 && head == #[trigger] cell_bit(g) implies forall|m: u32|
            m < 512 ==> #[trigger] table@[m as int] == in_oracle(g, tail_length as nat, m) by {
            lemma_add_cell(0, h, g);
            lemma_add_cell(0, g, h);
            assert(g == h);
            assert forall|m: u32| m < 512 implies #[trigger] table@[m as int] == in_oracle(
                g,
                tail_length as nat,
                m,
            ) by {
                if in_oracle(g, tail_length as nat, m) {
                    let w = choose|w: Seq<u32>|
                        #[trigger] is_walk(w, g, tail_length as nat) && covers(w, m);
                    assert(w.take(1) =~= path);
                }
            }
        }
    }
    table
}

/// Builds the table of every head cell and every length from 1 to
/// `SEARCH_LENGTH`, indexed `[head][length - 1][cell set]`.
pub fn prepare_snakes() -> (out: Vec<Vec<Vec<bool>>>)
    ensures
        is_oracle_table(out@),
{
    let mut out: Vec<Vec<Vec<bool>>> = Vec::with_capacity(9);
    let mut snake_head_position: u32 = 0;
    while snake_head_position < 9
        invariant
            snake_head_position <= 9,
            out@.len() == snake_head_position,
            forall|h: int| 0 <= h < snake_head_position ==> (#[trigger] out@[h])@.len() == SEARCH_LENGTH,
            forall|h: int, l: int|
                0 <= h < snake_head_position && 0 <= l < SEARCH_LENGTH ==> (#[trigger] out@[h]@[l])@.len()
                    == 512,
            forall|h: int, l: int, m: int|
                0 <= h < snake_head_position && 0 <= l < SEARCH_LENGTH && 0 <= m < 512 ==> (
                #[trigger] out@[h]@[l]@[m]) == in_oracle(h as u32, (l + 1) as nat, m as u32),
        decreases 9 - snake_head_position,
    {
        let mut lengths: Vec<Vec<bool>> = Vec::with_capacity(SEARCH_LENGTH);
        let mut tail_length: usize = 1;
        while tail_length <= SEARCH_LENGTH
            invariant
                snake_head_position < 9,
                1 <= tail_length <= SEARCH_LENGTH + 1,
                lengths@.len() == tail_length - 1,
                forall|l: int| 0 <= l < tail_length - 1 ==> (#[trigger] lengths@[l])@.len() == 512,
                forall|l: int, m: int|
                    0 <= l < tail_length - 1 && 0 <= m < 512 ==> (#[trigger] lengths@[l]@[m])
                        == in_oracle(snake_head_position, (l + 1) as nat, m as u32),
            decreases SEARCH_LENGTH + 1 - tail_length,
        {
            proof {
                assert(is_single_cell(cell_bit(snake_head_position)));
            }
            let snakes = possible_snakes(tail_length, 1u32 << snake_head_position);
            proof {
                assert(cell_bit(snake_head_position) == 1u32 << snake_head_position);
                assert forall|m: int| 0 <= m < 512 implies snakes@[m] == in_oracle(
                    snake_head_position,
                    tail_length as nat,
                    m as u32,
                ) by {
                    assert(snakes@[(m as u32) as int] == in_oracle(
                        snake_head_position,
                        tail_length as nat,
                        m as u32,
                    ));
                }
            }
            lengths.push(snakes);
            tail_length = tail_length + 1;
        }
        out.push(lengths);
        snake_head_position = snake_head_position + 1;
    }
    out
}

proof fn lemma_head_bit(p: u32, h: u32)
    by (bit_vector)
    requires
        h < 9,
    ensures
        ((1u32 << h) & p != 0) == holds_cell(p, h),
{
}

/// Some head cell of `previous_choises` has a walk of `tail_length` steps
/// whose footprint takes in all of `chosen_positions`.
pub fn could_block_all(
    previous_choises: u32,
    chosen_positions: u32,
    calculated_snakes: &[Vec<Vec<bool>>],
    tail_length: usize,
) -> (r: bool)
    requires
        is_oracle_table(calculated_snakes@),
        chosen_positions < 512,
        previous_choises == 0 || 1 <= tail_length <= SEARCH_LENGTH,
    ensures
        r == exists|h: u32|
            h < 9 && holds_cell(previous_choises, h) && #[trigger] in_oracle(
                h,
                tail_length as nat,
                chosen_positions,
            ),
{
    let mut head: u32 = 0;
    while head < 9
        invariant
            head <= 9,
            is_oracle_table(calculated_snakes@),
            chosen_positions < 512,
            previous_choises == 0 || 1 <= tail_length <= SEARCH_LENGTH,
            forall|h: u32|
                h < head ==> !(holds_cell(previous_choises, h) && #[trigger] in_oracle(
                    h,
                    tail_length as nat,
                    chosen_positions,
                )),
        decreases 9 - head,
    {
        proof {
            lemma_head_bit(previous_choises, head);
        }
        if (1u32 << head) & previous_choises != 0 {
            proof {
                assert(previous_choises != 0) by {
                    assert(holds_cell(previous_choises, head) ==> previous_choises != 0)
                        by (bit_vector);
                }
            }
            if calculated_snakes[head as usize][tail_length - 1][chosen_positions as usize] {
                return true;
            }
        }
        head = head + 1;
    }
    false
}

/// Closure of the table: every cell set that lies on a walk of length `len`
/// from `head`, the walk's whole footprint and each part of it, is marked in
/// the entry of that head and length.
pub proof fn lemma_oracle_closed(t: Seq<Vec<Vec<bool>>>, w: Seq<u32>, head: u32, len: nat, m: u32)
    requires
        is_oracle_table(t),
        head < 9,
        1 <= len <= SEARCH_LENGTH,
        is_walk(w, head, len),
        covers(w, m),
    ensures
        t[head as int]@[len - 1]@[m as int],
{
    assert(in_oracle(head, len, m));
    assert(t[head as int]@[len - 1]@[m as int] == in_oracle(head, len, m));
}

/// Each part of a cell set that fits inside a walk fits inside it too.
pub proof fn lemma_oracle_subsets(head: u32, len: nat, m: u32, part: u32)
    requires
        in_oracle(head, len, m),
        part < 512,
        part & m == part,
    ensures
        in_oracle(head, len, part),
{
    let w = choose|w: Seq<u32>| #[trigger] is_walk(w, head, len) && covers(w, m);
    assert forall|c: u32| c < 9 && #[trigger] holds_cell(part, c) implies w.contains(c) by {
        lemma_sub_bit(part, m, c);
    }
    assert(covers(w, part));
}

} // verus!
