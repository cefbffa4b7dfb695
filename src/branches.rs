//! The choices for the next layer: tuples of distinct cells, grown while the
//! cells chosen so far still fit inside a walk from one of the previous
//! layer's cells, each finished tuple giving the cell set it holds.
use vstd::prelude::*;
use crate::geometry::holds_cell;
use crate::oracle::{cell_bit, could_block_all, in_oracle, is_oracle_table, SEARCH_LENGTH};

verus! {

/// The cell set that holds the cells of `t`.
pub open spec fn mask_of(t: Seq<u32>) -> u32
    decreases t.len(),
{
    if t.len() == 0 {
        0
    } else {
        mask_of(t.drop_last()) | cell_bit(t.last())
    }
}

/// `t` lists distinct cells of the board.
pub open spec fn distinct_cells(t: Seq<u32>) -> bool {
    &&& forall|i: int| 0 <= i < t.len() ==> #[trigger] t[i] < 9
    &&& forall|i: int, j: int| 0 <= i < j < t.len() ==> #[trigger] t[i] != #[trigger] t[j]
}

/// Some cell of `prev` has a walk of `len` steps whose footprint takes in all
/// of `comb`: the cells of `comb` do not yet cut off every such walk.
pub open spec fn blocks(prev: u32, len: nat, comb: u32) -> bool {
    exists|h: u32| h < 9 && holds_cell(prev, h) && #[trigger] in_oracle(h, len, comb)
}

/// The cell sets that the search yields below the layer `prev` for walks of
/// `len` steps, from the tuples that extend `prefix` with a cell numbered
/// `start` or more. A cell already in the tuple, or equal to `prev` as a set,
/// is skipped. A tuple of at most `len + 1` cells that does not yet cut off
/// every walk is grown by one more cell; any other tuple is finished and its
/// cell set is yielded.
pub open spec fn explore(prev: u32, len: nat, prefix: Seq<u32>, start: u32) -> Seq<u32>
    decreases 9 - prefix.len(), 9 - start,
{
    if prefix.len() >= 9 || start >= 9 {
        seq![]
    } else {
        let rest = explore(prev, len, prefix, (start + 1) as u32);
        if cell_bit(start) == prev || prefix.contains(start) {
            rest
        } else {
            let t = prefix.push(start);
            if prefix.len() <= len && blocks(prev, len, mask_of(t)) {
                explore(prev, len, t, 0) + rest
            } else {
                seq![mask_of(t)] + rest
            }
        }
    }
}

/// Every choice for the layer below `prev`, for walks of `len` steps, in the
/// order of the search.
pub open spec fn branches(prev: u32, len: nat) -> Seq<u32> {
    explore(prev, len, seq![], 0)
}

proof fn lemma_or_bit(a: u32, c: u32, x: u32)
    by (bit_vector)
    requires
        a < 512,
        c < 9,
        x < 9,
    ensures
        holds_cell(a | (1u32 << c), x) == (holds_cell(a, x) || x == c),
        (a | (1u32 << c)) < 512,
        ((1u32 << c) & a != 0) == holds_cell(a, c),
        (a & (1u32 << c) != 0) == holds_cell(a, c),
{
}

proof fn lemma_nonempty(x: u32, c: u32)
    by (bit_vector)
    requires
        holds_cell(x, c),
    ensures
        x != 0,
{
}

/// The cell set of a tuple of cells holds exactly those cells.
pub proof fn lemma_mask_of(t: Seq<u32>)
    requires
        forall|i: int| 0 <= i < t.len() ==> #[trigger] t[i] < 9,
    ensures
        mask_of(t) < 512,
        forall|c: u32| c < 9 ==> (holds_cell(mask_of(t), c) <==> t.contains(c)),
    decreases t.len(),
{
    if t.len() == 0 {
        assert forall|c: u32| c < 9 implies !holds_cell(0u32, c) by {
            assert(c < 9 ==> !holds_cell(0u32, c)) by (bit_vector);
        }
    } else {
        let s = t.drop_last();
        lemma_mask_of(s);
        assert forall|c: u32| c < 9 implies (holds_cell(mask_of(t), c) <==> t.contains(c)) by {
            lemma_or_bit(mask_of(s), t.last(), c);
            if t.contains(c) && c != t.last() {
                let i = choose|i: int| 0 <= i < t.len() && t[i] == c;
                assert(s[i] == c);
            }
            if s.contains(c) {
                let i = choose|i: int| 0 <= i < s.len() && s[i] == c;
                assert(t[i] == c);
            }
            assert(t[t.len() - 1] == t.last());
        }
        lemma_or_bit(mask_of(s), t.last(), 0);
    }
}

/// Appends to `out` the cell sets that the search yields from the tuples that
/// extend `prefix`; `combination` is the cell set of `prefix`.
fn collect_branches(
    previous_choises: u32,
    tail_length: usize,
    calculated_snakes: &[Vec<Vec<bool>>],
    prefix: &mut Vec<u32>,
    combination: u32,
    out: &mut Vec<u32>,
)
    requires
        is_oracle_table(calculated_snakes@),
        previous_choises == 0 || 1 <= tail_length <= SEARCH_LENGTH,
        tail_length <= SEARCH_LENGTH,
        old(prefix)@.len() < 9,
        distinct_cells(old(prefix)@),
        combination == mask_of(old(prefix)@),
    ensures
        final(prefix)@ == old(prefix)@,
        final(out)@ == old(out)@ + explore(previous_choises, tail_length as nat, old(prefix)@, 0),
    decreases 9 - old(prefix)@.len(),
{
    let ghost p0 = prefix@;
    let ghost len = tail_length as nat;
    proof {
        lemma_mask_of(p0);
    }
    let mut value: u32 = 0;
    while value < 9
        invariant
            value <= 9,
            prefix@ == p0,
            p0 == old(prefix)@,
            len == tail_length as nat,
            p0.len() < 9,
            distinct_cells(p0),
            combination == mask_of(p0),
            combination < 512,
            forall|c: u32| c < 9 ==> (holds_cell(combination, c) <==> p0.contains(c)),
            is_oracle_table(calculated_snakes@),
            previous_choises == 0 || 1 <= tail_length <= SEARCH_LENGTH,
            tail_length <= SEARCH_LENGTH,
            out@ + explore(previous_choises, len, p0, value) == old(out)@ + explore(
                previous_choises,
                len,
                p0,
                0,
            ),
        decreases 9 - value,
    {
        let ghost before = out@;
        let bit = 1u32 << value;
        proof {
            lemma_or_bit(combination, value, 0);
        }
        if previous_choises == bit || combination & bit != 0 {
            proof {
                if combination & bit != 0 {
                    assert(p0.contains(value));
                }
                assert(explore(previous_choises, len, p0, value) == explore(
                    previous_choises,
                    len,
                    p0,
                    (value + 1) as u32,
                ));
            }
            value = value + 1;
            continue;
        }
        let comb = combination | bit;
        let ghost t = p0.push(value);
        proof {
            assert(t.drop_last() =~= p0);
            assert(comb == mask_of(t));
            assert(!p0.contains(value));
        }
        let extend = prefix.len() <= tail_length && could_block_all(
            previous_choises,
            comb,
            calculated_snakes,
            tail_length,
        );
        proof {
            assert(extend == (p0.len() <= len && blocks(previous_choises, len, mask_of(t))));
        }
        if extend {
            prefix.push(value);
            proof {
                assert(distinct_cells(prefix@)) by {
                    assert forall|i: int, j: int|
                        0 <= i < j < t.len() implies #[trigger] t[i] != #[trigger] t[j] by {
                        if j < p0.len() {
                            assert(p0[i] != p0[j]);
                        } else {
                            assert(p0[i] == t[i]);
                        }
                    }
                    assert forall|i: int| 0 <= i < t.len() implies #[trigger] t[i] < 9 by {
                        if i < p0.len() {
                            assert(p0[i] < 9);
                        }
                    }
                }
            }
            assert(prefix@.len() == p0.len() + 1);
            collect_branches(previous_choises, tail_length, calculated_snakes, prefix, comb, out);
            prefix.pop();
            proof {
                assert(prefix@ =~= p0);
                assert(explore(previous_choises, len, p0, value) == explore(previous_choises, len, t, 0)
                    + explore(previous_choises, len, p0, (value + 1) as u32));
                assert(out@ + explore(previous_choises, len, p0, (value + 1) as u32) =~= before
                    + explore(previous_choises, len, p0, value));
            }
        } else {
            out.push(comb);
            proof {
                assert(explore(previous_choises, len, p0, value) == seq![mask_of(t)] + explore(
                    previous_choises,
                    len,
                    p0,
                    (value + 1) as u32,
                ));
                assert(out@ + explore(previous_choises, len, p0, (value + 1) as u32) =~= before
                    + explore(previous_choises, len, p0, value));
            }
        }
        value = value + 1;
    }
    proof {
        assert(explore(previous_choises, len, p0, value) =~= seq![]);
        assert(out@ =~= out@ + explore(previous_choises, len, p0, value));
    }
}

/// The choices for the layer below a given layer, handed out one at a time.
pub struct BranchIterator {
    branches: Vec<u32>,
    next_index: usize,
}

impl BranchIterator {
    /// The choices that are still to come, in order.
    pub closed spec fn remaining(&self) -> Seq<u32> {
        self.branches@.subrange(self.next_index as int, self.branches@.len() as int)
    }

    pub closed spec fn well_formed(&self) -> bool {
        self.next_index <= self.branches@.len()
    }

    /// The choices below the layer `previous_choises` against walks of
    /// `tail_length` steps.
    pub fn new(
        previous_choises: u32,
        tail_length: usize,
        calculated_snakes: &[Vec<Vec<bool>>],
    ) -> (r: BranchIterator)
        requires
            is_oracle_table(calculated_snakes@),
            previous_choises == 0 || 1 <= tail_length,
            tail_length <= SEARCH_LENGTH,
        ensures
            r.well_formed(),
            r.remaining() == branches(previous_choises, tail_length as nat),
    {
        let mut prefix: Vec<u32> = Vec::new();
        let mut out: Vec<u32> = Vec::new();
        proof {
            assert(mask_of(prefix@) == 0);
        }
        collect_branches(previous_choises, tail_length, calculated_snakes, &mut prefix, 0, &mut out);
        proof {
            assert(prefix@ =~= seq![]);
            assert(out@ =~= branches(previous_choises, tail_length as nat));
        }
        let r = BranchIterator { branches: out, next_index: 0 };
        proof {
            assert(r.remaining() =~= r.branches@);
        }
        r
    }

    /// The next choice, if any is left.
    pub fn next(&mut self) -> (r: Option<u32>)
        requires
            old(self).well_formed(),
        ensures
            final(self).well_formed(),
            old(self).remaining().len() == 0 ==> r.is_none()
                && final(self).remaining() == old(self).remaining(),
            old(self).remaining().len() > 0 ==> r == Some(old(self).remaining()[0])
                && final(self).remaining() == old(self).remaining().drop_first(),
    {
        if self.next_index < self.branches.len() {
            let item = self.branches[self.next_index];
            self.next_index = self.next_index + 1;
            proof {
                assert(self.remaining() =~= old(self).remaining().drop_first());
            }
            Some(item)
        } else {
            None
        }
    }

    /// How many choices are left.
    pub fn count(&self) -> (r: usize)
        requires
            self.well_formed(),
        ensures
            r == self.remaining().len(),
    {
        self.branches.len() - self.next_index
    }
}

/// The union of the cell sets in `positions`.
pub open spec fn union_of(positions: Seq<u32>) -> u32
    decreases positions.len(),
{
    if positions.len() == 0 {
        0
    } else {
        union_of(positions.drop_last()) | positions.last()
    }
}

/// The union of the cell sets in `positions`.
pub fn combine_positions(positions: &[u32; 9]) -> (r: u32)
    ensures
        r == union_of(positions@),
{
    let mut combination: u32 = 0;
    let mut i: usize = 0;
    while i < 9
        invariant
            i <= 9,
            positions@.len() == 9,
            combination == union_of(positions@.subrange(0, i as int)),
        decreases 9 - i,
    {
        proof {
            assert(positions@.subrange(0, i + 1).drop_last() =~= positions@.subrange(0, i as int));
        }
        combination = combination | positions[i];
        i = i + 1;
    }
    proof {
        assert(positions@.subrange(0, 9) =~= positions@);
    }
    combination
}

/// Every choice below a layer is a nonempty set of cells of the board, and
/// when the layer is a single cell, no choice holds that cell.
pub proof fn lemma_branches_valid(prev: u32, len: nat, i: int)
    requires
        0 <= i < branches(prev, len).len(),
    ensures
        0 < branches(prev, len)[i] < 512,
        forall|p: u32| p < 9 && prev == cell_bit(p) ==> !holds_cell(branches(prev, len)[i], p),
{
    lemma_explore_valid(prev, len, seq![], 0, i);
    let e = branches(prev, len)[i];
    assert forall|p: u32| p < 9 && prev == cell_bit(p) implies !holds_cell(e, p) by {}
}

/// What the search yields from any tuple of distinct cells none of which is
/// `prev` as a set: nonempty cell sets none of whose cells is `prev` as a set.
proof fn lemma_explore_valid(prev: u32, len: nat, prefix: Seq<u32>, start: u32, i: int)
    requires
        distinct_cells(prefix),
        forall|j: int| 0 <= j < prefix.len() ==> cell_bit(#[trigger] prefix[j]) != prev,
        0 <= i < explore(prev, len, prefix, start).len(),
    ensures
        0 < explore(prev, len, prefix, start)[i] < 512,
        forall|c: u32|
            c < 9 && #[trigger] holds_cell(explore(prev, len, prefix, start)[i], c) ==> cell_bit(c)
                != prev,
    decreases 9 - prefix.len(), 9 - start,
{
    if prefix.len() >= 9 || start >= 9 {
        assert(explore(prev, len, prefix, start) =~= seq![]);
    } else {
        let rest = explore(prev, len, prefix, (start + 1) as u32);
        let all = explore(prev, len, prefix, start);
        if cell_bit(start) == prev || prefix.contains(start) {
            assert(all == rest);
            lemma_explore_valid(prev, len, prefix, (start + 1) as u32, i);
        } else {
            let t = prefix.push(start);
            assert(distinct_cells(t)) by {
                assert forall|a: int, b: int|
                    0 <= a < b < t.len() implies #[trigger] t[a] != #[trigger] t[b] by {
                    if b < prefix.len() {
                        assert(prefix[a] != prefix[b]);
                    } else {
                        assert(prefix[a] == t[a]);
                    }
                }
                assert forall|a: int| 0 <= a < t.len() implies #[trigger] t[a] < 9 by {
                    if a < prefix.len() {
                        assert(prefix[a] < 9);
                    }
                }
            }
            assert forall|j: int| 0 <= j < t.len() implies cell_bit(#[trigger] t[j]) != prev by {
                if j < prefix.len() {
                    assert(t[j] == prefix[j]);
                }
            }
            if prefix.len() <= len && blocks(prev, len, mask_of(t)) {
                let first = explore(prev, len, t, 0);
                assert(all =~= first + rest);
                if i < first.len() {
                    lemma_explore_valid(prev, len, t, 0, i);
                    assert(all[i] == first[i]);
                } else {
                    lemma_explore_valid(prev, len, prefix, (start + 1) as u32, i - first.len());
                    assert(all[i] == rest[i - first.len()]);
                }
            } else {
                assert(all =~= seq![mask_of(t)] + rest);
                if i == 0 {
                    lemma_mask_of(t);
                    assert(all[0] == mask_of(t));
                    assert(t[t.len() - 1] == start);
                    assert(t.contains(start));
                    lemma_nonempty(mask_of(t), start);
                    assert forall|c: u32| c < 9 && #[trigger] holds_cell(all[0], c) implies cell_bit(
                        c,
                    ) != prev by {
                        assert(t.contains(c));
                        let j = choose|j: int| 0 <= j < t.len() && t[j] == c;
                    }
                } else {
                    lemma_explore_valid(prev, len, prefix, (start + 1) as u32, i - 1);
                    assert(all[i] == rest[i - 1]);
                }
            }
        }
    }
}

} // verus!
