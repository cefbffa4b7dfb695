//! The number of ways to fill every layer down to the last one, summed over
//! the tree of choices with a memo of the totals already found.
use vstd::prelude::*;
use fnv::FnvHashMap;
use crate::branches::{branches, lemma_branches_valid, BranchIterator};
use crate::geometry::{image, is_image, lemma_image, variations};
use crate::invariance::{lemma_count_symmetric, lemma_count_unfold};
use crate::oracle::{is_oracle_table, SEARCH_LENGTH};

verus! {

/// The hasher of the fnv crate, carried as an opaque type: the memo is a
/// `HashMap` built with it.
#[verifier::external_type_specification]
#[verifier::external_body]
pub struct ExFnvHasher(fnv::FnvHasher);

/// std's `BuildHasherDefault`, carried as an opaque type: fnv's map type uses
/// it to build its hashers.
#[verifier::external_type_specification]
#[verifier::external_body]
#[verifier::reject_recursive_types(H)]
pub struct ExBuildHasherDefault<H>(std::hash::BuildHasherDefault<H>);

/// The number of ways to fill the layers from depth `depth` down to the last,
/// summed over every layer of `layers`: at the last depth each choice counts
/// once, above it each choice counts the ways below it.
pub open spec fn layers_total(depth: nat, layers: Seq<u32>) -> nat
    decreases SEARCH_LENGTH - depth, layers.len(),
{
    if layers.len() == 0 {
        0
    } else {
        let below = branches(layers.last(), depth);
        layers_total(depth, layers.drop_last()) + if depth >= SEARCH_LENGTH {
            below.len()
        } else {
            layers_total(depth + 1, below)
        }
    }
}

/// The number of ways to fill the layers from depth `depth` down to the last
/// below the layer `layer`.
pub open spec fn count_below(depth: nat, layer: u32) -> nat {
    layers_total(depth, seq![layer])
}

/// `n` as a `u128`, or `None` where it does not fit.
pub open spec fn fitted(n: nat) -> Option<u128> {
    if n <= u128::MAX {
        Some(n as u128)
    } else {
        None
    }
}

/// Every entry of the memo, under the key (layer, depth), is the number of
/// ways below that layer at that depth.
pub open spec fn is_valid_memo(m: Map<(u16, u8), u128>) -> bool {
    forall|k: (u16, u8)|
        #[trigger] m.contains_key(k) ==> m[k] as nat == count_below(k.1 as nat, k.0 as u32)
}

/// Relies on `HashMap::get` of std, over the hasher of the fnv crate: the value
/// stored under `key`, if there is one.
#[verifier::external_body]
fn memo_get(memo: &FnvHashMap<(u16, u8), u128>, key: (u16, u8)) -> (r: Option<u128>)
    ensures
        r.is_some() == memo@.contains_key(key),
        r.is_some() ==> r.unwrap() == memo@[key],
{
    memo.get(&key).copied()
}

/// Relies on `HashMap::insert` of std, over the hasher of the fnv crate:
/// afterwards `key` holds `value` and every other key is as it was.
#[verifier::external_body]
fn memo_insert(memo: &mut FnvHashMap<(u16, u8), u128>, key: (u16, u8), value: u128)
    ensures
        final(memo)@ == old(memo)@.insert(key, value),
{
    memo.insert(key, value);
}

pub proof fn lemma_total_push(depth: nat, s: Seq<u32>, x: u32)
    ensures
        layers_total(depth, s.push(x)) == layers_total(depth, s) + count_below(depth, x),
{
    assert(s.push(x).drop_last() =~= s);
    assert(seq![x].drop_last() =~= Seq::<u32>::empty());
    assert(layers_total(depth, Seq::<u32>::empty()) == 0);
}

proof fn lemma_total_prefix(depth: nat, s: Seq<u32>, j: int)
    requires
        0 <= j <= s.len(),
    ensures
        layers_total(depth, s.subrange(0, j)) <= layers_total(depth, s),
    decreases s.len(),
{
    if j == s.len() {
        assert(s.subrange(0, j) =~= s);
    } else {
        let t = s.drop_last();
        lemma_total_prefix(depth, t, j);
        assert(t.subrange(0, j) =~= s.subrange(0, j));
    }
}

/// The number of ways to fill the layers from depth `tail_length` down to
/// `SEARCH_LENGTH` below the layer `previous_layer`, or `None` where that
/// number does not fit in a `u128`. Each total found on the way is kept in
/// `hashed_branches` under its layer and under each image of that layer,
/// which has the same number of ways below it, for later calls.
pub fn count_down_tree(
    tail_length: usize,
    previous_layer: u32,
    calculated_snakes: &[Vec<Vec<bool>>],
    hashed_branches: &mut FnvHashMap<(u16, u8), u128>,
) -> (r: Option<u128>)
    requires
        is_oracle_table(calculated_snakes@),
        tail_length <= SEARCH_LENGTH,
        previous_layer < 512,
        previous_layer == 0 || 1 <= tail_length,
        is_valid_memo(old(hashed_branches)@),
    ensures
        is_valid_memo(final(hashed_branches)@),
        r == fitted(count_below(tail_length as nat, previous_layer)),
    decreases SEARCH_LENGTH - tail_length,
{
    let key = (previous_layer as u16, tail_length as u8);
    let ghost depth = tail_length as nat;
    let ghost total = count_below(depth, previous_layer);
    proof {
        assert(key.0 as u32 == previous_layer && key.1 as nat == depth);
    }
    match memo_get(hashed_branches, key) {
        Some(hashed_sum) => {
            proof {
                assert(hashed_branches@.contains_key(key));
            }
            Some(hashed_sum)
        },
        None => {
            let mut iter = BranchIterator::new(previous_layer, tail_length, calculated_snakes);
            let ghost all = branches(previous_layer, depth);
            proof {
                lemma_count_unfold(depth, previous_layer);
            }
            let mut sum: u128 = 0;
            if tail_length == SEARCH_LENGTH {
                sum = iter.count() as u128;
            } else {
                let ghost mut i: int = 0;
                proof {
                    assert(all.subrange(0, 0) =~= Seq::<u32>::empty());
                    assert(iter.remaining() =~= all.subrange(0, all.len() as int));
                }
                while iter.count() > 0
                    invariant
                        is_oracle_table(calculated_snakes@),
                        tail_length < SEARCH_LENGTH,
                        depth == tail_length as nat,
                        all == branches(previous_layer, depth),
                        total == layers_total(depth + 1, all),
                        0 <= i <= all.len(),
                        iter.well_formed(),
                        iter.remaining() == all.subrange(i, all.len() as int),
                        sum as nat == layers_total(depth + 1, all.subrange(0, i)),
                        is_valid_memo(hashed_branches@),
                    decreases iter.remaining().len(),
                {
                    let layer = match iter.next() {
                        Some(layer) => layer,
                        None => {
                            return None;
                        },
                    };
                    proof {
                        assert(layer == all[i]);
                        lemma_branches_valid(previous_layer, depth, i);
                        lemma_total_push(depth + 1, all.subrange(0, i), layer);
                        assert(all.subrange(0, i).push(layer) =~= all.subrange(0, i + 1));
                        lemma_total_prefix(depth + 1, all, i + 1);
                        i = i + 1;
                        assert(iter.remaining() =~= all.subrange(i, all.len() as int));
                    }
                    let below = count_down_tree(
                        tail_length + 1,
                        layer,
                        calculated_snakes,
                        hashed_branches,
                    );
                    match below {
                        Some(below) => match sum.checked_add(below) {
                            Some(s) => {
                                sum = s;
                            },
                            None => {
                                return None;
                            },
                        },
                        None => {
                            return None;
                        },
                    }
                }
                proof {
                    assert(i == all.len());
                    assert(all.subrange(0, i) =~= all);
                }
            }
            proof {
                assert(sum as nat == total);
            }
            let variants = variations(previous_layer);
            let mut v: usize = 0;
            while v < 8
                invariant
                    v <= 8,
                    previous_layer < 512,
                    depth == tail_length as nat,
                    tail_length <= SEARCH_LENGTH,
                    total == count_below(depth, previous_layer),
                    sum as nat == total,
                    forall|g: int| 0 <= g < 8 ==> is_image(previous_layer, #[trigger] variants@[g], g),
                    is_valid_memo(hashed_branches@),
                decreases 8 - v,
            {
                let variant = variants[v];
                let vkey = (variant as u16, tail_length as u8);
                proof {
                    assert(is_image(previous_layer, variants@[v as int], v as int));
                    lemma_image(previous_layer, v as int);
                    lemma_count_symmetric(depth, previous_layer, v as int);
                    assert(variant == image(previous_layer, v as int));
                    assert(vkey.0 as u32 == variant && vkey.1 as nat == depth);
                }
                let ghost pre = hashed_branches@;
                memo_insert(hashed_branches, vkey, sum);
                proof {
                    assert forall|k: (u16, u8)| #[trigger] hashed_branches@.contains_key(k) implies hashed_branches@[k] as nat
                        == count_below(k.1 as nat, k.0 as u32) by {
                        if k != vkey {
                            assert(pre.contains_key(k));
                        }
                    }
                }
                v = v + 1;
            }
            Some(sum)
        },
    }
}

} // verus!
