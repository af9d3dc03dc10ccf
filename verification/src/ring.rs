//! The ring: the model that every contract of this crate speaks of.
//!
//! A list of weights lays the destinations out on a ring. Destination `k`
//! owns a block of `weights[k]` consecutive positions, the blocks follow each
//! other in destination order, and line `i` of the source goes to the owner
//! of position `i % ring_size`.
use vstd::prelude::*;
use vstd::arithmetic::div_mod::{
    lemma_fundamental_div_mod, lemma_fundamental_div_mod_converse, lemma_mod_add_multiples_vanish,
};
use vstd::arithmetic::mul::{lemma_mul_is_commutative, lemma_mul_is_distributive_add_other_way};

verus! {

/// The number of positions on the ring: the sum of all weights.
pub open spec fn ring_size(weights: Seq<usize>) -> nat
    decreases weights.len(),
{
    if weights.len() == 0 {
        0
    } else {
        ring_size(weights.drop_last()) + weights.last() as nat
    }
}

/// The first position of the block of destination `k`: the sum of the
/// weights before it. For `k == weights.len()` this is the ring size.
pub open spec fn block_start(weights: Seq<usize>, k: int) -> nat
    recommends
        0 <= k <= weights.len(),
{
    ring_size(weights.take(k))
}

/// Whether `position` lies in the block of destination `k`.
pub open spec fn owns(weights: Seq<usize>, k: int, position: int) -> bool
    recommends
        0 <= k < weights.len(),
{
    block_start(weights, k) <= position < block_start(weights, k + 1)
}

/// The assignment table: for every position of the ring the index of the
/// destination that owns it. It is the blocks of all destinations one after
/// the other, the block of destination `k` being `weights[k]` copies of `k`.
pub open spec fn assignment_table(weights: Seq<usize>) -> Seq<usize>
    recommends
        weights.len() <= usize::MAX,
    decreases weights.len(),
{
    if weights.len() == 0 {
        Seq::empty()
    } else {
        assignment_table(weights.drop_last()) + Seq::new(
            weights.last() as nat,
            |position: int| (weights.len() - 1) as usize,
        )
    }
}

/// A table routes to `destinations` sinks if every entry is the index of one
/// of them.
pub open spec fn routes_into(table: Seq<usize>, destinations: nat) -> bool {
    forall|position: int| 0 <= position < table.len() ==> #[trigger] table[position] < destinations
}

/// The destination of line `line`: the table entry at `line` modulo the
/// length of the table.
pub open spec fn route(table: Seq<usize>, line: nat) -> usize
    recommends
        table.len() > 0,
{
    table[line as int % table.len() as int]
}

/// Prefix sums grow: a block never starts before an earlier one, and none
/// reaches past the ring.
pub proof fn lemma_block_start_monotonic(weights: Seq<usize>, j: int, k: int)
    requires
        0 <= j <= k <= weights.len(),
    ensures
        block_start(weights, j) <= block_start(weights, k),
        block_start(weights, weights.len() as int) == ring_size(weights),
    decreases k - j,
{
    assert(weights.take(weights.len() as int) =~= weights);
    if j < k {
        lemma_block_start_monotonic(weights, j, k - 1);
        lemma_block_start_step(weights, k - 1);
    }
}

/// A block ends where the next one starts: `weights[k]` positions after its
/// own start.
pub proof fn lemma_block_start_step(weights: Seq<usize>, k: int)
    requires
        0 <= k < weights.len(),
    ensures
        block_start(weights, k + 1) == block_start(weights, k) + weights[k],
{
    assert(weights.take(k + 1).drop_last() =~= weights.take(k));
}

/// The table has one entry per ring position, and the entry at a position is
/// `k` exactly if the position lies in the block of destination `k`: at or
/// after the sum of the weights before `k`, and before that sum plus
/// `weights[k]`. So every position has one owner and one only.
pub proof fn lemma_table_blocks(weights: Seq<usize>)
    requires
        weights.len() <= usize::MAX,
    ensures
        assignment_table(weights).len() == ring_size(weights),
        routes_into(assignment_table(weights), weights.len()),
        forall|k: int, position: int|
            0 <= k < weights.len() && 0 <= position < ring_size(weights) ==> (#[trigger] owns(
                weights,
                k,
                position,
            ) <==> assignment_table(weights)[position] == k),
    decreases weights.len(),
{
    if weights.len() > 0 {
        let shorter = weights.drop_last();
        let last = weights.len() - 1;
        lemma_table_blocks(shorter);
        assert(weights.take(last) =~= shorter);
        lemma_block_start_monotonic(weights, last, last);
        lemma_block_start_step(weights, last);
        assert forall|k: int, position: int|
            0 <= k < weights.len() && 0 <= position < ring_size(weights) implies (#[trigger] owns(
            weights,
            k,
            position,
        ) <==> assignment_table(weights)[position] == k) by {
            if k < last {
                assert(weights.take(k) =~= shorter.take(k));
                assert(weights.take(k + 1) =~= shorter.take(k + 1));
                lemma_block_start_monotonic(shorter, k + 1, last);
                assert(owns(weights, k, position) == owns(shorter, k, position));
            }
        }
    }
}

/// Routing is periodic: a line and the line one ring size later go to the
/// same destination.
pub proof fn lemma_route_periodic(table: Seq<usize>, line: nat)
    requires
        table.len() > 0,
    ensures
        route(table, line + table.len()) == route(table, line),
{
    lemma_mod_add_multiples_vanish(line as int, table.len() as int);
}

/// The ring position advances by one with every line and returns to the
/// start of the ring after the last position.
pub proof fn lemma_position_advances(line: nat, size: nat)
    requires
        size > 0,
    ensures
        (line + 1) % size == if line % size + 1 == size {
            0
        } else {
            line % size + 1
        },
{
    let line = line as int;
    let size = size as int;
    let rounds = line / size;
    let position = line % size;
    lemma_fundamental_div_mod(line, size);
    lemma_mul_is_commutative(size, rounds);
    if position + 1 == size {
        lemma_mul_is_distributive_add_other_way(size, rounds, 1);
        lemma_fundamental_div_mod_converse(line + 1, size, rounds + 1, 0);
    } else {
        lemma_fundamental_div_mod_converse(line + 1, size, rounds, position + 1);
    }
}

} // verus!
