//! Shares: what every destination holds after a split.
use vstd::prelude::*;
use vstd::arithmetic::div_mod::lemma_fundamental_div_mod_converse;
use crate::ring::{
    assignment_table, block_start, lemma_block_start_monotonic, lemma_block_start_step,
    lemma_table_blocks, owns, ring_size, route, routes_into,
};

verus! {

/// The byte that ends every line that is written.
pub const NEWLINE: u8 = 0x0A;

/// The lines that destination `k` holds once `lines` have been dispatched
/// through `table`: those whose route is `k`, in the order of the source.
/// An empty table routes nothing, so nobody holds a line then.
pub open spec fn held<T>(table: Seq<usize>, lines: Seq<T>, k: int) -> Seq<T>
    decreases lines.len(),
{
    if lines.len() == 0 || table.len() == 0 {
        Seq::empty()
    } else {
        let earlier = held(table, lines.drop_last(), k);
        if route(table, (lines.len() - 1) as nat) == k {
            earlier.push(lines.last())
        } else {
            earlier
        }
    }
}

/// The bytes that a sink receives for `lines`: every line followed by one
/// newline.
pub open spec fn written(lines: Seq<Seq<u8>>) -> Seq<u8>
    decreases lines.len(),
{
    if lines.len() == 0 {
        Seq::empty()
    } else {
        written(lines.drop_last()) + lines.last() + seq![NEWLINE]
    }
}

/// The number of ring positions before `position` that lie in the block of
/// destination `k`.
pub open spec fn taken(weights: Seq<usize>, k: int, position: int) -> int
    recommends
        0 <= k < weights.len(),
{
    let start = block_start(weights, k) as int;
    let weight = weights[k] as int;
    if position <= start {
        0
    } else if position >= start + weight {
        weight
    } else {
        position - start
    }
}

/// The lines that destination `k` took in round `round`: its share of that
/// pass through the ring, cut out of all it holds.
pub open spec fn round_share<T>(weights: Seq<usize>, lines: Seq<T>, k: int, round: nat) -> Seq<T>
    recommends
        0 <= k < weights.len(),
{
    held(assignment_table(weights), lines, k).subrange(
        round * weights[k],
        (round + 1) * weights[k],
    )
}

/// The shares of round `round` of the first `upto` destinations, one after
/// the other in ring order.
pub open spec fn gathered<T>(weights: Seq<usize>, lines: Seq<T>, round: nat, upto: nat) -> Seq<T>
    recommends
        upto <= weights.len(),
    decreases upto,
{
    if upto == 0 {
        Seq::empty()
    } else {
        gathered(weights, lines, round, (upto - 1) as nat) + round_share(
            weights,
            lines,
            upto - 1,
            round,
        )
    }
}

/// A destination holds the lines of a shorter source first: more lines only
/// add to the end of what it holds, so the lines of one destination stay in
/// the order of the source.
pub proof fn lemma_held_prefix<T>(table: Seq<usize>, lines: Seq<T>, count: int, k: int)
    requires
        0 <= count <= lines.len(),
    ensures
        held(table, lines.take(count), k).len() <= held(table, lines, k).len(),
        forall|at: int|
            0 <= at < held(table, lines.take(count), k).len() ==> held(
                table,
                lines.take(count),
                k,
            )[at] == #[trigger] held(table, lines, k)[at],
    decreases lines.len() - count,
{
    if count < lines.len() {
        assert(lines.drop_last().take(count) =~= lines.take(count));
        lemma_held_prefix(table, lines.drop_last(), count, k);
    } else {
        assert(lines.take(count) =~= lines);
    }
}

/// The number of lines that the first `upto` destinations hold together.
pub open spec fn held_together<T>(table: Seq<usize>, lines: Seq<T>, upto: nat) -> nat
    decreases upto,
{
    if upto == 0 {
        0
    } else {
        held_together(table, lines, (upto - 1) as nat) + held(table, lines, upto - 1).len()
    }
}

/// One more line is one more line for the destination that it is routed to
/// and for no other.
proof fn lemma_held_together_grows<T>(table: Seq<usize>, lines: Seq<T>, upto: nat)
    requires
        table.len() > 0,
        lines.len() > 0,
    ensures
        held_together(table, lines, upto) == held_together(table, lines.drop_last(), upto) + (
        if route(table, (lines.len() - 1) as nat) < upto {
            1nat
        } else {
            0nat
        }),
    decreases upto,
{
    if upto > 0 {
        lemma_held_together_grows(table, lines, (upto - 1) as nat);
    }
}

/// A split partitions the source: the destinations together hold as many
/// lines as the source has, so every line is held by one destination and by
/// one only.
pub proof fn lemma_every_line_is_held_once<T>(table: Seq<usize>, lines: Seq<T>, destinations: nat)
    requires
        table.len() > 0,
        routes_into(table, destinations),
    ensures
        held_together(table, lines, destinations) == lines.len(),
    decreases lines.len(),
{
    if lines.len() == 0 {
        lemma_nothing_held_together(table, lines, destinations);
    } else {
        lemma_every_line_is_held_once(table, lines.drop_last(), destinations);
        lemma_held_together_grows(table, lines, destinations);
        let position = (lines.len() - 1) % (table.len() as int);
        assert(table[position] < destinations);
    }
}

/// Of no lines, nobody holds any.
proof fn lemma_nothing_held_together<T>(table: Seq<usize>, lines: Seq<T>, upto: nat)
    requires
        lines.len() == 0,
    ensures
        held_together(table, lines, upto) == 0,
    decreases upto,
{
    if upto > 0 {
        lemma_nothing_held_together(table, lines, (upto - 1) as nat);
    }
}

/// A destination that no position of the table names holds nothing.
pub proof fn lemma_unrouted_holds_nothing<T>(table: Seq<usize>, lines: Seq<T>, k: int)
    requires
        forall|position: int| 0 <= position < table.len() ==> #[trigger] table[position] != k,
    ensures
        held(table, lines, k) == Seq::<T>::empty(),
    decreases lines.len(),
{
    if lines.len() > 0 && table.len() > 0 {
        lemma_unrouted_holds_nothing(table, lines.drop_last(), k);
        let position = (lines.len() - 1) % (table.len() as int);
        assert(table[position] != k);
    }
}

/// A destination with weight 0 owns no position of the ring: it never
/// appears in the table and holds no line after a split.
pub proof fn lemma_zero_weight_holds_nothing<T>(weights: Seq<usize>, lines: Seq<T>, k: int)
    requires
        weights.len() <= usize::MAX,
        0 <= k < weights.len(),
        weights[k] == 0,
    ensures
        forall|position: int|
            0 <= position < ring_size(weights) ==> #[trigger] assignment_table(weights)[position]
                != k,
        held(assignment_table(weights), lines, k) == Seq::<T>::empty(),
{
    let table = assignment_table(weights);
    lemma_table_blocks(weights);
    lemma_block_start_step(weights, k);
    assert forall|position: int| 0 <= position < table.len() implies #[trigger] table[position]
        != k by {
        assert(!owns(weights, k, position));
    }
    lemma_unrouted_holds_nothing(table, lines, k);
}

/// How many lines a destination holds: after `rounds` full rounds and
/// `position` more lines, destination `k` holds `weights[k]` lines for every
/// round and one more for every position of its block that was passed.
pub proof fn lemma_held_len<T>(
    weights: Seq<usize>,
    lines: Seq<T>,
    k: int,
    rounds: nat,
    position: nat,
)
    requires
        weights.len() <= usize::MAX,
        0 <= k < weights.len(),
        position <= ring_size(weights),
        rounds * ring_size(weights) + position <= lines.len(),
    ensures
        held(
            assignment_table(weights),
            lines.take((rounds * ring_size(weights) + position) as int),
            k,
        ).len() == rounds * weights[k] + taken(weights, k, position as int),
    decreases rounds, position,
{
    let table = assignment_table(weights);
    let size = ring_size(weights) as int;
    let weight = weights[k] as int;
    let count = rounds * size + position;
    lemma_table_blocks(weights);
    lemma_block_start_step(weights, k);
    lemma_block_start_monotonic(weights, k + 1, weights.len() as int);
    if position > 0 {
        lemma_held_len(weights, lines, k, rounds, (position - 1) as nat);
        let sooner = lines.take(count - 1);
        let later = lines.take(count);
        assert(later.drop_last() =~= sooner);
        lemma_fundamental_div_mod_converse(count - 1, size, rounds as int, position - 1);
        assert(route(table, (count - 1) as nat) == table[position - 1]);
        assert(owns(weights, k, position - 1) <==> table[position - 1] == k);
    } else if rounds > 0 {
        assert((rounds - 1) * size + size == rounds * size) by (nonlinear_arith);
        assert((rounds - 1) * weight + weight == rounds * weight) by (nonlinear_arith);
        lemma_held_len(weights, lines, k, (rounds - 1) as nat, size as nat);
    } else {
        assert(rounds * size == 0) by (nonlinear_arith)
            requires
                rounds == 0,
        ;
        assert(rounds * weight == 0) by (nonlinear_arith)
            requires
                rounds == 0,
        ;
        assert(lines.take(0).len() == 0);
    }
}

/// Which line a destination holds where: in round `round`, the line at
/// offset `offset` of the block of destination `k` is the line that the
/// destination holds at offset `offset` of its share of that round.
pub proof fn lemma_held_at<T>(weights: Seq<usize>, lines: Seq<T>, k: int, round: nat, offset: nat)
    requires
        weights.len() <= usize::MAX,
        0 <= k < weights.len(),
        offset < weights[k],
        round * ring_size(weights) + block_start(weights, k) + offset < lines.len(),
    ensures
        round * weights[k] + offset < held(assignment_table(weights), lines, k).len(),
        held(assignment_table(weights), lines, k)[round * weights[k] + offset] == lines[(round
            * ring_size(weights) + block_start(weights, k) + offset) as int],
{
    let table = assignment_table(weights);
    let size = ring_size(weights) as int;
    let position = (block_start(weights, k) + offset) as int;
    let count = round * size + position;
    lemma_table_blocks(weights);
    lemma_block_start_step(weights, k);
    lemma_block_start_monotonic(weights, k + 1, weights.len() as int);
    lemma_held_len(weights, lines, k, round, position as nat);
    lemma_held_len(weights, lines, k, round, (position + 1) as nat);
    assert(lines.take(count + 1).drop_last() =~= lines.take(count));
    lemma_fundamental_div_mod_converse(count, size, round as int, position);
    assert(route(table, count as nat) == table[position]);
    assert(owns(weights, k, position));
    lemma_held_prefix(table, lines, count + 1, k);
    assert(held(table, lines.take(count + 1), k)[round * weights[k] + offset] == lines[count]);
}

/// The shares of a round of the first `upto` destinations, one after the
/// other, are the lines of that round up to the block of destination `upto`.
pub proof fn lemma_gathered<T>(weights: Seq<usize>, lines: Seq<T>, round: nat, upto: nat)
    requires
        weights.len() <= usize::MAX,
        upto <= weights.len(),
        (round + 1) * ring_size(weights) <= lines.len(),
    ensures
        gathered(weights, lines, round, upto) == lines.subrange(
            (round * ring_size(weights)) as int,
            (round * ring_size(weights) + block_start(weights, upto as int)) as int,
        ),
    decreases upto,
{
    let size = ring_size(weights) as int;
    let first = round * size;
    assert((round + 1) * size == first + size) by (nonlinear_arith)
        requires
            first == round * size,
    ;
    if upto == 0 {
        assert(weights.take(0) =~= Seq::<usize>::empty());
        assert(lines.subrange(first, first + 0) =~= Seq::<T>::empty());
    } else {
        let k = upto - 1;
        let weight = weights[k] as int;
        let start = block_start(weights, k) as int;
        lemma_gathered(weights, lines, round, k as nat);
        lemma_block_start_step(weights, k);
        lemma_block_start_monotonic(weights, upto as int, weights.len() as int);
        assert((round + 1) * weight == round * weight + weight) by (nonlinear_arith);
        assert(0 <= round * weight) by (nonlinear_arith)
            requires
                0 <= weight,
        ;
        if weight > 0 {
            lemma_held_at(weights, lines, k, round, (weight - 1) as nat);
        } else {
            assert(round * weight == 0) by (nonlinear_arith)
                requires
                    weight == 0,
            ;
        }
        let share = round_share(weights, lines, k, round);
        let block = lines.subrange(first + start, first + start + weight);
        assert(share.len() == weight);
        assert forall|offset: int| 0 <= offset < weight implies share[offset] == block[offset] by {
            lemma_held_at(weights, lines, k, round, offset as nat);
        }
        assert(share =~= block);
        assert(lines.subrange(first, first + start) + block =~= lines.subrange(
            first,
            first + start + weight,
        ));
    }
}

/// Round trip: the shares that the destinations took in one full round,
/// one after the other in ring order, are the lines of that round in the
/// order of the source.
pub proof fn lemma_round_trip<T>(weights: Seq<usize>, lines: Seq<T>, round: nat)
    requires
        weights.len() <= usize::MAX,
        (round + 1) * ring_size(weights) <= lines.len(),
    ensures
        gathered(weights, lines, round, weights.len()) == lines.subrange(
            (round * ring_size(weights)) as int,
            ((round + 1) * ring_size(weights)) as int,
        ),
{
    let size = ring_size(weights) as int;
    lemma_gathered(weights, lines, round, weights.len());
    lemma_block_start_monotonic(weights, 0, weights.len() as int);
    assert((round + 1) * size == round * size + size) by (nonlinear_arith);
}

} // verus!
