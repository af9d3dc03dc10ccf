//! Algorithms for splitting a source into destination sinks.
use vstd::prelude::*;
use crate::destination::{weights_of, Destination};
use crate::ring::{
    assignment_table, lemma_block_start_monotonic, lemma_position_advances, lemma_table_blocks,
    owns, ring_size, route, routes_into,
};
use crate::shares::{held, written, NEWLINE};

verus! {

/// Why a split stopped before it was done.
#[derive(Debug, Clone, Copy, PartialEq, Eq, Structural)]
pub enum SplitError {
    /// There is a line to write, but the ring has no position: the
    /// destination list is empty or every weight is zero.
    EmptyRing,
    /// The source failed to hand out its next line.
    Read,
    /// The destination with this index failed to take a line.
    Write { destination: usize },
    /// The destination with this index failed to flush.
    Flush { destination: usize },
}

/// The ring size of `destinations`, or `None` if it does not fit in `usize`.
pub fn checked_ring_size<S>(destinations: &[Destination<S>]) -> (size: Option<usize>)
    ensures
        size matches Some(sum) ==> sum == ring_size(weights_of(destinations@)),
        size is Some <==> ring_size(weights_of(destinations@)) <= usize::MAX,
{
    let ghost weights = weights_of(destinations@);
    let mut sum: usize = 0;
    let mut index: usize = 0;
    while index < destinations.len()
        invariant
            index <= destinations@.len(),
            weights == weights_of(destinations@),
            sum == ring_size(weights.take(index as int)),
        decreases destinations@.len() - index,
    {
        proof {
            assert(weights.take(index + 1).drop_last() =~= weights.take(index as int));
            lemma_block_start_monotonic(weights, index + 1, weights.len() as int);
        }
        match sum.checked_add(destinations[index].assigned_lines) {
            Some(next) => {
                sum = next;
            },
            None => {
                return None;
            },
        }
        index += 1;
    }
    proof {
        assert(weights.take(index as int) =~= weights);
    }
    Some(sum)
}

/// Maps every position of the ring to the index of its [`Destination`].
///
/// The output represents:
///
/// ```plain
/// mapped_line_destinations[line % mapped_line_destinations.len()] -> index(destination)
/// ```
///
/// It has one entry for every position of the ring, and the entry at a
/// position is `k` exactly if the position lies in the block of destination
/// `k`: the blocks follow each other in destination order, and the block of
/// destination `k` has `assigned_lines` entries.
pub fn map_line_destinations<S>(destinations: &[Destination<S>]) -> (table: Vec<usize>)
    requires
        ring_size(weights_of(destinations@)) <= usize::MAX,
    ensures
        table@ == assignment_table(weights_of(destinations@)),
        table@.len() == ring_size(weights_of(destinations@)),
        routes_into(table@, destinations@.len()),
        forall|k: int, position: int|
            0 <= k < destinations@.len() && 0 <= position < table@.len() ==> (#[trigger] owns(
                weights_of(destinations@),
                k,
                position,
            ) <==> table@[position] == k),
{
    let ghost weights = weights_of(destinations@);
    let mut table: Vec<usize> = Vec::new();
    let mut index: usize = 0;
    while index < destinations.len()
        invariant
            index <= destinations@.len(),
            weights == weights_of(destinations@),
            table@ == assignment_table(weights.take(index as int)),
        decreases destinations@.len() - index,
    {
        let assigned_lines = destinations[index].assigned_lines;
        let ghost before = table@;
        let mut taken: usize = 0;
        while taken < assigned_lines
            invariant
                taken <= assigned_lines,
                table@ == before + Seq::new(taken as nat, |position: int| index),
            decreases assigned_lines - taken,
        {
            table.push(index);
            taken += 1;
            assert(table@ =~= before + Seq::new(taken as nat, |position: int| index));
        }
        proof {
            let longer = weights.take(index + 1);
            assert(longer.drop_last() =~= weights.take(index as int));
            assert(longer.last() == assigned_lines);
            assert(table@ =~= assignment_table(longer));
        }
        index += 1;
    }
    proof {
        assert(weights.take(index as int) =~= weights);
        lemma_table_blocks(weights);
    }
    table
}

/// The table is a function of the weights alone: whatever the sinks are and
/// however often it is built, lists of destinations with the same weights
/// get the same table.
pub proof fn lemma_same_weights_same_table<A, B>(
    first: Seq<Destination<A>>,
    second: Seq<Destination<B>>,
)
    requires
        first.len() == second.len(),
        forall|k: int|
            0 <= k < first.len() ==> (#[trigger] first[k]).assigned_lines
                == second[k].assigned_lines,
    ensures
        assignment_table(weights_of(first)) == assignment_table(weights_of(second)),
{
    assert(weights_of(first) =~= weights_of(second));
}

/// Whether `after` is `before` with every sink extended by its share of
/// `lines`: the lines that `table` routes to it, each followed by a newline.
/// Nothing else differs.
pub open spec fn received(
    before: Seq<Destination<Vec<u8>>>,
    after: Seq<Destination<Vec<u8>>>,
    table: Seq<usize>,
    lines: Seq<Seq<u8>>,
) -> bool {
    &&& after.len() == before.len()
    &&& forall|k: int|
        0 <= k < before.len() ==> {
            &&& (#[trigger] after[k]).assigned_lines == before[k].assigned_lines
            &&& after[k].sink@ == before[k].sink@ + written(held(table, lines, k))
        }
}

/// Before the first line nothing is received: every sink holds what it held.
pub proof fn lemma_received_nothing(destinations: Seq<Destination<Vec<u8>>>, table: Seq<usize>)
    ensures
        received(destinations, destinations, table, Seq::<Seq<u8>>::empty()),
{
    assert forall|k: int| 0 <= k < destinations.len() implies (#[trigger] destinations[k]).sink@
        == destinations[k].sink@ + written(held(table, Seq::<Seq<u8>>::empty(), k)) by {
        assert(destinations[k].sink@ + Seq::<u8>::empty() =~= destinations[k].sink@);
    }
}

/// Writes every line of `source`, followed by a newline, to the buffer that
/// `mapped_line_destinations` assigns to it: line `i` goes to the
/// destination at position `i % ring size` of the table.
///
/// # Errors
///
/// With an empty table there is no destination for a line. If `source` has a
/// line then, the result is [`SplitError::EmptyRing`] and nothing is written.
pub fn write_lines(
    source: &[Vec<u8>],
    destinations: &mut [Destination<Vec<u8>>],
    mapped_line_destinations: &[usize],
) -> (result: Result<(), SplitError>)
    requires
        routes_into(mapped_line_destinations@, old(destinations)@.len()),
    ensures
        result is Ok <==> mapped_line_destinations@.len() > 0 || source@.len() == 0,
        result is Ok ==> received(
            old(destinations)@,
            final(destinations)@,
            mapped_line_destinations@,
            source.deep_view(),
        ),
        result is Err ==> result == Err::<(), SplitError>(SplitError::EmptyRing),
        result is Err ==> final(destinations)@ == old(destinations)@,
{
    let ghost start = destinations@;
    let ghost table = mapped_line_destinations@;
    let ghost lines = source.deep_view();
    proof {
        assert(lines.take(0) =~= Seq::<Seq<u8>>::empty());
        lemma_received_nothing(destinations@, table);
    }
    let line_ring_size = mapped_line_destinations.len();
    if line_ring_size == 0 {
        if source.len() > 0 {
            return Err(SplitError::EmptyRing);
        }
        assert(lines =~= lines.take(0));
        return Ok(());
    }
    let mut line_index: usize = 0;
    let mut position: usize = 0;
    while line_index < source.len()
        invariant
            line_index <= source@.len(),
            table == mapped_line_destinations@,
            lines == source.deep_view(),
            0 < line_ring_size == table.len(),
            routes_into(table, start.len()),
            start == old(destinations)@,
            position == line_index % line_ring_size,
            received(start, destinations@, table, lines.take(line_index as int)),
        decreases source@.len() - line_index,
    {
        let target = mapped_line_destinations[position];
        let ghost before = destinations@;
        destinations[target].sink.extend_from_slice(source[line_index].as_slice());
        destinations[target].sink.push(NEWLINE);
        proof {
            let sooner = lines.take(line_index as int);
            let later = lines.take(line_index + 1);
            let line = source@[line_index as int]@;
            assert(later.drop_last() =~= sooner);
            assert(later.last() == line);
            assert(route(table, line_index as nat) == target);
            assert forall|k: int| 0 <= k < before.len() implies {
                &&& (#[trigger] destinations@[k]).assigned_lines == start[k].assigned_lines
                &&& destinations@[k].sink@ == start[k].sink@ + written(held(table, later, k))
            } by {
                let share = held(table, sooner, k);
                assert(before[k].sink@ == start[k].sink@ + written(share));
                if k == target {
                    assert(share.push(line).drop_last() =~= share);
                    assert(destinations@[k].sink@ =~= before[k].sink@ + line + seq![NEWLINE]);
                    assert(destinations@[k].sink@ =~= start[k].sink@ + written(share.push(line)));
                } else {
                    assert(destinations@[k] == before[k]);
                }
            }
            lemma_position_advances(line_index as nat, line_ring_size as nat);
        }
        line_index += 1;
        position = if position + 1 == line_ring_size {
            0
        } else {
            position + 1
        };
    }
    proof {
        assert(lines.take(line_index as int) =~= lines);
    }
    Ok(())
}

/// Splits the lines of `source` round robin like into the buffers of
/// `destinations`.
///
/// Line `i` is written, followed by one newline, to the destination that
/// owns position `i % ring size` of the ring that the weights lay out. The
/// destinations keep what they held before and their weights.
///
/// # Errors
///
/// If the ring is empty and `source` has a line, the result is
/// [`SplitError::EmptyRing`] and nothing is written.
pub fn split_round_robin(source: &[Vec<u8>], destinations: &mut [Destination<Vec<u8>>]) -> (result:
    Result<(), SplitError>)
    requires
        ring_size(weights_of(old(destinations)@)) <= usize::MAX,
    ensures
        result is Ok <==> ring_size(weights_of(old(destinations)@)) > 0 || source@.len() == 0,
        result is Ok ==> received(
            old(destinations)@,
            final(destinations)@,
            assignment_table(weights_of(old(destinations)@)),
            source.deep_view(),
        ),
        result is Err ==> result == Err::<(), SplitError>(SplitError::EmptyRing),
        result is Err ==> final(destinations)@ == old(destinations)@,
{
    let mapped_line_destinations = map_line_destinations(destinations);
    write_lines(source, destinations, mapped_line_destinations.as_slice())
}

} // verus!
