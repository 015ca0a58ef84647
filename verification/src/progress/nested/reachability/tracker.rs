//! Tracks the consequences of pointstamp changes for a fixed graph.

use crate::progress::change_batch::{ChangeBatch, canonical, changed, count, wrap};
use crate::progress::frontier::Antichain;
use crate::progress::nested::reachability::builder::{Summary, rows_view, table_view};
use crate::progress::nested::reachability::flow::{
    Buffers, all_canonical, buffer_at, flow, grown, has_buffer, leads, lemma_grown_both,
    lemma_grown_none, lemma_grown_one, ports_flow, row_leads, row_spread, same_shape, spread,
};
use crate::progress::nested::reachability::row::{Row, row_view};
use crate::progress::nested::reachability::search::Table;
use crate::progress::nested::reachability::topology::Topology;
use crate::progress::nested::{Source, Target};
use crate::progress::timestamp::{PathSummary, Timestamp};
use vstd::prelude::*;

verus! {

/// The changes that the batches of a node hold.
pub open spec fn batches_view<T>(batches: Seq<ChangeBatch<T>>) -> Seq<Seq<(T, i64)>> {
    batches.map_values(|batch: ChangeBatch<T>| batch@)
}

/// The changes that the batches of all nodes hold.
pub open spec fn buffers_view<T>(nodes: Seq<Vec<ChangeBatch<T>>>) -> Buffers<T> {
    nodes.map_values(|node: Vec<ChangeBatch<T>>| batches_view(node@))
}

/// Pushes one change at one port to all targets that paths lead to.
fn push_change<T: Timestamp>(
    pushed: &mut Vec<Vec<ChangeBatch<T>>>,
    row: &Vec<(Target, Antichain<T::Summary>)>,
    time: &T,
    value: i64,
)
    requires
        all_canonical(buffers_view(old(pushed)@)),
        row_leads(row_view(row@), buffers_view(old(pushed)@)),
    ensures
        grown(
            buffers_view(old(pushed)@),
            buffers_view(final(pushed)@),
            |target: Target, result: T|
                row_spread(row_view(row@), *time, value as int, target, result),
        ),
{
    let ghost before = buffers_view(pushed@);
    let ghost list = row_view(row@);
    let ghost from = *time;
    let ghost mut amount = |target: Target, result: T| 0int;
    proof {
        lemma_grown_none(before);
    }
    let mut k: usize = 0;
    while k < row.len()
        invariant
            k <= row@.len(),
            list == row_view(row@),
            from == *time,
            row_leads(list, before),
            grown(before, buffers_view(pushed@), amount),
            forall|target: Target, result: T| #[trigger]
                amount(target, result) == row_spread(
                    list.take(k as int),
                    from,
                    value as int,
                    target,
                    result,
                ),
        decreases row@.len() - k,
    {
        let target = row[k].0;
        let elements = row[k].1.elements();
        let ghost upto = amount;
        assert(list[k as int] == (target, elements@));
        let mut m: usize = 0;
        while m < elements.len()
            invariant
                m <= elements@.len(),
                from == *time,
                has_buffer(before, target),
                grown(before, buffers_view(pushed@), amount),
                forall|t: Target, result: T| #[trigger]
                    amount(t, result) == upto(t, result) + if t == target {
                        spread(elements@.take(m as int), from, value as int, result)
                    } else {
                        0
                    },
            decreases elements@.len() - m,
        {
            let ghost old_pushed = buffers_view(pushed@);
            let ghost old_amount = amount;
            proof {
                assert(elements@.take(m + 1).drop_last() =~= elements@.take(m as int));
                assert(before[target.index as int].len() == old_pushed[target.index as int].len());
                assert(canonical(old_pushed[target.index as int][target.port as int]));
            }
            if let Some(new_time) = elements[m].results_in(time) {
                pushed[target.index][target.port].update(new_time, value);
                proof {
                    let new_pushed = buffers_view(pushed@);
                    let one = |t: Target, result: T|
                        if t == target && result == new_time {
                            value as int
                        } else {
                            0
                        };
                    let node = old_pushed[target.index as int];
                    assert(new_pushed[target.index as int] =~= node.update(
                        target.port as int,
                        buffer_at(new_pushed, target),
                    ));
                    assert(new_pushed =~= old_pushed.update(
                        target.index as int,
                        new_pushed[target.index as int],
                    ));
                    lemma_grown_one(old_pushed, new_pushed, target, new_time, value);
                    amount = |t: Target, result: T| old_amount(t, result) + one(t, result);
                    lemma_grown_both(before, old_pushed, new_pushed, old_amount, one, amount);
                }
            }
            m = m + 1;
        }
        proof {
            assert(elements@.take(m as int) =~= elements@);
            assert(list.take(k + 1).drop_last() =~= list.take(k as int));
        }
        k = k + 1;
    }
    proof {
        assert(list.take(k as int) =~= list);
        let all = |target: Target, result: T|
            row_spread(list, from, value as int, target, result);
        assert(grown(before, buffers_view(pushed@), all)) by {
            assert forall|target: Target, result: T| has_buffer(before, target) implies
                #[trigger] count(buffer_at(buffers_view(pushed@), target), result) == wrap(
                count(buffer_at(before, target), result) + all(target, result),
            ) by {
                assert(amount(target, result) == all(target, result));
            }
        }
    }
}

/// Pushes a list of changes at one port to all targets that paths lead to.
fn push_changes<T: Timestamp>(
    pushed: &mut Vec<Vec<ChangeBatch<T>>>,
    row: &Vec<(Target, Antichain<T::Summary>)>,
    changes: &Vec<(T, i64)>,
)
    requires
        all_canonical(buffers_view(old(pushed)@)),
        row_leads(row_view(row@), buffers_view(old(pushed)@)),
    ensures
        grown(
            buffers_view(old(pushed)@),
            buffers_view(final(pushed)@),
            |target: Target, result: T| flow(row_view(row@), changes@, target, result),
        ),
{
    let ghost before = buffers_view(pushed@);
    let ghost list = row_view(row@);
    let ghost mut amount = |target: Target, result: T| 0int;
    proof {
        lemma_grown_none(before);
    }
    let mut k: usize = 0;
    while k < changes.len()
        invariant
            k <= changes@.len(),
            list == row_view(row@),
            row_leads(list, before),
            grown(before, buffers_view(pushed@), amount),
            forall|target: Target, result: T| #[trigger]
                amount(target, result) == flow(list, changes@.take(k as int), target, result),
        decreases changes@.len() - k,
    {
        let ghost old_pushed = buffers_view(pushed@);
        let ghost old_amount = amount;
        let value = changes[k].1;
        assert(row_leads(list, old_pushed)) by {
            assert forall|i: int| 0 <= i < list.len() implies has_buffer(
                old_pushed,
                (#[trigger] list[i]).0,
            ) by {
                let at = list[i].0;
                assert(has_buffer(before, at));
                assert(before[at.index as int].len() == old_pushed[at.index as int].len());
            }
        }
        push_change(pushed, row, &changes[k].0, value);
        proof {
            let new_pushed = buffers_view(pushed@);
            let time = changes@[k as int].0;
            let one = |target: Target, result: T|
                row_spread(list, time, value as int, target, result);
            amount = |target: Target, result: T| old_amount(target, result) + one(target, result);
            lemma_grown_both(before, old_pushed, new_pushed, old_amount, one, amount);
            assert(changes@.take(k + 1).drop_last() =~= changes@.take(k as int));
        }
        k = k + 1;
    }
    proof {
        assert(changes@.take(k as int) =~= changes@);
        let all = |target: Target, result: T| flow(list, changes@, target, result);
        assert forall|target: Target, result: T| has_buffer(before, target) implies
            #[trigger] count(buffer_at(buffers_view(pushed@), target), result) == wrap(
            count(buffer_at(before, target), result) + all(target, result),
        ) by {
            assert(amount(target, result) == all(target, result));
        }
    }
}

/// Drains the batches of a node and pushes what they held to all targets that paths lead to.
fn push_ports<T: Timestamp>(
    pushed: &mut Vec<Vec<ChangeBatch<T>>>,
    rows: &Vec<Vec<(Target, Antichain<T::Summary>)>>,
    batches: &mut Vec<ChangeBatch<T>>,
)
    requires
        all_canonical(buffers_view(old(pushed)@)),
        rows@.len() == old(batches)@.len(),
        leads(rows_view(rows@), buffers_view(old(pushed)@)),
    ensures
        batches_view(final(batches)@) == blanks::<T>(old(batches)@.len()),
        grown(
            buffers_view(old(pushed)@),
            buffers_view(final(pushed)@),
            |target: Target, result: T|
                ports_flow(
                    rows_view(rows@),
                    batches_view(old(batches)@),
                    old(batches)@.len(),
                    target,
                    result,
                ),
        ),
{
    let ghost before = buffers_view(pushed@);
    let ghost lists = rows_view(rows@);
    let ghost buffers = batches_view(batches@);
    let ghost mut amount = |target: Target, result: T| 0int;
    proof {
        lemma_grown_none(before);
    }
    let mut port: usize = 0;
    while port < batches.len()
        invariant
            port <= batches@.len(),
            batches@.len() == rows@.len(),
            batches@.len() == buffers.len(),
            lists == rows_view(rows@),
            leads(lists, before),
            forall|p: int|
                0 <= p < port ==> #[trigger] batches_view(batches@)[p]
                    == Seq::<(T, i64)>::empty(),
            forall|p: int|
                port <= p < buffers.len() ==> #[trigger] batches_view(batches@)[p] == buffers[p],
            grown(before, buffers_view(pushed@), amount),
            forall|target: Target, result: T| #[trigger]
                amount(target, result) == ports_flow(lists, buffers, port as nat, target, result),
        decreases batches@.len() - port,
    {
        let ghost old_pushed = buffers_view(pushed@);
        let ghost old_amount = amount;
        let ghost held = batches_view(batches@);
        let changes = batches[port].drain();
        assert(batches_view(batches@) =~= held.update(port as int, Seq::empty()));
        assert(held[port as int] == buffers[port as int]);
        assert(row_view(rows@[port as int]@) == lists[port as int]);
        assert(row_leads(lists[port as int], old_pushed)) by {
            let list = lists[port as int];
            assert(row_leads(list, before));
            assert forall|i: int| 0 <= i < list.len() implies has_buffer(
                old_pushed,
                (#[trigger] list[i]).0,
            ) by {
                let at = list[i].0;
                assert(has_buffer(before, at));
                assert(before[at.index as int].len() == old_pushed[at.index as int].len());
            }
        }
        push_changes(pushed, &rows[port], &changes);
        proof {
            let new_pushed = buffers_view(pushed@);
            let list = lists[port as int];
            let one = |target: Target, result: T| flow(list, changes@, target, result);
            amount = |target: Target, result: T| old_amount(target, result) + one(target, result);
            lemma_grown_both(before, old_pushed, new_pushed, old_amount, one, amount);
        }
        port = port + 1;
    }
    proof {
        assert(batches_view(batches@) =~= blanks::<T>(buffers.len()));
        let all = |target: Target, result: T|
            ports_flow(lists, buffers, buffers.len(), target, result);
        assert forall|target: Target, result: T| has_buffer(before, target) implies
            #[trigger] count(buffer_at(buffers_view(pushed@), target), result) == wrap(
            count(buffer_at(before, target), result) + all(target, result),
        ) by {
            assert(amount(target, result) == all(target, result));
        }
    }
}

/// `ports` empty lists of changes.
pub open spec fn blanks<T>(ports: nat) -> Seq<Seq<(T, i64)>> {
    Seq::new(ports, |p: int| Seq::<(T, i64)>::empty())
}

/// What a `Tracker` holds: the changes that were observed at each output and input port, those
/// that were propagated to each input port, and the path summaries.
#[verifier::ext_equal]
pub struct Pointstamps<T: Timestamp> {
    pub source: Buffers<T>,
    pub target: Buffers<T>,
    pub pushed: Buffers<T>,
    pub source_target: Table<T::Summary>,
    pub target_target: Table<T::Summary>,
}

impl<T: Timestamp> Pointstamps<T> {
    /// There is a buffer for each port that has path summaries, and each buffer is canonical.
    pub open spec fn wf(self) -> bool {
        &&& self.source.len() == self.source_target.len()
        &&& forall|n: int|
            0 <= n < self.source.len() ==> (#[trigger] self.source[n]).len()
                == self.source_target[n].len()
        &&& self.target.len() == self.target_target.len()
        &&& forall|n: int|
            0 <= n < self.target.len() ==> (#[trigger] self.target[n]).len()
                == self.target_target[n].len()
        &&& self.pushed.len() <= usize::MAX
        &&& forall|n: int|
            0 <= n < self.pushed.len() ==> (#[trigger] self.pushed[n]).len() <= usize::MAX
        &&& all_canonical(self.source)
        &&& all_canonical(self.target)
        &&& all_canonical(self.pushed)
    }

    /// There is a buffer for changes at the output `source`.
    pub open spec fn has_source(self, source: Source) -> bool {
        source.index < self.source.len() && source.port < self.source[source.index as int].len()
    }

    /// There is a buffer for changes at the input `target`.
    pub open spec fn has_target(self, target: Target) -> bool {
        has_buffer(self.target, target)
    }

    /// The changes observed at the output `source`.
    pub open spec fn at_source(self, source: Source) -> Seq<(T, i64)> {
        self.source[source.index as int][source.port as int]
    }

    /// The changes observed at the input `target`.
    pub open spec fn at_target(self, target: Target) -> Seq<(T, i64)> {
        buffer_at(self.target, target)
    }

    /// The same but for the changes observed at the output `source`.
    pub open spec fn with_source(self, source: Source, changes: Seq<(T, i64)>) -> Self {
        let node = self.source[source.index as int].update(source.port as int, changes);
        Pointstamps { source: self.source.update(source.index as int, node), ..self }
    }

    /// The same but for the changes observed at the input `target`.
    pub open spec fn with_target(self, target: Target, changes: Seq<(T, i64)>) -> Self {
        let node = self.target[target.index as int].update(target.port as int, changes);
        Pointstamps { target: self.target.update(target.index as int, node), ..self }
    }

    /// The same without any changes observed, and with other changes pushed.
    pub open spec fn drained(self, pushed: Buffers<T>) -> Self {
        Pointstamps {
            source: blanked(self.source),
            target: blanked(self.target),
            pushed: pushed,
            ..self
        }
    }

    /// The same without the changes observed at the ports of a node, and with others pushed.
    pub open spec fn drained_node(self, index: int, pushed: Buffers<T>) -> Self {
        Pointstamps {
            source: self.source.update(index, blanks::<T>(self.source[index].len())),
            target: self.target.update(index, blanks::<T>(self.target[index].len())),
            pushed: pushed,
            ..self
        }
    }

    /// The paths from the ports of a node lead to targets for which there is a buffer.
    pub open spec fn leads_from(self, index: int) -> bool {
        leads(self.source_target[index], self.pushed) && leads(
            self.target_target[index],
            self.pushed,
        )
    }

    /// There are as many nodes with outputs as with inputs, and all paths lead to targets for
    /// which there is a buffer.
    pub open spec fn in_range(self) -> bool {
        &&& self.source.len() == self.target.len()
        &&& forall|n: int| 0 <= n < self.source.len() ==> #[trigger] self.leads_from(n)
    }

    /// The changes to `result` at `target` that come of those observed at the ports of a node.
    pub open spec fn node_flow(self, index: int, target: Target, result: T) -> int {
        ports_flow(
            self.target_target[index],
            self.target[index],
            self.target[index].len(),
            target,
            result,
        ) + ports_flow(
            self.source_target[index],
            self.source[index],
            self.source[index].len(),
            target,
            result,
        )
    }

    /// Those that come of what was observed at the first `nodes` nodes.
    pub open spec fn nodes_flow(self, nodes: nat, target: Target, result: T) -> int
        decreases nodes,
    {
        if nodes == 0 {
            0
        } else {
            self.nodes_flow((nodes - 1) as nat, target, result) + self.node_flow(
                nodes - 1,
                target,
                result,
            )
        }
    }
}

/// Empty lists of changes, as many for each node.
pub open spec fn blanked<T>(buffers: Buffers<T>) -> Buffers<T> {
    buffers.map_values(|node: Seq<Seq<(T, i64)>>| blanks::<T>(node.len()))
}

/// An empty list of changes for each row of a table.
pub open spec fn blank_for<T, S>(table: Table<S>) -> Buffers<T> {
    table.map_values(|node: Seq<Row<S>>| blanks::<T>(node.len()))
}

/// An empty list of changes for each port number of a node, be it of an output or of an input.
pub open spec fn blank_for_both<T, S>(sources: Table<S>, targets: Table<S>) -> Buffers<T> {
    Seq::new(
        sources.len(),
        |n: int|
            blanks::<T>(
                if n < targets.len() && targets[n].len() > sources[n].len() {
                    targets[n].len()
                } else {
                    sources[n].len()
                },
            ),
    )
}

/// Propagation from a node takes what was pushed before to `pushed`: to each count at each target
/// is added what comes, along all paths, of the changes observed at the ports of the node.
pub open spec fn node_pushes<T: Timestamp>(
    state: Pointstamps<T>,
    index: int,
    pushed: Buffers<T>,
) -> bool {
    grown(
        state.pushed,
        pushed,
        |target: Target, time: T| state.node_flow(index, target, time),
    )
}

/// Propagation takes what was pushed before to `pushed`: to each count at each target is added
/// what comes, along all paths, of the changes observed at all ports.
pub open spec fn pushes<T: Timestamp>(state: Pointstamps<T>, pushed: Buffers<T>) -> bool {
    grown(
        state.pushed,
        pushed,
        |target: Target, time: T| state.nodes_flow(state.target.len(), target, time),
    )
}

/// Interactive tracking of propagated reachability information.
///
/// A `Tracker` tracks, for a fixed graph topology, the consequences of
/// pointstamp changes at various node input and output ports. These changes may
/// alter the potential pointstamps that could arrive at downstream input ports.
///
/// A `Tracker` instance is constructed from a reachability summary, by
/// way of its `allocate_from` method. With a fixed topology, users can interactively
/// call `update_target` and `update_source` to change observed pointstamp counts
/// at node inputs and outputs, respectively. These changes are buffered until a
/// user invokes either `propagate` or `propagate_node`, which consume buffered
/// changes and propagate their consequences along the graph to any other port that
/// can be reached. These changes can be read for each node using `pushed_mut`.
pub struct Tracker<T: Timestamp> {
    /// Buffers of observed changes.
    source: Vec<Vec<ChangeBatch<T>>>,
    target: Vec<Vec<ChangeBatch<T>>>,
    /// Buffers of consequent propagated changes.
    pushed: Vec<Vec<ChangeBatch<T>>>,
    /// Compiled reachability along edges and through internal connections.
    source_target: Vec<Vec<Vec<(Target, Antichain<T::Summary>)>>>,
    target_target: Vec<Vec<Vec<(Target, Antichain<T::Summary>)>>>,
}

impl<T: Timestamp> View for Tracker<T> {
    type V = Pointstamps<T>;

    closed spec fn view(&self) -> Pointstamps<T> {
        Pointstamps {
            source: buffers_view(self.source@),
            target: buffers_view(self.target@),
            pushed: buffers_view(self.pushed@),
            source_target: table_view(self.source_target@),
            target_target: table_view(self.target_target@),
        }
    }
}

/// Clears all batches.
fn clear_all<T: Timestamp>(nodes: &mut Vec<Vec<ChangeBatch<T>>>)
    ensures
        buffers_view(final(nodes)@) == blanked(buffers_view(old(nodes)@)),
{
    let ghost before = buffers_view(nodes@);
    let ghost goal = blanked(before);
    let mut index: usize = 0;
    while index < nodes.len()
        invariant
            index <= nodes@.len(),
            nodes@.len() == before.len(),
            goal == blanked(before),
            forall|n: int| 0 <= n < index ==> #[trigger] buffers_view(nodes@)[n] == goal[n],
            forall|n: int|
                index <= n < before.len() ==> #[trigger] buffers_view(nodes@)[n] == before[n],
        decreases nodes@.len() - index,
    {
        let ghost held = buffers_view(nodes@);
        let ghost node = held[index as int];
        let mut port: usize = 0;
        while port < nodes[index].len()
            invariant
                index < nodes@.len(),
                nodes@.len() == before.len(),
                held.len() == before.len(),
                node.len() == nodes@[index as int]@.len(),
                port <= node.len(),
                forall|n: int|
                    0 <= n < before.len() && n != index ==> #[trigger] buffers_view(nodes@)[n]
                        == held[n],
                forall|p: int|
                    0 <= p < port ==> #[trigger] buffers_view(nodes@)[index as int][p]
                        == Seq::<(T, i64)>::empty(),
            decreases nodes@[index as int]@.len() - port,
        {
            let ghost prior = buffers_view(nodes@);
            nodes[index][port].clear();
            proof {
                let new_node = prior[index as int].update(port as int, Seq::empty());
                assert(buffers_view(nodes@)[index as int] =~= new_node);
                assert(buffers_view(nodes@) =~= prior.update(index as int, new_node));
            }
            port = port + 1;
        }
        assert(buffers_view(nodes@)[index as int] =~= goal[index as int]);
        index = index + 1;
    }
    assert(buffers_view(nodes@) =~= goal);
}

/// Allocates empty batches.
fn new_batches<T: Timestamp>(ports: usize) -> (batches: Vec<ChangeBatch<T>>)
    ensures
        batches_view(batches@) == blanks::<T>(ports as nat),
{
    let mut batches: Vec<ChangeBatch<T>> = Vec::new();
    while batches.len() < ports
        invariant
            batches@.len() <= ports,
            batches_view(batches@) == blanks::<T>(batches@.len()),
        decreases ports - batches@.len(),
    {
        let ghost held = batches_view(batches@);
        batches.push(ChangeBatch::new());
        assert(batches_view(batches@) =~= held.push(Seq::empty()));
        assert(batches_view(batches@) =~= blanks::<T>(batches@.len()));
    }
    batches
}

impl<T: Timestamp> Tracker<T> {
    /// Updates the count for a time at a target.
    pub fn update_target(&mut self, target: Target, time: T, value: i64)
        requires
            old(self)@.wf(),
            old(self)@.has_target(target),
        ensures
            changed(old(self)@.at_target(target), final(self)@.at_target(target), time, value),
            final(self)@ == old(self)@.with_target(target, final(self)@.at_target(target)),
            final(self)@.wf(),
            old(self)@.in_range() ==> final(self)@.in_range(),
    {
        let ghost before = self@;
        assert(canonical(before.target[target.index as int][target.port as int]));
        self.target[target.index][target.port].update(time, value);
        proof {
            let after = before.with_target(target, self@.at_target(target));
            assert(self@.target[target.index as int] =~= after.target[target.index as int]);
            assert(self@ =~= after);
            lemma_grown_one(before.target, self@.target, target, time, value);
            lemma_in_range(before, self@);
        }
    }

    /// Updates the count for a time at a source.
    pub fn update_source(&mut self, source: Source, time: T, value: i64)
        requires
            old(self)@.wf(),
            old(self)@.has_source(source),
        ensures
            changed(old(self)@.at_source(source), final(self)@.at_source(source), time, value),
            final(self)@ == old(self)@.with_source(source, final(self)@.at_source(source)),
            final(self)@.wf(),
            old(self)@.in_range() ==> final(self)@.in_range(),
    {
        let ghost before = self@;
        assert(canonical(before.source[source.index as int][source.port as int]));
        self.source[source.index][source.port].update(time, value);
        proof {
            let after = before.with_source(source, self@.at_source(source));
            let at = Target { index: source.index, port: source.port };
            assert(self@.source[source.index as int] =~= after.source[source.index as int]);
            assert(self@ =~= after);
            lemma_grown_one(before.source, self@.source, at, time, value);
            lemma_in_range(before, self@);
        }
    }

    /// Clears the pointstamp counter.
    pub fn clear(&mut self)
        ensures
            final(self)@ == old(self)@.drained(blanked(old(self)@.pushed)),
            old(self)@.wf() ==> final(self)@.wf(),
            old(self)@.in_range() ==> final(self)@.in_range(),
    {
        let ghost before = self@;
        clear_all(&mut self.source);
        clear_all(&mut self.target);
        clear_all(&mut self.pushed);
        proof {
            lemma_in_range(before, self@);
        }
    }

    /// Allocate a new `Tracker` using the shape from `summaries`.
    pub fn allocate_from(summary: Summary<T>) -> (tracker: Self)
        ensures
            tracker@ == (Pointstamps {
                source: blank_for::<T, T::Summary>(summary.source_table()),
                target: blank_for::<T, T::Summary>(summary.target_table()),
                pushed: blank_for_both::<T, T::Summary>(
                    summary.source_table(),
                    summary.target_table(),
                ),
                source_target: summary.source_table(),
                target_target: summary.target_table(),
            }),
            tracker@.wf(),
            forall|graph: Topology<T::Summary>| #[trigger]
                summary.describes(graph) ==> tracker@.in_range(),
    {
        let source_target = summary.source_target;
        let target_target = summary.target_target;
        let ghost sources = summary.source_table();
        let ghost targets = summary.target_table();

        let mut source: Vec<Vec<ChangeBatch<T>>> = Vec::with_capacity(source_target.len());
        let mut target: Vec<Vec<ChangeBatch<T>>> = Vec::with_capacity(target_target.len());
        let mut pushed: Vec<Vec<ChangeBatch<T>>> = Vec::with_capacity(source_target.len());

        // Allocate buffer space for each output port, and for what is pushed to a node.
        let ghost goal = blank_for::<T, T::Summary>(sources);
        let ghost goal_pushed = blank_for_both::<T, T::Summary>(sources, targets);
        let mut index: usize = 0;
        assert(buffers_view(source@) =~= goal.take(0));
        assert(buffers_view(pushed@) =~= goal_pushed.take(0));
        while index < source_target.len()
            invariant
                index <= source_target@.len(),
                sources == table_view(source_target@),
                targets == table_view(target_target@),
                goal == blank_for::<T, T::Summary>(sources),
                goal_pushed == blank_for_both::<T, T::Summary>(sources, targets),
                buffers_view(source@) == goal.take(index as int),
                buffers_view(pushed@) == goal_pushed.take(index as int),
            decreases source_target@.len() - index,
        {
            let ghost held = buffers_view(source@);
            let ghost held_pushed = buffers_view(pushed@);
            let outputs = source_target[index].len();
            let ports = if index < target_target.len() && target_target[index].len() > outputs {
                target_target[index].len()
            } else {
                outputs
            };
            let batches = new_batches(outputs);
            let pushed_batches = new_batches(ports);
            source.push(batches);
            pushed.push(pushed_batches);
            proof {
                assert(sources[index as int].len() == outputs);
                assert(index < targets.len() ==> targets[index as int].len()
                    == target_target@[index as int]@.len());
                assert(buffers_view(source@) =~= held.push(batches_view(batches@)));
                assert(buffers_view(pushed@) =~= held_pushed.push(
                    batches_view(pushed_batches@),
                ));
                assert(goal.take(index + 1) =~= goal.take(index as int).push(goal[index as int]));
                assert(goal_pushed.take(index + 1) =~= goal_pushed.take(index as int).push(
                    goal_pushed[index as int],
                ));
            }
            index = index + 1;
        }
        assert(goal.take(index as int) =~= goal);
        assert(goal_pushed.take(index as int) =~= goal_pushed);

        // Allocate buffer space for each input port.
        let ghost goal_target = blank_for::<T, T::Summary>(targets);
        let mut index: usize = 0;
        assert(buffers_view(target@) =~= goal_target.take(0));
        while index < target_target.len()
            invariant
                index <= target_target@.len(),
                targets == table_view(target_target@),
                goal_target == blank_for::<T, T::Summary>(targets),
                buffers_view(target@) == goal_target.take(index as int),
            decreases target_target@.len() - index,
        {
            let ghost held = buffers_view(target@);
            let inputs = target_target[index].len();
            let batches = new_batches(inputs);
            target.push(batches);
            proof {
                assert(targets[index as int].len() == inputs);
                assert(buffers_view(target@) =~= held.push(batches_view(batches@)));
                assert(goal_target.take(index + 1) =~= goal_target.take(index as int).push(
                    goal_target[index as int],
                ));
            }
            index = index + 1;
        }
        assert(goal_target.take(index as int) =~= goal_target);
        let tracker = Tracker { source, target, pushed, source_target, target_target };
        proof {
            assert(tracker.pushed.len() == tracker@.pushed.len());
            assert forall|n: int| 0 <= n < tracker@.pushed.len() implies (
            #[trigger] tracker@.pushed[n]).len() <= usize::MAX by {
                assert(tracker.pushed@[n].len() == tracker@.pushed[n].len());
            }
            assert forall|graph: Topology<T::Summary>| #[trigger]
                summary.describes(graph) implies tracker@.in_range() by {
                lemma_described_in_range(graph, summary, tracker@);
            }
        }
        tracker
    }

    /// Propagates updates from an indicated node.
    ///
    /// This method is potentially useful for propagating the consequences of a single
    /// node invocation, to make the results available immediately.
    pub fn propagate_node(&mut self, index: usize)
        requires
            old(self)@.wf(),
            index < old(self)@.source.len(),
            index < old(self)@.target.len(),
            old(self)@.leads_from(index as int),
        ensures
            node_pushes(old(self)@, index as int, final(self)@.pushed),
            final(self)@ == old(self)@.drained_node(index as int, final(self)@.pushed),
            final(self)@.wf(),
            old(self)@.in_range() ==> final(self)@.in_range(),
    {
        let ghost before = self@;
        assert(before.target[index as int].len() == before.target_target[index as int].len());
        assert(before.source[index as int].len() == before.source_target[index as int].len());
        // Propagate changes at each input (target).
        push_ports(&mut self.pushed, &self.target_target[index], &mut self.target[index]);
        let ghost mid = self@;
        proof {
            assert(mid.target =~= before.target.update(
                index as int,
                blanks::<T>(before.target[index as int].len()),
            ));
            lemma_leads(before.source_target[index as int], before.pushed, mid.pushed);
        }
        // Propagate changes at each output (source).
        push_ports(&mut self.pushed, &self.source_target[index], &mut self.source[index]);
        proof {
            assert(self@.source =~= before.source.update(
                index as int,
                blanks::<T>(before.source[index as int].len()),
            ));
            let a = |target: Target, result: T|
                ports_flow(
                    before.target_target[index as int],
                    before.target[index as int],
                    before.target[index as int].len(),
                    target,
                    result,
                );
            let b = |target: Target, result: T|
                ports_flow(
                    before.source_target[index as int],
                    before.source[index as int],
                    before.source[index as int].len(),
                    target,
                    result,
                );
            let c = |target: Target, time: T| before.node_flow(index as int, target, time);
            lemma_grown_both(before.pushed, mid.pushed, self@.pushed, a, b, c);
            lemma_in_range(before, self@);
        }
    }

    /// Propagates all updates made to sources and targets.
    pub fn propagate(&mut self)
        requires
            old(self)@.wf(),
            old(self)@.in_range(),
        ensures
            pushes(old(self)@, final(self)@.pushed),
            final(self)@ == old(self)@.drained(final(self)@.pushed),
            final(self)@.wf(),
            final(self)@.in_range(),
    {
        let ghost before = self@;
        let ghost mut amount = |target: Target, result: T| 0int;
        proof {
            lemma_grown_none(before.pushed);
        }
        let mut index: usize = 0;
        while index < self.target.len()
            invariant
                index <= before.target.len(),
                before.wf(),
                self@.wf(),
                self@.in_range(),
                self@.source_target == before.source_target,
                self@.target_target == before.target_target,
                self@.source.len() == before.source.len(),
                self@.target.len() == before.target.len(),
                self@.target.len() == self.target@.len(),
                forall|n: int|
                    0 <= n < index ==> #[trigger] self@.source[n] == blanked(before.source)[n],
                forall|n: int|
                    0 <= n < index ==> #[trigger] self@.target[n] == blanked(before.target)[n],
                forall|n: int|
                    index <= n < before.source.len() ==> #[trigger] self@.source[n]
                        == before.source[n],
                forall|n: int|
                    index <= n < before.target.len() ==> #[trigger] self@.target[n]
                        == before.target[n],
                grown(before.pushed, self@.pushed, amount),
                forall|target: Target, result: T| #[trigger]
                    amount(target, result) == before.nodes_flow(index as nat, target, result),
            decreases before.target.len() - index,
        {
            let ghost mid = self@;
            let ghost old_amount = amount;
            assert(mid.leads_from(index as int));
            self.propagate_node(index);
            proof {
                let one = |target: Target, time: T| mid.node_flow(index as int, target, time);
                assert(mid.source[index as int] == before.source[index as int]);
                assert(mid.target[index as int] == before.target[index as int]);
                amount = |target: Target, result: T|
                    old_amount(target, result) + one(target, result);
                lemma_grown_both(before.pushed, mid.pushed, self@.pushed, old_amount, one, amount);
            }
            index = index + 1;
        }
        proof {
            assert(self@.source =~= blanked(before.source));
            assert(self@.target =~= blanked(before.target));
            let all = |target: Target, time: T|
                before.nodes_flow(before.target.len(), target, time);
            assert forall|target: Target, result: T| has_buffer(before.pushed, target) implies
                #[trigger] count(buffer_at(self@.pushed, target), result) == wrap(
                count(buffer_at(before.pushed, target), result) + all(target, result),
            ) by {
                assert(amount(target, result) == all(target, result));
            }
        }
    }

    /// Provides access to pushed changes for a node.
    ///
    /// The caller may read the results or consume the results, as appropriate. The method
    /// itself does not clear the buffer, so pushed values will stay in place until they are
    /// consumed by some caller.
    pub fn pushed_mut(&mut self, node: usize) -> (batches: &mut [ChangeBatch<T>])
        requires
            node < old(self)@.pushed.len(),
        ensures
            batches_view(batches@) == old(self)@.pushed[node as int],
            batches@.len() == old(self)@.pushed[node as int].len(),
            final(self)@ == (Pointstamps {
                pushed: old(self)@.pushed.update(node as int, batches_view(final(batches)@)),
                ..old(self)@
            }),
    {
        self.pushed[node].as_mut_slice()
    }
}

impl<T: Timestamp> Default for Tracker<T> {
    /// A tracker for a graph without nodes.
    fn default() -> (tracker: Self)
        ensures
            tracker@ == (Pointstamps::<T> {
                source: Seq::empty(),
                target: Seq::empty(),
                pushed: Seq::empty(),
                source_target: Seq::empty(),
                target_target: Seq::empty(),
            }),
            tracker@.wf(),
            tracker@.in_range(),
    {
        let tracker = Tracker {
            source: Vec::new(),
            target: Vec::new(),
            pushed: Vec::new(),
            source_target: Vec::new(),
            target_target: Vec::new(),
        };
        assert(tracker@ =~= (Pointstamps::<T> {
            source: Seq::empty(),
            target: Seq::empty(),
            pushed: Seq::empty(),
            source_target: Seq::empty(),
            target_target: Seq::empty(),
        }));
        tracker
    }
}

/// Rows that lead to targets with a buffer do so for other buffers of the same shape.
proof fn lemma_leads<T, S>(rows: Seq<Row<S>>, a: Buffers<T>, b: Buffers<T>)
    requires
        leads(rows, a),
        same_shape(a, b),
    ensures
        leads(rows, b),
{
    assert forall|p: int| 0 <= p < rows.len() implies row_leads(#[trigger] rows[p], b) by {
        let row = rows[p];
        assert(row_leads(row, a));
        assert forall|k: int| 0 <= k < row.len() implies has_buffer(b, (#[trigger] row[k]).0) by {
            let at = row[k].0;
            assert(has_buffer(a, at));
            assert(a[at.index as int].len() == b[at.index as int].len());
        }
    }
}

/// A state whose buffers have the shape of another, with the same paths, is in range with it.
proof fn lemma_in_range<T: Timestamp>(a: Pointstamps<T>, b: Pointstamps<T>)
    requires
        same_shape(a.pushed, b.pushed),
        a.source.len() == b.source.len(),
        a.target.len() == b.target.len(),
        a.source_target == b.source_target,
        a.target_target == b.target_target,
    ensures
        a.in_range() ==> b.in_range(),
{
    if a.in_range() {
        assert forall|n: int| 0 <= n < b.source.len() implies #[trigger] b.leads_from(n) by {
            assert(a.leads_from(n));
            lemma_leads(a.source_target[n], a.pushed, b.pushed);
            lemma_leads(a.target_target[n], a.pushed, b.pushed);
        }
    }
}

/// The paths of a graph lead to targets for which a new tracker has a buffer.
proof fn lemma_described_in_range<T: Timestamp>(
    graph: Topology<T::Summary>,
    summary: Summary<T>,
    state: Pointstamps<T>,
)
    requires
        summary.describes(graph),
        state.source_target == summary.source_table(),
        state.target_target == summary.target_table(),
        state.source == blank_for::<T, T::Summary>(summary.source_table()),
        state.target == blank_for::<T, T::Summary>(summary.target_table()),
        state.pushed == blank_for_both::<T, T::Summary>(
            summary.source_table(),
            summary.target_table(),
        ),
    ensures
        state.in_range(),
{
    let sources = state.source_target;
    let targets = state.target_target;
    assert forall|at: Target| #[trigger] graph.has_target(at) implies has_buffer(
        state.pushed,
        at,
    ) by {
        assert(targets[at.index as int].len() == graph.shape[at.index as int].0);
    }
    assert forall|n: int| 0 <= n < state.source.len() implies #[trigger] state.leads_from(n) by {
        assert forall|p: int| 0 <= p < sources[n].len() implies row_leads(
            #[trigger] sources[n][p],
            state.pushed,
        ) by {}
        assert forall|p: int| 0 <= p < targets[n].len() implies row_leads(
            #[trigger] targets[n][p],
            state.pushed,
        ) by {}
    }
}

} // verus!
