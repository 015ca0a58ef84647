//! What any sequence of updates and propagations comes to.

use crate::progress::change_batch::{
    canonical, changed, count, law_counts_determine, lemma_count_fits, lemma_wrap_add, wrap,
};
use crate::progress::nested::reachability::flow::{
    Buffers, all_canonical, buffer_at, flow, has_buffer, row_spread, same_shape,
};
use crate::progress::nested::reachability::laws::{
    law_changes_add_up, lemma_drained_blank, lemma_nodes_flow_blank, lemma_nodes_flow_one,
    lemma_ports_flow_blank, lemma_source_flow, lemma_target_flow,
};
use crate::progress::nested::reachability::search::row_at;
use crate::progress::nested::reachability::tracker::{
    Pointstamps, blanked, blanks, node_pushes, pushes,
};
use crate::progress::nested::{Source, Target};
use crate::progress::timestamp::Timestamp;
use vstd::prelude::*;

verus! {

/// A call of a tracker.
pub enum Event<T> {
    /// A count was updated at an output port.
    AtSource(Source, T, i64),
    /// A count was updated at an input port.
    AtTarget(Target, T, i64),
    /// One node was propagated.
    Node(int),
    /// All nodes were propagated.
    All,
}

/// The call takes a tracker that holds `from` to one that holds `to`.
pub open spec fn follows<T: Timestamp>(
    from: Pointstamps<T>,
    event: Event<T>,
    to: Pointstamps<T>,
) -> bool {
    match event {
        Event::AtSource(source, time, value) => {
            &&& from.has_source(source)
            &&& changed(from.at_source(source), to.at_source(source), time, value)
            &&& to == from.with_source(source, to.at_source(source))
        },
        Event::AtTarget(target, time, value) => {
            &&& from.has_target(target)
            &&& changed(from.at_target(target), to.at_target(target), time, value)
            &&& to == from.with_target(target, to.at_target(target))
        },
        Event::Node(index) => {
            &&& 0 <= index < from.source.len()
            &&& 0 <= index < from.target.len()
            &&& node_pushes(from, index, to.pushed)
            &&& to == from.drained_node(index, to.pushed)
        },
        Event::All => {
            &&& pushes(from, to.pushed)
            &&& to == from.drained(to.pushed)
        },
    }
}

/// A tracker goes through these states, from one to the next by these calls.
pub open spec fn history<T: Timestamp>(
    states: Seq<Pointstamps<T>>,
    events: Seq<Event<T>>,
) -> bool {
    &&& states.len() == events.len() + 1
    &&& forall|k: int| 0 <= k < states.len() ==> (#[trigger] states[k]).wf() && states[k].in_range()
    &&& forall|k: int|
        0 <= k < events.len() ==> follows(states[k], #[trigger] events[k], states[k + 1])
}

/// Nothing is observed that was not propagated.
pub open spec fn settled<T: Timestamp>(state: Pointstamps<T>) -> bool {
    state.source == blanked(state.source) && state.target == blanked(state.target)
}

/// The count of `time` at `target` once all is propagated.
pub open spec fn outcome<T: Timestamp>(state: Pointstamps<T>, target: Target, time: T) -> int {
    wrap(
        count(buffer_at(state.pushed, target), time) + state.nodes_flow(
            state.target.len(),
            target,
            time,
        ),
    )
}

/// The changes to `result` at `target` that a call comes to, along all paths.
pub open spec fn owed<T: Timestamp>(
    state: Pointstamps<T>,
    event: Event<T>,
    target: Target,
    result: T,
) -> int {
    match event {
        Event::AtSource(source, time, value) => row_spread(
            row_at(state.source_target, source),
            time,
            value as int,
            target,
            result,
        ),
        Event::AtTarget(from, time, value) => row_spread(
            state.target_target[from.index as int][from.port as int],
            time,
            value as int,
            target,
            result,
        ),
        _ => 0,
    }
}

/// Those that a sequence of calls comes to.
pub open spec fn owed_by_all<T: Timestamp>(
    state: Pointstamps<T>,
    events: Seq<Event<T>>,
    target: Target,
    result: T,
) -> int
    decreases events.len(),
{
    if events.len() == 0 {
        0
    } else {
        owed_by_all(state, events.drop_last(), target, result) + owed(
            state,
            events.last(),
            target,
            result,
        )
    }
}

/// The update of a count, not a propagation.
pub open spec fn is_update<T>(event: Event<T>) -> bool {
    event is AtSource || event is AtTarget
}

/// The updates among the calls.
pub open spec fn updates<T>(events: Seq<Event<T>>) -> Seq<Event<T>> {
    events.filter(|event: Event<T>| is_update(event))
}

proof fn lemma_step<T: Timestamp>(
    from: Pointstamps<T>,
    event: Event<T>,
    to: Pointstamps<T>,
    target: Target,
    result: T,
)
    requires
        from.wf(),
        from.in_range(),
        follows(from, event, to),
        has_buffer(from.pushed, target),
    ensures
        outcome(to, target, result) == wrap(
            outcome(from, target, result) + owed(from, event, target, result),
        ),
{
    let nodes = from.target.len();
    let c = count(buffer_at(from.pushed, target), result);
    let all = from.nodes_flow(nodes, target, result);
    match event {
        Event::AtSource(source, time, value) => {
            let row = row_at(from.source_target, source);
            let base = from.at_source(source);
            let changes = to.at_source(source);
            assert(canonical(from.source[source.index as int][source.port as int]));
            lemma_source_flow(from, source, changes, nodes, target, result);
            law_changes_add_up(row, base, changes, time, value, target, result);
            lemma_swap(
                c + all,
                flow(row, base, target, result),
                flow(row, changes, target, result),
                owed(from, event, target, result),
            );
        },
        Event::AtTarget(at, time, value) => {
            let row = from.target_target[at.index as int][at.port as int];
            let base = from.at_target(at);
            let changes = to.at_target(at);
            assert(canonical(from.target[at.index as int][at.port as int]));
            lemma_target_flow(from, at, changes, nodes, target, result);
            law_changes_add_up(row, base, changes, time, value, target, result);
            lemma_swap(
                c + all,
                flow(row, base, target, result),
                flow(row, changes, target, result),
                owed(from, event, target, result),
            );
        },
        Event::Node(index) => {
            let one = from.node_flow(index, target, result);
            let outputs = from.source[index].len();
            let inputs = from.target[index].len();
            lemma_ports_flow_blank(from.source_target[index], outputs, outputs, target, result);
            lemma_ports_flow_blank(from.target_target[index], inputs, inputs, target, result);
            assert(to.node_flow(index, target, result) == 0);
            lemma_nodes_flow_one(from, to, index, -one, nodes, target, result);
            assert(count(buffer_at(to.pushed, target), result) == wrap(c + one));
            lemma_wrap_add(c + one, all - one);
            lemma_wrap_add(c + all, 0);
        },
        Event::All => {
            lemma_drained_blank(from, to.pushed);
            lemma_nodes_flow_blank(to, nodes, target, result);
            assert(count(buffer_at(to.pushed, target), result) == wrap(c + all));
            lemma_wrap_add(c + all, 0);
        },
    }
}

/// In a sum, `a` is replaced by what is the same as `a + more` but for wrapping.
proof fn lemma_swap(sum: int, a: int, b: int, more: int)
    requires
        wrap(b) == wrap(a + more),
    ensures
        wrap(sum + b - a) == wrap(wrap(sum) + more),
{
    lemma_wrap_add(sum - a, b);
    lemma_wrap_add(sum - a, a + more);
    lemma_wrap_add(sum, more);
}

proof fn lemma_history_front<T: Timestamp>(states: Seq<Pointstamps<T>>, events: Seq<Event<T>>)
    requires
        history(states, events),
        events.len() > 0,
    ensures
        history(states.drop_last(), events.drop_last()),
{
    let front = states.drop_last();
    let some = events.drop_last();
    assert forall|k: int| 0 <= k < some.len() implies follows(
        front[k],
        #[trigger] some[k],
        front[k + 1],
    ) by {
        assert(events[k] == some[k]);
    }
    assert forall|k: int| 0 <= k < front.len() implies (#[trigger] front[k]).wf()
        && front[k].in_range() by {
        assert(states[k] == front[k]);
    }
}

/// The paths, and how many buffers there are, remain as they are.
proof fn lemma_history_shape<T: Timestamp>(states: Seq<Pointstamps<T>>, events: Seq<Event<T>>)
    requires
        history(states, events),
    ensures
        states.last().source_target == states[0].source_target,
        states.last().target_target == states[0].target_target,
        same_shape(states[0].pushed, states.last().pushed),
    decreases events.len(),
{
    if events.len() > 0 {
        let start = states[0].pushed;
        let from = states[events.len() - 1];
        let last = states.last();
        lemma_history_front(states, events);
        lemma_history_shape(states.drop_last(), events.drop_last());
        assert(follows(from, events[events.len() - 1], last));
        assert forall|n: int| 0 <= n < start.len() implies (#[trigger] start[n]).len()
            == last.pushed[n].len() by {
            assert(start[n].len() == from.pushed[n].len());
            assert(from.pushed[n].len() == last.pushed[n].len());
        }
    }
}

/// Whatever is observed, in whichever order, and whenever and however it is propagated: the count
/// of each time at each target, once all is propagated, is the one there would have been before
/// and what each update comes to along all paths.
pub proof fn law_history<T: Timestamp>(
    states: Seq<Pointstamps<T>>,
    events: Seq<Event<T>>,
    target: Target,
    result: T,
)
    requires
        history(states, events),
        has_buffer(states[0].pushed, target),
    ensures
        outcome(states.last(), target, result) == wrap(
            outcome(states[0], target, result) + owed_by_all(states[0], events, target, result),
        ),
        settled(states.last()) ==> count(buffer_at(states.last().pushed, target), result) == wrap(
            outcome(states[0], target, result) + owed_by_all(states[0], events, target, result),
        ),
    decreases events.len(),
{
    let last = states.last();
    if events.len() == 0 {
        lemma_wrap_add(
            count(buffer_at(last.pushed, target), result) + last.nodes_flow(
                last.target.len(),
                target,
                result,
            ),
            0,
        );
    } else {
        let front = states.drop_last();
        let some = events.drop_last();
        lemma_history_front(states, events);
        lemma_history_shape(front, some);
        law_history(front, some, target, result);
        let from = front.last();
        let event = events.last();
        assert(follows(states[events.len() - 1], events[events.len() - 1], last));
        assert(has_buffer(from.pushed, target)) by {
            assert(states[0].pushed[target.index as int].len()
                == from.pushed[target.index as int].len());
        }
        lemma_step(from, event, last, target, result);
        assert(owed(from, event, target, result) == owed(states[0], event, target, result));
        lemma_wrap_add(
            outcome(states[0], target, result) + owed_by_all(states[0], some, target, result),
            owed(from, event, target, result),
        );
    }
    if settled(last) {
        lemma_nodes_flow_blank(last, last.target.len(), target, result);
        lemma_count_fits(buffer_at(last.pushed, target), result);
    }
}

proof fn lemma_owed_by_updates<T: Timestamp>(
    state: Pointstamps<T>,
    events: Seq<Event<T>>,
    target: Target,
    result: T,
)
    ensures
        owed_by_all(state, updates(events), target, result) == owed_by_all(
            state,
            events,
            target,
            result,
        ),
    decreases events.len(),
{
    reveal(Seq::filter);
    if events.len() > 0 {
        let front = events.drop_last();
        lemma_owed_by_updates(state, front, target, result);
        if is_update(events.last()) {
            assert(updates(events) == updates(front).push(events.last()));
            assert(updates(events).drop_last() =~= updates(front));
        }
    }
}

proof fn lemma_owed_remove<T: Timestamp>(
    state: Pointstamps<T>,
    events: Seq<Event<T>>,
    i: int,
    target: Target,
    result: T,
)
    requires
        0 <= i < events.len(),
    ensures
        owed_by_all(state, events, target, result) == owed_by_all(
            state,
            events.remove(i),
            target,
            result,
        ) + owed(state, events[i], target, result),
    decreases events.len(),
{
    if i == events.len() - 1 {
        assert(events.remove(i) =~= events.drop_last());
    } else {
        lemma_owed_remove(state, events.drop_last(), i, target, result);
        assert(events.remove(i).drop_last() =~= events.drop_last().remove(i));
    }
}

proof fn lemma_owed_in_any_order<T: Timestamp>(
    state: Pointstamps<T>,
    a: Seq<Event<T>>,
    b: Seq<Event<T>>,
    target: Target,
    result: T,
)
    requires
        a.to_multiset() == b.to_multiset(),
    ensures
        owed_by_all(state, a, target, result) == owed_by_all(state, b, target, result),
    decreases a.len(),
{
    a.to_multiset_ensures();
    b.to_multiset_ensures();
    if a.len() > 0 {
        let event = a.last();
        assert(a.contains(event));
        assert(b.to_multiset().count(event) > 0);
        assert(b.contains(event));
        let i = choose|i: int| 0 <= i < b.len() && b[i] == event;
        assert(a.remove(a.len() - 1) =~= a.drop_last());
        lemma_owed_in_any_order(state, a.drop_last(), b.remove(i), target, result);
        lemma_owed_remove(state, b, i, target, result);
    }
}

/// It does not matter in which order updates are made, nor when and in which order nodes are
/// propagated: after the same updates, once all is propagated, a tracker holds the same.
pub proof fn law_same_updates<T: Timestamp>(
    one_way: Seq<Pointstamps<T>>,
    one_way_events: Seq<Event<T>>,
    other_way: Seq<Pointstamps<T>>,
    other_way_events: Seq<Event<T>>,
)
    requires
        history(one_way, one_way_events),
        history(other_way, other_way_events),
        one_way[0] == other_way[0],
        updates(one_way_events).to_multiset() == updates(other_way_events).to_multiset(),
        settled(one_way.last()),
        settled(other_way.last()),
    ensures
        one_way.last().pushed == other_way.last().pushed,
{
    let start = one_way[0];
    let a = one_way.last().pushed;
    let b = other_way.last().pushed;
    lemma_history_shape(one_way, one_way_events);
    lemma_history_shape(other_way, other_way_events);
    assert forall|at: Target, time: T| has_buffer(start.pushed, at) implies #[trigger] count(
        buffer_at(a, at),
        time,
    ) == count(buffer_at(b, at), time) by {
        law_history(one_way, one_way_events, at, time);
        law_history(other_way, other_way_events, at, time);
        lemma_owed_by_updates(start, one_way_events, at, time);
        lemma_owed_by_updates(start, other_way_events, at, time);
        lemma_owed_in_any_order(
            start,
            updates(one_way_events),
            updates(other_way_events),
            at,
            time,
        );
    }
    lemma_same_counts(start.pushed, a, b);
}

/// Buffers of one shape with the same counts are the same.
proof fn lemma_same_counts<T: Timestamp>(shape: Buffers<T>, a: Buffers<T>, b: Buffers<T>)
    requires
        shape.len() <= usize::MAX,
        forall|n: int| 0 <= n < shape.len() ==> (#[trigger] shape[n]).len() <= usize::MAX,
        same_shape(shape, a),
        same_shape(shape, b),
        all_canonical(a),
        all_canonical(b),
        forall|at: Target, time: T|
            has_buffer(shape, at) ==> #[trigger] count(buffer_at(a, at), time) == count(
                buffer_at(b, at),
                time,
            ),
    ensures
        a == b,
{
    assert forall|n: int| 0 <= n < a.len() implies #[trigger] a[n] == b[n] by {
        assert(shape[n].len() == a[n].len());
        assert(shape[n].len() == b[n].len());
        assert forall|p: int| 0 <= p < a[n].len() implies #[trigger] a[n][p] == b[n][p] by {
            let at = Target { index: n as usize, port: p as usize };
            assert(has_buffer(shape, at));
            assert(canonical(a[n][p]));
            assert(canonical(b[n][p]));
            assert forall|time: T| #[trigger] count(a[n][p], time) == count(b[n][p], time) by {
                assert(count(buffer_at(a, at), time) == count(buffer_at(b, at), time));
            }
            law_counts_determine(a[n][p], b[n][p]);
        }
        assert(a[n] =~= b[n]);
    }
    assert(a =~= b);
}

/// To propagate these nodes, one after the other.
pub open spec fn by_nodes<T>(order: Seq<int>) -> Seq<Event<T>> {
    order.map_values(|index: int| Event::<T>::Node(index))
}

/// The nodes among `order` have been drained, the others are as they were.
proof fn lemma_nodes_drained<T: Timestamp>(
    states: Seq<Pointstamps<T>>,
    order: Seq<int>,
    index: int,
)
    requires
        history(states, by_nodes::<T>(order)),
    ensures
        states.last().source.len() == states[0].source.len(),
        states.last().target.len() == states[0].target.len(),
        0 <= index < states[0].source.len() ==> states.last().source[index] == if order.contains(
            index,
        ) {
            blanks::<T>(states[0].source[index].len())
        } else {
            states[0].source[index]
        },
        0 <= index < states[0].target.len() ==> states.last().target[index] == if order.contains(
            index,
        ) {
            blanks::<T>(states[0].target[index].len())
        } else {
            states[0].target[index]
        },
    decreases order.len(),
{
    let events = by_nodes::<T>(order);
    if order.len() > 0 {
        let some = order.drop_last();
        let from = states[order.len() - 1];
        lemma_history_front(states, events);
        assert(events.drop_last() =~= by_nodes::<T>(some));
        lemma_nodes_drained(states.drop_last(), some, index);
        assert(follows(from, events[order.len() - 1], states.last()));
        assert(order =~= some.push(order.last()));
        assert(order.contains(index) <==> some.contains(index) || index == order.last()) by {
            if some.contains(index) {
                let k = choose|k: int| 0 <= k < some.len() && some[k] == index;
                assert(order[k] == index);
            }
            if index == order.last() {
                assert(order[order.len() - 1] == index);
            }
            if order.contains(index) {
                let k = choose|k: int| 0 <= k < order.len() && order[k] == index;
                if k < some.len() {
                    assert(some[k] == index);
                }
            }
        }
    }
}

/// To propagate all is to propagate each node, in whichever order.
pub proof fn law_propagate_by_nodes<T: Timestamp>(
    states: Seq<Pointstamps<T>>,
    order: Seq<int>,
    pushed: Buffers<T>,
)
    requires
        history(states, by_nodes::<T>(order)),
        forall|n: int| 0 <= n < states[0].target.len() ==> #[trigger] order.contains(n),
        pushes(states[0], pushed),
    ensures
        states.last() == states[0].drained(pushed),
{
    let start = states[0];
    let last = states.last();
    let events = by_nodes::<T>(order);
    lemma_history_shape(states, events);
    lemma_nodes_drained(states, order, 0);
    assert forall|n: int| 0 <= n < last.source.len() implies #[trigger] last.source[n] == blanked(
        start.source,
    )[n] by {
        assert(order.contains(n));
        lemma_nodes_drained(states, order, n);
    }
    assert forall|n: int| 0 <= n < last.target.len() implies #[trigger] last.target[n] == blanked(
        start.target,
    )[n] by {
        assert(order.contains(n));
        lemma_nodes_drained(states, order, n);
    }
    assert(last.source =~= blanked(start.source));
    assert(last.target =~= blanked(start.target));
    lemma_drained_blank(start, last.pushed);
    assert(settled(last));
    assert forall|at: Target, time: T| has_buffer(start.pushed, at) implies #[trigger] count(
        buffer_at(last.pushed, at),
        time,
    ) == count(buffer_at(pushed, at), time) by {
        law_history(states, events, at, time);
        lemma_owed_by_nodes(start, order, at, time);
        lemma_wrap_add(
            count(buffer_at(start.pushed, at), time) + start.nodes_flow(
                start.target.len(),
                at,
                time,
            ),
            0,
        );
    }
    lemma_same_counts(start.pushed, last.pushed, pushed);
}

proof fn lemma_owed_by_nodes<T: Timestamp>(
    state: Pointstamps<T>,
    order: Seq<int>,
    target: Target,
    result: T,
)
    ensures
        owed_by_all(state, by_nodes::<T>(order), target, result) == 0,
    decreases order.len(),
{
    if order.len() > 0 {
        lemma_owed_by_nodes(state, order.drop_last(), target, result);
        assert(by_nodes::<T>(order).drop_last() =~= by_nodes::<T>(order.drop_last()));
    }
}

} // verus!
