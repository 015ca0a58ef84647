//! What changes at ports come to, counted path by path.

use crate::progress::change_batch::{canonical, count, wrap};
use crate::progress::nested::reachability::flow::{
    Buffers, buffer_at, flow, grown, has_buffer, ports_flow, row_spread, spread,
};
use crate::progress::nested::reachability::laws::{
    lemma_nodes_flow_blank, lemma_ports_flow_blank, lemma_ports_flow_one, lemma_source_flow,
    lemma_target_flow,
};
use crate::progress::nested::reachability::row::Row;
use crate::progress::nested::reachability::search::{Table, row_at};
use crate::progress::nested::reachability::tracker::{
    Pointstamps, blank_for, blank_for_both, blanked, blanks, node_pushes, pushes,
};
use crate::progress::nested::{Source, Target};
use crate::progress::timestamp::{PathSummary, Timestamp, before};
use vstd::prelude::*;

verus! {

/// How many of the summaries take `time` to `result`.
pub open spec fn takers<T, S: PathSummary<T>>(elements: Seq<S>, time: T, result: T) -> nat {
    elements.filter(|x: S| x.apply(time) == Some(result)).len()
}

/// As many summaries as there are, all or none of which take `time` to `result`, count so, and
/// those of two lists count together.
pub proof fn law_takers_count<T, S: PathSummary<T>>(
    elements: Seq<S>,
    more: Seq<S>,
    x: S,
    time: T,
    result: T,
)
    ensures
        takers(Seq::<S>::empty(), time, result) == 0,
        x.apply(time) == Some(result) ==> takers(seq![x], time, result) == 1,
        x.apply(time) != Some(result) ==> takers(seq![x], time, result) == 0,
        takers(elements + more, time, result) == takers(elements, time, result) + takers(
            more,
            time,
            result,
        ),
    decreases more.len(),
{
    reveal(Seq::filter);
    assert(seq![x].drop_last() =~= Seq::<S>::empty());
    if more.len() == 0 {
        assert(elements + more =~= elements);
    } else {
        law_takers_count(elements, more.drop_last(), x, time, result);
        assert((elements + more).drop_last() =~= elements + more.drop_last());
    }
}

/// A change along paths comes to its value once for each path that takes its time to `result`.
pub proof fn law_spread_counts<T, S: PathSummary<T>>(
    elements: Seq<S>,
    time: T,
    value: int,
    result: T,
)
    ensures
        spread(elements, time, value, result) == value * takers(elements, time, result),
    decreases elements.len(),
{
    reveal(Seq::filter);
    if elements.len() == 0 {
        assert(value * 0 == 0) by (nonlinear_arith);
    } else {
        let front = elements.drop_last();
        law_spread_counts(front, time, value, result);
        let n = takers(front, time, result);
        assert(value * (n + 1) == value * n + value) by (nonlinear_arith);
    }
}

proof fn lemma_spread_none<T, S: PathSummary<T>>(elements: Seq<S>, time: T, value: int, result: T)
    requires
        forall|l: int| 0 <= l < elements.len() ==> (#[trigger] elements[l]).apply(time) != Some(
            result,
        ),
    ensures
        spread(elements, time, value, result) == 0,
    decreases elements.len(),
{
    if elements.len() > 0 {
        let front = elements.drop_last();
        assert forall|l: int| 0 <= l < front.len() implies (#[trigger] front[l]).apply(time)
            != Some(result) by {
            assert(front[l] == elements[l]);
        }
        lemma_spread_none(front, time, value, result);
    }
}

proof fn lemma_spread_once<T, S: PathSummary<T>>(
    elements: Seq<S>,
    m: int,
    time: T,
    value: int,
    result: T,
)
    requires
        0 <= m < elements.len(),
        elements[m].apply(time) == Some(result),
        forall|l: int|
            0 <= l < elements.len() && l != m ==> (#[trigger] elements[l]).apply(time) != Some(
                result,
            ),
    ensures
        spread(elements, time, value, result) == value,
    decreases elements.len(),
{
    let front = elements.drop_last();
    assert forall|l: int| 0 <= l < front.len() && l != m implies (#[trigger] front[l]).apply(time)
        != Some(result) by {
        assert(front[l] == elements[l]);
    }
    if m == elements.len() - 1 {
        lemma_spread_none(front, time, value, result);
    } else {
        lemma_spread_once(front, m, time, value, result);
    }
}

proof fn lemma_row_spread_absent<T, S: PathSummary<T>>(
    row: Row<S>,
    time: T,
    value: int,
    target: Target,
    result: T,
)
    requires
        forall|l: int| 0 <= l < row.len() ==> (#[trigger] row[l]).0 != target,
    ensures
        row_spread(row, time, value, target, result) == 0,
    decreases row.len(),
{
    if row.len() > 0 {
        let front = row.drop_last();
        assert forall|l: int| 0 <= l < front.len() implies (#[trigger] front[l]).0 != target by {
            assert(front[l] == row[l]);
        }
        lemma_row_spread_absent(front, time, value, target, result);
    }
}

proof fn lemma_row_spread_at<T, S: PathSummary<T>>(
    row: Row<S>,
    k: int,
    time: T,
    value: int,
    target: Target,
    result: T,
)
    requires
        0 <= k < row.len(),
        row[k].0 == target,
        forall|l: int| 0 <= l < row.len() && l != k ==> (#[trigger] row[l]).0 != target,
    ensures
        row_spread(row, time, value, target, result) == spread(row[k].1, time, value, result),
    decreases row.len(),
{
    let front = row.drop_last();
    assert forall|l: int| 0 <= l < front.len() && l != k implies (#[trigger] front[l]).0
        != target by {
        assert(front[l] == row[l]);
    }
    if k == row.len() - 1 {
        lemma_row_spread_absent(front, time, value, target, result);
    } else {
        lemma_row_spread_at(front, k, time, value, target, result);
    }
}

/// If exactly one of the summaries listed for a target takes `time` to `result`, a change by
/// `value` at `time` comes to `value` there, wherever in the row the target is listed. If none
/// does, or the target is not listed, it comes to nothing. In general it comes to `value` times
/// the number of summaries listed for the target that take `time` to `result`.
pub proof fn law_change_reaches_once<T, S: PathSummary<T>>(
    row: Row<S>,
    k: int,
    m: int,
    time: T,
    value: int,
    target: Target,
    result: T,
)
    requires
        forall|l: int| 0 <= l < row.len() && l != k ==> (#[trigger] row[l]).0 != target,
        0 <= k < row.len() ==> row[k].0 == target,
    ensures
        !(0 <= k < row.len()) ==> row_spread(row, time, value, target, result) == 0,
        0 <= k < row.len() ==> row_spread(row, time, value, target, result) == value * takers(
            row[k].1,
            time,
            result,
        ),
        0 <= k < row.len() && 0 <= m < row[k].1.len() && row[k].1[m].apply(time) == Some(result)
            && (forall|l: int|
            0 <= l < row[k].1.len() && l != m ==> (#[trigger] row[k].1[l]).apply(time) != Some(
                result,
            )) ==> row_spread(row, time, value, target, result) == value,
        0 <= k < row.len() && (forall|l: int|
            0 <= l < row[k].1.len() ==> (#[trigger] row[k].1[l]).apply(time) != Some(result))
            ==> row_spread(row, time, value, target, result) == 0,
{
    if 0 <= k < row.len() {
        let elements = row[k].1;
        lemma_row_spread_at(row, k, time, value, target, result);
        law_spread_counts(elements, time, value, result);
        if 0 <= m < elements.len() && elements[m].apply(time) == Some(result) && (forall|l: int|
            0 <= l < elements.len() && l != m ==> (#[trigger] elements[l]).apply(time) != Some(
                result,
            )) {
            lemma_spread_once(elements, m, time, value, result);
        }
        if forall|l: int|
            0 <= l < elements.len() ==> (#[trigger] elements[l]).apply(time) != Some(result) {
            lemma_spread_none(elements, time, value, result);
        }
    } else {
        lemma_row_spread_absent(row, time, value, target, result);
    }
}

/// Where the entries of a row stand does not matter: what comes of a change along two rows is what
/// comes of it along the one, and what comes of it along the other.
pub proof fn law_rows_add_up<T, S: PathSummary<T>>(
    row: Row<S>,
    more: Row<S>,
    time: T,
    value: int,
    target: Target,
    result: T,
)
    ensures
        row_spread(row + more, time, value, target, result) == row_spread(
            row,
            time,
            value,
            target,
            result,
        ) + row_spread(more, time, value, target, result),
        row_spread(row + more, time, value, target, result) == row_spread(
            more + row,
            time,
            value,
            target,
            result,
        ),
    decreases row.len() + more.len(),
{
    lemma_rows_add(row, more, time, value, target, result);
    lemma_rows_add(more, row, time, value, target, result);
}

proof fn lemma_rows_add<T, S: PathSummary<T>>(
    row: Row<S>,
    more: Row<S>,
    time: T,
    value: int,
    target: Target,
    result: T,
)
    ensures
        row_spread(row + more, time, value, target, result) == row_spread(
            row,
            time,
            value,
            target,
            result,
        ) + row_spread(more, time, value, target, result),
    decreases more.len(),
{
    if more.len() == 0 {
        assert(row + more =~= row);
    } else {
        lemma_rows_add(row, more.drop_last(), time, value, target, result);
        assert((row + more).drop_last() =~= row + more.drop_last());
    }
}

/// What comes of two lists of changes at one port is what comes of the one, and of the other.
pub proof fn law_lists_add_up<T, S: PathSummary<T>>(
    row: Row<S>,
    a: Seq<(T, i64)>,
    b: Seq<(T, i64)>,
    target: Target,
    result: T,
)
    ensures
        flow(row, a + b, target, result) == flow(row, a, target, result) + flow(
            row,
            b,
            target,
            result,
        ),
    decreases b.len(),
{
    if b.len() == 0 {
        assert(a + b =~= a);
    } else {
        law_lists_add_up(row, a, b.drop_last(), target, result);
        assert((a + b).drop_last() =~= a + b.drop_last());
    }
}

proof fn lemma_flow_one<T, S: PathSummary<T>>(
    row: Row<S>,
    time: T,
    value: i64,
    target: Target,
    result: T,
)
    ensures
        flow(row, seq![(time, value)], target, result) == row_spread(
            row,
            time,
            value as int,
            target,
            result,
        ),
        flow(row, Seq::<(T, i64)>::empty(), target, result) == 0,
{
    let one = seq![(time, value)];
    assert(one.drop_last() =~= Seq::<(T, i64)>::empty());
    assert(flow(row, one.drop_last(), target, result) == 0);
}

/// If one change was observed, at an output, propagation adds to each count at each target the
/// value of the change, once for each summary that the output lists for the target and that takes
/// the time of the change to the one that is counted. Nothing else is pushed, be it that all nodes
/// are propagated or the one of the output.
pub proof fn law_one_change_at_source<T: Timestamp>(
    state: Pointstamps<T>,
    source: Source,
    time: T,
    value: i64,
    pushed: Buffers<T>,
    target: Target,
    result: T,
    k: int,
)
    requires
        state.wf(),
        state.in_range(),
        source.index < state.source.len(),
        source.port < state.source[source.index as int].len(),
        state.source[source.index as int][source.port as int] == seq![(time, value)],
        forall|n: int, p: int|
            0 <= n < state.source.len() && 0 <= p < state.source[n].len() && !(n == source.index
                && p == source.port) ==> (#[trigger] state.source[n][p]).len() == 0,
        forall|n: int, p: int|
            0 <= n < state.target.len() && 0 <= p < state.target[n].len() ==> (
            #[trigger] state.target[n][p]).len() == 0,
        pushes(state, pushed) || node_pushes(state, source.index as int, pushed),
        target.index < state.pushed.len(),
        target.port < state.pushed[target.index as int].len(),
        ({
            let row = state.source_target[source.index as int][source.port as int];
            &&& forall|l: int| 0 <= l < row.len() && l != k ==> (#[trigger] row[l]).0 != target
            &&& 0 <= k < row.len() ==> row[k].0 == target
        }),
    ensures
        pushed.len() == state.pushed.len(),
        pushed[target.index as int].len() == state.pushed[target.index as int].len(),
        ({
            let row = state.source_target[source.index as int][source.port as int];
            let was = count(state.pushed[target.index as int][target.port as int], result);
            let is = count(pushed[target.index as int][target.port as int], result);
            if 0 <= k < row.len() {
                is == wrap(was + value * takers(row[k].1, time, result))
            } else {
                is == wrap(was)
            }
        }),
{
    let index = source.index as int;
    let row = row_at(state.source_target, source);
    let quiet = state.with_source(source, Seq::empty());
    let nodes = state.target.len();
    lemma_quiet(quiet);
    assert(quiet.source[index].len() == state.source[index].len());
    lemma_source_flow(quiet, source, seq![(time, value)], nodes, target, result);
    let again = quiet.with_source(source, seq![(time, value)]);
    assert(again.source[index] =~= state.source[index]);
    assert(again =~= state);
    lemma_nodes_flow_blank(quiet, nodes, target, result);
    lemma_flow_one(row, time, value, target, result);
    law_change_reaches_once(row, k, 0, time, value as int, target, result);
    assert(state.nodes_flow(nodes, target, result) == row_spread(
        row,
        time,
        value as int,
        target,
        result,
    ));
    let outputs = state.source[index].len();
    let inputs = state.target[index].len();
    lemma_ports_flow_one(
        state.source_target[index],
        quiet.source[index],
        source.port as int,
        seq![(time, value)],
        outputs,
        target,
        result,
    );
    assert(quiet.source[index].update(source.port as int, seq![(time, value)])
        =~= state.source[index]);
    assert(quiet.source[index] == blanks::<T>(outputs));
    assert(state.target[index] == blanks::<T>(inputs)) by {
        assert(quiet.target[index] == blanks::<T>(inputs));
    }
    lemma_ports_flow_blank(state.source_target[index], outputs, outputs, target, result);
    lemma_ports_flow_blank(state.target_target[index], inputs, inputs, target, result);
    assert(state.node_flow(index, target, result) == row_spread(
        row,
        time,
        value as int,
        target,
        result,
    ));
    assert(has_buffer(state.pushed, target));
    assert(state.pushed[target.index as int].len() == pushed[target.index as int].len());
    assert(count(buffer_at(pushed, target), result) == wrap(
        count(buffer_at(state.pushed, target), result) + row_spread(
            row,
            time,
            value as int,
            target,
            result,
        ),
    ));
}

/// The same of one change that was observed at an input.
pub proof fn law_one_change_at_target<T: Timestamp>(
    state: Pointstamps<T>,
    from: Target,
    time: T,
    value: i64,
    pushed: Buffers<T>,
    target: Target,
    result: T,
    k: int,
)
    requires
        state.wf(),
        state.in_range(),
        from.index < state.target.len(),
        from.port < state.target[from.index as int].len(),
        state.target[from.index as int][from.port as int] == seq![(time, value)],
        forall|n: int, p: int|
            0 <= n < state.target.len() && 0 <= p < state.target[n].len() && !(n == from.index && p
                == from.port) ==> (#[trigger] state.target[n][p]).len() == 0,
        forall|n: int, p: int|
            0 <= n < state.source.len() && 0 <= p < state.source[n].len() ==> (
            #[trigger] state.source[n][p]).len() == 0,
        pushes(state, pushed) || node_pushes(state, from.index as int, pushed),
        target.index < state.pushed.len(),
        target.port < state.pushed[target.index as int].len(),
        ({
            let row = state.target_target[from.index as int][from.port as int];
            &&& forall|l: int| 0 <= l < row.len() && l != k ==> (#[trigger] row[l]).0 != target
            &&& 0 <= k < row.len() ==> row[k].0 == target
        }),
    ensures
        pushed.len() == state.pushed.len(),
        pushed[target.index as int].len() == state.pushed[target.index as int].len(),
        ({
            let row = state.target_target[from.index as int][from.port as int];
            let was = count(state.pushed[target.index as int][target.port as int], result);
            let is = count(pushed[target.index as int][target.port as int], result);
            if 0 <= k < row.len() {
                is == wrap(was + value * takers(row[k].1, time, result))
            } else {
                is == wrap(was)
            }
        }),
{
    let index = from.index as int;
    let row = state.target_target[index][from.port as int];
    let quiet = state.with_target(from, Seq::empty());
    let nodes = state.target.len();
    lemma_quiet(quiet);
    assert(quiet.target[index].len() == state.target[index].len());
    lemma_target_flow(quiet, from, seq![(time, value)], nodes, target, result);
    let again = quiet.with_target(from, seq![(time, value)]);
    assert(again.target[index] =~= state.target[index]);
    assert(again =~= state);
    lemma_nodes_flow_blank(quiet, nodes, target, result);
    lemma_flow_one(row, time, value, target, result);
    law_change_reaches_once(row, k, 0, time, value as int, target, result);
    assert(state.nodes_flow(nodes, target, result) == row_spread(
        row,
        time,
        value as int,
        target,
        result,
    ));
    let outputs = state.source[index].len();
    let inputs = state.target[index].len();
    lemma_ports_flow_one(
        state.target_target[index],
        quiet.target[index],
        from.port as int,
        seq![(time, value)],
        inputs,
        target,
        result,
    );
    assert(quiet.target[index].update(from.port as int, seq![(time, value)])
        =~= state.target[index]);
    assert(quiet.target[index] == blanks::<T>(inputs));
    assert(state.source[index] == blanks::<T>(outputs)) by {
        assert(quiet.source[index] == blanks::<T>(outputs));
    }
    lemma_ports_flow_blank(state.source_target[index], outputs, outputs, target, result);
    lemma_ports_flow_blank(state.target_target[index], inputs, inputs, target, result);
    assert(state.node_flow(index, target, result) == row_spread(
        row,
        time,
        value as int,
        target,
        result,
    ));
    assert(has_buffer(state.pushed, target));
    assert(state.pushed[target.index as int].len() == pushed[target.index as int].len());
    assert(count(buffer_at(pushed, target), result) == wrap(
        count(buffer_at(state.pushed, target), result) + row_spread(
            row,
            time,
            value as int,
            target,
            result,
        ),
    ));
}

proof fn lemma_quiet<T: Timestamp>(state: Pointstamps<T>)
    requires
        forall|n: int, p: int|
            0 <= n < state.source.len() && 0 <= p < state.source[n].len() ==> (
            #[trigger] state.source[n][p]).len() == 0,
        forall|n: int, p: int|
            0 <= n < state.target.len() && 0 <= p < state.target[n].len() ==> (
            #[trigger] state.target[n][p]).len() == 0,
    ensures
        state.source == blanked(state.source),
        state.target == blanked(state.target),
        forall|n: int|
            0 <= n < state.source.len() ==> #[trigger] state.source[n] == blanks::<T>(
                state.source[n].len(),
            ),
        forall|n: int|
            0 <= n < state.target.len() ==> #[trigger] state.target[n] == blanks::<T>(
                state.target[n].len(),
            ),
{
    assert forall|n: int| 0 <= n < state.source.len() implies #[trigger] state.source[n]
        == blanks::<T>(state.source[n].len()) by {
        assert forall|p: int| 0 <= p < state.source[n].len() implies #[trigger] state.source[n][p]
            == Seq::<(T, i64)>::empty() by {
            assert(state.source[n][p] =~= Seq::<(T, i64)>::empty());
        }
        assert(state.source[n] =~= blanks::<T>(state.source[n].len()));
    }
    assert forall|n: int| 0 <= n < state.target.len() implies #[trigger] state.target[n]
        == blanks::<T>(state.target[n].len()) by {
        assert forall|p: int| 0 <= p < state.target[n].len() implies #[trigger] state.target[n][p]
            == Seq::<(T, i64)>::empty() by {
            assert(state.target[n][p] =~= Seq::<(T, i64)>::empty());
        }
        assert(state.target[n] =~= blanks::<T>(state.target[n].len()));
    }
    assert(state.source =~= blanked(state.source));
    assert(state.target =~= blanked(state.target));
}

/// If what was observed is what two trackers of the same paths observed, one after the other at
/// each port, then what comes of it is what comes of the one, and of the other. So it is from each
/// node, and from all of them.
pub proof fn law_observations_add_up<T: Timestamp>(
    a: Pointstamps<T>,
    b: Pointstamps<T>,
    both: Pointstamps<T>,
    index: int,
    nodes: nat,
    target: Target,
    result: T,
)
    requires
        a.source_target == both.source_target,
        b.source_target == both.source_target,
        a.target_target == both.target_target,
        b.target_target == both.target_target,
        forall|n: int|
            0 <= n < nodes ==> (#[trigger] both.source[n]).len() == a.source[n].len()
                && both.source[n].len() == b.source[n].len(),
        forall|n: int|
            0 <= n < nodes ==> (#[trigger] both.target[n]).len() == a.target[n].len()
                && both.target[n].len() == b.target[n].len(),
        forall|n: int, p: int|
            0 <= n < nodes && 0 <= p < both.source[n].len() ==> #[trigger] both.source[n][p]
                == a.source[n][p] + b.source[n][p],
        forall|n: int, p: int|
            0 <= n < nodes && 0 <= p < both.target[n].len() ==> #[trigger] both.target[n][p]
                == a.target[n][p] + b.target[n][p],
    ensures
        0 <= index < nodes ==> both.node_flow(index, target, result) == a.node_flow(
            index,
            target,
            result,
        ) + b.node_flow(index, target, result),
        both.nodes_flow(nodes, target, result) == a.nodes_flow(nodes, target, result)
            + b.nodes_flow(nodes, target, result),
    decreases nodes,
{
    if 0 <= index < nodes {
        assert(both.source[index].len() == a.source[index].len());
        assert(both.target[index].len() == a.target[index].len());
        lemma_node_adds(a, b, both, index, target, result);
    }
    if nodes > 0 {
        let last = nodes - 1;
        assert(both.source[last].len() == a.source[last].len());
        assert(both.target[last].len() == a.target[last].len());
        lemma_node_adds(a, b, both, last, target, result);
        law_observations_add_up(a, b, both, index, last as nat, target, result);
    }
}

proof fn lemma_node_adds<T: Timestamp>(
    a: Pointstamps<T>,
    b: Pointstamps<T>,
    both: Pointstamps<T>,
    n: int,
    target: Target,
    result: T,
)
    requires
        a.source_target == both.source_target,
        b.source_target == both.source_target,
        a.target_target == both.target_target,
        b.target_target == both.target_target,
        both.source[n].len() == a.source[n].len() == b.source[n].len(),
        both.target[n].len() == a.target[n].len() == b.target[n].len(),
        forall|p: int|
            0 <= p < both.source[n].len() ==> #[trigger] both.source[n][p] == a.source[n][p]
                + b.source[n][p],
        forall|p: int|
            0 <= p < both.target[n].len() ==> #[trigger] both.target[n][p] == a.target[n][p]
                + b.target[n][p],
    ensures
        both.node_flow(n, target, result) == a.node_flow(n, target, result) + b.node_flow(
            n,
            target,
            result,
        ),
{
    lemma_ports_add(
        both.source_target[n],
        a.source[n],
        b.source[n],
        both.source[n],
        both.source[n].len(),
        target,
        result,
    );
    lemma_ports_add(
        both.target_target[n],
        a.target[n],
        b.target[n],
        both.target[n],
        both.target[n].len(),
        target,
        result,
    );
}

proof fn lemma_ports_add<T: Timestamp>(
    rows: Seq<Row<T::Summary>>,
    a: Seq<Seq<(T, i64)>>,
    b: Seq<Seq<(T, i64)>>,
    both: Seq<Seq<(T, i64)>>,
    ports: nat,
    target: Target,
    result: T,
)
    requires
        ports <= both.len(),
        forall|p: int| 0 <= p < ports ==> #[trigger] both[p] == a[p] + b[p],
    ensures
        ports_flow(rows, both, ports, target, result) == ports_flow(rows, a, ports, target, result)
            + ports_flow(rows, b, ports, target, result),
    decreases ports,
{
    if ports > 0 {
        lemma_ports_add(rows, a, b, both, (ports - 1) as nat, target, result);
        assert(both[ports - 1] == a[ports - 1] + b[ports - 1]);
        law_lists_add_up(rows[ports - 1], a[ports - 1], b[ports - 1], target, result);
    }
}

/// Propagation adds to each count at each input what comes of the observed changes there. What was
/// pushed stays sorted, with one change at most for each timestamp, and without a change of zero.
pub proof fn law_pushed_counts<T: Timestamp>(
    state: Pointstamps<T>,
    index: int,
    pushed: Buffers<T>,
    target: Target,
    time: T,
    i: int,
    j: int,
)
    requires
        pushes(state, pushed) || node_pushes(state, index, pushed),
        target.index < state.pushed.len(),
        target.port < state.pushed[target.index as int].len(),
    ensures
        pushed.len() == state.pushed.len(),
        pushed[target.index as int].len() == state.pushed[target.index as int].len(),
        ({
            let was = count(state.pushed[target.index as int][target.port as int], time);
            let is = count(pushed[target.index as int][target.port as int], time);
            ||| is == wrap(was + state.nodes_flow(state.target.len(), target, time))
            ||| is == wrap(was + state.node_flow(index, target, time))
        }),
        pushes(state, pushed) ==> count(
            pushed[target.index as int][target.port as int],
            time,
        ) == wrap(
            count(state.pushed[target.index as int][target.port as int], time) + state.nodes_flow(
                state.target.len(),
                target,
                time,
            ),
        ),
        node_pushes(state, index, pushed) ==> count(
            pushed[target.index as int][target.port as int],
            time,
        ) == wrap(
            count(state.pushed[target.index as int][target.port as int], time) + state.node_flow(
                index,
                target,
                time,
            ),
        ),
        ({
            let changes = pushed[target.index as int][target.port as int];
            &&& 0 <= i < changes.len() ==> changes[i].1 != 0
            &&& 0 <= i < j < changes.len() ==> before(changes[i].0, changes[j].0)
        }),
{
    assert(has_buffer(state.pushed, target));
    assert(state.pushed[target.index as int].len() == pushed[target.index as int].len());
    assert(canonical(pushed[target.index as int][target.port as int]));
    assert(count(buffer_at(pushed, target), time) == count(buffer_at(pushed, target), time));
    if pushes(state, pushed) {
        let f = |t: Target, u: T| state.nodes_flow(state.target.len(), t, u);
        assert(grown(state.pushed, pushed, f));
        assert(count(buffer_at(pushed, target), time) == wrap(
            count(buffer_at(state.pushed, target), time) + f(target, time),
        ));
    }
    if node_pushes(state, index, pushed) {
        let f = |t: Target, u: T| state.node_flow(index, t, u);
        assert(grown(state.pushed, pushed, f));
        assert(count(buffer_at(pushed, target), time) == wrap(
            count(buffer_at(state.pushed, target), time) + f(target, time),
        ));
    }
}

/// An update at a port changes the list of that port, and nothing else of the tracker.
pub proof fn law_update_is_local<T: Timestamp>(
    state: Pointstamps<T>,
    source: Source,
    target: Target,
    changes: Seq<(T, i64)>,
    n: int,
    p: int,
)
    requires
        source.index < state.source.len(),
        source.port < state.source[source.index as int].len(),
        target.index < state.target.len(),
        target.port < state.target[target.index as int].len(),
    ensures
        state.at_source(source) == state.source[source.index as int][source.port as int],
        state.at_target(target) == state.target[target.index as int][target.port as int],
        ({
            let after = state.with_source(source, changes);
            &&& after.source.len() == state.source.len()
            &&& 0 <= n < state.source.len() ==> after.source[n].len() == state.source[n].len()
            &&& after.source[source.index as int][source.port as int] == changes
            &&& after.at_source(source) == changes
            &&& 0 <= n < state.source.len() && 0 <= p < state.source[n].len() && !(n == source.index
                && p == source.port) ==> after.source[n][p] == state.source[n][p]
            &&& after.target == state.target
            &&& after.pushed == state.pushed
            &&& after.source_target == state.source_target
            &&& after.target_target == state.target_target
        }),
        ({
            let after = state.with_target(target, changes);
            &&& after.target.len() == state.target.len()
            &&& 0 <= n < state.target.len() ==> after.target[n].len() == state.target[n].len()
            &&& after.target[target.index as int][target.port as int] == changes
            &&& after.at_target(target) == changes
            &&& 0 <= n < state.target.len() && 0 <= p < state.target[n].len() && !(n == target.index
                && p == target.port) ==> after.target[n][p] == state.target[n][p]
            &&& after.source == state.source
            &&& after.pushed == state.pushed
            &&& after.source_target == state.source_target
            &&& after.target_target == state.target_target
        }),
{
}

/// Propagation consumes what was observed at the ports that it propagates, all of it, and nothing
/// else: the buffers and the paths remain, and what was observed at other nodes.
pub proof fn law_propagation_consumes<T: Timestamp>(
    state: Pointstamps<T>,
    index: int,
    pushed: Buffers<T>,
    n: int,
    p: int,
)
    requires
        0 <= index < state.source.len(),
        0 <= index < state.target.len(),
    ensures
        ({
            let after = state.drained(pushed);
            &&& after.pushed == pushed
            &&& after.source_target == state.source_target
            &&& after.target_target == state.target_target
            &&& after.source.len() == state.source.len()
            &&& after.target.len() == state.target.len()
            &&& 0 <= n < state.source.len() ==> after.source[n].len() == state.source[n].len()
            &&& 0 <= n < state.target.len() ==> after.target[n].len() == state.target[n].len()
            &&& 0 <= n < state.source.len() && 0 <= p < state.source[n].len()
                ==> after.source[n][p].len() == 0
            &&& 0 <= n < state.target.len() && 0 <= p < state.target[n].len()
                ==> after.target[n][p].len() == 0
        }),
        ({
            let after = state.drained_node(index, pushed);
            &&& after.pushed == pushed
            &&& after.source_target == state.source_target
            &&& after.target_target == state.target_target
            &&& after.source.len() == state.source.len()
            &&& after.target.len() == state.target.len()
            &&& after.source[index].len() == state.source[index].len()
            &&& after.target[index].len() == state.target[index].len()
            &&& 0 <= p < state.source[index].len() ==> after.source[index][p].len() == 0
            &&& 0 <= p < state.target[index].len() ==> after.target[index][p].len() == 0
            &&& 0 <= n < state.source.len() && n != index ==> after.source[n] == state.source[n]
            &&& 0 <= n < state.target.len() && n != index ==> after.target[n] == state.target[n]
        }),
{
}

/// A tracker starts with an empty list of changes for each output and for each input, and with
/// one to push to for each input of each node, and no fewer than it has outputs. To clear it is to
/// empty all lists, however many there are.
pub proof fn law_starts_empty<T, S>(
    sources: Table<S>,
    targets: Table<S>,
    pushed: Buffers<T>,
    n: int,
    p: int,
)
    ensures
        blank_for::<T, S>(sources).len() == sources.len(),
        0 <= n < sources.len() ==> blank_for::<T, S>(sources)[n].len() == sources[n].len(),
        0 <= n < sources.len() && 0 <= p < sources[n].len() ==> blank_for::<T, S>(
            sources,
        )[n][p].len() == 0,
        blank_for_both::<T, S>(sources, targets).len() == sources.len(),
        0 <= n < sources.len() && n < targets.len() ==> {
            let ports = blank_for_both::<T, S>(sources, targets)[n].len();
            &&& ports >= sources[n].len()
            &&& ports >= targets[n].len()
            &&& ports == sources[n].len() || ports == targets[n].len()
        },
        0 <= n < sources.len() && n >= targets.len() ==> blank_for_both::<T, S>(
            sources,
            targets,
        )[n].len() == sources[n].len(),
        0 <= n < sources.len() && 0 <= p < blank_for_both::<T, S>(sources, targets)[n].len()
            ==> blank_for_both::<T, S>(sources, targets)[n][p].len() == 0,
        blanked(pushed).len() == pushed.len(),
        0 <= n < pushed.len() ==> blanked(pushed)[n].len() == pushed[n].len(),
        0 <= n < pushed.len() && 0 <= p < pushed[n].len() ==> blanked(pushed)[n][p].len() == 0,
{
}

} // verus!
