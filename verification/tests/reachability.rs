use timely::order::PartialOrder;
use timely::progress::frontier::Antichain;
use timely::progress::nested::product::Product;
use timely::progress::nested::reachability::{Builder, Summary, TopologyError, Tracker};
use timely::progress::nested::subgraph::{Source, Target};
use timely::progress::timestamp::PathSummary;

fn source(index: usize, port: usize) -> Source {
    Source { index, port }
}

fn target(index: usize, port: usize) -> Target {
    Target { index, port }
}

/// What a row of a summary lists.
fn listed<S: PartialOrder + Clone>(row: &Vec<(Target, Antichain<S>)>) -> Vec<(Target, Vec<S>)> {
    let mut result = Vec::new();
    for (target, antichain) in row.iter() {
        result.push((*target, antichain.elements().to_vec()));
    }
    result
}

/// Three nodes in a ring, the last of which increments the timestamp.
fn ring() -> Builder<usize> {
    let mut builder = Builder::<usize>::new();
    builder.add_node(0, 1, 1, vec![vec![Antichain::from_elem(0)]]);
    builder.add_node(1, 1, 1, vec![vec![Antichain::from_elem(0)]]);
    builder.add_node(2, 1, 1, vec![vec![Antichain::from_elem(1)]]);
    builder.add_edge(source(0, 0), target(1, 0));
    builder.add_edge(source(1, 0), target(2, 0));
    builder.add_edge(source(2, 0), target(0, 0));
    builder
}

/// A node without inputs, and one without outputs behind it.
fn pipe() -> Builder<usize> {
    let mut builder = Builder::<usize>::new();
    builder.add_node(0, 0, 1, vec![]);
    builder.add_node(1, 1, 0, vec![vec![]]);
    builder.add_edge(source(0, 0), target(1, 0));
    builder
}

#[test]
fn change_at_a_source_goes_round_the_ring() {
    let mut builder = ring();
    let mut tracker = Tracker::allocate_from(builder.summarize());
    tracker.update_source(source(0, 0), 17, 1);
    tracker.propagate();
    assert_eq!(tracker.pushed_mut(0)[0].drain(), vec![(18, 1)]);
    assert_eq!(tracker.pushed_mut(1)[0].drain(), vec![(17, 1)]);
    assert_eq!(tracker.pushed_mut(2)[0].drain(), vec![(17, 1)]);
}

#[test]
fn change_at_a_target_goes_round_the_ring() {
    let mut builder = ring();
    let mut tracker = Tracker::allocate_from(builder.summarize());
    tracker.update_target(target(2, 0), 17, 3);
    tracker.propagate();
    assert_eq!(tracker.pushed_mut(0)[0].drain(), vec![(18, 3)]);
    assert_eq!(tracker.pushed_mut(1)[0].drain(), vec![(18, 3)]);
    assert_eq!(tracker.pushed_mut(2)[0].drain(), vec![(17, 3)]);
}

#[test]
fn summaries_of_the_ring() {
    let mut builder = ring();
    let Summary { source_target, target_target } = builder.summarize();
    assert_eq!(source_target.len(), 3);
    assert_eq!(target_target.len(), 3);
    assert_eq!(
        listed(&source_target[0][0]),
        vec![(target(1, 0), vec![0]), (target(2, 0), vec![0]), (target(0, 0), vec![1])]
    );
    assert_eq!(
        listed(&source_target[1][0]),
        vec![(target(2, 0), vec![0]), (target(0, 0), vec![1]), (target(1, 0), vec![1])]
    );
    assert_eq!(
        listed(&source_target[2][0]),
        vec![(target(0, 0), vec![0]), (target(1, 0), vec![0]), (target(2, 0), vec![0])]
    );
    assert_eq!(
        listed(&target_target[0][0]),
        vec![(target(1, 0), vec![0]), (target(2, 0), vec![0]), (target(0, 0), vec![0])]
    );
    assert_eq!(
        listed(&target_target[2][0]),
        vec![(target(0, 0), vec![1]), (target(1, 0), vec![1]), (target(2, 0), vec![0])]
    );
}

#[test]
fn summarize_leaves_the_builder_as_it_was() {
    let mut builder = ring();
    let first = builder.summarize();
    let second = builder.summarize();
    assert_eq!(listed(&first.source_target[0][0]), listed(&second.source_target[0][0]));
    let mut copy = builder.clone();
    let third = copy.summarize();
    assert_eq!(listed(&first.target_target[1][0]), listed(&third.target_target[1][0]));
}

#[test]
fn node_with_more_inputs_than_outputs_receives_changes() {
    let mut builder = pipe();
    let mut tracker = Tracker::allocate_from(builder.summarize());
    tracker.update_source(source(0, 0), 5, 2);
    tracker.propagate();
    assert_eq!(tracker.pushed_mut(1).len(), 1);
    assert_eq!(tracker.pushed_mut(1)[0].drain(), vec![(5, 2)]);
    assert_eq!(tracker.pushed_mut(0).len(), 1);
    assert_eq!(tracker.pushed_mut(0)[0].drain(), vec![]);
}

#[test]
fn output_without_edges_leads_nowhere() {
    let mut builder = Builder::<usize>::new();
    builder.add_node(0, 0, 1, vec![]);
    builder.add_node(1, 1, 2, vec![vec![Antichain::from_elem(4), Antichain::from_elem(5)]]);
    builder.add_edge(source(0, 0), target(1, 0));
    let summary = builder.summarize();
    assert_eq!(listed(&summary.source_target[0][0]), vec![(target(1, 0), vec![0])]);
    assert_eq!(listed(&summary.source_target[1][0]), vec![]);
    assert_eq!(listed(&summary.source_target[1][1]), vec![]);
    assert_eq!(listed(&summary.target_target[1][0]), vec![(target(1, 0), vec![0])]);
}

#[test]
fn least_of_several_paths_is_listed() {
    // The input of node 1 is linked to its output by two paths, and node 2 is a detour.
    let mut builder = Builder::<usize>::new();
    builder.add_node(0, 0, 1, vec![]);
    builder.add_node(1, 1, 1, vec![vec![Antichain::from_elem(7)]]);
    builder.add_node(2, 1, 1, vec![vec![Antichain::from_elem(3)]]);
    builder.add_node(3, 1, 0, vec![vec![]]);
    builder.add_edge(source(0, 0), target(1, 0));
    builder.add_edge(source(0, 0), target(2, 0));
    builder.add_edge(source(1, 0), target(3, 0));
    builder.add_edge(source(2, 0), target(3, 0));
    builder.add_edge(source(2, 0), target(3, 0));
    let summary = builder.summarize();
    assert_eq!(
        listed(&summary.source_target[0][0]),
        vec![(target(1, 0), vec![0]), (target(2, 0), vec![0]), (target(3, 0), vec![3])]
    );
}

#[test]
fn no_internal_path_means_no_path() {
    let mut builder = Builder::<usize>::new();
    builder.add_node(0, 0, 1, vec![]);
    builder.add_node(1, 1, 1, vec![vec![Antichain::new()]]);
    builder.add_node(2, 1, 0, vec![vec![]]);
    builder.add_edge(source(0, 0), target(1, 0));
    builder.add_edge(source(1, 0), target(2, 0));
    let summary = builder.summarize();
    assert_eq!(listed(&summary.source_target[0][0]), vec![(target(1, 0), vec![0])]);
    assert_eq!(listed(&summary.target_target[1][0]), vec![(target(1, 0), vec![0])]);
}

#[test]
fn path_whose_summary_overflows_is_dropped() {
    let mut builder = Builder::<usize>::new();
    builder.add_node(0, 0, 1, vec![]);
    builder.add_node(1, 1, 1, vec![vec![Antichain::from_elem(usize::MAX)]]);
    builder.add_node(2, 1, 1, vec![vec![Antichain::from_elem(1)]]);
    builder.add_node(3, 1, 0, vec![vec![]]);
    builder.add_edge(source(0, 0), target(1, 0));
    builder.add_edge(source(1, 0), target(2, 0));
    builder.add_edge(source(2, 0), target(3, 0));
    let summary = builder.summarize();
    assert_eq!(
        listed(&summary.source_target[0][0]),
        vec![(target(1, 0), vec![0]), (target(2, 0), vec![usize::MAX])]
    );
    // From the input of node 1 the same path overflows when the two parts are joined.
    assert_eq!(
        listed(&summary.target_target[1][0]),
        vec![(target(2, 0), vec![usize::MAX]), (target(1, 0), vec![0])]
    );
}

#[test]
fn timestamp_that_overflows_is_dropped() {
    let mut builder = ring();
    let mut tracker = Tracker::allocate_from(builder.summarize());
    tracker.update_source(source(0, 0), usize::MAX, 1);
    tracker.propagate();
    assert_eq!(tracker.pushed_mut(0)[0].drain(), vec![]);
    assert_eq!(tracker.pushed_mut(1)[0].drain(), vec![(usize::MAX, 1)]);
    assert_eq!(tracker.pushed_mut(2)[0].drain(), vec![(usize::MAX, 1)]);
}

#[test]
fn updates_are_buffered_until_they_are_propagated() {
    let mut builder = ring();
    let mut tracker = Tracker::allocate_from(builder.summarize());
    tracker.update_source(source(0, 0), 17, 1);
    assert_eq!(tracker.pushed_mut(1)[0].drain(), vec![]);
    tracker.propagate();
    assert_eq!(tracker.pushed_mut(1)[0].drain(), vec![(17, 1)]);
}

#[test]
fn pushed_changes_stay_until_they_are_consumed() {
    let mut builder = ring();
    let mut tracker = Tracker::allocate_from(builder.summarize());
    tracker.update_source(source(0, 0), 17, 1);
    tracker.propagate();
    tracker.update_source(source(0, 0), 17, 4);
    tracker.update_source(source(0, 0), 3, -1);
    tracker.propagate();
    assert_eq!(tracker.pushed_mut(1)[0].drain(), vec![(3, -1), (17, 5)]);
    assert_eq!(tracker.pushed_mut(1)[0].drain(), vec![]);
}

#[test]
fn propagating_again_changes_nothing() {
    let mut builder = ring();
    let mut tracker = Tracker::allocate_from(builder.summarize());
    tracker.update_source(source(0, 0), 17, 1);
    tracker.propagate();
    tracker.propagate();
    assert_eq!(tracker.pushed_mut(0)[0].drain(), vec![(18, 1)]);
}

#[test]
fn opposite_updates_have_no_consequences() {
    let mut builder = ring();
    let mut tracker = Tracker::allocate_from(builder.summarize());
    tracker.update_target(target(0, 0), 17, 1);
    tracker.update_target(target(0, 0), 17, -1);
    tracker.propagate();
    assert_eq!(tracker.pushed_mut(0)[0].drain(), vec![]);
    tracker.update_target(target(0, 0), 17, 1);
    tracker.propagate();
    tracker.update_target(target(0, 0), 17, -1);
    tracker.propagate();
    assert_eq!(tracker.pushed_mut(0)[0].drain(), vec![]);
    assert_eq!(tracker.pushed_mut(2)[0].drain(), vec![]);
}

#[test]
fn changes_can_be_propagated_at_once_or_later() {
    let mut builder = ring();
    let mut at_once = Tracker::allocate_from(builder.summarize());
    let mut later = Tracker::allocate_from(builder.summarize());
    for (time, value) in vec![(4, 1), (2, 5), (4, -3), (9, 1)] {
        at_once.update_source(source(1, 0), time, value);
        at_once.propagate();
        later.update_source(source(1, 0), time, value);
    }
    later.propagate();
    for node in 0..3 {
        let expected = later.pushed_mut(node)[0].drain();
        assert_eq!(at_once.pushed_mut(node)[0].drain(), expected);
        assert_eq!(expected.len(), 3);
    }
}

#[test]
fn one_node_is_propagated_alone() {
    let mut builder = ring();
    let mut tracker = Tracker::allocate_from(builder.summarize());
    tracker.update_source(source(0, 0), 17, 1);
    tracker.update_target(target(1, 0), 30, 1);
    tracker.propagate_node(0);
    assert_eq!(tracker.pushed_mut(1)[0].drain(), vec![(17, 1)]);
    tracker.propagate_node(1);
    assert_eq!(tracker.pushed_mut(1)[0].drain(), vec![(30, 1)]);
    assert_eq!(tracker.pushed_mut(2)[0].drain(), vec![(17, 1), (30, 1)]);
    assert_eq!(tracker.pushed_mut(0)[0].drain(), vec![(18, 1), (31, 1)]);
}

#[test]
fn nodes_can_be_propagated_in_any_order() {
    let mut one_way = Tracker::allocate_from(ring().summarize());
    let mut other_way = Tracker::allocate_from(ring().summarize());
    for tracker in [&mut one_way, &mut other_way] {
        tracker.update_source(source(0, 0), 17, 1);
        tracker.update_target(target(1, 0), 17, 2);
        tracker.update_source(source(1, 0), 16, 3);
    }
    one_way.propagate_node(0);
    one_way.propagate_node(1);
    other_way.propagate_node(1);
    other_way.propagate_node(0);
    let expected = [vec![(17, 3), (18, 3)], vec![(17, 6)], vec![(16, 3), (17, 3)]];
    for node in 0..3 {
        assert_eq!(one_way.pushed_mut(node)[0].drain(), expected[node]);
        assert_eq!(other_way.pushed_mut(node)[0].drain(), expected[node]);
    }
}

#[test]
fn propagating_each_node_propagates_all() {
    let mut all = Tracker::allocate_from(ring().summarize());
    let mut each = Tracker::allocate_from(ring().summarize());
    for tracker in [&mut all, &mut each] {
        tracker.update_source(source(0, 0), 17, 1);
        tracker.update_target(target(1, 0), 17, 2);
        tracker.update_target(target(2, 0), 5, -4);
    }
    all.propagate();
    for node in [2, 0, 1, 0] {
        each.propagate_node(node);
    }
    let expected = [vec![(6, -4), (18, 3)], vec![(6, -4), (17, 3)], vec![(5, -4), (17, 3)]];
    for node in 0..3 {
        assert_eq!(all.pushed_mut(node)[0].drain(), expected[node]);
        assert_eq!(each.pushed_mut(node)[0].drain(), expected[node]);
    }
}

#[test]
fn same_updates_come_to_the_same() {
    let mut one_way = Tracker::allocate_from(ring().summarize());
    one_way.update_source(source(0, 0), 3, 2);
    one_way.propagate_node(0);
    one_way.update_target(target(2, 0), 3, 1);
    one_way.update_source(source(2, 0), 4, -2);
    one_way.propagate();
    one_way.update_source(source(0, 0), 3, 5);
    one_way.propagate();
    let mut other_way = Tracker::allocate_from(ring().summarize());
    other_way.update_source(source(2, 0), 4, -2);
    other_way.update_source(source(0, 0), 3, 5);
    other_way.propagate_node(2);
    other_way.update_target(target(2, 0), 3, 1);
    other_way.update_source(source(0, 0), 3, 2);
    other_way.propagate();
    let expected = [vec![(4, 6)], vec![(3, 7), (4, -1)], vec![(3, 8), (4, -2)]];
    for node in 0..3 {
        assert_eq!(one_way.pushed_mut(node)[0].drain(), expected[node]);
        assert_eq!(other_way.pushed_mut(node)[0].drain(), expected[node]);
    }
}

#[test]
fn changes_at_both_ports_of_a_node_add_up() {
    let mut builder = ring();
    let mut tracker = Tracker::allocate_from(builder.summarize());
    tracker.update_target(target(1, 0), 6, 2);
    tracker.update_source(source(1, 0), 6, 3);
    tracker.propagate_node(1);
    assert_eq!(tracker.pushed_mut(2)[0].drain(), vec![(6, 5)]);
    assert_eq!(tracker.pushed_mut(0)[0].drain(), vec![(7, 5)]);
    assert_eq!(tracker.pushed_mut(1)[0].drain(), vec![(6, 2), (7, 3)]);
}

#[test]
fn clear_drops_all_changes() {
    let mut builder = ring();
    let mut tracker = Tracker::allocate_from(builder.summarize());
    tracker.update_source(source(0, 0), 17, 1);
    tracker.propagate();
    tracker.update_source(source(0, 0), 20, 1);
    tracker.update_target(target(1, 0), 21, 1);
    tracker.clear();
    tracker.propagate();
    for node in 0..3 {
        assert_eq!(tracker.pushed_mut(node)[0].drain(), vec![]);
    }
    tracker.update_source(source(0, 0), 17, 1);
    tracker.propagate();
    assert_eq!(tracker.pushed_mut(0)[0].drain(), vec![(18, 1)]);
}

#[test]
fn default_tracker_is_empty() {
    let mut tracker: Tracker<usize> = Default::default();
    tracker.propagate();
    tracker.clear();
    let mut builder = Builder::<usize>::new();
    let summary = builder.summarize();
    assert_eq!(summary.source_target.len(), 0);
    assert_eq!(summary.target_target.len(), 0);
}

#[test]
fn node_can_be_overwritten() {
    let mut builder = ring();
    builder.add_node(2, 1, 1, vec![vec![Antichain::from_elem(10)]]);
    let summary = builder.summarize();
    assert_eq!(
        listed(&summary.source_target[0][0]),
        vec![(target(1, 0), vec![0]), (target(2, 0), vec![0]), (target(0, 0), vec![10])]
    );
}

#[test]
fn nodes_and_edges_can_be_added_in_any_order() {
    let mut builder = Builder::<usize>::new();
    builder.add_edge(source(2, 0), target(0, 0));
    builder.add_edge(source(0, 0), target(1, 0));
    builder.add_node(2, 1, 1, vec![vec![Antichain::from_elem(1)]]);
    builder.add_node(0, 1, 1, vec![vec![Antichain::from_elem(0)]]);
    builder.add_edge(source(1, 0), target(2, 0));
    builder.add_node(1, 1, 1, vec![vec![Antichain::from_elem(0)]]);
    let mut tracker = Tracker::allocate_from(builder.summarize());
    tracker.update_source(source(0, 0), 17, 1);
    tracker.propagate();
    assert_eq!(tracker.pushed_mut(0)[0].drain(), vec![(18, 1)]);
    assert_eq!(tracker.pushed_mut(1)[0].drain(), vec![(17, 1)]);
    assert_eq!(tracker.pushed_mut(2)[0].drain(), vec![(17, 1)]);
}

#[test]
fn repeated_edges_list_no_further_summaries() {
    let mut builder = ring();
    builder.add_edge(source(1, 0), target(2, 0));
    builder.add_edge(source(0, 0), target(1, 0));
    let again = builder.summarize();
    let summary = ring().summarize();
    for node in 0..3 {
        assert_eq!(
            listed(&again.source_target[node][0]),
            listed(&summary.source_target[node][0])
        );
        assert_eq!(
            listed(&again.target_target[node][0]),
            listed(&summary.target_target[node][0])
        );
    }
}

#[test]
fn nodes_that_were_skipped_have_no_ports() {
    let mut builder = Builder::<usize>::new();
    builder.add_node(2, 0, 1, vec![]);
    let summary = builder.summarize();
    assert_eq!(summary.source_target.len(), 3);
    assert_eq!(summary.source_target[0].len(), 0);
    assert_eq!(summary.source_target[2].len(), 1);
    assert_eq!(summary.target_target[2].len(), 0);
}

#[test]
fn valid_graph_passes_the_checks() {
    let mut builder = ring();
    match builder.try_summarize() {
        Ok(summary) => assert_eq!(
            listed(&summary.target_target[2][0]),
            vec![(target(0, 0), vec![1]), (target(1, 0), vec![1]), (target(2, 0), vec![0])]
        ),
        Err(error) => panic!("{:?}", error),
    }
}

#[test]
fn edge_to_a_missing_port_is_found() {
    let mut builder = ring();
    builder.add_edge(source(1, 0), target(2, 1));
    builder.add_edge(source(2, 0), target(3, 0));
    assert_eq!(
        builder.try_summarize().err(),
        Some(TopologyError::UndefinedEdge(source(1, 0), target(2, 1)))
    );
}

#[test]
fn edge_from_a_missing_port_is_found() {
    let mut builder = ring();
    builder.add_edge(source(0, 1), target(2, 0));
    assert_eq!(
        builder.try_summarize().err(),
        Some(TopologyError::UndefinedEdge(source(0, 1), target(2, 0)))
    );
    let mut builder = ring();
    builder.add_edge(source(4, 0), target(2, 0));
    assert_eq!(
        builder.try_summarize().err(),
        Some(TopologyError::UndefinedEdge(source(4, 0), target(2, 0)))
    );
}

#[test]
fn default_self_loop_is_found() {
    let mut builder = ring();
    builder.add_node(2, 1, 1, vec![vec![Antichain::from_elem(0)]]);
    assert_eq!(
        builder.try_summarize().err(),
        Some(TopologyError::DefaultSelfLoop(target(0, 0)))
    );
    // Where such loops are allowed, they are summarized as any other path.
    let summary = builder.summarize_with_loops();
    assert_eq!(
        listed(&summary.source_target[0][0]),
        vec![(target(1, 0), vec![0]), (target(2, 0), vec![0]), (target(0, 0), vec![0])]
    );
}

type Pair = Product<usize, usize>;

fn pair(outer: usize, inner: usize) -> Pair {
    Product::new(outer, inner)
}

#[test]
fn incomparable_summaries_are_listed_side_by_side() {
    let mut builder = Builder::<Pair>::new();
    builder.add_node(0, 0, 1, vec![]);
    builder.add_node(1, 1, 1, vec![vec![Antichain::from_elem(pair(0, 7))]]);
    builder.add_node(2, 1, 1, vec![vec![Antichain::from_elem(pair(2, 7))]]);
    builder.add_node(3, 1, 1, vec![vec![Antichain::from_elem(pair(1, 0))]]);
    builder.add_node(4, 1, 0, vec![vec![]]);
    for middle in 1..4 {
        builder.add_edge(source(0, 0), target(middle, 0));
        builder.add_edge(source(middle, 0), target(4, 0));
    }
    let summary = builder.summarize();
    assert_eq!(
        listed(&summary.source_target[0][0])[3],
        (target(4, 0), vec![pair(0, 7), pair(1, 0)])
    );
    let mut tracker = Tracker::allocate_from(summary);
    tracker.update_source(source(0, 0), pair(3, 4), 1);
    tracker.update_source(source(0, 0), pair(2, 11), 5);
    tracker.propagate();
    assert_eq!(
        tracker.pushed_mut(4)[0].drain(),
        vec![(pair(2, 18), 5), (pair(3, 11), 6), (pair(4, 4), 1)]
    );
}

#[test]
fn product_loop_adds_to_the_inner_part() {
    // An outer node, and an inner loop of two nodes.
    let mut both = Antichain::from_elem(pair(0, 0));
    assert!(!both.insert(pair(0, 1)));
    let mut builder = Builder::<Pair>::new();
    builder.add_node(0, 2, 1, vec![vec![both], vec![Antichain::from_elem(pair(0, 0))]]);
    builder.add_node(1, 1, 1, vec![vec![Antichain::from_elem(pair(0, 1))]]);
    builder.add_edge(source(0, 0), target(1, 0));
    builder.add_edge(source(1, 0), target(0, 1));
    let mut tracker = match builder.try_summarize() {
        Ok(summary) => Tracker::allocate_from(summary),
        Err(error) => panic!("{:?}", error),
    };
    tracker.update_target(target(0, 0), pair(5, 0), 1);
    tracker.propagate();
    assert_eq!(tracker.pushed_mut(0)[0].drain(), vec![(pair(5, 0), 1)]);
    assert_eq!(tracker.pushed_mut(0)[1].drain(), vec![(pair(5, 1), 1)]);
    assert_eq!(tracker.pushed_mut(1)[0].drain(), vec![(pair(5, 0), 1)]);
}

#[test]
fn products_overflow_in_either_part() {
    let step = pair(1, 2);
    assert_eq!(step.results_in(&pair(3, 4)), Some(pair(4, 6)));
    assert_eq!(step.results_in(&pair(usize::MAX, 0)), None);
    assert_eq!(step.results_in(&pair(0, usize::MAX - 1)), None);
    assert_eq!(step.followed_by(&pair(10, 10)), Some(pair(11, 12)));
    assert_eq!(step.followed_by(&pair(0, usize::MAX)), None);
    assert!(step.less_equal(&pair(1, 3)));
    assert!(!step.less_equal(&pair(2, 1)));
    assert!(pair(1, 9) < pair(2, 0));
    assert_eq!(pair(1, 9).cmp(&pair(1, 10)), std::cmp::Ordering::Less);
}

#[test]
fn lesser_summary_found_later_replaces_a_greater_one() {
    // The short path is the dear one, so it is found first and replaced.
    let mut builder = Builder::<usize>::new();
    builder.add_node(0, 0, 1, vec![]);
    builder.add_node(1, 1, 1, vec![vec![Antichain::from_elem(9)]]);
    builder.add_node(2, 1, 1, vec![vec![Antichain::from_elem(1)]]);
    builder.add_node(3, 1, 1, vec![vec![Antichain::from_elem(1)]]);
    builder.add_node(4, 1, 1, vec![vec![Antichain::from_elem(5)]]);
    builder.add_node(5, 1, 0, vec![vec![]]);
    builder.add_edge(source(0, 0), target(1, 0));
    builder.add_edge(source(0, 0), target(2, 0));
    builder.add_edge(source(1, 0), target(4, 0));
    builder.add_edge(source(2, 0), target(3, 0));
    builder.add_edge(source(3, 0), target(4, 0));
    builder.add_edge(source(4, 0), target(5, 0));
    let summary = builder.summarize();
    assert_eq!(
        listed(&summary.source_target[0][0]),
        vec![
            (target(1, 0), vec![0]),
            (target(2, 0), vec![0]),
            (target(4, 0), vec![2]),
            (target(3, 0), vec![1]),
            (target(5, 0), vec![7]),
        ]
    );
}
