use idx_core::plan::{build, Fallback, IndexOption, Leaf, Node, Operator, Plan, RangeValue, With};
use idx_core::planner::{IterableSink, IterationStage, Iterable, IteratorEntry, KnnCandidate, QueryPlanner, TreeOutput};

fn eq(expr: u32, ix: u32, value: i64) -> Node {
    Node::Expression(Leaf { expr, io: Some(IndexOption { ix, op: Operator::Equal, value }) })
}

fn cmp(expr: u32, ix: u32, op: Operator, value: i64) -> Node {
    Node::Expression(Leaf { expr, io: Some(IndexOption { ix, op, value }) })
}

fn unindexed(expr: u32) -> Node {
    Node::Expression(Leaf { expr, io: None })
}

fn and(a: Node, b: Node) -> Node {
    Node::And(Box::new(a), Box::new(b))
}

fn or(a: Node, b: Node) -> Node {
    Node::Or(Box::new(a), Box::new(b))
}

fn tree(root: Option<Node>) -> TreeOutput {
    TreeOutput { root, order: None, knn_expressions: vec![], knn_k: 0 }
}

fn table(sink: &IterableSink, i: usize) -> Option<String> {
    match sink.get(i) {
        Iterable::Table(t) => Some(t.clone()),
        Iterable::Index(_, _) => None,
    }
}

fn index(sink: &IterableSink, i: usize) -> Option<(String, usize)> {
    match sink.get(i) {
        Iterable::Index(t, r) => Some((t.clone(), *r)),
        Iterable::Table(_) => None,
    }
}

#[test]
fn unindexable_condition_falls_back_to_table_scan() {
    let mut qp = QueryPlanner::new(None);
    let mut sink = IterableSink::new();
    qp.add_iterables("person".to_string(), tree(Some(unindexed(0))), &mut sink);
    assert_eq!(qp.fallbacks(), &vec!["NO INDEX FOUND".to_string()]);
    assert!(!qp.requires_distinct());
    assert_eq!(sink.len(), 1);
    assert_eq!(table(&sink, 0), Some("person".to_string()));
    assert!(qp.has_executors());
    assert!(qp.get_query_executor(&"person".to_string()).is_some());
    assert!(qp.get_query_executor(&"other".to_string()).is_none());
}

#[test]
fn single_equality_uses_its_index() {
    match build(&Some(eq(4, 1, 10)), &None, None) {
        Plan::SingleIndex(Some(4), io) => assert_eq!(io, IndexOption { ix: 1, op: Operator::Equal, value: 10 }),
        _ => panic!("expected a single index plan"),
    }
    let mut qp = QueryPlanner::new(None);
    let mut sink = IterableSink::new();
    qp.add_iterables("t".to_string(), tree(Some(eq(4, 1, 10))), &mut sink);
    assert_eq!(index(&sink, 0), Some(("t".to_string(), 0)));
    assert!(!qp.requires_distinct());
    assert!(qp.fallbacks().is_empty());
    assert!(!qp.is_order(&0));
    let exe = qp.get_query_executor(&"t".to_string()).unwrap();
    assert!(matches!(exe.get_iterator(0), Some(IteratorEntry::Single(Some(4), _))));
}

#[test]
fn tie_break_prefers_the_order_index_then_the_first() {
    let cond = and(eq(0, 1, 5), eq(1, 2, 6));
    let order = Some(IndexOption { ix: 2, op: Operator::Equal, value: 0 });
    assert!(matches!(build(&Some(and(eq(0, 1, 5), eq(1, 2, 6))), &None, order), Plan::SingleIndex(Some(1), _)));
    assert!(matches!(build(&Some(cond), &None, None), Plan::SingleIndex(Some(0), _)));
}

#[test]
fn same_inputs_give_the_same_plan() {
    for _ in 0..3 {
        assert!(matches!(build(&Some(and(eq(0, 1, 5), eq(1, 2, 6))), &None, None), Plan::SingleIndex(Some(0), _)));
    }
}

#[test]
fn inequalities_on_one_index_make_a_range() {
    let cond = and(cmp(0, 3, Operator::MoreThan, 5), cmp(1, 3, Operator::LessThanOrEqual, 10));
    match build(&Some(cond), &None, None) {
        Plan::SingleIndexRange(3, rq) => {
            assert_eq!(rq.exprs, vec![0, 1]);
            assert_eq!(rq.from, RangeValue { value: Some(5), inclusive: false });
            assert_eq!(rq.to, RangeValue { value: Some(10), inclusive: true });
        },
        _ => panic!("expected a range plan"),
    }
    match build(&Some(and(cmp(0, 3, Operator::MoreThanOrEqual, 1), cmp(1, 3, Operator::MoreThan, 4))), &None, None) {
        Plan::SingleIndexRange(3, rq) => {
            assert_eq!(rq.from, RangeValue { value: Some(4), inclusive: false });
            assert_eq!(rq.to, RangeValue { value: None, inclusive: false });
        },
        _ => panic!("expected a range plan"),
    }
    match build(&Some(cmp(0, 3, Operator::LessThan, 2)), &None, None) {
        Plan::SingleIndexRange(3, rq) => {
            assert_eq!(rq.from, RangeValue { value: None, inclusive: false });
            assert_eq!(rq.to, RangeValue { value: Some(2), inclusive: false });
        },
        _ => panic!("expected a range plan"),
    }
}

#[test]
fn union_of_indexes_requires_distinct() {
    let cond = or(eq(0, 1, 5), cmp(1, 2, Operator::MoreThan, 7));
    let mut qp = QueryPlanner::new(None);
    let mut sink = IterableSink::new();
    qp.add_iterables("t".to_string(), tree(Some(cond)), &mut sink);
    assert!(qp.requires_distinct());
    assert_eq!(sink.len(), 2);
    assert_eq!(index(&sink, 0), Some(("t".to_string(), 0)));
    assert_eq!(index(&sink, 1), Some(("t".to_string(), 1)));
    let exe = qp.get_query_executor(&"t".to_string()).unwrap();
    assert!(matches!(exe.get_iterator(1), Some(IteratorEntry::Range(_, 2, _, _))));
    // a later single-index table leaves the flag set
    qp.add_iterables("u".to_string(), tree(Some(eq(0, 1, 1))), &mut sink);
    assert!(qp.requires_distinct());
}

#[test]
fn union_with_unindexed_branch_scans() {
    let cond = or(eq(0, 1, 5), unindexed(1));
    assert!(matches!(build(&Some(cond), &None, None), Plan::TableIterator(Some(Fallback::NoIndexFound))));
}

#[test]
fn hints_restrict_the_indexes() {
    assert!(matches!(build(&Some(eq(0, 1, 5)), &Some(With::NoIndex), None), Plan::TableIterator(Some(Fallback::WithNoIndex))));
    assert!(matches!(build(&Some(eq(0, 1, 5)), &Some(With::Index(vec![2])), None), Plan::TableIterator(Some(Fallback::NoIndexFound))));
    assert!(matches!(build(&Some(eq(0, 1, 5)), &Some(With::Index(vec![2, 1])), None), Plan::SingleIndex(Some(0), _)));
    assert_eq!(Fallback::WithNoIndex.message(), "WITH NOINDEX");
}

#[test]
fn order_alone_uses_the_order_index() {
    let mut qp = QueryPlanner::new(None);
    let mut sink = IterableSink::new();
    let t = TreeOutput { root: None, order: Some(IndexOption { ix: 9, op: Operator::Equal, value: 0 }), knn_expressions: vec![], knn_k: 0 };
    qp.add_iterables("t".to_string(), t, &mut sink);
    assert!(qp.is_order(&0));
    assert_eq!(index(&sink, 0), Some(("t".to_string(), 0)));
    assert!(matches!(build(&None, &None, None), Plan::TableIterator(None)));
}

#[test]
fn similarity_over_a_table_scan_runs_in_two_stages() {
    let mut qp = QueryPlanner::new(None);
    let mut sink = IterableSink::new();
    let t = TreeOutput { root: Some(unindexed(0)), order: None, knn_expressions: vec![0], knn_k: 2 };
    qp.add_iterables("pts".to_string(), t, &mut sink);
    assert!(matches!(qp.next_iteration_stage(), Some(IterationStage::CollectKnn)));
    let name = "pts".to_string();
    assert!(qp.collect_knn(&name, KnnCandidate { doc: 1, distance: 30 }));
    assert!(qp.collect_knn(&name, KnnCandidate { doc: 2, distance: 10 }));
    assert!(qp.collect_knn(&name, KnnCandidate { doc: 3, distance: 20 }));
    assert!(!qp.collect_knn(&"nope".to_string(), KnnCandidate { doc: 4, distance: 0 }));
    match qp.next_iteration_stage() {
        Some(IterationStage::Iterate(Some(results))) => {
            assert_eq!(results.len(), 1);
            assert_eq!(results[0].0, "pts");
            assert_eq!(results[0].1, vec![KnnCandidate { doc: 2, distance: 10 }, KnnCandidate { doc: 3, distance: 20 }]);
        },
        _ => panic!("expected results"),
    }
    assert!(qp.next_iteration_stage().is_none());
}

#[test]
fn without_similarity_one_plain_stage() {
    let mut qp = QueryPlanner::new(None);
    let mut sink = IterableSink::new();
    qp.add_iterables("t".to_string(), tree(Some(unindexed(0))), &mut sink);
    assert!(matches!(qp.next_iteration_stage(), Some(IterationStage::Iterate(None))));
    assert!(qp.next_iteration_stage().is_none());
}

#[test]
fn ranking_keeps_the_nearest_and_arrival_order_on_ties() {
    let mut qp = QueryPlanner::new(None);
    let mut sink = IterableSink::new();
    let t = TreeOutput { root: None, order: None, knn_expressions: vec![0], knn_k: 3 };
    qp.add_iterables("p".to_string(), t, &mut sink);
    let name = "p".to_string();
    for (doc, distance) in [(1, 5), (2, 5), (3, 1), (4, 9), (5, 5)] {
        qp.collect_knn(&name, KnnCandidate { doc, distance });
    }
    let exe = qp.get_query_executor(&name).unwrap();
    let r: Vec<u64> = exe.build_bruteforce_knn_result().iter().map(|c| c.doc).collect();
    assert_eq!(r, vec![3, 1, 2]);
}

#[test]
fn partly_indexed_union_uses_the_order_index() {
    let order = Some(IndexOption { ix: 9, op: Operator::Equal, value: 0 });
    let cond = or(eq(0, 1, 5), unindexed(1));
    assert!(matches!(build(&Some(cond), &None, order), Plan::SingleIndex(None, IndexOption { ix: 9, .. })));
    let mut qp = QueryPlanner::new(None);
    let mut sink = IterableSink::new();
    let t = TreeOutput { root: Some(or(eq(0, 1, 5), unindexed(1))), order, knn_expressions: vec![], knn_k: 0 };
    qp.add_iterables("t".to_string(), t, &mut sink);
    assert_eq!(sink.len(), 1);
    assert_eq!(index(&sink, 0), Some(("t".to_string(), 0)));
    assert!(qp.fallbacks().is_empty());
    assert!(qp.is_order(&0));
}

#[test]
fn exhausted_workflow_keeps_returning_none() {
    let mut qp = QueryPlanner::new(None);
    let mut sink = IterableSink::new();
    qp.add_iterables("t".to_string(), tree(Some(unindexed(0))), &mut sink);
    assert!(qp.next_iteration_stage().is_some());
    for _ in 0..300 {
        assert!(qp.next_iteration_stage().is_none());
    }
}
