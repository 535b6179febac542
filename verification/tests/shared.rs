use fates::shared::{
    bind_expression_found, bind_value_found, by_ref_found, by_ref_mut_found, cached_found, derived_found,
    get_found, is_dirty_found, leaf_found, settled,
};
use fates::{Access, Fate, FateError, Graph, SharedGraph};
use std::cell::RefCell;
use std::rc::Rc;

type Formula = Box<dyn Fn(&Vec<i32>) -> Option<i32>>;

fn formula(f: impl Fn(&Vec<i32>) -> Option<i32> + 'static) -> Formula {
    Box::new(f)
}

#[test]
fn holders_of_clones_share_one_graph() {
    let shared: SharedGraph<i32, Formula> = SharedGraph::new(Graph::new());
    let other = shared.clone();
    let a = shared.from_value(3).done().unwrap();
    let b = other.from_value(5).done().unwrap();
    let c = shared
        .from_expression(formula(|v| Some(v[0] + v[1])), vec![a, b])
        .done()
        .unwrap()
        .unwrap();
    assert_eq!(other.get(c), Access::Done(Ok(8)));
    assert_eq!(other.bind_value(b, 100), Access::Done(()));
    assert_eq!(shared.is_dirty(c), Access::Done(true));
    assert_eq!(shared.get(c), Access::Done(Ok(103)));
    assert_eq!(other.is_dirty(c), Access::Done(false));
}

#[test]
fn a_graph_made_beforehand_can_be_shared() {
    let mut graph: Graph<i32, Formula> = Graph::new();
    let a = Fate::from_value(&mut graph, 10);
    let b = Fate::from_expression(&mut graph, formula(|v| Some(v[0] * 10)), vec![a]).unwrap();
    let shared = SharedGraph::new(graph);
    assert_eq!(shared.get(b), Access::Done(Ok(100)));
    assert_eq!(
        shared.bind_expression(a, formula(|v| Some(v[0] + 1)), vec![b]),
        Access::Done(())
    );
    assert_eq!(shared.get(b), Access::Done(Err(FateError::CycleDetected)));
    assert_eq!(shared.bind_value(a, 1), Access::Done(()));
    assert_eq!(shared.get(b), Access::Done(Ok(10)));
}

#[test]
fn a_handle_of_no_cell_of_the_graph_is_turned_away() {
    let mut large: Graph<i32, Formula> = Graph::new();
    let _ = Fate::from_value(&mut large, 0);
    let stranger = Fate::from_value(&mut large, 1);
    let shared: SharedGraph<i32, Formula> = SharedGraph::new(Graph::new());
    let a = shared.from_value(1).done().unwrap();
    assert_eq!(shared.get(stranger), Access::Unknown);
    assert_eq!(shared.is_dirty(stranger), Access::Unknown);
    assert_eq!(shared.bind_value(stranger, 5), Access::Unknown);
    assert_eq!(
        shared.bind_expression(stranger, formula(|v| Some(v[0])), vec![a]),
        Access::Unknown
    );
    assert_eq!(
        shared.bind_expression(a, formula(|v| Some(v[0])), vec![stranger]),
        Access::Unknown
    );
    assert!(shared.from_expression(formula(|v| Some(v[0])), vec![a, stranger]) == Access::Unknown);
    assert_eq!(shared.by_ref(stranger, |_: &i32| {}), Access::Unknown);
    assert_eq!(shared.by_ref_mut(stranger, |_: &mut i32| {}), Access::Unknown);
    assert_eq!(shared.get(a), Access::Done(Ok(1)));
    assert_eq!(shared.is_dirty(a), Access::Done(false));
}

#[test]
fn literals_are_observed_and_mutated_in_place() {
    let shared: SharedGraph<i32, Formula> = SharedGraph::new(Graph::new());
    let a = shared.from_value(20).done().unwrap();
    let b = shared
        .from_expression(formula(|v| Some(v[0] + 1)), vec![a])
        .done()
        .unwrap()
        .unwrap();
    let mut seen = 0;
    assert_eq!(shared.by_ref(a, |value: &i32| seen = *value), Access::Done(()));
    assert_eq!(seen, 20);
    assert_eq!(shared.by_ref_mut(a, |value: &mut i32| *value *= 2), Access::Done(()));
    assert_eq!(shared.is_dirty(b), Access::Done(true));
    assert_eq!(shared.get(b), Access::Done(Ok(41)));
}

#[test]
fn an_expression_that_reaches_back_finds_the_graph_in_use() {
    let shared: SharedGraph<i32, Formula> = SharedGraph::new(Graph::new());
    let a = shared.from_value(1).done().unwrap();
    let seen: Rc<RefCell<Vec<bool>>> = Rc::new(RefCell::new(Vec::new()));
    let inner = shared.clone();
    let log = seen.clone();
    let made = shared.from_expression(
        formula(move |v: &Vec<i32>| {
            log.borrow_mut().push(inner.get(a) == Access::Busy);
            log.borrow_mut().push(inner.is_dirty(a) == Access::Busy);
            log.borrow_mut().push(inner.bind_value(a, 99) == Access::Busy);
            log.borrow_mut().push(inner.from_value(7) == Access::Busy);
            Some(v[0] + 1)
        }),
        vec![a],
    );
    let b = made.done().unwrap().unwrap();
    assert_eq!(*seen.borrow(), vec![true, true, true, true]);
    assert_eq!(shared.get(b), Access::Done(Ok(2)));
    assert_eq!(shared.get(a), Access::Done(Ok(1)));
}

#[test]
fn readers_share_what_a_writer_keeps_to_itself() {
    let shared: SharedGraph<i32, Formula> = SharedGraph::new(Graph::new());
    let a = shared.from_value(1).done().unwrap();
    let b = shared.from_value(2).done().unwrap();
    assert_eq!(shared.bind_value(b, 3), Access::Done(()));
    let inner = shared.clone();
    let mut nested = None;
    assert_eq!(
        shared.by_ref(a, |_: &i32| {
            nested = Some((
                inner.is_dirty(a),
                inner.get(a),
                inner.is_dirty(b),
                inner.get(b),
                inner.bind_value(a, 5),
            ))
        }),
        Access::Done(())
    );
    assert_eq!(
        nested,
        Some((
            Access::Done(false),
            Access::Done(Ok(1)),
            Access::Done(true),
            Access::Busy,
            Access::Busy
        ))
    );
    assert_eq!(shared.get(b), Access::Done(Ok(3)));
    assert_eq!(shared.get(a), Access::Done(Ok(1)));
}

#[test]
fn a_clean_cell_is_read_without_being_recomputed() {
    let calls = Rc::new(RefCell::new(0));
    let counter = calls.clone();
    let shared: SharedGraph<i32, Formula> = SharedGraph::new(Graph::new());
    let a = shared.from_value(4).done().unwrap();
    let b = shared
        .from_expression(
            formula(move |v| {
                *counter.borrow_mut() += 1;
                Some(v[0] * v[0])
            }),
            vec![a],
        )
        .done()
        .unwrap()
        .unwrap();
    assert_eq!(shared.get(b), Access::Done(Ok(16)));
    assert_eq!(shared.get(b), Access::Done(Ok(16)));
    assert_eq!(*calls.borrow(), 1);
    assert_eq!(shared.bind_value(a, 5), Access::Done(()));
    assert_eq!(shared.get(b), Access::Done(Ok(25)));
    assert_eq!(shared.get(b), Access::Done(Ok(25)));
    assert_eq!(*calls.borrow(), 2);
}

#[test]
fn the_result_of_an_access_is_there_only_when_it_was_carried_out() {
    assert_eq!(Access::Done(3).done(), Some(3));
    assert_eq!(Access::<i32>::Busy.done(), None);
    assert_eq!(Access::<i32>::Unknown.done(), None);
}

#[test]
fn interleaved_writes_and_reads_end_clean_and_current() {
    let shared: SharedGraph<i32, Formula> = SharedGraph::new(Graph::new());
    let a = shared.from_value(0).done().unwrap();
    let b = shared
        .from_expression(formula(|v| Some(v[0] * 10)), vec![a])
        .done()
        .unwrap()
        .unwrap();
    let holders: Vec<SharedGraph<i32, Formula>> = (1..100).map(|_| shared.clone()).collect();
    let mut last = 0;
    for i in 1..100 {
        for holder in &holders {
            let value = 30;
            assert_eq!(holder.bind_value(a, i + value), Access::Done(()));
            last = i + value;
            let read = holder.get(b);
            assert_eq!(read, Access::Done(Ok(last * 10)));
        }
    }
    assert_eq!(shared.is_dirty(b), Access::Done(false));
    assert_eq!(shared.get(b), Access::Done(Ok(last * 10)));
}

#[test]
fn without_a_graph_nothing_is_done() {
    let a = {
        let mut graph: Graph<i32, Formula> = Graph::new();
        Fate::from_value(&mut graph, 1)
    };
    assert!(leaf_found(None::<&mut Graph<i32, Formula>>, 1) == Access::Busy);
    assert!(derived_found(None::<&mut Graph<i32, Formula>>, formula(|v| Some(v[0])), vec![a]) == Access::Busy);
    assert_eq!(get_found(None::<&mut Graph<i32, Formula>>, a), Access::Busy);
    assert_eq!(cached_found(None::<&Graph<i32, Formula>>, a), Access::Busy);
    assert_eq!(is_dirty_found(None::<&Graph<i32, Formula>>, a), Access::Busy);
    assert_eq!(bind_value_found(None::<&mut Graph<i32, Formula>>, a, 2), Access::Busy);
    assert_eq!(
        bind_expression_found(None::<&mut Graph<i32, Formula>>, a, formula(|v| Some(v[0])), vec![a]),
        Access::Busy
    );
    let mut called = false;
    assert_eq!(by_ref_found(None::<&Graph<i32, Formula>>, a, |_: &i32| called = true), Access::Busy);
    assert_eq!(
        by_ref_mut_found(None::<&mut Graph<i32, Formula>>, a, |_: &mut i32| called = true),
        Access::Busy
    );
    assert!(!called);
}

#[test]
fn with_a_graph_the_operation_is_carried_out() {
    let mut graph: Graph<i32, Formula> = Graph::new();
    let a = leaf_found(Some(&mut graph), 3).done().unwrap();
    let b = leaf_found(Some(&mut graph), 5).done().unwrap();
    let c = derived_found(Some(&mut graph), formula(|v| Some(v[0] + v[1])), vec![a, b])
        .done()
        .unwrap()
        .unwrap();
    assert_eq!(graph.len(), 3);
    assert_eq!(cached_found(Some(&graph), c), Access::Done(Some(8)));
    assert_eq!(get_found(Some(&mut graph), c), Access::Done(Ok(8)));
    assert_eq!(bind_value_found(Some(&mut graph), b, 100), Access::Done(()));
    assert_eq!(is_dirty_found(Some(&graph), c), Access::Done(true));
    assert_eq!(is_dirty_found(Some(&graph), a), Access::Done(false));
    assert_eq!(cached_found(Some(&graph), c), Access::Done(None));
    assert_eq!(get_found(Some(&mut graph), c), Access::Done(Ok(103)));
    assert_eq!(
        bind_expression_found(Some(&mut graph), b, formula(|v| Some(v[0] * 2)), vec![c]),
        Access::Done(())
    );
    assert_eq!(get_found(Some(&mut graph), c), Access::Done(Err(FateError::CycleDetected)));
    assert_eq!(bind_value_found(Some(&mut graph), b, 1), Access::Done(()));
    let mut seen = 0;
    assert_eq!(by_ref_found(Some(&graph), b, |value: &i32| seen = *value), Access::Done(()));
    assert_eq!(seen, 1);
    assert_eq!(by_ref_mut_found(Some(&mut graph), b, |value: &mut i32| *value = 9), Access::Done(()));
    assert_eq!(get_found(Some(&mut graph), c), Access::Done(Ok(12)));
    let zero = leaf_found(Some(&mut graph), 0).done().unwrap();
    let failed = derived_found(Some(&mut graph), formula(|v| v[0].checked_div(v[1])), vec![a, zero]);
    assert!(failed == Access::Done(Err(FateError::ExpressionFailure)));
    assert_eq!(graph.len(), 4);
}

#[test]
fn a_handle_that_the_graph_does_not_hold_leaves_it_as_it_is() {
    let mut large: Graph<i32, Formula> = Graph::new();
    let _ = Fate::from_value(&mut large, 0);
    let stranger = Fate::from_value(&mut large, 1);
    let mut graph: Graph<i32, Formula> = Graph::new();
    let a = Fate::from_value(&mut graph, 1);
    assert_eq!(get_found(Some(&mut graph), stranger), Access::Unknown);
    assert_eq!(cached_found(Some(&graph), stranger), Access::Unknown);
    assert_eq!(is_dirty_found(Some(&graph), stranger), Access::Unknown);
    assert_eq!(bind_value_found(Some(&mut graph), stranger, 5), Access::Unknown);
    assert_eq!(
        bind_expression_found(Some(&mut graph), a, formula(|v| Some(v[0])), vec![stranger]),
        Access::Unknown
    );
    assert_eq!(
        bind_expression_found(Some(&mut graph), stranger, formula(|v| Some(v[0])), vec![a]),
        Access::Unknown
    );
    assert!(derived_found(Some(&mut graph), formula(|v| Some(v[0])), vec![a, stranger]) == Access::Unknown);
    let mut called = false;
    assert_eq!(by_ref_found(Some(&graph), stranger, |_: &i32| called = true), Access::Unknown);
    assert_eq!(by_ref_mut_found(Some(&mut graph), stranger, |_: &mut i32| called = true), Access::Unknown);
    assert!(!called);
    assert_eq!(graph.len(), 1);
    assert!(!a.is_dirty(&graph));
    assert!(a.cell(&graph).dependencies.is_empty());
    assert!(a.cell(&graph).dependents.is_empty());
    assert_eq!(a.get(&mut graph), Ok(1));
}

#[test]
fn a_cached_value_settles_a_read() {
    assert_eq!(settled(Access::Done(Some(4))), Some(Access::Done(Ok(4))));
    assert_eq!(settled(Access::Done(None::<i32>)), None);
    assert_eq!(settled(Access::<Option<i32>>::Busy), None);
    assert_eq!(settled(Access::<Option<i32>>::Unknown), None);
}

#[test]
fn a_derived_cell_without_dependencies_is_never_turned_away() {
    let shared: SharedGraph<i32, Formula> = SharedGraph::new(Graph::new());
    let made = shared.from_expression(formula(|_| Some(11)), vec![]);
    let c = made.done().unwrap().unwrap();
    assert_eq!(shared.get(c), Access::Done(Ok(11)));
}
