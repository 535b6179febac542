use fates::{Fate, FateError, Graph};
use std::cell::Cell;
use std::rc::Rc;

type Formula = Box<dyn Fn(&Vec<i64>) -> Option<i64>>;

fn formula(f: impl Fn(&Vec<i64>) -> Option<i64> + 'static) -> Formula {
    Box::new(f)
}

fn quotient() -> Formula {
    formula(|v: &Vec<i64>| v[0].checked_div(v[1]))
}

fn first_plus(n: i64) -> Formula {
    formula(move |v: &Vec<i64>| Some(v[0] + n))
}

#[test]
fn a_cycle_closed_by_rebinding_is_reported_by_the_read() {
    let mut graph: Graph<i64, Formula> = Graph::new();
    let a = Fate::from_value(&mut graph, 1);
    let b = Fate::from_value(&mut graph, 2);
    let c = Fate::from_expression(&mut graph, first_plus(1), vec![a]).unwrap();
    assert_eq!(c.get(&mut graph), Ok(2));
    c.bind_expression(&mut graph, first_plus(1), vec![b]);
    assert_eq!(c.get(&mut graph), Ok(3));
    b.bind_expression(&mut graph, first_plus(1), vec![c]);
    assert_eq!(c.get(&mut graph), Err(FateError::CycleDetected));
    assert_eq!(b.get(&mut graph), Err(FateError::CycleDetected));
    assert_eq!(a.get(&mut graph), Ok(1));
}

#[test]
fn a_read_that_meets_a_cycle_leaves_the_cells_as_they_were() {
    let mut graph: Graph<i64, Formula> = Graph::new();
    let a = Fate::from_value(&mut graph, 1);
    let b = Fate::from_expression(&mut graph, first_plus(10), vec![a]).unwrap();
    let c = Fate::from_expression(&mut graph, first_plus(100), vec![b]).unwrap();
    assert_eq!(c.get(&mut graph), Ok(111));
    b.bind_expression(&mut graph, first_plus(10), vec![c]);
    assert!(b.is_dirty(&graph) && c.is_dirty(&graph));
    assert_eq!(c.get(&mut graph), Err(FateError::CycleDetected));
    assert!(b.is_dirty(&graph) && c.is_dirty(&graph));
    assert_eq!(b.cell(&graph).cached_value, 11);
    assert_eq!(c.cell(&graph).cached_value, 111);
    assert!(!b.cell(&graph).evaluating);
    assert!(!c.cell(&graph).evaluating);
    assert_eq!(c.get(&mut graph), Err(FateError::CycleDetected));
}

#[test]
fn a_cell_that_depends_on_itself_is_reported() {
    let mut graph: Graph<i64, Formula> = Graph::new();
    let a = Fate::from_value(&mut graph, 1);
    a.bind_expression(&mut graph, first_plus(1), vec![a]);
    assert_eq!(a.cell(&graph).dependencies, vec![0]);
    assert_eq!(a.cell(&graph).dependents, vec![0]);
    assert_eq!(a.get(&mut graph), Err(FateError::CycleDetected));
    assert!(a.is_dirty(&graph));
    a.bind_value(&mut graph, 5);
    assert!(a.cell(&graph).dependents.is_empty());
    assert_eq!(a.get(&mut graph), Ok(5));
}

#[test]
fn a_cycle_is_reported_to_whoever_depends_on_it() {
    let mut graph: Graph<i64, Formula> = Graph::new();
    let a = Fate::from_value(&mut graph, 1);
    let b = Fate::from_expression(&mut graph, first_plus(1), vec![a]).unwrap();
    let reader = Fate::from_expression(&mut graph, first_plus(1), vec![b]).unwrap();
    a.bind_expression(&mut graph, first_plus(1), vec![b]);
    assert_eq!(reader.get(&mut graph), Err(FateError::CycleDetected));
    assert!(reader.is_dirty(&graph));
    let made = Fate::from_expression(&mut graph, first_plus(1), vec![reader]);
    assert!(made == Err(FateError::CycleDetected));
    assert_eq!(graph.len(), 3);
}

#[test]
fn a_broken_cycle_can_be_read_again() {
    let mut graph: Graph<i64, Formula> = Graph::new();
    let a = Fate::from_value(&mut graph, 1);
    let b = Fate::from_expression(&mut graph, first_plus(1), vec![a]).unwrap();
    a.bind_expression(&mut graph, first_plus(1), vec![b]);
    assert_eq!(b.get(&mut graph), Err(FateError::CycleDetected));
    a.bind_value(&mut graph, 40);
    assert_eq!(b.get(&mut graph), Ok(41));
    assert!(!a.is_dirty(&graph) && !b.is_dirty(&graph));
}

#[test]
fn an_expression_without_a_value_makes_no_cell() {
    let mut graph: Graph<i64, Formula> = Graph::new();
    let a = Fate::from_value(&mut graph, 1);
    let zero = Fate::from_value(&mut graph, 0);
    let made = Fate::from_expression(&mut graph, quotient(), vec![a, zero]);
    assert!(made == Err(FateError::ExpressionFailure));
    assert_eq!(graph.len(), 2);
    assert!(a.cell(&graph).dependents.is_empty());
    assert!(zero.cell(&graph).dependents.is_empty());
    let made = Fate::from_expression(&mut graph, quotient(), vec![zero, a]);
    assert!(made.is_ok());
    assert_eq!(made.unwrap().get(&mut graph), Ok(0));
}

#[test]
fn a_read_that_fails_leaves_the_cell_and_tries_again_later() {
    let mut graph: Graph<i64, Formula> = Graph::new();
    let calls = Rc::new(Cell::new(0));
    let counter = calls.clone();
    let a = Fate::from_value(&mut graph, 12);
    let b = Fate::from_value(&mut graph, 4);
    let c = Fate::from_expression(
        &mut graph,
        formula(move |v: &Vec<i64>| {
            counter.set(counter.get() + 1);
            v[0].checked_div(v[1])
        }),
        vec![a, b],
    )
    .unwrap();
    assert_eq!(c.get(&mut graph), Ok(3));
    b.bind_value(&mut graph, 0);
    assert_eq!(c.get(&mut graph), Err(FateError::ExpressionFailure));
    assert!(c.is_dirty(&graph));
    assert_eq!(c.cell(&graph).cached_value, 3);
    assert!(!b.is_dirty(&graph));
    assert_eq!(calls.get(), 2);
    assert_eq!(c.get(&mut graph), Err(FateError::ExpressionFailure));
    assert_eq!(calls.get(), 3);
    b.bind_value(&mut graph, 6);
    assert_eq!(c.get(&mut graph), Ok(2));
    assert_eq!(calls.get(), 4);
    assert!(!c.is_dirty(&graph));
}

#[test]
fn a_failure_below_is_handed_up_unchanged() {
    let mut graph: Graph<i64, Formula> = Graph::new();
    let a = Fate::from_value(&mut graph, 1);
    let b = Fate::from_value(&mut graph, 1);
    let ratio = Fate::from_expression(&mut graph, quotient(), vec![a, b]).unwrap();
    let top = Fate::from_expression(&mut graph, first_plus(1), vec![ratio]).unwrap();
    assert_eq!(top.get(&mut graph), Ok(2));
    b.bind_value(&mut graph, 0);
    assert_eq!(top.get(&mut graph), Err(FateError::ExpressionFailure));
    assert!(top.is_dirty(&graph) && ratio.is_dirty(&graph));
    assert!(!a.is_dirty(&graph) && !b.is_dirty(&graph));
    assert_eq!(top.cell(&graph).cached_value, 2);
    let made = Fate::from_expression(&mut graph, first_plus(1), vec![top]);
    assert!(made == Err(FateError::ExpressionFailure));
    assert_eq!(graph.len(), 4);
}

#[test]
fn the_first_obstacle_in_reading_order_is_the_one_reported() {
    let mut graph: Graph<i64, Formula> = Graph::new();
    let a = Fate::from_value(&mut graph, 1);
    let zero = Fate::from_value(&mut graph, 0);
    let failing = Fate::from_expression(&mut graph, quotient(), vec![zero, a]).unwrap();
    let looping = Fate::from_expression(&mut graph, first_plus(1), vec![a]).unwrap();
    let one = Fate::from_expression(
        &mut graph,
        formula(|v| Some(v[0] + v[1])),
        vec![failing, looping],
    )
    .unwrap();
    let other = Fate::from_expression(
        &mut graph,
        formula(|v| Some(v[0] + v[1])),
        vec![looping, failing],
    )
    .unwrap();
    failing.bind_expression(&mut graph, quotient(), vec![a, zero]);
    looping.bind_expression(&mut graph, first_plus(1), vec![looping]);
    assert_eq!(one.get(&mut graph), Err(FateError::ExpressionFailure));
    assert_eq!(other.get(&mut graph), Err(FateError::CycleDetected));
}
