use fates::{Fate, FateError, Graph};

type Formula<T> = Box<dyn Fn(&Vec<T>) -> Option<T>>;

fn formula<T: 'static>(f: impl Fn(&Vec<T>) -> Option<T> + 'static) -> Formula<T> {
    Box::new(f)
}

#[derive(Clone, Debug, PartialEq)]
enum Mixed {
    Text(String),
    Number(i32),
}

fn text(value: &Mixed) -> Option<String> {
    match value {
        Mixed::Text(text) => Some(text.clone()),
        Mixed::Number(_) => None,
    }
}

fn number(value: &Mixed) -> Option<i32> {
    match value {
        Mixed::Number(number) => Some(*number),
        Mixed::Text(_) => None,
    }
}

#[test]
fn simple() {
    let mut graph: Graph<i32, Formula<i32>> = Graph::new();
    let a = Fate::from_value(&mut graph, 3);
    let b = Fate::from_value(&mut graph, 5);
    let c = Fate::from_expression(
        &mut graph,
        formula(|v: &Vec<i32>| Some(v[0] + v[1])),
        vec![a.clone(), b.clone()],
    )
    .unwrap();
    assert_eq!(c.get(&mut graph), Ok(8));
    b.bind_value(&mut graph, 100);
    assert_eq!(c.get(&mut graph), Ok(103));
}

#[test]
fn less_simple() {
    let mut graph: Graph<i32, Formula<i32>> = Graph::new();
    let a = Fate::from_value(&mut graph, 10);
    let b = Fate::from_value(&mut graph, 23);
    let c = Fate::from_expression(
        &mut graph,
        formula(|v: &Vec<i32>| Some(v[0] + v[1] * v[1])),
        vec![a.clone(), b.clone()],
    )
    .unwrap();
    assert_eq!(c.get(&mut graph), Ok(10 + 23 * 23));
    b.bind_value(&mut graph, 113);
    assert_eq!(c.get(&mut graph), Ok(10 + 113 * 113));

    let d = Fate::from_expression(
        &mut graph,
        formula(|v: &Vec<i32>| Some(v[0] * v[1])),
        vec![c.clone(), a.clone()],
    )
    .unwrap();

    assert_eq!(d.get(&mut graph), Ok((10 + 113 * 113) * 10));

    let e = Fate::from_value(&mut graph, 2);
    c.bind_expression(
        &mut graph,
        formula(|v: &Vec<i32>| Some(v[0] * v[1] / v[2])),
        vec![a.clone(), b.clone(), e.clone()],
    );
    assert_eq!(c.get(&mut graph), Ok(10 * 113 / 2));
}

#[test]
fn chain() {
    let mut graph: Graph<String, Formula<String>> = Graph::new();
    let a = Fate::from_value(&mut graph, "a".to_string());
    let b = Fate::from_expression(
        &mut graph,
        formula(|v: &Vec<String>| Some("b".to_string() + &v[0])),
        vec![a.clone()],
    )
    .unwrap();
    let c = Fate::from_expression(
        &mut graph,
        formula(|v: &Vec<String>| Some("c".to_string() + &v[0])),
        vec![b.clone()],
    )
    .unwrap();

    assert_eq!(c.get(&mut graph).unwrap(), "cba");
    a.bind_value(&mut graph, "c".to_string());
    assert_eq!(c.get(&mut graph).unwrap(), "cbc");
}

#[test]
fn macro_simple_test() {
    let a = 5;
    let b = a * 5;
    let c = a * b;
    let mut graph: Graph<i32, Formula<i32>> = Graph::new();
    let a2 = Fate::from_value(&mut graph, 5);
    let b2 = Fate::from_expression(
        &mut graph,
        formula(|v: &Vec<i32>| Some(v[0] * 5)),
        vec![a2.clone()],
    )
    .unwrap();
    let c2 = Fate::from_expression(
        &mut graph,
        formula(|v: &Vec<i32>| Some(v[0] * v[1])),
        vec![a2.clone(), b2.clone()],
    )
    .unwrap();
    assert_eq!(a, a2.get(&mut graph).unwrap());
    assert_eq!(b, b2.get(&mut graph).unwrap());
    assert_eq!(c, c2.get(&mut graph).unwrap());

    let a = 7;
    let b = a * 5;
    let c = a * b;

    a2.bind_value(&mut graph, 7);
    assert_eq!(a, a2.get(&mut graph).unwrap());
    assert_eq!(b, b2.get(&mut graph).unwrap());
    assert_eq!(c, c2.get(&mut graph).unwrap());
}

#[test]
fn value_capture_test() {
    let a = 5;
    let b = 10;
    let mut graph: Graph<i32, Formula<i32>> = Graph::new();
    let c = Fate::from_value(&mut graph, 15);
    let d = Fate::from_value(&mut graph, a + b);
    let e = Fate::from_expression(
        &mut graph,
        formula(|v: &Vec<i32>| Some(v[0] * v[1])),
        vec![c.clone(), d.clone()],
    )
    .unwrap();

    assert_eq!(c.get(&mut graph), d.get(&mut graph));
    let product = c.get(&mut graph).unwrap() * d.get(&mut graph).unwrap();
    assert_eq!(e.get(&mut graph).unwrap(), product);

    c.bind_value(&mut graph, a + b);
    assert_eq!(c.get(&mut graph).unwrap(), a + b);
    let product = c.get(&mut graph).unwrap() * d.get(&mut graph).unwrap();
    assert_eq!(e.get(&mut graph).unwrap(), product);
}

#[test]
fn explicit_fate_test() {
    struct TestStruct {
        fate: Fate<i32>,
    }
    let mut graph: Graph<i32, Formula<i32>> = Graph::new();
    let a = Fate::from_value(&mut graph, 10);
    let test_struct = TestStruct { fate: a.clone() };
    assert_eq!(a.get(&mut graph).unwrap(), 10);
    a.bind_value(&mut graph, 15);
    assert_eq!(test_struct.fate.get(&mut graph).unwrap(), 15);
}

#[test]
fn mix_types_test() {
    let mut graph: Graph<Mixed, Formula<Mixed>> = Graph::new();
    let a = Fate::from_value(&mut graph, Mixed::Text("String".to_string()));
    let b = Fate::from_value(&mut graph, Mixed::Number(10));
    let c = Fate::from_expression(
        &mut graph,
        formula(|v: &Vec<Mixed>| {
            Some(Mixed::Text(text(&v[0])? + " " + &number(&v[1])?.to_string()))
        }),
        vec![a.clone(), b.clone()],
    )
    .unwrap();

    assert_eq!(c.get(&mut graph).unwrap(), Mixed::Text("String 10".to_string()));

    a.bind_value(&mut graph, Mixed::Text("String2".to_string()));
    b.bind_value(&mut graph, Mixed::Number(100));

    assert_eq!(c.get(&mut graph).unwrap(), Mixed::Text("String2 100".to_string()));
}

#[test]
fn ref_test() {
    let mut graph: Graph<Vec<i32>, Formula<Vec<i32>>> = Graph::new();
    let a = Fate::from_value(&mut graph, vec![1, 2, 3]);
    assert_eq!(a.get(&mut graph).unwrap(), vec![1, 2, 3]);

    a.by_ref_mut(&mut graph, |a: &mut Vec<i32>| a.push(4));
    assert_eq!(a.get(&mut graph).unwrap(), vec![1, 2, 3, 4]);

    let mut val = 2;
    a.by_ref(&graph, |a: &Vec<i32>| val = a[2]);
    assert_eq!(val, 3);
}

#[test]
fn string_example_test() {
    let mut graph: Graph<String, Formula<String>> = Graph::new();
    let name = Fate::from_value(&mut graph, "Alex".to_string());
    let hello = Fate::from_expression(
        &mut graph,
        formula(|v: &Vec<String>| Some("Hello, ".to_string() + &v[0])),
        vec![name.clone()],
    )
    .unwrap();
    let goodbye = Fate::from_expression(
        &mut graph,
        formula(|v: &Vec<String>| Some("Goodbye, ".to_string() + &v[0])),
        vec![name.clone()],
    )
    .unwrap();
    assert_eq!(&hello.get(&mut graph).unwrap(), "Hello, Alex");
    assert_eq!(&goodbye.get(&mut graph).unwrap(), "Goodbye, Alex");

    name.bind_value(&mut graph, "Sam".to_string());
    assert_eq!(&hello.get(&mut graph).unwrap(), "Hello, Sam");
    assert_eq!(&goodbye.get(&mut graph).unwrap(), "Goodbye, Sam");
}

#[test]
fn circular_reference() {
    let mut graph: Graph<i32, Formula<i32>> = Graph::new();
    let a = Fate::from_value(&mut graph, 3);
    let b = Fate::from_value(&mut graph, 5);
    let c = Fate::from_expression(
        &mut graph,
        formula(|v: &Vec<i32>| Some(v[0] + v[1])),
        vec![a.clone(), b.clone()],
    )
    .unwrap();
    b.bind_expression(
        &mut graph,
        formula(|v: &Vec<i32>| Some(v[0] + v[1])),
        vec![a.clone(), c.clone()],
    );
    assert_eq!(b.get(&mut graph), Err(FateError::CycleDetected));
    assert_eq!(c.get(&mut graph), Err(FateError::CycleDetected));
    assert_eq!(a.get(&mut graph), Ok(3));
}
