use std::borrow::Cow;
use std::collections::BTreeSet;
use std::sync::Mutex;

#[derive(Debug)]
enum Foo {
    A,
    B(Bar),
    D { x: u8, y: usize },
}

#[derive(Debug)]
#[allow(dead_code)]
struct Bar {
    i: usize,
    j: usize,
}

#[test]
pub fn mute_some_xxx() {
    let a = Mutex::new(42);

    let ax = *a.lock().unwrap();
    println!("{ax}");

    let ay = a.try_lock().unwrap();

    println!("{ay}");
}

#[test]
pub fn test_cow() {
    let mut a = "Hello ".to_string();

    let mut x = Cow::from(&a);
    println!("{x}");

    x.to_mut().push_str("HIHIHI!");

    println!("{x}");

    a.push_str("WORLD!");

    println!("{a}");
}

#[test]
fn example1() {
    let a = Foo::A;

    if let Foo::A = a {
        println!("Foo: {a:#?}")
    }
}

#[test]
fn example2() {
    let b = Foo::B(Bar { i: 42, j: 142 });

    if let Foo::B(bar) = b {
        println!("Bar: {bar:#?}")
    }
}

#[test]
fn example3() {
    let d = Foo::D { x: 42, y: 142 };

    if let Foo::D { x, y } = d {
        println!("D {{ x: {x}, y: {y} }}");
    }

    let d = Foo::D { x: 42, y: 142 };
    (if let Foo::D { x, y } = d {
        Some((x, y))
    } else {
        None
    })
    .map(|(x, y)| println!("D {{ x: {x}, y: {y} }}"));
}

#[test]
fn test_hashset() {
    let mut set = BTreeSet::new();

    set.insert(vec![1, 2, 3]);
    set.insert(vec![3, 2, 1]);

    for item in set {
        println!("{item:?}");
    }
}
