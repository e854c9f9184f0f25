use std::rc::Rc;

use skog::{Forest, ForestEdge};

fn render(f: &Forest<(char, Rc<()>)>) -> String {
    let mut out = String::new();
    let mut cur = f.begin();
    while cur != f.end() {
        let value = cur.current().unwrap().0;
        match cur.edge() {
            ForestEdge::Leading => out.push_str(&format!("<{}>", value)),
            ForestEdge::Trailing => out.push_str(&format!("</{}>", value)),
        }
        cur.move_next();
    }
    out
}

#[test]
fn big_test_forest() {
    let mut data = Rc::new(());

    let mut c = Forest::new();
    let mut cur = c.end_mut();
    cur.insert_and_move(('C', data.clone()));
    cur.trailing_of();

    cur.insert(('F', data.clone()));
    cur.insert(('G', data.clone()));
    cur.insert(('H', data.clone()));

    let mut d = Forest::new();
    let mut cur = d.end_mut();
    cur.insert_and_move(('D', data.clone()));
    cur.trailing_of();

    cur.insert(('I', data.clone()));
    cur.insert(('J', data.clone()));
    cur.insert(('K', data.clone()));

    let mut e = Forest::new();
    let mut cur = e.end_mut();
    cur.insert_and_move(('E', data.clone()));

    let mut b = Forest::new();
    let mut cur = b.end_mut();
    cur.insert_and_move(('B', data.clone()));
    cur.trailing_of();

    cur.splice(c);
    cur.splice(d);
    cur.splice(e);

    let mut a = Forest::new();
    let mut cur = a.end_mut();
    cur.insert_and_move(('A', data.clone()));
    cur.trailing_of();

    cur.splice(b);

    println!("{}", render(&a));

    assert_eq!(a.size(), 11);

    let mut cur = a.begin();
    assert_eq!(cur.current().map(|(c, _)| c), Some(&'A'));

    cur.move_next();
    assert_eq!(cur.current().map(|(c, _)| c), Some(&'B'));

    cur.move_next();
    assert_eq!(cur.current().map(|(c, _)| c), Some(&'C'));

    cur.move_next();
    assert_eq!(cur.current().map(|(c, _)| c), Some(&'F'));
    cur.move_next();
    assert_eq!(cur.current().map(|(c, _)| c), Some(&'F'));
    cur.move_next();
    assert_eq!(cur.current().map(|(c, _)| c), Some(&'G'));
    cur.move_next();
    assert_eq!(cur.current().map(|(c, _)| c), Some(&'G'));
    cur.move_next();
    assert_eq!(cur.current().map(|(c, _)| c), Some(&'H'));
    cur.move_next();
    assert_eq!(cur.current().map(|(c, _)| c), Some(&'H'));

    cur.move_next();
    assert_eq!(cur.current().map(|(c, _)| c), Some(&'C'));

    cur.move_next();
    assert_eq!(cur.current().map(|(c, _)| c), Some(&'D'));

    cur.move_next();
    assert_eq!(cur.current().map(|(c, _)| c), Some(&'I'));
    cur.move_next();
    assert_eq!(cur.current().map(|(c, _)| c), Some(&'I'));
    cur.move_next();
    assert_eq!(cur.current().map(|(c, _)| c), Some(&'J'));
    cur.move_next();
    assert_eq!(cur.current().map(|(c, _)| c), Some(&'J'));
    cur.move_next();
    assert_eq!(cur.current().map(|(c, _)| c), Some(&'K'));
    cur.move_next();
    assert_eq!(cur.current().map(|(c, _)| c), Some(&'K'));

    cur.move_next();
    assert_eq!(cur.current().map(|(c, _)| c), Some(&'D'));

    cur.move_next();
    assert_eq!(cur.current().map(|(c, _)| c), Some(&'E'));
    cur.move_next();
    assert_eq!(cur.current().map(|(c, _)| c), Some(&'E'));

    cur.move_next();
    assert_eq!(cur.current().map(|(c, _)| c), Some(&'B'));

    cur.move_next();
    assert_eq!(cur.current().map(|(c, _)| c), Some(&'A'));

    cur.move_next();
    assert_eq!(cur, a.end());

    a.clear();
    assert!(a.empty());

    assert!(Rc::get_mut(&mut data).is_some());
}
