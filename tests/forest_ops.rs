use std::rc::Rc;

use skog::{is_leading, is_trailing, pivot, Cursor, EdgeCursor, Forest, ForestEdge, RawCursor};
use ForestEdge::{Leading as L, Trailing as T};

fn walk(f: &Forest<&'static str>) -> Vec<(&'static str, ForestEdge)> {
    let mut out = Vec::new();
    let mut cur = f.begin();
    while cur != f.end() {
        out.push((*cur.current().unwrap(), cur.edge()));
        cur.move_next();
    }
    out
}

fn tags(f: &Forest<&'static str>) -> String {
    let mut out = String::new();
    for (v, e) in walk(f) {
        match e {
            ForestEdge::Leading => out.push_str(&format!("<{}>", v)),
            ForestEdge::Trailing => out.push_str(&format!("</{}>", v)),
        }
    }
    out
}

fn leaves(names: &[&'static str]) -> Forest<&'static str> {
    let mut f = Forest::new();
    let mut cur = f.end_mut();
    for n in names {
        cur.insert(*n);
    }
    f
}

// A containing B (a leaf) and C, which contains D.
fn abcd() -> Forest<&'static str> {
    let mut f = Forest::new();
    let mut cur = f.end_mut();
    cur.insert_and_move("A");
    cur.trailing_of();
    cur.insert("B");
    cur.insert_and_move("C");
    cur.trailing_of();
    cur.insert("D");
    f
}

#[test]
fn nested_scenario_walk_and_size() {
    let mut f = abcd();
    assert_eq!(
        walk(&f),
        vec![("A", L), ("B", L), ("B", T), ("C", L), ("D", L), ("D", T), ("C", T), ("A", T)]
    );
    assert_eq!(f.size(), 4);
    assert_eq!(tags(&f), "<A><B></B><C><D></D></C></A>");
}

#[test]
fn splice_three_siblings_under_root() {
    let mut b = Forest::new();
    let mut cur = b.end_mut();
    cur.insert_and_move("B");
    cur.trailing_of();
    let mut src = leaves(&["F", "G", "H"]);
    assert_eq!(src.size(), 3);
    let before = cur.size();
    cur.splice(src);
    assert_eq!(cur.size(), before + 3);
    assert_eq!(cur.edge(), ForestEdge::Trailing);
    assert_eq!(b.size(), 4);
    assert_eq!(tags(&b), "<B><F></F><G></G><H></H></B>");
}

#[test]
fn splice_keeps_order_around_cursor() {
    let mut b = leaves(&["X", "Y"]);
    let a = leaves(&["P", "Q"]);
    let mut cur = b.begin_mut();
    cur.move_next();
    cur.move_next();
    assert_eq!(cur.current().map(|v| *v), Some("Y"));
    cur.splice_and_move(a);
    assert_eq!(cur.current().map(|v| *v), Some("P"));
    assert_eq!(cur.edge(), ForestEdge::Leading);
    assert_eq!(tags(&b), "<X></X><P></P><Q></Q><Y></Y>");
    assert_eq!(b.size(), 4);
}

#[test]
fn splice_of_empty_forest_changes_nothing() {
    let mut b = leaves(&["X"]);
    let mut cur = b.end_mut();
    cur.splice_and_move(Forest::new());
    assert_eq!(cur.current().map(|v| *v), None);
    assert_eq!(cur.edge(), ForestEdge::Trailing);
    assert_eq!(tags(&b), "<X></X>");
    assert_eq!(b.size(), 1);
}

#[test]
fn remove_node_lifts_children() {
    let mut f = abcd();
    let mut cur = f.begin_mut();
    cur.move_next();
    cur.move_next();
    cur.move_next();
    assert_eq!(cur.current().map(|v| *v), Some("C"));
    cur.remove();
    assert_eq!(cur.current().map(|v| *v), Some("D"));
    assert_eq!(cur.edge(), ForestEdge::Leading);
    assert_eq!(tags(&f), "<A><B></B><D></D></A>");
    assert_eq!(f.size(), 3);
}

#[test]
fn remove_leaf_joins_neighbours() {
    let mut f = abcd();
    let mut cur = f.begin_mut();
    cur.move_next();
    assert_eq!(cur.current().map(|v| *v), Some("B"));
    cur.remove();
    assert_eq!(cur.current().map(|v| *v), Some("C"));
    assert_eq!(cur.edge(), ForestEdge::Leading);
    assert_eq!(tags(&f), "<A><C><D></D></C></A>");
    assert_eq!(f.size(), 3);
}

#[test]
fn remove_from_trailing_edge_goes_on_after_it() {
    let mut f = abcd();
    let mut cur = f.begin_mut();
    cur.move_next();
    cur.trailing_of();
    cur.remove();
    assert_eq!(cur.current().map(|v| *v), Some("C"));
    assert_eq!(cur.edge(), ForestEdge::Leading);
    let mut g = abcd();
    let mut cur = g.begin_mut();
    cur.trailing_of();
    cur.remove();
    assert_eq!(cur.current().map(|v| *v), None);
    assert_eq!(tags(&g), "<B></B><C><D></D></C>");
}

#[test]
fn begin_is_end_exactly_when_empty() {
    let mut f: Forest<&'static str> = Forest::new();
    assert!(f.begin() == f.end());
    assert!(f.empty());
    assert_eq!(f.size(), 0);
    let mut cur = f.end_mut();
    cur.insert("A");
    assert!(!cur.empty());
    assert!(f.begin() != f.end());
    assert!(!f.empty());
    assert!(f.root() != f.end());
    let mut a = f.begin();
    let b = f.begin();
    assert!(a == b);
    a.trailing_of();
    assert!(a != b);
}

#[test]
fn clear_drops_every_payload_once() {
    let data = Rc::new(());
    let mut f = Forest::new();
    let mut cur = f.end_mut();
    cur.insert_and_move(data.clone());
    cur.trailing_of();
    cur.insert(data.clone());
    cur.insert_and_move(data.clone());
    cur.trailing_of();
    cur.insert(data.clone());
    assert_eq!(Rc::strong_count(&data), 5);
    assert_eq!(f.size(), 4);
    f.clear();
    assert!(f.empty());
    assert_eq!(f.size(), 0);
    assert_eq!(Rc::strong_count(&data), 1);
    let mut cur = f.end_mut();
    cur.insert(data.clone());
    assert_eq!(f.size(), 1);
    drop(f);
    assert_eq!(Rc::strong_count(&data), 1);
}

#[test]
fn remove_drops_the_payload() {
    let data = Rc::new(());
    let mut f = Forest::new();
    let mut cur = f.end_mut();
    cur.insert(data.clone());
    cur.insert(data.clone());
    assert_eq!(Rc::strong_count(&data), 3);
    let mut cur = f.begin_mut();
    cur.remove();
    assert_eq!(Rc::strong_count(&data), 2);
    assert_eq!(f.size(), 1);
}

#[test]
fn edge_cursors_give_pre_and_post_order() {
    let f = abcd();
    let mut it = EdgeCursor::new(ForestEdge::Leading, f.begin()).into_iter();
    let mut pre = Vec::new();
    while let Some(v) = it.next() {
        pre.push(*v);
    }
    assert_eq!(pre, vec!["A", "B", "C", "D"]);

    let mut start: Cursor<&'static str> = f.begin();
    start.find_edge(ForestEdge::Trailing);
    let mut it = EdgeCursor::new(ForestEdge::Trailing, start).into_iter();
    let mut post = Vec::new();
    while let Some(v) = it.next() {
        post.push(*v);
    }
    assert_eq!(post, vec!["B", "D", "C", "A"]);
}

#[test]
fn edge_cursor_steps_back() {
    let f = abcd();
    let mut c = EdgeCursor::new(ForestEdge::Leading, f.end());
    c.move_prev();
    assert_eq!(c.current().map(|v| *v), Some("D"));
    c.move_prev();
    assert_eq!(c.current().map(|v| *v), Some("C"));
    let mut d = f.end();
    d.find_edge_reverse(ForestEdge::Leading);
    assert_eq!(d.current().map(|v| *v), Some("D"));
}

#[test]
fn walking_stops_at_end_and_root() {
    let f = abcd();
    let mut c = f.end();
    c.move_prev();
    assert_eq!(c.current().map(|v| *v), Some("A"));
    assert_eq!(c.edge(), ForestEdge::Trailing);
    c.find_edge(ForestEdge::Leading);
    assert!(c == f.end());
    let mut d = f.begin();
    d.find_edge_reverse(ForestEdge::Trailing);
    assert!(d == f.root());
    assert_eq!(d.current(), None);
    let mut e = EdgeCursor::new(ForestEdge::Leading, f.begin());
    e.move_next();
    e.move_next();
    e.move_next();
    assert_eq!(e.current().map(|v| *v), Some("D"));
    e.move_next();
    assert!(e.at_end());
    let mut it = e.into_iter();
    assert_eq!(it.next(), None);
    assert_eq!(it.next(), None);
}

#[test]
fn current_can_change_the_payload() {
    let mut f = leaves(&["X"]);
    let mut cur = f.begin_mut();
    if let Some(v) = cur.current() {
        *v = "Z";
    }
    cur.move_prev();
    assert!(cur.current().is_none());
    assert_eq!(tags(&f), "<Z></Z>");
}

#[test]
fn insert_in_the_middle_and_move() {
    let mut f = leaves(&["X", "Y"]);
    let mut cur = f.begin_mut();
    cur.trailing_of();
    cur.insert_and_move("W");
    assert_eq!(cur.current().map(|v| *v), Some("W"));
    assert_eq!(cur.edge(), ForestEdge::Leading);
    assert_eq!(tags(&f), "<X><W></W></X><Y></Y>");
    assert_eq!(f.size(), 3);
    assert!(f.size_valid());
}

#[test]
fn edges_flip_and_convert() {
    assert_eq!(pivot(ForestEdge::Leading), ForestEdge::Trailing);
    assert_eq!(pivot(ForestEdge::Trailing), ForestEdge::Leading);
    assert!(is_leading(ForestEdge::Leading));
    assert!(!is_leading(ForestEdge::Trailing));
    assert!(is_trailing(ForestEdge::Trailing));
    assert!(!is_trailing(ForestEdge::Leading));
    assert_eq!(ForestEdge::from(true), ForestEdge::Leading);
    assert_eq!(ForestEdge::from(false), ForestEdge::Trailing);
}

#[test]
fn root_cursor_moves_to_begin() {
    let f = abcd();
    let mut r = f.root();
    assert_eq!(r.edge(), ForestEdge::Leading);
    r.move_next();
    assert!(r == f.begin());
    let mut e = f.end();
    e.leading_of();
    assert!(e == f.root());
}

#[test]
fn erase_range_steps_past_an_outer_exit() {
    let mut f = Forest::new();
    let mut cur = f.end_mut();
    cur.insert_and_move("A");
    cur.trailing_of();
    cur.insert("B");
    cur.insert("C");
    let mut cur = f.end_mut();
    cur.insert("D");
    assert_eq!(tags(&f), "<A><B></B><C></C></A><D></D>");
    let first = RawCursor::new(2, ForestEdge::Leading);
    let last = RawCursor::new(4, ForestEdge::Leading);
    let r = f.erase_range(first, last);
    assert_eq!(r, last);
    assert_eq!(tags(&f), "<A></A><D></D>");
    assert_eq!(f.size(), 2);
    f.clear();
    f.clear();
    assert!(f.empty());
    let mut root = f.root();
    root.move_next();
    assert!(root == f.end());
}
