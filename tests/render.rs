use leptos_reconcile::render::{
    insert_expression, insert_str, reconcile_arrays, same_child, Child, DomOp, Marker, Node, TreeFacts,
};

fn el(id: u64) -> Node {
    Node { id, is_text: false }
}

fn text(id: u64) -> Node {
    Node { id, is_text: true }
}

fn facts() -> TreeFacts {
    TreeFacts {
        marker_connected: true,
        first_child: None,
        first_attached: true,
        after_current: None,
        fresh_id: 100,
    }
}

/// Replays removals and end insertions on the ids of a region.
fn replay(region: &[u64], ops: &[DomOp]) -> Vec<u64> {
    let mut r: Vec<u64> = region.to_vec();
    for op in ops {
        match op {
            DomOp::Remove(n) | DomOp::RemoveChild(n) => r.retain(|x| *x != n.id),
            DomOp::InsertBefore(n, _) => {
                r.retain(|x| *x != n.id);
                r.push(n.id);
            }
            _ => panic!("unexpected op {:?}", op),
        }
    }
    r
}

#[test]
fn equal_values_need_no_mutation() {
    let v = Child::Nodes(vec![el(1), el(2)]);
    let p = insert_expression(&v, v.clone(), &Marker::LastChild, &facts());
    assert!(p.ops.is_empty());
    assert_eq!(p.state, v);
}

#[test]
fn second_patch_with_same_value_is_silent() {
    let values = vec![
        (Child::Text("hello".to_string()), Marker::NoChildren),
        (Child::Node(el(3)), Marker::LastChild),
        (Child::Nodes(vec![el(4), el(5)]), Marker::BeforeChild(el(9))),
        (Child::Null, Marker::NoChildren),
        (Child::Text("hello".to_string()), Marker::LastChild),
        (Child::Null, Marker::BeforeChild(el(9))),
        (Child::Nodes(vec![]), Marker::LastChild),
        (Child::Nodes(vec![]), Marker::NoChildren),
    ];
    for (v, marker) in values {
        let first = insert_expression(&v, Child::Nodes(vec![el(1), el(2)]), &marker, &facts());
        assert!(!first.ops.is_empty());
        let second = insert_expression(&v, first.state, &marker, &facts());
        assert!(second.ops.is_empty());
    }
}

#[test]
fn text_node_data_changes_in_place() {
    let n = text(7);
    let p = insert_expression(
        &Child::Text("bar".to_string()),
        Child::Node(n),
        &Marker::LastChild,
        &facts(),
    );
    assert_eq!(p.ops, vec![DomOp::SetData(n, "bar".to_string())]);
    assert_eq!(p.state, Child::TextNode(n, "bar".to_string()));
    let again = insert_expression(
        &Child::Text("baz".to_string()),
        p.state,
        &Marker::LastChild,
        &facts(),
    );
    assert_eq!(again.ops, vec![DomOp::SetData(n, "baz".to_string())]);
    assert_eq!(again.state, Child::TextNode(n, "baz".to_string()));
}

#[test]
fn parent_text_changes_in_place() {
    let n = text(7);
    let f = TreeFacts { first_child: Some(n), ..facts() };
    let p = insert_expression(
        &Child::Text("bar".to_string()),
        Child::Text("foo".to_string()),
        &Marker::NoChildren,
        &f,
    );
    assert_eq!(p.ops, vec![DomOp::SetData(n, "bar".to_string())]);
    assert_eq!(p.state, Child::Text("bar".to_string()));
}

#[test]
fn text_over_element_creates_a_text_node() {
    let p = insert_str(&"hi".to_string(), &Marker::LastChild, Child::Node(el(3)), &facts());
    let t = text(100);
    assert_eq!(
        p.ops,
        vec![DomOp::CreateText(t, "hi".to_string()), DomOp::ReplaceChild(t, el(3))]
    );
    assert_eq!(p.state, Child::TextNode(t, "hi".to_string()));
}

#[test]
fn text_over_list_reuses_leading_text_node() {
    let t = text(1);
    let p = insert_str(
        &"x".to_string(),
        &Marker::LastChild,
        Child::Nodes(vec![t, el(2), el(3)]),
        &facts(),
    );
    assert_eq!(
        p.ops,
        vec![
            DomOp::SetData(t, "x".to_string()),
            DomOp::Remove(el(2)),
            DomOp::Remove(el(3)),
        ]
    );
    assert_eq!(p.state, Child::TextNode(t, "x".to_string()));
}

#[test]
fn clearing_a_whole_parent_wipes_its_content() {
    let p = insert_expression(
        &Child::Nodes(vec![]),
        Child::Nodes(vec![el(1), el(2), el(3)]),
        &Marker::NoChildren,
        &facts(),
    );
    assert_eq!(p.ops, vec![DomOp::SetTextContent(String::new())]);
    assert_eq!(p.state, Child::Null);
}

#[test]
fn clearing_before_a_marker_removes_the_region() {
    let m = el(50);
    let f = TreeFacts { first_attached: true, ..facts() };
    let p = insert_expression(
        &Child::Null,
        Child::Nodes(vec![el(1), el(2), el(3)]),
        &Marker::BeforeChild(m),
        &f,
    );
    assert_eq!(
        p.ops,
        vec![DomOp::Remove(el(1)), DomOp::Remove(el(2)), DomOp::Remove(el(3))]
    );
    assert_eq!(p.state, Child::Null);
}

#[test]
fn absent_removes_a_single_node() {
    let p = insert_expression(&Child::Null, Child::Node(el(4)), &Marker::LastChild, &facts());
    assert_eq!(p.ops, vec![DomOp::RemoveChild(el(4))]);
    assert_eq!(p.state, Child::Null);
}

#[test]
fn node_goes_before_a_connected_marker() {
    let m = el(50);
    let p = insert_expression(&Child::Node(el(4)), Child::Null, &Marker::BeforeChild(m), &facts());
    assert_eq!(p.ops, vec![DomOp::InsertBefore(el(4), Some(m))]);
    let f = TreeFacts { marker_connected: false, ..facts() };
    let p = insert_expression(&Child::Node(el(4)), Child::Null, &Marker::BeforeChild(m), &f);
    assert_eq!(p.ops, vec![DomOp::AppendChild(el(4))]);
}

#[test]
fn node_replaces_node() {
    let p = insert_expression(&Child::Node(el(5)), Child::Node(el(4)), &Marker::LastChild, &facts());
    assert_eq!(p.ops, vec![DomOp::ReplaceWith(el(4), el(5))]);
    assert_eq!(p.state, Child::Node(el(5)));
}

#[test]
fn node_over_list_in_whole_parent() {
    let p = insert_expression(
        &Child::Node(el(5)),
        Child::Nodes(vec![el(1), el(2)]),
        &Marker::NoChildren,
        &facts(),
    );
    assert_eq!(
        p.ops,
        vec![DomOp::SetTextContent(String::new()), DomOp::AppendChild(el(5))]
    );
    assert_eq!(p.state, Child::Node(el(5)));
}

#[test]
fn list_replaces_single_node() {
    let m = el(50);
    let p = insert_expression(
        &Child::Nodes(vec![el(1), el(2)]),
        Child::Node(el(9)),
        &Marker::BeforeChild(m),
        &facts(),
    );
    assert_eq!(
        p.ops,
        vec![
            DomOp::RemoveChild(el(9)),
            DomOp::InsertBefore(el(1), Some(m)),
            DomOp::InsertBefore(el(2), Some(m)),
        ]
    );
    assert_eq!(p.state, Child::Nodes(vec![el(1), el(2)]));
}

#[test]
fn list_reorder_matches_new_order() {
    let cur = vec![el(1), el(2), el(3), el(4)];
    let new = vec![el(3), el(1), el(5), el(2)];
    let f = TreeFacts { after_current: Some(el(60)), ..facts() };
    let p = insert_expression(&Child::Nodes(new.clone()), Child::Nodes(cur), &Marker::LastChild, &f);
    assert_eq!(p.ops[0], DomOp::Remove(el(4)));
    assert_eq!(p.ops.len(), 5);
    assert_eq!(replay(&[1, 2, 3, 4], &p.ops), vec![3, 1, 5, 2]);
    assert_eq!(p.state, Child::Nodes(new));
}

#[test]
fn reconcile_keeps_shared_nodes() {
    let ops = reconcile_arrays(&vec![el(1), el(2), el(3)], &vec![el(3), el(1), el(2)], None);
    assert!(ops.iter().all(|o| matches!(o, DomOp::InsertBefore(_, None))));
    assert_eq!(replay(&[1, 2, 3], &ops), vec![3, 1, 2]);
}

#[test]
fn same_child_compares_values() {
    assert!(same_child(&Child::Text("a".to_string()), &Child::Text("a".to_string())));
    assert!(!same_child(&Child::Text("a".to_string()), &Child::Text("b".to_string())));
    assert!(!same_child(&Child::Nodes(vec![el(1)]), &Child::Nodes(vec![el(2)])));
    assert!(!same_child(&Child::Null, &Child::Nodes(vec![])));
    assert!(same_child(&Child::Null, &Child::Null));
}

#[test]
fn shared_leading_run_stays_in_place() {
    let after = Some(el(60));
    let ops = reconcile_arrays(&vec![el(1), el(2)], &vec![el(1), el(2), el(3)], after);
    assert_eq!(ops, vec![DomOp::InsertBefore(el(3), after)]);

    let ops = reconcile_arrays(&vec![el(1), el(2), el(3)], &vec![el(1), el(3)], after);
    assert_eq!(ops, vec![DomOp::Remove(el(2)), DomOp::InsertBefore(el(3), after)]);
    assert_eq!(replay(&[1, 2, 3], &ops), vec![1, 3]);
}

#[test]
fn empty_list_acts_as_absent() {
    let m = Marker::BeforeChild(el(50));
    let a = insert_expression(&Child::Nodes(vec![]), Child::Node(el(4)), &m, &facts());
    let b = insert_expression(&Child::Null, Child::Node(el(4)), &m, &facts());
    assert_eq!(a.ops, vec![DomOp::RemoveChild(el(4))]);
    assert_eq!(a.ops, b.ops);
    assert_eq!(a.state, Child::Null);
    assert_eq!(b.state, Child::Null);
}

#[test]
fn text_under_marker_over_nothing_is_placed_before_it() {
    let m = el(50);
    let p = insert_expression(&Child::Text(String::new()), Child::Null, &Marker::BeforeChild(m), &facts());
    let t = text(100);
    assert_eq!(
        p.ops,
        vec![DomOp::CreateText(t, String::new()), DomOp::InsertBefore(t, Some(m))]
    );
    let again = insert_expression(&Child::Text(String::new()), p.state, &Marker::BeforeChild(m), &facts());
    assert!(again.ops.is_empty());
}

#[test]
fn node_over_parent_text_replaces_that_text() {
    let c = text(7);
    let f = TreeFacts { first_child: Some(c), ..facts() };
    let p = insert_expression(&Child::Node(el(5)), Child::Text("t".to_string()), &Marker::NoChildren, &f);
    assert_eq!(p.ops, vec![DomOp::ReplaceChild(el(5), c)]);
    assert_eq!(p.state, Child::Node(el(5)));
}

#[test]
fn node_over_region_text_node_replaces_only_it() {
    let m = el(50);
    let t = text(7);
    let f = TreeFacts { first_child: Some(m), ..facts() };
    let p = insert_expression(
        &Child::Node(el(5)),
        Child::TextNode(t, "t".to_string()),
        &Marker::BeforeChild(m),
        &f,
    );
    assert_eq!(p.ops, vec![DomOp::ReplaceWith(t, el(5))]);
}
