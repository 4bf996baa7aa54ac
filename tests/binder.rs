use leptos_reconcile::binder::{attribute, attribute_expression, class, property_write, AttrOp, Attribute, ClassOp};

#[test]
fn inner_html_is_reserved() {
    let op = attribute_expression(&"inner_html".to_string(), Attribute::String("<b>x</b>".to_string()));
    assert_eq!(op, AttrOp::SetInnerHtml("<b>x</b>".to_string()));
    let op = attribute_expression(&"inner_html".to_string(), Attribute::Option(None));
    assert_eq!(op, AttrOp::SetInnerHtml(String::new()));
}

#[test]
fn plain_attributes_are_set_and_removed() {
    let name = "title".to_string();
    assert_eq!(
        attribute_expression(&name, Attribute::String("t".to_string())),
        AttrOp::SetAttribute(name.clone(), "t".to_string())
    );
    assert_eq!(
        attribute_expression(&name, Attribute::Option(None)),
        AttrOp::RemoveAttribute(name.clone())
    );
    assert_eq!(
        attribute_expression(&"hidden".to_string(), Attribute::Bool(true)),
        AttrOp::SetAttribute("hidden".to_string(), "hidden".to_string())
    );
    assert_eq!(
        attribute_expression(&"hidden".to_string(), Attribute::Bool(false)),
        AttrOp::RemoveAttribute("hidden".to_string())
    );
}

#[test]
fn unchanged_attribute_is_not_written() {
    let name = "id".to_string();
    let old = Some(Attribute::String("a".to_string()));
    assert_eq!(attribute(&name, &old, Attribute::String("a".to_string())), None);
    assert_eq!(
        attribute(&name, &old, Attribute::String("b".to_string())),
        Some(AttrOp::SetAttribute(name.clone(), "b".to_string()))
    );
    assert_eq!(
        attribute(&name, &None, Attribute::Bool(false)),
        Some(AttrOp::RemoveAttribute(name.clone()))
    );
}

#[test]
fn class_writes_only_on_change() {
    let name = "active".to_string();
    assert_eq!(class(&name, None, false), None);
    assert_eq!(class(&name, None, true), Some(ClassOp::Add(name.clone())));
    assert_eq!(class(&name, Some(true), true), None);
    assert_eq!(class(&name, Some(true), false), Some(ClassOp::Remove(name.clone())));
}

#[test]
fn property_writes_only_on_change() {
    assert!(!property_write(false, false, true));
    assert!(property_write(false, false, false));
    assert!(!property_write(true, true, false));
    assert!(property_write(true, false, true));
}
