use vstd::prelude::*;

verus! {

/// A value for an attribute of an element.
#[derive(Clone, Debug, PartialEq, Eq)]
pub enum Attribute {
    String(String),
    Option(Option<String>),
    Bool(bool),
}

pub enum AttributeView {
    String(Seq<char>),
    Option(Option<Seq<char>>),
    Bool(bool),
}

impl View for Attribute {
    type V = AttributeView;

    open spec fn view(&self) -> AttributeView {
        match self {
            Attribute::String(s) => AttributeView::String(s@),
            Attribute::Option(o) => AttributeView::Option(
                match o {
                    Some(s) => Some(s@),
                    None => None,
                },
            ),
            Attribute::Bool(b) => AttributeView::Bool(*b),
        }
    }
}

/// One write to an element's attributes.
#[derive(Clone, Debug, PartialEq, Eq)]
pub enum AttrOp {
    /// Replaces the element's inner markup.
    SetInnerHtml(String),
    /// Sets the named attribute to a value.
    SetAttribute(String, String),
    /// Removes the named attribute.
    RemoveAttribute(String),
}

pub enum AttrOpView {
    SetInnerHtml(Seq<char>),
    SetAttribute(Seq<char>, Seq<char>),
    RemoveAttribute(Seq<char>),
}

impl View for AttrOp {
    type V = AttrOpView;

    open spec fn view(&self) -> AttrOpView {
        match self {
            AttrOp::SetInnerHtml(s) => AttrOpView::SetInnerHtml(s@),
            AttrOp::SetAttribute(n, v) => AttrOpView::SetAttribute(n@, v@),
            AttrOp::RemoveAttribute(n) => AttrOpView::RemoveAttribute(n@),
        }
    }
}

/// The attribute name that stands for the element's inner markup.
pub open spec fn is_inner_html(name: Seq<char>) -> bool {
    name == "inner_html"@
}

/// The write that gives attribute `name` the value `value`.
pub open spec fn attribute_op(name: Seq<char>, value: AttributeView) -> AttrOpView {
    match value {
        AttributeView::String(s) => if is_inner_html(name) {
            AttrOpView::SetInnerHtml(s)
        } else {
            AttrOpView::SetAttribute(name, s)
        },
        AttributeView::Option(o) => if is_inner_html(name) {
            AttrOpView::SetInnerHtml(
                match o {
                    Some(s) => s,
                    None => seq![],
                },
            )
        } else {
            match o {
                Some(s) => AttrOpView::SetAttribute(name, s),
                None => AttrOpView::RemoveAttribute(name),
            }
        },
        AttributeView::Bool(b) => if b {
            AttrOpView::SetAttribute(name, name)
        } else {
            AttrOpView::RemoveAttribute(name)
        },
    }
}

pub fn attribute_expression(attr_name: &String, value: Attribute) -> (r: AttrOp)
    ensures
        r@ == attribute_op(attr_name@, value@),
{
    let reserved = "inner_html".to_owned();
    proof {
        reveal_strlit("inner_html");
    }
    let inner = *attr_name == reserved;
    match value {
        Attribute::String(s) => if inner {
            AttrOp::SetInnerHtml(s)
        } else {
            AttrOp::SetAttribute(attr_name.clone(), s)
        },
        Attribute::Option(o) => if inner {
            match o {
                Some(s) => AttrOp::SetInnerHtml(s),
                None => AttrOp::SetInnerHtml(String::new()),
            }
        } else {
            match o {
                Some(s) => AttrOp::SetAttribute(attr_name.clone(), s),
                None => AttrOp::RemoveAttribute(attr_name.clone()),
            }
        },
        Attribute::Bool(b) => if b {
            AttrOp::SetAttribute(attr_name.clone(), attr_name.clone())
        } else {
            AttrOp::RemoveAttribute(attr_name.clone())
        },
    }
}

fn same_text(a: &Option<String>, b: &Option<String>) -> (r: bool)
    ensures
        r == (Attribute::Option(*a)@ == Attribute::Option(*b)@),
{
    match (a, b) {
        (Some(x), Some(y)) => *x == *y,
        (None, None) => true,
        _ => false,
    }
}

/// Whether two attribute values are equal.
pub fn same_attribute(a: &Attribute, b: &Attribute) -> (r: bool)
    ensures
        r == (a@ == b@),
{
    match (a, b) {
        (Attribute::String(x), Attribute::String(y)) => *x == *y,
        (Attribute::Option(x), Attribute::Option(y)) => same_text(x, y),
        (Attribute::Bool(x), Attribute::Bool(y)) => *x == *y,
        _ => false,
    }
}

/// One run of an attribute binding: the write that brings attribute `attr_name`
/// from the last value written, `old`, to `value`, or none when they are equal.
pub fn attribute(attr_name: &String, old: &Option<Attribute>, value: Attribute) -> (r: Option<AttrOp>)
    ensures
        match old {
            Some(o) => o@ == value@,
            None => false,
        } ==> r is None,
        !match old {
            Some(o) => o@ == value@,
            None => false,
        } ==> r is Some && r->Some_0@ == attribute_op(attr_name@, value@),
{
    let unchanged = match old {
        Some(o) => same_attribute(o, &value),
        None => false,
    };
    if unchanged {
        None
    } else {
        Some(attribute_expression(attr_name, value))
    }
}

/// One write to an element's class list.
#[derive(Clone, Debug, PartialEq, Eq)]
pub enum ClassOp {
    Add(String),
    Remove(String),
}

pub fn class_expression(class_name: &String, value: bool) -> (r: ClassOp)
    ensures
        value ==> (r matches ClassOp::Add(n) && n@ == class_name@),
        !value ==> (r matches ClassOp::Remove(n) && n@ == class_name@),
{
    if value {
        ClassOp::Add(class_name.clone())
    } else {
        ClassOp::Remove(class_name.clone())
    }
}

/// One run of a class binding: the write that brings class `class_name` from the
/// last value, `old`, to `value`. Nothing is written when the value is unchanged, nor
/// on the first run when the class is off, since an element starts without it.
pub fn class(class_name: &String, old: Option<bool>, value: bool) -> (r: Option<ClassOp>)
    ensures
        r is Some <==> old != Some(value) && (old is Some || value),
        r matches Some(op) ==> match op {
            ClassOp::Add(n) => value && n@ == class_name@,
            ClassOp::Remove(n) => !value && n@ == class_name@,
        },
{
    let unchanged = match old {
        Some(o) => o == value,
        None => false,
    };
    if !unchanged && (old.is_some() || value) {
        Some(class_expression(class_name, value))
    } else {
        None
    }
}

/// One run of a property binding: whether to write the property. Nothing is written
/// when the value equals the last one written, nor on the first run when the value is
/// `undefined`, which an unset property already reads as.
pub fn property_write(old_present: bool, same_as_old: bool, new_undefined: bool) -> (w: bool)
    ensures
        w == (!(old_present && same_as_old) && (old_present || !new_undefined)),
{
    if old_present {
        !same_as_old
    } else {
        !new_undefined
    }
}

} // verus!
