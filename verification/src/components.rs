//! Styles of the buttons of menus: their colors and the CSS classes of each style.
//!
//! A list of classes holds each class once, in the order in which it first appears: adding a class
//! that is already there changes nothing.

use vstd::prelude::*;

verus! {

/// The color of a button.
#[derive(Clone, Copy, PartialEq, Eq, Structural, Debug)]
pub enum Color {
    Blue,
    Purple,
    Green,
    Red,
    Yellow,
    Light,
    Dark,
}

/// The style of a button.
#[derive(Clone, Copy, PartialEq, Eq, Structural, Debug)]
pub enum ButtonStyle {
    Button(Color),
    Underline(Color),
    UnderlineHover(Color),
    Flat,
}

/// The text of each class of a list.
pub open spec fn class_texts(v: Seq<&str>) -> Seq<Seq<char>> {
    v.map_values(|s: &str| s@)
}

/// The classes of a filled button of a color: background, hover, active and text color.
pub open spec fn button_classes_spec(c: Color) -> Seq<Seq<char>> {
    match c {
        Color::Blue => seq!["bg-blue-600"@, "hover:bg-blue-700"@, "active:bg-blue-700"@, "text-white"@],
        Color::Purple => seq!["bg-purple-600"@, "hover:bg-purple-700"@, "active:bg-purple-700"@, "text-white"@],
        Color::Green => seq!["bg-green-500"@, "hover:bg-green-600"@, "active:bg-green-600"@, "text-white"@],
        Color::Red => seq!["bg-red-600"@, "hover:bg-red-700"@, "active:bg-red-700"@, "text-white"@],
        Color::Yellow => seq!["bg-yellow-500"@, "hover:bg-yellow-600"@, "active:bg-yellow-600"@, "text-white"@],
        Color::Light => seq!["bg-gray-200"@, "hover:bg-gray-300"@, "active:bg-gray-300"@, "text-gray-700"@],
        Color::Dark => seq!["bg-gray-800"@, "hover:bg-gray-900"@, "active:bg-gray-900"@, "text-white"@],
    }
}

/// The class of the underline of a color when hovered.
pub open spec fn underline_hover_class_spec(c: Color) -> Seq<char> {
    match c {
        Color::Blue => "hover:border-blue-600"@,
        Color::Purple => "hover:border-purple-600"@,
        Color::Green => "hover:border-green-500"@,
        Color::Red => "hover:border-red-600"@,
        Color::Yellow => "hover:border-yellow-600"@,
        Color::Light => "hover:border-gray-200"@,
        Color::Dark => "hover:border-gray-800"@,
    }
}

/// The classes that every button has, after `flex`.
pub open spec fn common_classes_after_flex() -> Seq<Seq<char>> {
    seq!["leading_normal"@, "focus:outline-none"@, "focus:ring-0"@, "transition"@, "duration-150"@, "ease-in-out"@]
}

/// The classes that every button has.
pub open spec fn common_classes() -> Seq<Seq<char>> {
    seq!["flex"@] + common_classes_after_flex()
}

/// The classes of a button without a background.
pub open spec fn buttonless_classes() -> Seq<Seq<char>> {
    seq!["px-2"@, "text-gray-600"@, "hover:text-black"@]
}

/// The classes of a button style. An underline that appears on hover starts with `flex` and the
/// blue hover border, so neither is repeated later.
pub open spec fn style_classes_spec(s: ButtonStyle) -> Seq<Seq<char>> {
    match s {
        ButtonStyle::Button(c) => seq!["px-4"@, "py-2"@, "rounded"@, "shadow-md"@, "hover:shadow-lg"@]
            + common_classes() + button_classes_spec(c),
        ButtonStyle::Underline(c) => seq!["border-b"@, "border-gray-300"@, "hover:border-b-2"@] + common_classes()
            + buttonless_classes() + seq![underline_hover_class_spec(c)],
        ButtonStyle::UnderlineHover(c) => seq![
            "flex"@,
            "border-b-2"@,
            "border-transparent"@,
            "hover:border-b-2"@,
            "hover:border-blue-600"@,
        ] + common_classes_after_flex() + buttonless_classes() + if c == Color::Blue {
            Seq::empty()
        } else {
            seq![underline_hover_class_spec(c)]
        },
        ButtonStyle::Flat => common_classes() + buttonless_classes(),
    }
}

/// Append classes to a list.
fn push_all(v: &mut Vec<&'static str>, classes: &[&'static str])
    ensures
        final(v)@ == old(v)@ + classes@,
        class_texts(final(v)@) == class_texts(old(v)@) + class_texts(classes@),
{
    let ghost start = v@;
    let mut i: usize = 0;
    while i < classes.len()
        invariant
            i <= classes@.len(),
            v@ == start + classes@.take(i as int),
        decreases classes@.len() - i,
    {
        v.push(classes[i]);
        i = i + 1;
        assert(v@ =~= start + classes@.take(i as int));
    }
    assert(classes@.take(classes@.len() as int) =~= classes@);
    assert(class_texts(v@) =~= class_texts(start) + class_texts(classes@));
}

/// Append the classes that every button has, after `flex`.
fn push_common_after_flex(v: &mut Vec<&'static str>)
    ensures
        class_texts(final(v)@) == class_texts(old(v)@) + common_classes_after_flex(),
{
    let ghost start = v@;
    v.push("leading_normal");
    v.push("focus:outline-none");
    v.push("focus:ring-0");
    v.push("transition");
    v.push("duration-150");
    v.push("ease-in-out");
    assert(class_texts(v@) =~= class_texts(start) + common_classes_after_flex());
}

/// Append the classes of a button without a background.
fn push_buttonless(v: &mut Vec<&'static str>)
    ensures
        class_texts(final(v)@) == class_texts(old(v)@) + buttonless_classes(),
{
    let ghost start = v@;
    v.push("px-2");
    v.push("text-gray-600");
    v.push("hover:text-black");
    assert(class_texts(v@) =~= class_texts(start) + buttonless_classes());
}

impl Color {
    /// The classes of a filled button of this color.
    pub fn button_classes(&self) -> (r: Vec<&'static str>)
        ensures
            class_texts(r@) == button_classes_spec(*self),
    {
        let r = match self {
            Color::Blue => vec!["bg-blue-600", "hover:bg-blue-700", "active:bg-blue-700", "text-white"],
            Color::Purple => vec!["bg-purple-600", "hover:bg-purple-700", "active:bg-purple-700", "text-white"],
            Color::Green => vec!["bg-green-500", "hover:bg-green-600", "active:bg-green-600", "text-white"],
            Color::Red => vec!["bg-red-600", "hover:bg-red-700", "active:bg-red-700", "text-white"],
            Color::Yellow => vec!["bg-yellow-500", "hover:bg-yellow-600", "active:bg-yellow-600", "text-white"],
            Color::Light => vec!["bg-gray-200", "hover:bg-gray-300", "active:bg-gray-300", "text-gray-700"],
            Color::Dark => vec!["bg-gray-800", "hover:bg-gray-900", "active:bg-gray-900", "text-white"],
        };
        assert(class_texts(r@) =~= button_classes_spec(*self));
        r
    }

    /// The classes of the underline of this color when hovered.
    pub fn underline_hover_classes(&self) -> (r: Vec<&'static str>)
        ensures
            class_texts(r@) == seq![underline_hover_class_spec(*self)],
    {
        let r = match self {
            Color::Blue => vec!["hover:border-blue-600"],
            Color::Purple => vec!["hover:border-purple-600"],
            Color::Green => vec!["hover:border-green-500"],
            Color::Red => vec!["hover:border-red-600"],
            Color::Yellow => vec!["hover:border-yellow-600"],
            Color::Light => vec!["hover:border-gray-200"],
            Color::Dark => vec!["hover:border-gray-800"],
        };
        assert(class_texts(r@) =~= seq![underline_hover_class_spec(*self)]);
        r
    }
}

impl ButtonStyle {
    /// The classes of this button style.
    pub fn classes(&self) -> (r: Vec<&'static str>)
        ensures
            class_texts(r@) == style_classes_spec(*self),
    {
        let mut v: Vec<&'static str> = Vec::new();
        match self {
            ButtonStyle::Button(c) => {
                push_all(&mut v, &["px-4", "py-2", "rounded", "shadow-md", "hover:shadow-lg", "flex"]);
                push_common_after_flex(&mut v);
                let b = c.button_classes();
                push_all(&mut v, b.as_slice());
            },
            ButtonStyle::Underline(c) => {
                push_all(&mut v, &["border-b", "border-gray-300", "hover:border-b-2", "flex"]);
                push_common_after_flex(&mut v);
                push_buttonless(&mut v);
                let u = c.underline_hover_classes();
                push_all(&mut v, u.as_slice());
            },
            ButtonStyle::UnderlineHover(c) => {
                push_all(
                    &mut v,
                    &["flex", "border-b-2", "border-transparent", "hover:border-b-2", "hover:border-blue-600"],
                );
                push_common_after_flex(&mut v);
                push_buttonless(&mut v);
                if *c != Color::Blue {
                    let u = c.underline_hover_classes();
                    push_all(&mut v, u.as_slice());
                }
            },
            ButtonStyle::Flat => {
                v.push("flex");
                push_common_after_flex(&mut v);
                push_buttonless(&mut v);
            },
        }
        assert(class_texts(v@) =~= style_classes_spec(*self));
        v
    }
}

} // verus!
