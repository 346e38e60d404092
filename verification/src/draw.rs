//! Colors used to draw routers, sessions and forwarding paths.

use vstd::prelude::*;

verus! {

/// A color of an SVG element.
#[derive(Clone, Copy, PartialEq, Eq, Structural, Debug)]
pub enum SvgColor {
    BlueLight,
    PurpleLight,
    GreenLight,
    RedLight,
    YellowLight,
    BlueDark,
    PurpleDark,
    GreenDark,
    RedDark,
    YellowDark,
    Light,
    Dark,
}

impl Default for SvgColor {
    fn default() -> (c: Self)
        ensures
            c == SvgColor::BlueLight,
    {
        SvgColor::BlueLight
    }
}

/// The marker of the arrow tip of a color.
pub open spec fn arrow_tip_spec(c: SvgColor) -> Seq<char> {
    match c {
        SvgColor::BlueLight => "arrow-tip-blue-500"@,
        SvgColor::PurpleLight => "arrow-tip-purple-500"@,
        SvgColor::GreenLight => "arrow-tip-green-500"@,
        SvgColor::RedLight => "arrow-tip-red-500"@,
        SvgColor::YellowLight => "arrow-tip-yellow-500"@,
        SvgColor::BlueDark => "arrow-tip-blue-800"@,
        SvgColor::PurpleDark => "arrow-tip-purple-800"@,
        SvgColor::GreenDark => "arrow-tip-green-800"@,
        SvgColor::RedDark => "arrow-tip-red-800"@,
        SvgColor::YellowDark => "arrow-tip-yellow-800"@,
        SvgColor::Light => "arrow-tip-base-5"@,
        SvgColor::Dark => "arrow-tip-main"@,
    }
}

/// The marker of the arrow tip of a color, when highlighted.
pub open spec fn arrow_tip_dark_spec(c: SvgColor) -> Seq<char> {
    match c {
        SvgColor::BlueLight | SvgColor::BlueDark => "arrow-tip-blue-800"@,
        SvgColor::PurpleLight | SvgColor::PurpleDark => "arrow-tip-purple-800"@,
        SvgColor::GreenLight | SvgColor::GreenDark => "arrow-tip-green-800"@,
        SvgColor::RedLight | SvgColor::RedDark => "arrow-tip-red-800"@,
        SvgColor::YellowLight | SvgColor::YellowDark => "arrow-tip-yellow-800"@,
        SvgColor::Light | SvgColor::Dark => "arrow-tip-main"@,
    }
}

/// The text color class and the hover class of a color.
pub open spec fn classes_spec(c: SvgColor) -> (Seq<char>, Seq<char>) {
    match c {
        SvgColor::BlueLight => ("text-blue-500"@, "hover:text-blue-dark"@),
        SvgColor::PurpleLight => ("text-purple-500"@, "hover:text-purple-dark"@),
        SvgColor::GreenLight => ("text-green-500"@, "hover:text-green-dark"@),
        SvgColor::RedLight => ("text-red-500"@, "hover:text-red-dark"@),
        SvgColor::YellowLight => ("text-yellow-500"@, "hover:text-yellow-dark"@),
        SvgColor::BlueDark => ("text-blue-800"@, "hover:text-blue-dark"@),
        SvgColor::PurpleDark => ("text-purple-800"@, "hover:text-purple-dark"@),
        SvgColor::GreenDark => ("text-green-800"@, "hover:text-green-dark"@),
        SvgColor::RedDark => ("text-red-800"@, "hover:text-red-dark"@),
        SvgColor::YellowDark => ("text-yellow-800"@, "hover:text-yellow-dark"@),
        SvgColor::Light => ("text-main-ia"@, "hover:text-main-ia"@),
        SvgColor::Dark => ("text-main"@, "hover:text-main-ia"@),
    }
}

/// The text color class and the hover class (triggered by a hovered peer) of a color.
pub open spec fn peer_classes_spec(c: SvgColor) -> (Seq<char>, Seq<char>) {
    match c {
        SvgColor::BlueLight => ("text-blue-500"@, "peer-hover:text-blue-dark"@),
        SvgColor::PurpleLight => ("text-purple-500"@, "peer-hover:text-purple-dark"@),
        SvgColor::GreenLight => ("text-green-500"@, "peer-hover:text-green-dark"@),
        SvgColor::RedLight => ("text-red-500"@, "peer-hover:text-red-dark"@),
        SvgColor::YellowLight => ("text-yellow-500"@, "peer-hover:text-yellow-dark"@),
        SvgColor::BlueDark => ("text-blue-800"@, "peer-hover:text-blue-dark"@),
        SvgColor::PurpleDark => ("text-purple-800"@, "peer-hover:text-purple-dark"@),
        SvgColor::GreenDark => ("text-green-800"@, "peer-hover:text-green-dark"@),
        SvgColor::RedDark => ("text-red-800"@, "peer-hover:text-red-dark"@),
        SvgColor::YellowDark => ("text-yellow-800"@, "peer-hover:text-yellow-dark"@),
        SvgColor::Light => ("text-main-ia"@, "peer-hover:text-main-ia"@),
        SvgColor::Dark => ("text-main"@, "peer-hover:text-main-ia"@),
    }
}

impl SvgColor {
    /// The CSS classes of the color: the text color and the hover color.
    pub fn classes(&self) -> (r: (&'static str, &'static str))
        ensures
            (r.0@, r.1@) == classes_spec(*self),
    {
        match self {
            SvgColor::BlueLight => ("text-blue-500", "hover:text-blue-dark"),
            SvgColor::PurpleLight => ("text-purple-500", "hover:text-purple-dark"),
            SvgColor::GreenLight => ("text-green-500", "hover:text-green-dark"),
            SvgColor::RedLight => ("text-red-500", "hover:text-red-dark"),
            SvgColor::YellowLight => ("text-yellow-500", "hover:text-yellow-dark"),
            SvgColor::BlueDark => ("text-blue-800", "hover:text-blue-dark"),
            SvgColor::PurpleDark => ("text-purple-800", "hover:text-purple-dark"),
            SvgColor::GreenDark => ("text-green-800", "hover:text-green-dark"),
            SvgColor::RedDark => ("text-red-800", "hover:text-red-dark"),
            SvgColor::YellowDark => ("text-yellow-800", "hover:text-yellow-dark"),
            SvgColor::Light => ("text-main-ia", "hover:text-main-ia"),
            SvgColor::Dark => ("text-main", "hover:text-main-ia"),
        }
    }

    /// The CSS classes of the color, where the hover is triggered by a peer element.
    pub fn peer_classes(&self) -> (r: (&'static str, &'static str))
        ensures
            (r.0@, r.1@) == peer_classes_spec(*self),
    {
        match self {
            SvgColor::BlueLight => ("text-blue-500", "peer-hover:text-blue-dark"),
            SvgColor::PurpleLight => ("text-purple-500", "peer-hover:text-purple-dark"),
            SvgColor::GreenLight => ("text-green-500", "peer-hover:text-green-dark"),
            SvgColor::RedLight => ("text-red-500", "peer-hover:text-red-dark"),
            SvgColor::YellowLight => ("text-yellow-500", "peer-hover:text-yellow-dark"),
            SvgColor::BlueDark => ("text-blue-800", "peer-hover:text-blue-dark"),
            SvgColor::PurpleDark => ("text-purple-800", "peer-hover:text-purple-dark"),
            SvgColor::GreenDark => ("text-green-800", "peer-hover:text-green-dark"),
            SvgColor::RedDark => ("text-red-800", "peer-hover:text-red-dark"),
            SvgColor::YellowDark => ("text-yellow-800", "peer-hover:text-yellow-dark"),
            SvgColor::Light => ("text-main-ia", "peer-hover:text-main-ia"),
            SvgColor::Dark => ("text-main", "peer-hover:text-main-ia"),
        }
    }

    /// The marker of the arrow tip.
    pub fn arrow_tip(&self) -> (r: &'static str)
        ensures
            r@ == arrow_tip_spec(*self),
    {
        match self {
            SvgColor::BlueLight => "arrow-tip-blue-500",
            SvgColor::PurpleLight => "arrow-tip-purple-500",
            SvgColor::GreenLight => "arrow-tip-green-500",
            SvgColor::RedLight => "arrow-tip-red-500",
            SvgColor::YellowLight => "arrow-tip-yellow-500",
            SvgColor::BlueDark => "arrow-tip-blue-800",
            SvgColor::PurpleDark => "arrow-tip-purple-800",
            SvgColor::GreenDark => "arrow-tip-green-800",
            SvgColor::RedDark => "arrow-tip-red-800",
            SvgColor::YellowDark => "arrow-tip-yellow-800",
            SvgColor::Light => "arrow-tip-base-5",
            SvgColor::Dark => "arrow-tip-main",
        }
    }

    /// The marker of the arrow tip when highlighted.
    pub fn arrow_tip_dark(&self) -> (r: &'static str)
        ensures
            r@ == arrow_tip_dark_spec(*self),
    {
        match self {
            SvgColor::BlueLight => "arrow-tip-blue-800",
            SvgColor::PurpleLight => "arrow-tip-purple-800",
            SvgColor::GreenLight => "arrow-tip-green-800",
            SvgColor::RedLight => "arrow-tip-red-800",
            SvgColor::YellowLight => "arrow-tip-yellow-800",
            SvgColor::BlueDark => "arrow-tip-blue-800",
            SvgColor::PurpleDark => "arrow-tip-purple-800",
            SvgColor::GreenDark => "arrow-tip-green-800",
            SvgColor::RedDark => "arrow-tip-red-800",
            SvgColor::YellowDark => "arrow-tip-yellow-800",
            SvgColor::Light => "arrow-tip-main",
            SvgColor::Dark => "arrow-tip-main",
        }
    }
}

} // verus!
