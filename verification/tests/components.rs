use bgpsim::components::{ButtonStyle, Color};

#[test]
fn button_classes_of_each_color() {
    assert_eq!(
        Color::Blue.button_classes(),
        vec!["bg-blue-600", "hover:bg-blue-700", "active:bg-blue-700", "text-white"]
    );
    assert_eq!(
        Color::Light.button_classes(),
        vec!["bg-gray-200", "hover:bg-gray-300", "active:bg-gray-300", "text-gray-700"]
    );
    assert_eq!(Color::Green.underline_hover_classes(), vec!["hover:border-green-500"]);
}

#[test]
fn filled_button_style() {
    assert_eq!(
        ButtonStyle::Button(Color::Red).classes(),
        vec![
            "px-4",
            "py-2",
            "rounded",
            "shadow-md",
            "hover:shadow-lg",
            "flex",
            "leading_normal",
            "focus:outline-none",
            "focus:ring-0",
            "transition",
            "duration-150",
            "ease-in-out",
            "bg-red-600",
            "hover:bg-red-700",
            "active:bg-red-700",
            "text-white",
        ]
    );
}

#[test]
fn underline_hover_style_lists_each_class_once() {
    let blue = ButtonStyle::UnderlineHover(Color::Blue).classes();
    assert_eq!(blue.iter().filter(|c| **c == "flex").count(), 1);
    assert_eq!(blue.iter().filter(|c| **c == "hover:border-blue-600").count(), 1);
    assert_eq!(blue.len(), 14);
    let dark = ButtonStyle::UnderlineHover(Color::Dark).classes();
    assert_eq!(dark.len(), 15);
    assert_eq!(dark.last(), Some(&"hover:border-gray-800"));
}

#[test]
fn flat_and_underline_styles() {
    assert_eq!(
        ButtonStyle::Flat.classes(),
        vec![
            "flex",
            "leading_normal",
            "focus:outline-none",
            "focus:ring-0",
            "transition",
            "duration-150",
            "ease-in-out",
            "px-2",
            "text-gray-600",
            "hover:text-black",
        ]
    );
    let u = ButtonStyle::Underline(Color::Yellow).classes();
    assert_eq!(u[0], "border-b");
    assert_eq!(u.len(), 14);
    assert_eq!(u[13], "hover:border-yellow-600");
}
