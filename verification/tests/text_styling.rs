use tty_form::{set_segment_subset_style, Color, Style, Text};

fn text(content: &str) -> Text {
    Text::new(content.to_string())
}

fn style(color: Color) -> Style {
    Style::default().set_foreground(color)
}

fn text_styled(content: &str, color: Color) -> Text {
    Text::new_styled(content.to_string(), style(color))
}

#[test]
fn test_set_segment_style_entirely() {
    let mut segment = vec![
        text("TEST1"),
        text_styled("TEST2", Color::Red),
        text_styled("TEST3", Color::Blue),
        text("TEST4"),
    ];

    set_segment_subset_style(&mut segment, 0, 20, style(Color::Green));

    assert_eq!(
        vec![
            text_styled("TEST1", Color::Green),
            text_styled("TEST2", Color::Green),
            text_styled("TEST3", Color::Green),
            text_styled("TEST4", Color::Green),
        ],
        segment
    );
}

#[test]
fn test_set_segment_style_neatly() {
    let mut segment = vec![
        text("TEST1"),
        text_styled("TEST2", Color::Red),
        text_styled("TEST3", Color::Blue),
        text("TEST4"),
    ];

    set_segment_subset_style(&mut segment, 5, 15, style(Color::Green));

    assert_eq!(
        vec![
            text("TEST1"),
            text_styled("TEST2", Color::Green),
            text_styled("TEST3", Color::Green),
            text("TEST4"),
        ],
        segment
    );
}

#[test]
fn test_set_segment_style_split() {
    let mut segment = vec![
        text("TEST1"),
        text_styled("TEST2", Color::Red),
        text_styled("TEST3", Color::Blue),
        text("TEST4"),
    ];

    set_segment_subset_style(&mut segment, 3, 7, style(Color::Green));
    set_segment_subset_style(&mut segment, 11, 14, style(Color::Magenta));

    assert_eq!(
        vec![
            text("TES"),
            text_styled("T1", Color::Green),
            text_styled("TE", Color::Green),
            text_styled("ST2", Color::Red),
            text_styled("T", Color::Blue),
            text_styled("EST", Color::Magenta),
            text_styled("3", Color::Blue),
            text("TEST4"),
        ],
        segment
    );
}

#[test]
fn test_whole_segment_style_and_length() {
    let mut segment = vec![text("AB"), text_styled("CD", Color::Red)];
    assert_eq!(4, tty_form::get_segment_length(&segment));

    tty_form::set_segment_style(&mut segment, style(Color::Cyan));
    assert_eq!(
        vec![text_styled("AB", Color::Cyan), text_styled("CD", Color::Cyan)],
        segment
    );
}
