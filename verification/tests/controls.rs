use tty_form::{
    get_subsequent_elements, DependencyId, DependencyIdSource, DependencyState, ElementId,
    Evaluation, InputKey, Literal, OptionControl, SelectInput, SelectInputOption, TextControl,
    VirtualInputDevice,
};

#[test]
fn select_input_wraps_both_ways() {
    let mut select = SelectInput::new(
        "Select favorite food:",
        vec![
            ("Pizza", "A supreme pizza."),
            ("Burgers", "A hamburger with cheese."),
            ("Fries", "Simple potato french-fries."),
        ],
    );
    assert_eq!("Pizza", select.selected_option_value());
    select.update(InputKey::Up);
    assert_eq!("Fries", select.selected_option_value());
    select.update(InputKey::Down);
    assert_eq!("Pizza", select.selected_option_value());
    select.update(InputKey::Down);
    assert_eq!("Burgers", select.selected_option_value());
    select.update(InputKey::Char('x'));
    assert_eq!("Burgers", select.selected_option_value());
}

#[test]
fn select_input_options_and_evaluation() {
    let mut select = SelectInput::new("Pick:", vec![("a", "first")]);
    select.set_prompt("Choose:");
    select.add_option(SelectInputOption::new("b", "second"));
    assert!(select.evaluate(&Evaluation::Equal("a".to_string())));
    assert!(!select.evaluate(&Evaluation::NotEqual("a".to_string())));
    assert!(!select.evaluate(&Evaluation::IsEmpty));
    select.update(InputKey::Down);
    assert!(select.evaluate(&Evaluation::Equal("b".to_string())));

    let opt = SelectInputOption::new("v", "d");
    assert_eq!("v", opt.value());
    assert_eq!("d", opt.description());
    select.set_options(vec![
        SelectInputOption::new("x", "first"),
        SelectInputOption::new("y", "second"),
    ]);
    assert_eq!("y", select.selected_option_value());
}

#[test]
fn option_control_wraps() {
    let mut control = OptionControl {
        help_text: "choose".to_string(),
        options: vec![
            ("a".to_string(), "first".to_string()),
            ("b".to_string(), "second".to_string()),
        ],
        selected_option: 0,
    };
    assert!(!control.handle_input(InputKey::Up));
    assert_eq!(1, control.selected_option);
    assert!(!control.handle_input(InputKey::Down));
    assert_eq!(0, control.selected_option);
    assert!(control.is_focusable());
    assert!(!control.captures_enter());
}

#[test]
fn dependency_state_tracks_latest_values() {
    let mut ids = DependencyIdSource::new();
    let first = ids.next_id();
    let second = ids.next_id();
    assert_ne!(first, second);

    let mut state = DependencyState::new();
    assert!(!state.get_evaluation(&first));
    state.register_evaluation(&first, 2, 3);
    state.update_evaluation(&first, true);
    assert!(state.get_evaluation(&first));
    assert_eq!((2, 3), state.get_source(&first));
    state.update_evaluation(&first, false);
    assert!(!state.get_evaluation(&first));
    assert!(!state.get_evaluation(&second));

    let direct = DependencyId::new(7);
    assert_eq!(7, direct.0);
}

#[test]
fn text_control_collects_typed_characters() {
    let mut control = TextControl::new();
    control.handle_input(InputKey::Char('h'));
    control.handle_input(InputKey::Char('i'));
    control.handle_input(InputKey::Backspace);
    control.handle_input(InputKey::Char('!'));
    assert_eq!("hi!", control.value());
}

#[test]
fn literal_is_static() {
    let mut literal = Literal::new("E0S1".to_string());
    assert_eq!("E0S1", literal.text());
    assert!(!literal.is_input());
    assert!(!literal.captures_enter());
    assert!(!literal.update(InputKey::Enter));
}

#[test]
fn virtual_device_always_advances() {
    let mut device = VirtualInputDevice;
    assert_eq!(InputKey::Enter, device.read());
}

#[test]
fn subsequent_elements_follow_the_target() {
    let ids = vec![
        ElementId::new(0, 0),
        ElementId::new(0, 1),
        ElementId::new(0, 2),
        ElementId::new(1, 0),
    ];
    let rest = get_subsequent_elements(&ids, &ElementId::new(0, 1));
    assert_eq!(vec![ElementId::new(0, 2), ElementId::new(1, 0)], rest);
    let none = get_subsequent_elements(&ids, &ElementId::new(9, 9));
    assert!(none.is_empty());
}
