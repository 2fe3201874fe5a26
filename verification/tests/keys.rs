use imagespin::keys::{action_for, fewer_samples, more_samples, Action, Key};

#[test]
fn printable_keys_type_and_function_keys_drive_the_viewer() {
    assert_eq!(action_for(Key::Character), Action::Type);
    assert_eq!(action_for(Key::Space), Action::Type);
    assert_eq!(action_for(Key::Backspace), Action::Untype);
    assert_eq!(action_for(Key::Enter), Action::Surge);
    assert_eq!(action_for(Key::Escape), Action::Quit);
    assert_eq!(action_for(Key::Function(1)), Action::Help);
    assert_eq!(action_for(Key::Function(3)), Action::Dissolve);
    assert_eq!(action_for(Key::Function(6)), Action::ToggleTint);
    assert_eq!(action_for(Key::Function(9)), Action::LightAll);
    assert_eq!(action_for(Key::Function(10)), Action::Nothing);
    assert_eq!(action_for(Key::Other), Action::Nothing);
}

#[test]
fn supersampling_stays_between_one_and_four() {
    assert_eq!(fewer_samples(3), 2);
    assert_eq!(fewer_samples(1), 1);
    assert_eq!(fewer_samples(0), 1);
    assert_eq!(more_samples(2), 3);
    assert_eq!(more_samples(4), 4);
    assert_eq!(more_samples(0), 1);
}
