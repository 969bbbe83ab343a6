use mace::radio_group::{
    RadioButtonAction, RadioButtonRef, RadioGroupRef, RadioType, WidgetAction,
};
use mace::timer::Timer;

fn group() -> RadioGroupRef {
    RadioGroupRef::from_buttons(vec![
        RadioButtonRef { widget_uid: 10, selected: true },
        RadioButtonRef { widget_uid: 20, selected: false },
        RadioButtonRef { widget_uid: 30, selected: false },
    ])
}

#[test]
fn click_selects_one_and_unselects_the_rest() {
    let mut g = group();
    let actions = vec![
        WidgetAction { widget_uid: 99, action: RadioButtonAction::Clicked },
        WidgetAction { widget_uid: 20, action: RadioButtonAction::Idle },
        WidgetAction { widget_uid: 20, action: RadioButtonAction::Clicked },
    ];
    let picked = g.selected(&actions);
    assert_eq!(picked, Some(1));
    assert!(!g.button(0).selected);
    assert!(!g.button(2).selected);
}

#[test]
fn no_matching_click_changes_nothing() {
    let mut g = group();
    let actions = vec![WidgetAction { widget_uid: 99, action: RadioButtonAction::Clicked }];
    assert_eq!(g.selected(&actions), None);
    assert!(g.button(0).selected);
}

#[test]
fn selection_drives_page_visibility() {
    let mut g = group();
    let actions = vec![WidgetAction { widget_uid: 30, action: RadioButtonAction::Clicked }];
    let visible = g.selected_to_visible(&actions).expect("a click");
    assert_eq!(visible, vec![false, false, true]);
}

#[test]
fn unselect_clears_one_button() {
    let mut b = RadioButtonRef { widget_uid: 7, selected: true };
    b.unselect();
    assert!(!b.selected);
    assert_eq!(b.widget_uid, 7);
}

#[test]
fn radio_types_compare() {
    assert_eq!(RadioType::Round, RadioType::Round);
    assert_ne!(RadioType::Round, RadioType::Tab);
}

#[test]
fn timer_fires_after_its_interval() {
    let t = Timer::new(1_000, 500, true);
    assert!(!t.is_due(1_200));
    assert!(!t.is_due(1_500));
    assert!(t.is_due(1_501));
}

#[test]
fn repeating_timer_advances_one_step() {
    let mut t = Timer::new(0, 100, true);
    assert!(t.is_due(101));
    assert!(t.fire());
    assert_eq!(t.step, 1);
    assert!(!t.is_due(150));
    assert!(t.is_due(201));
}

#[test]
fn one_shot_timer_is_spent_after_firing() {
    let mut t = Timer::new(0, 100, false);
    assert!(t.is_due(101));
    assert!(!t.fire());
    assert_eq!(t.step, 0);
}
