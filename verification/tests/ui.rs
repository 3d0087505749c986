use saba_core::constants::{
    ADDRESSBAR_HEIGHT, BLACK, DARKGREY, GREY, LIGHTGREY, WHITE, WINDOW_INIT_X_POS,
    WINDOW_INIT_Y_POS,
};
use saba_core::ui::{click_target, AddressBar, ClickTarget, InputMode, KeyAction};

#[test]
fn test_window_constants() {
    assert_eq!((WINDOW_INIT_X_POS, WINDOW_INIT_Y_POS), (30, 50));
    assert_eq!(ADDRESSBAR_HEIGHT, 20);
    assert_eq!(
        (WHITE, LIGHTGREY, GREY, DARKGREY, BLACK),
        (0xffffff, 0xd3d3d3, 0x808080, 0x5a5a5a, 0x000000)
    );
}

#[test]
fn test_click_target() {
    // The window starts at (30, 50) and is 600 wide and 400 high; the
    // toolbar takes the 26 rows below the 24 rows of the title bar.
    assert_eq!(click_target(29, 100), ClickTarget::Outside);
    assert_eq!(click_target(30, 49), ClickTarget::Outside);
    assert_eq!(click_target(631, 100), ClickTarget::Outside);
    assert_eq!(click_target(100, 451), ClickTarget::Outside);
    assert_eq!(click_target(i64::MIN, i64::MAX), ClickTarget::Outside);
    assert_eq!(click_target(30, 50), ClickTarget::Content);
    assert_eq!(click_target(630, 450), ClickTarget::Content);
    assert_eq!(click_target(100, 73), ClickTarget::Content);
    assert_eq!(click_target(100, 74), ClickTarget::Toolbar);
    assert_eq!(click_target(100, 99), ClickTarget::Toolbar);
    assert_eq!(click_target(100, 100), ClickTarget::Content);
}

#[test]
fn test_address_bar_is_edited_after_a_click_on_the_toolbar() {
    let mut bar = AddressBar::new();
    assert_eq!(bar.input_mode(), InputMode::Normal);
    assert_eq!(bar.handle_key('a'), KeyAction::Nothing);
    assert_eq!(bar.input_url(), "");

    assert_eq!(bar.handle_click(100, 80), ClickTarget::Toolbar);
    assert_eq!(bar.input_mode(), InputMode::Editing);
    assert_eq!(bar.handle_key('a'), KeyAction::Redraw);
    assert_eq!(bar.handle_key('b'), KeyAction::Redraw);
    assert_eq!(bar.handle_key('c'), KeyAction::Redraw);
    assert_eq!(bar.input_url(), "abc");
    assert_eq!(bar.handle_key('\u{7f}'), KeyAction::Redraw);
    assert_eq!(bar.handle_key('\u{08}'), KeyAction::Redraw);
    assert_eq!(bar.input_url(), "a");
    assert_eq!(bar.handle_key('\u{08}'), KeyAction::Redraw);
    assert_eq!(bar.handle_key('\u{08}'), KeyAction::Redraw);
    assert_eq!(bar.input_url(), "");
    assert_eq!(bar.handle_key('x'), KeyAction::Redraw);

    assert_eq!(bar.handle_click(0, 0), ClickTarget::Outside);
    assert_eq!(bar.input_mode(), InputMode::Editing);
    assert_eq!(bar.input_url(), "x");
    assert_eq!(bar.handle_key('\n'), KeyAction::Navigate("x".to_string()));
    assert_eq!(bar.input_mode(), InputMode::Normal);
    assert_eq!(bar.input_url(), "");
}

#[test]
fn test_click_on_the_content_ends_editing_and_on_the_toolbar_empties_the_bar() {
    let mut bar = AddressBar::new();
    bar.handle_click(100, 80);
    bar.handle_key('a');
    assert_eq!(bar.handle_click(100, 200), ClickTarget::Content);
    assert_eq!(bar.input_mode(), InputMode::Normal);
    assert_eq!(bar.input_url(), "a");
    assert_eq!(bar.handle_click(100, 80), ClickTarget::Toolbar);
    assert_eq!(bar.input_url(), "");
    assert_eq!(bar.input_mode(), InputMode::Editing);
}
