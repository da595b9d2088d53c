use rust_2048::achievements::{AchievementType, Achievements};
use rust_2048::ai::Direction;
use rust_2048::game::{background_color_index, Command, Controller, GameState, Hits, Key, PopupAction};

fn no_hits() -> Hits {
    Hits {
        popup_confirm: false,
        popup_cancel: false,
        ai_button: false,
        undo_button: false,
        restart_button: false,
        back_button: false,
        menu_start: false,
        menu_exit: false,
        menu_achievements: false,
        achievements_back: false,
    }
}

fn playing() -> Controller {
    let mut c = Controller::new();
    assert_eq!(c.key_press(Key::Space, false, false), Command::NewBoard);
    c
}

#[test]
fn game_starts_on_the_main_menu() {
    let c = Controller::new();
    assert!(c.is_main_menu());
    assert_eq!(c.popup_action, PopupAction::Hidden);
    assert!(!c.ai_mode);
}

#[test]
fn space_starts_and_escape_exits_from_the_menu() {
    let mut c = Controller::new();
    assert_eq!(c.key_press(Key::Escape, false, false), Command::Exit);
    assert_eq!(c.key_press(Key::Space, false, false), Command::NewBoard);
    assert_eq!(c.state, GameState::Playing);
}

#[test]
fn arrows_move_the_board() {
    let mut c = playing();
    assert_eq!(c.key_press(Key::Left, false, false), Command::Move(Direction::Left));
    assert_eq!(c.key_press(Key::Right, false, false), Command::Move(Direction::Right));
    assert_eq!(c.key_press(Key::Up, false, false), Command::Move(Direction::Up));
    assert_eq!(c.key_press(Key::Down, false, false), Command::Move(Direction::Down));
    assert_eq!(c.key_press(Key::Other, false, false), Command::Nothing);
}

#[test]
fn ai_mode_blocks_moves_and_undo() {
    let mut c = playing();
    assert_eq!(c.key_press(Key::LShift, false, false), Command::Nothing);
    assert!(c.ai_mode);
    assert_eq!(c.key_press(Key::Left, false, false), Command::Nothing);
    assert_eq!(c.key_press(Key::Z, false, true), Command::Nothing);
    assert_eq!(c.key_press(Key::RShift, false, false), Command::Nothing);
    assert!(!c.ai_mode);
}

#[test]
fn undo_needs_an_idle_board_with_history() {
    let mut c = playing();
    assert_eq!(c.key_press(Key::Z, false, true), Command::Undo);
    assert_eq!(c.key_press(Key::Z, true, true), Command::Nothing);
    assert_eq!(c.key_press(Key::Z, false, false), Command::Nothing);
}

#[test]
fn restart_dialog_by_key() {
    let mut c = playing();
    c.key_press(Key::LShift, false, false);
    assert_eq!(c.key_press(Key::Space, false, false), Command::Nothing);
    assert_eq!(c.popup_action, PopupAction::Restart);
    assert_eq!(c.key_press(Key::Left, false, false), Command::Nothing);
    assert_eq!(c.key_press(Key::Return, false, false), Command::NewBoard);
    assert_eq!(c.popup_action, PopupAction::Hidden);
    assert!(!c.ai_mode);
    assert_eq!(c.state, GameState::Playing);
}

#[test]
fn menu_dialog_by_key_and_escape_cancels() {
    let mut c = playing();
    c.key_press(Key::Return, false, false);
    assert_eq!(c.popup_action, PopupAction::BackToMenu);
    c.key_press(Key::Escape, false, false);
    assert_eq!(c.popup_action, PopupAction::Hidden);
    assert_eq!(c.state, GameState::Playing);
    c.key_press(Key::Return, false, false);
    assert_eq!(c.key_press(Key::Return, false, false), Command::Nothing);
    assert!(c.is_main_menu());
}

#[test]
fn achievements_page_by_click_and_back() {
    let mut c = Controller::new();
    let hits = Hits { menu_achievements: true, ..no_hits() };
    assert_eq!(c.mouse_press(true, hits, false, false), Command::Nothing);
    assert_eq!(c.state, GameState::Achievements);
    assert_eq!(c.key_press(Key::Return, false, false), Command::Nothing);
    assert!(c.is_main_menu());
    c.mouse_press(true, hits, false, false);
    let back = Hits { achievements_back: true, ..no_hits() };
    // Any press over the back button leaves the page, a key press too.
    assert_eq!(c.mouse_press(false, back, false, false), Command::Nothing);
    assert!(c.is_main_menu());
}

#[test]
fn menu_clicks_start_and_exit() {
    let mut c = Controller::new();
    assert_eq!(c.mouse_press(true, Hits { menu_exit: true, ..no_hits() }, false, false), Command::Exit);
    assert_eq!(c.mouse_press(false, Hits { menu_start: true, ..no_hits() }, false, false), Command::Nothing);
    assert!(c.is_main_menu());
    assert_eq!(c.mouse_press(true, Hits { menu_start: true, ..no_hits() }, false, false), Command::NewBoard);
    assert_eq!(c.state, GameState::Playing);
}

#[test]
fn playing_buttons() {
    let mut c = playing();
    assert_eq!(c.mouse_press(true, Hits { undo_button: true, ..no_hits() }, false, true), Command::Undo);
    assert_eq!(c.mouse_press(true, Hits { restart_button: true, ..no_hits() }, true, false), Command::Nothing);
    assert_eq!(c.popup_action, PopupAction::Hidden);
    c.mouse_press(true, Hits { restart_button: true, ..no_hits() }, false, false);
    assert_eq!(c.popup_action, PopupAction::Restart);
    assert_eq!(c.mouse_press(true, Hits { popup_cancel: true, ..no_hits() }, false, false), Command::Nothing);
    assert_eq!(c.popup_action, PopupAction::Hidden);
    c.mouse_press(true, Hits { back_button: true, ..no_hits() }, false, false);
    assert_eq!(c.popup_action, PopupAction::BackToMenu);
    assert_eq!(c.mouse_press(true, Hits { popup_confirm: true, ..no_hits() }, false, false), Command::Nothing);
    assert!(c.is_main_menu());
}

#[test]
fn ai_button_toggles_ai_mode() {
    let mut c = playing();
    c.mouse_press(true, Hits { ai_button: true, ..no_hits() }, false, false);
    assert!(c.ai_mode);
    assert_eq!(c.mouse_press(true, Hits { undo_button: true, ..no_hits() }, false, true), Command::Nothing);
}

#[test]
fn new_achievements_open_the_dialog_with_the_first() {
    let mut c = playing();
    let mut a = Achievements::new("");
    assert!(c.check_achievements(&mut a, &[64, 256, 128], 1200));
    assert_eq!(c.popup_action, PopupAction::Achievement);
    assert_eq!(c.current_achievement, Some(AchievementType::Tile256));
    assert!(!a.has_new_achievements());
    assert!(a.is_unlocked(AchievementType::Tile128));
    assert!(a.is_unlocked(AchievementType::Score1000));
    // Only the first is shown; the others are taken with it.
    assert_eq!(c.mouse_press(true, Hits { popup_confirm: true, ..no_hits() }, false, false), Command::Nothing);
    assert_eq!(c.popup_action, PopupAction::Hidden);
    assert_eq!(c.current_achievement, None);
    assert!(!c.check_achievements(&mut a, &[], 0));
    assert_eq!(c.popup_action, PopupAction::Hidden);
    assert!(c.check_achievements(&mut a, &[512], 0));
    assert_eq!(c.current_achievement, Some(AchievementType::Tile512));
}

#[test]
fn nothing_new_leaves_the_controller_alone() {
    let mut c = playing();
    let mut a = Achievements::new("0\n");
    assert!(!c.check_achievements(&mut a, &[128, 8], 10));
    assert_eq!(c.popup_action, PopupAction::Hidden);
    assert_eq!(c.current_achievement, None);
}

#[test]
fn background_shade_steps_with_the_score() {
    assert_eq!(background_color_index(-10), 0);
    assert_eq!(background_color_index(999), 0);
    assert_eq!(background_color_index(1000), 1);
    assert_eq!(background_color_index(4999), 2);
    assert_eq!(background_color_index(5000), 3);
    assert_eq!(background_color_index(9999), 4);
    assert_eq!(background_color_index(10000), 5);
    assert_eq!(background_color_index(15000), 6);
    assert_eq!(background_color_index(i32::MAX), 6);
}

#[test]
fn dialogs_appear_only_over_a_game() {
    let mut c = Controller::new();
    let keys = [Key::Space, Key::Return, Key::Return, Key::Space, Key::Escape, Key::Return, Key::Escape];
    for key in keys {
        c.key_press(key, false, false);
        assert!(c.popup_action == PopupAction::Hidden || c.state == GameState::Playing);
    }
    c.mouse_press(true, Hits { menu_achievements: true, ..no_hits() }, false, false);
    assert_eq!(c.popup_action, PopupAction::Hidden);
}
