use mazetot::menu::{Menu, MenuInput, Outcome, Screen, MAIN_OPTION_COUNT};

fn keys(up: bool, down: bool, confirm: bool, back: bool) -> MenuInput {
    MenuInput { up, down, confirm, back }
}

const NONE: MenuInput = MenuInput { up: false, down: false, confirm: false, back: false };

#[test]
fn main_menu_cycles_through_its_options() {
    let mut menu = Menu::new();
    assert_eq!(menu.screen, Screen::Main);
    let r = menu.update(keys(true, false, false, false), 3);
    assert!(r.move_sound);
    assert_eq!(menu.main_selected, MAIN_OPTION_COUNT - 1);
    menu.update(keys(false, true, false, false), 3);
    assert_eq!(menu.main_selected, 0);
    menu.update(keys(false, true, false, false), 3);
    menu.update(keys(false, true, false, false), 3);
    menu.update(keys(false, true, false, false), 3);
    assert_eq!(menu.main_selected, 0);
}

#[test]
fn play_starts_the_selected_level() {
    let mut menu = Menu::new();
    menu.level_selected = 2;
    let r = menu.update(keys(false, false, true, false), 3);
    assert_eq!(r.outcome, Outcome::StartGame(2));
    assert!(r.select_sound);
}

#[test]
fn level_select_and_back() {
    let mut menu = Menu::new();
    menu.update(keys(false, true, false, false), 3);
    let r = menu.update(keys(false, false, true, false), 3);
    assert_eq!(r.outcome, Outcome::Nothing);
    assert_eq!(menu.screen, Screen::LevelSelect);
    menu.update(keys(true, false, false, false), 3);
    assert_eq!(menu.level_selected, 2);
    let r = menu.update(keys(false, false, true, false), 3);
    assert_eq!(r.outcome, Outcome::StartGame(2));
    let r = menu.update(keys(false, false, false, true), 3);
    assert_eq!(r.outcome, Outcome::Nothing);
    assert!(r.select_sound);
    assert_eq!(menu.screen, Screen::Main);
    assert_eq!(menu.main_selected, 1);
}

#[test]
fn instructions_close_with_enter_or_escape() {
    let mut menu = Menu::new();
    menu.main_selected = 2;
    menu.update(keys(false, false, true, false), 3);
    assert_eq!(menu.screen, Screen::Instructions);
    let r = menu.update(NONE, 3);
    assert_eq!(menu.screen, Screen::Instructions);
    assert!(!r.select_sound && !r.move_sound);
    menu.update(keys(true, false, false, false), 3);
    assert_eq!(menu.screen, Screen::Instructions);
    menu.update(keys(false, false, false, true), 3);
    assert_eq!(menu.screen, Screen::Main);
}

#[test]
fn escape_on_the_main_screen_quits() {
    let mut menu = Menu::new();
    assert_eq!(menu.update(keys(false, false, false, true), 3).outcome, Outcome::Quit);
    assert_eq!(menu.update(NONE, 3).outcome, Outcome::Nothing);
}

#[test]
fn no_levels_means_no_movement() {
    let mut menu = Menu::new();
    menu.screen = Screen::LevelSelect;
    let r = menu.update(keys(false, true, false, false), 0);
    assert!(!r.move_sound);
    assert_eq!(menu.level_selected, 0);
}

#[test]
fn navigation_wraps_from_an_out_of_range_selection() {
    let mut menu = Menu::new();
    menu.screen = Screen::LevelSelect;
    menu.level_selected = 7;
    menu.update(keys(false, true, false, false), 3);
    assert_eq!(menu.level_selected, 2);
    menu.level_selected = usize::MAX;
    menu.update(keys(false, true, false, false), 3);
    assert_eq!(menu.level_selected, 1);
    menu.level_selected = usize::MAX;
    menu.update(keys(true, false, false, false), 3);
    assert_eq!(menu.level_selected, 2);
}

#[test]
fn a_single_level_makes_no_move_sound() {
    let mut menu = Menu::new();
    menu.screen = Screen::LevelSelect;
    let r = menu.update(keys(true, false, false, false), 1);
    assert!(!r.move_sound);
    assert_eq!(menu.level_selected, 0);
    let r = menu.update(keys(false, true, false, false), 1);
    assert!(!r.move_sound);
    assert_eq!(menu.level_selected, 0);
}

#[test]
fn moving_off_an_out_of_range_selection_sounds() {
    let mut menu = Menu::new();
    menu.screen = Screen::LevelSelect;
    menu.level_selected = 4;
    let r = menu.update(keys(false, true, false, false), 1);
    assert!(r.move_sound);
    assert_eq!(menu.level_selected, 0);
}
