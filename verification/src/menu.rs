use vstd::prelude::*;
use vstd::arithmetic::div_mod::lemma_small_mod;

verus! {

/// Number of entries of the main menu: play, select level, instructions.
pub const MAIN_OPTION_COUNT: usize = 3;

/// Which menu screen is showing right now.
#[derive(Clone, Copy, PartialEq, Eq, Structural, Debug)]
pub enum Screen {
    Main,
    LevelSelect,
    Instructions,
}

/// What happened in the menu this frame: nothing, start the game on a
/// level (an index into the level list), or close the application.
#[derive(Clone, Copy, PartialEq, Eq, Structural, Debug)]
pub enum Outcome {
    Nothing,
    StartGame(usize),
    Quit,
}

/// The keys of interest pressed this frame.
#[derive(Clone, Copy)]
pub struct MenuInput {
    /// Up arrow or W.
    pub up: bool,
    /// Down arrow or S.
    pub down: bool,
    /// Enter or space.
    pub confirm: bool,
    /// Escape.
    pub back: bool,
}

/// The result of a menu frame: what happened, and which sounds to play
/// (moving the selection, choosing something).
#[derive(Clone, Copy)]
pub struct MenuResponse {
    pub outcome: Outcome,
    pub move_sound: bool,
    pub select_sound: bool,
}

pub struct Menu {
    pub screen: Screen,
    pub main_selected: usize,
    pub level_selected: usize,
}

/// The selection after pressing up or down among `count` options, wrapping
/// around at both ends.
pub open spec fn navigated(selected: usize, count: usize, up: bool, down: bool) -> usize {
    if count == 0 {
        selected
    } else if up {
        ((selected + count - 1) % (count as int)) as usize
    } else if down {
        ((selected + 1) % (count as int)) as usize
    } else {
        selected
    }
}

proof fn lemma_wrap_up(s: int, count: int, r: int)
    by (nonlinear_arith)
    requires
        s >= 0,
        count > 0,
        r == s % count,
    ensures
        (s + count - 1) % count == (if r == 0 { count - 1 } else { r - 1 }),
{
    let q = s / count;
    assert(s == q * count + r);
    if r == 0 {
        assert(s + count - 1 == q * count + (count - 1));
    } else {
        assert(s + count - 1 == (q + 1) * count + (r - 1));
    }
}

proof fn lemma_wrap_down(s: int, count: int, r: int)
    by (nonlinear_arith)
    requires
        s >= 0,
        count > 0,
        r == s % count,
    ensures
        (s + 1) % count == (if r + 1 == count { 0 } else { r + 1 }),
{
    let q = s / count;
    assert(s == q * count + r);
    if r + 1 == count {
        assert(s + 1 == (q + 1) * count);
    } else {
        assert(s + 1 == q * count + (r + 1));
    }
}

/// Moves `selected` with up or down, cycling within `count` options, and
/// tells whether the selection really changed (to play the move sound):
/// with a single option, or none, pressing a key moves nothing.
fn navigate(selected: &mut usize, count: usize, up: bool, down: bool) -> (moved: bool)
    ensures
        *final(selected) == navigated(*old(selected), count, up, down),
        moved == (*final(selected) != *old(selected)),
{
    if count == 0 {
        return false;
    }
    let before = *selected;
    let r = before % count;
    if up {
        *selected = if r == 0 { count - 1 } else { r - 1 };
        proof {
            lemma_wrap_up(before as int, count as int, r as int);
        }
    } else if down {
        *selected = if r + 1 == count { 0 } else { r + 1 };
        proof {
            lemma_wrap_down(before as int, count as int, r as int);
        }
    }
    *selected != before
}

impl Menu {
    pub fn new() -> (m: Self)
        ensures
            m.screen == Screen::Main,
            m.main_selected == 0,
            m.level_selected == 0,
    {
        Menu { screen: Screen::Main, main_selected: 0, level_selected: 0 }
    }

    /// Handles this frame's keys and tells what happened. Drawing goes
    /// apart: this only changes the state.
    pub fn update(&mut self, input: MenuInput, level_count: usize) -> (r: MenuResponse)
        ensures
            old(self).screen == Screen::Main ==> {
                let sel = navigated(old(self).main_selected, MAIN_OPTION_COUNT, input.up, input.down);
                &&& final(self).main_selected == sel
                &&& final(self).level_selected == old(self).level_selected
                &&& r.move_sound == (final(self).main_selected != old(self).main_selected)
                &&& r.select_sound == input.confirm
                &&& input.confirm ==> (
                    (sel == 0 ==> r.outcome == Outcome::StartGame(old(self).level_selected) && final(self).screen == Screen::Main)
                    && (sel == 1 ==> r.outcome == Outcome::Nothing && final(self).screen == Screen::LevelSelect)
                    && (sel == 2 ==> r.outcome == Outcome::Nothing && final(self).screen == Screen::Instructions)
                    && (sel > 2 ==> r.outcome == Outcome::Nothing && final(self).screen == Screen::Main))
                &&& !input.confirm ==> final(self).screen == Screen::Main
                    && r.outcome == (if input.back { Outcome::Quit } else { Outcome::Nothing })
            },
            old(self).screen == Screen::LevelSelect ==> {
                let sel = navigated(old(self).level_selected, level_count, input.up, input.down);
                &&& final(self).level_selected == sel
                &&& final(self).main_selected == old(self).main_selected
                &&& r.move_sound == (final(self).level_selected != old(self).level_selected)
                &&& input.confirm ==> r.outcome == Outcome::StartGame(sel) && r.select_sound
                    && final(self).screen == Screen::LevelSelect
                &&& !input.confirm ==> r.outcome == Outcome::Nothing && r.select_sound == input.back
                    && final(self).screen == (if input.back { Screen::Main } else { Screen::LevelSelect })
            },
            old(self).screen == Screen::Instructions ==> {
                &&& final(self).main_selected == old(self).main_selected
                &&& final(self).level_selected == old(self).level_selected
                &&& r.outcome == Outcome::Nothing
                &&& !r.move_sound
                &&& r.select_sound == (input.back || input.confirm)
                &&& final(self).screen == (if input.back || input.confirm { Screen::Main } else { Screen::Instructions })
            },
    {
        match self.screen {
            Screen::Main => self.update_main(input),
            Screen::LevelSelect => self.update_level_select(input, level_count),
            Screen::Instructions => self.update_instructions(input),
        }
    }

    fn update_main(&mut self, input: MenuInput) -> (r: MenuResponse)
        requires
            old(self).screen == Screen::Main,
        ensures
            ({
                let sel = navigated(old(self).main_selected, MAIN_OPTION_COUNT, input.up, input.down);
                &&& final(self).main_selected == sel
                &&& final(self).level_selected == old(self).level_selected
                &&& r.move_sound == (final(self).main_selected != old(self).main_selected)
                &&& r.select_sound == input.confirm
                &&& input.confirm ==> (
                    (sel == 0 ==> r.outcome == Outcome::StartGame(old(self).level_selected) && final(self).screen == Screen::Main)
                    && (sel == 1 ==> r.outcome == Outcome::Nothing && final(self).screen == Screen::LevelSelect)
                    && (sel == 2 ==> r.outcome == Outcome::Nothing && final(self).screen == Screen::Instructions)
                    && (sel > 2 ==> r.outcome == Outcome::Nothing && final(self).screen == Screen::Main))
                &&& !input.confirm ==> final(self).screen == Screen::Main
                    && r.outcome == (if input.back { Outcome::Quit } else { Outcome::Nothing })
            }),
    {
        let moved = navigate(&mut self.main_selected, MAIN_OPTION_COUNT, input.up, input.down);
        if input.confirm {
            let outcome = if self.main_selected == 0 {
                Outcome::StartGame(self.level_selected)
            } else if self.main_selected == 1 {
                self.screen = Screen::LevelSelect;
                Outcome::Nothing
            } else if self.main_selected == 2 {
                self.screen = Screen::Instructions;
                Outcome::Nothing
            } else {
                Outcome::Nothing
            };
            return MenuResponse { outcome, move_sound: moved, select_sound: true };
        }
        if input.back {
            return MenuResponse { outcome: Outcome::Quit, move_sound: moved, select_sound: false };
        }
        MenuResponse { outcome: Outcome::Nothing, move_sound: moved, select_sound: false }
    }

    fn update_level_select(&mut self, input: MenuInput, level_count: usize) -> (r: MenuResponse)
        requires
            old(self).screen == Screen::LevelSelect,
        ensures
            ({
                let sel = navigated(old(self).level_selected, level_count, input.up, input.down);
                &&& final(self).level_selected == sel
                &&& final(self).main_selected == old(self).main_selected
                &&& r.move_sound == (final(self).level_selected != old(self).level_selected)
                &&& input.confirm ==> r.outcome == Outcome::StartGame(sel) && r.select_sound
                    && final(self).screen == Screen::LevelSelect
                &&& !input.confirm ==> r.outcome == Outcome::Nothing && r.select_sound == input.back
                    && final(self).screen == (if input.back { Screen::Main } else { Screen::LevelSelect })
            }),
    {
        let moved = navigate(&mut self.level_selected, level_count, input.up, input.down);
        if input.confirm {
            return MenuResponse {
                outcome: Outcome::StartGame(self.level_selected),
                move_sound: moved,
                select_sound: true,
            };
        }
        if input.back {
            self.screen = Screen::Main;
            return MenuResponse { outcome: Outcome::Nothing, move_sound: moved, select_sound: true };
        }
        MenuResponse { outcome: Outcome::Nothing, move_sound: moved, select_sound: false }
    }

    fn update_instructions(&mut self, input: MenuInput) -> (r: MenuResponse)
        requires
            old(self).screen == Screen::Instructions,
        ensures
            final(self).main_selected == old(self).main_selected,
            final(self).level_selected == old(self).level_selected,
            r.outcome == Outcome::Nothing,
            !r.move_sound,
            r.select_sound == (input.back || input.confirm),
            final(self).screen == (if input.back || input.confirm { Screen::Main } else { Screen::Instructions }),
    {
        if input.back || input.confirm {
            self.screen = Screen::Main;
            return MenuResponse { outcome: Outcome::Nothing, move_sound: false, select_sound: true };
        }
        MenuResponse { outcome: Outcome::Nothing, move_sound: false, select_sound: false }
    }
}

/// Selections stay in range: with at least one option, navigating always
/// lands on one of them.
pub proof fn lemma_navigation_in_range(selected: usize, count: usize, up: bool, down: bool)
    requires
        count > 0,
        selected < count,
    ensures
        navigated(selected, count, up, down) < count,
{
}

/// Going up then down (or down then up) comes back to the same option.
pub proof fn lemma_navigation_round_trip(selected: usize, count: usize)
    requires
        count > 0,
        selected < count,
    ensures
        navigated(navigated(selected, count, true, false), count, false, true) == selected,
        navigated(navigated(selected, count, false, true), count, true, false) == selected,
{
    let u = navigated(selected, count, true, false);
    let d = navigated(selected, count, false, true);
    lemma_small_mod(selected as nat, count as nat);
    lemma_wrap_up(selected as int, count as int, selected as int);
    lemma_wrap_down(selected as int, count as int, selected as int);
    lemma_small_mod(u as nat, count as nat);
    lemma_wrap_down(u as int, count as int, u as int);
    lemma_small_mod(d as nat, count as nat);
    lemma_wrap_up(d as int, count as int, d as int);
}

/// Among `count` options, from a valid selection `s`: up goes to the
/// previous option, from the first to the last, and wins over down; down
/// goes to the next one, from the last to the first; no key keeps the
/// selection, and so does any key with no options at all.
pub proof fn lemma_navigation_steps(s: usize, count: usize)
    requires
        count == 0 || s < count,
    ensures
        count == 0 ==> forall|up: bool, down: bool| #[trigger] navigated(s, count, up, down) == s,
        count > 0 ==> navigated(s, count, true, false) == (if s == 0 { count - 1 } else { s - 1 }),
        count > 0 ==> navigated(s, count, true, true) == navigated(s, count, true, false),
        count > 0 ==> navigated(s, count, false, true) == (if s + 1 == count { 0 } else { s + 1 }),
        navigated(s, count, false, false) == s,
{
    if count > 0 {
        lemma_small_mod(s as nat, count as nat);
        lemma_wrap_up(s as int, count as int, s as int);
        lemma_wrap_down(s as int, count as int, s as int);
    }
}

} // verus!
