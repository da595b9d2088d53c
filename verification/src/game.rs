use vstd::prelude::*;
use crate::ai::Direction;
use crate::achievements::{
    AchievementType,
    Achievements,
    tile_unlocks,
    tile_achievement,
    score_unlocks,
    score_reached,
};

verus! {

/// The screen the game shows.
#[derive(Clone, Copy, Debug, PartialEq, Eq, Structural)]
pub enum GameState {
    MainMenu,
    Playing,
    Achievements,
}

/// The dialog shown over the board, if any.
#[derive(Clone, Copy, Debug, PartialEq, Eq, Structural)]
pub enum PopupAction {
    Hidden,
    Restart,
    BackToMenu,
    Achievement,
}

/// The keys the game reacts to; every other key is `Other`.
#[derive(Clone, Copy, Debug, PartialEq, Eq, Structural)]
pub enum Key {
    Space,
    Escape,
    Return,
    LShift,
    RShift,
    Z,
    Left,
    Right,
    Up,
    Down,
    Other,
}

/// What the game asks of the board and the program after an input.
#[derive(Clone, Copy, Debug, PartialEq, Eq, Structural)]
pub enum Command {
    /// Nothing to do.
    Nothing,
    /// Start a new board.
    NewBoard,
    /// Leave the program.
    Exit,
    /// Take back the last move.
    Undo,
    /// Push the tiles in a direction.
    Move(Direction),
}

/// Which clickable regions of the window hold the pointer. The confirm
/// button of a dialog sits elsewhere for the achievement dialog than for
/// the other two, so `popup_confirm` is taken for the dialog shown.
#[derive(Clone, Copy, Debug)]
pub struct Hits {
    pub popup_confirm: bool,
    pub popup_cancel: bool,
    pub ai_button: bool,
    pub undo_button: bool,
    pub restart_button: bool,
    pub back_button: bool,
    pub menu_start: bool,
    pub menu_exit: bool,
    pub menu_achievements: bool,
    pub achievements_back: bool,
}

/// The screen, dialog and mode of the game.
#[derive(Clone, Copy, Debug)]
pub struct Controller {
    pub state: GameState,
    pub popup_action: PopupAction,
    pub ai_mode: bool,
    pub current_achievement: Option<AchievementType>,
}

/// A controller with the given fields.
pub open spec fn ctl(
    state: GameState,
    popup_action: PopupAction,
    ai_mode: bool,
    current_achievement: Option<AchievementType>,
) -> Controller {
    Controller { state, popup_action, ai_mode, current_achievement }
}

/// The controller and command after a key press. `locking` tells whether
/// the board is busy animating, `can_undo` whether it has a move to take
/// back.
pub open spec fn after_key(c: Controller, key: Key, locking: bool, can_undo: bool) -> (Controller, Command) {
    if c.state == GameState::MainMenu {
        if key == Key::Space {
            (Controller { state: GameState::Playing, ..c }, Command::NewBoard)
        } else if key == Key::Escape {
            (c, Command::Exit)
        } else {
            (c, Command::Nothing)
        }
    } else if c.state == GameState::Achievements {
        if key == Key::Escape || key == Key::Return {
            (Controller { state: GameState::MainMenu, ..c }, Command::Nothing)
        } else {
            (c, Command::Nothing)
        }
    } else if c.popup_action != PopupAction::Hidden {
        if key == Key::Return {
            match c.popup_action {
                PopupAction::Restart => (
                    Controller { popup_action: PopupAction::Hidden, ai_mode: false, ..c },
                    Command::NewBoard,
                ),
                PopupAction::BackToMenu => (
                    Controller {
                        state: GameState::MainMenu,
                        popup_action: PopupAction::Hidden,
                        ai_mode: false,
                        ..c
                    },
                    Command::Nothing,
                ),
                _ => (Controller { popup_action: PopupAction::Hidden, ..c }, Command::Nothing),
            }
        } else if key == Key::Escape {
            (Controller { popup_action: PopupAction::Hidden, ..c }, Command::Nothing)
        } else {
            (c, Command::Nothing)
        }
    } else if key == Key::LShift || key == Key::RShift {
        (Controller { ai_mode: !c.ai_mode, ..c }, Command::Nothing)
    } else if key == Key::Space {
        (Controller { popup_action: PopupAction::Restart, ..c }, Command::Nothing)
    } else if key == Key::Return {
        (Controller { popup_action: PopupAction::BackToMenu, ..c }, Command::Nothing)
    } else if key == Key::Z {
        if !c.ai_mode && !locking && can_undo {
            (c, Command::Undo)
        } else {
            (c, Command::Nothing)
        }
    } else if c.ai_mode {
        (c, Command::Nothing)
    } else {
        match key {
            Key::Left => (c, Command::Move(Direction::Left)),
            Key::Right => (c, Command::Move(Direction::Right)),
            Key::Up => (c, Command::Move(Direction::Up)),
            Key::Down => (c, Command::Move(Direction::Down)),
            _ => (c, Command::Nothing),
        }
    }
}

/// The unlocked achievements after the tile values `vals[..k]` are checked
/// one by one, starting from `set`.
pub open spec fn unlocked_after_tiles(set: Set<AchievementType>, vals: Seq<i32>, k: int) -> Set<
    AchievementType,
>
    decreases k,
{
    if k <= 0 {
        set
    } else {
        let prev = unlocked_after_tiles(set, vals, k - 1);
        match tile_achievement(vals[k - 1]) {
            Some(a) => prev.insert(a),
            None => prev,
        }
    }
}

/// The achievements newly unlocked, in order, when the tile values
/// `vals[..k]` are checked one by one, starting from `set`.
pub open spec fn added_by_tiles(set: Set<AchievementType>, vals: Seq<i32>, k: int) -> Seq<
    AchievementType,
>
    decreases k,
{
    if k <= 0 {
        seq![]
    } else {
        added_by_tiles(set, vals, k - 1) + tile_unlocks(vals[k - 1], unlocked_after_tiles(set, vals, k - 1))
    }
}

/// The controller and command after a mouse press (`left` tells whether it
/// was the left button; every press reaches here, key presses too) with the
/// pointer over the regions `hits`.
pub open spec fn after_click(c: Controller, left: bool, hits: Hits, locking: bool, can_undo: bool) -> (
    Controller,
    Command,
) {
    if !left {
        (back_from_achievements(c, hits), Command::Nothing)
    } else if c.popup_action == PopupAction::Achievement && hits.popup_confirm {
        (
            Controller { popup_action: PopupAction::Hidden, current_achievement: None, ..c },
            Command::Nothing,
        )
    } else if c.popup_action != PopupAction::Hidden && c.popup_action != PopupAction::Achievement
        && hits.popup_confirm {
        match c.popup_action {
            PopupAction::Restart => (
                Controller { popup_action: PopupAction::Hidden, ai_mode: false, ..c },
                Command::NewBoard,
            ),
            _ => (
                Controller {
                    state: GameState::MainMenu,
                    popup_action: PopupAction::Hidden,
                    ai_mode: false,
                    ..c
                },
                Command::Nothing,
            ),
        }
    } else if c.popup_action != PopupAction::Hidden && c.popup_action != PopupAction::Achievement
        && hits.popup_cancel {
        (Controller { popup_action: PopupAction::Hidden, ..c }, Command::Nothing)
    } else if c.state == GameState::Playing {
        if hits.ai_button {
            (Controller { ai_mode: !c.ai_mode, ..c }, Command::Nothing)
        } else if hits.undo_button {
            if !c.ai_mode && !locking && can_undo {
                (c, Command::Undo)
            } else {
                (c, Command::Nothing)
            }
        } else if hits.restart_button {
            if !locking {
                (Controller { popup_action: PopupAction::Restart, ..c }, Command::Nothing)
            } else {
                (c, Command::Nothing)
            }
        } else if hits.back_button {
            (Controller { popup_action: PopupAction::BackToMenu, ..c }, Command::Nothing)
        } else {
            (c, Command::Nothing)
        }
    } else if hits.menu_start {
        (Controller { state: GameState::Playing, ..c }, Command::NewBoard)
    } else if hits.menu_exit {
        (c, Command::Exit)
    } else if hits.menu_achievements {
        (back_from_achievements(Controller { state: GameState::Achievements, ..c }, hits), Command::Nothing)
    } else {
        (back_from_achievements(c, hits), Command::Nothing)
    }
}

/// On the achievements page, a press over its back button returns to the
/// main menu.
pub open spec fn back_from_achievements(c: Controller, hits: Hits) -> Controller {
    if c.state == GameState::Achievements && hits.achievements_back {
        Controller { state: GameState::MainMenu, ..c }
    } else {
        c
    }
}

/// The background shade for a score: 0 below 1000, then one step at each of
/// 1000, 3000, 5000, 7000, 10000 and 15000.
pub open spec fn score_shade(score: i32) -> int {
    if score < 1000 {
        0
    } else if score < 3000 {
        1
    } else if score < 5000 {
        2
    } else if score < 7000 {
        3
    } else if score < 10000 {
        4
    } else if score < 15000 {
        5
    } else {
        6
    }
}

/// The index of the background colour for a score, among the seven score
/// colours.
pub fn background_color_index(score: i32) -> (r: usize)
    ensures
        r == score_shade(score),
        r < 7,
{
    if score < 1000 {
        0
    } else if score < 3000 {
        1
    } else if score < 5000 {
        2
    } else if score < 7000 {
        3
    } else if score < 10000 {
        4
    } else if score < 15000 {
        5
    } else {
        6
    }
}

impl Controller {
    /// The controller of a game that starts on the main menu.
    pub fn new() -> (c: Controller)
        ensures
            c == ctl(GameState::MainMenu, PopupAction::Hidden, false, None),
    {
        Controller {
            state: GameState::MainMenu,
            popup_action: PopupAction::Hidden,
            ai_mode: false,
            current_achievement: None,
        }
    }

    /// Whether the main menu is shown.
    pub fn is_main_menu(&self) -> (r: bool)
        ensures
            r == (self.state == GameState::MainMenu),
    {
        self.state == GameState::MainMenu
    }

    /// Handles a key press: changes screen, dialog or mode, and returns what
    /// the board or the program must do.
    pub fn key_press(&mut self, key: Key, locking: bool, can_undo: bool) -> (cmd: Command)
        ensures
            (*final(self), cmd) == after_key(*old(self), key, locking, can_undo),
    {
        if self.state == GameState::MainMenu {
            if key == Key::Space {
                self.state = GameState::Playing;
                return Command::NewBoard;
            }
            if key == Key::Escape {
                return Command::Exit;
            }
            return Command::Nothing;
        }
        if self.state == GameState::Achievements {
            if key == Key::Escape || key == Key::Return {
                self.state = GameState::MainMenu;
            }
            return Command::Nothing;
        }
        if self.popup_action != PopupAction::Hidden {
            let mut cmd = Command::Nothing;
            if key == Key::Return {
                match self.popup_action {
                    PopupAction::Restart => {
                        cmd = Command::NewBoard;
                        self.ai_mode = false;
                    },
                    PopupAction::BackToMenu => {
                        self.state = GameState::MainMenu;
                        self.ai_mode = false;
                    },
                    _ => {},
                }
                self.popup_action = PopupAction::Hidden;
            } else if key == Key::Escape {
                self.popup_action = PopupAction::Hidden;
            }
            return cmd;
        }
        if key == Key::LShift || key == Key::RShift {
            self.ai_mode = !self.ai_mode;
            return Command::Nothing;
        }
        if key == Key::Space {
            self.popup_action = PopupAction::Restart;
            return Command::Nothing;
        }
        if key == Key::Return {
            self.popup_action = PopupAction::BackToMenu;
            return Command::Nothing;
        }
        if key == Key::Z {
            if !self.ai_mode && !locking && can_undo {
                return Command::Undo;
            }
            return Command::Nothing;
        }
        if self.ai_mode {
            return Command::Nothing;
        }
        match key {
            Key::Left => Command::Move(Direction::Left),
            Key::Right => Command::Move(Direction::Right),
            Key::Up => Command::Move(Direction::Up),
            Key::Down => Command::Move(Direction::Down),
            _ => Command::Nothing,
        }
    }

    /// Handles a press with the pointer over the regions `hits`; `left`
    /// tells whether it was the left mouse button.
    pub fn mouse_press(&mut self, left: bool, hits: Hits, locking: bool, can_undo: bool) -> (cmd: Command)
        ensures
            (*final(self), cmd) == after_click(*old(self), left, hits, locking, can_undo),
    {
        if left {
            if self.popup_action != PopupAction::Hidden {
                if self.popup_action == PopupAction::Achievement {
                    if hits.popup_confirm {
                        self.popup_action = PopupAction::Hidden;
                        self.current_achievement = None;
                        return Command::Nothing;
                    }
                } else {
                    if hits.popup_confirm {
                        let mut cmd = Command::Nothing;
                        match self.popup_action {
                            PopupAction::Restart => {
                                cmd = Command::NewBoard;
                                self.ai_mode = false;
                            },
                            PopupAction::BackToMenu => {
                                self.state = GameState::MainMenu;
                                self.ai_mode = false;
                            },
                            _ => {},
                        }
                        self.popup_action = PopupAction::Hidden;
                        return cmd;
                    }
                    if hits.popup_cancel {
                        self.popup_action = PopupAction::Hidden;
                        return Command::Nothing;
                    }
                }
            }
            if self.state == GameState::Playing {
                if hits.ai_button {
                    self.ai_mode = !self.ai_mode;
                    return Command::Nothing;
                }
                if hits.undo_button {
                    if !self.ai_mode && !locking && can_undo {
                        return Command::Undo;
                    }
                    return Command::Nothing;
                }
                if hits.restart_button {
                    if !locking {
                        self.popup_action = PopupAction::Restart;
                    }
                    return Command::Nothing;
                }
                if hits.back_button {
                    self.popup_action = PopupAction::BackToMenu;
                    return Command::Nothing;
                }
                return Command::Nothing;
            }
            if hits.menu_start {
                self.state = GameState::Playing;
                return Command::NewBoard;
            }
            if hits.menu_exit {
                return Command::Exit;
            }
            if hits.menu_achievements {
                self.state = GameState::Achievements;
            }
        }
        if self.state == GameState::Achievements && hits.achievements_back {
            self.state = GameState::MainMenu;
        }
        Command::Nothing
    }

    /// While a game is shown with no dialog, checks the tile values that
    /// newly appeared on the board and the score against the achievements,
    /// then, when some achievement is pending, takes all pending achievements
    /// and shows the first in the achievement dialog. Returns whether
    /// anything was unlocked, that is whether the saved text has changed.
    pub fn check_achievements(
        &mut self,
        achievements: &mut Achievements,
        new_tile_values: &[i32],
        score: i32,
    ) -> (changed: bool)
        requires
            old(self).state == GameState::Playing,
            old(self).popup_action == PopupAction::Hidden,
        ensures
            final(achievements).consistent(),
            dialog_only_while_playing(*final(self)),
            ({
                let set0 = old(achievements).unlocked_set();
                let n = new_tile_values@.len() as int;
                let set1 = unlocked_after_tiles(set0, new_tile_values@, n);
                let added = added_by_tiles(set0, new_tile_values@, n) + score_unlocks(score, set1);
                let pending = old(achievements).pending() + added;
                &&& final(achievements).unlocked_set() == set1.union(score_reached(score))
                &&& changed == (added.len() > 0)
                &&& if pending.len() > 0 {
                    &&& final(achievements).pending() == Seq::<AchievementType>::empty()
                    &&& *final(self) == Controller {
                        current_achievement: Some(pending[0]),
                        popup_action: PopupAction::Achievement,
                        ..*old(self)
                    }
                } else {
                    &&& final(achievements).pending() == pending
                    &&& *final(self) == *old(self)
                }
            }),
    {
        let ghost set0 = achievements.unlocked_set();
        let ghost pending0 = achievements.pending();
        let mut changed = false;
        let mut i: usize = 0;
        assert(pending0 + added_by_tiles(set0, new_tile_values@, 0) =~= pending0);
        while i < new_tile_values.len()
            invariant
                i <= new_tile_values@.len(),
                achievements.unlocked_set() == unlocked_after_tiles(set0, new_tile_values@, i as int),
                achievements.pending() == pending0 + added_by_tiles(set0, new_tile_values@, i as int),
                changed == (added_by_tiles(set0, new_tile_values@, i as int).len() > 0),
            decreases new_tile_values@.len() - i,
        {
            let ghost before = added_by_tiles(set0, new_tile_values@, i as int);
            if achievements.check_tile_achievement(new_tile_values[i]) {
                changed = true;
            }
            assert(pending0 + added_by_tiles(set0, new_tile_values@, i + 1) =~= pending0 + before
                + tile_unlocks(new_tile_values@[i as int], unlocked_after_tiles(set0, new_tile_values@, i as int)));
            i = i + 1;
        }
        let ghost tiles_added = added_by_tiles(set0, new_tile_values@, i as int);
        if achievements.check_score_achievement(score) {
            changed = true;
        }
        let ghost added = tiles_added + score_unlocks(score, unlocked_after_tiles(set0, new_tile_values@, i as int));
        assert(achievements.pending() =~= pending0 + added);
        if achievements.has_new_achievements() && self.popup_action == PopupAction::Hidden {
            let new_achievements = achievements.take_new_achievements();
            if new_achievements.len() > 0 {
                self.current_achievement = Some(new_achievements[0]);
                self.popup_action = PopupAction::Achievement;
            }
        }
        changed
    }
}

/// Law: a key press asks for a move only while a game is shown with no
/// dialog and the AI is off, and for an undo only when, besides, the board
/// is idle and has a move to take back.
pub proof fn lemma_key_commands_guarded(c: Controller, key: Key, locking: bool, can_undo: bool)
    ensures
        ({
            let (c2, cmd) = after_key(c, key, locking, can_undo);
            &&& cmd is Move ==> c.state == GameState::Playing && c.popup_action == PopupAction::Hidden
                && !c.ai_mode && c2 == c
            &&& cmd is Undo ==> c.state == GameState::Playing && c.popup_action == PopupAction::Hidden
                && !c.ai_mode && !locking && can_undo && c2 == c
        }),
{
}

/// Law: a mouse press never asks for a move, and asks for an undo only
/// while a game is shown, the AI is off, and the board is idle and has a
/// move to take back.
pub proof fn lemma_click_commands_guarded(
    c: Controller,
    left: bool,
    hits: Hits,
    locking: bool,
    can_undo: bool,
)
    ensures
        ({
            let (c2, cmd) = after_click(c, left, hits, locking, can_undo);
            &&& !(cmd is Move)
            &&& cmd is Undo ==> c.state == GameState::Playing && !c.ai_mode && !locking && can_undo
                && c2 == c
        }),
{
}

/// Law: confirming a restart or a return to the menu, by key or by click,
/// turns the AI off and closes the dialog.
pub proof fn lemma_confirm_turns_ai_off(c: Controller, hits: Hits, locking: bool, can_undo: bool)
    requires
        c.state == GameState::Playing,
        c.popup_action == PopupAction::Restart || c.popup_action == PopupAction::BackToMenu,
        hits.popup_confirm,
    ensures
        !after_key(c, Key::Return, locking, can_undo).0.ai_mode,
        after_key(c, Key::Return, locking, can_undo).0.popup_action == PopupAction::Hidden,
        !after_click(c, true, hits, locking, can_undo).0.ai_mode,
        after_click(c, true, hits, locking, can_undo).0.popup_action == PopupAction::Hidden,
        after_key(c, Key::Return, locking, can_undo) == after_click(c, true, hits, locking, can_undo),
{
}

/// A dialog is shown only over a game.
pub open spec fn dialog_only_while_playing(c: Controller) -> bool {
    c.popup_action != PopupAction::Hidden ==> c.state == GameState::Playing
}

/// Law: a dialog is shown only while a game is shown: the controller starts
/// without one, and key presses and mouse presses keep it so (achievement
/// checks too: see the `ensures` of `Controller::check_achievements`).
pub proof fn lemma_dialog_only_while_playing(
    c: Controller,
    key: Key,
    left: bool,
    hits: Hits,
    locking: bool,
    can_undo: bool,
)
    requires
        dialog_only_while_playing(c),
    ensures
        dialog_only_while_playing(ctl(GameState::MainMenu, PopupAction::Hidden, false, None)),
        dialog_only_while_playing(after_key(c, key, locking, can_undo).0),
        dialog_only_while_playing(after_click(c, left, hits, locking, can_undo).0),
{
}

/// Law: on the achievements page, Escape and Return go back to the main
/// menu, every other key is ignored, and no key asks anything of the board;
/// nothing but the screen changes.
pub proof fn lemma_keys_on_achievements_page(c: Controller, key: Key, locking: bool, can_undo: bool)
    requires
        c.state == GameState::Achievements,
    ensures
        after_key(c, key, locking, can_undo).1 == Command::Nothing,
        (key == Key::Escape || key == Key::Return) ==> after_key(c, key, locking, can_undo).0
            == (Controller { state: GameState::MainMenu, ..c }),
        !(key == Key::Escape || key == Key::Return) ==> after_key(c, key, locking, can_undo).0 == c,
{
}

/// Law: on the achievements page (where no dialog is shown) a press of any
/// button with the pointer over the page's back button, and over no button
/// of the main menu, goes back to the main menu and asks nothing of the
/// board; nothing but the screen changes.
pub proof fn lemma_back_button_leaves_achievements_page(
    c: Controller,
    left: bool,
    hits: Hits,
    locking: bool,
    can_undo: bool,
)
    requires
        c.state == GameState::Achievements,
        c.popup_action == PopupAction::Hidden,
        hits.achievements_back,
        !hits.menu_start,
        !hits.menu_exit,
    ensures
        after_click(c, left, hits, locking, can_undo).0 == (Controller { state: GameState::MainMenu, ..c }),
        after_click(c, left, hits, locking, can_undo).1 == Command::Nothing,
{
}

} // verus!
