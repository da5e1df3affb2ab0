//! Items shared with the user-interface shell: the menu buttons and the
//! marker type its plugin hangs off. The behavior of the interface itself —
//! windows, rendering, input — lives outside the verified core.
use vstd::prelude::*;

use vstd::string::StringExecFns;

verus! {

/// The buttons of the menu bar: restart the level, play the solution, or
/// switch the glass height.
pub enum GameButton {
    Restart,
    Solution,
    Size3,
    Size4,
    Size5,
}

/// Marker type for the user-interface plugin; the unverified shell hangs
/// the actual windowing behavior off its own copy of this marker.
pub struct UIPlugin;

impl GameButton {
    /// The label a button shows.
    pub open spec fn label(self) -> Seq<char> {
        match self {
            GameButton::Restart => "Restart"@,
            GameButton::Solution => "Solution"@,
            GameButton::Size3 => "3"@,
            GameButton::Size4 => "4"@,
            GameButton::Size5 => "5"@,
        }
    }

    /// The label shown on the button.
    pub fn name(&self) -> (r: String)
        ensures
            r@ == self.label(),
    {
        match self {
            GameButton::Restart => String::from_str("Restart"),
            GameButton::Solution => String::from_str("Solution"),
            GameButton::Size3 => String::from_str("3"),
            GameButton::Size4 => String::from_str("4"),
            GameButton::Size5 => String::from_str("5"),
        }
    }
}

/// What a pointer is doing to a button, as the shell reports it.
pub enum ButtonInteraction {
    Clicked,
    Hovered,
    Idle,
}

/// How a button should be drawn.
pub enum ButtonVisual {
    Pressed,
    Hovered,
    Normal,
}

/// The menu bar's buttons, in the order the shell lays them out.
pub fn init_ui() -> (r: Vec<GameButton>)
    ensures
        r@ == seq![
            GameButton::Restart,
            GameButton::Solution,
            GameButton::Size3,
            GameButton::Size4,
            GameButton::Size5,
        ],
{
    let mut r: Vec<GameButton> = Vec::new();
    r.push(GameButton::Restart);
    r.push(GameButton::Solution);
    r.push(GameButton::Size3);
    r.push(GameButton::Size4);
    r.push(GameButton::Size5);
    proof {
        assert(r@ =~= seq![
            GameButton::Restart,
            GameButton::Solution,
            GameButton::Size3,
            GameButton::Size4,
            GameButton::Size5,
        ]);
    }
    r
}

/// How a button reacts to the pointer: pressed while clicked, highlighted
/// while hovered, plain otherwise.
pub fn button_system(interaction: &ButtonInteraction) -> (r: ButtonVisual)
    ensures
        r == (match interaction {
            ButtonInteraction::Clicked => ButtonVisual::Pressed,
            ButtonInteraction::Hovered => ButtonVisual::Hovered,
            ButtonInteraction::Idle => ButtonVisual::Normal,
        }),
{
    match interaction {
        ButtonInteraction::Clicked => ButtonVisual::Pressed,
        ButtonInteraction::Hovered => ButtonVisual::Hovered,
        ButtonInteraction::Idle => ButtonVisual::Normal,
    }
}

/// What a press of a menu button asks the game to do.
pub enum ButtonAction {
    RestartLevel,
    PlaySolution,
    Resize(usize),
    Ignore,
}

/// The action a button press triggers. The solution button always replays
/// from the start; restarting and switching the glass height are ignored
/// while a solution is being played back.
pub fn button_press_system(button: &GameButton, autoplay_running: bool) -> (r: ButtonAction)
    ensures
        r == (match button {
            GameButton::Restart => if autoplay_running {
                ButtonAction::Ignore
            } else {
                ButtonAction::RestartLevel
            },
            GameButton::Solution => ButtonAction::PlaySolution,
            GameButton::Size3 => if autoplay_running {
                ButtonAction::Ignore
            } else {
                (ButtonAction::Resize(3usize))
            },
            GameButton::Size4 => if autoplay_running {
                ButtonAction::Ignore
            } else {
                (ButtonAction::Resize(4usize))
            },
            GameButton::Size5 => if autoplay_running {
                ButtonAction::Ignore
            } else {
                (ButtonAction::Resize(5usize))
            },
        }),
{
    match button {
        GameButton::Restart => {
            if autoplay_running {
                ButtonAction::Ignore
            } else {
                ButtonAction::RestartLevel
            }
        },
        GameButton::Solution => ButtonAction::PlaySolution,
        GameButton::Size3 => {
            if autoplay_running {
                ButtonAction::Ignore
            } else {
                ButtonAction::Resize(3)
            }
        },
        GameButton::Size4 => {
            if autoplay_running {
                ButtonAction::Ignore
            } else {
                ButtonAction::Resize(4)
            }
        },
        GameButton::Size5 => {
            if autoplay_running {
                ButtonAction::Ignore
            } else {
                ButtonAction::Resize(5)
            }
        },
    }
}

/// One step of playing a solution back.
pub enum AutoplayAction {
    Stop,
    Highlight(usize),
    Apply,
}

/// Decide the next playback step: stop once the queue is empty; otherwise
/// first highlight the move's source glass, then apply the move — the shell
/// alternates the `select_first` flag and owns the timer between steps.
pub fn autoplay(queue: &Vec<crate::level::Move>, select_first: bool) -> (r: AutoplayAction)
    ensures
        r == (if queue@.len() == 0 {
            AutoplayAction::Stop
        } else if select_first {
            (AutoplayAction::Highlight(queue@[0].from))
        } else {
            AutoplayAction::Apply
        }),
{
    if queue.len() == 0 {
        AutoplayAction::Stop
    } else if select_first {
        AutoplayAction::Highlight(queue[0].from)
    } else {
        AutoplayAction::Apply
    }
}

} // verus!
