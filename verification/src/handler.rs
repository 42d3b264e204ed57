//! What a key press or a mouse click comes to.
//!
//! The caller turns the events of its terminal into `KeyInput` and
//! `MouseInput`, and carries out what the answers ask for.

use crate::app::{
    first_unset, module_launch, path_in_course, App, Launch, LaunchError, ResumeAction,
    ResumePlan,
};
use crate::ledger::{ledger_complete, ledger_text};
use crate::order::sorted_by_key;
use vstd::prelude::*;

verus! {

/// The key that was pressed.
#[derive(Debug, Clone, Copy, PartialEq, Eq, Structural)]
pub enum KeyCode {
    Esc,
    Enter,
    Left,
    Right,
    Char(char),
    /// Any other key.
    Other,
}

/// A key press.
#[derive(Debug, Clone, Copy, PartialEq, Eq, Structural)]
pub struct KeyInput {
    pub code: KeyCode,
    /// Whether the control key, and no other modifier, was held down.
    pub control: bool,
}

/// A mouse event.
#[derive(Debug, Clone, Copy, PartialEq, Eq, Structural)]
pub struct MouseInput {
    /// Whether the left button went down.
    pub left_down: bool,
    pub column: u16,
    pub row: u16,
}

/// What the caller is to do after a key press.
#[derive(Debug, Clone, Copy, PartialEq, Eq, Structural)]
pub enum KeyAction {
    /// Nothing is to be done.
    Nothing,
    /// The session has been ended.
    Quit,
    /// The course is to be begun: see `new_ledger`, `begin_course` and
    /// `opening_module_ended`.
    Begin,
}

/// Whether the position lies on the resume button.
pub open spec fn on_resume_button(column: u16, row: u16) -> bool {
    10 <= column < 20 && 10 <= row < 13
}

/// Whether the mouse event asks for the course to be resumed: a press of the
/// left button on the resume button.
pub open spec fn asks_to_resume(mouse: MouseInput) -> bool {
    mouse.left_down && on_resume_button(mouse.column, mouse.row)
}

/// Whether the key ends the session: escape, `q`, or `c` with control.
pub open spec fn ends_session(key: KeyInput) -> bool {
    match key.code {
        KeyCode::Esc => true,
        KeyCode::Char(c) => c == 'q' || ((c == 'c' || c == 'C') && key.control),
        _ => false,
    }
}

/// The name of the ledger file.
pub open spec fn ledger_file_name() -> Seq<char> {
    "course.lrn"@
}

/// The module with which a course begins.
pub open spec fn opening_module() -> Seq<char> {
    "1_lecture"@
}

/// The name of the ledger file, `course.lrn`.
pub fn ledger_file() -> (name: String)
    ensures
        name@ == ledger_file_name(),
{
    "course.lrn".to_owned()
}

/// Handles a key press. Escape, `q`, and `c` with control end the session;
/// enter asks for the course to be begun; no other key does anything.
pub fn handle_key_events(key_event: KeyInput, app: &mut App) -> (action: KeyAction)
    ensures
        final(app).same_modules_as(old(app)),
        final(app).current_module_index == old(app).current_module_index,
        final(app).active_element == old(app).active_element,
        final(app).course_name@ == old(app).course_name@,
        final(app).running == (old(app).running && !ends_session(key_event)),
        action == if ends_session(key_event) {
            KeyAction::Quit
        } else if key_event.code == KeyCode::Enter {
            KeyAction::Begin
        } else {
            KeyAction::Nothing
        },
{
    match key_event.code {
        KeyCode::Esc => {
            app.quit();
            KeyAction::Quit
        },
        KeyCode::Char(c) => {
            if c == 'q' || ((c == 'c' || c == 'C') && key_event.control) {
                app.quit();
                KeyAction::Quit
            } else {
                KeyAction::Nothing
            }
        },
        KeyCode::Enter => KeyAction::Begin,
        _ => KeyAction::Nothing,
    }
}

/// The ledger to write before the course is begun: one sorted by the numbers
/// of the modules where no ledger is present yet, and none where one is.
pub fn new_ledger(app: &App, present: bool) -> (text: Option<String>)
    ensures
        text.deep_view() == if present {
            None
        } else {
            Some(ledger_text(sorted_by_key(app.modules.deep_view())))
        },
{
    if present {
        None
    } else {
        Some(app.create_file_sorted())
    }
}

/// Decides how the course is begun, for the content of its ledger and the
/// arguments of this process. Where the ledger is complete, nothing is
/// started. Otherwise the opening module is started and handed the path of
/// the ledger and the path of this program, the first of `args`; the call
/// fails where `args` is empty.
pub fn begin_course(app: &App, ledger: &str, args: &Vec<String>) -> (plan: Result<
    Option<Launch>,
    LaunchError,
>)
    ensures
        match plan {
            Ok(None) => ledger_complete(ledger@),
            Ok(Some(launch)) => !ledger_complete(ledger@) && args.len() > 0 && launch@
                == module_launch(
                path_in_course(app.course_name@, opening_module()),
                ledger_file_name(),
                args[0]@,
            ),
            Err(error) => !ledger_complete(ledger@) && args.len() == 0 && error
                == LaunchError::NoBinaryPath,
        },
{
    if app.complete(ledger) {
        Ok(None)
    } else {
        match app.run_single("1_lecture", "course.lrn", args) {
            Ok(launch) => Ok(Some(launch)),
            Err(error) => Err(error),
        }
    }
}

/// Takes note of how the run of the opening module went. `ran` tells whether
/// its program was started and has ended. Where it has, the session ends;
/// where it could not be started, the session goes on as it was.
pub fn opening_module_ended(app: &mut App, ran: bool)
    ensures
        final(app).running == (old(app).running && !ran),
        final(app).same_modules_as(old(app)),
        final(app).current_module_index == old(app).current_module_index,
        final(app).active_element == old(app).active_element,
        final(app).course_name@ == old(app).course_name@,
{
    if ran {
        app.quit();
    }
}

/// Handles a mouse event. A press of the left button on the resume button
/// resumes the course: the answer is the plan that `App::resume` makes for the
/// ledger `course.lrn`, where `ledger_present` tells whether that file is
/// there and `args` are the arguments of this process. Any other event
/// changes nothing, and the answer is `None`.
pub fn handle_mouse_events(
    mouse_event: MouseInput,
    app: &mut App,
    ledger_present: bool,
    args: &Vec<String>,
) -> (plan: Result<Option<ResumePlan>, LaunchError>)
    requires
        old(app).wf(),
    ensures
        final(app).wf(),
        final(app).same_modules_as(old(app)),
        final(app).running == old(app).running,
        final(app).active_element == old(app).active_element,
        final(app).course_name@ == old(app).course_name@,
        match plan {
            Ok(None) => !asks_to_resume(mouse_event) && final(app).current_module_index == old(app).current_module_index,
            Ok(Some(planned)) => {
                &&& asks_to_resume(mouse_event)
                &&& old(app).resumes_with(planned.action, final(app))
                &&& planned.ledger.deep_view() == if ledger_present {
                    None
                } else {
                    Some(ledger_text(sorted_by_key(old(app).modules.deep_view())))
                }
                &&& planned.launch.deep_view() == match planned.action {
                    ResumeAction::Run { index, program } => Some(
                        module_launch(program@, ledger_file_name(), args[0]@),
                    ),
                    _ => None,
                }
                &&& planned.action is Run ==> args.len() > 0
            },
            Err(error) => {
                &&& asks_to_resume(mouse_event)
                &&& error == LaunchError::NoBinaryPath
                &&& args.len() == 0
                &&& old(app).modules.len() > 0
                &&& first_unset(old(app).module_completion@) == Some(
                    final(app).current_module_index as int,
                )
            },
        },
{
    if mouse_event.left_down && app.is_click_on_resume_button(
        mouse_event.column,
        mouse_event.row,
    ) {
        match app.resume(ledger_present, "course.lrn", args) {
            Ok(planned) => Ok(Some(planned)),
            Err(error) => Err(error),
        }
    } else {
        Ok(None)
    }
}

} // verus!
