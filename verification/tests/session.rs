use novum::app::{
    plan_launch, ActiveElement, App, Launch, LaunchError, ResumeAction, ResumePlan, RunPlan,
};
use novum::discovery::DirectoryEntry;
use novum::ledger::{select_next, Selection};

fn entry(file_name: &str, is_file: bool) -> DirectoryEntry {
    DirectoryEntry {
        file_name: file_name.to_string(),
        path: format!("./course/{}", file_name),
        is_file,
    }
}

fn names(list: &[&str]) -> Vec<String> {
    list.iter().map(|name| name.to_string()).collect()
}

fn course() -> App {
    App::new(
        "course".to_string(),
        Some(vec![entry("2_x.bin", true), entry("10_y.bin", true), entry("1_z.bin", true)]),
    )
}

#[test]
fn default_session_has_no_course() {
    let app = App::default();
    assert!(app.running);
    assert!(app.modules.is_empty());
    assert!(app.module_binaries.is_empty());
    assert!(app.module_completion.is_empty());
    assert_eq!(app.current_module_index, 0);
    assert_eq!(app.active_element, ActiveElement::Nothing);
    assert_eq!(app.course_name, "__NULL_____");
}

#[test]
fn new_session_holds_the_modules_of_the_listing() {
    let app = course();
    assert!(app.running);
    assert_eq!(app.course_name, "course");
    assert_eq!(app.current_module_index, 0);
    assert_eq!(app.active_element, ActiveElement::Nothing);
    assert_eq!(app.modules, names(&["2_x", "10_y", "1_z"]));
    assert_eq!(
        app.module_binaries,
        names(&["./course/2_x.bin", "./course/10_y.bin", "./course/1_z.bin"])
    );
    assert_eq!(app.module_completion, vec![false, false, false]);
}

#[test]
fn new_session_without_a_directory_has_no_modules() {
    let app = App::new("missing".to_string(), None);
    assert!(app.running);
    assert!(app.modules.is_empty());
    assert!(app.module_binaries.is_empty());
    assert!(app.module_completion.is_empty());
}

#[test]
fn course_directory_is_below_the_working_directory() {
    assert_eq!(course().course_directory(), "./course");
    assert_eq!(App::default().course_directory(), "./__NULL_____");
}

#[test]
fn load_modules_replaces_what_was_there() {
    let mut app = course();
    app.complete_module();
    app.next_module();
    assert!(app.load_modules(Some(vec![entry("a.bin", true), entry("sub", false)])));
    assert_eq!(app.modules, names(&["a"]));
    assert_eq!(app.module_binaries, names(&["./course/a.bin"]));
    assert_eq!(app.module_completion, vec![false]);
    assert_eq!(app.current_module_index, 1);
    assert_eq!(app.course_name, "course");
}

#[test]
fn load_modules_reports_a_missing_directory() {
    let mut app = course();
    assert!(!app.load_modules(None));
    assert!(app.modules.is_empty());
    assert!(app.module_binaries.is_empty());
    assert!(app.module_completion.is_empty());
    assert!(app.running);
}

#[test]
fn create_file_keeps_the_order_of_discovery() {
    assert_eq!(course().create_file(), "2_x 0\n10_y 0\n1_z 0\n");
    assert_eq!(App::default().create_file(), "");
}

#[test]
fn create_file_sorted_orders_by_number() {
    assert_eq!(course().create_file_sorted(), "1_z 0\n2_x 0\n10_y 0\n");
    assert_eq!(App::default().create_file_sorted(), "");
}

#[test]
fn complete_tells_whether_the_ledger_is_done() {
    let app = course();
    assert!(!app.complete("1_z 1\n2_x 0\n10_y 0\n"));
    assert!(app.complete("1_z 1\n2_x 1\n10_y 1\n"));
    assert!(app.complete(""));
    assert!(!app.complete(&app.create_file_sorted()));
}

#[test]
fn complete_module_sets_the_flag_of_the_current_module() {
    let mut app = course();
    app.complete_module();
    assert_eq!(app.module_completion, vec![true, false, false]);
    app.next_module();
    app.next_module();
    app.complete_module();
    assert_eq!(app.module_completion, vec![true, false, true]);
    app.current_module_index = 3;
    app.complete_module();
    assert_eq!(app.module_completion, vec![true, false, true]);
}

#[test]
fn grab_next_module_names_the_first_incomplete() {
    assert_eq!(App::grab_next_module("a 1\nb 0\nc 0"), Selection::Module("b".to_string()));
    assert_eq!(App::grab_next_module("a 1\nb 1\n"), Selection::AllComplete);
    assert_eq!(App::grab_next_module(""), Selection::NoModules);
    assert_eq!(App::grab_next_module("  \n"), Selection::NoModules);
}

#[test]
fn grab_next_module_tells_a_module_from_a_finished_ledger() {
    let module = App::grab_next_module("__ALL_COMPLETE__ 0\n");
    let done = App::grab_next_module("a 1\n");
    assert_eq!(module, Selection::Module("__ALL_COMPLETE__".to_string()));
    assert_eq!(done, Selection::AllComplete);
    assert_ne!(module, done);
    let module = App::grab_next_module("__NO_MODULES__ 0\n");
    assert_eq!(module, Selection::Module("__NO_MODULES__".to_string()));
    assert_ne!(module, App::grab_next_module(""));
}

#[test]
fn run_module_plans_the_launch_of_the_next_module() {
    let app = course();
    let args = names(&["/usr/bin/novum", "--flag"]);
    let plan = app.run_module("course.lrn", "1_z 1\n2_x 0\n10_y 0\n", &args).unwrap();
    assert_eq!(
        plan,
        RunPlan::Run {
            module: "2_x".to_string(),
            launch: Launch {
                program: "./course/2_x.bin".to_string(),
                args: names(&["course.lrn", "/usr/bin/novum"]),
            },
        }
    );
}

#[test]
fn run_module_starts_the_file_of_the_module() {
    let app = App::new("C".to_string(), Some(vec![DirectoryEntry {
        file_name: "1_intro.bin".to_string(),
        path: "./C/1_intro.bin".to_string(),
        is_file: true,
    }]));
    let args = names(&["/bin/novum"]);
    match app.run_module("course.lrn", "1_intro 0\n", &args).unwrap() {
        RunPlan::Run { module, launch } => {
            assert_eq!(module, "1_intro");
            assert_eq!(launch.program, "./C/1_intro.bin");
            assert_eq!(launch.args, names(&["course.lrn", "/bin/novum"]));
            assert_eq!(launch.args.len(), 2);
        }
        other => panic!("no module is started: {:?}", other),
    }
}

#[test]
fn run_module_takes_the_first_module_of_a_name() {
    let app = App::new(
        "course".to_string(),
        Some(vec![entry("a.sh", true), entry("b.bin", true), entry("a.bin", true)]),
    );
    match app.run_module("course.lrn", "b 1\na 0\n", &names(&["novum"])).unwrap() {
        RunPlan::Run { launch, .. } => assert_eq!(launch.program, "./course/a.sh"),
        other => panic!("no module is started: {:?}", other),
    }
}

#[test]
fn run_module_fails_for_a_module_that_the_session_does_not_hold() {
    let app = course();
    assert_eq!(
        app.run_module("course.lrn", "9_other 0\n", &names(&["novum"])),
        Err(LaunchError::UnknownModule)
    );
    assert_eq!(
        app.run_module("course.lrn", "9_other 0\n", &Vec::new()),
        Err(LaunchError::UnknownModule)
    );
    assert_eq!(
        App::default().run_module("course.lrn", "2_x 0\n", &names(&["novum"])),
        Err(LaunchError::UnknownModule)
    );
    assert_eq!(LaunchError::UnknownModule.message(), "No such module in the course");
}

#[test]
fn run_module_starts_nothing_for_a_blank_ledger() {
    let app = course();
    assert_eq!(app.run_module("course.lrn", "", &names(&["novum"])), Ok(RunPlan::NoModules));
    assert_eq!(app.run_module("course.lrn", " \n", &Vec::new()), Ok(RunPlan::NoModules));
}

#[test]
fn run_module_fails_without_the_path_of_this_program() {
    let app = course();
    let plan = app.run_module("course.lrn", "2_x 0\n", &Vec::new());
    assert_eq!(plan, Err(LaunchError::NoBinaryPath));
    assert_eq!(LaunchError::NoBinaryPath.message(), "No binary path in args");
}

#[test]
fn run_module_starts_nothing_for_a_finished_ledger() {
    let app = course();
    assert_eq!(app.run_module("course.lrn", "a 1\n", &names(&["novum"])), Ok(RunPlan::AllComplete));
    assert_eq!(
        app.run_module("course.lrn", "2_x 1\n10_y 1\n1_z 1\n", &Vec::new()),
        Ok(RunPlan::AllComplete)
    );
    assert_ne!(
        app.run_module("course.lrn", "2_x 1\n", &names(&["novum"])),
        app.run_module("course.lrn", "", &names(&["novum"]))
    );
}

#[test]
fn run_single_plans_the_launch_of_the_named_module() {
    let app = course();
    let launch = app.run_single("1_lecture", "course.lrn", &names(&["./novum"])).unwrap();
    assert_eq!(launch.program, "course/1_lecture");
    assert_eq!(launch.args, names(&["course.lrn", "./novum"]));
    assert_eq!(
        app.run_single("1_lecture", "course.lrn", &Vec::new()),
        Err(LaunchError::NoBinaryPath)
    );
}

#[test]
fn get_module_idx_finds_the_first_of_that_name() {
    let mut app = course();
    assert_eq!(app.get_module_idx("2_x"), Some(0));
    assert_eq!(app.get_module_idx("1_z"), Some(2));
    assert_eq!(app.get_module_idx("1_z.bin"), None);
    assert_eq!(app.get_module_idx(""), None);
    app.modules.push("10_y".to_string());
    assert_eq!(app.get_module_idx("10_y"), Some(1));
}

#[test]
fn resume_next_module_runs_the_first_that_is_not_done() {
    let mut app = course();
    assert_eq!(
        app.resume_next_module(),
        ResumeAction::Run { index: 0, program: "./course/2_x.bin".to_string() }
    );
    assert_eq!(app.current_module_index, 0);
    app.module_completion = vec![true, true, false];
    assert_eq!(
        app.resume_next_module(),
        ResumeAction::Run { index: 2, program: "./course/1_z.bin".to_string() }
    );
    assert_eq!(app.current_module_index, 2);
    assert_eq!(app.module_completion, vec![true, true, false]);
}

#[test]
fn resume_next_module_with_nothing_left() {
    let mut app = course();
    app.module_completion = vec![true, true, true];
    app.current_module_index = 1;
    assert_eq!(app.resume_next_module(), ResumeAction::AllComplete);
    assert_eq!(app.current_module_index, 1);
}

#[test]
fn resume_next_module_without_modules() {
    let mut app = App::new("empty".to_string(), Some(Vec::new()));
    assert_eq!(app.resume_next_module(), ResumeAction::NoModules);
    let mut app = App::default();
    assert_eq!(app.resume_next_module(), ResumeAction::NoModules);
}

#[test]
fn is_click_on_resume_button_at_the_edges() {
    let app = App::default();
    assert!(app.is_click_on_resume_button(10, 10));
    assert!(app.is_click_on_resume_button(19, 12));
    assert!(app.is_click_on_resume_button(15, 11));
    assert!(!app.is_click_on_resume_button(9, 10));
    assert!(!app.is_click_on_resume_button(10, 9));
    assert!(!app.is_click_on_resume_button(20, 10));
    assert!(!app.is_click_on_resume_button(10, 13));
    assert!(!app.is_click_on_resume_button(0, 0));
    assert!(!app.is_click_on_resume_button(65535, 65535));
}

#[test]
fn tick_changes_nothing() {
    let app = course();
    app.tick();
    assert!(app.running);
    assert_eq!(app.current_module_index, 0);
    assert_eq!(app.module_completion, vec![false, false, false]);
}

#[test]
fn quit_ends_the_session() {
    let mut app = course();
    app.quit();
    assert!(!app.running);
    assert_eq!(app.modules.len(), 3);
    app.quit();
    assert!(!app.running);
}

#[test]
fn next_module_stops_at_the_last_module() {
    let mut app = course();
    app.next_module();
    assert_eq!(app.current_module_index, 1);
    app.next_module();
    assert_eq!(app.current_module_index, 2);
    app.next_module();
    assert_eq!(app.current_module_index, 2);
    assert!(!app.all_modules_completed());
}

#[test]
fn next_module_without_modules_stays() {
    let mut app = App::default();
    app.next_module();
    assert_eq!(app.current_module_index, 0);
    assert!(!app.all_modules_completed());
}

#[test]
fn all_modules_completed_needs_the_index_behind_the_last() {
    let mut app = course();
    assert!(!app.all_modules_completed());
    app.current_module_index = 2;
    assert!(!app.all_modules_completed());
    app.current_module_index = 3;
    assert!(app.all_modules_completed());
    let mut empty = App::default();
    empty.current_module_index = 5;
    assert!(!empty.all_modules_completed());
}

#[test]
fn launch_current_module_hands_over_the_ledger_and_this_program() {
    let mut app = course();
    app.next_module();
    let args = names(&["/bin/novum", "more"]);
    assert_eq!(
        app.launch_current_module("course.lrn", &args),
        Ok(Some(Launch {
            program: "./course/10_y.bin".to_string(),
            args: names(&["course.lrn", "/bin/novum"]),
        }))
    );
    assert_eq!(
        app.launch_current_module("course.lrn", &Vec::new()),
        Err(LaunchError::NoBinaryPath)
    );
}

#[test]
fn launch_current_module_behind_the_last_program() {
    let mut app = course();
    app.current_module_index = 3;
    assert_eq!(app.launch_current_module("course.lrn", &names(&["novum"])), Ok(None));
    assert_eq!(app.launch_current_module("course.lrn", &Vec::new()), Ok(None));
    assert_eq!(App::default().launch_current_module("course.lrn", &names(&["novum"])), Ok(None));
}

#[test]
fn finish_current_module_marks_success_only() {
    let mut app = course();
    assert!(!app.finish_current_module(Some(1)));
    assert_eq!(app.module_completion, vec![false, false, false]);
    assert!(!app.finish_current_module(Some(-1)));
    assert!(!app.finish_current_module(None));
    assert_eq!(app.module_completion, vec![false, false, false]);
    assert!(app.finish_current_module(Some(0)));
    assert_eq!(app.module_completion, vec![true, false, false]);
    assert_eq!(
        app.resume_next_module(),
        ResumeAction::Run { index: 1, program: "./course/10_y.bin".to_string() }
    );
}

#[test]
fn one_module_course_from_first_resume_to_all_complete() {
    let mut app = App::new("course".to_string(), Some(vec![entry("1_intro.bin", true)]));
    assert_eq!(app.modules, names(&["1_intro"]));
    assert_eq!(app.module_completion, vec![false]);

    let ledger_path = "course.lrn";
    let args = names(&["/opt/novum/bin/novum"]);
    let plan = app.resume(false, ledger_path, &args).unwrap();
    assert_eq!(plan.ledger, Some("1_intro 0\n".to_string()));
    assert_eq!(
        plan.action,
        ResumeAction::Run { index: 0, program: "./course/1_intro.bin".to_string() }
    );
    assert_eq!(
        plan.launch,
        Some(Launch {
            program: "./course/1_intro.bin".to_string(),
            args: names(&["course.lrn", "/opt/novum/bin/novum"]),
        })
    );

    let ledger = plan.ledger.unwrap();
    assert!(!app.complete(&ledger));
    assert_eq!(select_next(&ledger), Selection::Module("1_intro".to_string()));
    match app.run_module(ledger_path, &ledger, &args).unwrap() {
        RunPlan::Run { module, launch } => {
            assert_eq!(module, "1_intro");
            assert_eq!(launch.program, "./course/1_intro.bin");
            assert_eq!(launch.args, names(&["course.lrn", "/opt/novum/bin/novum"]));
        }
        other => panic!("the ledger names a module: {:?}", other),
    }

    let rewritten = "1_intro 1";
    assert_eq!(select_next(rewritten), Selection::AllComplete);
    assert!(app.complete(rewritten));
    assert_eq!(App::grab_next_module(rewritten), Selection::AllComplete);
    assert_eq!(app.run_module(ledger_path, rewritten, &args), Ok(RunPlan::AllComplete));
}

#[test]
fn resume_writes_a_missing_ledger_first() {
    let mut app = course();
    let args = names(&["novum"]);
    let plan = app.resume(false, "course.lrn", &args).unwrap();
    assert_eq!(plan.ledger, Some("1_z 0\n2_x 0\n10_y 0\n".to_string()));
    assert_eq!(plan.launch.unwrap().program, "./course/2_x.bin");
    let plan = app.resume(true, "course.lrn", &args).unwrap();
    assert_eq!(plan.ledger, None);
    assert_eq!(
        plan.launch,
        Some(Launch {
            program: "./course/2_x.bin".to_string(),
            args: names(&["course.lrn", "novum"])
        })
    );
}

#[test]
fn resume_moves_to_the_first_module_that_is_not_done() {
    let mut app = course();
    app.module_completion = vec![true, false, false];
    let plan = app.resume(true, "l.lrn", &names(&["me"])).unwrap();
    assert_eq!(
        plan,
        ResumePlan {
            ledger: None,
            action: ResumeAction::Run { index: 1, program: "./course/10_y.bin".to_string() },
            launch: Some(Launch {
                program: "./course/10_y.bin".to_string(),
                args: names(&["l.lrn", "me"])
            }),
        }
    );
    assert_eq!(app.current_module_index, 1);
}

#[test]
fn resume_with_nothing_to_run() {
    let mut app = course();
    app.module_completion = vec![true, true, true];
    let plan = app.resume(true, "course.lrn", &Vec::new()).unwrap();
    assert_eq!(plan, ResumePlan { ledger: None, action: ResumeAction::AllComplete, launch: None });
    let mut empty = App::default();
    let plan = empty.resume(false, "course.lrn", &Vec::new()).unwrap();
    assert_eq!(
        plan,
        ResumePlan { ledger: Some(String::new()), action: ResumeAction::NoModules, launch: None }
    );
}

#[test]
fn resume_fails_without_the_path_of_this_program() {
    let mut app = course();
    app.module_completion = vec![true, true, false];
    assert_eq!(app.resume(false, "course.lrn", &Vec::new()), Err(LaunchError::NoBinaryPath));
    assert_eq!(app.current_module_index, 2);
}

#[test]
fn plan_launch_hands_over_the_ledger_and_this_program() {
    let args = names(&["novum", "ignored", "also ignored"]);
    assert_eq!(
        plan_launch("./course/2_x.bin".to_string(), "some/dir/course.lrn", &args),
        Ok(Launch {
            program: "./course/2_x.bin".to_string(),
            args: names(&["some/dir/course.lrn", "novum"]),
        })
    );
    assert_eq!(
        plan_launch("./course/2_x.bin".to_string(), "course.lrn", &Vec::new()),
        Err(LaunchError::NoBinaryPath)
    );
}

#[test]
fn sync_with_ledger_fills_the_flags() {
    let mut app = course();
    app.sync_with_ledger("1_z 1\n2_x 0\n10_y 1\n");
    assert_eq!(app.module_completion, vec![false, true, true]);
    assert_eq!(
        app.resume_next_module(),
        ResumeAction::Run { index: 0, program: "./course/2_x.bin".to_string() }
    );
    app.sync_with_ledger("1_z 1\n2_x 1\n10_y 1\n");
    assert_eq!(app.module_completion, vec![true, true, true]);
    assert_eq!(app.resume_next_module(), ResumeAction::AllComplete);
}

#[test]
fn sync_with_ledger_takes_the_first_record_of_a_name() {
    let mut app = course();
    app.complete_module();
    app.sync_with_ledger("2_x 0\n2_x 1\n10_y done\nunknown 1\n");
    assert_eq!(app.module_completion, vec![false, true, false]);
    app.sync_with_ledger("");
    assert_eq!(app.module_completion, vec![false, false, false]);
    assert_eq!(app.modules, names(&["2_x", "10_y", "1_z"]));
    assert_eq!(app.current_module_index, 0);
}

#[test]
fn sync_with_ledger_agrees_with_the_selector() {
    let mut app = course();
    for ledger in ["2_x 0\n10_y 0\n1_z 0\n", "2_x 1\n10_y 0\n1_z 0\n", "2_x 1\n10_y 1\n1_z 0\n"] {
        app.sync_with_ledger(ledger);
        let resumed = match app.resume_next_module() {
            ResumeAction::Run { index, .. } => app.modules[index].clone(),
            other => panic!("nothing to run: {:?}", other),
        };
        assert_eq!(select_next(ledger), Selection::Module(resumed));
    }
    app.sync_with_ledger("2_x 1\n10_y 1\n1_z 1\n");
    assert_eq!(app.resume_next_module(), ResumeAction::AllComplete);
    assert_eq!(select_next("2_x 1\n10_y 1\n1_z 1\n"), Selection::AllComplete);
}

#[test]
fn a_fresh_ledger_leaves_every_flag_unset() {
    let mut app = course();
    app.complete_module();
    let ledger = app.create_file();
    app.sync_with_ledger(&ledger);
    assert_eq!(app.module_completion, vec![false, false, false]);
}
