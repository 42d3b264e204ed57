//! The course session: its modules, their completion flags, and the decisions
//! on which module runs next and how its program is started.
//!
//! Nothing here touches a file or a process. The caller reads the directory
//! and the ledger, hands over what it read, starts the program that a decision
//! names, and reports how the program ended.
//!
//! What is done is recorded twice: in the ledger, which the modules rewrite,
//! and in the flags of the session, which are set when a module exits with
//! success. The ledger decides what `run_module` and `complete` answer; the
//! flags decide what `resume_next_module` answers. Where the two differ, the
//! ledger is the authority: `sync_with_ledger` makes the flags follow it, as a
//! caller does that takes up a course again.

use crate::discovery::{discover, module_names, module_paths, DirectoryEntry};
use crate::ledger::{
    all_words, first_incomplete, is_complete, is_incomplete, ledger_complete,
    lemma_ledger_round_trip, ledger_text, parse_ledger, records_of, render_ledger, select_next,
    selection_of, Record, RecordView, Selection, SelectionView,
};
use crate::order::{sorted_by_key, sorted_modules};
use vstd::prelude::*;

verus! {

/// The element of the screen that has the focus.
#[derive(Debug, Clone, Copy, PartialEq, Eq, Structural)]
pub enum ActiveElement {
    /// No element has the focus.
    Nothing,
    ResumeButton,
}

/// The state of one course session.
#[derive(Debug)]
pub struct App {
    /// Whether the session goes on.
    pub running: bool,
    /// The names of the modules, in the order in which they were found.
    pub modules: Vec<String>,
    /// The index of the module that is current.
    pub current_module_index: usize,
    pub active_element: ActiveElement,
    /// The name of the course, which is also that of its directory.
    pub course_name: String,
    /// The program of each module.
    pub module_binaries: Vec<String>,
    /// Whether each module is done.
    pub module_completion: Vec<bool>,
}

/// The program to start and the arguments to hand to it.
#[derive(Debug, Clone, PartialEq, Eq)]
pub struct Launch {
    pub program: String,
    pub args: Vec<String>,
}

/// A launch over texts.
pub struct LaunchView {
    pub program: Seq<char>,
    pub args: Seq<Seq<char>>,
}

impl View for Launch {
    type V = LaunchView;

    open spec fn view(&self) -> LaunchView {
        LaunchView { program: self.program@, args: self.args.deep_view() }
    }
}

impl DeepView for Launch {
    type V = LaunchView;

    open spec fn deep_view(&self) -> LaunchView {
        self@
    }
}

/// Why no launch could be planned.
#[derive(Debug, Clone, Copy, PartialEq, Eq, Structural)]
pub enum LaunchError {
    /// The arguments of this process do not hold the path of its own program.
    NoBinaryPath,
    /// The ledger names a module that the session does not hold.
    UnknownModule,
}

impl LaunchError {
    /// The error in words.
    pub fn message(&self) -> (text: String)
        ensures
            text@ == match *self {
                LaunchError::NoBinaryPath => "No binary path in args"@,
                LaunchError::UnknownModule => "No such module in the course"@,
            },
    {
        match self {
            LaunchError::NoBinaryPath => "No binary path in args".to_owned(),
            LaunchError::UnknownModule => "No such module in the course".to_owned(),
        }
    }
}

/// What a run of the next module comes to.
#[derive(Debug, Clone, PartialEq, Eq)]
pub enum RunPlan {
    /// The ledger is blank: nothing is started.
    NoModules,
    /// The ledger holds content and nothing is left to do: nothing is
    /// started.
    AllComplete,
    /// The module `module` is started by `launch`.
    Run { module: String, launch: Launch },
}

/// A run plan over texts.
pub enum RunPlanView {
    NoModules,
    AllComplete,
    Run { module: Seq<char>, launch: LaunchView },
}

impl View for RunPlan {
    type V = RunPlanView;

    open spec fn view(&self) -> RunPlanView {
        match self {
            RunPlan::NoModules => RunPlanView::NoModules,
            RunPlan::AllComplete => RunPlanView::AllComplete,
            RunPlan::Run { module, launch } => RunPlanView::Run {
                module: module@,
                launch: launch@,
            },
        }
    }
}

impl DeepView for RunPlan {
    type V = RunPlanView;

    open spec fn deep_view(&self) -> RunPlanView {
        self@
    }
}

/// What resuming the course comes to.
#[derive(Debug, Clone, PartialEq, Eq)]
pub enum ResumeAction {
    /// The course has no modules.
    NoModules,
    /// The module at `index` is the first that is not done; `program` runs it.
    Run { index: usize, program: String },
    /// The course has modules and each of them is done.
    AllComplete,
}

/// What is to be done when the course is resumed, in this order: the ledger
/// is written where `ledger` holds its text, and then the program of `launch`
/// is started where there is one.
#[derive(Debug, Clone, PartialEq, Eq)]
pub struct ResumePlan {
    /// The text of the ledger to write first; `None` where a ledger is there.
    pub ledger: Option<String>,
    /// What resuming comes to.
    pub action: ResumeAction,
    /// The launch of the module that is to be run; `None` where none is.
    pub launch: Option<Launch>,
}

/// A planned result over texts.
pub open spec fn planned<T: View>(plan: Result<T, LaunchError>) -> Result<T::V, LaunchError> {
    match plan {
        Ok(value) => Ok(value@),
        Err(error) => Err(error),
    }
}

/// The name of a course that has not been set.
pub open spec fn unset_course_name() -> Seq<char> {
    "__NULL_____"@
}

/// The path of `module` below the directory of `course`.
pub open spec fn path_in_course(course: Seq<char>, module: Seq<char>) -> Seq<char> {
    course + seq!['/'] + module
}

/// The directory in which the modules of `course` are looked for.
pub open spec fn directory_of(course: Seq<char>) -> Seq<char> {
    seq!['.', '/'] + course
}

/// The launch of `program` as a module: it is handed the path of the ledger
/// and the path of the program that starts it, in this order.
pub open spec fn module_launch(program: Seq<char>, ledger_path: Seq<char>, own_path: Seq<char>)
    -> LaunchView {
    LaunchView { program, args: seq![ledger_path, own_path] }
}

/// The index of the first of `names` that is `name`.
pub open spec fn index_of(names: Seq<Seq<char>>, name: Seq<char>) -> Option<int>
    decreases names.len(),
{
    if names.len() == 0 {
        None
    } else if names[0] == name {
        Some(0)
    } else {
        match index_of(names.drop_first(), name) {
            Some(i) => Some(i + 1),
            None => None,
        }
    }
}

/// What a run of the next module comes to, for the modules of a session and
/// their programs, the path and the content of the ledger, and the arguments
/// of this process. Where the ledger names a module, its program is that of
/// the first module of that name.
pub open spec fn run_plan_of(
    names: Seq<Seq<char>>,
    programs: Seq<Seq<char>>,
    ledger_path: Seq<char>,
    ledger: Seq<char>,
    args: Seq<Seq<char>>,
) -> Result<RunPlanView, LaunchError> {
    match selection_of(ledger) {
        SelectionView::NoModules => Ok(RunPlanView::NoModules),
        SelectionView::AllComplete => Ok(RunPlanView::AllComplete),
        SelectionView::Module(module) => match index_of(names, module) {
            None => Err(LaunchError::UnknownModule),
            Some(i) => if args.len() == 0 {
                Err(LaunchError::NoBinaryPath)
            } else {
                Ok(
                    RunPlanView::Run {
                        module,
                        launch: module_launch(programs[i], ledger_path, args[0]),
                    },
                )
            },
        },
    }
}

/// The first index of a name is that of an entry with the name, and no entry
/// before it has the name; where there is none, no entry has the name.
pub proof fn lemma_index_of(names: Seq<Seq<char>>, name: Seq<char>)
    ensures
        match index_of(names, name) {
            Some(i) => 0 <= i < names.len() && names[i] == name && forall|j: int|
                0 <= j < i ==> #[trigger] names[j] != name,
            None => forall|j: int| 0 <= j < names.len() ==> #[trigger] names[j] != name,
        },
    decreases names.len(),
{
    if names.len() > 0 && names[0] != name {
        let rest = names.drop_first();
        lemma_index_of(rest, name);
        match index_of(rest, name) {
            Some(i) => {
                assert(names[i + 1] == rest[i]);
                assert forall|j: int| 0 <= j < i + 1 implies #[trigger] names[j] != name by {
                    if j > 0 {
                        assert(names[j] == rest[j - 1]);
                    }
                }
            },
            None => {
                assert forall|j: int| 0 <= j < names.len() implies #[trigger] names[j] != name by {
                    if j > 0 {
                        assert(names[j] == rest[j - 1]);
                    }
                }
            },
        }
    }
}

/// Whether the records mark the module `name` as done: whether the first
/// record of that name has a status other than `0`. A module without a record
/// is not done.
pub open spec fn done_in(records: Seq<RecordView>, name: Seq<char>) -> bool
    decreases records.len(),
{
    if records.len() == 0 {
        false
    } else if records[0].name == name {
        !is_incomplete(records[0])
    } else {
        done_in(records.drop_first(), name)
    }
}

/// The flags that the records give to the modules `names`.
pub open spec fn flags_of(names: Seq<Seq<char>>, records: Seq<RecordView>) -> Seq<bool> {
    Seq::new(names.len(), |i: int| done_in(records, names[i]))
}

/// Whether no name stands twice in `names`.
pub open spec fn distinct(names: Seq<Seq<char>>) -> bool {
    forall|i: int, j: int| 0 <= i < j < names.len() ==> #[trigger] names[i] != #[trigger] names[j]
}

/// Whether the records are those of the modules `names`, one for each and in
/// the same order.
pub open spec fn records_follow(records: Seq<RecordView>, names: Seq<Seq<char>>) -> bool {
    &&& records.len() == names.len()
    &&& forall|i: int| 0 <= i < names.len() ==> (#[trigger] records[i]).name == names[i]
}

/// The index of the first flag that is not set.
pub open spec fn first_unset(flags: Seq<bool>) -> Option<int>
    decreases flags.len(),
{
    if flags.len() == 0 {
        None
    } else if !flags[0] {
        Some(0)
    } else {
        match first_unset(flags.drop_first()) {
            Some(i) => Some(i + 1),
            None => None,
        }
    }
}

/// The first unset flag is unset and no flag before it is; where there is
/// none, every flag is set.
pub proof fn lemma_first_unset(flags: Seq<bool>)
    ensures
        match first_unset(flags) {
            Some(i) => 0 <= i < flags.len() && !flags[i] && forall|j: int|
                0 <= j < i ==> #[trigger] flags[j],
            None => forall|j: int| 0 <= j < flags.len() ==> #[trigger] flags[j],
        },
    decreases flags.len(),
{
    if flags.len() > 0 && flags[0] {
        let rest = flags.drop_first();
        lemma_first_unset(rest);
        match first_unset(rest) {
            Some(i) => {
                assert(flags[i + 1] == rest[i]);
                assert forall|j: int| 0 <= j < i + 1 implies #[trigger] flags[j] by {
                    if j > 0 {
                        assert(flags[j] == rest[j - 1]);
                    }
                }
            },
            None => {
                assert forall|j: int| 0 <= j < flags.len() implies #[trigger] flags[j] by {
                    if j > 0 {
                        assert(flags[j] == rest[j - 1]);
                    }
                }
            },
        }
    }
}

/// Where the records are those of the modules, and no module stands twice,
/// each module is done exactly where its own record says so.
pub proof fn lemma_done_in_own_record(records: Seq<RecordView>, names: Seq<Seq<char>>, i: int)
    requires
        records_follow(records, names),
        distinct(names),
        0 <= i < names.len(),
    ensures
        done_in(records, names[i]) == !is_incomplete(records[i]),
    decreases i,
{
    if i > 0 {
        let rest = records.drop_first();
        let others = names.drop_first();
        assert(records[0].name == names[0]);
        assert(names[0] != names[i]);
        assert forall|k: int| 0 <= k < others.len() implies (#[trigger] rest[k]).name
            == others[k] by {
            assert(rest[k] == records[k + 1]);
        }
        assert forall|a: int, b: int| 0 <= a < b < others.len() implies #[trigger] others[a]
            != #[trigger] others[b] by {
            assert(others[a] == names[a + 1] && others[b] == names[b + 1]);
        }
        lemma_done_in_own_record(rest, others, i - 1);
        assert(others[i - 1] == names[i]);
        assert(rest[i - 1] == records[i]);
    } else {
        assert(records[0].name == names[0]);
    }
}

/// The cache and the ledger agree on what comes next. Where the records are
/// those of the modules, one for each and in the same order, and no module
/// stands twice, the first module whose flag is not set, by the flags that
/// the records give, is the module of the first record that is still to be
/// done; and there is no such module exactly where there is no such record.
pub proof fn lemma_flags_agree_with_ledger(records: Seq<RecordView>, names: Seq<Seq<char>>)
    requires
        records_follow(records, names),
        distinct(names),
    ensures
        match first_unset(flags_of(names, records)) {
            Some(i) => 0 <= i < names.len() && first_incomplete(records) == Some(names[i]),
            None => first_incomplete(records) is None,
        },
{
    let flags = flags_of(names, records);
    assert forall|i: int| 0 <= i < names.len() implies #[trigger] flags[i] == !is_incomplete(
        records[i],
    ) by {
        lemma_done_in_own_record(records, names, i);
    }
    lemma_first_pair(flags, records, names);
}

/// The records of a new ledger in the order of discovery are those of the
/// modules, one for each and in the same order, where each name is a word.
pub proof fn lemma_fresh_ledger_follows(names: Seq<Seq<char>>)
    requires
        all_words(names),
    ensures
        records_follow(records_of(ledger_text(names)), names),
{
    lemma_ledger_round_trip(names);
}

/// Where each flag tells whether its record is done, the first flag that is
/// not set stands at the first record that is still to be done.
proof fn lemma_first_pair(flags: Seq<bool>, records: Seq<RecordView>, names: Seq<Seq<char>>)
    requires
        flags.len() == records.len(),
        records_follow(records, names),
        forall|i: int| 0 <= i < flags.len() ==> #[trigger] flags[i] == !is_incomplete(records[i]),
    ensures
        match first_unset(flags) {
            Some(i) => 0 <= i < names.len() && first_incomplete(records) == Some(names[i]),
            None => first_incomplete(records) is None,
        },
    decreases flags.len(),
{
    if flags.len() > 0 {
        assert(flags[0] == !is_incomplete(records[0]));
        assert(records[0].name == names[0]);
        if flags[0] {
            let rest_flags = flags.drop_first();
            let rest = records.drop_first();
            let others = names.drop_first();
            assert forall|i: int| 0 <= i < rest_flags.len() implies #[trigger] rest_flags[i]
                == !is_incomplete(rest[i]) by {
                assert(rest_flags[i] == flags[i + 1]);
                assert(rest[i] == records[i + 1]);
            }
            assert forall|k: int| 0 <= k < others.len() implies (#[trigger] rest[k]).name
                == others[k] by {
                assert(rest[k] == records[k + 1]);
            }
            lemma_first_pair(rest_flags, rest, others);
            match first_unset(rest_flags) {
                Some(i) => {
                    assert(others[i] == names[i + 1]);
                },
                None => {},
            }
        }
    }
}

/// Tells whether the records mark the module `name` as done.
fn marked_done(records: &Vec<Record>, name: &String) -> (done: bool)
    ensures
        done == done_in(records.deep_view(), name@),
{
    let ghost all = records.deep_view();
    let mut i: usize = 0;
    assert(all.skip(0) =~= all);
    while i < records.len()
        invariant
            i <= records.len(),
            all == records.deep_view(),
            done_in(all, name@) == done_in(all.skip(i as int), name@),
        decreases records.len() - i,
    {
        assert(all.skip(i as int)[0] == records[i as int]@);
        if records[i].name == *name {
            return !records[i].is_incomplete();
        }
        assert(all.skip(i as int).drop_first() =~= all.skip(i + 1));
        i += 1;
    }
    false
}

/// `path` below the directory `course`.
fn join_path(course: &str, path: &str) -> (joined: String)
    ensures
        joined@ == path_in_course(course@, path@),
{
    let mut joined = course.to_owned();
    proof {
        reveal_strlit("/");
        assert("/"@ =~= seq!['/']);
    }
    joined.append("/");
    joined.append(path);
    joined
}

/// Plans the launch of `program` as a module: it is handed the path of the
/// ledger and the path of this program, the first of `args`. Where `args` is
/// empty, the call fails.
pub fn plan_launch(program: String, ledger_path: &str, args: &Vec<String>) -> (plan: Result<
    Launch,
    LaunchError,
>)
    ensures
        planned(plan) == if args.len() == 0 {
            Err::<LaunchView, LaunchError>(LaunchError::NoBinaryPath)
        } else {
            Ok(module_launch(program@, ledger_path@, args[0]@))
        },
{
    if args.len() == 0 {
        return Err(LaunchError::NoBinaryPath);
    }
    let mut handed: Vec<String> = Vec::new();
    handed.push(ledger_path.to_owned());
    handed.push(args[0].clone());
    let launch = Launch { program, args: handed };
    assert(launch@.args =~= seq![ledger_path@, args[0]@]);
    Ok(launch)
}

impl Default for App {
    /// A session without a course: it runs, and has no modules.
    fn default() -> (app: Self)
        ensures
            app.wf(),
            app.running,
            app.modules@.len() == 0,
            app.current_module_index == 0,
            app.active_element == ActiveElement::Nothing,
            app.course_name@ == unset_course_name(),
    {
        App {
            running: true,
            modules: Vec::new(),
            current_module_index: 0,
            active_element: ActiveElement::Nothing,
            module_binaries: Vec::new(),
            course_name: "__NULL_____".to_owned(),
            module_completion: Vec::new(),
        }
    }
}

impl App {
    /// Whether the session is well formed: each module has its program and
    /// its flag.
    pub open spec fn wf(&self) -> bool {
        &&& self.modules.len() == self.module_binaries.len()
        &&& self.modules.len() == self.module_completion.len()
    }

    /// Whether the session differs from `other` in nothing but the modules,
    /// their programs and their flags.
    pub open spec fn same_session_as(&self, other: &App) -> bool {
        &&& self.running == other.running
        &&& self.current_module_index == other.current_module_index
        &&& self.active_element == other.active_element
        &&& self.course_name@ == other.course_name@
    }

    /// Whether the session has the modules, programs and flags of `other`.
    pub open spec fn same_modules_as(&self, other: &App) -> bool {
        &&& self.modules@ == other.modules@
        &&& self.module_binaries@ == other.module_binaries@
        &&& self.module_completion@ == other.module_completion@
    }

    /// Whether the session holds the modules that `listing` gives, none where
    /// there is no listing, with no module done.
    pub open spec fn holds_modules_of(&self, listing: Option<Vec<DirectoryEntry>>) -> bool {
        &&& self.wf()
        &&& self.modules.len() == match listing {
            Some(entries) => module_names(entries.deep_view()).len(),
            None => 0,
        }
        &&& self.modules.deep_view() == match listing {
            Some(entries) => module_names(entries.deep_view()),
            None => Seq::empty(),
        }
        &&& self.module_binaries.deep_view() == match listing {
            Some(entries) => module_paths(entries.deep_view()),
            None => Seq::empty(),
        }
        &&& forall|i: int|
            0 <= i < self.module_completion.len() ==> !(#[trigger] self.module_completion[i])
    }

    /// Whether resuming this session comes to `action` and leaves the current
    /// index as `after` has it: without modules, `NoModules`; with a module
    /// that is not done, a run of the first such module, which becomes the
    /// current one; otherwise `AllComplete`. But for a run, the index stays.
    pub open spec fn resumes_with(&self, action: ResumeAction, after: &App) -> bool {
        match action {
            ResumeAction::NoModules => self.modules.len() == 0 && after.current_module_index
                == self.current_module_index,
            ResumeAction::Run { index, program } => self.modules.len() > 0 && first_unset(
                self.module_completion@,
            ) == Some(index as int) && after.current_module_index == index && program@
                == self.module_binaries[index as int]@,
            ResumeAction::AllComplete => self.modules.len() > 0 && first_unset(
                self.module_completion@,
            ) is None && after.current_module_index == self.current_module_index,
        }
    }

    /// A session for the course `course_name` with the modules that the
    /// listing of its directory gives. `listing` is `None` where the directory
    /// could not be read: the session then has no modules.
    pub fn new(course_name: String, listing: Option<Vec<DirectoryEntry>>) -> (app: Self)
        ensures
            app.running,
            app.current_module_index == 0,
            app.active_element == ActiveElement::Nothing,
            app.course_name@ == course_name@,
            app.holds_modules_of(listing),
    {
        let mut app = App {
            running: true,
            modules: Vec::new(),
            module_binaries: Vec::new(),
            course_name,
            current_module_index: 0,
            active_element: ActiveElement::Nothing,
            module_completion: Vec::new(),
        };
        app.load_modules(listing);
        app
    }

    /// The directory in which the modules of the course are looked for.
    pub fn course_directory(&self) -> (directory: String)
        ensures
            directory@ == directory_of(self.course_name@),
    {
        let mut directory = "./".to_owned();
        proof {
            reveal_strlit("./");
            assert("./"@ =~= seq!['.', '/']);
        }
        directory.append(self.course_name.as_str());
        directory
    }

    /// Takes the modules of the course from the listing of its directory, in
    /// the order of the listing, and marks each as not done. What the session
    /// held of modules before is dropped. Where the directory could not be
    /// read, `listing` is `None`: the session is left without modules, and
    /// the answer is `false`.
    pub fn load_modules(&mut self, listing: Option<Vec<DirectoryEntry>>) -> (found: bool)
        ensures
            found == listing is Some,
            final(self).holds_modules_of(listing),
            final(self).same_session_as(old(self)),
    {
        match listing {
            Some(entries) => {
                let (names, paths) = discover(&entries);
                let mut flags: Vec<bool> = Vec::new();
                for i in 0..names.len()
                    invariant
                        flags.len() == i,
                        forall|k: int| 0 <= k < flags.len() ==> !(#[trigger] flags[k]),
                {
                    flags.push(false);
                }
                self.modules = names;
                self.module_binaries = paths;
                self.module_completion = flags;
                true
            },
            None => {
                self.modules = Vec::new();
                self.module_binaries = Vec::new();
                self.module_completion = Vec::new();
                assert(self.modules.deep_view() =~= Seq::<Seq<char>>::empty());
                assert(self.module_binaries.deep_view() =~= Seq::<Seq<char>>::empty());
                false
            },
        }
    }

    /// The text of a new ledger for the modules of the session, in the order
    /// in which they were found.
    pub fn create_file(&self) -> (text: String)
        ensures
            text@ == ledger_text(self.modules.deep_view()),
    {
        render_ledger(&self.modules)
    }

    /// The text of a new ledger for the modules of the session, in ascending
    /// order of the numbers in front of their names.
    pub fn create_file_sorted(&self) -> (text: String)
        ensures
            text@ == ledger_text(sorted_by_key(self.modules.deep_view())),
    {
        let sorted = sorted_modules(&self.modules);
        render_ledger(&sorted)
    }

    /// Tells whether the ledger with the content `ledger` holds no record that
    /// is still to be done.
    pub fn complete(&self, ledger: &str) -> (done: bool)
        ensures
            done == ledger_complete(ledger@),
    {
        is_complete(ledger)
    }

    /// Marks the current module as done. Where the current index is behind
    /// the last module, nothing changes.
    pub fn complete_module(&mut self)
        requires
            old(self).wf(),
        ensures
            final(self).wf(),
            final(self).same_session_as(old(self)),
            final(self).modules@ == old(self).modules@,
            final(self).module_binaries@ == old(self).module_binaries@,
            final(self).module_completion@ == if old(self).current_module_index < old(self).modules.len() {
                old(self).module_completion@.update(old(self).current_module_index as int, true)
            } else {
                old(self).module_completion@
            },
    {
        if self.current_module_index < self.modules.len() {
            let index = self.current_module_index;
            self.module_completion.set(index, true);
        }
    }

    /// Fills the flags from the ledger with the content `ledger`: a module is
    /// done exactly where the first record of its name has a status other
    /// than `0`. Nothing else changes: the session is well formed afterwards
    /// where each module has its program.
    pub fn sync_with_ledger(&mut self, ledger: &str)
        ensures
            final(self).wf() == (old(self).modules.len() == old(self).module_binaries.len()),
            final(self).same_session_as(old(self)),
            final(self).modules@ == old(self).modules@,
            final(self).module_binaries@ == old(self).module_binaries@,
            final(self).module_completion@ == flags_of(
                old(self).modules.deep_view(),
                records_of(ledger@),
            ),
    {
        let records = parse_ledger(ledger);
        let mut flags: Vec<bool> = Vec::new();
        for i in 0..self.modules.len()
            invariant
                *self == *old(self),
                records.deep_view() == records_of(ledger@),
                flags.len() == i,
                forall|k: int|
                    0 <= k < i ==> #[trigger] flags[k] == done_in(
                        records_of(ledger@),
                        self.modules[k]@,
                    ),
        {
            flags.push(marked_done(&records, &self.modules[i]));
        }
        self.module_completion = flags;
        assert(self.module_completion@ =~= flags_of(
            self.modules.deep_view(),
            records_of(ledger@),
        ));
    }

    /// The selection that the ledger with the content `ledger` calls for: the
    /// module of its first record that is still to be done; `AllComplete`
    /// where it holds content and nothing is left to do; `NoModules` where it
    /// is blank.
    pub fn grab_next_module(ledger: &str) -> (next: Selection)
        ensures
            next@ == selection_of(ledger@),
    {
        select_next(ledger)
    }

    /// Plans the run of the next module. `file_path` is the path of the
    /// ledger, `ledger` its content, and `args` the arguments of this process,
    /// whose first is the path of its own program.
    ///
    /// Where the ledger names a module, the plan starts the program of the
    /// first module of that name and hands it the path of the ledger and the
    /// path of this program. Where the ledger is blank, or nothing in it is
    /// left to do, nothing is started. The call fails with `UnknownModule`
    /// where the session holds no module of the name, and with `NoBinaryPath`
    /// where it does and `args` is empty.
    pub fn run_module(&self, file_path: &str, ledger: &str, args: &Vec<String>) -> (plan: Result<
        RunPlan,
        LaunchError,
    >)
        requires
            self.wf(),
        ensures
            planned(plan) == run_plan_of(
                self.modules.deep_view(),
                self.module_binaries.deep_view(),
                file_path@,
                ledger@,
                args.deep_view(),
            ),
    {
        match Self::grab_next_module(ledger) {
            Selection::Module(module) => {
                match self.get_module_idx(module.as_str()) {
                    Some(index) => {
                        let program = self.module_binaries[index].clone();
                        match plan_launch(program, file_path, args) {
                            Ok(launch) => Ok(RunPlan::Run { module, launch }),
                            Err(error) => Err(error),
                        }
                    },
                    None => Err(LaunchError::UnknownModule),
                }
            },
            Selection::AllComplete => Ok(RunPlan::AllComplete),
            Selection::NoModules => Ok(RunPlan::NoModules),
        }
    }

    /// Plans the run of the module at `file_path` below the directory of the
    /// course, whatever the ledger says. The program is handed the path of
    /// the ledger, `ledger_path`, and the path of this program, the first of
    /// `args`. Where `args` is empty, the call fails.
    pub fn run_single(&self, file_path: &str, ledger_path: &str, args: &Vec<String>) -> (plan:
        Result<Launch, LaunchError>)
        ensures
            planned(plan) == if args.len() == 0 {
                Err::<LaunchView, LaunchError>(LaunchError::NoBinaryPath)
            } else {
                Ok(
                    module_launch(
                        path_in_course(self.course_name@, file_path@),
                        ledger_path@,
                        args[0]@,
                    ),
                )
            },
    {
        let program = join_path(self.course_name.as_str(), file_path);
        plan_launch(program, ledger_path, args)
    }

    /// The index of the first module with the name `name`.
    pub fn get_module_idx(&self, name: &str) -> (found: Option<usize>)
        ensures
            match found {
                Some(index) => index_of(self.modules.deep_view(), name@) == Some(index as int)
                    && index < self.modules.len() && self.modules[index as int]@ == name@
                    && forall|j: int| 0 <= j < index ==> (#[trigger] self.modules[j])@ != name@,
                None => index_of(self.modules.deep_view(), name@) is None && forall|j: int|
                    0 <= j < self.modules.len() ==> (#[trigger] self.modules[j])@ != name@,
            },
    {
        let ghost names = self.modules.deep_view();
        let wanted = name.to_owned();
        let mut i: usize = 0;
        assert(names.skip(0) =~= names);
        while i < self.modules.len()
            invariant
                i <= self.modules.len(),
                wanted@ == name@,
                names == self.modules.deep_view(),
                forall|j: int| 0 <= j < i ==> (#[trigger] self.modules[j])@ != name@,
                index_of(names, name@) == match index_of(names.skip(i as int), name@) {
                    Some(k) => Some(k + i),
                    None => None,
                },
            decreases self.modules.len() - i,
        {
            assert(names.skip(i as int)[0] == self.modules[i as int]@);
            if self.modules[i] == wanted {
                return Some(i);
            }
            assert(names.skip(i as int).drop_first() =~= names.skip(i + 1));
            i += 1;
        }
        None
    }

    /// Decides what resuming the course comes to. Where a module is not done,
    /// the first such module becomes the current one and its program is to be
    /// run. Otherwise nothing changes.
    pub fn resume_next_module(&mut self) -> (action: ResumeAction)
        requires
            old(self).wf(),
        ensures
            final(self).wf(),
            final(self).same_modules_as(old(self)),
            final(self).running == old(self).running,
            final(self).active_element == old(self).active_element,
            final(self).course_name@ == old(self).course_name@,
            old(self).resumes_with(action, final(self)),
    {
        if self.modules.len() == 0 {
            return ResumeAction::NoModules;
        }
        let ghost flags = self.module_completion@;
        let mut i: usize = 0;
        assert(flags.skip(0) =~= flags);
        while i < self.module_completion.len()
            invariant
                i <= self.module_completion.len(),
                flags == self.module_completion@,
                *self == *old(self),
                self.wf(),
                first_unset(flags) == match first_unset(flags.skip(i as int)) {
                    Some(k) => Some(k + i),
                    None => None,
                },
            decreases self.module_completion.len() - i,
        {
            assert(flags.skip(i as int)[0] == flags[i as int]);
            if !self.module_completion[i] {
                self.current_module_index = i;
                let program = self.module_binaries[i].clone();
                return ResumeAction::Run { index: i, program };
            }
            assert(flags.skip(i as int).drop_first() =~= flags.skip(i + 1));
            i += 1;
        }
        ResumeAction::AllComplete
    }

    /// Plans what is done when the course is resumed. `ledger_present` tells
    /// whether the ledger is there, `ledger_path` is its path, and `args` are
    /// the arguments of this process.
    ///
    /// Where no ledger is there, a new one, sorted by the numbers of the
    /// modules, is to be written before anything is started. The course is
    /// then resumed as `resume_next_module` says, and the program of the
    /// module that it names is handed the path of the ledger and the path of
    /// this program. The call fails where a module is to be run and `args` is
    /// empty; that module is then the current one all the same.
    pub fn resume(&mut self, ledger_present: bool, ledger_path: &str, args: &Vec<String>) -> (plan:
        Result<ResumePlan, LaunchError>)
        requires
            old(self).wf(),
        ensures
            final(self).wf(),
            final(self).same_modules_as(old(self)),
            final(self).running == old(self).running,
            final(self).active_element == old(self).active_element,
            final(self).course_name@ == old(self).course_name@,
            match plan {
                Ok(planned) => {
                    &&& old(self).resumes_with(planned.action, final(self))
                    &&& planned.ledger.deep_view() == if ledger_present {
                        None
                    } else {
                        Some(ledger_text(sorted_by_key(old(self).modules.deep_view())))
                    }
                    &&& planned.launch.deep_view() == match planned.action {
                        ResumeAction::Run { index, program } => Some(
                            module_launch(program@, ledger_path@, args[0]@),
                        ),
                        _ => None,
                    }
                    &&& planned.action is Run ==> args.len() > 0
                },
                Err(error) => {
                    &&& error == LaunchError::NoBinaryPath
                    &&& args.len() == 0
                    &&& old(self).modules.len() > 0
                    &&& first_unset(old(self).module_completion@) == Some(
                        final(self).current_module_index as int,
                    )
                },
            },
    {
        let ledger = if ledger_present {
            None
        } else {
            Some(self.create_file_sorted())
        };
        let action = self.resume_next_module();
        match &action {
            ResumeAction::Run { index, program } => {
                match plan_launch(program.clone(), ledger_path, args) {
                    Ok(launch) => Ok(ResumePlan { ledger, action, launch: Some(launch) }),
                    Err(error) => Err(error),
                }
            },
            _ => Ok(ResumePlan { ledger, action, launch: None }),
        }
    }

    /// Tells whether the position `(x, y)` lies on the resume button, which
    /// is ten columns wide and three rows high from column 10 and row 10.
    pub fn is_click_on_resume_button(&self, x: u16, y: u16) -> (on_button: bool)
        ensures
            on_button == (10 <= x < 20 && 10 <= y < 13),
    {
        let button_x: u16 = 10;
        let button_y: u16 = 10;
        let button_width: u16 = 10;
        let button_height: u16 = 3;
        x >= button_x && x < button_x + button_width && y >= button_y && y < button_y
            + button_height
    }

    /// Handles a tick of the clock: nothing happens.
    pub fn tick(&self) {
    }

    /// Ends the session.
    pub fn quit(&mut self)
        ensures
            !final(self).running,
            final(self).same_modules_as(old(self)),
            final(self).current_module_index == old(self).current_module_index,
            final(self).active_element == old(self).active_element,
            final(self).course_name@ == old(self).course_name@,
    {
        self.running = false;
    }

    /// Moves on to the next module. The index never goes behind the last
    /// module: at the last one, and in a course without modules, it stays.
    pub fn next_module(&mut self)
        ensures
            final(self).same_modules_as(old(self)),
            final(self).running == old(self).running,
            final(self).active_element == old(self).active_element,
            final(self).course_name@ == old(self).course_name@,
            final(self).current_module_index == if old(self).current_module_index + 1 < old(self).modules.len() {
                old(self).current_module_index + 1
            } else {
                old(self).current_module_index as int
            },
    {
        if self.modules.len() > 0 && self.current_module_index < self.modules.len() - 1 {
            self.current_module_index += 1;
        }
    }

    /// Tells whether the index stands behind the last module of a course that
    /// has modules.
    pub fn all_modules_completed(&self) -> (done: bool)
        ensures
            done == (self.current_module_index >= self.modules.len() && self.modules.len() > 0),
    {
        self.current_module_index >= self.modules.len() && self.modules.len() > 0
    }

    /// Plans the launch of the current module: its program, which is handed
    /// the path of the ledger and the path of this program, the first of
    /// `args`. There is nothing to launch where the index stands behind the
    /// last program. The call fails where there is and `args` is empty.
    pub fn launch_current_module(&self, ledger_path: &str, args: &Vec<String>) -> (plan: Result<
        Option<Launch>,
        LaunchError,
    >)
        ensures
            match plan {
                Ok(None) => self.current_module_index >= self.module_binaries.len(),
                Ok(Some(launch)) => self.current_module_index < self.module_binaries.len()
                    && args.len() > 0 && launch@ == module_launch(
                    self.module_binaries[self.current_module_index as int]@,
                    ledger_path@,
                    args[0]@,
                ),
                Err(error) => self.current_module_index < self.module_binaries.len() && args.len()
                    == 0 && error == LaunchError::NoBinaryPath,
            },
    {
        if self.current_module_index < self.module_binaries.len() {
            let program = self.module_binaries[self.current_module_index].clone();
            match plan_launch(program, ledger_path, args) {
                Ok(launch) => Ok(Some(launch)),
                Err(error) => Err(error),
            }
        } else {
            Ok(None)
        }
    }

    /// Takes note of how the program of the current module ended.
    /// `exit_code` is the code with which it exited, `None` where it did not
    /// exit by itself. With the code zero the module is marked as done; with
    /// any other outcome nothing changes. The answer tells whether the module
    /// succeeded.
    pub fn finish_current_module(&mut self, exit_code: Option<i32>) -> (succeeded: bool)
        requires
            old(self).wf(),
        ensures
            succeeded == (exit_code == Some(0i32)),
            final(self).wf(),
            final(self).same_session_as(old(self)),
            final(self).modules@ == old(self).modules@,
            final(self).module_binaries@ == old(self).module_binaries@,
            final(self).module_completion@ == if succeeded && old(self).current_module_index < old(self).modules.len() {
                old(self).module_completion@.update(old(self).current_module_index as int, true)
            } else {
                old(self).module_completion@
            },
    {
        match exit_code {
            Some(code) => {
                if code == 0 {
                    self.complete_module();
                    true
                } else {
                    false
                }
            },
            None => false,
        }
    }
}

} // verus!
