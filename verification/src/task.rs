use vstd::prelude::*;

verus! {

/// What a background icon operation does to a folder.
#[derive(Clone, Copy, PartialEq, Eq, Structural, Debug)]
pub enum Action {
    /// Give the folder the executable's icon.
    Apply,
    /// Give the folder its default icon back.
    Restore,
}

/// A request for one background icon operation on one folder.
#[derive(Debug)]
pub struct IoTask {
    pub action: Action,
    pub folder: String,
    pub exe: String,
}

/// Mathematical view of an [`IoTask`].
pub struct TaskView {
    pub action: Action,
    pub folder: Seq<char>,
    pub exe: Seq<char>,
}

impl View for IoTask {
    type V = TaskView;

    open spec fn view(&self) -> TaskView {
        TaskView { action: self.action, folder: self.folder@, exe: self.exe@ }
    }
}

/// The views of a list of tasks.
pub open spec fn tasks_view(tasks: Seq<IoTask>) -> Seq<TaskView> {
    tasks.map_values(|t: IoTask| t@)
}

/// What a finished background operation reports.
#[derive(Debug)]
pub struct TaskResult {
    pub folder: String,
    pub exe: String,
    pub action: Action,
    pub success: bool,
    /// The error message when the operation failed.
    pub msg: Option<String>,
}

/// Mathematical view of a [`TaskResult`].
pub struct TaskResultView {
    pub folder: Seq<char>,
    pub exe: Seq<char>,
    pub action: Action,
    pub success: bool,
    pub msg: Option<Seq<char>>,
}

impl View for TaskResult {
    type V = TaskResultView;

    open spec fn view(&self) -> TaskResultView {
        TaskResultView {
            folder: self.folder@,
            exe: self.exe@,
            action: self.action,
            success: self.success,
            msg: match self.msg {
                Some(m) => Some(m@),
                None => None,
            },
        }
    }
}

impl IoTask {
    /// A task with the given action on a folder and executable.
    pub fn new(action: Action, folder: String, exe: String) -> (res: IoTask)
        ensures
            res@ == (TaskView { action, folder: folder@, exe: exe@ }),
    {
        IoTask { action, folder, exe }
    }
}

} // verus!
