//! What a run is to do, from what the command line asks for.

use vstd::prelude::*;

verus! {

/// What the command line asks for, as far as it decides what is done.
#[derive(Debug, Clone, Copy, PartialEq, Eq, Structural)]
pub struct Request {
    /// The version is asked for.
    pub version: bool,
    /// The cache is to be removed.
    pub clear_cache: bool,
    /// The cache is to be updated.
    pub update: bool,
    /// The path of the configuration file is asked for.
    pub config_path: bool,
    /// A configuration file is to be written.
    pub seed_config: bool,
    /// A file is given to be rendered.
    pub render: bool,
    /// The names of the pages are asked for.
    pub list: bool,
    /// A command is named.
    pub command: bool,
}

/// One thing that a run does.
#[derive(Debug, Clone, Copy, PartialEq, Eq, Structural)]
pub enum Task {
    ShowVersion,
    ClearCache,
    UpdateCache,
    ShowConfigPath,
    SeedConfig,
    RenderFile,
    ListPages,
    ShowPage,
    ShowUsage,
}

impl Task {
    /// Whether the run ends with it, whatever else was asked for.
    pub open spec fn is_last(self) -> bool {
        !(self is ClearCache || self is UpdateCache || self is ShowConfigPath)
    }
}

/// The tasks that go on to others: removing the cache, updating it and
/// showing the path of the configuration, in this order, each if asked for.
pub open spec fn passing_tasks(request: Request) -> Seq<Task> {
    let clear = if request.clear_cache {
        seq![Task::ClearCache]
    } else {
        Seq::empty()
    };
    let update = if request.update {
        seq![Task::UpdateCache]
    } else {
        Seq::empty()
    };
    let path = if request.config_path {
        seq![Task::ShowConfigPath]
    } else {
        Seq::empty()
    };
    clear + update + path
}

/// The task that ends the run: the first that is asked for of writing a
/// configuration, rendering a file, listing the pages and showing a page.
/// A run that is asked for none of these and has done nothing else shows how
/// it is to be used; one that has done something else just ends.
pub open spec fn last_task(request: Request) -> Option<Task> {
    if request.seed_config {
        Some(Task::SeedConfig)
    } else if request.render {
        Some(Task::RenderFile)
    } else if request.list {
        Some(Task::ListPages)
    } else if request.command {
        Some(Task::ShowPage)
    } else if passing_tasks(request).len() == 0 {
        Some(Task::ShowUsage)
    } else {
        None
    }
}

/// The tasks of a run, in the order in which they are done. A run that is
/// asked for the version shows it and does nothing else.
pub open spec fn plan_spec(request: Request) -> Seq<Task> {
    if request.version {
        seq![Task::ShowVersion]
    } else {
        match last_task(request) {
            Some(task) => passing_tasks(request) + seq![task],
            None => passing_tasks(request),
        }
    }
}

/// The tasks of a run, in the order in which they are done.
pub fn plan(request: Request) -> (tasks: Vec<Task>)
    ensures
        tasks@ == plan_spec(request),
{
    let mut tasks: Vec<Task> = Vec::new();
    if request.version {
        tasks.push(Task::ShowVersion);
        assert(tasks@ =~= plan_spec(request));
        return tasks;
    }
    if request.clear_cache {
        tasks.push(Task::ClearCache);
    }
    if request.update {
        tasks.push(Task::UpdateCache);
    }
    if request.config_path {
        tasks.push(Task::ShowConfigPath);
    }
    assert(tasks@ =~= passing_tasks(request));
    if request.seed_config {
        tasks.push(Task::SeedConfig);
    } else if request.render {
        tasks.push(Task::RenderFile);
    } else if request.list {
        tasks.push(Task::ListPages);
    } else if request.command {
        tasks.push(Task::ShowPage);
    } else if tasks.len() == 0 {
        tasks.push(Task::ShowUsage);
    }
    assert(tasks@ =~= plan_spec(request));
    tasks
}

/// A run never ends on nothing, and no task follows the one that ends it:
/// only the last task of a plan can be one that ends the run.
pub proof fn lemma_plan_is_well_formed(request: Request, i: int)
    requires
        0 <= i < plan_spec(request).len(),
    ensures
        plan_spec(request).len() >= 1,
        plan_spec(request)[i].is_last() ==> i == plan_spec(request).len() - 1,
{
}

} // verus!
