use tealdeer::request::{plan, Request, Task};

fn nothing() -> Request {
    Request {
        version: false,
        clear_cache: false,
        update: false,
        config_path: false,
        seed_config: false,
        render: false,
        list: false,
        command: false,
    }
}

#[test]
fn run_without_a_wish_shows_the_usage() {
    assert_eq!(plan(nothing()), vec![Task::ShowUsage]);
}

#[test]
fn version_comes_before_everything() {
    let mut r = nothing();
    r.version = true;
    r.update = true;
    r.command = true;
    r.list = true;
    assert_eq!(plan(r), vec![Task::ShowVersion]);
}

#[test]
fn command_is_looked_up() {
    let mut r = nothing();
    r.command = true;
    assert_eq!(plan(r), vec![Task::ShowPage]);
}

#[test]
fn cache_is_cleared_then_updated_then_used() {
    let mut r = nothing();
    r.command = true;
    r.update = true;
    r.clear_cache = true;
    r.config_path = true;
    assert_eq!(
        plan(r),
        vec![Task::ClearCache, Task::UpdateCache, Task::ShowConfigPath, Task::ShowPage]
    );
}

#[test]
fn update_alone_is_enough() {
    let mut r = nothing();
    r.update = true;
    assert_eq!(plan(r), vec![Task::UpdateCache]);
    let mut r = nothing();
    r.clear_cache = true;
    assert_eq!(plan(r), vec![Task::ClearCache]);
    let mut r = nothing();
    r.config_path = true;
    assert_eq!(plan(r), vec![Task::ShowConfigPath]);
}

#[test]
fn first_ending_task_wins() {
    let mut r = nothing();
    r.command = true;
    r.list = true;
    assert_eq!(plan(r), vec![Task::ListPages]);
    r.render = true;
    assert_eq!(plan(r), vec![Task::RenderFile]);
    r.seed_config = true;
    assert_eq!(plan(r), vec![Task::SeedConfig]);
}
