use todo_tasks::store::{add_task, delete_task, edit_task, mark_done, render_list, render_task_line};
use todo_tasks::task::Task;

fn task(id: u64, description: &str, done: bool) -> Task {
    Task { id, description: String::from(description), done }
}

#[test]
fn add_to_empty_assigns_id_one() {
    let mut tasks: Vec<Task> = Vec::new();
    let id = add_task(&mut tasks, String::from("buy milk"));
    assert_eq!(id, 1);
    assert_eq!(tasks.len(), 1);
    assert_eq!(tasks[0].id, 1);
    assert_eq!(tasks[0].description, "buy milk");
    assert!(!tasks[0].done);
}

#[test]
fn add_assigns_last_id_plus_one() {
    let mut tasks = vec![task(1, "a", false), task(7, "b", true)];
    let id = add_task(&mut tasks, String::from("c"));
    assert_eq!(id, 8);
    assert_eq!(tasks.len(), 3);
    assert_eq!(tasks[2].id, 8);
    assert_eq!(tasks[2].description, "c");
    assert!(!tasks[2].done);
}

#[test]
fn add_after_delete_of_last_reuses_successor_id() {
    let mut tasks: Vec<Task> = Vec::new();
    add_task(&mut tasks, String::from("a"));
    add_task(&mut tasks, String::from("b"));
    assert!(delete_task(&mut tasks, 2));
    let id = add_task(&mut tasks, String::from("c"));
    assert_eq!(id, 2);
}

#[test]
fn list_empty_reports_no_tasks() {
    let tasks: Vec<Task> = Vec::new();
    let lines = render_list(&tasks);
    assert_eq!(lines, vec![String::from("No tasks found.")]);
}

#[test]
fn list_after_add_shows_unset_marker_and_description() {
    let mut tasks: Vec<Task> = Vec::new();
    add_task(&mut tasks, String::from("buy milk"));
    let lines = render_list(&tasks);
    assert_eq!(lines, vec![String::from("1: [ ] buy milk")]);
}

#[test]
fn mark_done_then_list_shows_set_marker() {
    let mut tasks = vec![task(1, "buy milk", false), task(2, "walk dog", false)];
    assert!(mark_done(&mut tasks, 1));
    let lines = render_list(&tasks);
    assert_eq!(lines[0], "1: [x] buy milk");
    assert_eq!(lines[1], "2: [ ] walk dog");
}

#[test]
fn mark_done_nonexistent_fails_and_changes_nothing() {
    let mut tasks = vec![task(1, "buy milk", false)];
    assert!(!mark_done(&mut tasks, 5));
    assert_eq!(tasks.len(), 1);
    assert_eq!(tasks[0].id, 1);
    assert_eq!(tasks[0].description, "buy milk");
    assert!(!tasks[0].done);
}

#[test]
fn delete_only_task_yields_empty_store() {
    let mut tasks = vec![task(1, "buy milk", false)];
    assert!(delete_task(&mut tasks, 1));
    assert!(tasks.is_empty());
}

#[test]
fn delete_nonexistent_fails_and_leaves_store_unchanged() {
    let mut tasks = vec![task(1, "a", false), task(2, "b", true)];
    assert!(!delete_task(&mut tasks, 3));
    assert_eq!(tasks.len(), 2);
    assert_eq!(tasks[0].id, 1);
    assert_eq!(tasks[1].id, 2);
    assert_eq!(tasks[0].description, "a");
    assert_eq!(tasks[1].description, "b");
}

#[test]
fn delete_keeps_order_of_remaining_tasks() {
    let mut tasks = vec![task(1, "a", false), task(2, "b", false), task(3, "c", true)];
    assert!(delete_task(&mut tasks, 2));
    assert_eq!(tasks.len(), 2);
    assert_eq!(tasks[0].id, 1);
    assert_eq!(tasks[1].id, 3);
    assert!(tasks[1].done);
}

#[test]
fn edit_changes_only_the_description() {
    let mut tasks = vec![task(1, "a", false), task(2, "b", true)];
    assert!(edit_task(&mut tasks, 2, String::from("new text")));
    assert_eq!(tasks[1].id, 2);
    assert_eq!(tasks[1].description, "new text");
    assert!(tasks[1].done);
    assert_eq!(tasks[0].description, "a");
    assert!(!tasks[0].done);
}

#[test]
fn edit_nonexistent_fails_and_changes_nothing() {
    let mut tasks = vec![task(1, "a", false)];
    assert!(!edit_task(&mut tasks, 9, String::from("x")));
    assert_eq!(tasks[0].description, "a");
}

#[test]
fn render_line_of_large_id() {
    let t = task(18446744073709551615, "edge", true);
    assert_eq!(render_task_line(&t), "18446744073709551615: [x] edge");
}
