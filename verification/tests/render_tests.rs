use task_store::render::render_line;
use task_store::store::TaskList;

#[test]
fn render_not_completed_line() {
    let mut tl = TaskList::new();
    tl.add_task(String::from("Buy milk"));
    assert_eq!(render_line(tl.get(0)), "[1] Buy milk - Not completed");
}

#[test]
fn render_completed_line() {
    let mut tl = TaskList::new();
    tl.add_task(String::from("Buy milk"));
    let found = tl.complete_task(1);
    assert!(found);
    assert_eq!(render_line(tl.get(0)), "[1] Buy milk - Completed");
}

#[test]
fn render_multi_digit_id() {
    let mut tl = TaskList::new();
    for i in 0..12 {
        tl.add_task(format!("task {}", i));
    }
    let lines = tl.list_lines();
    assert_eq!(lines[9], "[10] task 9 - Not completed");
    assert_eq!(lines[11], "[12] task 11 - Not completed");
}

#[test]
fn end_to_end_session() {
    // start empty, add, list, complete, list, delete, list
    let mut tl = TaskList::new();
    assert_eq!(tl.list_lines().len(), 0);
    tl.add_task(String::from("Buy milk"));
    assert_eq!(tl.list_lines(), vec!["[1] Buy milk - Not completed"]);
    let found = tl.complete_task(1);
    assert!(found);
    assert_eq!(tl.list_lines(), vec!["[1] Buy milk - Completed"]);
    tl.delete_task(1);
    assert_eq!(tl.list_lines().len(), 0);
}
