use task_store::store::TaskList;

#[test]
fn sequential_ids_for_adds_on_empty() {
    let mut tl = TaskList::new();
    tl.add_task(String::from("one"));
    tl.add_task(String::from("two"));
    tl.add_task(String::from("three"));
    assert_eq!(tl.len(), 3);
    assert_eq!(tl.get(0).id, 1);
    assert_eq!(tl.get(1).id, 2);
    assert_eq!(tl.get(2).id, 3);
    assert!(!tl.get(0).completed);
    assert!(!tl.get(1).completed);
    assert!(!tl.get(2).completed);
    assert_eq!(tl.get(0).title, "one");
    assert_eq!(tl.get(1).title, "two");
    assert_eq!(tl.get(2).title, "three");
}

#[test]
fn delete_then_add_duplicates_id() {
    let mut tl = TaskList::new();
    tl.add_task(String::from("a"));
    tl.add_task(String::from("b"));
    tl.add_task(String::from("c"));
    tl.delete_task(2);
    assert_eq!(tl.len(), 2);
    assert_eq!(tl.get(0).id, 1);
    assert_eq!(tl.get(1).id, 3);
    tl.add_task(String::from("d"));
    assert_eq!(tl.len(), 3);
    // the surviving task with id 3 and the new task now share that id
    assert_eq!(tl.get(1).id, 3);
    assert_eq!(tl.get(2).id, 3);
}

#[test]
fn delete_absent_is_noop() {
    let mut tl = TaskList::new();
    tl.add_task(String::from("a"));
    tl.delete_task(7);
    assert_eq!(tl.len(), 1);
    assert_eq!(tl.get(0).id, 1);
    assert_eq!(tl.get(0).title, "a");
}

#[test]
fn delete_removes_first_match_only() {
    let mut tl = TaskList::new();
    tl.add_task(String::from("a"));
    tl.add_task(String::from("b"));
    tl.add_task(String::from("c"));
    tl.delete_task(2);
    tl.add_task(String::from("d"));
    // two tasks carry id 3; deleting removes only the first of them
    tl.delete_task(3);
    assert_eq!(tl.len(), 2);
    assert_eq!(tl.get(0).title, "a");
    assert_eq!(tl.get(1).title, "d");
}

#[test]
fn edit_absent_reports_not_found_and_changes_nothing() {
    let mut tl = TaskList::new();
    tl.add_task(String::from("a"));
    let found = tl.edit_task(9, String::from("z"));
    assert!(!found);
    assert_eq!(tl.len(), 1);
    assert_eq!(tl.get(0).id, 1);
    assert_eq!(tl.get(0).title, "a");
    assert!(!tl.get(0).completed);
}

#[test]
fn edit_present_changes_only_title() {
    let mut tl = TaskList::new();
    tl.add_task(String::from("a"));
    tl.add_task(String::from("b"));
    let done = tl.complete_task(2);
    assert!(done);
    let found = tl.edit_task(2, String::from("b2"));
    assert!(found);
    assert_eq!(tl.get(1).id, 2);
    assert_eq!(tl.get(1).title, "b2");
    assert!(tl.get(1).completed);
    assert_eq!(tl.get(0).title, "a");
}

#[test]
fn complete_is_idempotent() {
    let mut tl = TaskList::new();
    tl.add_task(String::from("a"));
    let first = tl.complete_task(1);
    assert!(first);
    assert!(tl.get(0).completed);
    let second = tl.complete_task(1);
    assert!(second);
    assert!(tl.get(0).completed);
    assert_eq!(tl.get(0).title, "a");
    assert_eq!(tl.get(0).id, 1);
}

#[test]
fn complete_absent_reports_not_found() {
    let mut tl = TaskList::new();
    tl.add_task(String::from("a"));
    let found = tl.complete_task(3);
    assert!(!found);
    assert!(!tl.get(0).completed);
}

#[test]
fn find_index_reports_first_match() {
    let mut tl = TaskList::new();
    tl.add_task(String::from("a"));
    tl.add_task(String::from("b"));
    assert_eq!(tl.find_index(2), Some(1));
    assert_eq!(tl.find_index(5), None);
}
