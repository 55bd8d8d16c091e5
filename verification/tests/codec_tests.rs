use task_store::store::TaskList;

fn store_of(titles: &[&str]) -> TaskList {
    let mut tl = TaskList::new();
    for t in titles {
        tl.add_task(String::from(*t));
    }
    tl
}

#[test]
fn encode_empty_store() {
    let tl = TaskList::new();
    assert_eq!(tl.encode(), "{\"tasks\":[]}");
}

#[test]
fn encode_one_task_exact() {
    let tl = store_of(&["Buy milk"]);
    assert_eq!(
        tl.encode(),
        "{\"tasks\":[{\"id\":1,\"title\":\"Buy milk\",\"completed\":false}]}"
    );
}

#[test]
fn encode_two_tasks_exact() {
    let mut tl = store_of(&["a", "b"]);
    let found = tl.complete_task(2);
    assert!(found);
    assert_eq!(
        tl.encode(),
        "{\"tasks\":[{\"id\":1,\"title\":\"a\",\"completed\":false},{\"id\":2,\"title\":\"b\",\"completed\":true}]}"
    );
}

#[test]
fn encode_escapes_title() {
    let tl = store_of(&["say \"hi\" \\ now\n"]);
    assert_eq!(
        tl.encode(),
        "{\"tasks\":[{\"id\":1,\"title\":\"say \\\"hi\\\" \\\\ now\\u000a\",\"completed\":false}]}"
    );
}

fn assert_same_stores(a: &TaskList, b: &TaskList) {
    assert_eq!(a.len(), b.len());
    for i in 0..a.len() {
        assert_eq!(a.get(i).id, b.get(i).id);
        assert_eq!(a.get(i).title, b.get(i).title);
        assert_eq!(a.get(i).completed, b.get(i).completed);
    }
}

#[test]
fn round_trip_plain() {
    let mut tl = store_of(&["one", "two", "three"]);
    let found = tl.complete_task(2);
    assert!(found);
    let back = TaskList::decode(&tl.encode()).unwrap();
    assert_same_stores(&tl, &back);
}

#[test]
fn round_trip_empty() {
    let tl = TaskList::new();
    let back = TaskList::decode(&tl.encode()).unwrap();
    assert_eq!(back.len(), 0);
}

#[test]
fn round_trip_special_characters() {
    let tl = store_of(&[
        "",
        "quote \" backslash \\ slash /",
        "tab\tnewline\nreturn\rbell\u{7}",
        "unicode: árvíztűrő tükörfúrógép 仕事",
    ]);
    let back = TaskList::decode(&tl.encode()).unwrap();
    assert_same_stores(&tl, &back);
}

#[test]
fn decode_accepts_standard_escapes() {
    let doc = "{\"tasks\":[{\"id\":1,\"title\":\"A\\u0042\\n\\t\\/\\\"\",\"completed\":true}]}";
    let tl = TaskList::decode(doc).unwrap();
    assert_eq!(tl.len(), 1);
    assert_eq!(tl.get(0).title, "AB\n\t/\"");
    assert!(tl.get(0).completed);
}

#[test]
fn decode_rejects_garbage() {
    assert!(TaskList::decode("garbage").is_err());
    assert!(TaskList::decode("").is_err());
    assert!(TaskList::decode("{\"tasks\":[").is_err());
    assert!(TaskList::decode("{\"tasks\":[]").is_err());
    assert!(TaskList::decode("{\"tasks\":[]}extra").is_err());
}

#[test]
fn decode_rejects_bad_records() {
    // id is not a number
    assert!(TaskList::decode("{\"tasks\":[{\"id\":x,\"title\":\"a\",\"completed\":false}]}").is_err());
    // id does not fit in 32 bits
    assert!(TaskList::decode("{\"tasks\":[{\"id\":4294967296,\"title\":\"a\",\"completed\":false}]}").is_err());
    // unknown escape
    assert!(TaskList::decode("{\"tasks\":[{\"id\":1,\"title\":\"\\q\",\"completed\":false}]}").is_err());
    // raw control character inside a string
    assert!(TaskList::decode("{\"tasks\":[{\"id\":1,\"title\":\"a\u{1}b\",\"completed\":false}]}").is_err());
    // unterminated string
    assert!(TaskList::decode("{\"tasks\":[{\"id\":1,\"title\":\"a").is_err());
    // flag is not a boolean
    assert!(TaskList::decode("{\"tasks\":[{\"id\":1,\"title\":\"a\",\"completed\":maybe}]}").is_err());
}

#[test]
fn decode_largest_id() {
    let doc = "{\"tasks\":[{\"id\":4294967295,\"title\":\"a\",\"completed\":false}]}";
    let tl = TaskList::decode(doc).unwrap();
    assert_eq!(tl.get(0).id, u32::MAX);
}

#[test]
fn from_saved_absent_file_is_empty_store() {
    let tl = TaskList::from_saved(None).unwrap();
    assert_eq!(tl.len(), 0);
}

#[test]
fn from_saved_present_contents_are_decoded() {
    let tl = TaskList::from_saved(Some("{\"tasks\":[]}")).unwrap();
    assert_eq!(tl.len(), 0);
    assert!(TaskList::from_saved(Some("nope")).is_err());
}

#[test]
fn encoding_is_json_readable_by_serde() {
    let mut tl = store_of(&["Buy milk", "weird \" title \\ with\ttabs"]);
    let found = tl.complete_task(1);
    assert!(found);
    let doc = tl.encode();
    let value: serde_json::Value = serde_json::from_str(&doc).unwrap();
    let tasks = value.get("tasks").unwrap().as_array().unwrap();
    assert_eq!(tasks.len(), 2);
    assert_eq!(tasks[0].get("id").unwrap().as_u64().unwrap(), 1);
    assert_eq!(tasks[0].get("title").unwrap().as_str().unwrap(), "Buy milk");
    assert_eq!(tasks[0].get("completed").unwrap().as_bool().unwrap(), true);
    assert_eq!(
        tasks[1].get("title").unwrap().as_str().unwrap(),
        "weird \" title \\ with\ttabs"
    );
    assert_eq!(tasks[1].get("completed").unwrap().as_bool().unwrap(), false);
}

#[test]
fn round_trip_through_serde_values() {
    // what encode writes, serde reads; and a serde re-serialization of a
    // title string is read back by decode
    let title = "quote \" back \\ slash";
    let tl = store_of(&[title]);
    let doc = tl.encode();
    let value: serde_json::Value = serde_json::from_str(&doc).unwrap();
    let serde_title = serde_json::to_string(value["tasks"][0].get("title").unwrap()).unwrap();
    let rebuilt = format!("{{\"tasks\":[{{\"id\":1,\"title\":{},\"completed\":false}}]}}", serde_title);
    let back = TaskList::decode(&rebuilt).unwrap();
    assert_eq!(back.get(0).title, title);
}
