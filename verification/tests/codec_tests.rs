use todo_tasks::decode::tasks_from_json;
use todo_tasks::encode::tasks_to_json;
use todo_tasks::task::Task;

fn task(id: u64, description: &str, done: bool) -> Task {
    Task { id, description: String::from(description), done }
}

fn assert_same_tasks(a: &[Task], b: &[Task]) {
    assert_eq!(a.len(), b.len());
    for (x, y) in a.iter().zip(b.iter()) {
        assert_eq!(x.id, y.id);
        assert_eq!(x.description, y.description);
        assert_eq!(x.done, y.done);
    }
}

#[test]
fn empty_store_serializes_to_empty_array() {
    let tasks: Vec<Task> = Vec::new();
    assert_eq!(tasks_to_json(&tasks), "[]");
}

#[test]
fn one_task_serializes_pretty_printed() {
    let tasks = vec![task(1, "buy milk", false)];
    let expected =
        "[\n  {\n    \"id\": 1,\n    \"description\": \"buy milk\",\n    \"done\": false\n  }\n]";
    assert_eq!(tasks_to_json(&tasks), expected);
}

#[test]
fn two_tasks_serialize_in_order() {
    let tasks = vec![task(1, "a", false), task(2, "b", true)];
    let expected = "[\n  {\n    \"id\": 1,\n    \"description\": \"a\",\n    \"done\": false\n  },\n  {\n    \"id\": 2,\n    \"description\": \"b\",\n    \"done\": true\n  }\n]";
    assert_eq!(tasks_to_json(&tasks), expected);
}

#[test]
fn round_trip_reproduces_the_collection() {
    let tasks = vec![
        task(1, "buy milk", false),
        task(2, "walk the dog", true),
        task(10, "", false),
        task(18446744073709551615, "edge id", true),
    ];
    let text = tasks_to_json(&tasks);
    let loaded = tasks_from_json(&text);
    assert_same_tasks(&tasks, &loaded);
}

#[test]
fn round_trip_preserves_escaped_characters() {
    let tasks = vec![
        task(1, "say \"hi\"", false),
        task(2, "a\\b", true),
        task(3, "line1\nline2", false),
        task(4, "tab\there\rcr", false),
        task(5, "unicode: \u{e9}\u{4e16}\u{754c}", true),
    ];
    let text = tasks_to_json(&tasks);
    let loaded = tasks_from_json(&text);
    assert_same_tasks(&tasks, &loaded);
}

#[test]
fn loading_the_empty_array_yields_no_tasks() {
    assert!(tasks_from_json("[]").is_empty());
}

#[test]
fn loading_garbage_yields_empty_collection() {
    assert!(tasks_from_json("not json at all").is_empty());
    assert!(tasks_from_json("").is_empty());
    assert!(tasks_from_json("{}").is_empty());
    assert!(tasks_from_json("[").is_empty());
}

#[test]
fn loading_truncated_document_yields_empty_collection() {
    let text = tasks_to_json(&vec![task(1, "a", false)]);
    let truncated = &text[..text.len() - 2];
    assert!(tasks_from_json(truncated).is_empty());
}

#[test]
fn loading_document_with_trailing_text_yields_empty_collection() {
    let mut text = tasks_to_json(&vec![task(1, "a", false)]);
    text.push_str("x");
    assert!(tasks_from_json(&text).is_empty());
}

#[test]
fn loading_tolerates_whitespace_around_tokens() {
    let text = " [ { \"id\" : 1 , \"description\" : \"a\" , \"done\" : false } ]\n";
    let loaded = tasks_from_json(text);
    assert_eq!(loaded.len(), 1);
    assert_eq!(loaded[0].id, 1);
    assert_eq!(loaded[0].description, "a");
    assert!(!loaded[0].done);
}

#[test]
fn loading_one_line_document_yields_the_tasks() {
    let text = "[{\"id\": 1, \"description\": \"a\", \"done\": false}]";
    let loaded = tasks_from_json(text);
    assert_eq!(loaded.len(), 1);
    assert_eq!(loaded[0].id, 1);
    assert_eq!(loaded[0].description, "a");
    assert!(!loaded[0].done);
}

#[test]
fn loading_reordered_fields_yields_the_tasks() {
    let text = "[{\"done\": true, \"id\": 9, \"description\": \"swapped\"}]";
    let loaded = tasks_from_json(text);
    assert_eq!(loaded.len(), 1);
    assert_eq!(loaded[0].id, 9);
    assert_eq!(loaded[0].description, "swapped");
    assert!(loaded[0].done);
}

#[test]
fn loading_unicode_escapes_yields_the_characters() {
    let text = "[{\"id\": 1, \"description\": \"\\u0041\\u00e9\\uD83D\\uDE00\\b\\f\\/\", \"done\": false}]";
    let loaded = tasks_from_json(text);
    assert_eq!(loaded.len(), 1);
    assert_eq!(loaded[0].description, "A\u{e9}\u{1F600}\u{8}\u{c}/");
}

#[test]
fn loading_lone_surrogate_yields_empty_collection() {
    let text = "[{\"id\": 1, \"description\": \"\\uD83D\", \"done\": false}]";
    assert!(tasks_from_json(text).is_empty());
}

#[test]
fn loading_raw_control_character_yields_empty_collection() {
    let text = "[{\"id\": 1, \"description\": \"a\u{1}b\", \"done\": false}]";
    assert!(tasks_from_json(text).is_empty());
}

#[test]
fn loading_leading_zero_id_yields_empty_collection() {
    let text = "[{\"id\": 07, \"description\": \"a\", \"done\": false}]";
    assert!(tasks_from_json(text).is_empty());
}

#[test]
fn loading_duplicate_field_yields_empty_collection() {
    let text = "[{\"id\": 1, \"id\": 2, \"description\": \"a\", \"done\": false}]";
    assert!(tasks_from_json(text).is_empty());
}

#[test]
fn loading_missing_field_yields_empty_collection() {
    let text = "[{\"id\": 1, \"done\": false}]";
    assert!(tasks_from_json(text).is_empty());
}

#[test]
fn loading_unknown_field_yields_empty_collection() {
    let text = "[{\"id\": 1, \"description\": \"a\", \"done\": false, \"extra\": 3}]";
    assert!(tasks_from_json(text).is_empty());
}

#[test]
fn control_characters_are_escaped_and_survive_the_round_trip() {
    let tasks = vec![task(1, "bell\u{7} backspace\u{8} form\u{c} esc\u{1b} unit\u{1f}", false)];
    let text = tasks_to_json(&tasks);
    assert!(text.contains("\\u0007"));
    assert!(text.contains("\\b"));
    assert!(text.contains("\\f"));
    assert!(text.contains("\\u001b"));
    assert!(text.contains("\\u001f"));
    let value: serde_json::Value = serde_json::from_str(&text).expect("control characters must be escaped");
    assert_eq!(
        value[0]["description"].as_str(),
        Some("bell\u{7} backspace\u{8} form\u{c} esc\u{1b} unit\u{1f}")
    );
    let loaded = tasks_from_json(&text);
    assert_same_tasks(&tasks, &loaded);
}

#[test]
fn serde_pretty_output_loads_field_for_field() {
    let mut obj = serde_json::Map::new();
    obj.insert(String::from("id"), serde_json::Value::from(5u64));
    obj.insert(String::from("description"), serde_json::Value::from("tab\tquote\""));
    obj.insert(String::from("done"), serde_json::Value::from(true));
    let value = serde_json::Value::Array(vec![serde_json::Value::Object(obj)]);
    let text = serde_json::to_string_pretty(&value).expect("serialization of a plain value");
    let loaded = tasks_from_json(&text);
    assert_eq!(loaded.len(), 1);
    assert_eq!(loaded[0].id, 5);
    assert_eq!(loaded[0].description, "tab\tquote\"");
    assert!(loaded[0].done);
}

#[test]
fn loading_bad_escape_yields_empty_collection() {
    let good = tasks_to_json(&vec![task(1, "ab", false)]);
    let bad = good.replace("\"ab\"", "\"a\\qb\"");
    assert!(tasks_from_json(&bad).is_empty());
}

#[test]
fn loading_id_beyond_u64_yields_empty_collection() {
    let good = tasks_to_json(&vec![task(7, "a", false)]);
    let in_range = good.replace("\"id\": 7", "\"id\": 18446744073709551615");
    assert_eq!(tasks_from_json(&in_range)[0].id, 18446744073709551615);
    let out_of_range = good.replace("\"id\": 7", "\"id\": 18446744073709551616");
    assert!(tasks_from_json(&out_of_range).is_empty());
}

#[test]
fn saved_text_is_valid_json_for_an_outside_reader() {
    let tasks = vec![task(3, "say \"hi\"\nthen leave", true), task(4, "plain", false)];
    let text = tasks_to_json(&tasks);
    let value: serde_json::Value = serde_json::from_str(&text).expect("library output must parse");
    let arr = value.as_array().expect("top level is an array");
    assert_eq!(arr.len(), 2);
    assert_eq!(arr[0]["id"].as_u64(), Some(3));
    assert_eq!(arr[0]["description"].as_str(), Some("say \"hi\"\nthen leave"));
    assert_eq!(arr[0]["done"].as_bool(), Some(true));
    assert_eq!(arr[1]["id"].as_u64(), Some(4));
    assert_eq!(arr[1]["description"].as_str(), Some("plain"));
    assert_eq!(arr[1]["done"].as_bool(), Some(false));
}

#[test]
fn serde_written_document_in_the_same_layout_loads() {
    let text =
        "[\n  {\n    \"id\": 2,\n    \"description\": \"from outside\",\n    \"done\": true\n  }\n]";
    let loaded = tasks_from_json(text);
    assert_eq!(loaded.len(), 1);
    assert_eq!(loaded[0].id, 2);
    assert_eq!(loaded[0].description, "from outside");
    assert!(loaded[0].done);
}
