use cassettedb::repl::{parse_command, split_collection_rest, split_three, CassetteHelper, ReplCommand};

#[test]
fn lines_read_as_commands() {
    assert!(matches!(parse_command("   "), ReplCommand::Empty));
    assert!(matches!(parse_command("QUIT"), ReplCommand::Quit));
    assert!(matches!(parse_command("exit"), ReplCommand::Quit));
    assert!(matches!(parse_command("help"), ReplCommand::Help));
    assert!(matches!(parse_command("insert users {\"a\": 1}"), ReplCommand::Insert { collection, json } if collection == "users" && json == "{\"a\": 1}"));
    assert!(matches!(parse_command("query users name = Bob"), ReplCommand::Query { collection, filter } if collection == "users" && filter == "name = Bob"));
    assert!(matches!(parse_command("scan  users "), ReplCommand::Scan { collection } if collection == "users"));
    assert!(matches!(parse_command("update users 1 {}"), ReplCommand::Update { collection, id, json } if collection == "users" && id == "1" && json == "{}"));
    assert!(matches!(parse_command("get users"), ReplCommand::Get { collection, id } if collection == "users" && id.is_empty()));
    assert!(matches!(parse_command("Frobnicate x"), ReplCommand::Unknown(w) if w == "frobnicate"));
}

#[test]
fn commands_without_their_arguments_give_usage() {
    assert!(matches!(parse_command("insert"), ReplCommand::Invalid { action, usage } if action == "insert" && usage == "usage: insert <collection> <json>"));
    assert!(matches!(parse_command("scan"), ReplCommand::Invalid { usage, .. } if usage == "usage: scan <collection>"));
    assert!(matches!(parse_command("update users 1"), ReplCommand::Invalid { usage, .. } if usage == "usage: update <collection> <id> <json>"));
    assert!(matches!(parse_command("delete"), ReplCommand::Invalid { action, .. } if action == "delete"));
}

#[test]
fn argument_splitting() {
    assert_eq!(split_collection_rest("users rest of it"), Some(("users".to_string(), "rest of it".to_string())));
    assert_eq!(split_collection_rest("users"), Some(("users".to_string(), String::new())));
    assert_eq!(split_collection_rest(""), None);
    assert_eq!(split_collection_rest(" x"), None);
    assert_eq!(split_three("a b c d"), Some(("a".to_string(), "b".to_string(), "c d".to_string())));
    assert_eq!(split_three("a b"), None);
    assert_eq!(split_three("a  c"), None);
}

#[test]
fn completion_offers_matching_commands_in_order() {
    let h = CassetteHelper;
    assert_eq!(h.complete("s", 1), (0, vec!["save".to_string(), "scan".to_string(), "search".to_string()]));
    assert_eq!(h.complete("get co", 6), (4, vec!["collections".to_string(), "compact".to_string()]));
    assert_eq!(h.complete("get zz", 6), (4, vec![]));
    assert_eq!(h.complete("x c", 3), (2, vec!["collections".to_string(), "compact".to_string()]));
    assert_eq!(h.complete("", 0).1.len(), 15);
    assert_eq!(h.complete("q", 1), (0, vec!["query".to_string(), "quit".to_string()]));
}
