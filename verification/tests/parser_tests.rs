use staff_registry::parser::parse_input;
use staff_registry::parser::Command;
use staff_registry::registry::Company;
use staff_registry::registry::Listing;
use staff_registry::registry::Person;

fn person(name: &str, department: &str) -> Person {
    Person { name: name.to_string(), department: department.to_string() }
}

#[test]
fn add_round_trip() {
    let cmd = parse_input("add Jane Doe to Engineering".to_string());
    assert_eq!(cmd, Command::Add(person("Jane Doe", "Engineering")));
}

#[test]
fn remove_round_trip() {
    let cmd = parse_input("remove Jane Doe from Engineering".to_string());
    assert_eq!(cmd, Command::Remove(person("Jane Doe", "Engineering")));
}

#[test]
fn list_unknown_department_not_found() {
    let cmd = parse_input("list Engineering".to_string());
    assert_eq!(cmd, Command::List("Engineering".to_string()));
    let company = Company::new();
    assert_eq!(company.list(&"Engineering".to_string()), Listing::NotFound);
}

#[test]
fn add_alone_is_usage_error() {
    let cmd = parse_input("add".to_string());
    assert_eq!(cmd, Command::Error("No name provided".to_string()));
}

#[test]
fn unknown_command_is_invalid() {
    let cmd = parse_input("foo bar".to_string());
    assert_eq!(cmd, Command::Error("Invalid command".to_string()));
}

#[test]
fn empty_line_is_invalid() {
    assert_eq!(parse_input("".to_string()), Command::Error("Invalid command".to_string()));
    assert_eq!(parse_input("   \t  ".to_string()), Command::Error("Invalid command".to_string()));
}

#[test]
fn missing_keyword_is_usage_error() {
    let cmd = parse_input("add Jane Doe Engineering".to_string());
    assert_eq!(cmd, Command::Error("Usage: ADD <name> TO <department>".to_string()));
    let cmd = parse_input("remove Jane Doe Engineering".to_string());
    assert_eq!(cmd, Command::Error("Usage: REMOVE <name> FROM <department>".to_string()));
}

#[test]
fn missing_department_is_an_error() {
    let cmd = parse_input("add Jane to".to_string());
    assert_eq!(cmd, Command::Error("No department provided".to_string()));
}

#[test]
fn keyword_match_is_case_sensitive() {
    let cmd = parse_input("add Jane TO Engineering".to_string());
    assert_eq!(cmd, Command::Error("Usage: ADD <name> TO <department>".to_string()));
}

#[test]
fn command_word_ignores_ascii_case() {
    assert_eq!(
        parse_input("ADD Jane to Engineering".to_string()),
        Command::Add(person("Jane", "Engineering"))
    );
    assert_eq!(
        parse_input("ReMoVe Jane from Engineering".to_string()),
        Command::Remove(person("Jane", "Engineering"))
    );
    assert_eq!(parse_input("EXIT".to_string()), Command::Exit);
    assert_eq!(parse_input("LIST".to_string()), Command::List("all".to_string()));
}

#[test]
fn first_keyword_occurrence_wins() {
    let cmd = parse_input("add A to B to C".to_string());
    assert_eq!(cmd, Command::Add(person("A", "B to C")));
}

#[test]
fn whitespace_runs_collapse() {
    let cmd = parse_input("  add   Jane   Doe \t to \r\n  Core  Systems ".to_string());
    assert_eq!(cmd, Command::Add(person("Jane Doe", "Core Systems")));
}

#[test]
fn list_with_tokens_selects_department() {
    let cmd = parse_input("list Core Systems".to_string());
    assert_eq!(cmd, Command::List("Core Systems".to_string()));
}

#[test]
fn exit_parses() {
    assert_eq!(parse_input("exit".to_string()), Command::Exit);
}

#[test]
fn name_equal_to_keyword_cannot_round_trip() {
    // A person literally named "to" is a known limitation of the grammar:
    // the keyword scan finds the first "to" token at position 0.
    let cmd = parse_input("add to to Engineering".to_string());
    assert_eq!(cmd, Command::Error("Usage: ADD <name> TO <department>".to_string()));
}

#[test]
fn remove_missing_department_is_an_error() {
    let cmd = parse_input("remove Jane from".to_string());
    assert_eq!(cmd, Command::Error("No department provided".to_string()));
}

#[test]
fn department_may_contain_keyword() {
    let cmd = parse_input("add X to to".to_string());
    assert_eq!(cmd, Command::Add(person("X", "to")));
}

#[test]
fn keyword_inside_larger_word_does_not_match() {
    let cmd = parse_input("add Antonio to Tools".to_string());
    assert_eq!(cmd, Command::Add(person("Antonio", "Tools")));
}
