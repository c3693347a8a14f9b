use workpool::company::parse_command;
use workpool::company::Command;
use workpool::company::Directory;

#[test]
fn parses_add_command() {
    match parse_command("Add Sally to Engineering") {
        Command::Add(name, dept) => {
            assert_eq!("Sally", name);
            assert_eq!("Engineering", dept);
        }
        _ => panic!("expected an add command"),
    }
}

#[test]
fn parses_list_command() {
    match parse_command("List Engineering") {
        Command::List(dept) => assert_eq!("Engineering", dept),
        _ => panic!("expected a list command"),
    }
}

#[test]
fn add_reads_names_greedily_and_ignores_the_tail() {
    match parse_command("Add Amir to Sales today") {
        Command::Add(name, dept) => {
            assert_eq!("Amir", name);
            assert_eq!("Sales", dept);
        }
        _ => panic!("expected an add command"),
    }
}

#[test]
fn rejects_malformed_commands() {
    assert!(matches!(parse_command("Add Sally to 5"), Command::Other));
    assert!(matches!(parse_command("Add  to Sales"), Command::Other));
    assert!(matches!(parse_command("Add Sally"), Command::Other));
    assert!(matches!(parse_command("List "), Command::Other));
    assert!(matches!(parse_command("quit"), Command::Other));
    assert!(matches!(parse_command(""), Command::Other));
}

#[test]
fn directory_keeps_members_sorted() {
    let mut directory = Directory::new();
    directory.add("Sally".to_string(), "Engineering");
    directory.add("Amir".to_string(), "Engineering");
    directory.add("Zoe".to_string(), "Engineering");
    let members = directory.list("Engineering").unwrap();
    assert_eq!(vec!["Amir", "Sally", "Zoe"], *members);
}

#[test]
fn directory_keys_departments_by_lowercase_name() {
    let mut directory = Directory::new();
    directory.add("Amir".to_string(), "Sales");
    let members = directory.list("SALES").unwrap();
    assert_eq!(vec!["Amir"], *members);
    assert!(directory.list("Engineering").is_none());
}
