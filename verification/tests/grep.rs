use workpool::grep::search;
use workpool::grep::search_case_insensitive;
use workpool::grep::run_search;
use workpool::grep::Config;
use workpool::grep::ConfigError;

#[test]
fn search_sensitive() {
    let query = "duct";
    let contents = "\
Rust:
safe, fast, productive.
Pick three.
Duct tape.";

    assert_eq!(vec!["safe, fast, productive."], search(query, contents));
}

#[test]
fn search_insensitive() {
    let query = "rUsT";
    let contents = "\
Rust:
safe, fast, productive.
Pick three.
Trust me.";

    assert_eq!(
        vec!["Rust:", "Trust me."],
        search_case_insensitive(query, contents)
    );
}

#[test]
fn search_keeps_line_order_and_strips_cr() {
    let contents = "one ab\r\ntwo\nab three";
    assert_eq!(vec!["one ab", "ab three"], search("ab", contents));
}

#[test]
fn search_empty_query_matches_every_line() {
    let contents = "a\nb";
    assert_eq!(vec!["a", "b"], search("", contents));
}

#[test]
fn config_parses_arguments() {
    let args = vec!["query=duct".to_string(), "file=poem.txt".to_string()];
    let config = Config::build(&args, false).unwrap();
    assert_eq!("duct", config.query);
    assert_eq!("poem.txt", config.file_path);
    assert!(!config.ignore_case);
}

#[test]
fn config_ignore_case_key() {
    let args = vec![
        "ignore_case=1".to_string(),
        "file=poem.txt".to_string(),
        "query=duct".to_string(),
    ];
    let config = Config::build(&args, false).unwrap();
    assert!(config.ignore_case);
}

#[test]
fn config_env_flag_turns_case_off() {
    let args = vec!["query=duct".to_string(), "file=poem.txt".to_string()];
    let config = Config::build(&args, true).unwrap();
    assert!(config.ignore_case);
}

#[test]
fn config_rejects_malformed_argument() {
    let args = vec!["queryduct".to_string()];
    assert!(matches!(
        Config::build(&args, false),
        Err(ConfigError::InvalidArgument)
    ));
    let args = vec!["query=a=b".to_string()];
    assert!(matches!(
        Config::build(&args, false),
        Err(ConfigError::InvalidArgument)
    ));
    let args = vec!["colour=red".to_string()];
    assert!(matches!(
        Config::build(&args, false),
        Err(ConfigError::InvalidArgument)
    ));
}

#[test]
fn config_rejects_duplicate_argument() {
    let args = vec!["query=a".to_string(), "query=b".to_string()];
    assert!(matches!(
        Config::build(&args, false),
        Err(ConfigError::DuplicateArgument)
    ));
}

#[test]
fn config_requires_file_and_query() {
    let args = vec!["query=duct".to_string()];
    assert!(matches!(
        Config::build(&args, false),
        Err(ConfigError::MissingFilePath)
    ));
    let args = vec!["file=poem.txt".to_string()];
    assert!(matches!(
        Config::build(&args, false),
        Err(ConfigError::MissingQuery)
    ));
}

#[test]
fn run_search_follows_configuration() {
    let contents = "Rust:\nTrust me.";
    let args = vec!["query=rUsT".to_string(), "file=x".to_string()];
    let config = Config::build(&args, false).unwrap();
    assert!(run_search(&config, contents).is_empty());
    let config = Config::build(&args, true).unwrap();
    assert_eq!(vec!["Rust:", "Trust me."], run_search(&config, contents));
}
