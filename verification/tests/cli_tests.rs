use mcp_server_conceal_core::cli::Args;
use mcp_server_conceal_core::config::ConcealError;

fn create_test_args() -> Args {
    Args {
        mode: "proxy".to_string(),
        target_command: Some("python".to_string()),
        target_args: None,
        target_env: vec![],
        target_cwd: None,
        log_level: "info".to_string(),
        config: None,
        keep_database: false,
    }
}

#[test]
fn test_parse_target_args_empty() {
    let args = create_test_args();
    assert_eq!(args.parse_target_args(), Vec::<String>::new());
}

#[test]
fn test_parse_target_args_simple() {
    let mut args = create_test_args();
    args.target_args = Some("server.py --port 3001".to_string());

    let expected = vec!["server.py".to_string(), "--port".to_string(), "3001".to_string()];
    assert_eq!(args.parse_target_args(), expected);
}

#[test]
fn test_parse_target_args_quoted() {
    let mut args = create_test_args();
    args.target_args = Some(r#"server.py --config "path with spaces/config.json""#.to_string());

    let expected = vec![
        "server.py".to_string(),
        "--config".to_string(),
        "path with spaces/config.json".to_string(),
    ];
    assert_eq!(args.parse_target_args(), expected);
}

#[test]
fn unbalanced_quotes_give_one_argument() {
    let mut args = create_test_args();
    args.target_args = Some(r#"server.py "unterminated"#.to_string());
    assert_eq!(args.parse_target_args(), vec![r#"server.py "unterminated"#.to_string()]);
}

#[test]
fn test_parse_target_env_valid() {
    let mut args = create_test_args();
    args.target_env = vec![
        "API_KEY=secret123".to_string(),
        "DATABASE_URL=postgresql://localhost/test".to_string(),
    ];

    let env_map = args.parse_target_env().unwrap();
    assert_eq!(env_map.get("API_KEY"), Some(&"secret123".to_string()));
    assert_eq!(env_map.get("DATABASE_URL"), Some(&"postgresql://localhost/test".to_string()));
}

#[test]
fn test_parse_target_env_invalid() {
    let mut args = create_test_args();
    args.target_env = vec!["INVALID_FORMAT".to_string()];

    assert!(args.parse_target_env().is_err());
}

#[test]
fn env_splits_at_first_equals_and_later_entries_win() {
    let mut args = create_test_args();
    args.target_env = vec![
        "A=1".to_string(),
        "B=x=y".to_string(),
        "A=2".to_string(),
        "EMPTY=".to_string(),
    ];
    let env = args.parse_target_env().unwrap();
    assert_eq!(env.len(), 3);
    assert_eq!(env.get("A"), Some(&"2".to_string()));
    assert_eq!(env.get("B"), Some(&"x=y".to_string()));
    assert_eq!(env.get("EMPTY"), Some(&"".to_string()));
}

#[test]
fn env_error_names_first_bad_entry() {
    let mut args = create_test_args();
    args.target_env = vec!["OK=1".to_string(), "BAD".to_string(), "WORSE".to_string()];
    assert_eq!(
        args.parse_target_env().err(),
        Some(ConcealError::InvalidEnvVar { value: "BAD".to_string() })
    );
}
