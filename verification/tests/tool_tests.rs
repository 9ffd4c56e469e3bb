use oa_coder::server::McpServerConfig;
use oa_coder::tools::bash::default_timeout;
use oa_coder::tools::glob;
use oa_coder::tools::grep;
use oa_coder::tools::read::{default_limit, default_offset};
use oa_coder::tools::{validate_dir_path, validate_path, PathError, ToolRouter};

#[test]
fn test_validate_path_relative() {
    let r = validate_path("/ws", "src/main.rs");
    assert_eq!(r, Ok("/ws/src/main.rs".to_owned()));
}

#[test]
fn test_validate_path_absolute_inside() {
    let r = validate_path("/ws", "/ws/sub/file.txt");
    assert_eq!(r, Ok("/ws/sub/file.txt".to_owned()));
}

#[test]
fn test_validate_path_normalizes_dots() {
    let r = validate_path("/ws", "a/./b/../c");
    assert_eq!(r, Ok("/ws/a/c".to_owned()));
}

#[test]
fn test_validate_path_null_byte() {
    let r = validate_path("/ws", "file\0name");
    assert_eq!(r, Err(PathError::ContainsNull));
}

#[test]
fn test_validate_path_escape() {
    let r = validate_path("/ws", "../etc/passwd");
    assert_eq!(r, Err(PathError::EscapesWorkspace));
    let r2 = validate_path("/ws", "/etc/passwd");
    assert_eq!(r2, Err(PathError::EscapesWorkspace));
}

#[test]
fn test_validate_dir_path_same_rules() {
    assert_eq!(validate_dir_path("/ws", "sub"), Ok("/ws/sub".to_owned()));
    assert_eq!(validate_dir_path("/ws", ".."), Err(PathError::EscapesWorkspace));
}

#[test]
fn test_tool_router_new() {
    let router = ToolRouter::new("/tmp".to_owned(), true);
    assert_eq!(router.workspace, "/tmp");
    assert!(router.sandboxed);
}

#[test]
fn test_defaults() {
    assert_eq!(default_timeout(), 120);
    assert_eq!(default_offset(), 1);
    assert_eq!(default_limit(), 2000);
    assert_eq!(grep::default_max_results(), 100);
    assert_eq!(glob::default_max_results(), 500);
}

#[test]
fn test_server_config_default() {
    let config = McpServerConfig::default();
    assert_eq!(config.workspace, ".");
    assert!(!config.sandboxed);
}
