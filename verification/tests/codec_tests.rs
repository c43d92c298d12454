use cc_sync_session::file_path_converter::claude_code_stype_to_file_path;
use cc_sync_session::file_path_converter::dir_path_to_claude_code_stype;
use cc_sync_session::file_path_converter::CodecError;

#[test]
fn test_file_path_to_claude_code_stype() {
    let result = dir_path_to_claude_code_stype("/path/to");
    assert_eq!(result.unwrap(), "-path-to");
}

#[test]
fn test_file_path_to_claude_code_stype_with_dot() {
    let result = dir_path_to_claude_code_stype("/path/to/github.com");
    assert_eq!(result.unwrap(), "-path-to-github-com");
}

#[test]
fn test_claude_code_stype_to_file_path() {
    let result = claude_code_stype_to_file_path("-path-to");
    assert!(result.contains(&"/path/to".to_string()));
}

#[test]
fn test_file_path_conversion_consistency() {
    let original_path = "/path/to/original";
    let cc_stype = dir_path_to_claude_code_stype(original_path).unwrap();
    let converted_paths = claude_code_stype_to_file_path(&cc_stype);
    assert!(converted_paths.contains(&original_path.to_string()));
}

#[test]
fn test_encode_rejects_relative_path() {
    let result = dir_path_to_claude_code_stype("relative/path");
    assert_eq!(result.unwrap_err(), CodecError::NotAbsolute);
}

#[test]
fn test_encode_rejects_trailing_extension() {
    let result = dir_path_to_claude_code_stype("/path/to/file.txt");
    assert_eq!(result.unwrap_err(), CodecError::TrailingExtension);
}

#[test]
fn test_encode_keeps_domain_suffixes() {
    assert_eq!(dir_path_to_claude_code_stype("/srv/app.io").unwrap(), "-srv-app-io");
    assert_eq!(dir_path_to_claude_code_stype("/srv/tool.dev").unwrap(), "-srv-tool-dev");
}

#[test]
fn test_encode_root() {
    assert_eq!(dir_path_to_claude_code_stype("/").unwrap(), "-");
}

#[test]
fn test_decode_without_leading_hyphen() {
    let result = claude_code_stype_to_file_path("path-to");
    assert_eq!(result, vec!["/path/to".to_string()]);
}

#[test]
fn test_decode_returns_single_candidate() {
    let result = claude_code_stype_to_file_path("-a-b-c");
    assert_eq!(result.len(), 1);
    assert_eq!(result[0], "/a/b/c");
}
