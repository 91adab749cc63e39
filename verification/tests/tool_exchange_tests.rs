use backend::tool_exchange::{ExchangeError, check_calls, contains_write, digest_call, limited};

#[test]
fn calls_must_match_results() {
    assert_eq!(check_calls(2, 2), Ok(()));
    assert_eq!(check_calls(0, 0), Err(ExchangeError::Incomplete));
    assert_eq!(check_calls(2, 1), Err(ExchangeError::Incomplete));
    assert_eq!(ExchangeError::Incomplete.message(), "Tour d'outils incomplet");
}

#[test]
fn limited_cuts_characters() {
    assert_eq!(limited(Some("héllo"), 2), Some("hé".to_string()));
    assert_eq!(limited(None, 2), None);
}

#[test]
fn digest_keeps_compact_facts() {
    let long = "p".repeat(200);
    let matches: Vec<Option<String>> = (0..6).map(|i| if i == 1 { None } else { Some(format!("m{i}")) }).collect();
    let files: Vec<Option<String>> = vec![Some("a".into()), None, Some(long.clone()), Some("c".into()), Some("d".into()), Some("e".into())];
    let d = digest_call("project.replace_text", Some(true), None, Some(&long), Some("oops"), &matches, &files);
    assert!(d.write);
    assert!(d.ok);
    assert_eq!(d.path.as_ref().unwrap().len(), 160);
    assert_eq!(d.error, Some("oops".to_string()));
    assert_eq!(d.sample_paths, vec![Some("m0".to_string()), None, Some("m2".to_string()), Some("m3".to_string())]);
    assert_eq!(d.sample_files, vec!["a".to_string(), "p".repeat(160), "c".to_string(), "d".to_string()]);
    let read = digest_call("project.read_file", Some(false), Some("src/x.rs"), Some("ignored"), None, &vec![], &vec![]);
    assert!(!read.write);
    assert!(!read.ok);
    assert_eq!(read.path, Some("src/x.rs".to_string()));
    assert!(contains_write(&vec![read, d]));
}
