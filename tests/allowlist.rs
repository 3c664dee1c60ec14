use sukkiri::allowlist::Allowlist;

#[test]
fn test_is_allowed() {
    let allowlist = Allowlist::new(vec![
        "/Users/test/Secret".to_string(),
        "/Users/test/Projects/Keep".to_string(),
    ]);

    assert!(allowlist.is_allowed("/Users/test/Secret"));
    assert!(allowlist.is_allowed("/Users/test/Secret/file.txt"));
    assert!(allowlist.is_allowed("/Users/test/Projects/Keep"));

    assert!(!allowlist.is_allowed("/Users/test/Projects/DeleteMe"));
    assert!(!allowlist.is_allowed("/Users/test/Public"));
}

#[test]
fn prefix_match_ignores_component_boundaries() {
    let allowlist = Allowlist::new(vec!["/Users/x/Keep".to_string()]);
    assert!(allowlist.is_allowed("/Users/x/KeepExtra"));
    assert!(!allowlist.is_allowed("/Users/x/Kee"));
}

#[test]
fn empty_allowlist_protects_nothing() {
    let allowlist = Allowlist::new(vec![]);
    assert!(!allowlist.is_allowed("/"));
    assert!(!allowlist.is_allowed(""));
}

#[test]
fn config_text_skips_blank_lines_and_comments() {
    let text = "# protected paths\n\n  /Users/me/Keep  \n\t\n#/Users/me/Old\n/Volumes/Data\r\n";
    let allowlist = Allowlist::from_config_text(text);
    assert!(allowlist.is_allowed("/Users/me/Keep"));
    assert!(allowlist.is_allowed("/Users/me/Keep/a.txt"));
    assert!(allowlist.is_allowed("/Volumes/Data"));
    assert!(!allowlist.is_allowed("/Users/me/Old"));
    assert!(!allowlist.is_allowed("/Users/me"));
}

#[test]
fn config_text_without_rules_is_empty() {
    let allowlist = Allowlist::from_config_text("\n# nothing\n   \n");
    assert!(!allowlist.is_allowed("# nothing"));
    assert!(!allowlist.is_allowed("/anything"));
}
