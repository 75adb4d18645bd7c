use rigra::config::{resolve_effective, FormatCfg, LineBreakCfg, RigletConfig};
use rigra::fingerprint::fingerprint;
use rigra::sync::{apply_sync, checksum_path, is_rule_enabled};
use rigra::utils::{build_naive_diff, icon_error, tag_error, tag_info, tag_warn};

#[test]
fn fingerprint_folds_and_lists_length() {
    // The empty text maps to the bare folding offset and length zero.
    assert_eq!(fingerprint(""), "cbf29ce484222325-0");
    // Different texts give different fingerprints here.
    assert_ne!(fingerprint("a"), fingerprint("b"));
    assert_eq!(fingerprint("abc"), fingerprint("abc"));
    assert!(fingerprint("abc").ends_with("-3"));
}

#[test]
fn rule_scopes_accept_lists_and_wildcards() {
    assert!(is_rule_enabled("repo|app", "repo"));
    assert!(is_rule_enabled("repo, lib", "lib"));
    assert!(!is_rule_enabled("lib", "repo"));
    assert!(is_rule_enabled("*", "anything"));
    assert!(is_rule_enabled("", "repo"));
    assert!(is_rule_enabled("ANY", "repo"));
    assert!(is_rule_enabled("All", "repo"));
    assert!(is_rule_enabled(" REPO ", "repo"));
}

#[test]
fn sync_dispatch_requires_json_and_merge_config() {
    assert!(apply_sync(&Some("json".to_string()), true));
    assert!(apply_sync(&Some("JSON".to_string()), true));
    assert!(!apply_sync(&Some("json".to_string()), false));
    assert!(!apply_sync(&Some("yaml".to_string()), true));
    assert!(!apply_sync(&None, true));
}

#[test]
fn checksum_paths_fold_directory_separators() {
    assert_eq!(
        checksum_path("/r", "out/repo.txt"),
        "/r/.rigra/sync/checksums/out__repo.txt.chk"
    );
}

#[test]
fn tags_and_icons_wrap_only_when_coloured() {
    assert_eq!(tag_error(false), "\u{27e6}error\u{27e7}");
    assert_eq!(
        tag_error(true),
        "\u{1b}[1m\u{1b}[31m\u{27e6}error\u{27e7}\u{1b}[39m\u{1b}[0m"
    );
    assert_eq!(
        tag_warn(true),
        "\u{1b}[1m\u{1b}[33m\u{27e6}warn\u{27e7}\u{1b}[39m\u{1b}[0m"
    );
    assert_eq!(
        tag_info(true),
        "\u{1b}[1m\u{1b}[34m\u{27e6}info\u{27e7}\u{1b}[39m\u{1b}[0m"
    );
    assert_eq!(icon_error(true), "\u{1b}[31m\u{2716}\u{1b}[39m");
    assert_eq!(icon_error(false), "\u{2716}");
}

#[test]
fn naive_diff_shows_new_then_old() {
    let d = build_naive_diff(Some("old text"), Some("new text")).unwrap();
    assert_eq!(d, "+++ new\nnew text\n--- old\nold text");
    assert!(build_naive_diff(None, Some("x")).is_none());
}

#[test]
fn effective_settings_prefer_cli_then_config_then_defaults() {
    let cfg = Some(RigletConfig {
        index: Some("conventions/acme/index.toml".to_string()),
        scope: Some("repo".to_string()),
        output: Some("json".to_string()),
        format: Some(FormatCfg {
            write: Some(true),
            diff: Some(false),
            check: Some(false),
            strict_linebreak: Some(true),
            linebreak: Some(LineBreakCfg {
                between_groups: Some(false),
                before_fields: vec![("license".to_string(), "keep".to_string())],
                in_fields: vec![("scripts".to_string(), "keep".to_string())],
            }),
        }),
        rules: Vec::new(),
    });
    // The command line's write=false beats the file's write=true.
    let eff = resolve_effective(".", &cfg, None, None, None, Some(false), None, None);
    assert!(!eff.write);
    assert_eq!(eff.index, "conventions/acme/index.toml");
    assert!(eff.index_configured);
    assert_eq!(eff.output, "json");
    assert_eq!(eff.lb_between_groups, Some(false));
    assert_eq!(eff.lb_before_fields[0], ("license".to_string(), "keep".to_string()));
    assert_eq!(eff.lb_in_fields[0], ("scripts".to_string(), "keep".to_string()));

    // Without any configuration the defaults apply.
    let eff2 = resolve_effective(".", &None, None, None, None, None, None, None);
    assert_eq!(eff2.scope, "repo");
    assert_eq!(eff2.output, "human");
    assert!(eff2.strict_linebreak);
    assert!(!eff2.index_configured);
    assert!(!eff2.write && !eff2.diff && !eff2.check);
}
