use rigra::conv::{parse_conv_ref, parse_source, resolve_path, cache_root, cache_key, ConvRef,
    Source};

#[test]
fn test_parse_conv_ref_with_and_without_subpath() {
    let a = parse_conv_ref("conv:hyper@v1.2.3").unwrap();
    assert_eq!(a.name, "hyper");
    assert_eq!(a.ver, "v1.2.3");
    assert_eq!(a.subpath, "index.toml");

    let b = parse_conv_ref("conv:hyper@v1.2.3:foo/bar.toml").unwrap();
    assert_eq!(b.subpath, "foo/bar.toml");
}

#[test]
fn test_parse_source_gh_and_file() {
    match parse_source("gh:org/repo@v0.1.0").unwrap() {
        Source::Gh { owner, repo, tag } => {
            assert_eq!(owner, "org");
            assert_eq!(repo, "repo");
            assert_eq!(tag, "v0.1.0");
        }
        _ => panic!("expected gh source"),
    }
    match parse_source("file:/tmp/a.tar.gz").unwrap() {
        Source::File { path } => assert_eq!(path, "/tmp/a.tar.gz"),
        _ => panic!("expected file source"),
    }
}

#[test]
fn test_parse_conv_ref_scoped_name_and_cache_key() {
    let cr = parse_conv_ref("conv:@nazahex/conv-lib-ts-mono@v0.1.0").unwrap();
    assert_eq!(cr.name, "@nazahex/conv-lib-ts-mono");
    assert_eq!(cr.ver, "v0.1.0");
    let p = resolve_path("/tmp", &cr);
    assert!(p.contains("@nazahex__conv-lib-ts-mono@v0.1.0"));
}

#[test]
fn conv_ref_without_version_is_rejected() {
    assert!(parse_conv_ref("conv:hyper").is_none());
    assert!(parse_conv_ref("plain").is_none());
}

#[test]
fn source_without_marker_is_rejected() {
    assert!(parse_source("http:whatever").is_none());
    assert!(parse_source("gh:orgrepo").is_none());
}

#[test]
fn cache_layout_is_fixed() {
    assert_eq!(cache_root("/repo"), "/repo/.rigra/conv");
    assert_eq!(cache_key("a/b", "v1"), "a__b@v1");
    let cr = ConvRef {
        name: "hx".to_string(),
        ver: "v0".to_string(),
        subpath: "index.toml".to_string(),
    };
    assert_eq!(resolve_path("/r", &cr), "/r/.rigra/conv/hx@v0/index.toml");
}
