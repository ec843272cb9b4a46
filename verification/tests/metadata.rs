use check_deprule::metadata::{host_of, CollectMetadataConfig};

#[test]
fn default_asks_for_all_features_of_all_targets() {
    let config = CollectMetadataConfig::default();
    assert!(!config.quiet);
    assert!(config.features.is_none());
    assert!(config.all_features);
    assert!(!config.no_default_features);
    assert!(config.all_targets);
    assert!(config.target.is_none());
    assert!(config.manifest_path.is_none());
    assert_eq!(config.verbose, 0);
    assert!(config.color.is_none());
    assert!(!config.frozen);
    assert!(!config.locked);
    assert!(!config.offline);
    assert!(config.unstable_flags.is_empty());
}

#[test]
fn default_arguments() {
    let config = CollectMetadataConfig::default();
    assert!(!config.needs_host());
    assert_eq!(
        config.arguments("x86_64-unknown-linux-gnu"),
        vec!["metadata", "--format-version", "1", "--all-features"]
    );
}

#[test]
fn manifest_path_is_passed_on() {
    let config = CollectMetadataConfig {
        manifest_path: Some("tests/demo_crates/clean-arch/Cargo.toml".to_string()),
        ..CollectMetadataConfig::default()
    };
    assert_eq!(
        config.arguments(""),
        vec![
            "metadata",
            "--format-version",
            "1",
            "--all-features",
            "--manifest-path",
            "tests/demo_crates/clean-arch/Cargo.toml"
        ]
    );
}

#[test]
fn every_setting_has_its_place() {
    let config = CollectMetadataConfig {
        quiet: true,
        features: Some("a,b".to_string()),
        all_features: false,
        no_default_features: true,
        all_targets: false,
        target: Some("wasm32-unknown-unknown".to_string()),
        manifest_path: Some("Cargo.toml".to_string()),
        verbose: 2,
        color: Some("never".to_string()),
        frozen: true,
        locked: true,
        offline: true,
        unstable_flags: vec!["one".to_string(), "two".to_string()],
    };
    assert!(!config.needs_host());
    assert_eq!(
        config.arguments("host-triple"),
        vec![
            "metadata",
            "--format-version",
            "1",
            "-q",
            "--features",
            "a,b",
            "--no-default-features",
            "--filter-platform",
            "wasm32-unknown-unknown",
            "--manifest-path",
            "Cargo.toml",
            "-v",
            "-v",
            "--color",
            "never",
            "--frozen",
            "--locked",
            "--offline",
            "-Z",
            "one",
            "-Z",
            "two"
        ]
    );
}

#[test]
fn host_is_named_where_no_target_is() {
    let config = CollectMetadataConfig {
        all_targets: false,
        all_features: false,
        ..CollectMetadataConfig::default()
    };
    assert!(config.needs_host());
    assert_eq!(
        config.arguments("aarch64-apple-darwin"),
        vec![
            "metadata",
            "--format-version",
            "1",
            "--filter-platform",
            "aarch64-apple-darwin"
        ]
    );
}

fn host_by_std(output: &str) -> Option<String> {
    for line in output.lines() {
        if let Some(stripped_line) = line.strip_prefix("host: ") {
            return Some(stripped_line.trim().to_string());
        }
    }
    None
}

#[test]
fn host_is_read_from_the_description_of_the_compiler() {
    let output = "rustc 1.80.0 (051478957 2024-07-21)\nbinary: rustc\ncommit-hash: 0514789\n\
                  host: x86_64-unknown-linux-gnu\nrelease: 1.80.0\nLLVM version: 18.1.7\n";
    assert_eq!(host_of(output), Some("x86_64-unknown-linux-gnu".to_string()));
}

#[test]
fn host_is_missing_where_no_line_names_it() {
    assert_eq!(host_of(""), None);
    assert_eq!(host_of("rustc 1.80.0\nbinary: rustc\n"), None);
    assert_eq!(host_of("host:x\n hosts: y\nhost"), None);
}

#[test]
fn host_agrees_with_line_by_line_reading() {
    let samples = [
        "host: a",
        "host: a\n",
        "host: \n",
        "host: ",
        "host:  spaced out \t\r\nnext",
        "x\r\nhost: win-triple\r\nrelease: 1\r\n",
        "xhost: a\nhost: b\nhost: c",
        " host: a\nhost: \u{a0}b\u{2003}",
        "host: a b  c ",
        "\n\nhost: late",
        "host: \rtail\r",
    ];
    for output in samples {
        assert_eq!(host_of(output), host_by_std(output));
    }
}
