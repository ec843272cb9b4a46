use cargo_metadata::camino::Utf8Path;
use check_deprule::dependency_graph::formatter::parse::{scan, ParseError, RawChunk};
use check_deprule::dependency_graph::formatter::{Chunk, FormatError, Pattern};
use check_deprule::package::{Package, PackageId};
use colored::Colorize;

const CRATES_IO: &str = "registry+https://github.com/rust-lang/crates.io-index";

fn local_package(name: &str, version: &str, id: &str, manifest_path: &str) -> Package {
    let manifest_dir = Utf8Path::new(manifest_path).parent().unwrap().as_str();
    Package::new(
        name,
        version,
        PackageId {
            repr: id.to_string(),
        },
        manifest_dir,
    )
}

fn registry_package(source: &str) -> Package {
    Package {
        name: "serde".to_string(),
        version: "1.0.200".to_string(),
        id: PackageId {
            repr: "serde 1.0.200".to_string(),
        },
        source: Some(source.to_string()),
        license: Some("MIT OR Apache-2.0".to_string()),
        repository: Some("https://github.com/serde-rs/serde".to_string()),
        manifest_dir: "/registry/serde-1.0.200".to_string(),
    }
}

fn chunk_names(pattern: &Pattern) -> Vec<String> {
    pattern
        .0
        .iter()
        .map(|chunk| match chunk {
            Chunk::Raw(text) => format!("raw:{}", text),
            Chunk::Package => "package".to_string(),
            Chunk::ViolationPackage => "violation".to_string(),
            Chunk::License => "license".to_string(),
            Chunk::Repository => "repository".to_string(),
        })
        .collect()
}

#[test]
fn test_chunk_violation_format() {
    let pattern = Pattern(vec![Chunk::ViolationPackage]);
    let package = local_package("package", "1.0.0", "pa", "/hoge");
    let violation_package_display = pattern.display(&package);
    let expected = format!("{} {}", "package v1.0.0".red(), "(/)");

    let actual = violation_package_display.to_string();
    assert_eq!(expected, actual);
}

#[test]
fn package_template_compiles_to_one_package_chunk() {
    let pattern = Pattern::new("{p}").unwrap();
    assert_eq!(chunk_names(&pattern), vec!["package"]);
}

#[test]
fn all_supported_placeholders_compile() {
    let pattern = Pattern::new("{p} [{l}] <{r}>").unwrap();
    assert_eq!(
        chunk_names(&pattern),
        vec!["package", "raw: [", "license", "raw:] <", "repository", "raw:>"]
    );
}

#[test]
fn text_without_braces_is_one_raw_chunk() {
    let pattern = Pattern::new("just text").unwrap();
    assert_eq!(chunk_names(&pattern), vec!["raw:just text"]);
}

#[test]
fn empty_template_has_no_chunks() {
    let pattern = Pattern::new("").unwrap();
    assert!(pattern.0.is_empty());
    assert_eq!(pattern.render_with(&registry_package(CRATES_IO), "x"), "");
}

#[test]
fn doubled_braces_stand_for_braces() {
    let pattern = Pattern::new("{{p}}").unwrap();
    assert_eq!(chunk_names(&pattern), vec!["raw:{", "raw:p", "raw:}"]);
    assert_eq!(pattern.render_with(&registry_package(CRATES_IO), "x"), "{p}");
}

#[test]
fn unknown_placeholder_is_unsupported() {
    match Pattern::new("{p} {x}") {
        Err(FormatError::UnsupportedPlaceholder(name)) => assert_eq!(name, "x"),
        other => panic!("unexpected: {:?}", other),
    }
}

#[test]
fn long_placeholder_name_is_reported_whole() {
    match Pattern::new("{foo1}") {
        Err(FormatError::UnsupportedPlaceholder(name)) => assert_eq!(name, "foo1"),
        other => panic!("unexpected: {:?}", other),
    }
}

#[test]
fn empty_placeholder_is_unsupported() {
    match Pattern::new("{}") {
        Err(FormatError::UnsupportedPlaceholder(name)) => assert_eq!(name, ""),
        other => panic!("unexpected: {:?}", other),
    }
}

#[test]
fn unterminated_brace_is_malformed() {
    assert!(matches!(
        Pattern::new("{p"),
        Err(FormatError::MalformedTemplate(_))
    ));
    assert!(matches!(
        Pattern::new("text {"),
        Err(FormatError::MalformedTemplate(_))
    ));
    assert!(matches!(
        Pattern::new("{1}"),
        Err(FormatError::MalformedTemplate(_))
    ));
}

#[test]
fn stray_closing_brace_is_malformed() {
    assert!(matches!(
        Pattern::new("p}"),
        Err(FormatError::MalformedTemplate(_))
    ));
}

#[test]
fn first_error_wins() {
    match Pattern::new("{x}{") {
        Err(FormatError::UnsupportedPlaceholder(name)) => assert_eq!(name, "x"),
        other => panic!("unexpected: {:?}", other),
    }
    assert!(matches!(
        Pattern::new("}{x}"),
        Err(FormatError::MalformedTemplate(_))
    ));
}

#[test]
fn scan_cuts_a_template_into_its_pieces() {
    let raw = scan("a{p}{{}}{é9}{");
    let shown: Vec<String> = raw
        .iter()
        .map(|chunk| match chunk {
            RawChunk::Text(text) => format!("text:{}", text),
            RawChunk::Argument(name) => format!("argument:{}", name),
            RawChunk::Error(ParseError::MissingClose) => "missing".to_string(),
            RawChunk::Error(ParseError::StrayClose) => "stray".to_string(),
        })
        .collect();
    assert_eq!(
        shown,
        vec![
            "text:a",
            "argument:p",
            "text:{",
            "text:}",
            "argument:é9",
            "missing"
        ]
    );
}

#[test]
fn scan_goes_on_behind_a_stray_brace() {
    let raw = scan("}x");
    assert_eq!(raw.len(), 2);
    assert!(matches!(raw[0], RawChunk::Error(ParseError::StrayClose)));
    assert!(matches!(&raw[1], RawChunk::Text(text) if text == "x"));
}

#[test]
fn package_from_the_default_registry_has_no_suffix() {
    let pattern = Pattern::new("{p}").unwrap();
    let package = registry_package(CRATES_IO);
    assert_eq!(pattern.display(&package).to_string(), "serde v1.0.200");
}

#[test]
fn package_from_another_source_names_it() {
    let pattern = Pattern::new("{p}").unwrap();
    let package = registry_package("git+https://example.com/serde");
    assert_eq!(
        pattern.display(&package).to_string(),
        "serde v1.0.200 (git+https://example.com/serde)"
    );
}

#[test]
fn local_package_names_its_manifest_directory() {
    let pattern = Pattern::new("{p}").unwrap();
    let package = local_package("app", "0.1.0", "app 0.1.0", "/work/app/Cargo.toml");
    assert_eq!(pattern.display(&package).to_string(), "app v0.1.0 (/work/app)");
}

#[test]
fn license_and_repository_are_shown_where_present() {
    let pattern = Pattern::new("{l}|{r}").unwrap();
    assert_eq!(
        pattern.display(&registry_package(CRATES_IO)).to_string(),
        "MIT OR Apache-2.0|https://github.com/serde-rs/serde"
    );
    let bare = local_package("app", "0.1.0", "app 0.1.0", "/work/app/Cargo.toml");
    assert_eq!(pattern.display(&bare).to_string(), "|");
}

#[test]
fn render_with_puts_the_marked_label_in_violation_chunks_only() {
    let package = local_package("app", "0.1.0", "app 0.1.0", "/work/app/Cargo.toml");
    let pattern = Pattern(vec![
        Chunk::ViolationPackage,
        Chunk::Raw(" / ".to_string()),
        Chunk::Package,
    ]);
    assert_eq!(
        pattern.render_with(&package, "<<app>>"),
        "<<app>> (/work/app) / app v0.1.0 (/work/app)"
    );
    assert!(pattern.marks_violation());
    assert!(!Pattern::new("{p}{l}").unwrap().marks_violation());
}

#[test]
fn rendering_is_repeatable() {
    let pattern = Pattern::new("{p} {l} {r}").unwrap();
    let package = registry_package("git+https://example.com/serde");
    let first = pattern.display(&package).to_string();
    let second = pattern.display(&package).to_string();
    assert_eq!(first, second);
}

#[test]
fn errors_say_what_is_wrong() {
    assert_eq!(
        Pattern::new("{x}").unwrap_err().message(),
        "unsupported pattern `x`"
    );
    assert_eq!(Pattern::new("{p").unwrap_err().message(), "expected '}'");
    assert_eq!(Pattern::new("}").unwrap_err().message(), "unexpected '}'");
    assert!(matches!(
        Pattern::new("{"),
        Err(FormatError::MalformedTemplate(ParseError::MissingClose))
    ));
    assert!(matches!(
        Pattern::new("a}b"),
        Err(FormatError::MalformedTemplate(ParseError::StrayClose))
    ));
}
