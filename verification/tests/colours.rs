use check_deprule::dependency_graph::formatter::{Chunk, Pattern};
use check_deprule::package::{Package, PackageId};

fn package() -> Package {
    Package::new(
        "package",
        "1.0.0",
        PackageId {
            repr: "pa".to_string(),
        },
        "/",
    )
}

#[test]
fn violation_is_red_exactly_where_colours_are_in_use() {
    let pattern = Pattern(vec![Chunk::ViolationPackage]);

    colored::control::set_override(true);
    assert_eq!(
        pattern.display(&package()).to_string(),
        "\u{1b}[31mpackage v1.0.0\u{1b}[0m (/)"
    );

    colored::control::set_override(false);
    assert_eq!(pattern.display(&package()).to_string(), "package v1.0.0 (/)");
}
