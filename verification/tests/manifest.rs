use hephae::manifest::{DepSpec, Dependency, Manifest};

fn dep(key: &str, spec: DepSpec) -> Dependency {
    Dependency { key: String::from(key), spec }
}

#[test]
fn sub_crate_dependency() {
    let m = Manifest {
        dependencies: Some(vec![dep("bevy_render", DepSpec::Version), dep("bevy", DepSpec::Version)]),
        dev_dependencies: None,
    };
    assert_eq!(m.resolve("bevy", "render").as_deref(), Some("bevy_render"));
    assert_eq!(m.resolve("bevy", "ecs").as_deref(), Some("bevy::ecs"));
}

#[test]
fn hyphenated_and_renamed() {
    let m = Manifest {
        dependencies: Some(vec![
            dep("hephae-atlas", DepSpec::Table { package: None }),
            dep("hephae", DepSpec::Table { package: Some(String::from("my_hephae")) }),
        ]),
        dev_dependencies: None,
    };
    assert_eq!(m.resolve("hephae", "atlas").as_deref(), Some("hephae_atlas"));
    assert_eq!(m.resolve("hephae", "text").as_deref(), Some("my_hephae::text"));
}

#[test]
fn dev_dependencies_are_searched_last() {
    let m = Manifest {
        dependencies: Some(vec![dep("serde", DepSpec::Version)]),
        dev_dependencies: Some(vec![dep("bevy", DepSpec::Version)]),
    };
    assert_eq!(m.resolve("bevy", "math").as_deref(), Some("bevy::math"));
    let none = Manifest { dependencies: None, dev_dependencies: None };
    assert_eq!(none.resolve("bevy", "math"), None);
    assert_eq!(m.resolve("other", "x"), None);
}

#[test]
fn manifest_read_from_text() {
    let text = "[package]\nname = \"x\"\n\n[dependencies]\nbevy = \"0.16\"\nhephae-atlas = { version = \"1\" }\n\n[dev-dependencies]\nhephae = { package = \"my_hephae\", path = \"..\" }\n";
    let m = hephae::manifest::manifest_from_text(text).unwrap();
    assert_eq!(
        m.dependencies,
        Some(vec![dep("bevy", DepSpec::Version), dep("hephae-atlas", DepSpec::Table { package: None })])
    );
    assert_eq!(m.dev_dependencies, Some(vec![dep("hephae", DepSpec::Table { package: Some(String::from("my_hephae")) })]));
    assert_eq!(m.resolve("hephae", "atlas").as_deref(), Some("hephae_atlas"));
    assert_eq!(m.resolve("hephae", "text").as_deref(), Some("my_hephae::text"));

    let bare = hephae::manifest::manifest_from_text("[package]\nname = \"x\"\n").unwrap();
    assert_eq!(bare.dependencies, None);
    assert!(hephae::manifest::manifest_from_text("[dependencies\n").is_none());
}
