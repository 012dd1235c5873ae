use hephae::manifest::{DepSpec, Dependency, Manifest};
use hephae::plugins::{plan_plugins, PluginFeatures, PluginItem, PluginKind, PluginListError, PluginSetup};

type Item = PluginItem<String, String>;

fn all_features() -> PluginFeatures {
    PluginFeatures { atlas: true, locale: true, text: true, ui: true }
}

fn manifest(keys: &[&str]) -> Manifest {
    Manifest {
        dependencies: Some(
            keys.iter()
                .map(|k| Dependency { key: k.to_string(), spec: DepSpec::Version })
                .collect(),
        ),
        dev_dependencies: None,
    }
}

fn named(name: &str) -> Item {
    PluginItem::Named { name: name.to_string(), arguments: None }
}

fn with_args(name: &str, a: &str, b: &str) -> Item {
    PluginItem::Named { name: name.to_string(), arguments: Some(Ok((a.to_string(), b.to_string()))) }
}

fn rest() -> Item {
    PluginItem::Rest { trailing: false }
}

fn summary(v: &[PluginSetup<String>]) -> Vec<(PluginKind, String, Option<(String, String)>)> {
    v.iter().map(|p| (p.kind, p.path.clone(), p.arguments.clone())).collect()
}

#[test]
fn rest_adds_every_plugin_in_order() {
    let m = manifest(&["hephae"]);
    let out = plan_plugins(&m, all_features(), vec![named("ui"), rest()]).unwrap();
    assert_eq!(
        summary(&out),
        vec![
            (PluginKind::Render, "hephae::render".to_string(), None),
            (PluginKind::Atlas, "hephae::atlas".to_string(), None),
            (PluginKind::Locale, "hephae::locale".to_string(), None),
            (PluginKind::Text, "hephae::text".to_string(), None),
            (PluginKind::Ui, "hephae::ui".to_string(), None),
        ]
    );
}

#[test]
fn type_arguments_are_kept() {
    let m = manifest(&["hephae-locale", "hephae_render"]);
    let out = plan_plugins(
        &m,
        all_features(),
        vec![with_args("locale", "Args", "Targets"), named("render")],
    )
    .unwrap();
    assert_eq!(
        summary(&out),
        vec![
            (PluginKind::Render, "hephae_render".to_string(), None),
            (
                PluginKind::Locale,
                "hephae_locale".to_string(),
                Some(("Args".to_string(), "Targets".to_string()))
            ),
        ]
    );
}

#[test]
fn rest_skips_disabled_and_missing_plugins() {
    let m = manifest(&["hephae_render", "hephae_text", "hephae_atlas"]);
    let features = PluginFeatures { atlas: false, locale: true, text: true, ui: true };
    let out = plan_plugins(&m, features, vec![rest()]).unwrap();
    assert_eq!(
        summary(&out),
        vec![
            (PluginKind::Render, "hephae_render".to_string(), None),
            (PluginKind::Text, "hephae_text".to_string(), None),
        ]
    );
}

#[test]
fn list_errors() {
    let m = manifest(&["hephae"]);
    let f = all_features();
    let err = |items: Vec<Item>| plan_plugins(&m, f, items).err().unwrap();

    assert_eq!(err(vec![]), PluginListError::Empty);
    assert_eq!(err(vec![with_args("atlas", "A", "B")]), PluginListError::NoTypeArguments(PluginKind::Atlas));
    assert_eq!(err(vec![with_args("text", "A", "B")]), PluginListError::NoTypeArguments(PluginKind::Text));
    assert_eq!(err(vec![named("render"), named("render")]), PluginListError::DefinedTwice(PluginKind::Render));
    assert_eq!(err(vec![named("sprites")]), PluginListError::Unknown("sprites".to_string()));
    assert_eq!(err(vec![named("ui"), PluginItem::Rest { trailing: true }]), PluginListError::TokensAfterRest);
    assert_eq!(err(vec![named("ui"), PluginItem::Invalid("expected `,`".to_string())]), PluginListError::Syntax("expected `,`".to_string()));
    assert_eq!(
        err(vec![PluginItem::Named { name: "render".to_string(), arguments: Some(Err("bad type".to_string())) }]),
        PluginListError::Syntax("bad type".to_string())
    );

    let disabled = PluginFeatures { atlas: true, locale: true, text: false, ui: true };
    assert_eq!(
        plan_plugins(&m, disabled, vec![named("text")]).err().unwrap(),
        PluginListError::Unsupported(PluginKind::Text)
    );

    let none = manifest(&["bevy"]);
    assert_eq!(
        plan_plugins(&none, f, vec![named("atlas")]).err().unwrap(),
        PluginListError::MissingDependency(PluginKind::Atlas)
    );
    assert_eq!(plan_plugins(&none, f, vec![rest()]).err().unwrap(), PluginListError::Empty);
}

#[test]
fn first_error_wins() {
    let m = manifest(&["hephae"]);
    let items = vec![named("render"), named("sprites"), named("render")];
    assert_eq!(
        plan_plugins(&m, all_features(), items).err().unwrap(),
        PluginListError::Unknown("sprites".to_string())
    );
}

#[test]
fn plugin_names() {
    assert_eq!(PluginKind::Render.name(), "render");
    assert_eq!(PluginKind::Render.plugin_type(), "RendererPlugin");
    assert_eq!(PluginKind::Ui.plugin_type(), "UiPlugin");
    assert!(!PluginKind::Atlas.takes_arguments());
    assert!(PluginKind::Locale.takes_arguments());
}

#[test]
fn unparsable_crate_paths() {
    let m = Manifest {
        dependencies: Some(vec![
            Dependency { key: "hephae".to_string(), spec: DepSpec::Table { package: Some("my-hephae".to_string()) } },
            Dependency { key: "hephae_render".to_string(), spec: DepSpec::Version },
        ]),
        dev_dependencies: None,
    };
    assert_eq!(
        plan_plugins(&m, all_features(), vec![named("atlas")]).err().unwrap(),
        PluginListError::InvalidPath(PluginKind::Atlas)
    );
    let out = plan_plugins(&m, all_features(), vec![rest()]).unwrap();
    assert_eq!(summary(&out), vec![(PluginKind::Render, "hephae_render".to_string(), None)]);
}
