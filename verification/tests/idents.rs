use asset_ident::ident::{AssetIdent, AssetIdentInner, ModulePart};
use asset_ident::layer::{Layer, LayerRegistration, LayerRegistry};
use asset_ident::output_name::HashValue;
use asset_ident::path::FileSystemPath;

fn path(path: &str) -> FileSystemPath {
    FileSystemPath { fs: 1, path: path.to_string(), text: format!("[project]/{path}") }
}

fn ident(at: &str) -> AssetIdent {
    AssetIdent::from_path(path(at))
}

fn layers() -> LayerRegistry {
    match LayerRegistry::collect(vec![LayerRegistration { name: "client", user_friendly_name: None }]) {
        Ok(layers) => layers,
        Err(error) => panic!("{error:?}"),
    }
}

fn named(text: &str) -> ModulePart {
    ModulePart::Named(text.to_string())
}

fn texts(list: &[&str]) -> Vec<String> {
    list.iter().map(|text| text.to_string()).collect()
}

#[test]
fn a_fresh_ident_is_its_path() {
    let a = ident("src/a.js");
    assert_eq!(a.query, "");
    assert_eq!(a.fragment, "");
    assert_eq!(a.assets, "");
    assert_eq!(a.modifiers, "");
    assert_eq!(a.parts, "");
    assert!(a.layer.is_none());
    assert!(a.content_type.is_none());
    assert_eq!(a.value_to_string(&layers()), "[project]/src/a.js");
    assert!(a.path() == path("src/a.js"));
}

#[test]
fn an_ident_is_written_out_with_all_its_fields() {
    let layers = layers();
    let mut a = ident("a.js");
    a.set_query("?q".to_string());
    a.set_fragment("#f".to_string());
    let added: Result<(), String> = a.add_asset("k", Ok(&ident("b.js")), &layers);
    assert_eq!(added, Ok(()));
    a.set_layer(Layer::new(&layers, "client"));
    a.add_modifiers(texts(&["m1", "m2"]));
    a.set_content_type("text/css".to_string());
    a.add_part(named("export x"));
    assert_eq!(
        a.value_to_string(&layers),
        "[project]/a.js?q#f { k => [project]/b.js } [client] (m1, m2) <text/css>export x"
    );
}

#[test]
fn modifiers_are_separated_by_commas() {
    let mut a = ident("a.js");
    a.add_modifier("one".to_string());
    assert_eq!(a.modifiers, "one");
    a.add_modifier("two".to_string());
    assert_eq!(a.modifiers, "one, two");
    a.add_modifiers(texts(&[]));
    assert_eq!(a.modifiers, "one, two");
    a.add_modifiers(texts(&["three", "fo ur"]));
    assert_eq!(a.modifiers, "one, two, three, fo ur");
}

#[test]
fn modifiers_are_added_behind_any_list() {
    let mut a = AssetIdent::from_inner(AssetIdentInner {
        path: path("a.js"),
        query: "q".to_string(),
        fragment: String::new(),
        assets: String::new(),
        modifiers: ", a,".to_string(),
        parts: String::new(),
        layer: None,
        content_type: None,
    });
    a.add_modifier("css".to_string());
    a.add_modifier("b".to_string());
    assert_eq!(a.modifiers, ", a,, css, b");
    let hashed: Vec<String> = a
        .hash_fields(".css")
        .into_iter()
        .map(|field| match field.value {
            HashValue::Text(text) => text,
            HashValue::Layer(_) => panic!("the ident has no layer"),
        })
        .collect();
    assert_eq!(hashed, texts(&["q", "", "a,", "b"]));
}

#[test]
fn lists_grow_in_steps_as_at_once() {
    let mut steps = ident("a.js");
    steps.add_modifiers(texts(&["x"]));
    steps.add_modifiers(texts(&["y", "z"]));
    steps.add_parts(vec![named("p")]);
    steps.add_parts(vec![named("q"), named("r")]);
    let mut once = ident("a.js");
    once.add_modifiers(texts(&["x", "y", "z"]));
    once.add_parts(vec![named("p"), named("q"), named("r")]);
    assert!(steps == once);
}

#[test]
fn modifiers_are_not_empty_and_hold_no_comma() {
    assert!(AssetIdent::check_non_empty_and_no_commas("client chunks"));
    assert!(!AssetIdent::check_non_empty_and_no_commas(""));
    assert!(!AssetIdent::check_non_empty_and_no_commas("a,b"));
    assert!(!AssetIdent::check_non_empty_and_no_commas(","));
}

#[test]
fn facades_are_left_out() {
    let mut a = ident("a.js");
    a.add_part(ModulePart::Facade);
    assert_eq!(a.parts, "");
    a.add_part(named("locals"));
    assert_eq!(a.parts, "locals");
    a.add_part(ModulePart::Facade);
    assert_eq!(a.parts, "locals");
    a.add_parts(vec![ModulePart::Facade, named("exports"), ModulePart::Facade, named("x")]);
    assert_eq!(a.parts, "locals exports x");
}

#[test]
fn nested_assets_are_listed() {
    let layers = layers();
    let mut a = ident("a.js");
    let items: Vec<(String, Result<AssetIdent, String>)> =
        vec![("x".to_string(), Ok(ident("b.js"))), ("y".to_string(), Ok(ident("c.js")))];
    assert_eq!(a.add_assets(items, &layers), Ok(()));
    assert_eq!(a.assets, " x => [project]/b.js,  y => [project]/c.js");
    let added: Result<(), String> = a.add_asset("z", Ok(&ident("d.js")), &layers);
    assert_eq!(added, Ok(()));
    assert_eq!(a.assets, " x => [project]/b.js,  y => [project]/c.js,  z => [project]/d.js");
}

#[test]
fn an_unresolved_asset_empties_the_list() {
    let layers = layers();
    let mut a = ident("a.js");
    let added: Result<(), String> = a.add_asset("x", Ok(&ident("b.js")), &layers);
    assert_eq!(added, Ok(()));
    let failed = a.add_asset("y", Err("gone".to_string()), &layers);
    assert_eq!(failed, Err("gone".to_string()));
    assert_eq!(a.assets, "");

    let mut b = ident("a.js");
    let items: Vec<(String, Result<AssetIdent, String>)> = vec![
        ("x".to_string(), Ok(ident("b.js"))),
        ("y".to_string(), Err("first".to_string())),
        ("z".to_string(), Err("second".to_string())),
    ];
    assert_eq!(b.add_assets(items, &layers), Err("first".to_string()));
    assert_eq!(b.assets, "");
}

#[test]
fn renaming_puts_the_path_in_place_of_stars() {
    let mut a = ident("src/a.js");
    assert_eq!(a.rename_target("*"), "src/a.js");
    assert_eq!(a.rename_target("out/*.map"), "out/src/a.js.map");
    assert_eq!(a.rename_target("*+*"), "src/a.js+src/a.js");
    assert_eq!(a.rename_target("fixed"), "fixed");
    let renamed: Result<(), String> = a.rename_as_ref("out/*", |target| Ok(path(target)));
    assert_eq!(renamed, Ok(()));
    assert!(a.path() == path("out/src/a.js"));
}

#[test]
fn renaming_out_of_the_file_system_changes_nothing() {
    let mut a = ident("src/a.js");
    let before = a.clone();
    let renamed: Result<(), String> = a.rename_as_ref("../*", |target| Err(target.to_string()));
    assert_eq!(renamed, Err("../src/a.js".to_string()));
    assert!(a == before);
}

#[test]
fn changing_a_clone_leaves_the_ident() {
    let a = ident("a.js");
    let mut b = a.clone();
    assert!(a == b);
    b.set_query("?x".to_string());
    assert_eq!(a.query, "");
    assert_eq!(b.query, "?x");
    assert!(a != b);
}

#[test]
fn equality_is_that_of_all_fields() {
    let layers = layers();
    let base = ident("a.js");
    let mut others: Vec<AssetIdent> = Vec::new();
    let mut x = base.clone();
    x.set_path(path("b.js"));
    others.push(x);
    let mut x = base.clone();
    x.set_path(FileSystemPath { fs: 2, path: "a.js".to_string(), text: "[project]/a.js".to_string() });
    others.push(x);
    let mut x = base.clone();
    x.set_fragment("#x".to_string());
    others.push(x);
    let mut x = base.clone();
    x.add_modifier("x".to_string());
    others.push(x);
    let mut x = base.clone();
    x.add_part(named("x"));
    others.push(x);
    let mut x = base.clone();
    x.set_layer(Layer::new(&layers, "client"));
    others.push(x);
    let mut x = base.clone();
    x.set_content_type("x".to_string());
    others.push(x);
    for (i, a) in others.iter().enumerate() {
        assert!(*a != base);
        for (j, b) in others.iter().enumerate() {
            assert_eq!(a == b, i == j);
        }
    }
}

#[test]
fn an_ident_is_debugged_as_what_it_is_made_of() {
    let mut a = ident("a.js");
    a.set_query("?q".to_string());
    assert_eq!(
        format!("{a:?}"),
        "AssetIdentInner { path: FileSystemPath { fs: 1, path: \"a.js\", text: \"[project]/a.js\" }, \
         query: \"?q\", fragment: \"\", assets: \"\", modifiers: \"\", parts: \"\", layer: None, \
         content_type: None }"
    );
    let inner: &AssetIdentInner = &a;
    assert_eq!(format!("{a:#?}"), format!("{inner:#?}"));
}

#[test]
fn an_ident_can_be_made_of_its_fields() {
    let a = AssetIdent::from_inner(AssetIdentInner {
        path: path("a.js"),
        query: "?q".to_string(),
        fragment: String::new(),
        assets: String::new(),
        modifiers: "m".to_string(),
        parts: String::new(),
        layer: None,
        content_type: None,
    });
    let mut b = ident("a.js");
    b.set_query("?q".to_string());
    b.add_modifier("m".to_string());
    assert!(a == b);
}
