use asset_ident::ident::AssetIdent;
use asset_ident::layer::{Layer, LayerRegistration, LayerRegistry};
use asset_ident::naming::{
    append_extension, append_field_hash, clean_additional_extensions, clean_separators, find_split,
    make_stem, replace_beginning,
};
use asset_ident::output_name::{HashField, HashValue};
use asset_ident::path::FileSystemPath;

fn ident(path: &str) -> AssetIdent {
    AssetIdent::from_path(FileSystemPath {
        fs: 1,
        path: path.to_string(),
        text: format!("[project]/{path}"),
    })
}

/// A hash that is good enough to tell test inputs apart.
fn fnv(bytes: &[u8]) -> String {
    let mut hash: u64 = 0xcbf29ce484222325;
    for byte in bytes {
        hash = (hash ^ *byte as u64).wrapping_mul(0x100000001b3);
    }
    format!("{hash:016x}")
}

fn fnv_fields(fields: &Vec<HashField>) -> String {
    let mut bytes: Vec<u8> = Vec::new();
    for field in fields {
        bytes.push(field.tag);
        match &field.value {
            HashValue::Text(text) => bytes.extend(text.as_bytes()),
            HashValue::Layer(layer) => bytes.push(layer.number()),
        }
        bytes.push(0xff);
    }
    fnv(&bytes)
}

fn output(ident: &AssetIdent, relative: Option<&str>, prefix: Option<&str>, extension: &str) -> String {
    assert!(ident.has_output_name(relative, prefix, extension));
    ident.output_name(relative, prefix, extension, fnv_fields, fnv)
}

fn described(fields: &[HashField]) -> Vec<(u8, String)> {
    fields
        .iter()
        .map(|field| match &field.value {
            HashValue::Text(text) => (field.tag, text.clone()),
            HashValue::Layer(layer) => (field.tag, format!("layer {}", layer.number())),
        })
        .collect()
}

#[test]
fn separators_become_underscores() {
    assert_eq!(clean_separators("a/b#c?d.e"), "a_b_c_d.e");
    assert_eq!(clean_separators("//"), "__");
    assert_eq!(clean_separators("plain-[name]^\\&"), "plain-[name]^\\&");
    assert_eq!(clean_separators("\u{e9}/\u{4e16}?"), "\u{e9}_\u{4e16}_");
    assert_eq!(clean_separators(""), "");
}

#[test]
fn dots_become_underscores() {
    assert_eq!(clean_additional_extensions(".a.b/c"), "_a_b/c");
    assert_eq!(clean_additional_extensions("none"), "none");
}

#[test]
fn stems_lose_the_extension() {
    assert_eq!(make_stem("src/a.test.js", None, ".js"), ("src_a_test".to_string(), true));
    assert_eq!(make_stem("src/a.ts", None, ".js"), ("src_a_ts".to_string(), false));
    assert_eq!(make_stem("a.js", Some("p.q"), ".js"), ("p.q-a".to_string(), true));
    assert_eq!(make_stem(".js", None, ".js"), (String::new(), true));
    assert_eq!(make_stem("js", None, ".js"), ("js".to_string(), false));
    assert_eq!(make_stem("a\u{e9}.\u{e9}", None, ".\u{e9}"), ("a\u{e9}".to_string(), true));
}

#[test]
fn hashes_go_behind_the_stem() {
    assert_eq!(append_field_hash("a", "0123456789abcdef"), "a_01234567");
}

#[test]
fn extensions_that_were_added_are_marked() {
    assert_eq!(append_extension("a".to_string(), true, ".js"), "a.js");
    assert_eq!(append_extension("a".to_string(), false, ".js"), "a._.js");
}

#[test]
fn plain_names() {
    let a = ident("src/index.js");
    assert_eq!(output(&a, Some("src/index.js"), None, ".js"), "src_index.js");
    assert_eq!(output(&a, None, None, ".js"), "[project]_src_index.js");
    assert_eq!(output(&a, Some("src/index.js"), Some("static"), ".js"), "static-src_index.js");
    assert_eq!(output(&a, Some("src/index.js"), None, ".css"), "src_index_js._.css");
}

#[test]
fn json_and_json_js_do_not_collide() {
    let a = ident("data.json");
    let b = ident("data.json.js");
    assert_eq!(output(&a, Some("data.json"), None, ".js"), "data_json._.js");
    assert_eq!(output(&b, Some("data.json.js"), None, ".js"), "data_json.js");
}

#[test]
fn leading_dots_are_not_preserved() {
    let a = ident(".next/.env.js");
    assert_eq!(output(&a, Some(".next/.env.js"), None, ".js"), "_next__env.js");
}

#[test]
fn fields_are_hashed_in_order() {
    let layers = match LayerRegistry::collect(vec![
        LayerRegistration { name: "b", user_friendly_name: None },
        LayerRegistration { name: "a", user_friendly_name: None },
    ]) {
        Ok(layers) => layers,
        Err(error) => panic!("{error:?}"),
    };
    let mut a = ident("a.js");
    assert!(a.hash_fields(".js").is_empty());
    a.set_content_type("text/css".to_string());
    a.set_layer(Layer::new(&layers, "b"));
    a.add_part(asset_ident::ident::ModulePart::Named("part".to_string()));
    a.add_modifiers(vec!["one".to_string(), "ecmascript".to_string(), "two".to_string()]);
    let added: Result<(), String> = a.add_asset("k", Ok(&ident("b.js")), &layers);
    assert_eq!(added, Ok(()));
    a.set_fragment("#f".to_string());
    a.set_query("?q".to_string());
    let expected = |modifiers: &[&str]| {
        let mut fields: Vec<(u8, String)> = vec![
            (0, "?q".to_string()),
            (1, "#f".to_string()),
            (2, " k => [project]/b.js".to_string()),
        ];
        for modifier in modifiers {
            fields.push((3, modifier.to_string()));
        }
        fields.push((4, "part".to_string()));
        fields.push((5, "layer 1".to_string()));
        fields.push((6, "text/css".to_string()));
        fields
    };
    assert_eq!(described(&a.hash_fields(".js")), expected(&["one", "two"]));
    assert_eq!(described(&a.hash_fields(".css")), expected(&["one", "ecmascript", "two"]));
    assert_eq!(described(&a.hash_fields(".map")), expected(&["one", "ecmascript", "two"]));
}

#[test]
fn the_default_modifier_does_not_change_the_name() {
    let a = ident("a.js");
    let mut b = a.clone();
    b.add_modifier("ecmascript".to_string());
    assert_eq!(output(&b, Some("a.js"), None, ".js"), "a.js");
    assert_eq!(output(&a, Some("a.js"), None, ".js"), "a.js");
    let mut c = ident("a.css");
    c.add_modifiers(vec!["x".to_string(), "css".to_string()]);
    let mut d = ident("a.css");
    d.add_modifier("x".to_string());
    assert_eq!(output(&c, Some("a.css"), None, ".css"), output(&d, Some("a.css"), None, ".css"));
    assert!(output(&c, Some("a.css"), None, ".js") != output(&d, Some("a.css"), None, ".js"));
    let mut e = ident("a.css");
    e.add_modifiers(vec!["css".to_string(), "x".to_string(), "css".to_string(), "y".to_string()]);
    d.add_modifier("y".to_string());
    assert_eq!(output(&e, Some("a.css"), None, ".css"), output(&d, Some("a.css"), None, ".css"));
}

#[test]
fn names_depend_on_path_and_hashed_fields_alone() {
    let path = format!("node_modules/pkg/{}.css", "a".repeat(90));
    let mut a = ident("x");
    a.set_query("?q".to_string());
    a.add_modifiers(vec!["css".to_string(), "m".to_string(), "css".to_string()]);
    let mut b = ident("x");
    b.set_query("?q".to_string());
    b.add_modifier("m".to_string());
    let name = output(&a, Some(&path), None, ".css");
    assert_eq!(output(&a, Some(&path), None, ".css"), name);
    assert_eq!(output(&b, Some(&path), None, ".css"), name);
}

#[test]
fn the_hash_of_the_fields_goes_into_the_name() {
    let mut a = ident("a.js");
    a.set_query("?q".to_string());
    let hex = fnv_fields(&a.hash_fields(".js"));
    assert_eq!(output(&a, Some("a.js"), None, ".js"), format!("a_{}.js", &hex[..8]));
    assert_eq!(output(&a, Some("a.json"), None, ".js"), format!("a_json_{}._.js", &hex[..8]));
    let mut b = ident("a.js");
    b.set_query("?r".to_string());
    assert!(output(&a, Some("a.js"), None, ".js") != output(&b, Some("a.js"), None, ".js"));
}

#[test]
fn everything_up_to_the_last_package_is_hashed() {
    let path = "node_modules/pkg/node_modules/dep/index.js";
    let hex = fnv("node_modules_pkg_node_modules_".as_bytes());
    assert_eq!(output(&ident(path), Some(path), None, ".js"), format!("{}_dep_index.js", &hex[..5]));
    let path = "node_modules/pkg/index.js";
    assert_eq!(output(&ident(path), Some(path), None, ".js"), "node_modules_pkg_index.js");
}

#[test]
fn a_package_directory_may_end_with_the_hash() {
    let mut a = ident("x");
    a.set_query("?q".to_string());
    let fields = fnv_fields(&a.hash_fields(".js"));
    let beginning = fnv("a_node_modules_".as_bytes());
    assert_eq!(
        output(&a, Some("a/node_modules"), None, ".js"),
        format!("{}_{}._.js", &beginning[..5], &fields[..8])
    );
}

#[test]
fn long_names_are_cut() {
    let path = format!("{}.js", "a".repeat(80));
    assert_eq!(output(&ident("x"), Some(&path), None, ".js"), path);

    let path = format!("{}.js", "a".repeat(100));
    let hex = fnv("a".repeat(20).as_bytes());
    assert_eq!(
        output(&ident("x"), Some(&path), None, ".js"),
        format!("{}_{}.js", &hex[..5], "a".repeat(80))
    );
}

#[test]
fn cuts_move_behind_a_near_underscore() {
    let name = format!("{}_{}", "a".repeat(25), "b".repeat(74));
    assert_eq!(find_split(&name), Some(26));
    let name = format!("{}_{}", "a".repeat(39), "b".repeat(60));
    assert_eq!(find_split(&name), Some(40));
    let name = format!("{}_{}", "a".repeat(40), "b".repeat(59));
    assert_eq!(find_split(&name), Some(20));
    let name = format!("{}_{}", "a".repeat(20), "b".repeat(79));
    assert_eq!(find_split(&name), Some(21));
    let name = format!("x_node_modules_{}", "b".repeat(81));
    assert_eq!(find_split(&name), Some(16));
    let name = format!("x_node_modules_{}", "b".repeat(80));
    assert_eq!(find_split(&name), Some(15));
    assert_eq!(find_split(""), Some(0));
    assert_eq!(find_split("_node_modules_"), Some(14));
}

#[test]
fn names_are_not_cut_within_a_character() {
    let name = "\u{20ac}".repeat(27);
    assert_eq!(find_split(&name), None);
    assert!(!ident("x").has_output_name(Some(&name), None, ".js"));
    let name = "\u{e9}".repeat(41);
    assert_eq!(find_split(&name), Some(2));
    assert!(ident("x").has_output_name(Some(&name), None, ".js"));
    assert_eq!(
        replace_beginning(&name, 2, "0123456789abcdef"),
        format!("01234_{}", "\u{e9}".repeat(40))
    );

    let mut hashed = ident("x");
    hashed.set_query("?q".to_string());
    let name = "\u{e9}".repeat(36);
    assert!(ident("x").has_output_name(Some(&name), None, ".js"));
    assert!(!hashed.has_output_name(Some(&name), None, ".js"));
}

#[test]
fn output_names_are_short_and_flat() {
    let path = format!("a/{}#{}/node_modules/{}?x.tsx", "b.".repeat(60), "c".repeat(90), "d/".repeat(70));
    let mut a = ident("x");
    a.set_query("?q".to_string());
    let name = output(&a, Some(&path), Some("static"), ".js");
    assert!(name.len() <= 5 + 1 + 80 + 2 + 3);
    assert!(!name.contains('/'));
    assert!(!name.contains('#'));
    assert!(!name.contains('?'));
    assert!(name.ends_with("._.js"));
}
