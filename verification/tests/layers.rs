use asset_ident::layer::{Layer, LayerRegistration, LayerRegistry, LayerRegistryError};

fn registration(name: &'static str, friendly: Option<&'static str>) -> LayerRegistration {
    LayerRegistration { name, user_friendly_name: friendly }
}

fn registry(registrations: Vec<LayerRegistration>) -> LayerRegistry {
    match LayerRegistry::collect(registrations) {
        Ok(registry) => registry,
        Err(error) => panic!("{error:?}"),
    }
}

fn three() -> Vec<LayerRegistration> {
    vec![
        registration("rsc", Some("Server Component")),
        registration("client", None),
        registration("edge", Some("Edge")),
    ]
}

const NAMES: [&str; 255] = {
    const LETTERS: &str = "abcdefghijklmnopqrstuvwxyzabcdefghijklmnopqrstuvwxyzabcdefghijklmnopqrstuvwxyzabcdefghijklmnopqrstuvwxyzabcdefghijklmnopqrstuvwxyzabcdefghijklmnopqrstuvwxyzabcdefghijklmnopqrstuvwxyzabcdefghijklmnopqrstuvwxyzabcdefghijklmnopqrstuvwxyzabcdefghijklmnopqrstuvwxyz";
    let mut names = [""; 255];
    let mut i = 0;
    while i < 255 {
        names[i] = LETTERS.split_at(i).0;
        i += 1;
    }
    names
};

#[test]
fn layers_are_numbered_in_the_order_of_their_names() {
    let layers = registry(three());
    assert_eq!(layers.find("client"), Some(0));
    assert_eq!(layers.find("edge"), Some(1));
    assert_eq!(layers.find("rsc"), Some(2));
    assert_eq!(layers.find("ssr"), None);
    assert_eq!(layers.find(""), None);
    assert_eq!(layers.find("a"), None);
}

#[test]
fn order_is_that_of_bytes() {
    let layers = registry(vec![
        registration("b", None),
        registration("\u{e9}", None),
        registration("B", None),
        registration("ab", None),
        registration("a", None),
        registration("", None),
    ]);
    let order = ["", "B", "a", "ab", "b", "\u{e9}"];
    for (i, name) in order.iter().enumerate() {
        assert_eq!(layers.find(name), Some(i as u8));
    }
}

#[test]
fn a_layer_knows_its_names() {
    let layers = registry(three());
    let client = Layer::new(&layers, "client");
    let rsc = Layer::new(&layers, "rsc");
    assert_eq!(client.name(&layers), "client");
    assert_eq!(client.user_friendly_name(&layers), "client");
    assert_eq!(rsc.name(&layers), "rsc");
    assert_eq!(rsc.user_friendly_name(&layers), "Server Component");
    assert!(client != rsc);
    assert!(client == Layer::new(&layers, "client"));
}

#[test]
fn a_layer_can_be_written_down() {
    let layers = registry(three());
    let edge = Layer::new(&layers, "edge");
    assert_eq!(edge.number(), 1);
    assert!(Layer::from_number(1) == edge);
}

#[test]
fn registration_order_does_not_matter() {
    let mut turned = three();
    turned.reverse();
    let layers = registry(three());
    let others = registry(turned);
    for name in ["client", "edge", "rsc"] {
        assert!(Layer::new(&layers, name) == Layer::new(&others, name));
    }
}

#[test]
fn duplicate_names_are_refused() {
    let result = LayerRegistry::collect(vec![
        registration("z", Some("first z")),
        registration("m", Some("first m")),
        registration("z", Some("second z")),
        registration("m", Some("second m")),
        registration("m", Some("third m")),
    ]);
    match result {
        Err(LayerRegistryError::DuplicateName { first, second }) => {
            assert_eq!(first.name, "m");
            assert_eq!(first.user_friendly_name, Some("first m"));
            assert_eq!(second.name, "m");
            assert_eq!(second.user_friendly_name, Some("second m"));
        }
        _ => panic!("expected the duplicate to be refused"),
    }
}

#[test]
fn a_registry_holds_255_layers() {
    let all: Vec<LayerRegistration> = NAMES.iter().map(|name| registration(name, None)).collect();
    let layers = registry(all.clone());
    assert_eq!(layers.find(NAMES[254]), Some(254));
    let mut more = all;
    more.push(registration("zzz", None));
    match LayerRegistry::collect(more) {
        Err(LayerRegistryError::TooManyLayers { count }) => assert_eq!(count, 256),
        _ => panic!("expected too many layers"),
    }
}

#[test]
fn an_empty_registry_finds_nothing() {
    let layers = registry(vec![]);
    assert_eq!(layers.find("client"), None);
}
