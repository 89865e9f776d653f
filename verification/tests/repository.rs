use everestrs_build::context::emit_config;
use everestrs_build::schema::interface::Interface;
use everestrs_build::schema::manifest::ConfigEntry;
use everestrs_build::schema::manifest::ConfigEnum;
use everestrs_build::repo::SearchRoot;
use everestrs_build::repo::YamlRepo;
use everestrs_build::Error;

fn s(x: &str) -> String {
    x.to_string()
}

fn empty_interface(description: &str) -> Interface {
    Interface { description: s(description), vars: vec![], cmds: vec![] }
}

#[test]
fn lookup_finds_the_single_match() {
    let repo = YamlRepo::new(vec![
        SearchRoot { interfaces: vec![(s("foo"), empty_interface("first"))], data_types: vec![] },
        SearchRoot { interfaces: vec![(s("bar"), empty_interface("second"))], data_types: vec![] },
    ]);
    let i = repo.get_interface("foo").unwrap();
    assert_eq!(i.description, "first");
    let i = repo.get_interface("bar").unwrap();
    assert_eq!(i.description, "second");
}

#[test]
fn lookup_of_an_absent_name_is_not_found() {
    let repo = YamlRepo::new(vec![SearchRoot {
        interfaces: vec![(s("foo"), empty_interface("first"))],
        data_types: vec![],
    }]);
    match repo.get_interface("missing") {
        Err(Error::NotFound(m)) => assert_eq!(m, "missing"),
        other => panic!("expected not-found, got {:?}", other),
    }
}

#[test]
fn lookup_in_two_roots_is_ambiguous() {
    let repo = YamlRepo::new(vec![
        SearchRoot { interfaces: vec![(s("foo"), empty_interface("first"))], data_types: vec![] },
        SearchRoot { interfaces: vec![(s("foo"), empty_interface("second"))], data_types: vec![] },
    ]);
    match repo.get_interface("foo") {
        Err(Error::Ambiguous(m)) => assert_eq!(m, "foo"),
        other => panic!("expected ambiguous, got {:?}", other),
    }
}

#[test]
fn config_entries_map_to_scalar_type_names() {
    let config = vec![
        (
            s("enabled"),
            ConfigEntry {
                description: Some(s("switch")),
                value: ConfigEnum::Boolean { default: Some(true) },
            },
        ),
        (
            s("count"),
            ConfigEntry {
                description: None,
                value: ConfigEnum::Integer { default: None, minimum: Some(0), maximum: Some(10) },
            },
        ),
        (s("rate"), ConfigEntry { description: None, value: ConfigEnum::Number }),
        (
            s("label"),
            ConfigEntry {
                description: None,
                value: ConfigEnum::String { default: None, min_length: None, max_length: None },
            },
        ),
    ];
    let r = emit_config(&config);
    assert_eq!(r.len(), 4);
    assert_eq!(r[0].name, "enabled");
    assert_eq!(r[0].description, Some(s("switch")));
    assert_eq!(r[0].data_type, "bool");
    assert_eq!(r[1].data_type, "i64");
    assert_eq!(r[2].data_type, "f64");
    assert_eq!(r[3].data_type, "String");
}
