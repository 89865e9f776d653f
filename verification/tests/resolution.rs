use everestrs_build::render::build_render_context;
use everestrs_build::repo::SearchRoot;
use everestrs_build::repo::YamlRepo;
use everestrs_build::schema::interface::Argument;
use everestrs_build::schema::interface::ArrayOptions;
use everestrs_build::schema::interface::Command;
use everestrs_build::schema::interface::DataTypes;
use everestrs_build::schema::interface::Interface;
use everestrs_build::schema::interface::ObjectOptions;
use everestrs_build::schema::interface::StringOptions;
use everestrs_build::schema::interface::Type;
use everestrs_build::schema::interface::Variable;
use everestrs_build::schema::manifest::Manifest;
use everestrs_build::schema::manifest::Metadata;
use everestrs_build::schema::manifest::ProvidesEntry;
use everestrs_build::schema::manifest::RequiresEntry;
use everestrs_build::Error;

fn s(x: &str) -> String {
    x.to_string()
}

fn var(arg: Argument) -> Variable {
    Variable { description: None, arg }
}

fn string_ref(reference: &str) -> Variable {
    var(Argument::Single(Type::String(StringOptions {
        object_reference: Some(s(reference)),
        enum_items: None,
    })))
}

fn object_ref(reference: &str) -> Variable {
    var(Argument::Single(Type::Object(ObjectOptions {
        object_reference: Some(s(reference)),
        properties: vec![],
        required: vec![],
    })))
}

fn bool_var() -> Variable {
    var(Argument::Single(Type::Boolean))
}

fn enum_type(items: &[&str]) -> Variable {
    var(Argument::Single(Type::String(StringOptions {
        object_reference: None,
        enum_items: Some(items.iter().map(|i| s(i)).collect()),
    })))
}

fn object_type(properties: Vec<(String, Variable)>, required: Vec<String>) -> Variable {
    var(Argument::Single(Type::Object(ObjectOptions {
        object_reference: None,
        properties,
        required,
    })))
}

fn manifest_providing(slots: Vec<(&str, &str)>, needs: Vec<(&str, &str)>) -> Manifest {
    Manifest {
        description: s("a module"),
        metadata: Metadata { license: s("Apache-2.0"), authors: vec![s("someone")] },
        provides: slots
            .into_iter()
            .map(|(name, interface)| {
                (
                    s(name),
                    ProvidesEntry {
                        interface: s(interface),
                        description: s("slot"),
                        config: vec![],
                    },
                )
            })
            .collect(),
        requires: needs
            .into_iter()
            .map(|(name, interface)| (s(name), RequiresEntry { interface: s(interface) }))
            .collect(),
        enable_external_mqtt: false,
        config: vec![],
        errors: vec![],
    }
}

fn evse_repo() -> YamlRepo {
    let iface = Interface {
        description: s("EVSE manager"),
        vars: vec![],
        cmds: vec![(
            s("get_state"),
            Command {
                description: s("Reads the state"),
                arguments: vec![],
                result: Some(string_ref("/evse#/State")),
            },
        )],
    };
    let types_doc = DataTypes { types: vec![(s("State"), enum_type(&["Idle", "Charging"]))] };
    YamlRepo::new(vec![SearchRoot {
        interfaces: vec![(s("evse_manager"), iface)],
        data_types: vec![(s("evse"), types_doc)],
    }])
}

#[test]
fn enum_reference_lands_in_the_module_tree() {
    let repo = evse_repo();
    let manifest = manifest_providing(vec![("main", "evse_manager")], vec![]);
    let rc = build_render_context(&manifest, &repo).unwrap();

    assert_eq!(rc.provide_slots.len(), 1);
    assert_eq!(rc.provide_slots[0].implementation_id, "main");
    assert_eq!(rc.provide_slots[0].interface, "evse_manager");

    assert_eq!(rc.provided_interfaces.len(), 1);
    let iface = &rc.provided_interfaces[0];
    assert_eq!(iface.name, "evse_manager");
    assert_eq!(iface.cmds.len(), 1);
    let cmd = &iface.cmds[0];
    assert_eq!(cmd.name, "get_state");
    let result = cmd.result.as_ref().unwrap();
    assert_eq!(result.name, "return_value");
    assert_eq!(result.data_type, "crate::generated::types::evse::State");

    assert_eq!(rc.types.children.len(), 1);
    assert_eq!(rc.types.children[0].0, "evse");
    let node = &rc.types.children[0].1;
    assert!(node.objects.is_empty());
    assert_eq!(node.enums.len(), 1);
    assert_eq!(node.enums[0].name, "State");
    assert_eq!(node.enums[0].items, vec![s("Idle"), s("Charging")]);
}

#[test]
fn missing_interface_is_not_found() {
    let repo = evse_repo();
    let manifest = manifest_providing(vec![("main", "missing_iface")], vec![]);
    match build_render_context(&manifest, &repo) {
        Err(Error::NotFound(m)) => assert_eq!(m, "missing_iface"),
        other => panic!("expected not-found, got {:?}", other),
    }
}

#[test]
fn interface_in_two_roots_is_ambiguous() {
    let mut first = evse_repo();
    let mut second = evse_repo();
    let repo = YamlRepo::new(vec![first.roots.remove(0), second.roots.remove(0)]);
    let manifest = manifest_providing(vec![("main", "evse_manager")], vec![]);
    match build_render_context(&manifest, &repo) {
        Err(Error::Ambiguous(m)) => assert_eq!(m, "evse_manager"),
        other => panic!("expected ambiguous, got {:?}", other),
    }
}

#[test]
fn resolving_twice_yields_the_same_context() {
    let first = build_render_context(
        &manifest_providing(vec![("main", "evse_manager")], vec![]),
        &evse_repo(),
    )
    .unwrap();
    let second = build_render_context(
        &manifest_providing(vec![("main", "evse_manager")], vec![]),
        &evse_repo(),
    )
    .unwrap();
    assert_eq!(first, second);
}

#[test]
fn cyclic_references_resolve_once_each() {
    let doc = DataTypes {
        types: vec![
            (
                s("A"),
                object_type(vec![(s("b"), object_ref("/m#/B"))], vec![s("b")]),
            ),
            (
                s("B"),
                object_type(vec![(s("a"), object_ref("/m#/A"))], vec![s("a")]),
            ),
        ],
    };
    let iface = Interface {
        description: s("cyclic"),
        vars: vec![(s("v"), object_ref("/m#/A"))],
        cmds: vec![],
    };
    let repo = YamlRepo::new(vec![SearchRoot {
        interfaces: vec![(s("i"), iface)],
        data_types: vec![(s("m"), doc)],
    }]);
    let manifest = manifest_providing(vec![("main", "i")], vec![]);
    let rc = build_render_context(&manifest, &repo).unwrap();
    assert_eq!(rc.types.children.len(), 1);
    let node = &rc.types.children[0].1;
    let names: Vec<&str> = node.objects.iter().map(|o| o.name.as_str()).collect();
    assert_eq!(names, vec!["A", "B"]);
}

#[test]
fn discoveries_resolve_in_rounds_and_in_order() {
    // The root reference names B; B references both C and A.  The first
    // round resolves B, the second A then C, in reference order.
    let doc = DataTypes {
        types: vec![
            (s("A"), object_type(vec![], vec![])),
            (
                s("B"),
                object_type(
                    vec![(s("c"), object_ref("/m#/C")), (s("a"), object_ref("/m#/A"))],
                    vec![],
                ),
            ),
            (s("C"), object_type(vec![], vec![])),
        ],
    };
    let iface = Interface {
        description: s("rounds"),
        vars: vec![(s("v"), object_ref("/m#/B"))],
        cmds: vec![],
    };
    let repo = YamlRepo::new(vec![SearchRoot {
        interfaces: vec![(s("i"), iface)],
        data_types: vec![(s("m"), doc)],
    }]);
    let manifest = manifest_providing(vec![("main", "i")], vec![]);
    let rc = build_render_context(&manifest, &repo).unwrap();
    let node = &rc.types.children[0].1;
    let names: Vec<&str> = node.objects.iter().map(|o| o.name.as_str()).collect();
    assert_eq!(names, vec!["B", "A", "C"]);
}

#[test]
fn one_interface_in_two_slots_appears_once() {
    let repo = evse_repo();
    let manifest = manifest_providing(
        vec![("first", "evse_manager"), ("second", "evse_manager")],
        vec![],
    );
    let rc = build_render_context(&manifest, &repo).unwrap();
    assert_eq!(rc.provide_slots.len(), 2);
    assert_eq!(rc.provided_interfaces.len(), 1);
    assert_eq!(rc.provided_interfaces[0].name, "evse_manager");
}

#[test]
fn provided_and_required_interface_lists_are_separate() {
    let repo = evse_repo();
    let manifest = manifest_providing(
        vec![("main", "evse_manager")],
        vec![("backend", "evse_manager")],
    );
    let rc = build_render_context(&manifest, &repo).unwrap();
    assert_eq!(rc.provided_interfaces.len(), 1);
    assert_eq!(rc.required_interfaces.len(), 1);
    assert_eq!(rc.require_slots.len(), 1);
    assert_eq!(rc.require_slots[0].implementation_id, "backend");
}

#[test]
fn optional_properties_are_wrapped() {
    let doc = DataTypes {
        types: vec![(
            s("Settings"),
            object_type(
                vec![(s("req_field"), bool_var()), (s("opt_field"), bool_var())],
                vec![s("req_field")],
            ),
        )],
    };
    let iface = Interface {
        description: s("settings"),
        vars: vec![(s("v"), object_ref("/conf#/Settings"))],
        cmds: vec![],
    };
    let repo = YamlRepo::new(vec![SearchRoot {
        interfaces: vec![(s("i"), iface)],
        data_types: vec![(s("conf"), doc)],
    }]);
    let manifest = manifest_providing(vec![("main", "i")], vec![]);
    let rc = build_render_context(&manifest, &repo).unwrap();
    let node = &rc.types.children[0].1;
    assert_eq!(node.objects.len(), 1);
    let props = &node.objects[0].properties;
    assert_eq!(props[0].name, "req_field");
    assert_eq!(props[0].data_type, "bool");
    assert_eq!(props[1].name, "opt_field");
    assert_eq!(props[1].data_type, "Option<bool>");
}

#[test]
fn malformed_reference_fails_resolution() {
    let iface = Interface {
        description: s("broken"),
        vars: vec![(s("v"), string_ref("noSeparator"))],
        cmds: vec![],
    };
    let repo = YamlRepo::new(vec![SearchRoot {
        interfaces: vec![(s("i"), iface)],
        data_types: vec![],
    }]);
    let manifest = manifest_providing(vec![("main", "i")], vec![]);
    match build_render_context(&manifest, &repo) {
        Err(Error::MalformedReference(m)) => assert_eq!(m, "noSeparator"),
        other => panic!("expected malformed reference, got {:?}", other),
    }
}

#[test]
fn object_with_reference_and_properties_conflicts() {
    let conflicted = var(Argument::Single(Type::Object(ObjectOptions {
        object_reference: Some(s("/m#/A")),
        properties: vec![(s("x"), bool_var())],
        required: vec![],
    })));
    let iface =
        Interface { description: s("broken"), vars: vec![(s("v"), conflicted)], cmds: vec![] };
    let repo = YamlRepo::new(vec![SearchRoot {
        interfaces: vec![(s("i"), iface)],
        data_types: vec![],
    }]);
    let manifest = manifest_providing(vec![("main", "i")], vec![]);
    match build_render_context(&manifest, &repo) {
        Err(Error::SchemaConflict(m)) => assert_eq!(m, "/m#/A"),
        other => panic!("expected a schema conflict, got {:?}", other),
    }
}

#[test]
fn named_string_type_without_items_conflicts() {
    let doc = DataTypes {
        types: vec![(
            s("NotAnEnum"),
            var(Argument::Single(Type::String(StringOptions {
                object_reference: None,
                enum_items: None,
            }))),
        )],
    };
    let iface = Interface {
        description: s("broken"),
        vars: vec![(s("v"), string_ref("/m#/NotAnEnum"))],
        cmds: vec![],
    };
    let repo = YamlRepo::new(vec![SearchRoot {
        interfaces: vec![(s("i"), iface)],
        data_types: vec![(s("m"), doc)],
    }]);
    let manifest = manifest_providing(vec![("main", "i")], vec![]);
    match build_render_context(&manifest, &repo) {
        Err(Error::SchemaConflict(m)) => assert_eq!(m, "NotAnEnum"),
        other => panic!("expected a schema conflict, got {:?}", other),
    }
}

#[test]
fn reference_to_an_undeclared_type_is_not_found() {
    let doc = DataTypes { types: vec![(s("A"), object_type(vec![], vec![]))] };
    let iface = Interface {
        description: s("broken"),
        vars: vec![(s("v"), object_ref("/m#/Nope"))],
        cmds: vec![],
    };
    let repo = YamlRepo::new(vec![SearchRoot {
        interfaces: vec![(s("i"), iface)],
        data_types: vec![(s("m"), doc)],
    }]);
    let manifest = manifest_providing(vec![("main", "i")], vec![]);
    match build_render_context(&manifest, &repo) {
        Err(Error::NotFound(m)) => assert_eq!(m, "m#/Nope"),
        other => panic!("expected not-found, got {:?}", other),
    }
}

#[test]
fn inline_object_properties_contribute_references() {
    // An inline object maps to the opaque dynamic type, but references
    // inside its declared properties still join the closure.
    let doc = DataTypes { types: vec![(s("State"), enum_type(&["On", "Off"]))] };
    let inline = object_type(vec![(s("state"), string_ref("/m#/State"))], vec![]);
    let iface = Interface { description: s("inline"), vars: vec![(s("v"), inline)], cmds: vec![] };
    let repo = YamlRepo::new(vec![SearchRoot {
        interfaces: vec![(s("i"), iface)],
        data_types: vec![(s("m"), doc)],
    }]);
    let manifest = manifest_providing(vec![("main", "i")], vec![]);
    let rc = build_render_context(&manifest, &repo).unwrap();
    assert_eq!(rc.provided_interfaces[0].vars[0].data_type, "::serde_json::Value");
    assert_eq!(rc.types.children.len(), 1);
    assert_eq!(rc.types.children[0].1.enums[0].name, "State");
}

#[test]
fn empty_manifest_builds_an_empty_context() {
    let repo = YamlRepo::new(vec![]);
    let manifest = manifest_providing(vec![], vec![]);
    let rc = build_render_context(&manifest, &repo).unwrap();
    assert!(rc.provided_interfaces.is_empty());
    assert!(rc.required_interfaces.is_empty());
    assert!(rc.provide_slots.is_empty());
    assert!(rc.require_slots.is_empty());
    assert!(rc.types.children.is_empty());
    assert!(rc.module_config.is_empty());
    assert!(rc.provided_config.is_empty());
}

#[test]
fn variable_descriptions_are_kept() {
    let described = Variable {
        description: Some(s("a described value")),
        arg: Argument::Single(Type::Boolean),
    };
    let iface = Interface {
        description: s("described"),
        vars: vec![(s("v"), described)],
        cmds: vec![],
    };
    let repo = YamlRepo::new(vec![SearchRoot {
        interfaces: vec![(s("i"), iface)],
        data_types: vec![],
    }]);
    let manifest = manifest_providing(vec![("main", "i")], vec![]);
    let rc = build_render_context(&manifest, &repo).unwrap();
    let v = &rc.provided_interfaces[0].vars[0];
    assert_eq!(v.name, "v");
    assert_eq!(v.description, Some(s("a described value")));
    assert_eq!(v.data_type, "bool");
}

#[test]
fn array_items_recurse_into_the_item_type() {
    let doc = DataTypes { types: vec![(s("State"), enum_type(&["On", "Off"]))] };
    let list = var(Argument::Single(Type::Array(ArrayOptions {
        items: Some(Box::new(string_ref("/m#/State"))),
    })));
    let iface = Interface { description: s("lists"), vars: vec![(s("v"), list)], cmds: vec![] };
    let repo = YamlRepo::new(vec![SearchRoot {
        interfaces: vec![(s("i"), iface)],
        data_types: vec![(s("m"), doc)],
    }]);
    let manifest = manifest_providing(vec![("main", "i")], vec![]);
    let rc = build_render_context(&manifest, &repo).unwrap();
    assert_eq!(
        rc.provided_interfaces[0].vars[0].data_type,
        "Vec<crate::generated::types::m::State>"
    );
    assert_eq!(rc.types.children[0].1.enums.len(), 1);
}
