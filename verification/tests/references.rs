use everestrs_build::text::cmp_str;
use everestrs_build::text::contains_string;
use everestrs_build::text::join_strings;
use everestrs_build::text::split_string;
use everestrs_build::text::str_eq;
use everestrs_build::typeref::cmp_type_ref;
use everestrs_build::typeref::TypeRef;
use everestrs_build::Builder;
use everestrs_build::Error;

fn s(x: &str) -> String {
    x.to_string()
}

#[test]
fn reference_with_single_segment() {
    let t = TypeRef::from_reference("/evse#/State").unwrap();
    assert_eq!(t.module, "evse");
    assert_eq!(t.module_parts, vec![s("evse")]);
    assert_eq!(t.local_name, "State");
}

#[test]
fn reference_with_nested_path() {
    let t = TypeRef::from_reference("iso15118/ev#/Limits").unwrap();
    assert_eq!(t.module, "iso15118/ev");
    assert_eq!(t.module_parts, vec![s("iso15118"), s("ev")]);
    assert_eq!(t.local_name, "Limits");
}

#[test]
fn reference_leading_slashes_are_dropped() {
    let t = TypeRef::from_reference("///x#/Y").unwrap();
    assert_eq!(t.module, "x");
    assert_eq!(t.local_name, "Y");
}

#[test]
fn reference_without_separator_is_malformed() {
    match TypeRef::from_reference("no_separator") {
        Err(Error::MalformedReference(m)) => assert_eq!(m, "no_separator"),
        other => panic!("expected a malformed reference, got {:?}", other),
    }
}

#[test]
fn reference_with_two_separators_is_malformed() {
    match TypeRef::from_reference("a#/b#/c") {
        Err(Error::MalformedReference(m)) => assert_eq!(m, "a#/b#/c"),
        other => panic!("expected a malformed reference, got {:?}", other),
    }
}

#[test]
fn module_name_is_fully_qualified() {
    let t = TypeRef::from_reference("iso15118/ev#/Limits").unwrap();
    assert_eq!(t.module_name(), "crate::generated::types::iso15118::ev");
    assert_eq!(
        t.absolute_type_path(),
        "crate::generated::types::iso15118::ev::Limits"
    );
}

#[test]
fn references_order_by_path_then_name() {
    let a = TypeRef::from_reference("a/b#/Z").unwrap();
    let b = TypeRef::from_reference("a/c#/A").unwrap();
    let c = TypeRef::from_reference("a/b#/A").unwrap();
    assert_eq!(cmp_type_ref(&a, &b), std::cmp::Ordering::Less);
    assert_eq!(cmp_type_ref(&c, &a), std::cmp::Ordering::Less);
    assert_eq!(cmp_type_ref(&a, &a), std::cmp::Ordering::Equal);
    assert_eq!(cmp_type_ref(&b, &a), std::cmp::Ordering::Greater);
}

#[test]
fn string_helpers_behave_like_std() {
    assert_eq!(cmp_str("abc", "abd"), std::cmp::Ordering::Less);
    assert_eq!(cmp_str("abc", "abc"), std::cmp::Ordering::Equal);
    assert_eq!(cmp_str("abcd", "abc"), std::cmp::Ordering::Greater);
    assert!(str_eq("same", "same"));
    assert!(!str_eq("same", "other"));
    assert_eq!(
        split_string("a//b", '/'),
        vec![s("a"), s(""), s("b")]
    );
    assert_eq!(split_string("", '/'), vec![s("")]);
    assert_eq!(
        join_strings(&vec![s("a"), s("b")], "::"),
        "a::b"
    );
    assert_eq!(join_strings(&Vec::new(), "::"), "");
    assert!(contains_string(&vec![s("x"), s("y")], "y"));
    assert!(!contains_string(&vec![s("x")], "y"));
}

#[test]
fn builder_keeps_its_paths() {
    let b = Builder::new(s("manifest.yaml"), vec![s("core")]);
    assert_eq!(b.manifest_path, "manifest.yaml");
    assert_eq!(b.everest_core, vec![s("core")]);
    assert!(b.out_dir.is_none());
    let b = b.out_dir(s("out"));
    assert_eq!(b.out_dir, Some(s("out")));
}
