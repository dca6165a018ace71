use windows_macros::resolve::{emit, generate, resolve, resolve_and_emit, MetadataGraph, MetadataNode, ResolutionSet};
use windows_macros::selector::{parse_selector, split_selectors, Quantifier, SelectorError};

fn path(parts: &[&str]) -> Vec<String> {
    parts.iter().map(|p| p.to_string()).collect()
}

fn node(parts: &[&str], deps: Vec<usize>, fragment: &str) -> MetadataNode {
    MetadataNode { path: path(parts), dependencies: deps, fragment: fragment.to_string() }
}

// 0 and 1 depend on each other; 2 is a grandchild of `Ns`; 4 depends on 3.
fn sample_graph() -> MetadataGraph {
    MetadataGraph {
        nodes: vec![
            node(&["Ns", "A"], vec![1], "struct A;"),
            node(&["Ns", "B"], vec![0], "struct B;"),
            node(&["Ns", "Sub", "C"], vec![], "struct C;"),
            node(&["Other", "D"], vec![], "struct D;"),
            node(&["Ns", "E"], vec![3], "struct E;"),
        ],
    }
}

fn exprs(items: &[&str]) -> Vec<String> {
    items.iter().map(|p| p.to_string()).collect()
}

fn members(set: &ResolutionSet) -> Vec<usize> {
    (0..set.members.len()).filter(|i| set.members[*i]).collect()
}

#[test]
fn parses_exact_selector() {
    let sel = parse_selector("Windows::Foundation::Uri").unwrap();
    assert_eq!(sel.path, path(&["Windows", "Foundation", "Uri"]));
    assert_eq!(sel.quantifier, Quantifier::Exact);
}

#[test]
fn parses_wildcard_selector() {
    let sel = parse_selector("Microsoft::AI::MachineLearning::*").unwrap();
    assert_eq!(sel.path, path(&["Microsoft", "AI", "MachineLearning"]));
    assert_eq!(sel.quantifier, Quantifier::Wildcard);
}

#[test]
fn rejects_malformed_selectors() {
    for bad in ["", "Windows", "Windows::", "::Windows", "A::*::B", "A:B", "A::B c", "A:::B", "*", "A::**"] {
        assert_eq!(parse_selector(bad).unwrap_err(), SelectorError::Syntax(bad.to_string()), "{}", bad);
    }
}

#[test]
fn cycle_resolves_to_both_members() {
    let g = sample_graph();
    let set = resolve(&g, &exprs(&["Ns::A"])).unwrap();
    assert_eq!(members(&set), vec![0, 1]);
    let text = resolve_and_emit(&g, &exprs(&["Ns::B"])).unwrap();
    assert_eq!(text, "r#\"struct A;struct B;\"#");
}

#[test]
fn wildcard_takes_direct_children_only() {
    let g = MetadataGraph {
        nodes: vec![
            node(&["Ns", "A"], vec![], "a"),
            node(&["Ns", "Sub", "C"], vec![], "c"),
            node(&["Ns", "B"], vec![], "b"),
            node(&["Nsx", "F"], vec![], "f"),
            node(&["Ns"], vec![], "n"),
        ],
    };
    let set = resolve(&g, &exprs(&["Ns::*"])).unwrap();
    assert_eq!(members(&set), vec![0, 2]);
}

#[test]
fn wildcard_pulls_in_dependencies() {
    let g = sample_graph();
    let set = resolve(&g, &exprs(&["Ns::*"])).unwrap();
    assert_eq!(members(&set), vec![0, 1, 3, 4]);
    assert_eq!(
        resolve_and_emit(&g, &exprs(&["Ns::*"])).unwrap(),
        "r#\"struct A;struct B;struct D;struct E;\"#"
    );
}

#[test]
fn unknown_identifier_is_named() {
    let g = sample_graph();
    assert_eq!(
        resolve_and_emit(&g, &exprs(&["Ns::A", "Ns::DoesNotExist"])),
        Err(SelectorError::UnknownIdentifier("Ns::DoesNotExist".to_string()))
    );
    assert_eq!(
        resolve(&g, &exprs(&["Ns::DoesNotExist"])).unwrap_err(),
        SelectorError::UnknownIdentifier("Ns::DoesNotExist".to_string())
    );
}

#[test]
fn first_failing_expression_is_reported() {
    let g = sample_graph();
    assert_eq!(
        resolve_and_emit(&g, &exprs(&["Ns::A", "Ns::", "Ns::Missing"])),
        Err(SelectorError::Syntax("Ns::".to_string()))
    );
    assert_eq!(
        resolve_and_emit(&g, &exprs(&["Ns::A", "Ns::Missing", "Ns::"])),
        Err(SelectorError::UnknownIdentifier("Ns::Missing".to_string()))
    );
}

#[test]
fn order_and_repetition_do_not_change_text() {
    let g = sample_graph();
    let a = resolve_and_emit(&g, &exprs(&["Other::D", "Ns::E", "Ns::A"])).unwrap();
    let b = resolve_and_emit(&g, &exprs(&["Ns::A", "Other::D", "Ns::E"])).unwrap();
    let c = resolve_and_emit(&g, &exprs(&["Ns::E", "Ns::A", "Ns::A"])).unwrap();
    assert_eq!(a, b);
    assert_eq!(a, c);
    assert_eq!(a, resolve_and_emit(&g, &exprs(&["Other::D", "Ns::E", "Ns::A"])).unwrap());
    assert_eq!(a, "r#\"struct A;struct B;struct D;struct E;\"#");
}

#[test]
fn more_selectors_give_a_larger_closed_set() {
    let g = sample_graph();
    let small = resolve(&g, &exprs(&["Ns::E"])).unwrap();
    let large = resolve(&g, &exprs(&["Ns::E", "Ns::Sub::C"])).unwrap();
    assert_eq!(members(&small), vec![3, 4]);
    assert_eq!(members(&large), vec![2, 3, 4]);
    for i in members(&small) {
        assert!(large.members[i]);
    }
    for i in members(&large) {
        for d in &g.nodes[i].dependencies {
            assert!(large.members[*d]);
        }
    }
}

#[test]
fn empty_selection_emits_empty_literal() {
    let g = sample_graph();
    assert_eq!(resolve_and_emit(&g, &Vec::new()).unwrap(), "r#\"\"#");
    let none = ResolutionSet { members: vec![false; 5] };
    assert_eq!(emit(&g, &none), "r#\"\"#");
}

#[test]
fn emit_keeps_fragments_verbatim_in_node_order() {
    let g = sample_graph();
    let set = ResolutionSet { members: vec![false, false, true, false, true] };
    assert_eq!(emit(&g, &set), "r#\"struct C;struct E;\"#");
}

#[test]
fn splits_comma_separated_list() {
    assert_eq!(
        split_selectors(" Windows::Foundation::* ,\n\tWindows::Storage::StorageFile,"),
        exprs(&["Windows::Foundation::*", "Windows::Storage::StorageFile"])
    );
    assert_eq!(split_selectors("A::B"), exprs(&["A::B"]));
    assert!(split_selectors("").is_empty());
    assert!(split_selectors("  \n ").is_empty());
    assert_eq!(split_selectors("A::B,,C::D"), exprs(&["A::B", "", "C::D"]));
    assert_eq!(split_selectors("A :: B"), exprs(&["A :: B"]));
}

#[test]
fn generates_from_input_text() {
    let g = sample_graph();
    assert_eq!(
        generate(&g, "Ns::E,\n Ns::A,"),
        Ok("r#\"struct A;struct B;struct D;struct E;\"#".to_string())
    );
    assert_eq!(generate(&g, "Ns::A, Ns::DoesNotExist"), Err(SelectorError::UnknownIdentifier("Ns::DoesNotExist".to_string())));
    assert_eq!(generate(&g, "Ns::A,,Ns::E"), Err(SelectorError::Syntax(String::new())));
    assert_eq!(generate(&g, "Ns :: A"), Err(SelectorError::Syntax("Ns :: A".to_string())));
    assert_eq!(generate(&g, ""), Ok("r#\"\"#".to_string()));
}
