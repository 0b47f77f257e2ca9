use sse::str_tagged::{
    StringTaggedEncloser, StringTaggedOperator, StringTaggedSymmetricEncloser, StringTaggedSyntaxGraph,
};
use sse::syntax::{ElementKind, EncloserOrOperator, GraphError, SyntaxContext, SyntaxGraph};

fn root() -> SyntaxContext {
    SyntaxContext::new("root", &["LIST", "BAR", "PLUS"], Some('\\'), &[' ', '\n'])
}

#[test]
fn context_reports_what_it_was_given() {
    let context = root();
    assert_eq!(context.name(), "root".to_string());
    assert_eq!(context.escape(), Some('\\'));
    assert!(context.is_whitespace(' '));
    assert!(context.is_whitespace('\n'));
    assert!(!context.is_whitespace('x'));
    assert!(context.permits(&['B', 'A', 'R']));
    assert!(!context.permits(&['B', 'A']));
    assert!(!context.permits(&[]));
}

#[test]
fn elements_report_what_they_were_given() {
    let encloser = StringTaggedEncloser::new("LIST", "(", ")");
    assert_eq!(encloser.tag(), "LIST");
    assert_eq!(encloser.opening_encloser_str(), "(");
    assert_eq!(encloser.closing_encloser_str(), ")");
    let bar = StringTaggedSymmetricEncloser::new("BAR", "|");
    assert_eq!(bar.tag(), "BAR");
    assert_eq!(bar.encloser_str(), "|");
    let plus = StringTaggedOperator::new("PLUS", "+", 1, 2);
    assert_eq!(plus.tag(), "PLUS");
    assert_eq!(plus.op_str(), "+");
    assert_eq!(plus.left_args(), 1);
    assert_eq!(plus.right_args(), 2);

    let element = EncloserOrOperator::Operator(plus);
    assert_eq!(element.tag(), "PLUS");
    assert_eq!(element.kind(), ElementKind::Operator);
    assert_eq!(element.opening_token(), "+");
    assert_eq!(element.closing_token(), "");
    assert_eq!(element.left_args(), 1);
    assert_eq!(element.right_args(), 2);
    let element = EncloserOrOperator::Encloser(encloser);
    assert_eq!(element.kind(), ElementKind::Encloser);
    assert_eq!(element.opening_token(), "(");
    assert_eq!(element.closing_token(), ")");
    assert_eq!(element.left_args(), 0);
    assert_eq!(element.right_args(), 0);
    let element = EncloserOrOperator::SymmetricEncloser(bar);
    assert_eq!(element.kind(), ElementKind::SymmetricEncloser);
    assert_eq!(element.opening_token(), "|");
    assert_eq!(element.closing_token(), "|");
}

#[test]
fn registration_and_lookup() {
    let graph = SyntaxGraph::new(root())
        .with_context(SyntaxContext::new("inside", &["BAR"], None, &[]))
        .unwrap()
        .with_encloser(StringTaggedEncloser::new("LIST", "(", ")"), "root")
        .unwrap()
        .with_symmetric_encloser(StringTaggedSymmetricEncloser::new("BAR", "|"), "inside")
        .unwrap()
        .with_operator(StringTaggedOperator::new("PLUS", "+", 1, 1), "root")
        .unwrap();
    assert_eq!(graph.element_count(), 3);
    assert_eq!(graph.context_count(), 2);
    assert_eq!(graph.root(), &root());
    assert_eq!(
        graph.element_for("BAR"),
        Some(EncloserOrOperator::SymmetricEncloser(
            StringTaggedSymmetricEncloser::new("BAR", "|")
        ))
    );
    assert_eq!(
        graph.element_for("PLUS"),
        Some(EncloserOrOperator::Operator(StringTaggedOperator::new(
            "PLUS", "+", 1, 1
        )))
    );
    assert_eq!(graph.element_for("MINUS"), None);
    assert_eq!(
        graph.context_for("BAR"),
        Some(&SyntaxContext::new("inside", &["BAR"], None, &[]))
    );
    assert_eq!(graph.context_for("LIST"), Some(&root()));
    assert_eq!(graph.context_for("MINUS"), None);
}

#[test]
fn registering_a_tag_twice_fails() {
    let graph = SyntaxGraph::new(root())
        .with_encloser(StringTaggedEncloser::new("LIST", "(", ")"), "root")
        .unwrap();
    assert_eq!(
        graph
            .with_operator(StringTaggedOperator::new("LIST", "+", 1, 1), "root")
            .err(),
        Some(GraphError::DuplicateTag("LIST".to_string()))
    );
    assert_eq!(
        StringTaggedSyntaxGraph::contextless_from_descriptions(
            vec![' '],
            None,
            vec![("A", "(", ")"), ("B", "[", "]")],
            vec![("A", "+", 1, 1)],
        )
        .err(),
        Some(GraphError::DuplicateTag("A".to_string()))
    );
}

#[test]
fn binding_to_an_undeclared_context_fails() {
    assert_eq!(
        SyntaxGraph::new(root())
            .with_encloser(StringTaggedEncloser::new("LIST", "(", ")"), "elsewhere")
            .err(),
        Some(GraphError::UndeclaredContext("elsewhere".to_string()))
    );
    assert_eq!(
        StringTaggedSyntaxGraph::from_descriptions(
            "root",
            vec![("root", vec!["A"], None, vec![' '])],
            vec![("A", "(", ")", "nowhere")],
            vec![],
        )
        .err(),
        Some(GraphError::UndeclaredContext("nowhere".to_string()))
    );
    assert_eq!(
        StringTaggedSyntaxGraph::from_descriptions(
            "start",
            vec![("root", vec!["A"], None, vec![' '])],
            vec![],
            vec![],
        )
        .err(),
        Some(GraphError::UndeclaredContext("start".to_string()))
    );
}

#[test]
fn declaring_a_context_twice_fails() {
    assert_eq!(
        SyntaxGraph::new(root()).with_context(root()).err(),
        Some(GraphError::DuplicateContext("root".to_string()))
    );
    assert_eq!(
        StringTaggedSyntaxGraph::from_descriptions(
            "root",
            vec![
                ("root", vec![], None, vec![]),
                ("other", vec![], None, vec![]),
                ("other", vec![], None, vec![])
            ],
            vec![],
            vec![],
        )
        .err(),
        Some(GraphError::DuplicateContext("other".to_string()))
    );
}

#[test]
fn malformed_elements_are_refused() {
    let malformed = |tag: &str| Some(GraphError::MalformedElement(tag.to_string()));
    assert_eq!(
        SyntaxGraph::new(root())
            .with_encloser(StringTaggedEncloser::new("E", "", ")"), "root")
            .err(),
        malformed("E")
    );
    assert_eq!(
        SyntaxGraph::new(root())
            .with_encloser(StringTaggedEncloser::new("E", "(", ""), "root")
            .err(),
        malformed("E")
    );
    assert_eq!(
        SyntaxGraph::new(root())
            .with_encloser(StringTaggedEncloser::new("E", "|", "|"), "root")
            .err(),
        malformed("E")
    );
    assert_eq!(
        SyntaxGraph::new(root())
            .with_symmetric_encloser(StringTaggedSymmetricEncloser::new("S", ""), "root")
            .err(),
        malformed("S")
    );
    assert_eq!(
        SyntaxGraph::new(root())
            .with_operator(StringTaggedOperator::new("O", "+", 0, 0), "root")
            .err(),
        malformed("O")
    );
    assert_eq!(
        SyntaxGraph::new(root())
            .with_operator(StringTaggedOperator::new("O", "", 1, 1), "root")
            .err(),
        malformed("O")
    );
    assert_eq!(
        SyntaxGraph::new(root())
            .with_operator(StringTaggedOperator::new("O", "+", usize::MAX, 1), "root")
            .err(),
        malformed("O")
    );
    // A malformed element is refused before its tag or its context is looked at.
    assert_eq!(
        SyntaxGraph::new(root())
            .with_encloser(StringTaggedEncloser::new("LIST", "(", ")"), "root")
            .unwrap()
            .with_encloser(StringTaggedEncloser::new("LIST", "", ""), "elsewhere")
            .err(),
        malformed("LIST")
    );
}

#[test]
fn descriptions_with_equal_tokens_are_symmetric_enclosers() {
    let graph = StringTaggedSyntaxGraph::contextless_from_descriptions(
        vec![' '],
        None,
        vec![("LIST", "(", ")"), ("BAR", "|", "|")],
        vec![("PLUS", "+", 1, 1)],
    )
    .unwrap();
    assert_eq!(graph.element_count(), 3);
    assert_eq!(graph.context_count(), 1);
    assert_eq!(
        graph.element_for("BAR"),
        Some(EncloserOrOperator::SymmetricEncloser(
            StringTaggedSymmetricEncloser::new("BAR", "|")
        ))
    );
    assert_eq!(
        graph.element_for("LIST"),
        Some(EncloserOrOperator::Encloser(StringTaggedEncloser::new(
            "LIST", "(", ")"
        )))
    );
    assert_eq!(graph.root().name(), "".to_string());
    assert!(graph.root().permits(&['P', 'L', 'U', 'S']));
    assert!(graph.root().permits(&['B', 'A', 'R']));
    assert!(graph.root().is_whitespace(' '));
    assert_eq!(graph.root().escape(), None);
}

#[test]
fn described_root_need_not_come_first() {
    let graph = StringTaggedSyntaxGraph::from_descriptions(
        "top",
        vec![
            ("string", vec![], Some('\\'), vec![]),
            ("top", vec!["STRING"], None, vec![' ']),
        ],
        vec![("STRING", "\"", "\"", "string")],
        vec![],
    )
    .unwrap();
    assert_eq!(graph.root().name(), "top".to_string());
    assert_eq!(graph.context_count(), 2);
    assert_eq!(
        graph.context_for("STRING").map(|context| context.name()),
        Some("string".to_string())
    );
}
