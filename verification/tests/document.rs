use sse::ast::{DocumentSyntaxTree, RawSexp};
use sse::document::Document;
use sse::parser::{ParseError, Parser};
use sse::str_tagged::StringTaggedSyntaxGraph;

fn sexp_graph<'g>() -> StringTaggedSyntaxGraph<'g> {
    StringTaggedSyntaxGraph::contextless_from_descriptions(
        vec![' ', '\n', '\t', '\r'],
        Some('\\'),
        vec![("", "(", ")")],
        vec![],
    )
    .unwrap()
}

fn plus_sexp_graph<'g>() -> StringTaggedSyntaxGraph<'g> {
    StringTaggedSyntaxGraph::contextless_from_descriptions(
        vec![' ', '\n', '\t', '\r'],
        Some('\\'),
        vec![("", "(", ")")],
        vec![("PLUS", "+", 1, 1)],
    )
    .unwrap()
}

#[test]
fn sexp_document_subtree() {
    let graph = sexp_graph();
    let doc: Document = Parser::new(&graph, "(* (+ 1 2) 3)").try_into().unwrap();
    assert_eq!(
        doc.get_subtree(&[0]).unwrap().clone(),
        Parser::new(&graph, "(* (+ 1 2) 3)")
            .read_next()
            .unwrap()
            .unwrap()
    );
    assert_eq!(
        RawSexp::from(doc.get_subtree(&[0, 0]).unwrap().clone()),
        Parser::new(&graph, "*")
            .read_next_sexp()
            .unwrap()
            .unwrap()
    );
    assert_eq!(
        RawSexp::from(doc.get_subtree(&[0, 1]).unwrap().clone()),
        Parser::new(&graph, "(+ 1 2)")
            .read_next_sexp()
            .unwrap()
            .unwrap()
    );
}

#[test]
fn infix_sexp_document_subtree() {
    let graph = plus_sexp_graph();
    let doc: Document = Parser::new(&graph, "(inc 1 + 2)").try_into().unwrap();
    assert_eq!(
        RawSexp::from(doc.get_subtree(&[0, 0]).unwrap().clone()),
        Parser::new(&graph, "inc")
            .read_next_sexp()
            .unwrap()
            .unwrap()
    );
    assert_eq!(
        RawSexp::from(doc.get_subtree(&[0, 1]).unwrap().clone()),
        Parser::new(&graph, "1 + 2")
            .read_next_sexp()
            .unwrap()
            .unwrap()
    );
    assert_eq!(
        RawSexp::from(doc.get_subtree(&[0, 1, 0]).unwrap().clone()),
        Parser::new(&graph, "1")
            .read_next_sexp()
            .unwrap()
            .unwrap()
    );
    assert_eq!(
        RawSexp::from(doc.get_subtree(&[0, 1, 1]).unwrap().clone()),
        Parser::new(&graph, "2")
            .read_next_sexp()
            .unwrap()
            .unwrap()
    );
}

#[test]
fn sexp_document_enclosing_paths() {
    let graph = sexp_graph();
    let doc: Document = Parser::new(&graph, "(* (+ 1 2) 3)").try_into().unwrap();
    assert_eq!(doc.innermost_enclosing_path(&(0..0)), vec![0]);
    assert_eq!(doc.innermost_enclosing_path(&(1..1)), vec![0, 0]);
    assert_eq!(doc.innermost_enclosing_path(&(2..2)), vec![0, 0]);
    assert_eq!(doc.innermost_enclosing_path(&(3..3)), vec![0, 1]);
    assert_eq!(doc.innermost_enclosing_path(&(4..4)), vec![0, 1, 0]);
    assert_eq!(doc.innermost_enclosing_path(&(5..5)), vec![0, 1, 0]);
    assert_eq!(doc.innermost_enclosing_path(&(6..6)), vec![0, 1, 1]);
    assert_eq!(doc.innermost_enclosing_path(&(4..6)), vec![0, 1]);
    assert_eq!(doc.innermost_enclosing_path(&(5..6)), vec![0, 1]);
    assert_eq!(doc.innermost_enclosing_path(&(0..2)), vec![0]);
    assert_eq!(doc.innermost_enclosing_path(&(100..200)), vec![]);
}

#[test]
fn document_subtree_misses() {
    let graph = sexp_graph();
    let doc = Document::from_parser(Parser::new(&graph, "(a (b)) c")).unwrap();
    assert_eq!(doc.trees().len(), 2);
    assert!(doc.get_subtree(&[]).is_none());
    assert!(doc.get_subtree(&[2]).is_none());
    assert!(doc.get_subtree(&[0, 0, 0]).is_none());
    assert!(doc.get_subtree(&[0, 2]).is_none());
    assert_eq!(
        doc.get_subtree(&[1]),
        Some(&DocumentSyntaxTree::Leaf(8..9, "c".to_string()))
    );
    assert_eq!(
        doc.get_subtree(&[0, 1, 0]),
        Some(&DocumentSyntaxTree::Leaf(4..5, "b".to_string()))
    );
}

#[test]
fn document_of_a_failing_text_is_the_first_error() {
    let graph = sexp_graph();
    assert_eq!(
        Document::from_parser(Parser::new(&graph, "(a) (b")).err(),
        Some(ParseError::EndOfTextWithOpenEncloser("(".to_string()))
    );
    assert_eq!(
        Document::from_parser(Parser::new(&graph, "a ) b")).err(),
        Some(ParseError::UnexpectedCloser(")".to_string()))
    );
}

#[test]
fn document_from_given_trees() {
    let doc = Document::from(vec![
        DocumentSyntaxTree::Leaf(0..3, "abc".to_string()),
        DocumentSyntaxTree::Leaf(4..5, "d".to_string()),
    ]);
    assert_eq!(doc.innermost_enclosing_path(&(4..5)), vec![1]);
    assert_eq!(doc.innermost_enclosing_path(&(3..4)), Vec::<usize>::new());
    assert_eq!(doc.innermost_enclosing_path(&(1..2)), vec![0]);
}

#[test]
fn the_enclosing_path_leads_to_the_innermost_node_around_the_range() {
    let graph = sexp_graph();
    let text = "(* (+ 1 2) 3) (a)";
    let doc: Document = Parser::new(&graph, text).try_into().unwrap();
    for start in 0..=text.len() + 1 {
        for end in start..=text.len() + 1 {
            let range = start..end;
            let path = doc.innermost_enclosing_path(&range);
            match doc.get_subtree(&path) {
                Some(node) => {
                    assert!(node.encloses(&range));
                    if let DocumentSyntaxTree::Inner(_, children) = node {
                        assert!(children.iter().all(|child| !child.encloses(&range)));
                    }
                }
                None => {
                    assert!(path.is_empty());
                    assert!(doc.trees().iter().all(|tree| !tree.encloses(&range)));
                }
            }
        }
    }
    assert_eq!(doc.innermost_enclosing_path(&(6..7)), vec![0, 1, 1]);
    assert_eq!(doc.innermost_enclosing_path(&(3..10)), vec![0, 1]);
    assert_eq!(doc.innermost_enclosing_path(&(2..10)), vec![0]);
    assert_eq!(doc.innermost_enclosing_path(&(15..16)), vec![1, 0]);
    assert_eq!(doc.innermost_enclosing_path(&(12..15)), Vec::<usize>::new());
    assert_eq!(doc.innermost_enclosing_path(&(17..18)), Vec::<usize>::new());
}
