use sse::ast::{DocumentSyntaxTree, RawSexp};
use sse::parser::{is_terminal, ParseError, Parser};
use sse::str_tagged::{StringTaggedOperator, StringTaggedSymmetricEncloser, StringTaggedSyntaxGraph};
use sse::syntax::EncloserOrOperator;

fn leaf(s: &str) -> RawSexp {
    RawSexp::leaf(s.to_string())
}

fn inner(items: Vec<RawSexp>) -> RawSexp {
    RawSexp::inner(items)
}

fn graph_of<'g>(
    enclosers: Vec<(&'g str, &'g str, &'g str)>,
    operators: Vec<(&'g str, &'g str, usize, usize)>,
) -> StringTaggedSyntaxGraph<'g> {
    StringTaggedSyntaxGraph::contextless_from_descriptions(
        vec![' ', '\n', '\t', '\r'],
        Some('\\'),
        enclosers,
        operators,
    )
    .unwrap()
}

fn plus_graph<'g>() -> StringTaggedSyntaxGraph<'g> {
    graph_of(vec![("", "(", ")")], vec![("PLUS", "+", 1, 1)])
}

#[test]
fn empty_and_blank_texts_hold_no_tree() {
    let graph = plus_graph();
    let mut parser = Parser::new(&graph, "");
    assert_eq!(parser.read_next(), Ok(None));
    assert_eq!(parser.position(), 0);
    let mut parser = Parser::new(&graph, " \n\t ");
    assert_eq!(parser.read_next(), Ok(None));
    assert_eq!(parser.position(), 4);
    assert_eq!(parser.read_next(), Ok(None));
    assert_eq!(Parser::new(&graph, "  ").read_all(), vec![]);
}

#[test]
fn readings_move_the_reader_behind_the_tree() {
    let graph = plus_graph();
    let mut parser = Parser::new(&graph, "ab  (c) d");
    assert_eq!(parser.position(), 0);
    assert_eq!(
        parser.read_next(),
        Ok(Some(DocumentSyntaxTree::Leaf(0..2, "ab".to_string())))
    );
    assert_eq!(parser.position(), 4);
    assert_eq!(parser.error_offset(), None);
    assert_eq!(parser.read_next_sexp(), Ok(Some(inner(vec![leaf("c")]))));
    assert_eq!(parser.position(), 8);
    assert_eq!(
        parser.read_next(),
        Ok(Some(DocumentSyntaxTree::Leaf(8..9, "d".to_string())))
    );
    assert_eq!(parser.position(), 9);
    assert_eq!(parser.read_next(), Ok(None));
    assert_eq!(parser.position(), 9);
}

#[test]
fn missing_left_argument_is_reported_at_the_operator() {
    let graph = plus_graph();
    let mut parser = Parser::new(&graph, "(a (+ 2))");
    assert_eq!(
        parser.read_next(),
        Err(ParseError::OperatorMissingLeftArgument("+".to_string()))
    );
    assert_eq!(parser.error_offset(), Some(4));
    assert_eq!(parser.position(), 5);
}

#[test]
fn missing_right_argument_is_reported_at_the_operator() {
    let graph = plus_graph();
    let mut parser = Parser::new(&graph, "(ab +  )");
    assert_eq!(
        parser.read_next(),
        Err(ParseError::OperatorMissingRightArgument("+".to_string()))
    );
    assert_eq!(parser.error_offset(), Some(4));
    assert_eq!(parser.position(), 7);
    let mut parser = Parser::new(&graph, "ab +");
    assert_eq!(
        parser.read_next(),
        Err(ParseError::OperatorMissingRightArgument("+".to_string()))
    );
    assert_eq!(parser.error_offset(), Some(3));
    assert_eq!(parser.position(), 4);
    assert_eq!(parser.read_next(), Ok(None));
}

#[test]
fn open_encloser_at_the_end_is_reported_at_its_opener() {
    let graph = plus_graph();
    let mut parser = Parser::new(&graph, "x (a (b c");
    assert_eq!(parser.read_next_sexp(), Ok(Some(leaf("x"))));
    assert_eq!(
        parser.read_next(),
        Err(ParseError::EndOfTextWithOpenEncloser("(".to_string()))
    );
    assert_eq!(parser.error_offset(), Some(5));
    assert_eq!(parser.position(), 9);
    // An open encloser is reported before an operator that lacks arguments.
    assert_eq!(
        Parser::new(&graph, "(1 +").read_next(),
        Err(ParseError::EndOfTextWithOpenEncloser("(".to_string()))
    );
}

#[test]
fn unexpected_closer_is_reported_at_its_offset() {
    let graph = graph_of(vec![("", "(", ")"), ("S", "[", "]")], vec![]);
    let mut parser = Parser::new(&graph, "(a ]");
    assert_eq!(
        parser.read_next(),
        Err(ParseError::UnexpectedCloser("]".to_string()))
    );
    assert_eq!(parser.error_offset(), Some(3));
    assert_eq!(parser.position(), 4);
    let mut parser = Parser::new(&graph, "  ) a");
    assert_eq!(
        parser.read_next(),
        Err(ParseError::UnexpectedCloser(")".to_string()))
    );
    assert_eq!(parser.error_offset(), Some(2));
    assert_eq!(parser.position(), 3);
    assert_eq!(parser.read_next_sexp(), Ok(Some(leaf("a"))));
}

#[test]
fn reading_all_goes_on_behind_argument_errors_and_ends_at_terminal_ones() {
    let graph = plus_graph();
    assert_eq!(
        Parser::new(&graph, "(+2) x").read_all_sexps(),
        vec![
            Err(ParseError::OperatorMissingLeftArgument("+".to_string())),
            Ok(leaf("2")),
            Err(ParseError::UnexpectedCloser(")".to_string())),
        ]
    );
    assert_eq!(
        Parser::new(&graph, "a + ").read_all(),
        vec![Err(ParseError::OperatorMissingRightArgument("+".to_string()))]
    );
    assert_eq!(
        Parser::new(&graph, "+ a (b").read_all_sexps(),
        vec![
            Err(ParseError::OperatorMissingLeftArgument("+".to_string())),
            Ok(leaf("a")),
            Err(ParseError::EndOfTextWithOpenEncloser("(".to_string())),
        ]
    );
    assert!(is_terminal(&ParseError::UnexpectedCloser(")".to_string())));
    assert!(is_terminal(&ParseError::EndOfTextWithOpenEncloser("(".to_string())));
    assert!(!is_terminal(&ParseError::OperatorMissingLeftArgument("+".to_string())));
    assert!(!is_terminal(&ParseError::OperatorMissingRightArgument("+".to_string())));
}

#[test]
fn top_level_tree_is_taken_by_an_operator_with_one_left_argument() {
    let graph = plus_graph();
    let mut parser = Parser::new(&graph, "1 + 2 3");
    assert_eq!(
        parser.read_next(),
        Ok(Some(DocumentSyntaxTree::Inner(
            (
                0..5,
                EncloserOrOperator::Operator(StringTaggedOperator::new("PLUS", "+", 1, 1))
            ),
            vec![
                DocumentSyntaxTree::Leaf(0..1, "1".to_string()),
                DocumentSyntaxTree::Leaf(4..5, "2".to_string()),
            ]
        )))
    );
    assert_eq!(parser.position(), 6);
    assert_eq!(parser.read_next_sexp(), Ok(Some(leaf("3"))));
    assert_eq!(
        Parser::new(&graph, "(a)+(b) +c").read_all_sexps(),
        vec![Ok(inner(vec![
            leaf("PLUS"),
            inner(vec![
                leaf("PLUS"),
                inner(vec![leaf("a")]),
                inner(vec![leaf("b")])
            ]),
            leaf("c")
        ]))]
    );
}

#[test]
fn operators_take_exactly_their_arguments() {
    let graph = graph_of(
        vec![("", "(", ")")],
        vec![("PAIR", "&", 2, 1), ("BANG", "!", 1, 0), ("NEG", "-", 0, 1)],
    );
    assert_eq!(
        Parser::new(&graph, "(a b & c d)").read_next_sexp(),
        Ok(Some(inner(vec![
            inner(vec![leaf("PAIR"), leaf("a"), leaf("b"), leaf("c")]),
            leaf("d")
        ])))
    );
    assert_eq!(
        Parser::new(&graph, "(a & b)").read_next_sexp(),
        Err(ParseError::OperatorMissingLeftArgument("&".to_string()))
    );
    assert_eq!(
        Parser::new(&graph, "(x a! -b)").read_next(),
        Ok(Some(DocumentSyntaxTree::Inner(
            (
                0..9,
                EncloserOrOperator::Encloser(sse::str_tagged::StringTaggedEncloser::new("", "(", ")"))
            ),
            vec![
                DocumentSyntaxTree::Leaf(1..2, "x".to_string()),
                DocumentSyntaxTree::Inner(
                    (
                        3..5,
                        EncloserOrOperator::Operator(StringTaggedOperator::new("BANG", "!", 1, 0))
                    ),
                    vec![DocumentSyntaxTree::Leaf(3..4, "a".to_string())]
                ),
                DocumentSyntaxTree::Inner(
                    (
                        6..8,
                        EncloserOrOperator::Operator(StringTaggedOperator::new("NEG", "-", 0, 1))
                    ),
                    vec![DocumentSyntaxTree::Leaf(7..8, "b".to_string())]
                ),
            ]
        )))
    );
    // An operator holds its left arguments: a later operator cannot take them.
    assert_eq!(
        Parser::new(&graph, "(a b & ! c)").read_next_sexp(),
        Err(ParseError::OperatorMissingLeftArgument("!".to_string()))
    );
    // At the top level a tree is yielded before an operator that does not
    // take exactly one left argument.
    assert_eq!(
        Parser::new(&graph, "a b & c").read_all_sexps(),
        vec![
            Ok(leaf("a")),
            Ok(leaf("b")),
            Err(ParseError::OperatorMissingLeftArgument("&".to_string())),
            Ok(leaf("c")),
        ]
    );
    assert_eq!(
        Parser::new(&graph, "a -b c!").read_all_sexps(),
        vec![
            Ok(leaf("a")),
            Ok(inner(vec![leaf("NEG"), leaf("b")])),
            Ok(inner(vec![leaf("BANG"), leaf("c")])),
        ]
    );
    // A closed operator is an argument of the operator around it.
    assert_eq!(
        Parser::new(&graph, "--a!").read_all_sexps(),
        vec![Ok(inner(vec![
            leaf("BANG"),
            inner(vec![leaf("NEG"), inner(vec![leaf("NEG"), leaf("a")])])
        ]))]
    );
}

#[test]
fn longest_opening_token_wins_and_then_the_latest() {
    let graph = graph_of(
        vec![("LONG", "<<", ">>"), ("SHORT", "<", ">"), ("LATE", "<", "]")],
        vec![],
    );
    assert_eq!(
        Parser::new(&graph, "<<a>>").read_next_sexp(),
        Ok(Some(inner(vec![leaf("LONG"), leaf("a")])))
    );
    assert_eq!(
        Parser::new(&graph, "<a]").read_next_sexp(),
        Ok(Some(inner(vec![leaf("LATE"), leaf("a")])))
    );
    assert_eq!(
        Parser::new(&graph, "<a>").read_next_sexp(),
        Err(ParseError::UnexpectedCloser(">".to_string()))
    );
    assert_eq!(
        Parser::new(&graph, "<a>>").read_next_sexp(),
        Err(ParseError::UnexpectedCloser(">>".to_string()))
    );
}

#[test]
fn symmetric_token_opens_below_an_operator_and_closes_its_own_scope() {
    let graph = graph_of(vec![("", "(", ")"), ("BAR", "|", "|")], vec![("PLUS", "+", 1, 1)]);
    assert_eq!(
        Parser::new(&graph, "|1+|a||").read_next(),
        Ok(Some(DocumentSyntaxTree::Inner(
            (
                0..7,
                EncloserOrOperator::SymmetricEncloser(StringTaggedSymmetricEncloser::new("BAR", "|"))
            ),
            vec![DocumentSyntaxTree::Inner(
                (
                    1..6,
                    EncloserOrOperator::Operator(StringTaggedOperator::new("PLUS", "+", 1, 1))
                ),
                vec![
                    DocumentSyntaxTree::Leaf(1..2, "1".to_string()),
                    DocumentSyntaxTree::Inner(
                        (
                            3..6,
                            EncloserOrOperator::SymmetricEncloser(
                                StringTaggedSymmetricEncloser::new("BAR", "|")
                            )
                        ),
                        vec![DocumentSyntaxTree::Leaf(4..5, "a".to_string())]
                    ),
                ]
            )]
        )))
    );
    assert_eq!(
        Parser::new(&graph, "|a|").read_next_sexp(),
        Ok(Some(inner(vec![leaf("BAR"), leaf("a")])))
    );
    assert_eq!(
        Parser::new(&graph, "|a").read_next_sexp(),
        Err(ParseError::EndOfTextWithOpenEncloser("|".to_string()))
    );
}

#[test]
fn escape_character_takes_the_next_character_into_the_leaf() {
    let graph = plus_graph();
    assert_eq!(
        Parser::new(&graph, "a\\ b c").read_all(),
        vec![
            Ok(DocumentSyntaxTree::Leaf(0..4, "a\\ b".to_string())),
            Ok(DocumentSyntaxTree::Leaf(5..6, "c".to_string())),
        ]
    );
    assert_eq!(
        Parser::new(&graph, "(a\\").read_next_sexp(),
        Err(ParseError::EndOfTextWithOpenEncloser("(".to_string()))
    );
    assert_eq!(
        Parser::new(&graph, "a\\").read_next(),
        Ok(Some(DocumentSyntaxTree::Leaf(0..2, "a\\".to_string())))
    );
}

#[test]
fn a_tag_opens_only_where_the_context_permits_it() {
    let graph = StringTaggedSyntaxGraph::from_descriptions(
        "root",
        vec![
            ("root", vec!["LIST", "QUOTED"], None, vec![' ']),
            ("quoted", vec![], None, vec![]),
        ],
        vec![("LIST", "(", ")", "root"), ("QUOTED", "<", ">", "quoted")],
        vec![("PLUS", "+", 1, 1, "root")],
    )
    .unwrap();
    assert_eq!(
        Parser::new(&graph, "(a+b <( )+ > )").read_next_sexp(),
        Ok(Some(inner(vec![
            leaf("LIST"),
            leaf("a+b"),
            inner(vec![leaf("QUOTED"), leaf("( )+ ")]),
        ])))
    );
}

#[test]
fn an_error_names_the_token_at_its_offset() {
    let graph = graph_of(
        vec![("", "(", ")"), ("SET", "#{", "}"), ("BAR", "|", "|")],
        vec![("PLUS", "+", 1, 1), ("ARROW", "->", 2, 1)],
    );
    let texts = [
        "(a #{b",
        "(a b}",
        "a )",
        "(a (-> b))",
        "(a b -> )",
        "a +",
        "(|a +|)",
        "#{ + 1 }",
        "(a |b (c",
        "x -> y",
    ];
    for text in texts {
        let mut parser = Parser::new(&graph, text);
        let mut failures = 0;
        loop {
            let before = parser.position();
            match parser.read_next() {
                Ok(None) => break,
                Ok(Some(_)) => assert_eq!(parser.error_offset(), None),
                Err(error) => {
                    failures += 1;
                    let token = match &error {
                        ParseError::UnexpectedCloser(token)
                        | ParseError::EndOfTextWithOpenEncloser(token)
                        | ParseError::OperatorMissingLeftArgument(token)
                        | ParseError::OperatorMissingRightArgument(token) => token.clone(),
                    };
                    let offset = parser.error_offset().unwrap();
                    assert_eq!(&text[offset..offset + token.len()], token);
                    if is_terminal(&error) {
                        break;
                    }
                }
            }
            assert!(before < parser.position());
        }
        assert!(failures > 0);
    }
}

fn check_tree(text: &str, tree: &DocumentSyntaxTree) {
    match tree {
        DocumentSyntaxTree::Leaf(span, leaf_text) => {
            assert!(span.start <= span.end && span.end <= text.len());
            assert_eq!(&text[span.start..span.end], leaf_text);
        }
        DocumentSyntaxTree::Inner((span, element), children) => {
            assert!(span.start <= span.end && span.end <= text.len());
            if let EncloserOrOperator::Operator(operator) = element {
                assert_eq!(children.len(), operator.left_args() + operator.right_args());
            }
            let mut behind = span.start;
            for child in children {
                assert!(behind <= child.start());
                assert!(child.start() <= child.end());
                assert!(child.end() <= span.end);
                behind = child.end();
                check_tree(text, child);
            }
        }
    }
}

#[test]
fn trees_are_nested_in_order_and_hold_the_text_of_their_spans() {
    let graph = graph_of(
        vec![("", "(", ")"), ("SET", "#{", "}"), ("BAR", "|", "|")],
        vec![("PLUS", "+", 1, 1), ("NEG", "-", 0, 1), ("BANG", "!", 1, 0), ("PAIR", "&", 2, 1)],
    );
    let texts = [
        "(1+2+3)",
        "a + b  c! -d",
        "(a b & c | x + y | #{ -1 2! })",
        "  ( (()) ( ) )  ",
        "|a |(b)| c|",
        "(a\\ b -(c)!)",
    ];
    for text in texts {
        let results = Parser::new(&graph, text).read_all();
        assert!(!results.is_empty());
        let mut behind = 0;
        for result in results {
            let tree = result.unwrap();
            assert!(behind <= tree.start());
            behind = tree.end();
            check_tree(text, &tree);
        }
    }
}
