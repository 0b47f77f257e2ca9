use sse::ast::{DocumentSyntaxTree, RawSexp};
use sse::parse::{is_whitespace, Delimiter, Grammar, ParserState, Prefix, Sexp};
use sse::str_tagged::{StringTaggedEncloser, StringTaggedOperator, StringTaggedSymmetricEncloser};
use sse::syntax::EncloserOrOperator;
use sse::text::{chars_of, matches_at, same_chars, string_of};

fn chars(s: &str) -> Vec<char> {
    s.chars().collect()
}

#[test]
fn strings_and_character_vectors_convert_both_ways() {
    assert_eq!(chars_of("a(β)"), vec!['a', '(', 'β', ')']);
    assert_eq!(chars_of(""), Vec::<char>::new());
    let text = chars("hello world");
    assert_eq!(string_of(&text, 6, 11), "world");
    assert_eq!(string_of(&text, 0, 5), "hello");
    assert_eq!(string_of(&text, 3, 3), "");
    assert_eq!(string_of(&text, 0, 11), "hello world");
}

#[test]
fn a_token_matches_only_where_it_stands_whole() {
    let text = chars("ab#(c");
    assert!(matches_at(&text, 2, &chars("#(")));
    assert!(matches_at(&text, 0, &chars("ab")));
    assert!(!matches_at(&text, 1, &chars("ab")));
    assert!(!matches_at(&text, 4, &chars("c)")));
    assert!(matches_at(&text, 4, &chars("c")));
    assert!(matches_at(&text, 5, &chars("")));
    assert!(!matches_at(&text, 6, &chars("")));
    assert!(!matches_at(&text, usize::MAX, &chars("a")));
    assert!(same_chars(&chars("abc"), &chars("abc")));
    assert!(!same_chars(&chars("abc"), &chars("abd")));
    assert!(!same_chars(&chars("abc"), &chars("ab")));
    assert!(same_chars(&chars(""), &chars("")));
}

fn paren<'s>() -> EncloserOrOperator<'s> {
    EncloserOrOperator::Encloser(StringTaggedEncloser::new("", "(", ")"))
}

fn sample_tree<'s>() -> DocumentSyntaxTree<'s> {
    let plus = EncloserOrOperator::Operator(StringTaggedOperator::new("PLUS", "+", 1, 1));
    let bar = EncloserOrOperator::SymmetricEncloser(StringTaggedSymmetricEncloser::new("BAR", "|"));
    DocumentSyntaxTree::Inner(
        (0..11, paren()),
        vec![
            DocumentSyntaxTree::Inner(
                (1..4, plus),
                vec![
                    DocumentSyntaxTree::Leaf(1..2, "a".to_string()),
                    DocumentSyntaxTree::Leaf(3..4, "b".to_string()),
                ],
            ),
            DocumentSyntaxTree::Inner((5..7, bar), vec![]),
            DocumentSyntaxTree::Inner((8..10, paren()), vec![]),
        ],
    )
}

#[test]
fn a_tree_reduces_to_its_tags_and_tokens() {
    let expected = RawSexp::inner(vec![
        RawSexp::inner(vec![
            RawSexp::leaf("PLUS".to_string()),
            RawSexp::leaf("a".to_string()),
            RawSexp::leaf("b".to_string()),
        ]),
        RawSexp::inner(vec![RawSexp::leaf("BAR".to_string())]),
        RawSexp::inner(vec![]),
    ]);
    assert_eq!(RawSexp::of_tree(&sample_tree()), expected);
    assert_eq!(RawSexp::from(sample_tree()), expected);
    assert_eq!(
        RawSexp::of_tree(&DocumentSyntaxTree::Leaf(4..7, "xyz".to_string())),
        RawSexp::leaf("xyz".to_string())
    );
    assert_eq!(
        RawSexp::leaf("a".to_string()),
        RawSexp::Leaf("a".to_string())
    );
    assert_eq!(
        RawSexp::inner(vec![RawSexp::leaf("a".to_string())]),
        RawSexp::Inner(vec![RawSexp::Leaf("a".to_string())])
    );
}

#[test]
fn copies_are_equal_to_what_they_were_made_of() {
    let tree = sample_tree();
    assert_eq!(tree.duplicate(), tree);
    assert_eq!(tree.clone(), sample_tree());
    let raw = RawSexp::of_tree(&tree);
    assert_eq!(raw.duplicate(), raw);
    assert_eq!(raw.clone(), raw);
    let sexp = Sexp::List(vec![
        Sexp::Leaf("a".to_string()),
        Sexp::List(vec![Sexp::Leaf("b".to_string())]),
    ]);
    assert_eq!(sexp.duplicate(), sexp);
    assert_eq!(sexp.clone(), sexp);
}

#[test]
fn a_span_encloses_the_ranges_inside_it() {
    let tree = sample_tree();
    assert_eq!(tree.start(), 0);
    assert_eq!(tree.end(), 11);
    let leaf = DocumentSyntaxTree::Leaf(4..7, "xyz".to_string());
    assert_eq!(leaf.start(), 4);
    assert_eq!(leaf.end(), 7);
    assert!(leaf.encloses(&(4..7)));
    assert!(leaf.encloses(&(5..5)));
    assert!(leaf.encloses(&(4..4)));
    assert!(leaf.encloses(&(7..7)));
    assert!(!leaf.encloses(&(3..5)));
    assert!(!leaf.encloses(&(6..8)));
    assert!(!leaf.encloses(&(0..11)));
    assert!(tree.encloses(&(0..11)));
    assert!(!tree.encloses(&(0..12)));
}

#[test]
fn state_gathers_lists_and_closes_markers_with_them() {
    let mut state = ParserState::new();
    assert_eq!(state.depth(), 0);
    assert_eq!(state.get_open_list(), None);
    state.open_list(0, vec!['['], vec![']'], &Some("T".to_string()));
    state.insert_token("b".to_string());
    state.open_prefix(3, &"quote".to_string());
    assert_eq!(state.depth(), 2);
    assert_eq!(state.get_open_list(), Some((vec!['['], vec![']'])));
    state.open_list(4, vec!['('], vec![')'], &None);
    state.insert_token("c".to_string());
    assert_eq!(state.depth(), 3);
    assert_eq!(state.get_open_list(), Some((vec!['('], vec![')'])));
    // Closing the inner list closes the marker before it as well.
    assert_eq!(state.close_list(), Some(vec![')']));
    assert_eq!(state.depth(), 1);
    state.open_prefix(8, &"unquote".to_string());
    state.insert_token("d".to_string());
    assert_eq!(state.close_list(), Some(vec![']']));
    assert_eq!(state.depth(), 0);
    assert_eq!(
        state.finish(),
        Sexp::List(vec![
            Sexp::Leaf("T".to_string()),
            Sexp::Leaf("b".to_string()),
            Sexp::List(vec![
                Sexp::Leaf("quote".to_string()),
                Sexp::List(vec![Sexp::Leaf("c".to_string())]),
            ]),
            Sexp::List(vec![
                Sexp::Leaf("unquote".to_string()),
                Sexp::Leaf("d".to_string()),
            ]),
        ])
    );
}

#[test]
fn state_closes_markers_and_expressions_one_by_one() {
    let mut state = ParserState::new();
    state.insert_token("a".to_string());
    state.open_prefix(1, &"p".to_string());
    state.open_prefix(2, &"q".to_string());
    state.insert_token("x".to_string());
    assert_eq!(state.depth(), 2);
    state.close_prefixes();
    assert_eq!(state.depth(), 0);
    state.open_list(5, vec!['('], vec![')'], &None);
    state.insert_token("y".to_string());
    state.close_expression();
    // The expression is wrapped up; its opening is still on the stack.
    assert_eq!(state.depth(), 1);
    let mut rest = ParserState::new();
    rest.insert_token("only".to_string());
    rest.insert_token("first".to_string());
    assert_eq!(rest.finish(), Sexp::Leaf("only".to_string()));
}

#[test]
fn separators_are_blank_tab_line_feed_and_comma() {
    for c in [' ', ',', '\t', '\n'] {
        assert!(is_whitespace(c));
    }
    for c in ['\r', 'a', '(', '"', '\\', '\u{a0}'] {
        assert!(!is_whitespace(c));
    }
}

struct Pair(&'static str, &'static str, Option<&'static str>);

impl Delimiter for Pair {
    fn delimiter_opener(&self) -> String {
        self.0.to_string()
    }

    fn delimiter_closer(&self) -> String {
        self.1.to_string()
    }

    fn delimiter_tag(&self) -> Option<String> {
        self.2.map(|tag| tag.to_string())
    }
}

struct Mark(&'static str, &'static str);

impl Prefix for Mark {
    fn prefix_string(&self) -> String {
        self.0.to_string()
    }

    fn prefix_tag(&self) -> String {
        self.1.to_string()
    }
}

#[test]
fn grammar_holds_what_delimiters_and_prefixes_give_of_themselves() {
    let grammar = Grammar::new(
        &[Pair("(", ")", None), Pair("#{", "}", Some("set"))],
        &[Mark("'", "quote")],
    );
    assert_eq!(grammar.delimiters.len(), 2);
    assert_eq!(grammar.delimiters[0].opener, vec!['(']);
    assert_eq!(grammar.delimiters[0].closer, vec![')']);
    assert_eq!(grammar.delimiters[0].tag, None);
    assert_eq!(grammar.delimiters[1].opener, vec!['#', '{']);
    assert_eq!(grammar.delimiters[1].closer, vec!['}']);
    assert_eq!(grammar.delimiters[1].tag, Some("set".to_string()));
    assert_eq!(grammar.prefixes.len(), 1);
    assert_eq!(grammar.prefixes[0].marker, vec!['\'']);
    assert_eq!(grammar.prefixes[0].tag, "quote");
    let none = Grammar::new::<Pair, Mark>(&[], &[]);
    assert!(none.delimiters.is_empty());
    assert!(none.prefixes.is_empty());
}
