use sse::parse::{
    chars_match, parse, parse_chars, read_chars, Delimiter, DelimiterChars, Grammar, ParseError,
    Prefix, PrefixChars, Sexp,
};

enum TestDelimiter {
    Parentheses,
    Brackets,
    Braces,
    HashBraces,
    HashBrackets,
}

impl Delimiter for TestDelimiter {
    fn delimiter_opener(&self) -> String {
        match self {
            TestDelimiter::Parentheses => "(".to_string(),
            TestDelimiter::Brackets => "[".to_string(),
            TestDelimiter::Braces => "{".to_string(),
            TestDelimiter::HashBrackets => "#[".to_string(),
            TestDelimiter::HashBraces => "#{".to_string(),
        }
    }

    fn delimiter_closer(&self) -> String {
        match self {
            TestDelimiter::Parentheses => ")".to_string(),
            TestDelimiter::Brackets => "]".to_string(),
            TestDelimiter::Braces => "}".to_string(),
            TestDelimiter::HashBrackets => "]".to_string(),
            TestDelimiter::HashBraces => "}".to_string(),
        }
    }

    fn delimiter_tag(&self) -> Option<String> {
        match self {
            TestDelimiter::Parentheses => None,
            TestDelimiter::Brackets => Some("#brackets".to_string()),
            TestDelimiter::Braces => Some("#braces".to_string()),
            TestDelimiter::HashBrackets => Some("#hash-brackets".to_string()),
            TestDelimiter::HashBraces => Some("#hash-braces".to_string()),
        }
    }
}

const TEST_DELIMITERS: [TestDelimiter; 5] = [
    TestDelimiter::Parentheses,
    TestDelimiter::Brackets,
    TestDelimiter::Braces,
    TestDelimiter::HashBrackets,
    TestDelimiter::HashBraces,
];

enum TestPrefix {
    Quote,
    Unquote,
}

impl Prefix for TestPrefix {
    fn prefix_string(&self) -> String {
        match self {
            TestPrefix::Quote => "'".to_string(),
            TestPrefix::Unquote => "~".to_string(),
        }
    }

    fn prefix_tag(&self) -> String {
        match self {
            TestPrefix::Quote => "quote".to_string(),
            TestPrefix::Unquote => "unquote".to_string(),
        }
    }
}

const TEST_PREFIXES: [TestPrefix; 2] = [TestPrefix::Quote, TestPrefix::Unquote];

fn leaf(s: &str) -> Sexp {
    Sexp::Leaf(s.to_string())
}

#[test]
fn test_parse() {
    let cases = vec![
        ("()", Sexp::List(vec![])),
        ("[]", Sexp::List(vec![Sexp::Leaf("#brackets".to_string())])),
        ("{}", Sexp::List(vec![Sexp::Leaf("#braces".to_string())])),
        ("hello!", Sexp::Leaf("hello!".to_string())),
        (
            "(+ 1 2)",
            Sexp::List(vec![
                Sexp::Leaf("+".to_string()),
                Sexp::Leaf("1".to_string()),
                Sexp::Leaf("2".to_string()),
            ]),
        ),
        (
            "'(+ 1 2)",
            Sexp::List(vec![
                Sexp::Leaf("quote".to_string()),
                Sexp::List(vec![
                    Sexp::Leaf("+".to_string()),
                    Sexp::Leaf("1".to_string()),
                    Sexp::Leaf("2".to_string()),
                ]),
            ]),
        ),
        (
            "~'()",
            Sexp::List(vec![
                Sexp::Leaf("unquote".to_string()),
                Sexp::List(vec![Sexp::Leaf("quote".to_string()), Sexp::List(vec![])]),
            ]),
        ),
        (
            "'a",
            Sexp::List(vec![Sexp::Leaf("quote".to_string()), Sexp::Leaf("a".to_string())]),
        ),
        (
            "''a",
            Sexp::List(vec![
                Sexp::Leaf("quote".to_string()),
                Sexp::List(vec![Sexp::Leaf("quote".to_string()), Sexp::Leaf("a".to_string())]),
            ]),
        ),
    ];
    for (str, sexp) in cases {
        match parse(&TEST_DELIMITERS, &TEST_PREFIXES, str) {
            Ok(parsed_sexp) => assert_eq!(
                sexp, parsed_sexp,
                "String {:?} was not parsed as expected.",
                str
            ),
            Err(e) => {
                assert!(false, "Failed to parse string {:?}, got error {:?}", str, e)
            }
        };
    }
}

#[test]
fn fixed_reader_empty_and_blank_text_read_as_nil() {
    assert_eq!(parse(&TEST_DELIMITERS, &TEST_PREFIXES, ""), Ok(leaf("nil")));
    assert_eq!(parse(&TEST_DELIMITERS, &TEST_PREFIXES, " \t\n,"), Ok(leaf("nil")));
    assert_eq!(parse_chars(&TEST_DELIMITERS, &TEST_PREFIXES, vec![]), Ok(leaf("nil")));
}

#[test]
fn fixed_reader_errors() {
    assert_eq!(
        parse(&TEST_DELIMITERS, &TEST_PREFIXES, ")"),
        Err(ParseError::UnmatchedCloser(")".to_string()))
    );
    assert_eq!(
        parse(&TEST_DELIMITERS, &TEST_PREFIXES, "(a]"),
        Err(ParseError::MismatchedCloser("(".to_string(), "]".to_string()))
    );
    assert_eq!(
        parse(&TEST_DELIMITERS, &TEST_PREFIXES, "(a #{b"),
        Err(ParseError::UnclosedOpener("#{".to_string()))
    );
    assert_eq!(
        parse(&TEST_DELIMITERS, &TEST_PREFIXES, "(a \"bc"),
        Err(ParseError::UnclosedString)
    );
}

#[test]
fn fixed_reader_strings_and_separators() {
    assert_eq!(
        parse(&TEST_DELIMITERS, &TEST_PREFIXES, "(a,\"b \\\" c\" d)"),
        Ok(Sexp::List(vec![leaf("a"), leaf("\"b \\\" c\""), leaf("d")]))
    );
    assert_eq!(parse(&TEST_DELIMITERS, &TEST_PREFIXES, "a b"), Ok(leaf("a")));
    assert_eq!(
        parse(&TEST_DELIMITERS, &TEST_PREFIXES, "#[x]"),
        Ok(Sexp::List(vec![leaf("#hash-brackets"), leaf("x")]))
    );
}

#[test]
fn fixed_reader_chars_match_is_prefix_test() {
    assert!(chars_match(&['a', 'b'], &['a', 'b', 'c']));
    assert!(chars_match(&[], &['a']));
    assert!(!chars_match(&['a', 'b'], &['a']));
    assert!(!chars_match(&['b'], &['a', 'b']));
}

#[test]
fn fixed_reader_written_form() {
    let sexp = Sexp::List(vec![leaf("+"), Sexp::List(vec![]), Sexp::List(vec![leaf("a"), leaf("b")])]);
    assert_eq!(sexp.to_string(), "(+ () (a b))".to_string());
    assert_eq!(leaf("x").to_string(), "x".to_string());
    assert_eq!(sexp.clone(), sexp);
}

#[test]
fn fixed_reader_grammar_given_as_characters() {
    let grammar = Grammar {
        delimiters: vec![
            DelimiterChars { opener: vec!['<'], closer: vec!['>'], tag: Some("angle".to_string()) },
            DelimiterChars { opener: vec![], closer: vec![')'], tag: None },
        ],
        prefixes: vec![
            PrefixChars { marker: vec!['@'], tag: "at".to_string() },
            PrefixChars { marker: vec![], tag: "none".to_string() },
        ],
    };
    assert_eq!(
        read_chars(&grammar, "@<a b>".chars().collect()),
        Ok(Sexp::List(vec![
            leaf("at"),
            Sexp::List(vec![leaf("angle"), leaf("a"), leaf("b")])
        ]))
    );
    assert_eq!(read_chars(&grammar, "<a".chars().collect()), Err(ParseError::UnclosedOpener("<".to_string())));
}
