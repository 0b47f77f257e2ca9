//! A reader with a fixed scanning policy: delimiter pairs, prefix markers,
//! double-quoted strings and tokens separated by blanks or commas.
//!
//! The grammar is given by two slices, one of [`Delimiter`] values and one of
//! [`Prefix`] values, or as a [`Grammar`]. [`read_chars`] reads the first
//! expression of its input; its result is stated by [`parse_result`].
use crate::text::{chars_of, matches_at, string_of};
use vstd::prelude::*;

verus! {

/// Why a text could not be read.
#[derive(Debug, PartialEq)]
pub enum ParseError {
    /// A closer was met while no list was open.
    UnmatchedCloser(String),
    /// A closer was met that is not the one of the innermost open list; the
    /// fields are that list's opener and the closer that was met.
    MismatchedCloser(String, String),
    /// The text ended inside the list with this opener.
    UnclosedOpener(String),
    /// The text ended inside a double-quoted string.
    UnclosedString,
}

/// The mathematical value of a [`ParseError`].
pub enum ParseErrorView {
    UnmatchedCloser(Seq<char>),
    MismatchedCloser(Seq<char>, Seq<char>),
    UnclosedOpener(Seq<char>),
    UnclosedString,
}

impl View for ParseError {
    type V = ParseErrorView;

    open spec fn view(&self) -> ParseErrorView {
        match self {
            ParseError::UnmatchedCloser(c) => ParseErrorView::UnmatchedCloser(c@),
            ParseError::MismatchedCloser(o, c) => ParseErrorView::MismatchedCloser(o@, c@),
            ParseError::UnclosedOpener(o) => ParseErrorView::UnclosedOpener(o@),
            ParseError::UnclosedString => ParseErrorView::UnclosedString,
        }
    }
}

/// The characters that separate tokens.
pub open spec fn separates(c: char) -> bool {
    c == ' ' || c == ',' || c == '\t' || c == '\n'
}

/// Decides [`separates`].
pub fn is_whitespace(c: char) -> (r: bool)
    ensures
        r == separates(c),
{
    c == ' ' || c == ',' || c == '\t' || c == '\n'
}

/// An expression: a token, or a list of expressions.
#[derive(PartialEq, Debug)]
pub enum Sexp {
    List(Vec<Sexp>),
    Leaf(String),
}

/// The mathematical value of a [`Sexp`].
pub enum SexpView {
    List(Seq<SexpView>),
    Leaf(Seq<char>),
}

impl View for Sexp {
    type V = SexpView;

    open spec fn view(&self) -> SexpView
        decreases self,
    {
        match self {
            Sexp::Leaf(token) => SexpView::Leaf(token@),
            Sexp::List(items) => SexpView::List(
                Seq::new(
                    items.len() as nat,
                    |i: int|
                        if 0 <= i < items.len() {
                            items[i]@
                        } else {
                            SexpView::Leaf(Seq::empty())
                        },
                ),
            ),
        }
    }
}

/// The values of a sequence of expressions.
pub open spec fn sexp_views(items: Seq<Sexp>) -> Seq<SexpView> {
    Seq::new(items.len(), |i: int| items[i]@)
}

/// The value of a list is the list of its items' values.
pub proof fn lemma_list_view(items: Vec<Sexp>)
    ensures
        Sexp::List(items)@ == SexpView::List(sexp_views(items@)),
{
    assert(Sexp::List(items)@->List_0 =~= sexp_views(items@));
}

/// The written form of an expression: a token as it is, a list as its items'
/// written forms, separated by single spaces, between parentheses.
pub open spec fn sexp_text(s: SexpView) -> Seq<char>
    decreases s, 0nat,
{
    match s {
        SexpView::Leaf(token) => token,
        SexpView::List(items) => seq!['('] + items_text(items, items.len()) + seq![')'],
    }
}

/// The written forms of the first `n` items, separated by single spaces.
pub open spec fn items_text(items: Seq<SexpView>, n: nat) -> Seq<char>
    decreases items, n,
{
    if n == 0 || n > items.len() {
        Seq::empty()
    } else if n == 1 {
        sexp_text(items[0])
    } else {
        items_text(items, (n - 1) as nat) + seq![' '] + sexp_text(items[n - 1])
    }
}

impl Clone for Sexp {
    fn clone(&self) -> (copy: Self)
        ensures
            copy@ == self@,
    {
        self.duplicate()
    }
}

impl Sexp {
    /// An expression with the same value.
    pub fn duplicate(&self) -> (copy: Sexp)
        ensures
            copy@ == self@,
        decreases self,
    {
        match self {
            Sexp::Leaf(token) => Sexp::Leaf(token.clone()),
            Sexp::List(items) => {
                let mut copies: Vec<Sexp> = Vec::new();
                let mut i: usize = 0;
                while i < items.len()
                    invariant
                        i <= items.len(),
                        self is List,
                        self->List_0 == *items,
                        sexp_views(copies@) == sexp_views(items@).take(i as int),
                    decreases items.len() - i,
                {
                    proof {
                        assert(decreases_to!(self => self->List_0));
                    }
                    let copy = items[i].duplicate();
                    let ghost before = copies@;
                    copies.push(copy);
                    assert(sexp_views(copies@) =~= sexp_views(before).push(copy@));
                    assert(sexp_views(items@).take(i + 1) =~= sexp_views(items@).take(i as int).push(
                        items@[i as int]@,
                    ));
                    i += 1;
                }
                proof {
                    assert(sexp_views(items@).take(items@.len() as int) == sexp_views(items@));
                    lemma_list_view(*items);
                    lemma_list_view(copies);
                }
                Sexp::List(copies)
            },
        }
    }

    /// The written form of the expression.
    pub fn to_string(&self) -> (text: String)
        ensures
            text@ == sexp_text(self@),
        decreases self,
    {
        match self {
            Sexp::Leaf(token) => token.clone(),
            Sexp::List(items) => {
                let mut text = String::new();
                text.push('(');
                let mut i: usize = 0;
                proof {
                    lemma_list_view(*items);
                }
                while i < items.len()
                    invariant
                        i <= items.len(),
                        self is List,
                        self->List_0 == *items,
                        text@ == seq!['('] + items_text(sexp_views(items@), i as nat),
                    decreases items.len() - i,
                {
                    if i > 0 {
                        text.push(' ');
                    }
                    proof {
                        assert(decreases_to!(self => self->List_0));
                    }
                    let item = items[i].to_string();
                    text.append(item.as_str());
                    i += 1;
                }
                text.push(')');
                text
            },
        }
    }
}

/// Whether `chars` begins with `pattern`.
pub fn chars_match(pattern: &[char], chars: &[char]) -> (r: bool)
    ensures
        r == pattern@.is_prefix_of(chars@),
{
    matches_at(chars, 0, pattern)
}

/// What opened a nested expression.
pub enum Opening {
    /// A prefix marker.
    Prefix,
    /// A delimiter pair, with its opener and its closer.
    List(Vec<char>, Vec<char>),
}

/// The mathematical value of an [`Opening`].
pub enum OpeningView {
    Prefix,
    List(Seq<char>, Seq<char>),
}

impl View for Opening {
    type V = OpeningView;

    open spec fn view(&self) -> OpeningView {
        match self {
            Opening::Prefix => OpeningView::Prefix,
            Opening::List(opener, closer) => OpeningView::List(opener@, closer@),
        }
    }
}

/// The mathematical value of a [`ParserState`]: the expressions gathered at
/// each depth, outermost first, and the openings that are not closed yet,
/// each with the offset it was met at.
pub struct StateView {
    pub expressions: Seq<Seq<SexpView>>,
    pub openings: Seq<(usize, OpeningView)>,
}

impl StateView {
    /// The state before anything was read.
    pub open spec fn initial() -> StateView {
        StateView { expressions: seq![Seq::empty()], openings: Seq::empty() }
    }

    /// The same expressions with other openings.
    pub open spec fn with_openings(self, openings: Seq<(usize, OpeningView)>) -> StateView {
        StateView { expressions: self.expressions, openings }
    }

    /// One list of expressions more than there are openings.
    pub open spec fn balanced(self) -> bool {
        self.expressions.len() == self.openings.len() + 1
    }

    /// The state after a token was added at the current depth.
    pub open spec fn insert(self, token: Seq<char>) -> StateView {
        let depth = self.openings.len() as int;
        StateView {
            expressions: self.expressions.update(
                depth,
                self.expressions[depth].push(SexpView::Leaf(token)),
            ),
            openings: self.openings,
        }
    }

    /// The state after a prefix marker with the given tag was met.
    pub open spec fn open_prefix(self, index: usize, tag: Seq<char>) -> StateView {
        StateView {
            expressions: self.expressions.push(Seq::empty()),
            openings: self.openings.push((index, OpeningView::Prefix)),
        }.insert(tag)
    }

    /// The state after the innermost list of expressions was wrapped up and
    /// added to the one around it.
    pub open spec fn close_expression(self) -> StateView {
        let n = self.expressions.len() as int;
        StateView {
            expressions: self.expressions.take(n - 2).push(
                self.expressions[n - 2].push(SexpView::List(self.expressions[n - 1])),
            ),
            openings: self.openings,
        }
    }

    /// How many of the innermost openings are prefix markers.
    pub open spec fn trailing_prefixes(self) -> nat
        decreases self.openings.len(),
    {
        if self.openings.len() > 0 && self.openings.last().1 is Prefix {
            1 + self.with_openings(self.openings.drop_last()).trailing_prefixes()
        } else {
            0
        }
    }

    /// The state after every prefix marker above the innermost open list was
    /// closed.
    pub open spec fn close_prefixes(self) -> StateView
        decreases self.openings.len(),
    {
        if self.openings.len() > 0 && self.openings.last().1 is Prefix {
            self.close_expression().with_openings(self.openings.drop_last()).close_prefixes()
        } else {
            self
        }
    }

    /// The state after a delimiter pair was opened.
    pub open spec fn open_list(
        self,
        index: usize,
        opener: Seq<char>,
        closer: Seq<char>,
        tag: Option<Seq<char>>,
    ) -> StateView {
        let pushed = StateView {
            expressions: self.expressions.push(Seq::empty()),
            openings: self.openings.push((index, OpeningView::List(opener, closer))),
        };
        match tag {
            Some(t) => pushed.insert(t),
            None => pushed,
        }
    }

    /// The state before the innermost opening is taken off in [`Self::close_list`].
    pub open spec fn before_pop(self) -> StateView {
        self.close_prefixes().close_expression()
    }

    /// The state without its innermost opening, if it has one.
    pub open spec fn popped(self) -> StateView {
        if self.openings.len() > 0 {
            self.with_openings(self.openings.drop_last())
        } else {
            self
        }
    }

    /// The closer of the list that [`Self::close_list`] closes, if one is open.
    pub open spec fn closed_closer(self) -> Option<Seq<char>> {
        let wrapped = self.before_pop();
        if wrapped.openings.len() > 0 {
            match wrapped.openings.last().1 {
                OpeningView::List(_, closer) => Some(closer),
                OpeningView::Prefix => None,
            }
        } else {
            None
        }
    }

    /// The state after the innermost open list was closed, with the prefix
    /// markers above and directly below it.
    pub open spec fn close_list(self) -> StateView {
        self.before_pop().popped().close_prefixes()
    }

    /// The states in which [`Self::close_prefixes`] only wraps up lists that exist.
    pub open spec fn can_close_prefixes(self) -> bool {
        self.expressions.len() > self.trailing_prefixes()
    }

    /// The states in which [`Self::close_list`] only wraps up lists that exist.
    pub open spec fn can_close_list(self) -> bool {
        &&& self.can_close_prefixes()
        &&& self.close_prefixes().expressions.len() >= 2
        &&& self.before_pop().popped().can_close_prefixes()
    }

    /// Opener and closer of the innermost open list.
    pub open spec fn open_list_tokens(self) -> Option<(Seq<char>, Seq<char>)>
        decreases self.openings.len(),
    {
        if self.openings.len() == 0 {
            None
        } else {
            match self.openings.last().1 {
                OpeningView::List(opener, closer) => Some((opener, closer)),
                OpeningView::Prefix => self.with_openings(
                    self.openings.drop_last(),
                ).open_list_tokens(),
            }
        }
    }

    /// The first expression of the innermost list.
    pub open spec fn finished(self) -> SexpView {
        self.expressions.last()[0]
    }
}

/// After [`StateView::close_prefixes`] the innermost opening is no prefix
/// marker, and each closed marker took one list of expressions away.
pub proof fn lemma_close_prefixes(s: StateView)
    requires
        s.can_close_prefixes(),
    ensures
        s.close_prefixes().trailing_prefixes() == 0,
        s.close_prefixes().expressions.len() == s.expressions.len() - s.trailing_prefixes(),
        s.close_prefixes().openings == s.openings.take(
            s.openings.len() - s.trailing_prefixes(),
        ),
        s.close_prefixes().open_list_tokens() == s.open_list_tokens(),
        s.trailing_prefixes() <= s.openings.len(),
    decreases s.openings.len(),
{
    if s.openings.len() > 0 && s.openings.last().1 is Prefix {
        let next = s.close_expression().with_openings(s.openings.drop_last());
        let shorter = s.with_openings(s.openings.drop_last());
        lemma_trailing_prefixes_ignores_expressions(next, shorter);
        lemma_close_prefixes(next);
        lemma_open_list_ignores_expressions(next, shorter);
        assert(next.close_prefixes().openings == s.openings.take(
            s.openings.len() - s.trailing_prefixes(),
        ));
    } else {
        assert(s.openings.take(s.openings.len() as int) == s.openings);
    }
}

/// [`StateView::trailing_prefixes`] depends on the openings alone.
pub proof fn lemma_trailing_prefixes_ignores_expressions(a: StateView, b: StateView)
    requires
        a.openings == b.openings,
    ensures
        a.trailing_prefixes() == b.trailing_prefixes(),
    decreases a.openings.len(),
{
    if a.openings.len() > 0 && a.openings.last().1 is Prefix {
        lemma_trailing_prefixes_ignores_expressions(
            a.with_openings(a.openings.drop_last()),
            b.with_openings(b.openings.drop_last()),
        );
    }
}

/// [`StateView::open_list_tokens`] depends on the openings alone.
pub proof fn lemma_open_list_ignores_expressions(a: StateView, b: StateView)
    requires
        a.openings == b.openings,
    ensures
        a.open_list_tokens() == b.open_list_tokens(),
    decreases a.openings.len(),
{
    if a.openings.len() > 0 && a.openings.last().1 is Prefix {
        lemma_open_list_ignores_expressions(
            a.with_openings(a.openings.drop_last()),
            b.with_openings(b.openings.drop_last()),
        );
    }
}

/// The expressions gathered so far and the openings that are not closed yet.
pub struct ParserState {
    expression_stack: Vec<Vec<Sexp>>,
    opening_stack: Vec<(usize, Opening)>,
}

impl View for ParserState {
    type V = StateView;

    closed spec fn view(&self) -> StateView {
        StateView {
            expressions: Seq::new(
                self.expression_stack@.len(),
                |i: int| sexp_views(self.expression_stack@[i]@),
            ),
            openings: Seq::new(
                self.opening_stack@.len(),
                |i: int| (self.opening_stack@[i].0, self.opening_stack@[i].1@),
            ),
        }
    }
}

fn copy_chars(chars: &Vec<char>) -> (copy: Vec<char>)
    ensures
        copy@ == chars@,
{
    let mut copy: Vec<char> = Vec::new();
    let mut i: usize = 0;
    while i < chars.len()
        invariant
            i <= chars.len(),
            copy@ == chars@.take(i as int),
        decreases chars.len() - i,
    {
        copy.push(chars[i]);
        i += 1;
    }
    assert(chars@.take(chars@.len() as int) == chars@);
    copy
}

impl ParserState {
    /// A state with one empty list of expressions and no opening.
    pub fn new() -> (state: ParserState)
        ensures
            state@ == StateView::initial(),
    {
        let mut expression_stack: Vec<Vec<Sexp>> = Vec::new();
        expression_stack.push(Vec::new());
        let state = ParserState { expression_stack, opening_stack: Vec::new() };
        assert(state@.expressions =~~= StateView::initial().expressions);
        assert(state@.openings =~= StateView::initial().openings);
        state
    }

    fn peek_opening(&self) -> (top: Option<&Opening>)
        ensures
            self@.openings.len() == 0 ==> top is None,
            self@.openings.len() > 0 ==> top is Some && top.unwrap()@ == self@.openings.last().1,
    {
        match self.opening_stack.last() {
            Some(entry) => Some(&entry.1),
            None => None,
        }
    }

    /// How many openings are not closed yet.
    pub fn depth(&self) -> (n: usize)
        ensures
            n == self@.openings.len(),
    {
        self.opening_stack.len()
    }

    /// Adds a token to the list of expressions at the current depth.
    pub fn insert_token(&mut self, token: String)
        requires
            old(self)@.openings.len() < old(self)@.expressions.len(),
        ensures
            final(self)@ == old(self)@.insert(token@),
    {
        let depth = self.opening_stack.len();
        self.expression_stack[depth].push(Sexp::Leaf(token));
        assert(self@.expressions =~= old(self)@.insert(token@).expressions) by {
            assert(self.expression_stack@[depth as int]@ == old(self).expression_stack@[depth as int]@.push(
                Sexp::Leaf(token),
            ));
            assert(sexp_views(self.expression_stack@[depth as int]@) =~= sexp_views(
                old(self).expression_stack@[depth as int]@,
            ).push(SexpView::Leaf(token@)));
        }
        assert(self@.openings =~= old(self)@.openings);
    }

    /// Opens a nested expression for a prefix marker met at `char_index`; the
    /// expression starts with the marker's tag.
    pub fn open_prefix(&mut self, char_index: usize, tag: &String)
        requires
            old(self)@.openings.len() < old(self)@.expressions.len(),
        ensures
            final(self)@ == old(self)@.open_prefix(char_index, tag@),
    {
        self.expression_stack.push(Vec::new());
        self.opening_stack.push((char_index, Opening::Prefix));
        proof {
            let pushed = StateView {
                expressions: old(self)@.expressions.push(Seq::empty()),
                openings: old(self)@.openings.push((char_index, OpeningView::Prefix)),
            };
            assert(self@.expressions =~~= pushed.expressions);
            assert(self@.openings =~= pushed.openings);
        }
        self.insert_token(tag.clone());
    }

    /// Wraps up the innermost list of expressions and adds it, as one list
    /// expression, to the list around it.
    pub fn close_expression(&mut self)
        requires
            old(self)@.expressions.len() >= 2,
        ensures
            final(self)@ == old(self)@.close_expression(),
    {
        let top_expression = self.expression_stack.pop().unwrap();
        let expression_count = self.expression_stack.len();
        proof {
            lemma_list_view(top_expression);
        }
        self.expression_stack[expression_count - 1].push(Sexp::List(top_expression));
        proof {
            let n = old(self)@.expressions.len() as int;
            assert(self.expression_stack@[n - 2]@ == old(self).expression_stack@[n - 2]@.push(
                Sexp::List(top_expression),
            ));
            assert(sexp_views(self.expression_stack@[n - 2]@) =~= sexp_views(
                old(self).expression_stack@[n - 2]@,
            ).push(SexpView::List(sexp_views(top_expression@))));
            assert(self@.expressions =~= old(self)@.close_expression().expressions);
            assert(self@.openings =~= old(self)@.openings);
        }
    }

    /// Closes every prefix marker above the innermost open list.
    pub fn close_prefixes(&mut self)
        requires
            old(self)@.can_close_prefixes(),
        ensures
            final(self)@ == old(self)@.close_prefixes(),
    {
        loop
            invariant
                self@.can_close_prefixes(),
                self@.close_prefixes() == old(self)@.close_prefixes(),
            ensures
                self@ == old(self)@.close_prefixes(),
            decreases self@.openings.len(),
        {
            let is_prefix = match self.peek_opening() {
                Some(Opening::Prefix) => true,
                _ => false,
            };
            if !is_prefix {
                break;
            }
            let ghost before = self@;
            proof {
                lemma_trailing_prefixes_ignores_expressions(
                    before.close_expression().with_openings(before.openings.drop_last()),
                    before.with_openings(before.openings.drop_last()),
                );
            }
            self.close_expression();
            self.opening_stack.pop();
            assert(self@.openings =~= before.openings.drop_last());
            assert(self@.expressions =~= before.close_expression().expressions);
        }
    }

    /// Opens a nested expression for a delimiter pair met at `char_index`; the
    /// expression starts with the pair's tag, if it has one.
    pub fn open_list(
        &mut self,
        char_index: usize,
        opener: Vec<char>,
        closer: Vec<char>,
        tag: &Option<String>,
    )
        requires
            tag is Some ==> old(self)@.openings.len() < old(self)@.expressions.len(),
        ensures
            final(self)@ == old(self)@.open_list(
                char_index,
                opener@,
                closer@,
                match tag {
                    Some(t) => Some(t@),
                    None => None,
                },
            ),
    {
        self.expression_stack.push(Vec::new());
        self.opening_stack.push((char_index, Opening::List(opener, closer)));
        proof {
            let pushed = StateView {
                expressions: old(self)@.expressions.push(Seq::empty()),
                openings: old(self)@.openings.push(
                    (char_index, OpeningView::List(opener@, closer@)),
                ),
            };
            assert(self@.expressions =~~= pushed.expressions);
            assert(self@.openings =~= pushed.openings);
        }
        match tag {
            Some(delimiter_tag) => self.insert_token(delimiter_tag.clone()),
            None => (),
        }
    }

    /// Closes the innermost open list, with the prefix markers above and
    /// directly below it, and returns the list's closer.
    pub fn close_list(&mut self) -> (closer: Option<Vec<char>>)
        requires
            old(self)@.can_close_list(),
        ensures
            final(self)@ == old(self)@.close_list(),
            match closer {
                Some(c) => old(self)@.closed_closer() == Some(c@),
                None => old(self)@.closed_closer() is None,
            },
    {
        proof {
            lemma_close_prefixes(old(self)@);
        }
        self.close_prefixes();
        self.close_expression();
        let ghost wrapped = self@;
        let closer = match self.opening_stack.pop() {
            Some((_, opening)) => match opening {
                Opening::List(_, closer) => Some(closer),
                Opening::Prefix => None,
            },
            None => None,
        };
        assert(self@.expressions =~= wrapped.popped().expressions);
        assert(self@.openings =~= wrapped.popped().openings);
        self.close_prefixes();
        closer
    }

    /// Opener and closer of the innermost open list.
    pub fn get_open_list(&mut self) -> (tokens: Option<(Vec<char>, Vec<char>)>)
        ensures
            final(self)@ == old(self)@,
            match tokens {
                Some((opener, closer)) => old(self)@.open_list_tokens() == Some((opener@, closer@)),
                None => old(self)@.open_list_tokens() is None,
            },
    {
        let mut i: usize = self.opening_stack.len();
        assert(self@.openings.take(i as int) =~= self@.openings);
        while i > 0
            invariant
                i <= self.opening_stack@.len(),
                *self == *old(self),
                self@.with_openings(self@.openings.take(i as int)).open_list_tokens()
                    == self@.open_list_tokens(),
            decreases i,
        {
            let ghost here = self@.with_openings(self@.openings.take(i as int));
            assert(here.openings.drop_last() =~= self@.openings.take(i - 1));
            match &self.opening_stack[i - 1].1 {
                Opening::Prefix => {},
                Opening::List(opener, closer) => {
                    return Some((copy_chars(opener), copy_chars(closer)));
                },
            }
            i -= 1;
        }
        assert(self@.openings.take(self@.openings.len() as int) =~= self@.openings);
        None
    }

    /// Takes the innermost list of expressions off and returns its first
    /// expression.
    pub fn finish(&mut self) -> (first: Sexp)
        requires
            old(self)@.expressions.len() >= 1,
            old(self)@.expressions.last().len() >= 1,
        ensures
            first@ == old(self)@.finished(),
            final(self)@.expressions == old(self)@.expressions.drop_last(),
            final(self)@.openings == old(self)@.openings,
    {
        let mut top = self.expression_stack.pop().unwrap();
        assert(self@.expressions =~= old(self)@.expressions.drop_last());
        assert(self@.openings =~= old(self)@.openings);
        top.swap_remove(0)
    }
}

/// A pair of delimiters that encloses a list.
pub trait Delimiter {
    fn delimiter_opener(&self) -> String;

    fn delimiter_closer(&self) -> String;

    /// The tag that lists of this pair start with, if any.
    fn delimiter_tag(&self) -> Option<String>;
}

/// A marker that wraps the expression after it in a tagged list.
pub trait Prefix {
    fn prefix_string(&self) -> String;

    /// The tag that the list starts with.
    fn prefix_tag(&self) -> String;
}

/// The characters of an optional tag.
pub open spec fn tag_text(tag: Option<String>) -> Option<Seq<char>> {
    match tag {
        Some(t) => Some(t@),
        None => None,
    }
}

/// A delimiter pair as characters.
pub struct DelimiterView {
    pub opener: Seq<char>,
    pub closer: Seq<char>,
    pub tag: Option<Seq<char>>,
}

/// A prefix marker as characters.
pub struct PrefixView {
    pub marker: Seq<char>,
    pub tag: Seq<char>,
}

/// The delimiter pairs and prefix markers that a text is read with, in the
/// order in which they were given.
pub struct GrammarView {
    pub delimiters: Seq<DelimiterView>,
    pub prefixes: Seq<PrefixView>,
}

impl GrammarView {
    /// The last prefix before index `below` whose marker is not empty and
    /// stands at the start of `rest`.
    pub open spec fn last_prefix(self, rest: Seq<char>, below: nat) -> Option<usize>
        decreases below,
    {
        if below == 0 || below > self.prefixes.len() {
            None
        } else if self.prefixes[below - 1].marker.len() > 0 && self.prefixes[below
            - 1].marker.is_prefix_of(rest) {
            Some((below - 1) as usize)
        } else {
            self.last_prefix(rest, (below - 1) as nat)
        }
    }

    /// The last delimiter before index `below` whose opener is not empty and
    /// stands at the start of `rest`.
    pub open spec fn last_opener(self, rest: Seq<char>, below: nat) -> Option<usize>
        decreases below,
    {
        if below == 0 || below > self.delimiters.len() {
            None
        } else if self.delimiters[below - 1].opener.len() > 0 && self.delimiters[below
            - 1].opener.is_prefix_of(rest) {
            Some((below - 1) as usize)
        } else {
            self.last_opener(rest, (below - 1) as nat)
        }
    }

    /// The first delimiter from index `from` on whose closer `rest` begins with.
    pub open spec fn first_closer(self, rest: Seq<char>, from: nat) -> Option<usize>
        decreases self.delimiters.len() - from,
    {
        if from >= self.delimiters.len() {
            None
        } else if self.delimiters[from as int].closer.is_prefix_of(rest) {
            Some(from as usize)
        } else {
            self.first_closer(rest, from + 1)
        }
    }
}

/// Where a reading stands: the expressions and openings so far, whether a
/// nested expression was opened yet, the offset of the next character, and
/// the offset behind the last character that was put into an expression.
pub struct ScanView {
    pub state: StateView,
    pub opened: bool,
    pub index: int,
    pub consumed: int,
}

/// What is found at the next character.
pub struct Seen {
    /// It is a double quote.
    pub string_opener: bool,
    /// No token is pending and a prefix marker starts here.
    pub prefix: Option<usize>,
    /// A delimiter's closer starts here.
    pub closer: Option<usize>,
    /// The innermost open list's opener and closer.
    pub open: Option<(Seq<char>, Seq<char>)>,
    /// The innermost open list's closer starts here.
    pub expected: bool,
    /// A delimiter's opener starts here.
    pub opening: Option<usize>,
    /// None of these starts here, and the character separates tokens.
    pub blank: bool,
}

impl Seen {
    /// Whether a pending token ends before this character.
    pub open spec fn ends_token(self) -> bool {
        self.string_opener || self.opening is Some || self.expected || self.blank
    }

    /// Whether the character belongs to no token.
    pub open spec fn consumes(self) -> bool {
        self.string_opener || self.prefix is Some || self.opening is Some || self.expected
            || self.blank
    }
}

/// How one step of a reading ends.
pub enum ScanStep {
    Done(Result<SexpView, ParseErrorView>),
    Next(ScanView),
}

/// What a step did to the state after a pending token and a string were
/// dealt with: the new state, whether a nested expression was opened yet, and
/// how many characters were taken.
pub struct Moved {
    pub state: StateView,
    pub opened: bool,
    pub width: nat,
}

/// The offset of the double quote that closes the string opened at `at`:
/// the first one behind `at` that no backslash stands directly before,
/// where a backslash always takes the character after it with it.
pub open spec fn string_end(chars: Seq<char>, at: int) -> Option<int>
    decreases chars.len() - at,
{
    if at < 0 || at + 1 >= chars.len() {
        None
    } else if chars[at + 1] == '\\' {
        string_end(chars, at + 2)
    } else if chars[at + 1] == '"' {
        Some(at + 1)
    } else {
        string_end(chars, at + 1)
    }
}

impl GrammarView {
    /// What is found at the next character of `chars`.
    pub open spec fn look(self, chars: Seq<char>, s: ScanView) -> Seen {
        let rest = chars.subrange(s.index, chars.len() as int);
        let prefix = if s.consumed == s.index {
            self.last_prefix(rest, self.prefixes.len())
        } else {
            None
        };
        let open = s.state.open_list_tokens();
        let expected = open is Some && open.unwrap().1.is_prefix_of(rest);
        let opening = self.last_opener(rest, self.delimiters.len());
        Seen {
            string_opener: chars[s.index] == '"',
            prefix,
            closer: self.first_closer(rest, 0),
            open,
            expected,
            opening,
            blank: prefix is None && opening is None && !expected && separates(chars[s.index]),
        }
    }

    /// Opens what starts at offset `at`, or closes the innermost open list,
    /// or takes one character.
    pub open spec fn advance(self, state: StateView, opened: bool, at: usize, seen: Seen) -> Moved {
        match seen.prefix {
            Some(i) => Moved {
                state: state.open_prefix(at, self.prefixes[i as int].tag),
                opened: true,
                width: self.prefixes[i as int].marker.len(),
            },
            None => match seen.opening {
                Some(d) => Moved {
                    state: state.open_list(
                        at,
                        self.delimiters[d as int].opener,
                        self.delimiters[d as int].closer,
                        self.delimiters[d as int].tag,
                    ),
                    opened: true,
                    width: self.delimiters[d as int].opener.len(),
                },
                None => if seen.expected {
                    Moved {
                        state: state.close_list(),
                        opened,
                        width: state.closed_closer().unwrap().len(),
                    }
                } else {
                    Moved { state, opened, width: 1 }
                },
            },
        }
    }

    /// One step of a reading, at a character of the text.
    pub open spec fn scan_step(self, chars: Seq<char>, s: ScanView) -> ScanStep {
        let seen = self.look(chars, s);
        if seen.closer is Some && seen.open is None {
            ScanStep::Done(
                Err(ParseErrorView::UnmatchedCloser(self.delimiters[seen.closer.unwrap() as int].closer)),
            )
        } else if seen.closer is Some && !seen.expected {
            ScanStep::Done(
                Err(
                    ParseErrorView::MismatchedCloser(
                        seen.open.unwrap().0,
                        self.delimiters[seen.closer.unwrap() as int].closer,
                    ),
                ),
            )
        } else {
            let ends = s.consumed != s.index && seen.ends_token();
            let with_token = if ends {
                let inserted = s.state.insert(chars.subrange(s.consumed, s.index));
                if seen.blank {
                    inserted.close_prefixes()
                } else {
                    inserted
                }
            } else {
                s.state
            };
            if ends && !s.opened {
                ScanStep::Done(Ok(with_token.finished()))
            } else if seen.string_opener && string_end(chars, s.index) is None {
                ScanStep::Done(Err(ParseErrorView::UnclosedString))
            } else {
                let at = if seen.string_opener {
                    string_end(chars, s.index).unwrap()
                } else {
                    s.index
                };
                let with_string = if seen.string_opener {
                    with_token.insert(chars.subrange(s.index, at + 1))
                } else {
                    with_token
                };
                if seen.string_opener && !s.opened {
                    ScanStep::Done(Ok(with_string.finished()))
                } else {
                    let moved = self.advance(with_string, s.opened, at as usize, seen);
                    let index = if at + moved.width > chars.len() {
                        chars.len() as int
                    } else {
                        at + moved.width
                    };
                    if moved.opened && moved.state.openings.len() == 0 {
                        ScanStep::Done(Ok(moved.state.finished()))
                    } else {
                        ScanStep::Next(
                            ScanView {
                                state: moved.state,
                                opened: moved.opened,
                                index,
                                consumed: if seen.consumes() {
                                    index
                                } else {
                                    s.consumed
                                },
                            },
                        )
                    }
                }
            }
        }
    }

    /// The end of a reading, behind the last character: a pending token is
    /// added, the open prefix markers are closed, and the outermost
    /// expression is the result, unless a list is still open. A text without
    /// any expression reads as the token `nil`.
    pub open spec fn scan_end(self, chars: Seq<char>, s: ScanView) -> Result<SexpView, ParseErrorView> {
        let with_token = if s.consumed < s.index {
            s.state.insert(chars.subrange(s.consumed, chars.len() as int))
        } else {
            s.state
        };
        let closed = with_token.close_prefixes();
        match closed.open_list_tokens() {
            Some((opener, _)) => Err(ParseErrorView::UnclosedOpener(opener)),
            None => if !s.opened && s.consumed >= s.index {
                Ok(SexpView::Leaf("nil"@))
            } else {
                Ok(closed.finished())
            },
        }
    }

    /// Whether the step from `s` to `t` took a character, or closed a list.
    pub open spec fn advances(chars: Seq<char>, s: ScanView, t: ScanView) -> bool {
        &&& t.index <= chars.len()
        &&& s.index < t.index || (s.index == t.index && t.state.openings.len()
            < s.state.openings.len())
    }

    /// The result of a reading that stands at `s`: steps are taken until one
    /// ends the reading or the text is used up. The test on
    /// [`Self::advances`] makes the definition well-founded; every step from
    /// a proper state passes it ([`lemma_scan_step_advances`]).
    pub open spec fn scan(self, chars: Seq<char>, s: ScanView) -> Result<SexpView, ParseErrorView>
        decreases chars.len() - s.index, s.state.openings.len(),
    {
        if s.index < 0 || s.index >= chars.len() {
            self.scan_end(chars, s)
        } else {
            match self.scan_step(chars, s) {
                ScanStep::Done(result) => result,
                ScanStep::Next(t) => if Self::advances(chars, s, t) {
                    self.scan(chars, t)
                } else {
                    Err(ParseErrorView::UnclosedString)
                },
            }
        }
    }
}

/// What [`parse_chars`] returns: the token `nil` for an empty text, and else
/// the result of the reading that starts at the first character.
pub open spec fn parse_result(g: GrammarView, chars: Seq<char>) -> Result<SexpView, ParseErrorView> {
    if chars.len() == 0 {
        Ok(SexpView::Leaf("nil"@))
    } else {
        g.scan(chars, ScanView { state: StateView::initial(), opened: false, index: 0, consumed: 0 })
    }
}

/// The mathematical value of what [`parse_chars`] returns.
pub open spec fn outcome_view(outcome: Result<Sexp, ParseError>) -> Result<SexpView, ParseErrorView> {
    match outcome {
        Ok(sexp) => Ok(sexp@),
        Err(error) => Err(error@),
    }
}

/// What [`StateView::close_prefixes`] does to a balanced state.
pub proof fn lemma_close_prefixes_balanced(s: StateView)
    requires
        s.balanced(),
    ensures
        s.can_close_prefixes(),
        s.close_prefixes().balanced(),
        s.close_prefixes().openings.len() <= s.openings.len(),
        s.close_prefixes().openings.len() == s.openings.len() ==> s.close_prefixes() == s,
        s.close_prefixes().openings.len() < s.openings.len()
            ==> s.close_prefixes().expressions.last().len() >= 1,
        s.close_prefixes().open_list_tokens() == s.open_list_tokens(),
        s.close_prefixes().openings.len() > 0 ==> s.close_prefixes().openings.last().1 is List
            && s.open_list_tokens() == Some(
            (
                s.close_prefixes().openings.last().1->List_0,
                s.close_prefixes().openings.last().1->List_1,
            ),
        ),
        s.close_prefixes().openings.len() == 0 ==> s.open_list_tokens() is None,
        s.trailing_prefixes() <= s.openings.len(),
    decreases s.openings.len(),
{
    if s.openings.len() > 0 && s.openings.last().1 is Prefix {
        let next = s.close_expression().with_openings(s.openings.drop_last());
        let shorter = s.with_openings(s.openings.drop_last());
        lemma_trailing_prefixes_ignores_expressions(next, shorter);
        lemma_open_list_ignores_expressions(next, shorter);
        lemma_close_prefixes_balanced(next);
    }
}

/// What [`StateView::close_list`] does to a balanced state with an open list.
pub proof fn lemma_close_list_balanced(s: StateView)
    requires
        s.balanced(),
        s.open_list_tokens() is Some,
    ensures
        s.can_close_list(),
        s.close_list().balanced(),
        s.closed_closer() == Some(s.open_list_tokens().unwrap().1),
        s.close_list().openings.len() < s.openings.len(),
        s.close_list().expressions.last().len() >= 1,
{
    lemma_close_prefixes_balanced(s);
    let wrapped = s.before_pop();
    lemma_close_prefixes_balanced(wrapped.popped());
}

/// Where a prefix is found, its marker is not empty.
pub proof fn lemma_last_prefix(g: GrammarView, rest: Seq<char>, below: nat)
    requires
        g.prefixes.len() <= usize::MAX,
    ensures
        g.last_prefix(rest, below) matches Some(i) ==> i < g.prefixes.len()
            && g.prefixes[i as int].marker.len() > 0,
    decreases below,
{
    if below > 0 && below <= g.prefixes.len() {
        lemma_last_prefix(g, rest, (below - 1) as nat);
    }
}

/// Where an opener is found, it is not empty.
pub proof fn lemma_last_opener(g: GrammarView, rest: Seq<char>, below: nat)
    requires
        g.delimiters.len() <= usize::MAX,
    ensures
        g.last_opener(rest, below) matches Some(d) ==> d < g.delimiters.len()
            && g.delimiters[d as int].opener.len() > 0,
    decreases below,
{
    if below > 0 && below <= g.delimiters.len() {
        lemma_last_opener(g, rest, (below - 1) as nat);
    }
}

/// The double quote that closes a string lies behind the one that opens it.
pub proof fn lemma_string_end(chars: Seq<char>, at: int)
    requires
        0 <= at,
    ensures
        string_end(chars, at) matches Some(end) ==> at < end < chars.len(),
    decreases chars.len() - at,
{
    if at + 1 < chars.len() {
        if chars[at + 1] == '\\' {
            lemma_string_end(chars, at + 2);
        } else if chars[at + 1] != '"' {
            lemma_string_end(chars, at + 1);
        }
    }
}

/// The states that a reading passes through: the offsets lie in the text,
/// the expressions and openings are balanced, and before a nested
/// expression was opened nothing is gathered yet.
pub open spec fn proper(chars: Seq<char>, s: ScanView) -> bool {
    &&& 0 <= s.consumed <= s.index <= chars.len()
    &&& s.state.balanced()
    &&& s.opened ==> s.state.openings.len() >= 1
    &&& !s.opened ==> s.state == StateView::initial()
}

/// Every step of a reading takes a character or closes a list, and leads
/// to a proper state, where the grammar's pairs and markers can be counted.
pub proof fn lemma_scan_step_advances(g: GrammarView, chars: Seq<char>, s: ScanView)
    requires
        g.prefixes.len() <= usize::MAX,
        g.delimiters.len() <= usize::MAX,
        proper(chars, s),
        s.index < chars.len(),
    ensures
        g.scan_step(chars, s) matches ScanStep::Next(t) ==> GrammarView::advances(chars, s, t)
            && proper(chars, t),
{
    let seen = g.look(chars, s);
    let rest = chars.subrange(s.index, chars.len() as int);
    lemma_last_prefix(g, rest, g.prefixes.len());
    lemma_last_opener(g, rest, g.delimiters.len());
    lemma_string_end(chars, s.index);
    let ends = s.consumed != s.index && seen.ends_token();
    let inserted = s.state.insert(chars.subrange(s.consumed, s.index));
    lemma_close_prefixes_balanced(inserted);
    lemma_open_list_ignores_expressions(inserted, s.state);
    let with_token = if ends {
        if seen.blank {
            inserted.close_prefixes()
        } else {
            inserted
        }
    } else {
        s.state
    };
    let at = if seen.string_opener {
        string_end(chars, s.index).unwrap()
    } else {
        s.index
    };
    let with_string = if seen.string_opener {
        with_token.insert(chars.subrange(s.index, at + 1))
    } else {
        with_token
    };
    lemma_open_list_ignores_expressions(with_string, with_token);
    if seen.expected && seen.prefix is None && seen.opening is None {
        lemma_close_list_balanced(with_string);
    }
}

/// A delimiter pair as character vectors, with its tag.
pub struct DelimiterChars {
    pub opener: Vec<char>,
    pub closer: Vec<char>,
    pub tag: Option<String>,
}

/// A prefix marker as a character vector, with its tag.
pub struct PrefixChars {
    pub marker: Vec<char>,
    pub tag: String,
}

/// The delimiter pairs and prefix markers that a text is read with.
pub struct Grammar {
    pub delimiters: Vec<DelimiterChars>,
    pub prefixes: Vec<PrefixChars>,
}

impl View for Grammar {
    type V = GrammarView;

    open spec fn view(&self) -> GrammarView {
        GrammarView {
            delimiters: Seq::new(
                self.delimiters@.len(),
                |i: int|
                    DelimiterView {
                        opener: self.delimiters@[i].opener@,
                        closer: self.delimiters@[i].closer@,
                        tag: tag_text(self.delimiters@[i].tag),
                    },
            ),
            prefixes: Seq::new(
                self.prefixes@.len(),
                |i: int|
                    PrefixView { marker: self.prefixes@[i].marker@, tag: self.prefixes@[i].tag@ },
            ),
        }
    }
}

impl Grammar {
    /// The grammar that the given delimiters and prefixes describe: each
    /// pair and each marker with the characters that it gives of itself.
    pub fn new<D: Delimiter, P: Prefix>(delimiters: &[D], prefixes: &[P]) -> (grammar: Grammar)
        ensures
            grammar@.delimiters.len() == delimiters@.len(),
            grammar@.prefixes.len() == prefixes@.len(),
    {
        let mut delimiter_chars: Vec<DelimiterChars> = Vec::new();
        let mut i: usize = 0;
        while i < delimiters.len()
            invariant
                i <= delimiters@.len(),
                delimiter_chars@.len() == i,
            decreases delimiters@.len() - i,
        {
            let opener = delimiters[i].delimiter_opener();
            let closer = delimiters[i].delimiter_closer();
            let tag = delimiters[i].delimiter_tag();
            delimiter_chars.push(
                DelimiterChars {
                    opener: chars_of(opener.as_str()),
                    closer: chars_of(closer.as_str()),
                    tag,
                },
            );
            i += 1;
        }
        let mut prefix_chars: Vec<PrefixChars> = Vec::new();
        let mut j: usize = 0;
        while j < prefixes.len()
            invariant
                j <= prefixes@.len(),
                prefix_chars@.len() == j,
            decreases prefixes@.len() - j,
        {
            let marker = prefixes[j].prefix_string();
            let tag = prefixes[j].prefix_tag();
            prefix_chars.push(PrefixChars { marker: chars_of(marker.as_str()), tag });
            j += 1;
        }
        Grammar { delimiters: delimiter_chars, prefixes: prefix_chars }
    }

    fn last_prefix(&self, rest: &[char]) -> (found: Option<usize>)
        ensures
            found == self@.last_prefix(rest@, self@.prefixes.len()),
            found matches Some(k) ==> k < self.prefixes@.len() && self.prefixes@[k as int].marker@.len()
                > 0 && self.prefixes@[k as int].marker@.is_prefix_of(rest@),
    {
        let mut below: usize = self.prefixes.len();
        while below > 0
            invariant
                below <= self.prefixes@.len(),
                self@.last_prefix(rest@, below as nat) == self@.last_prefix(
                    rest@,
                    self@.prefixes.len(),
                ),
            decreases below,
        {
            if self.prefixes[below - 1].marker.len() > 0 && chars_match(
                self.prefixes[below - 1].marker.as_slice(),
                rest,
            ) {
                return Some(below - 1);
            }
            below -= 1;
        }
        None
    }

    fn last_opener(&self, rest: &[char]) -> (found: Option<usize>)
        ensures
            found == self@.last_opener(rest@, self@.delimiters.len()),
            found matches Some(k) ==> k < self.delimiters@.len()
                && self.delimiters@[k as int].opener@.len() > 0
                && self.delimiters@[k as int].opener@.is_prefix_of(rest@),
    {
        let mut below: usize = self.delimiters.len();
        while below > 0
            invariant
                below <= self.delimiters@.len(),
                self@.last_opener(rest@, below as nat) == self@.last_opener(
                    rest@,
                    self@.delimiters.len(),
                ),
            decreases below,
        {
            if self.delimiters[below - 1].opener.len() > 0 && chars_match(
                self.delimiters[below - 1].opener.as_slice(),
                rest,
            ) {
                return Some(below - 1);
            }
            below -= 1;
        }
        None
    }

    fn first_closer(&self, rest: &[char]) -> (found: Option<usize>)
        ensures
            found == self@.first_closer(rest@, 0),
            found matches Some(k) ==> k < self.delimiters@.len(),
    {
        let mut from: usize = 0;
        while from < self.delimiters.len()
            invariant
                from <= self.delimiters@.len(),
                self@.first_closer(rest@, from as nat) == self@.first_closer(rest@, 0),
            decreases self.delimiters@.len() - from,
        {
            if chars_match(self.delimiters[from].closer.as_slice(), rest) {
                return Some(from);
            }
            from += 1;
        }
        None
    }
}

/// Finds the double quote that closes the string opened at `at`.
fn find_string_end(chars: &[char], at: usize) -> (end: Option<usize>)
    requires
        at < chars@.len(),
    ensures
        match end {
            Some(e) => string_end(chars@, at as int) == Some(e as int) && at < e < chars@.len(),
            None => string_end(chars@, at as int) is None,
        },
{
    let mut i: usize = at;
    loop
        invariant
            at <= i < chars@.len(),
            string_end(chars@, i as int) == string_end(chars@, at as int),
        decreases chars@.len() - i,
    {
        if i >= chars.len() - 1 {
            return None;
        }
        let c = chars[i + 1];
        if c == '\\' {
            if i + 2 >= chars.len() {
                assert(string_end(chars@, i + 2) is None);
                return None;
            }
            i += 2;
        } else if c == '"' {
            return Some(i + 1);
        } else {
            i += 1;
        }
    }
}

/// Reads the first expression of `chars` with the given grammar.
///
/// Tokens are separated by blanks, tabs, line feeds and commas. A prefix
/// marker wraps the expression behind it in a list that starts with the
/// marker's tag; a delimiter pair encloses a list, which starts with the
/// pair's tag if it has one. A double quote opens a string, which reaches to
/// the next double quote that no backslash stands before and is one token.
/// Where several markers or openers start at one place, the one given last
/// is taken. An empty marker or opener starts nowhere. A text without any
/// expression reads as the token `nil`.
pub fn read_chars(grammar: &Grammar, chars: Vec<char>) -> (outcome: Result<Sexp, ParseError>)
    ensures
        outcome_view(outcome) == parse_result(grammar@, chars@),
{
    if chars.len() == 0 {
        return Ok(Sexp::Leaf("nil".to_owned()));
    }
    let ghost g = grammar@;
    let ghost start = ScanView { state: StateView::initial(), opened: false, index: 0, consumed: 0 };
    let mut state = ParserState::new();
    let mut expression_opened: bool = false;
    let mut char_index: usize = 0;
    let mut consumed_index: usize = 0;
    while char_index < chars.len()
        invariant
            g == grammar@,
            start == (ScanView { state: StateView::initial(), opened: false, index: 0, consumed: 0 }),
            chars@.len() > 0,
            consumed_index <= char_index <= chars@.len(),
            state@.balanced(),
            expression_opened ==> state@.openings.len() >= 1,
            !expression_opened ==> state@ == StateView::initial(),
            g.scan(
                chars@,
                ScanView {
                    state: state@,
                    opened: expression_opened,
                    index: char_index as int,
                    consumed: consumed_index as int,
                },
            ) == g.scan(chars@, start),
        decreases chars@.len() - char_index, state@.openings.len(),
    {
        let ghost here = ScanView {
            state: state@,
            opened: expression_opened,
            index: char_index as int,
            consumed: consumed_index as int,
        };
        let ghost seen = g.look(chars@, here);
        let rest = vstd::slice::slice_subrange(chars.as_slice(), char_index, chars.len());
        let string_opener = chars[char_index] == '"';
        let prefix_index = if consumed_index == char_index {
            grammar.last_prefix(rest)
        } else {
            None
        };
        let matched_closer = grammar.first_closer(rest);
        let open_list = state.get_open_list();
        let was_expected_closer_matched = match &open_list {
            Some((_, closer)) => chars_match(closer.as_slice(), rest),
            None => false,
        };
        match matched_closer {
            None => (),
            Some(found) => {
                let closing = &grammar.delimiters[found].closer;
                let closing_chars = string_of(closing.as_slice(), 0, closing.len());
                assert(closing@.subrange(0, closing@.len() as int) == closing@);
                match &open_list {
                    None => {
                        return Err(ParseError::UnmatchedCloser(closing_chars));
                    },
                    Some((opener, _)) => {
                        if !was_expected_closer_matched {
                            assert(opener@.subrange(0, opener@.len() as int) == opener@);
                            return Err(
                                ParseError::MismatchedCloser(
                                    string_of(opener.as_slice(), 0, opener.len()),
                                    closing_chars,
                                ),
                            );
                        }
                    },
                }
            },
        }
        let matched_opening = grammar.last_opener(rest);
        let whitespace = prefix_index.is_none() && matched_opening.is_none()
            && !was_expected_closer_matched && is_whitespace(chars[char_index]);
        assert(seen.string_opener == string_opener);
        assert(seen.prefix == prefix_index);
        assert(seen.closer == matched_closer);
        assert(seen.expected == was_expected_closer_matched);
        assert(seen.opening == matched_opening);
        assert(seen.blank == whitespace);
        if consumed_index != char_index && (string_opener || matched_opening.is_some()
            || was_expected_closer_matched || whitespace) {
            state.insert_token(string_of(chars.as_slice(), consumed_index, char_index));
            if whitespace {
                proof {
                    lemma_close_prefixes_balanced(state@);
                }
                state.close_prefixes();
            }
            if !expression_opened {
                return Ok(state.finish());
            }
        }
        let ghost with_token = state@;
        if string_opener {
            match find_string_end(chars.as_slice(), char_index) {
                None => {
                    return Err(ParseError::UnclosedString);
                },
                Some(end) => {
                    state.insert_token(string_of(chars.as_slice(), char_index, end + 1));
                    char_index = end;
                },
            }
            if !expression_opened {
                return Ok(state.finish());
            }
        }
        let ghost with_string = state@;
        let ghost moved = g.advance(with_string, expression_opened, char_index, seen);
        let width = match prefix_index {
            Some(i) => {
                expression_opened = true;
                state.open_prefix(char_index, &grammar.prefixes[i].tag);
                grammar.prefixes[i].marker.len()
            },
            None => match matched_opening {
                Some(d) => {
                    expression_opened = true;
                    let found = &grammar.delimiters[d];
                    state.open_list(
                        char_index,
                        copy_chars(&found.opener),
                        copy_chars(&found.closer),
                        &found.tag,
                    );
                    found.opener.len()
                },
                None => {
                    if was_expected_closer_matched {
                        proof {
                            lemma_open_list_ignores_expressions(state@, here.state);
                            lemma_close_list_balanced(state@);
                        }
                        match state.close_list() {
                            Some(closer) => closer.len(),
                            None => 1,
                        }
                    } else {
                        1
                    }
                },
            },
        };
        assert(state@ == moved.state);
        assert(width == moved.width);
        assert(expression_opened == moved.opened);
        char_index = if width > chars.len() - char_index {
            chars.len()
        } else {
            char_index + width
        };
        if string_opener || prefix_index.is_some() || matched_opening.is_some()
            || was_expected_closer_matched || whitespace {
            consumed_index = char_index;
        }
        if expression_opened && state.depth() == 0 {
            return Ok(state.finish());
        }
        assert(g.scan_step(chars@, here) == ScanStep::Next(
            ScanView {
                state: state@,
                opened: expression_opened,
                index: char_index as int,
                consumed: consumed_index as int,
            },
        ));
    }
    let ghost here = ScanView {
        state: state@,
        opened: expression_opened,
        index: char_index as int,
        consumed: consumed_index as int,
    };
    let blank = !expression_opened && consumed_index >= char_index;
    if consumed_index < char_index {
        state.insert_token(string_of(chars.as_slice(), consumed_index, chars.len()));
    }
    proof {
        lemma_close_prefixes_balanced(state@);
    }
    state.close_prefixes();
    match state.get_open_list() {
        Some((opener, _)) => {
            assert(opener@.subrange(0, opener@.len() as int) == opener@);
            return Err(ParseError::UnclosedOpener(string_of(opener.as_slice(), 0, opener.len())));
        },
        None => (),
    }
    if blank {
        return Ok(Sexp::Leaf("nil".to_owned()));
    }
    Ok(state.finish())
}

/// Reads the first expression of `chars`, as [`read_chars`] does, with the
/// grammar that the delimiters and prefixes describe ([`Grammar::new`]).
pub fn parse_chars<DelimiterType: Delimiter, PrefixType: Prefix>(
    delimiters: &[DelimiterType],
    prefixes: &[PrefixType],
    chars: Vec<char>,
) -> (outcome: Result<Sexp, ParseError>)
    ensures
        exists|g: GrammarView|
            {
                &&& g.delimiters.len() == delimiters@.len()
                &&& g.prefixes.len() == prefixes@.len()
                &&& outcome_view(outcome) == #[trigger] parse_result(g, chars@)
            },
        chars@.len() == 0 ==> outcome_view(outcome) == Ok::<SexpView, ParseErrorView>(
            SexpView::Leaf("nil"@),
        ),
{
    let grammar = Grammar::new(delimiters, prefixes);
    read_chars(&grammar, chars)
}

/// Reads the first expression of `s`, as [`parse_chars`] does.
pub fn parse<DelimiterType: Delimiter, PrefixType: Prefix>(
    delimiters: &[DelimiterType],
    prefixes: &[PrefixType],
    s: &str,
) -> (outcome: Result<Sexp, ParseError>)
    ensures
        exists|g: GrammarView|
            {
                &&& g.delimiters.len() == delimiters@.len()
                &&& g.prefixes.len() == prefixes@.len()
                &&& outcome_view(outcome) == #[trigger] parse_result(g, s@)
            },
        s@.len() == 0 ==> outcome_view(outcome) == Ok::<SexpView, ParseErrorView>(
            SexpView::Leaf("nil"@),
        ),
{
    parse_chars(delimiters, prefixes, chars_of(s))
}

} // verus!
