//! The grammar model: contexts, and the enclosers, symmetric enclosers and
//! operators that may open in them.
//!
//! A [`SyntaxGraph`] is built once, by registering contexts and elements, and
//! is then only read. Its mathematical value is a [`GraphView`]; the rules by
//! which tokens are matched against a text are spec functions of that view.
use crate::str_tagged::{StringTaggedEncloser, StringTaggedOperator, StringTaggedSymmetricEncloser};
use crate::text::{chars_of, matches_at, same_chars, string_of, token_at};
use vstd::prelude::*;

verus! {

/// The three kinds of grammar element.
#[derive(Debug, Clone, Copy, PartialEq, Eq, Structural)]
pub enum ElementKind {
    Encloser,
    SymmetricEncloser,
    Operator,
}

/// The mathematical value of a grammar element: its tag, its kind, its
/// tokens and its arity. A symmetric encloser's closer is its opener; an
/// operator has no closer; an encloser has no arity.
pub struct ElementShape {
    pub tag: Seq<char>,
    pub kind: ElementKind,
    pub opener: Seq<char>,
    pub closer: Seq<char>,
    pub left: nat,
    pub right: nat,
}

impl ElementShape {
    /// What a grammar accepts as an element: every token it is matched by is
    /// non-empty, an encloser's two tokens differ, and an operator takes at
    /// least one argument, and no more than can be counted.
    pub open spec fn well_formed(self) -> bool {
        &&& self.opener.len() > 0
        &&& match self.kind {
            ElementKind::Encloser => self.closer.len() > 0 && self.closer != self.opener,
            ElementKind::SymmetricEncloser => self.closer == self.opener,
            ElementKind::Operator => 0 < self.left + self.right <= usize::MAX,
        }
    }
}

/// The shape of an encloser description: a symmetric encloser where the two
/// tokens are the same, an encloser otherwise.
pub open spec fn encloser_shape(tag: Seq<char>, opener: Seq<char>, closer: Seq<char>) -> ElementShape {
    ElementShape {
        tag,
        kind: if opener == closer {
            ElementKind::SymmetricEncloser
        } else {
            ElementKind::Encloser
        },
        opener,
        closer,
        left: 0,
        right: 0,
    }
}

/// The shape of an operator description.
pub open spec fn operator_shape(tag: Seq<char>, token: Seq<char>, left: nat, right: nat) -> ElementShape {
    ElementShape { tag, kind: ElementKind::Operator, opener: token, closer: Seq::empty(), left, right }
}

/// A grammar element: one of the three kinds, as a closed sum.
#[derive(Debug, Clone, Copy, PartialEq)]
pub enum EncloserOrOperator<'s> {
    Encloser(StringTaggedEncloser<'s>),
    SymmetricEncloser(StringTaggedSymmetricEncloser<'s>),
    Operator(StringTaggedOperator<'s>),
}

impl<'s> View for EncloserOrOperator<'s> {
    type V = ElementShape;

    open spec fn view(&self) -> ElementShape {
        self.shape()
    }
}

impl<'s> EncloserOrOperator<'s> {
    /// The element's mathematical value.
    pub open spec fn shape(&self) -> ElementShape {
        match self {
            EncloserOrOperator::Encloser(e) => ElementShape {
                tag: e.tag_view(),
                kind: ElementKind::Encloser,
                opener: e.opener_view(),
                closer: e.closer_view(),
                left: 0,
                right: 0,
            },
            EncloserOrOperator::SymmetricEncloser(e) => ElementShape {
                tag: e.tag_view(),
                kind: ElementKind::SymmetricEncloser,
                opener: e.encloser_view(),
                closer: e.encloser_view(),
                left: 0,
                right: 0,
            },
            EncloserOrOperator::Operator(o) => operator_shape(
                o.tag_view(),
                o.operator_view(),
                o.left_view(),
                o.right_view(),
            ),
        }
    }
}

impl<'s> EncloserOrOperator<'s> {
    /// The element's tag.
    pub fn tag(&self) -> (tag: &'s str)
        ensures
            tag@ == self@.tag,
    {
        match self {
            EncloserOrOperator::Encloser(e) => e.tag(),
            EncloserOrOperator::SymmetricEncloser(e) => e.tag(),
            EncloserOrOperator::Operator(o) => o.tag(),
        }
    }

    /// The element's kind.
    pub fn kind(&self) -> (kind: ElementKind)
        ensures
            kind == self@.kind,
    {
        match self {
            EncloserOrOperator::Encloser(_) => ElementKind::Encloser,
            EncloserOrOperator::SymmetricEncloser(_) => ElementKind::SymmetricEncloser,
            EncloserOrOperator::Operator(_) => ElementKind::Operator,
        }
    }

    /// The token that opens the element: an encloser's opener, a symmetric
    /// encloser's token, an operator's token.
    pub fn opening_token(&self) -> (token: &'s str)
        ensures
            token@ == self@.opener,
    {
        match self {
            EncloserOrOperator::Encloser(e) => e.opening_encloser_str(),
            EncloserOrOperator::SymmetricEncloser(e) => e.encloser_str(),
            EncloserOrOperator::Operator(o) => o.op_str(),
        }
    }

    /// The token that closes the element; empty for an operator.
    pub fn closing_token(&self) -> (token: &'s str)
        ensures
            token@ == self@.closer,
    {
        match self {
            EncloserOrOperator::Encloser(e) => e.closing_encloser_str(),
            EncloserOrOperator::SymmetricEncloser(e) => e.encloser_str(),
            EncloserOrOperator::Operator(_) => {
                let none = "";
                proof {
                    reveal_strlit("");
                }
                assert(none@ =~= Seq::<char>::empty());
                none
            },
        }
    }

    /// How many expressions before it the element takes.
    pub fn left_args(&self) -> (left: usize)
        ensures
            left == self@.left,
    {
        match self {
            EncloserOrOperator::Operator(o) => o.left_args(),
            _ => 0,
        }
    }

    /// How many expressions after it the element takes.
    pub fn right_args(&self) -> (right: usize)
        ensures
            right == self@.right,
    {
        match self {
            EncloserOrOperator::Operator(o) => o.right_args(),
            _ => 0,
        }
    }
}

/// The mathematical value of a context.
pub struct ContextView {
    pub name: Seq<char>,
    /// The tags that may open in the context.
    pub tags: Seq<Seq<char>>,
    /// The characters that separate tokens in the context.
    pub whitespace: Seq<char>,
    /// The character that takes the next one literally, if there is one.
    pub escape: Option<char>,
}

/// The character sequences of a sequence of string slices.
pub open spec fn str_views(strs: Seq<&str>) -> Seq<Seq<char>> {
    Seq::new(strs.len(), |i: int| strs[i]@)
}

/// A named grammar state: which tags may open in it, which characters are
/// whitespace in it, and which character, if any, escapes the next one.
#[derive(Debug, Clone, PartialEq)]
pub struct SyntaxContext {
    name: Vec<char>,
    tags: Vec<Vec<char>>,
    whitespace: Vec<char>,
    escape: Option<char>,
}

impl View for SyntaxContext {
    type V = ContextView;

    closed spec fn view(&self) -> ContextView {
        ContextView {
            name: self.name@,
            tags: Seq::new(self.tags@.len(), |i: int| self.tags@[i]@),
            whitespace: self.whitespace@,
            escape: self.escape,
        }
    }
}

impl SyntaxContext {
    /// A context with the given name, permitted tags, escape character and
    /// whitespace characters.
    pub fn new(name: &str, tags: &[&str], escape: Option<char>, whitespace: &[char]) -> (context: Self)
        ensures
            context@ == (ContextView {
                name: name@,
                tags: str_views(tags@),
                whitespace: whitespace@,
                escape,
            }),
    {
        let mut blanks: Vec<char> = Vec::new();
        let mut b: usize = 0;
        while b < whitespace.len()
            invariant
                b <= whitespace@.len(),
                blanks@ == whitespace@.take(b as int),
            decreases whitespace@.len() - b,
        {
            blanks.push(whitespace[b]);
            b += 1;
        }
        assert(whitespace@.take(whitespace@.len() as int) == whitespace@);
        let mut tag_chars: Vec<Vec<char>> = Vec::new();
        let mut i: usize = 0;
        while i < tags.len()
            invariant
                i <= tags@.len(),
                tag_chars@.len() == i,
                forall|k: int| 0 <= k < i ==> (#[trigger] tag_chars@[k])@ == tags@[k]@,
            decreases tags@.len() - i,
        {
            tag_chars.push(chars_of(tags[i]));
            i += 1;
        }
        let context = SyntaxContext { name: chars_of(name), tags: tag_chars, whitespace: blanks, escape };
        assert(context@.tags =~= str_views(tags@));
        context
    }

    /// The context's name.
    pub fn name(&self) -> (name: String)
        ensures
            name@ == self@.name,
    {
        assert(self.name@.subrange(0, self.name@.len() as int) == self.name@);
        string_of(self.name.as_slice(), 0, self.name.len())
    }

    /// Whether the tag may open in the context.
    pub fn permits(&self, tag: &[char]) -> (permitted: bool)
        ensures
            permitted == self@.tags.contains(tag@),
    {
        let mut i: usize = 0;
        while i < self.tags.len()
            invariant
                i <= self.tags@.len(),
                forall|k: int| 0 <= k < i ==> self@.tags[k] != tag@,
            decreases self.tags@.len() - i,
        {
            if same_chars(self.tags[i].as_slice(), tag) {
                assert(self@.tags[i as int] == tag@);
                return true;
            }
            i += 1;
        }
        false
    }

    /// Whether the character is whitespace in the context.
    pub fn is_whitespace(&self, c: char) -> (blank: bool)
        ensures
            blank == self@.whitespace.contains(c),
    {
        let mut i: usize = 0;
        while i < self.whitespace.len()
            invariant
                i <= self.whitespace@.len(),
                forall|k: int| 0 <= k < i ==> self.whitespace@[k] != c,
            decreases self.whitespace@.len() - i,
        {
            if self.whitespace[i] == c {
                return true;
            }
            i += 1;
        }
        false
    }

    /// The context's escape character.
    pub fn escape(&self) -> (escape: Option<char>)
        ensures
            escape == self@.escape,
    {
        self.escape
    }
}

/// Why a grammar could not be built.
#[derive(Debug, PartialEq)]
pub enum GraphError {
    /// An element with this tag is registered already.
    DuplicateTag(String),
    /// A context with this name is declared already.
    DuplicateContext(String),
    /// No context with this name is declared.
    UndeclaredContext(String),
    /// The element with this tag has an empty token, two equal tokens where
    /// they must differ, or an arity that is zero or cannot be counted.
    MalformedElement(String),
}

/// The mathematical value of a [`GraphError`].
pub enum GraphErrorView {
    DuplicateTag(Seq<char>),
    DuplicateContext(Seq<char>),
    UndeclaredContext(Seq<char>),
    MalformedElement(Seq<char>),
}

impl View for GraphError {
    type V = GraphErrorView;

    open spec fn view(&self) -> GraphErrorView {
        match self {
            GraphError::DuplicateTag(tag) => GraphErrorView::DuplicateTag(tag@),
            GraphError::DuplicateContext(name) => GraphErrorView::DuplicateContext(name@),
            GraphError::UndeclaredContext(name) => GraphErrorView::UndeclaredContext(name@),
            GraphError::MalformedElement(tag) => GraphErrorView::MalformedElement(tag@),
        }
    }
}

/// An element of a grammar, with the index of the context that holds inside it.
pub struct ElementView {
    pub shape: ElementShape,
    pub context: int,
}

/// The mathematical value of a [`SyntaxGraph`]: its contexts and elements in
/// the order in which they were registered. The first context is the root.
pub struct GraphView {
    pub contexts: Seq<ContextView>,
    pub elements: Seq<ElementView>,
}

impl GraphView {
    /// The grammar with the given root context and no elements.
    pub open spec fn rooted(root: ContextView) -> GraphView {
        GraphView { contexts: seq![root], elements: Seq::empty() }
    }

    /// What every grammar satisfies: it has a root, no two contexts share a
    /// name, no two elements share a tag, and every element is well formed and
    /// bound to a context of the grammar.
    pub open spec fn well_formed(self) -> bool {
        &&& self.contexts.len() > 0
        &&& forall|i: int, j: int|
            0 <= i < j < self.contexts.len() ==> (#[trigger] self.contexts[i]).name
                != (#[trigger] self.contexts[j]).name
        &&& forall|i: int, j: int|
            0 <= i < j < self.elements.len() ==> (#[trigger] self.elements[i]).shape.tag
                != (#[trigger] self.elements[j]).shape.tag
        &&& forall|i: int|
            0 <= i < self.elements.len() ==> {
                &&& (#[trigger] self.elements[i]).shape.well_formed()
                &&& 0 <= self.elements[i].context < self.contexts.len()
            }
    }

    /// The index of the first context from index `from` on with this name.
    pub open spec fn context_from(self, name: Seq<char>, from: int) -> Option<int>
        decreases self.contexts.len() - from,
    {
        if from < 0 || from >= self.contexts.len() {
            None
        } else if self.contexts[from].name == name {
            Some(from)
        } else {
            self.context_from(name, from + 1)
        }
    }

    /// The index of the context with this name.
    pub open spec fn context_named(self, name: Seq<char>) -> Option<int> {
        self.context_from(name, 0)
    }

    /// The index of the first element from index `from` on with this tag.
    pub open spec fn element_from(self, tag: Seq<char>, from: int) -> Option<int>
        decreases self.elements.len() - from,
    {
        if from < 0 || from >= self.elements.len() {
            None
        } else if self.elements[from].shape.tag == tag {
            Some(from)
        } else {
            self.element_from(tag, from + 1)
        }
    }

    /// The index of the element with this tag.
    pub open spec fn element_tagged(self, tag: Seq<char>) -> Option<int> {
        self.element_from(tag, 0)
    }

    /// The grammar with one more context, or the reason why the context is
    /// refused: its name is taken.
    pub open spec fn with_context(self, context: ContextView) -> Result<GraphView, GraphErrorView> {
        if self.context_named(context.name) is Some {
            Err(GraphErrorView::DuplicateContext(context.name))
        } else {
            Ok(GraphView { contexts: self.contexts.push(context), elements: self.elements })
        }
    }

    /// The grammar with one more element, bound to the context of the given
    /// name, or the reason why the element is refused: it is malformed, or
    /// else its tag is taken, or else the context is not declared.
    pub open spec fn with_element(self, shape: ElementShape, context: Seq<char>) -> Result<
        GraphView,
        GraphErrorView,
    > {
        if !shape.well_formed() {
            Err(GraphErrorView::MalformedElement(shape.tag))
        } else if self.element_tagged(shape.tag) is Some {
            Err(GraphErrorView::DuplicateTag(shape.tag))
        } else {
            match self.context_named(context) {
                None => Err(GraphErrorView::UndeclaredContext(context)),
                Some(c) => Ok(
                    GraphView {
                        contexts: self.contexts,
                        elements: self.elements.push(ElementView { shape, context: c }),
                    },
                ),
            }
        }
    }

    /// Whether element `e` may open in context `ctx`.
    pub open spec fn permits(self, ctx: int, e: int) -> bool {
        self.contexts[ctx].tags.contains(self.elements[e].shape.tag)
    }

    /// Whether element `e` may open in context `ctx` and its opening token
    /// stands in `text` at offset `at`.
    pub open spec fn opens_at(self, text: Seq<char>, at: int, ctx: int, e: int) -> bool {
        self.permits(ctx, e) && token_at(text, at, self.elements[e].shape.opener)
    }

    /// The element before index `below` that opens at offset `at`: of those
    /// that may open here and whose token stands here, the one with the
    /// longest token, and of several with tokens of that length the one
    /// registered last.
    pub open spec fn best_opener(self, text: Seq<char>, at: int, ctx: int, below: nat) -> Option<int>
        decreases below,
    {
        if below == 0 || below > self.elements.len() {
            None
        } else {
            let earlier = self.best_opener(text, at, ctx, (below - 1) as nat);
            if self.opens_at(text, at, ctx, below - 1) && (earlier is None
                || self.elements[earlier.unwrap()].shape.opener.len()
                <= self.elements[below - 1].shape.opener.len()) {
                Some(below - 1)
            } else {
                earlier
            }
        }
    }

    /// Whether element `e` is an encloser that may open in context `ctx` and
    /// whose closing token stands in `text` at offset `at`.
    pub open spec fn closes_at(self, text: Seq<char>, at: int, ctx: int, e: int) -> bool {
        &&& self.elements[e].shape.kind is Encloser
        &&& self.permits(ctx, e)
        &&& token_at(text, at, self.elements[e].shape.closer)
    }

    /// The encloser before index `below` whose closing token stands at offset
    /// `at`, chosen as [`Self::best_opener`] chooses.
    pub open spec fn stray_closer(self, text: Seq<char>, at: int, ctx: int, below: nat) -> Option<int>
        decreases below,
    {
        if below == 0 || below > self.elements.len() {
            None
        } else {
            let earlier = self.stray_closer(text, at, ctx, (below - 1) as nat);
            if self.closes_at(text, at, ctx, below - 1) && (earlier is None
                || self.elements[earlier.unwrap()].shape.closer.len()
                <= self.elements[below - 1].shape.closer.len()) {
                Some(below - 1)
            } else {
                earlier
            }
        }
    }
}

/// Longest match, then latest registration: the element that
/// [`GraphView::best_opener`] chooses opens at the offset, no element that
/// opens there has a longer token, and none with a token of the same length
/// was registered later. It chooses none only where no element opens.
pub proof fn lemma_best_opener_is_longest_then_latest(
    g: GraphView,
    text: Seq<char>,
    at: int,
    ctx: int,
    below: nat,
)
    requires
        below <= g.elements.len(),
    ensures
        match g.best_opener(text, at, ctx, below) {
            Some(e) => {
                &&& 0 <= e < below
                &&& g.opens_at(text, at, ctx, e)
                &&& forall|other: int|
                    0 <= other < below && #[trigger] g.opens_at(text, at, ctx, other) ==> {
                        let chosen = g.elements[e].shape.opener.len();
                        let rival = g.elements[other].shape.opener.len();
                        rival < chosen || (rival == chosen && other <= e)
                    }
            },
            None => forall|other: int|
                0 <= other < below ==> !#[trigger] g.opens_at(text, at, ctx, other),
        },
    decreases below,
{
    if below > 0 {
        lemma_best_opener_is_longest_then_latest(g, text, at, ctx, (below - 1) as nat);
    }
}

/// The same for the closing tokens that [`GraphView::stray_closer`] looks for.
pub proof fn lemma_stray_closer_is_longest_then_latest(
    g: GraphView,
    text: Seq<char>,
    at: int,
    ctx: int,
    below: nat,
)
    requires
        below <= g.elements.len(),
    ensures
        match g.stray_closer(text, at, ctx, below) {
            Some(e) => {
                &&& 0 <= e < below
                &&& g.closes_at(text, at, ctx, e)
                &&& forall|other: int|
                    0 <= other < below && #[trigger] g.closes_at(text, at, ctx, other) ==> {
                        let chosen = g.elements[e].shape.closer.len();
                        let rival = g.elements[other].shape.closer.len();
                        rival < chosen || (rival == chosen && other <= e)
                    }
            },
            None => forall|other: int|
                0 <= other < below ==> !#[trigger] g.closes_at(text, at, ctx, other),
        },
    decreases below,
{
    if below > 0 {
        lemma_stray_closer_is_longest_then_latest(g, text, at, ctx, (below - 1) as nat);
    }
}

/// Registers the elements from index `from` on, each in the context it
/// names; the first refusal ends the registration.
pub open spec fn register_all(g: GraphView, elements: Seq<(ElementShape, Seq<char>)>, from: int) -> Result<
    GraphView,
    GraphErrorView,
>
    decreases elements.len() - from,
{
    if from < 0 || from >= elements.len() {
        Ok(g)
    } else {
        match g.with_element(elements[from].0, elements[from].1) {
            Ok(next) => register_all(next, elements, from + 1),
            Err(error) => Err(error),
        }
    }
}

/// A registered element: the element as it was given, its tag and tokens as
/// characters, and the index of its context.
struct ElementEntry<'s> {
    element: EncloserOrOperator<'s>,
    tag: Vec<char>,
    opener: Vec<char>,
    closer: Vec<char>,
    context: usize,
}

impl<'s> ElementEntry<'s> {
    spec fn consistent(&self) -> bool {
        &&& self.tag@ == self.element@.tag
        &&& self.opener@ == self.element@.opener
        &&& self.closer@ == self.element@.closer
    }
}

/// A grammar: a graph of contexts, reachable from a root context through the
/// elements that may open in them.
pub struct SyntaxGraph<'s> {
    contexts: Vec<SyntaxContext>,
    elements: Vec<ElementEntry<'s>>,
}

impl<'s> View for SyntaxGraph<'s> {
    type V = GraphView;

    closed spec fn view(&self) -> GraphView {
        Self::view_of(self.contexts@, self.elements@)
    }
}

impl<'s> SyntaxGraph<'s> {
    spec fn view_of(contexts: Seq<SyntaxContext>, elements: Seq<ElementEntry<'s>>) -> GraphView {
        GraphView {
            contexts: Seq::new(contexts.len(), |i: int| contexts[i]@),
            elements: Seq::new(
                elements.len(),
                |i: int| ElementView { shape: elements[i].element@, context: elements[i].context as int },
            ),
        }
    }

    #[verifier::type_invariant]
    spec fn consistent(&self) -> bool {
        &&& self@.well_formed()
        &&& forall|i: int| 0 <= i < self.elements@.len() ==> (#[trigger] self.elements@[i]).consistent()
    }

    /// How many elements are registered. Every grammar is well formed.
    pub fn element_count(&self) -> (count: usize)
        ensures
            count == self@.elements.len(),
            self@.well_formed(),
    {
        proof {
            use_type_invariant(self);
        }
        self.elements.len()
    }

    /// How many contexts are declared.
    pub fn context_count(&self) -> (count: usize)
        ensures
            count == self@.contexts.len(),
            count > 0,
    {
        proof {
            use_type_invariant(self);
        }
        self.contexts.len()
    }

    /// The element at index `e`.
    pub(crate) fn element(&self, e: usize) -> (element: EncloserOrOperator<'s>)
        requires
            e < self@.elements.len(),
        ensures
            element@ == self@.elements[e as int].shape,
    {
        self.elements[e].element
    }

    /// The index of the context that holds inside the element at index `e`.
    pub(crate) fn child_context(&self, e: usize) -> (context: usize)
        requires
            e < self@.elements.len(),
        ensures
            context == self@.elements[e as int].context,
            context < self@.contexts.len(),
    {
        proof {
            use_type_invariant(self);
        }
        assert(self@.elements[e as int].context == self.elements@[e as int].context);
        self.elements[e].context
    }

    /// The context at index `c`.
    pub(crate) fn context(&self, c: usize) -> (context: &SyntaxContext)
        requires
            c < self@.contexts.len(),
        ensures
            context@ == self@.contexts[c as int],
    {
        &self.contexts[c]
    }

    /// The length of the opening token of the element at index `e`.
    pub(crate) fn opener_len(&self, e: usize) -> (len: usize)
        requires
            e < self@.elements.len(),
        ensures
            len == self@.elements[e as int].shape.opener.len(),
            len > 0,
    {
        proof {
            use_type_invariant(self);
        }
        assert(self.elements@[e as int].consistent());
        assert(self@.elements[e as int].shape.well_formed());
        self.elements[e].opener.len()
    }

    /// The length of the closing token of the element at index `e`.
    pub(crate) fn closer_len(&self, e: usize) -> (len: usize)
        requires
            e < self@.elements.len(),
        ensures
            len == self@.elements[e as int].shape.closer.len(),
    {
        proof {
            use_type_invariant(self);
        }
        assert(self.elements@[e as int].consistent());
        self.elements[e].closer.len()
    }

    /// Whether the opening token of the element at index `e` stands in
    /// `text` at offset `at`.
    pub(crate) fn opener_at(&self, e: usize, text: &[char], at: usize) -> (found: bool)
        requires
            e < self@.elements.len(),
        ensures
            found == token_at(text@, at as int, self@.elements[e as int].shape.opener),
    {
        proof {
            use_type_invariant(self);
        }
        assert(self.elements@[e as int].consistent());
        matches_at(text, at, self.elements[e].opener.as_slice())
    }

    /// Whether the closing token of the element at index `e` stands in
    /// `text` at offset `at`.
    pub(crate) fn closer_at(&self, e: usize, text: &[char], at: usize) -> (found: bool)
        requires
            e < self@.elements.len(),
        ensures
            found == token_at(text@, at as int, self@.elements[e as int].shape.closer),
    {
        proof {
            use_type_invariant(self);
        }
        assert(self.elements@[e as int].consistent());
        matches_at(text, at, self.elements[e].closer.as_slice())
    }

    /// Whether the element at index `e` may open in the context at index `ctx`.
    pub(crate) fn permits(&self, ctx: usize, e: usize) -> (permitted: bool)
        requires
            ctx < self@.contexts.len(),
            e < self@.elements.len(),
        ensures
            permitted == self@.permits(ctx as int, e as int),
    {
        proof {
            use_type_invariant(self);
        }
        assert(self.elements@[e as int].consistent());
        self.contexts[ctx].permits(self.elements[e].tag.as_slice())
    }

    /// The element that opens in `text` at offset `at`, read in the context
    /// at index `ctx`.
    pub(crate) fn find_opener(&self, text: &[char], at: usize, ctx: usize) -> (found: Option<usize>)
        requires
            ctx < self@.contexts.len(),
        ensures
            match found {
                Some(e) => self@.best_opener(text@, at as int, ctx as int, self@.elements.len())
                    == Some(e as int) && e < self@.elements.len(),
                None => self@.best_opener(text@, at as int, ctx as int, self@.elements.len())
                    is None,
            },
    {
        let mut best: Option<usize> = None;
        let mut i: usize = 0;
        while i < self.elements.len()
            invariant
                ctx < self@.contexts.len(),
                i <= self@.elements.len(),
                self.elements@.len() == self@.elements.len(),
                match best {
                    Some(e) => self@.best_opener(text@, at as int, ctx as int, i as nat) == Some(
                        e as int,
                    ) && e < i,
                    None => self@.best_opener(text@, at as int, ctx as int, i as nat) is None,
                },
            decreases self@.elements.len() - i,
        {
            if self.permits(ctx, i) && self.opener_at(i, text, at) {
                let longer = match best {
                    Some(e) => self.opener_len(e) <= self.opener_len(i),
                    None => true,
                };
                if longer {
                    best = Some(i);
                }
            }
            i += 1;
        }
        best
    }

    /// The encloser whose closing token stands in `text` at offset `at`,
    /// read in the context at index `ctx`.
    pub(crate) fn find_stray_closer(&self, text: &[char], at: usize, ctx: usize) -> (found: Option<
        usize,
    >)
        requires
            ctx < self@.contexts.len(),
        ensures
            match found {
                Some(e) => self@.stray_closer(text@, at as int, ctx as int, self@.elements.len())
                    == Some(e as int) && e < self@.elements.len(),
                None => self@.stray_closer(text@, at as int, ctx as int, self@.elements.len())
                    is None,
            },
    {
        let mut best: Option<usize> = None;
        let mut i: usize = 0;
        while i < self.elements.len()
            invariant
                ctx < self@.contexts.len(),
                i <= self@.elements.len(),
                self.elements@.len() == self@.elements.len(),
                match best {
                    Some(e) => self@.stray_closer(text@, at as int, ctx as int, i as nat) == Some(
                        e as int,
                    ) && e < i,
                    None => self@.stray_closer(text@, at as int, ctx as int, i as nat) is None,
                },
            decreases self@.elements.len() - i,
        {
            let is_encloser = match self.element(i).kind() {
                ElementKind::Encloser => true,
                _ => false,
            };
            if is_encloser && self.permits(ctx, i) && self.closer_at(i, text, at) {
                let longer = match best {
                    Some(e) => self.closer_len(e) <= self.closer_len(i),
                    None => true,
                };
                if longer {
                    best = Some(i);
                }
            }
            i += 1;
        }
        best
    }

    /// A grammar with the given root context and no elements.
    pub fn new(root: SyntaxContext) -> (graph: Self)
        ensures
            graph@ == GraphView::rooted(root@),
    {
        let mut contexts: Vec<SyntaxContext> = Vec::new();
        contexts.push(root);
        let graph = SyntaxGraph { contexts, elements: Vec::new() };
        assert(graph@.contexts =~= GraphView::rooted(root@).contexts);
        assert(graph@.elements =~= GraphView::rooted(root@).elements);
        graph
    }

    fn find_context(&self, name: &[char]) -> (found: Option<usize>)
        ensures
            match found {
                Some(c) => self@.context_named(name@) == Some(c as int) && c < self@.contexts.len(),
                None => self@.context_named(name@) is None,
            },
    {
        let mut i: usize = 0;
        while i < self.contexts.len()
            invariant
                i <= self.contexts@.len(),
                self@.context_from(name@, i as int) == self@.context_named(name@),
            decreases self.contexts@.len() - i,
        {
            if same_chars(self.contexts[i].name.as_slice(), name) {
                return Some(i);
            }
            i += 1;
        }
        None
    }

    fn find_element(&self, tag: &[char]) -> (found: Option<usize>)
        ensures
            match found {
                Some(e) => self@.element_tagged(tag@) == Some(e as int) && e < self@.elements.len(),
                None => self@.element_tagged(tag@) is None,
            },
    {
        let mut i: usize = 0;
        proof {
            use_type_invariant(self);
        }
        while i < self.elements.len()
            invariant
                i <= self.elements@.len(),
                forall|k: int|
                    0 <= k < self.elements@.len() ==> (#[trigger] self.elements@[k]).consistent(),
                self@.element_from(tag@, i as int) == self@.element_tagged(tag@),
            decreases self.elements@.len() - i,
        {
            assert(self.elements@[i as int].consistent());
            if same_chars(self.elements[i].tag.as_slice(), tag) {
                return Some(i);
            }
            i += 1;
        }
        None
    }

    /// Declares a context. Fails if a context of that name is declared already.
    pub fn with_context(self, context: SyntaxContext) -> (outcome: Result<Self, GraphError>)
        ensures
            graph_outcome(outcome) == self@.with_context(context@),
    {
        proof {
            use_type_invariant(&self);
        }
        match self.find_context(context.name.as_slice()) {
            Some(_) => Err(GraphError::DuplicateContext(context.name())),
            None => {
                let ghost before = self@;
                let ghost added = context@;
                let SyntaxGraph { mut contexts, elements } = self;
                contexts.push(context);
                proof {
                    let after = Self::view_of(contexts@, elements@);
                    assert(after.contexts =~= before.contexts.push(added));
                    assert(after.elements =~= before.elements);
                    lemma_no_context_named(before, added.name, 0);
                    assert(after.well_formed());
                }
                Ok(SyntaxGraph { contexts, elements })
            },
        }
    }

    fn with_element(self, element: EncloserOrOperator<'s>, context: &str) -> (outcome: Result<
        Self,
        GraphError,
    >)
        ensures
            graph_outcome(outcome) == self@.with_element(element@, context@),
    {
        proof {
            use_type_invariant(&self);
        }
        let tag = chars_of(element.tag());
        let opener = chars_of(element.opening_token());
        let closer = chars_of(element.closing_token());
        let sound = opener.len() > 0 && match element.kind() {
            ElementKind::Encloser => closer.len() > 0 && !same_chars(
                closer.as_slice(),
                opener.as_slice(),
            ),
            ElementKind::SymmetricEncloser => true,
            ElementKind::Operator => {
                let left = element.left_args();
                let right = element.right_args();
                (left > 0 || right > 0) && right <= usize::MAX - left
            },
        };
        assert(tag@.subrange(0, tag@.len() as int) == tag@);
        if !sound {
            return Err(GraphError::MalformedElement(string_of(tag.as_slice(), 0, tag.len())));
        }
        if self.find_element(tag.as_slice()).is_some() {
            return Err(GraphError::DuplicateTag(string_of(tag.as_slice(), 0, tag.len())));
        }
        let context_chars = chars_of(context);
        assert(context_chars@.subrange(0, context_chars@.len() as int) == context_chars@);
        match self.find_context(context_chars.as_slice()) {
            None => Err(
                GraphError::UndeclaredContext(
                    string_of(context_chars.as_slice(), 0, context_chars.len()),
                ),
            ),
            Some(c) => {
                let ghost before = self@;
                let SyntaxGraph { contexts, mut elements } = self;
                elements.push(ElementEntry { element, tag, opener, closer, context: c });
                proof {
                    let after = Self::view_of(contexts@, elements@);
                    assert(after.contexts =~= before.contexts);
                    assert(after.elements =~= before.elements.push(
                        ElementView { shape: element@, context: c as int },
                    ));
                    lemma_no_element_tagged(before, element@.tag, 0);
                    assert(after.well_formed());
                }
                Ok(SyntaxGraph { contexts, elements })
            },
        }
    }

    /// Registers an encloser whose inside is read in the context of the given
    /// name. Fails as [`GraphView::with_element`] says.
    pub fn with_encloser(self, encloser: StringTaggedEncloser<'s>, context: &str) -> (outcome: Result<
        Self,
        GraphError,
    >)
        ensures
            graph_outcome(outcome) == self@.with_element(
                EncloserOrOperator::Encloser(encloser)@,
                context@,
            ),
    {
        self.with_element(EncloserOrOperator::Encloser(encloser), context)
    }

    /// Registers a symmetric encloser whose inside is read in the context of
    /// the given name. Fails as [`GraphView::with_element`] says.
    pub fn with_symmetric_encloser(
        self,
        encloser: StringTaggedSymmetricEncloser<'s>,
        context: &str,
    ) -> (outcome: Result<Self, GraphError>)
        ensures
            graph_outcome(outcome) == self@.with_element(
                EncloserOrOperator::SymmetricEncloser(encloser)@,
                context@,
            ),
    {
        self.with_element(EncloserOrOperator::SymmetricEncloser(encloser), context)
    }

    /// Registers an operator whose right arguments are read in the context of
    /// the given name. Fails as [`GraphView::with_element`] says.
    pub fn with_operator(self, operator: StringTaggedOperator<'s>, context: &str) -> (outcome: Result<
        Self,
        GraphError,
    >)
        ensures
            graph_outcome(outcome) == self@.with_element(
                EncloserOrOperator::Operator(operator)@,
                context@,
            ),
    {
        self.with_element(EncloserOrOperator::Operator(operator), context)
    }

    /// The root context.
    pub fn root(&self) -> (root: &SyntaxContext)
        ensures
            root@ == self@.contexts[0],
    {
        proof {
            use_type_invariant(self);
        }
        &self.contexts[0]
    }

    /// The element with the given tag.
    pub fn element_for(&self, tag: &str) -> (element: Option<EncloserOrOperator<'s>>)
        ensures
            match element {
                Some(e) => self@.element_tagged(tag@) is Some && e@
                    == self@.elements[self@.element_tagged(tag@).unwrap()].shape,
                None => self@.element_tagged(tag@) is None,
            },
    {
        let tag_chars = chars_of(tag);
        match self.find_element(tag_chars.as_slice()) {
            Some(e) => Some(self.elements[e].element),
            None => None,
        }
    }

    /// The context that holds inside the element with the given tag.
    pub fn context_for(&self, tag: &str) -> (context: Option<&SyntaxContext>)
        ensures
            match context {
                Some(c) => self@.element_tagged(tag@) is Some && c@
                    == self@.contexts[self@.elements[self@.element_tagged(tag@).unwrap()].context],
                None => self@.element_tagged(tag@) is None,
            },
    {
        proof {
            use_type_invariant(self);
        }
        let tag_chars = chars_of(tag);
        match self.find_element(tag_chars.as_slice()) {
            Some(e) => {
                assert(self@.elements[e as int].context == self.elements@[e as int].context);
                Some(&self.elements[e].context_of(&self.contexts))
            },
            None => None,
        }
    }
}

impl<'s> ElementEntry<'s> {
    fn context_of<'a>(&self, contexts: &'a Vec<SyntaxContext>) -> (context: &'a SyntaxContext)
        requires
            self.context < contexts@.len(),
        ensures
            *context == contexts@[self.context as int],
    {
        &contexts[self.context]
    }
}

/// The mathematical value of what a registration returns.
pub open spec fn graph_outcome(outcome: Result<SyntaxGraph<'_>, GraphError>) -> Result<
    GraphView,
    GraphErrorView,
> {
    match outcome {
        Ok(graph) => Ok(graph@),
        Err(error) => Err(error@),
    }
}

/// Where no context has the name from index `from` on, none is found.
pub proof fn lemma_no_context_named(g: GraphView, name: Seq<char>, from: int)
    requires
        0 <= from,
        g.context_from(name, from) is None,
    ensures
        forall|i: int| from <= i < g.contexts.len() ==> (#[trigger] g.contexts[i]).name != name,
    decreases g.contexts.len() - from,
{
    if from < g.contexts.len() {
        lemma_no_context_named(g, name, from + 1);
    }
}

/// Where no element has the tag from index `from` on, none is found.
pub proof fn lemma_no_element_tagged(g: GraphView, tag: Seq<char>, from: int)
    requires
        0 <= from,
        g.element_from(tag, from) is None,
    ensures
        forall|i: int| from <= i < g.elements.len() ==> (#[trigger] g.elements[i]).shape.tag != tag,
    decreases g.elements.len() - from,
{
    if from < g.elements.len() {
        lemma_no_element_tagged(g, tag, from + 1);
    }
}

} // verus!
