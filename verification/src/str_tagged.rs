//! Grammar elements whose tags and tokens are string slices, and two ways to
//! describe a whole grammar with plain strings and characters.
use crate::syntax::{
    encloser_shape, graph_outcome, operator_shape, register_all, ContextView, ElementShape,
    GraphError, GraphErrorView, GraphView, SyntaxContext, SyntaxGraph, str_views,
};
use crate::text::{chars_of, same_chars, string_of};
use vstd::prelude::*;

verus! {

/// A delimiter pair with distinct opening and closing tokens.
#[derive(Debug, Clone, Copy, PartialEq)]
pub struct StringTaggedEncloser<'s> {
    tag: &'s str,
    opener: &'s str,
    closer: &'s str,
}

impl<'s> StringTaggedEncloser<'s> {
    /// The tag, as characters.
    pub closed spec fn tag_view(&self) -> Seq<char> {
        self.tag@
    }

    /// The opening token, as characters.
    pub closed spec fn opener_view(&self) -> Seq<char> {
        self.opener@
    }

    /// The closing token, as characters.
    pub closed spec fn closer_view(&self) -> Seq<char> {
        self.closer@
    }

    /// An encloser with the given tag and tokens.
    pub fn new(tag: &'s str, opener: &'s str, closer: &'s str) -> (encloser: Self)
        ensures
            encloser.tag_view() == tag@,
            encloser.opener_view() == opener@,
            encloser.closer_view() == closer@,
    {
        Self { tag, opener, closer }
    }

    /// The tag.
    pub fn tag(&self) -> (tag: &'s str)
        ensures
            tag@ == self.tag_view(),
    {
        self.tag
    }

    /// The opening token.
    pub fn opening_encloser_str(&self) -> (opener: &'s str)
        ensures
            opener@ == self.opener_view(),
    {
        self.opener
    }

    /// The closing token.
    pub fn closing_encloser_str(&self) -> (closer: &'s str)
        ensures
            closer@ == self.closer_view(),
    {
        self.closer
    }
}

/// A delimiter with one token that both opens and closes.
#[derive(Debug, Clone, Copy, PartialEq)]
pub struct StringTaggedSymmetricEncloser<'s> {
    tag: &'s str,
    encloser: &'s str,
}

impl<'s> StringTaggedSymmetricEncloser<'s> {
    /// The tag, as characters.
    pub closed spec fn tag_view(&self) -> Seq<char> {
        self.tag@
    }

    /// The token, as characters.
    pub closed spec fn encloser_view(&self) -> Seq<char> {
        self.encloser@
    }

    /// A symmetric encloser with the given tag and token.
    pub fn new(tag: &'s str, encloser: &'s str) -> (symmetric: Self)
        ensures
            symmetric.tag_view() == tag@,
            symmetric.encloser_view() == encloser@,
    {
        Self { tag, encloser }
    }

    /// The tag.
    pub fn tag(&self) -> (tag: &'s str)
        ensures
            tag@ == self.tag_view(),
    {
        self.tag
    }

    /// The token that opens and closes.
    pub fn encloser_str(&self) -> (encloser: &'s str)
        ensures
            encloser@ == self.encloser_view(),
    {
        self.encloser
    }
}

/// An operator token that takes `left_args` expressions before it and
/// `right_args` expressions after it.
#[derive(Debug, Clone, Copy, PartialEq)]
pub struct StringTaggedOperator<'s> {
    tag: &'s str,
    operator: &'s str,
    left_args: usize,
    right_args: usize,
}

impl<'s> StringTaggedOperator<'s> {
    /// The tag, as characters.
    pub closed spec fn tag_view(&self) -> Seq<char> {
        self.tag@
    }

    /// The token, as characters.
    pub closed spec fn operator_view(&self) -> Seq<char> {
        self.operator@
    }

    /// How many expressions before it the operator takes.
    pub closed spec fn left_view(&self) -> nat {
        self.left_args as nat
    }

    /// How many expressions after it the operator takes.
    pub closed spec fn right_view(&self) -> nat {
        self.right_args as nat
    }

    /// An operator with the given tag, token and arities.
    pub fn new(tag: &'s str, operator: &'s str, left_args: usize, right_args: usize) -> (op: Self)
        ensures
            op.tag_view() == tag@,
            op.operator_view() == operator@,
            op.left_view() == left_args,
            op.right_view() == right_args,
    {
        Self { tag, operator, left_args, right_args }
    }

    /// The tag.
    pub fn tag(&self) -> (tag: &'s str)
        ensures
            tag@ == self.tag_view(),
    {
        self.tag
    }

    /// The operator's token.
    pub fn op_str(&self) -> (operator: &'s str)
        ensures
            operator@ == self.operator_view(),
    {
        self.operator
    }

    /// How many expressions before it the operator takes.
    pub fn left_args(&self) -> (left: usize)
        ensures
            left == self.left_view(),
    {
        self.left_args
    }

    /// How many expressions after it the operator takes.
    pub fn right_args(&self) -> (right: usize)
        ensures
            right == self.right_view(),
    {
        self.right_args
    }
}

/// A grammar whose elements are tagged with string slices.
pub type StringTaggedSyntaxGraph<'s> = SyntaxGraph<'s>;

/// The elements that encloser descriptions stand for, each with the name of
/// its context: the one that the description gives.
pub open spec fn described_enclosers(enclosers: Seq<(&str, &str, &str, &str)>) -> Seq<
    (ElementShape, Seq<char>),
> {
    Seq::new(
        enclosers.len(),
        |i: int| (encloser_shape(enclosers[i].0@, enclosers[i].1@, enclosers[i].2@), enclosers[i].3@),
    )
}

/// The elements that operator descriptions stand for, each with the name of
/// its context.
pub open spec fn described_operators(operators: Seq<(&str, &str, usize, usize, &str)>) -> Seq<
    (ElementShape, Seq<char>),
> {
    Seq::new(
        operators.len(),
        |i: int|
            (
                operator_shape(
                    operators[i].0@,
                    operators[i].1@,
                    operators[i].2 as nat,
                    operators[i].3 as nat,
                ),
                operators[i].4@,
            ),
    )
}

/// The elements that descriptions without contexts stand for, enclosers
/// first, all in the context of the given name.
pub open spec fn described_in(
    context: Seq<char>,
    enclosers: Seq<(&str, &str, &str)>,
    operators: Seq<(&str, &str, usize, usize)>,
) -> Seq<(ElementShape, Seq<char>)> {
    Seq::new(
        enclosers.len(),
        |i: int| (encloser_shape(enclosers[i].0@, enclosers[i].1@, enclosers[i].2@), context),
    ) + Seq::new(
        operators.len(),
        |i: int|
            (
                operator_shape(
                    operators[i].0@,
                    operators[i].1@,
                    operators[i].2 as nat,
                    operators[i].3 as nat,
                ),
                context,
            ),
    )
}

/// The tags of the described elements, in order.
pub open spec fn described_tags(elements: Seq<(ElementShape, Seq<char>)>) -> Seq<Seq<char>> {
    Seq::new(elements.len(), |i: int| elements[i].0.tag)
}

/// The grammar that descriptions without contexts stand for: one context,
/// with the empty name, in which every described tag may open, and every
/// element registered in it, enclosers first.
pub open spec fn contextless_graph(
    whitespace: Seq<char>,
    escape: Option<char>,
    enclosers: Seq<(&str, &str, &str)>,
    operators: Seq<(&str, &str, usize, usize)>,
) -> Result<GraphView, GraphErrorView> {
    let elements = described_in(Seq::empty(), enclosers, operators);
    register_all(
        GraphView::rooted(
            ContextView { name: Seq::empty(), tags: described_tags(elements), whitespace, escape },
        ),
        elements,
        0,
    )
}

/// The context that a description stands for.
pub open spec fn described_context(context: (&str, Vec<&str>, Option<char>, Vec<char>)) -> ContextView {
    ContextView {
        name: context.0@,
        tags: str_views(context.1@),
        whitespace: context.3@,
        escape: context.2,
    }
}

/// The index of the first described context from index `from` on with the
/// given name.
pub open spec fn described_root(
    contexts: Seq<(&str, Vec<&str>, Option<char>, Vec<char>)>,
    root: Seq<char>,
    from: int,
) -> Option<int>
    decreases contexts.len() - from,
{
    if from < 0 || from >= contexts.len() {
        None
    } else if contexts[from].0@ == root {
        Some(from)
    } else {
        described_root(contexts, root, from + 1)
    }
}

/// Declares the described contexts from index `from` on, but for the one at
/// index `root`; the first refusal ends the declaration.
pub open spec fn declare_others(
    g: GraphView,
    contexts: Seq<(&str, Vec<&str>, Option<char>, Vec<char>)>,
    root: int,
    from: int,
) -> Result<GraphView, GraphErrorView>
    decreases contexts.len() - from,
{
    if from < 0 || from >= contexts.len() {
        Ok(g)
    } else if from == root {
        declare_others(g, contexts, root, from + 1)
    } else {
        match g.with_context(described_context(contexts[from])) {
            Ok(next) => declare_others(next, contexts, root, from + 1),
            Err(error) => Err(error),
        }
    }
}

/// The grammar that descriptions with contexts stand for. The root is the
/// first described context with the given name; the other contexts are
/// declared in order, then the enclosers and then the operators are
/// registered in order, each in the context that its description names.
pub open spec fn described_graph(
    root: Seq<char>,
    contexts: Seq<(&str, Vec<&str>, Option<char>, Vec<char>)>,
    enclosers: Seq<(&str, &str, &str, &str)>,
    operators: Seq<(&str, &str, usize, usize, &str)>,
) -> Result<GraphView, GraphErrorView> {
    match described_root(contexts, root, 0) {
        None => Err(GraphErrorView::UndeclaredContext(root)),
        Some(r) => match declare_others(
            GraphView::rooted(described_context(contexts[r])),
            contexts,
            r,
            0,
        ) {
            Err(error) => Err(error),
            Ok(declared) => register_all(
                declared,
                described_enclosers(enclosers) + described_operators(operators),
                0,
            ),
        },
    }
}

/// Registers an encloser description: as a symmetric encloser where its two
/// tokens are the same, as an encloser otherwise.
fn register_encloser<'s>(
    graph: SyntaxGraph<'s>,
    tag: &'s str,
    opener: &'s str,
    closer: &'s str,
    context: &str,
) -> (outcome: Result<SyntaxGraph<'s>, GraphError>)
    ensures
        graph_outcome(outcome) == graph@.with_element(
            encloser_shape(tag@, opener@, closer@),
            context@,
        ),
{
    let opener_chars = chars_of(opener);
    let closer_chars = chars_of(closer);
    if same_chars(opener_chars.as_slice(), closer_chars.as_slice()) {
        graph.with_symmetric_encloser(StringTaggedSymmetricEncloser::new(tag, opener), context)
    } else {
        graph.with_encloser(StringTaggedEncloser::new(tag, opener, closer), context)
    }
}

impl<'s> StringTaggedSyntaxGraph<'s> {
    /// Builds a grammar with a single context from plain descriptions: the
    /// whitespace characters, the escape character, the enclosers as (tag,
    /// opener, closer) and the operators as (tag, token, left arguments,
    /// right arguments). An encloser whose opener and closer are the same is
    /// a symmetric encloser. Every tag may open everywhere.
    pub fn contextless_from_descriptions(
        whitespace: Vec<char>,
        escape: Option<char>,
        enclosers: Vec<(&'s str, &'s str, &'s str)>,
        operators: Vec<(&'s str, &'s str, usize, usize)>,
    ) -> (outcome: Result<Self, GraphError>)
        ensures
            graph_outcome(outcome) == contextless_graph(whitespace@, escape, enclosers@, operators@),
    {
        let ghost elements = described_in(Seq::empty(), enclosers@, operators@);
        let mut tags: Vec<&'s str> = Vec::new();
        let mut i: usize = 0;
        while i < enclosers.len()
            invariant
                i <= enclosers@.len(),
                tags@.len() == i,
                elements == described_in(Seq::empty(), enclosers@, operators@),
                forall|k: int| 0 <= k < i ==> (#[trigger] tags@[k])@ == elements[k].0.tag,
            decreases enclosers@.len() - i,
        {
            tags.push(enclosers[i].0);
            i += 1;
        }
        let mut j: usize = 0;
        while j < operators.len()
            invariant
                j <= operators@.len(),
                tags@.len() == enclosers@.len() + j,
                elements == described_in(Seq::empty(), enclosers@, operators@),
                forall|k: int|
                    0 <= k < enclosers@.len() + j ==> (#[trigger] tags@[k])@ == elements[k].0.tag,
            decreases operators@.len() - j,
        {
            tags.push(operators[j].0);
            j += 1;
        }
        let name = "";
        proof {
            reveal_strlit("");
            assert(name@ =~= Seq::<char>::empty());
            assert(str_views(tags@) =~= described_tags(elements));
        }
        let mut graph = SyntaxGraph::new(
            SyntaxContext::new(name, tags.as_slice(), escape, whitespace.as_slice()),
        );
        let ghost goal = contextless_graph(whitespace@, escape, enclosers@, operators@);
        let mut i: usize = 0;
        while i < enclosers.len()
            invariant
                i <= enclosers@.len(),
                name@ == Seq::<char>::empty(),
                elements == described_in(Seq::empty(), enclosers@, operators@),
                goal == contextless_graph(whitespace@, escape, enclosers@, operators@),
                register_all(graph@, elements, i as int) == goal,
            decreases enclosers@.len() - i,
        {
            let (tag, opener, closer) = enclosers[i];
            assert(elements[i as int] == (
                encloser_shape(tag@, opener@, closer@),
                Seq::<char>::empty(),
            ));
            match register_encloser(graph, tag, opener, closer, name) {
                Ok(next) => {
                    graph = next;
                },
                Err(error) => {
                    return Err(error);
                },
            }
            i += 1;
        }
        let mut j: usize = 0;
        while j < operators.len()
            invariant
                j <= operators@.len(),
                name@ == Seq::<char>::empty(),
                elements == described_in(Seq::empty(), enclosers@, operators@),
                goal == contextless_graph(whitespace@, escape, enclosers@, operators@),
                register_all(graph@, elements, enclosers@.len() + j) == goal,
            decreases operators@.len() - j,
        {
            let (tag, token, left, right) = operators[j];
            assert(elements[enclosers@.len() + j] == (
                operator_shape(tag@, token@, left as nat, right as nat),
                Seq::<char>::empty(),
            ));
            match graph.with_operator(StringTaggedOperator::new(tag, token, left, right), name) {
                Ok(next) => {
                    graph = next;
                },
                Err(error) => {
                    return Err(error);
                },
            }
            j += 1;
        }
        Ok(graph)
    }

    /// Builds a grammar from plain descriptions: the root context's name, the
    /// contexts as (name, permitted tags, escape character, whitespace
    /// characters), the enclosers as (tag, opener, closer, context) and the
    /// operators as (tag, token, left arguments, right arguments, context).
    /// An encloser whose opener and closer are the same is a symmetric
    /// encloser.
    pub fn from_descriptions(
        root: &'s str,
        contexts: Vec<(&'s str, Vec<&'s str>, Option<char>, Vec<char>)>,
        enclosers: Vec<(&'s str, &'s str, &'s str, &'s str)>,
        operators: Vec<(&'s str, &'s str, usize, usize, &'s str)>,
    ) -> (outcome: Result<Self, GraphError>)
        ensures
            graph_outcome(outcome) == described_graph(root@, contexts@, enclosers@, operators@),
    {
        let root_chars = chars_of(root);
        let mut found: Option<usize> = None;
        let mut r: usize = 0;
        while r < contexts.len()
            invariant_except_break
                found is None,
                described_root(contexts@, root@, r as int) == described_root(contexts@, root@, 0),
            invariant
                r <= contexts@.len(),
                root_chars@ == root@,
            ensures
                match found {
                    Some(k) => described_root(contexts@, root@, 0) == Some(k as int) && k
                        < contexts@.len(),
                    None => described_root(contexts@, root@, 0) is None,
                },
            decreases contexts@.len() - r,
        {
            let name_chars = chars_of(contexts[r].0);
            if same_chars(name_chars.as_slice(), root_chars.as_slice()) {
                found = Some(r);
                break;
            }
            r += 1;
        }
        let root_index = match found {
            Some(k) => k,
            None => {
                assert(root_chars@.subrange(0, root_chars@.len() as int) == root_chars@);
                return Err(
                    GraphError::UndeclaredContext(
                        string_of(root_chars.as_slice(), 0, root_chars.len()),
                    ),
                );
            },
        };
        let described = &contexts[root_index];
        let mut graph = SyntaxGraph::new(
            SyntaxContext::new(
                described.0,
                described.1.as_slice(),
                described.2,
                described.3.as_slice(),
            ),
        );
        let ghost goal = described_graph(root@, contexts@, enclosers@, operators@);
        let ghost elements = described_enclosers(enclosers@) + described_operators(operators@);
        let mut c: usize = 0;
        while c < contexts.len()
            invariant
                c <= contexts@.len(),
                root_index < contexts@.len(),
                elements == described_enclosers(enclosers@) + described_operators(operators@),
                goal == described_graph(root@, contexts@, enclosers@, operators@),
                goal == match declare_others(graph@, contexts@, root_index as int, c as int) {
                    Err(error) => Err(error),
                    Ok(declared) => register_all(declared, elements, 0),
                },
            decreases contexts@.len() - c,
        {
            if c != root_index {
                let described = &contexts[c];
                let context = SyntaxContext::new(
                    described.0,
                    described.1.as_slice(),
                    described.2,
                    described.3.as_slice(),
                );
                match graph.with_context(context) {
                    Ok(next) => {
                        graph = next;
                    },
                    Err(error) => {
                        return Err(error);
                    },
                }
            }
            c += 1;
        }
        let mut i: usize = 0;
        while i < enclosers.len()
            invariant
                i <= enclosers@.len(),
                elements == described_enclosers(enclosers@) + described_operators(operators@),
                goal == described_graph(root@, contexts@, enclosers@, operators@),
                register_all(graph@, elements, i as int) == goal,
            decreases enclosers@.len() - i,
        {
            let (tag, opener, closer, context) = enclosers[i];
            assert(elements[i as int] == (encloser_shape(tag@, opener@, closer@), context@));
            match register_encloser(graph, tag, opener, closer, context) {
                Ok(next) => {
                    graph = next;
                },
                Err(error) => {
                    return Err(error);
                },
            }
            i += 1;
        }
        let mut j: usize = 0;
        while j < operators.len()
            invariant
                j <= operators@.len(),
                elements == described_enclosers(enclosers@) + described_operators(operators@),
                goal == described_graph(root@, contexts@, enclosers@, operators@),
                register_all(graph@, elements, enclosers@.len() + j) == goal,
            decreases operators@.len() - j,
        {
            let (tag, token, left, right, context) = operators[j];
            assert(elements[enclosers@.len() + j] == (
                operator_shape(tag@, token@, left as nat, right as nat),
                context@,
            ));
            match graph.with_operator(StringTaggedOperator::new(tag, token, left, right), context) {
                Ok(next) => {
                    graph = next;
                },
                Err(error) => {
                    return Err(error);
                },
            }
            j += 1;
        }
        Ok(graph)
    }
}

} // verus!
