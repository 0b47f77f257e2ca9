//! The scanning state machine: it reads a text against a grammar and yields
//! one completed tree per reading.
//!
//! What a reading returns is stated by [`read_from`], a function of the
//! grammar, the text and the offset at which the reading starts. It is
//! defined by single steps ([`step`]) over a [`ScanState`].
use crate::ast::{ordered, raw_of, DocumentSyntaxTree, RawSexp, TreeView};
use crate::scan::Scan;
use crate::syntax::{
    lemma_best_opener_is_longest_then_latest, lemma_stray_closer_is_longest_then_latest, GraphView,
    SyntaxGraph,
};
use crate::text::{chars_of, token_at};
use vstd::prelude::*;

verus! {

/// Why a reading failed. Each error carries the text of the offending token.
#[derive(Debug, PartialEq)]
pub enum ParseError {
    /// A closing token stands where no scope is open, or where the
    /// innermost open scope expects another closer.
    UnexpectedCloser(String),
    /// The text ended while the encloser with this opening token was open.
    EndOfTextWithOpenEncloser(String),
    /// The operator with this token found too few expressions before it.
    OperatorMissingLeftArgument(String),
    /// The operator with this token found too few expressions after it.
    OperatorMissingRightArgument(String),
}

/// The mathematical value of a [`ParseError`].
pub enum ParseErrorView {
    UnexpectedCloser(Seq<char>),
    EndOfTextWithOpenEncloser(Seq<char>),
    OperatorMissingLeftArgument(Seq<char>),
    OperatorMissingRightArgument(Seq<char>),
}

impl View for ParseError {
    type V = ParseErrorView;

    open spec fn view(&self) -> ParseErrorView {
        match self {
            ParseError::UnexpectedCloser(t) => ParseErrorView::UnexpectedCloser(t@),
            ParseError::EndOfTextWithOpenEncloser(t) => ParseErrorView::EndOfTextWithOpenEncloser(t@),
            ParseError::OperatorMissingLeftArgument(t) => ParseErrorView::OperatorMissingLeftArgument(
                t@,
            ),
            ParseError::OperatorMissingRightArgument(t) => ParseErrorView::OperatorMissingRightArgument(
                t@,
            ),
        }
    }
}

/// A scope that is open: the index of its element in the grammar, the offset
/// at which its span starts, the offset of its opening token, and the index
/// of its first child among the nodes of the state.
pub struct OpenView {
    pub element: int,
    pub start: int,
    pub token_at: int,
    pub base: int,
}

/// The state of a reading: the offset of the next character; the start of
/// the leaf token that is being read, if any; whether the last character
/// was an escape character; the open scopes, outermost first; and the
/// completed nodes that no completed node holds yet, in source order. The
/// nodes from a scope's `base` on are that scope's children so far; the
/// nodes before the outermost scope's `base` belong to the top level.
pub struct ScanState {
    pub position: int,
    pub leaf: Option<int>,
    pub escaped: bool,
    pub open: Seq<OpenView>,
    pub nodes: Seq<TreeView>,
}

/// What a reading returns: a tree, the end of the input, or an error; the
/// offset at which the next reading starts; and, with an error, the offset
/// of the token that the error names.
pub struct Reading {
    pub outcome: Result<Option<TreeView>, ParseErrorView>,
    pub position: int,
    pub offset: Option<int>,
}

/// How a step ends: with a new state, or with the reading's result.
pub enum Step {
    Continue(ScanState),
    Finished(Reading),
}

/// What stands at the next character.
pub enum Token {
    /// The context's escape character.
    Escape,
    /// The closer of the innermost open scope.
    Close,
    /// The closer of the innermost open encloser, while operators above it
    /// still lack arguments.
    MissingRight,
    /// The closer of the encloser with this index, which is not expected.
    Unexpected(int),
    /// The opening token of the element with this index.
    Open(int),
    /// Whitespace.
    Blank,
    /// A character of a leaf token.
    Content,
}

impl ScanState {
    /// The state in which a reading starts at the given offset.
    pub open spec fn fresh(position: int) -> ScanState {
        ScanState { position, leaf: None, escaped: false, open: Seq::empty(), nodes: Seq::empty() }
    }

    /// The same state at another offset.
    pub open spec fn at(self, position: int) -> ScanState {
        ScanState { position, ..self }
    }

    /// Whether a tree stands completed at the top level, with no scope open
    /// and no leaf token being read.
    pub open spec fn top_level_value(self) -> bool {
        self.open.len() == 0 && self.nodes.len() > 0 && self.leaf is None
    }

    /// The result of a reading that yields the first node.
    pub open spec fn yields(self) -> Step {
        Step::Finished(
            Reading { outcome: Ok(Some(self.nodes[0])), position: self.position, offset: None },
        )
    }
}

/// The index of the context in which the next character is read: the
/// context of the innermost open scope's element, or the root.
pub open spec fn context_of(g: GraphView, st: ScanState) -> int {
    if st.open.len() == 0 {
        0
    } else {
        g.elements[st.open.last().element].context
    }
}

/// The index, among the open scopes, of the innermost one that is no
/// operator.
pub open spec fn innermost_encloser(g: GraphView, open: Seq<OpenView>) -> Option<int>
    decreases open.len(),
{
    if open.len() == 0 {
        None
    } else if g.elements[open.last().element].shape.kind is Operator {
        innermost_encloser(g, open.drop_last())
    } else {
        Some(open.len() - 1)
    }
}

/// How many left arguments the scope holds: an operator's left arity.
pub open spec fn held(g: GraphView, scope: OpenView) -> int {
    if g.elements[scope.element].shape.kind is Operator {
        g.elements[scope.element].shape.left as int
    } else {
        0
    }
}

/// How many completed expressions an operator that opens now can take as
/// its left arguments: the nodes of the current scope, but for the left
/// arguments that the scope's own operator holds.
pub open spec fn available(g: GraphView, st: ScanState) -> int {
    if st.open.len() == 0 {
        st.nodes.len() as int
    } else {
        st.nodes.len() - st.open.last().base - held(g, st.open.last())
    }
}

/// The state after the innermost scope was closed at offset `end`: its
/// children are wrapped into one node, which takes their place.
pub open spec fn close_top(g: GraphView, st: ScanState, end: int) -> ScanState {
    let top = st.open.last();
    let node = TreeView::Inner {
        start: top.start,
        end,
        element: g.elements[top.element].shape,
        children: st.nodes.subrange(top.base, st.nodes.len() as int),
    };
    ScanState { open: st.open.drop_last(), nodes: st.nodes.take(top.base).push(node), ..st }
}

/// Whether the innermost scope is an operator that has all its arguments.
pub open spec fn saturated_top(g: GraphView, st: ScanState) -> bool {
    &&& st.open.len() > 0
    &&& g.elements[st.open.last().element].shape.kind is Operator
    &&& st.nodes.len() - st.open.last().base == g.elements[st.open.last().element].shape.left
        + g.elements[st.open.last().element].shape.right
}

/// The offset at which an operator's node ends: behind its last right
/// argument, or behind its token where it takes none.
pub open spec fn operator_end(g: GraphView, st: ScanState) -> int {
    let top = st.open.last();
    let shape = g.elements[top.element].shape;
    if shape.right > 0 && st.nodes.len() > 0 {
        st.nodes.last().end()
    } else {
        top.token_at + shape.opener.len()
    }
}

/// The state after every operator that has all its arguments was closed,
/// innermost first: a closed operator is an argument of the scope around it.
pub open spec fn settle(g: GraphView, st: ScanState) -> ScanState
    decreases st.open.len(),
{
    if saturated_top(g, st) {
        settle(g, close_top(g, st, operator_end(g, st)))
    } else {
        st
    }
}

/// The state after the leaf token that is being read was completed: it is
/// a node with the text from its start to the current offset.
pub open spec fn flush(g: GraphView, text: Seq<char>, st: ScanState) -> ScanState {
    let start = st.leaf.unwrap();
    let leaf = TreeView::Leaf { start, end: st.position, text: text.subrange(start, st.position) };
    settle(g, ScanState { leaf: None, escaped: false, nodes: st.nodes.push(leaf), ..st })
}

/// What stands at the next character of the text.
pub open spec fn classify(g: GraphView, text: Seq<char>, st: ScanState) -> Token {
    let at = st.position;
    let ctx = context_of(g, st);
    let inner = innermost_encloser(g, st.open);
    if g.contexts[ctx].escape == Some(text[at]) {
        Token::Escape
    } else if st.open.len() > 0 && g.elements[st.open.last().element].shape.kind
        is SymmetricEncloser && token_at(text, at, g.elements[st.open.last().element].shape.opener) {
        Token::Close
    } else if inner is Some && g.elements[st.open[inner.unwrap()].element].shape.kind is Encloser
        && token_at(text, at, g.elements[st.open[inner.unwrap()].element].shape.closer) {
        if inner.unwrap() == st.open.len() - 1 {
            Token::Close
        } else {
            Token::MissingRight
        }
    } else {
        match g.stray_closer(text, at, ctx, g.elements.len()) {
            Some(e) => Token::Unexpected(e),
            None => match g.best_opener(text, at, ctx, g.elements.len()) {
                Some(e) => Token::Open(e),
                None => if g.contexts[ctx].whitespace.contains(text[at]) {
                    Token::Blank
                } else {
                    Token::Content
                },
            },
        }
    }
}

/// The result of a reading that fails at the current offset.
pub open spec fn fails(error: ParseErrorView, position: int, offset: int) -> Step {
    Step::Finished(Reading { outcome: Err(error), position, offset: Some(offset) })
}

/// The step that opens the element with index `e` at the current offset.
pub open spec fn open_element(g: GraphView, st: ScanState, e: int) -> Step {
    let at = st.position;
    let shape = g.elements[e].shape;
    let behind = at + shape.opener.len();
    if !(shape.kind is Operator) {
        if st.top_level_value() {
            st.yields()
        } else {
            Step::Continue(
                ScanState {
                    position: behind,
                    open: st.open.push(
                        OpenView { element: e, start: at, token_at: at, base: st.nodes.len() as int },
                    ),
                    ..st
                },
            )
        }
    } else if st.top_level_value() && shape.left != 1 {
        st.yields()
    } else if available(g, st) < shape.left {
        fails(ParseErrorView::OperatorMissingLeftArgument(shape.opener), behind, at)
    } else {
        let base = st.nodes.len() - shape.left;
        let start = if shape.left > 0 {
            st.nodes[base].start()
        } else {
            at
        };
        Step::Continue(
            settle(
                g,
                ScanState {
                    position: behind,
                    open: st.open.push(OpenView { element: e, start, token_at: at, base }),
                    ..st
                },
            ),
        )
    }
}

/// The step at the end of the text.
pub open spec fn step_at_end(g: GraphView, text: Seq<char>, st: ScanState) -> Step {
    if st.leaf is Some {
        Step::Continue(flush(g, text, st))
    } else if st.open.len() > 0 {
        match innermost_encloser(g, st.open) {
            Some(k) => fails(
                ParseErrorView::EndOfTextWithOpenEncloser(
                    g.elements[st.open[k].element].shape.opener,
                ),
                text.len() as int,
                st.open[k].token_at,
            ),
            None => fails(
                ParseErrorView::OperatorMissingRightArgument(
                    g.elements[st.open.last().element].shape.opener,
                ),
                text.len() as int,
                st.open.last().token_at,
            ),
        }
    } else if st.nodes.len() > 0 {
        st.yields()
    } else {
        Step::Finished(Reading { outcome: Ok(None), position: st.position, offset: None })
    }
}

/// One step of a reading.
///
/// At the end of the text a leaf token that is being read is completed;
/// else an open scope is an error, and else the completed tree, if there is
/// one, is the result. A character behind an escape character belongs to
/// the leaf token. Otherwise the step goes by what stands at the character:
/// an escape character and a content character extend the leaf token;
/// before anything else, a leaf token that is being read is completed;
/// whitespace is skipped; a closer closes the innermost scope; an opening
/// token opens a scope. Where a tree stands completed at the top level, it
/// is the result as soon as something other than whitespace or an operator
/// that takes it as its one left argument follows.
pub open spec fn step(g: GraphView, text: Seq<char>, st: ScanState) -> Step {
    let at = st.position;
    if at >= text.len() {
        step_at_end(g, text, st)
    } else if st.escaped {
        Step::Continue(ScanState { position: at + 1, escaped: false, ..st })
    } else {
        let token = classify(g, text, st);
        if token is Escape || token is Content {
            if st.top_level_value() {
                st.yields()
            } else {
                Step::Continue(
                    ScanState {
                        position: at + 1,
                        leaf: if st.leaf is Some {
                            st.leaf
                        } else {
                            Some(at)
                        },
                        escaped: token is Escape,
                        ..st
                    },
                )
            }
        } else if st.leaf is Some {
            Step::Continue(flush(g, text, st))
        } else {
            match token {
                Token::Blank => Step::Continue(st.at(at + 1)),
                Token::Close => {
                    let behind = at + g.elements[st.open.last().element].shape.closer.len();
                    Step::Continue(settle(g, close_top(g, st, behind).at(behind)))
                },
                Token::MissingRight => fails(
                    ParseErrorView::OperatorMissingRightArgument(
                        g.elements[st.open.last().element].shape.opener,
                    ),
                    at,
                    st.open.last().token_at,
                ),
                Token::Unexpected(e) => if st.top_level_value() {
                    st.yields()
                } else {
                    fails(
                        ParseErrorView::UnexpectedCloser(g.elements[e].shape.closer),
                        at + g.elements[e].shape.closer.len(),
                        at,
                    )
                },
                Token::Open(e) => open_element(g, st, e),
                // Escape and content characters were dealt with above.
                Token::Escape | Token::Content => st.yields(),
            }
        }
    }
}

/// Whether the step from `st` to `next` took a character or completed the
/// leaf token.
pub open spec fn advances(text: Seq<char>, st: ScanState, next: ScanState) -> bool {
    &&& next.position <= text.len()
    &&& st.position < next.position || (st.position == next.position && st.leaf is Some
        && next.leaf is None)
}

/// The result of the reading that stands at `st`: steps are taken until one
/// ends the reading. The test on [`advances`] makes the definition
/// well-founded; every step from a sound state passes it
/// ([`lemma_step_sound`]).
pub open spec fn run(g: GraphView, text: Seq<char>, st: ScanState) -> Reading
    decreases text.len() - st.position, if st.leaf is Some { 1nat } else { 0nat },
{
    match step(g, text, st) {
        Step::Finished(reading) => reading,
        Step::Continue(next) => if advances(text, st, next) {
            run(g, text, next)
        } else {
            Reading { outcome: Ok(None), position: st.position, offset: None }
        },
    }
}

/// The result of a reading that starts at the given offset of the text.
pub open spec fn read_from(g: GraphView, text: Seq<char>, position: int) -> Reading {
    run(g, text, ScanState::fresh(position))
}

/// The offset behind the opening token of a scope.
pub open spec fn token_end(g: GraphView, scope: OpenView) -> int {
    scope.token_at + g.elements[scope.element].shape.opener.len()
}

/// The index behind a scope's last child so far: the next scope's first
/// child, or the number of nodes for the innermost scope.
pub open spec fn next_base(st: ScanState, k: int) -> int {
    if k + 1 < st.open.len() {
        st.open[k + 1].base
    } else {
        st.nodes.len() as int
    }
}

/// What holds of the scope with index `k` in every state of a reading: its
/// element is one of the grammar's; its token lies before the current
/// offset and behind the tokens of the scopes around it; its children lie
/// behind its token, but for an operator's left arguments, which lie
/// before it and give the scope its start; and the node before its first
/// child ends before it starts.
pub open spec fn scope_sound(g: GraphView, st: ScanState, k: int) -> bool {
    let scope = st.open[k];
    let h = held(g, scope);
    &&& 0 <= scope.element < g.elements.len()
    &&& 0 <= scope.start <= scope.token_at
    &&& token_end(g, scope) <= st.position
    &&& 0 <= scope.base
    &&& scope.base + h <= next_base(st, k)
    &&& next_base(st, k) <= st.nodes.len()
    &&& g.elements[scope.element].shape.kind is Operator ==> next_base(st, k) - scope.base
        <= g.elements[scope.element].shape.left + g.elements[scope.element].shape.right
    &&& (g.elements[scope.element].shape.kind is Operator && k + 1 < st.open.len())
        ==> next_base(st, k) - scope.base < g.elements[scope.element].shape.left
        + g.elements[scope.element].shape.right
    &&& forall|j: int|
        scope.base + h <= j < st.nodes.len() ==> token_end(g, scope) <= (#[trigger] st.nodes[j]).start()
    &&& if h > 0 {
        scope.start == st.nodes[scope.base].start() && st.nodes[scope.base + h - 1].end()
            <= scope.token_at
    } else {
        scope.start == scope.token_at
    }
    &&& scope.base > 0 ==> st.nodes[scope.base - 1].end() <= scope.start
    &&& forall|outer: int| 0 <= outer < k ==> token_end(g, #[trigger] st.open[outer]) <= scope.start
    &&& st.leaf is Some ==> token_end(g, scope) <= st.leaf.unwrap()
}

/// What holds of every state of a reading, but that the innermost operator
/// may have all its arguments: the offsets lie in the text, the scopes are
/// sound, and the nodes are in source order, lie before the current offset
/// and before the leaf token that is being read, and are nested and
/// saturated.
pub open spec fn loose(g: GraphView, text: Seq<char>, st: ScanState) -> bool {
    &&& 0 <= st.position <= text.len()
    &&& st.leaf is Some ==> 0 <= st.leaf.unwrap() <= st.position
    &&& st.escaped ==> st.leaf is Some
    &&& forall|k: int| 0 <= k < st.open.len() ==> scope_sound(g, st, k)
    &&& ordered(st.nodes)
    &&& forall|i: int|
        0 <= i < st.nodes.len() ==> {
            &&& 0 <= (#[trigger] st.nodes[i]).start()
            &&& st.nodes[i].nested()
            &&& st.nodes[i].saturated()
            &&& st.nodes[i].end() <= st.position
            &&& st.leaf is Some ==> st.nodes[i].end() <= st.leaf.unwrap()
        }
}

/// What holds of every state between two steps of a reading.
pub open spec fn sound(g: GraphView, text: Seq<char>, st: ScanState) -> bool {
    loose(g, text, st) && !saturated_top(g, st)
}

/// Closing the innermost scope keeps the state loosely sound, where the
/// scope's span from its start to `end` contains its children and `end`
/// lies before the new offset.
pub proof fn lemma_close_top_loose(g: GraphView, text: Seq<char>, st: ScanState, end: int, behind: int)
    requires
        loose(g, text, st),
        st.leaf is None,
        st.open.len() > 0,
        st.position <= behind <= text.len(),
        st.open.last().start <= end <= behind,
        forall|i: int|
            st.open.last().base <= i < st.nodes.len() ==> st.open.last().start <= (
            #[trigger] st.nodes[i]).start() && st.nodes[i].end() <= end,
        g.elements[st.open.last().element].shape.kind is Operator ==> st.nodes.len()
            - st.open.last().base == g.elements[st.open.last().element].shape.left
            + g.elements[st.open.last().element].shape.right,
    ensures
        loose(g, text, close_top(g, st, end).at(behind)),
{
    let top = st.open.last();
    let n = st.open.len() - 1;
    let next = close_top(g, st, end).at(behind);
    let children = st.nodes.subrange(top.base, st.nodes.len() as int);
    let node = next.nodes.last();
    assert(scope_sound(g, st, n));
    assert(node.nested()) by {
        assert forall|i: int, j: int| 0 <= i < j < children.len() implies (
        #[trigger] children[i]).end() <= (#[trigger] children[j]).start() by {
            assert(children[i] == st.nodes[top.base + i]);
            assert(children[j] == st.nodes[top.base + j]);
        }
        assert forall|i: int| 0 <= i < children.len() implies top.start <= (
        #[trigger] children[i]).start() && children[i].end() <= end && children[i].nested() by {
            assert(children[i] == st.nodes[top.base + i]);
        }
    }
    assert(node.saturated()) by {
        assert forall|i: int| 0 <= i < children.len() implies (
        #[trigger] children[i]).saturated() by {
            assert(children[i] == st.nodes[top.base + i]);
        }
    }
    assert forall|i: int| 0 <= i < next.nodes.len() implies {
        &&& 0 <= (#[trigger] next.nodes[i]).start()
        &&& next.nodes[i].nested()
        &&& next.nodes[i].saturated()
        &&& next.nodes[i].end() <= next.position
    } by {
        if i < top.base {
            assert(next.nodes[i] == st.nodes[i]);
        }
    }
    assert(ordered(next.nodes)) by {
        assert forall|i: int, j: int| 0 <= i < j < next.nodes.len() implies (
        #[trigger] next.nodes[i]).end() <= (#[trigger] next.nodes[j]).start() by {
            assert(next.nodes[i] == st.nodes[i]);
            if j < top.base {
                assert(next.nodes[j] == st.nodes[j]);
            } else {
                assert(st.nodes[i].end() <= st.nodes[top.base - 1].start() || i == top.base - 1);
                assert(st.nodes[top.base - 1].nested());
            }
        }
    }
    assert forall|k: int| 0 <= k < next.open.len() implies scope_sound(g, next, k) by {
        assert(scope_sound(g, st, k));
        assert(next.open[k] == st.open[k]);
        let scope = st.open[k];
        let h = held(g, scope);
        assert(next_base(st, k) <= top.base) by {
            if k + 1 < n {
                assert(scope_sound(g, st, k + 1));
                lemma_bases_ordered(g, text, st, k + 1, n);
            }
        }
        assert forall|j: int| scope.base + h <= j < next.nodes.len() implies token_end(g, scope) <= (
        #[trigger] next.nodes[j]).start() by {
            if j < top.base {
                assert(next.nodes[j] == st.nodes[j]);
            } else {
                assert(token_end(g, st.open[k]) <= top.start);
            }
        }
        if h > 0 {
            assert(next.nodes[scope.base] == st.nodes[scope.base]);
            assert(next.nodes[scope.base + h - 1] == st.nodes[scope.base + h - 1]);
        }
        if scope.base > 0 {
            assert(next.nodes[scope.base - 1] == st.nodes[scope.base - 1]);
        }
    }
}

/// The first children of the open scopes are in the order of the scopes.
pub proof fn lemma_bases_ordered(g: GraphView, text: Seq<char>, st: ScanState, k: int, j: int)
    requires
        loose(g, text, st),
        0 <= k <= j < st.open.len(),
    ensures
        st.open[k].base <= st.open[j].base,
        k < j ==> next_base(st, k) <= st.open[j].base,
    decreases j - k,
{
    if k < j {
        assert(scope_sound(g, st, k));
        lemma_bases_ordered(g, text, st, k + 1, j);
        assert(held(g, st.open[k]) >= 0);
    }
}

/// Closing an operator that has all its arguments keeps the state loosely
/// sound.
pub proof fn lemma_settle_step(g: GraphView, text: Seq<char>, st: ScanState)
    requires
        g.well_formed(),
        loose(g, text, st),
        st.leaf is None,
        saturated_top(g, st),
    ensures
        loose(g, text, close_top(g, st, operator_end(g, st))),
        st.open.last().start <= operator_end(g, st) <= st.position,
        st.nodes.len() > 0,
{
    let top = st.open.last();
    let n = st.open.len() - 1;
    let shape = g.elements[top.element].shape;
    let end = operator_end(g, st);
    assert(scope_sound(g, st, n));
    assert(shape.well_formed());
    assert(st.nodes.len() > 0);
    assert(st.nodes.last().nested());
    assert forall|i: int| top.base <= i < st.nodes.len() implies top.start <= (
    #[trigger] st.nodes[i]).start() && st.nodes[i].end() <= end by {
        assert(st.nodes[i].nested());
        assert(st.nodes[top.base].nested());
        if shape.right == 0 {
            assert(st.nodes[top.base + shape.left - 1].nested());
        }
    }
    assert(top.start <= end) by {
        assert(st.nodes[top.base].nested());
    }
    lemma_close_top_loose(g, text, st, end, st.position);
    assert(close_top(g, st, end).at(st.position) == close_top(g, st, end));
}

/// Closing the operators that have all their arguments makes a loosely
/// sound state sound; it keeps the offset and opens no scope.
pub proof fn lemma_settle_sound(g: GraphView, text: Seq<char>, st: ScanState)
    requires
        g.well_formed(),
        loose(g, text, st),
        st.leaf is None,
    ensures
        sound(g, text, settle(g, st)),
        settle(g, st).position == st.position,
        settle(g, st).leaf is None,
        settle(g, st).escaped == st.escaped,
        settle(g, st).open.len() <= st.open.len(),
        st.nodes.len() > 0 ==> settle(g, st).nodes.len() > 0,
    decreases st.open.len(),
{
    if saturated_top(g, st) {
        lemma_settle_step(g, text, st);
        lemma_settle_sound(g, text, close_top(g, st, operator_end(g, st)));
    }
}

/// The state in which the leaf token that is being read stands completed
/// among the nodes.
pub open spec fn leaf_pushed(text: Seq<char>, st: ScanState) -> ScanState {
    let start = st.leaf.unwrap();
    let leaf = TreeView::Leaf { start, end: st.position, text: text.subrange(start, st.position) };
    ScanState { leaf: None, escaped: false, nodes: st.nodes.push(leaf), ..st }
}

/// Completing the leaf token keeps a sound state loosely sound.
pub proof fn lemma_leaf_pushed_loose(g: GraphView, text: Seq<char>, st: ScanState)
    requires
        g.well_formed(),
        sound(g, text, st),
        st.leaf is Some,
    ensures
        loose(g, text, leaf_pushed(text, st)),
        flush(g, text, st) == settle(g, leaf_pushed(text, st)),
{
    let start = st.leaf.unwrap();
    let leaf = TreeView::Leaf { start, end: st.position, text: text.subrange(start, st.position) };
    let pushed = ScanState { leaf: None, escaped: false, nodes: st.nodes.push(leaf), ..st };
    assert forall|i: int| 0 <= i < pushed.nodes.len() implies {
        &&& 0 <= (#[trigger] pushed.nodes[i]).start()
        &&& pushed.nodes[i].nested()
        &&& pushed.nodes[i].saturated()
        &&& pushed.nodes[i].end() <= pushed.position
    } by {
        if i < st.nodes.len() {
            assert(pushed.nodes[i] == st.nodes[i]);
        }
    }
    assert(ordered(pushed.nodes)) by {
        assert forall|i: int, j: int| 0 <= i < j < pushed.nodes.len() implies (
        #[trigger] pushed.nodes[i]).end() <= (#[trigger] pushed.nodes[j]).start() by {
            assert(pushed.nodes[i] == st.nodes[i]);
            if j < st.nodes.len() {
                assert(pushed.nodes[j] == st.nodes[j]);
            }
        }
    }
    assert forall|k: int| 0 <= k < pushed.open.len() implies scope_sound(g, pushed, k) by {
        assert(scope_sound(g, st, k));
        let scope = st.open[k];
        let h = held(g, scope);
        assert(g.elements[scope.element].shape.well_formed());
        assert forall|j: int| scope.base + h <= j < pushed.nodes.len() implies token_end(g, scope) <= (
        #[trigger] pushed.nodes[j]).start() by {
            if j < st.nodes.len() {
                assert(pushed.nodes[j] == st.nodes[j]);
            }
        }
        if h > 0 {
            assert(pushed.nodes[scope.base] == st.nodes[scope.base]);
            assert(pushed.nodes[scope.base + h - 1] == st.nodes[scope.base + h - 1]);
        }
        if scope.base > 0 {
            assert(pushed.nodes[scope.base - 1] == st.nodes[scope.base - 1]);
        }
    }
    assert(pushed == leaf_pushed(text, st));
}

/// Completing the leaf token that is being read keeps a sound state sound;
/// it keeps the offset.
pub proof fn lemma_flush_sound(g: GraphView, text: Seq<char>, st: ScanState)
    requires
        g.well_formed(),
        sound(g, text, st),
        st.leaf is Some,
    ensures
        sound(g, text, flush(g, text, st)),
        flush(g, text, st).position == st.position,
        flush(g, text, st).leaf is None,
        !flush(g, text, st).escaped,
        flush(g, text, st).nodes.len() > 0,
{
    lemma_leaf_pushed_loose(g, text, st);
    lemma_settle_sound(g, text, leaf_pushed(text, st));
}

/// The innermost scope that is no operator has only operators above it.
pub proof fn lemma_innermost_encloser(g: GraphView, open: Seq<OpenView>)
    ensures
        match innermost_encloser(g, open) {
            Some(k) => {
                &&& 0 <= k < open.len()
                &&& !(g.elements[open[k].element].shape.kind is Operator)
                &&& forall|j: int|
                    k < j < open.len() ==> g.elements[(#[trigger] open[j]).element].shape.kind
                        is Operator
            },
            None => forall|j: int|
                0 <= j < open.len() ==> g.elements[(#[trigger] open[j]).element].shape.kind
                    is Operator,
        },
    decreases open.len(),
{
    if open.len() > 0 && g.elements[open.last().element].shape.kind is Operator {
        lemma_innermost_encloser(g, open.drop_last());
        let rest = open.drop_last();
        match innermost_encloser(g, rest) {
            Some(k) => {
                assert(rest[k] == open[k]);
                assert forall|j: int| k < j < open.len() implies g.elements[(
                #[trigger] open[j]).element].shape.kind is Operator by {
                    if j < rest.len() {
                        assert(rest[j] == open[j]);
                    }
                }
            },
            None => {
                assert forall|j: int| 0 <= j < open.len() implies g.elements[(
                #[trigger] open[j]).element].shape.kind is Operator by {
                    if j < rest.len() {
                        assert(rest[j] == open[j]);
                    }
                }
            },
        }
    }
}

/// Opening a scope keeps a sound state loosely sound, where the opening
/// token lies in the text and an operator finds its left arguments.
pub proof fn lemma_open_loose(g: GraphView, text: Seq<char>, st: ScanState, e: int)
    requires
        g.well_formed(),
        sound(g, text, st),
        st.leaf is None,
        0 <= e < g.elements.len(),
        st.position + g.elements[e].shape.opener.len() <= text.len(),
        g.elements[e].shape.kind is Operator ==> available(g, st) >= g.elements[e].shape.left,
    ensures
        ({
            let scope = OpenView { element: e, start: 0, token_at: 0, base: 0 };
            let h = held(g, scope);
            let base = st.nodes.len() - h;
            let start = if h > 0 {
                st.nodes[base].start()
            } else {
                st.position
            };
            loose(
                g,
                text,
                ScanState {
                    position: st.position + g.elements[e].shape.opener.len(),
                    open: st.open.push(
                        OpenView { element: e, start, token_at: st.position, base },
                    ),
                    ..st
                },
            )
        }),
{
    let shape = g.elements[e].shape;
    assert(shape.well_formed());
    let h = held(g, OpenView { element: e, start: 0, token_at: 0, base: 0 });
    let base = st.nodes.len() - h;
    let start = if h > 0 {
        st.nodes[base].start()
    } else {
        st.position
    };
    let scope = OpenView { element: e, start, token_at: st.position, base };
    let next = ScanState {
        position: st.position + shape.opener.len(),
        open: st.open.push(scope),
        ..st
    };
    let n = st.open.len() as int;
    if n > 0 {
        assert(scope_sound(g, st, n - 1));
        assert(g.elements[st.open[n - 1].element].shape.well_formed());
    }
    if h > 0 {
        assert(st.nodes[base].nested());
        assert(0 <= st.nodes[base].start());
        assert(st.nodes[base + h - 1].nested());
    }
    assert forall|k: int| 0 <= k < next.open.len() implies scope_sound(g, next, k) by {
        if k < n {
            assert(scope_sound(g, st, k));
            assert(next.open[k] == st.open[k]);
            if k + 1 < n {
                assert(next.open[k + 1] == st.open[k + 1]);
            } else {
                assert(next.open[k + 1] == scope);
            }
        } else {
            assert(next.open[k] == scope);
            assert forall|outer: int| 0 <= outer < k implies token_end(g, #[trigger] next.open[outer])
                <= scope.start by {
                assert(scope_sound(g, st, outer));
                assert(next.open[outer] == st.open[outer]);
                if h > 0 {
                    lemma_bases_ordered(g, text, st, outer, n - 1);
                    assert(held(g, st.open[outer]) + st.open[outer].base <= base) by {
                        if outer < n - 1 {
                            assert(scope_sound(g, st, outer));
                        }
                    }
                }
            }
        }
    }
}

/// What holds of a reading's result: the next reading starts in the text,
/// no earlier than this one; a tree is nested and saturated and lies in
/// the text before that offset.
pub open spec fn reading_sound(text: Seq<char>, from: int, reading: Reading) -> bool {
    &&& from <= reading.position <= text.len()
    &&& reading.outcome matches Ok(Some(tree)) ==> {
        &&& tree.nested()
        &&& tree.saturated()
        &&& 0 <= tree.start()
        &&& tree.end() <= reading.position
    }
    &&& reading.outcome is Err <==> reading.offset is Some
    &&& reading.offset matches Some(offset) ==> 0 <= offset <= text.len()
}

/// A step from a sound state leads to a sound state, and takes a character
/// or completes the leaf token; or it ends the reading with a sound result.
pub proof fn lemma_step_sound(g: GraphView, text: Seq<char>, st: ScanState)
    requires
        g.well_formed(),
        sound(g, text, st),
    ensures
        match step(g, text, st) {
            Step::Continue(next) => sound(g, text, next) && advances(text, st, next),
            Step::Finished(reading) => reading_sound(text, st.position, reading),
        },
{
    let at = st.position;
    let n = st.open.len() as int;
    lemma_innermost_encloser(g, st.open);
    if st.nodes.len() > 0 {
        assert(st.nodes[0].nested());
        assert(st.nodes[0].end() <= st.position);
    }
    if n > 0 {
        assert(scope_sound(g, st, n - 1));
        assert(g.elements[st.open[n - 1].element].shape.well_formed());
    }
    match innermost_encloser(g, st.open) {
        Some(k) => {
            assert(scope_sound(g, st, k));
            assert(g.elements[st.open[k].element].shape.well_formed());
        },
        None => {},
    }
    if at >= text.len() {
        if st.leaf is Some {
            lemma_flush_sound(g, text, st);
        }
    } else if st.escaped {
        let next = ScanState { position: at + 1, escaped: false, ..st };
        assert forall|k: int| 0 <= k < next.open.len() implies scope_sound(g, next, k) by {
            assert(scope_sound(g, st, k));
        }
    } else {
        let token = classify(g, text, st);
        let ctx = context_of(g, st);
        lemma_stray_closer_is_longest_then_latest(g, text, at, ctx, g.elements.len());
        lemma_best_opener_is_longest_then_latest(g, text, at, ctx, g.elements.len());
        if token is Escape || token is Content {
            if !st.top_level_value() {
                let next = ScanState {
                    position: at + 1,
                    leaf: if st.leaf is Some {
                        st.leaf
                    } else {
                        Some(at)
                    },
                    escaped: token is Escape,
                    ..st
                };
                assert forall|k: int| 0 <= k < next.open.len() implies scope_sound(g, next, k) by {
                    assert(scope_sound(g, st, k));
                }
            }
        } else if st.leaf is Some {
            lemma_flush_sound(g, text, st);
        } else {
            match token {
                Token::Blank => {
                    let next = st.at(at + 1);
                    assert forall|k: int| 0 <= k < next.open.len() implies scope_sound(g, next, k) by {
                        assert(scope_sound(g, st, k));
                    }
                },
                Token::Close => {
                    let top = st.open.last();
                    let shape = g.elements[top.element].shape;
                    let behind = at + shape.closer.len();
                    assert(!(shape.kind is Operator));
                    assert(behind <= text.len());
                    assert forall|i: int| top.base <= i < st.nodes.len() implies top.start <= (
                    #[trigger] st.nodes[i]).start() && st.nodes[i].end() <= behind by {
                        assert(st.nodes[i].end() <= st.position);
                    }
                    lemma_close_top_loose(g, text, st, behind, behind);
                    lemma_settle_sound(g, text, close_top(g, st, behind).at(behind));
                },
                Token::Open(e) => {
                    let shape = g.elements[e].shape;
                    assert(g.opens_at(text, at, ctx, e));
                    assert(shape.well_formed());
                    if !(shape.kind is Operator) {
                        if !st.top_level_value() {
                            lemma_open_loose(g, text, st, e);
                        }
                    } else if st.top_level_value() && shape.left != 1 {
                    } else if available(g, st) < shape.left {
                    } else {
                        lemma_open_loose(g, text, st, e);
                        let base = st.nodes.len() - shape.left;
                        let start = if shape.left > 0 {
                            st.nodes[base].start()
                        } else {
                            at
                        };
                        lemma_settle_sound(
                            g,
                            text,
                            ScanState {
                                position: at + shape.opener.len(),
                                open: st.open.push(
                                    OpenView { element: e, start, token_at: at, base },
                                ),
                                ..st
                            },
                        );
                    }
                },
                Token::Unexpected(e) => {
                    assert(g.closes_at(text, at, ctx, e));
                },
                _ => {},
            }
        }
    }
}

/// A reading from a sound state has a sound result.
pub proof fn lemma_run_sound(g: GraphView, text: Seq<char>, st: ScanState)
    requires
        g.well_formed(),
        sound(g, text, st),
    ensures
        reading_sound(text, st.position, run(g, text, st)),
    decreases text.len() - st.position, if st.leaf is Some { 1nat } else { 0nat },
{
    lemma_step_sound(g, text, st);
    match step(g, text, st) {
        Step::Finished(reading) => {},
        Step::Continue(next) => {
            lemma_run_sound(g, text, next);
        },
    }
}

/// Structural monotonicity and arity: the tree that a reading yields is
/// nested and saturated. In each of its inner nodes the span contains the
/// spans of the children, which are in order and do not overlap, and each
/// operator node has as many children as the operator takes arguments. The
/// next reading starts behind the tree.
pub proof fn lemma_reading_sound(g: GraphView, text: Seq<char>, position: int)
    requires
        g.well_formed(),
        0 <= position <= text.len(),
    ensures
        reading_sound(text, position, read_from(g, text, position)),
{
    lemma_run_sound(g, text, ScanState::fresh(position));
}

/// The token text that an error carries.
pub open spec fn error_token(error: ParseErrorView) -> Seq<char> {
    match error {
        ParseErrorView::UnexpectedCloser(token) => token,
        ParseErrorView::EndOfTextWithOpenEncloser(token) => token,
        ParseErrorView::OperatorMissingLeftArgument(token) => token,
        ParseErrorView::OperatorMissingRightArgument(token) => token,
    }
}

/// Whether a reading's error names a token of the text: the token that the
/// error carries stands in the text at the error's offset.
pub open spec fn names_token(text: Seq<char>, reading: Reading) -> bool {
    reading.outcome matches Err(error) ==> reading.offset is Some && token_at(
        text,
        reading.offset.unwrap(),
        error_token(error),
    )
}

/// Whether the opening token of every open scope stands in the text at the
/// offset that the scope records for it.
pub open spec fn anchored(g: GraphView, text: Seq<char>, st: ScanState) -> bool {
    forall|k: int|
        0 <= k < st.open.len() ==> token_at(
            text,
            (#[trigger] st.open[k]).token_at,
            g.elements[st.open[k].element].shape.opener,
        )
}

/// Closing the operators that have all their arguments keeps the open
/// scopes anchored.
pub proof fn lemma_settle_anchored(g: GraphView, text: Seq<char>, st: ScanState)
    requires
        anchored(g, text, st),
    ensures
        anchored(g, text, settle(g, st)),
    decreases st.open.len(),
{
    if saturated_top(g, st) {
        let closed = close_top(g, st, operator_end(g, st));
        assert forall|k: int| 0 <= k < closed.open.len() implies token_at(
            text,
            (#[trigger] closed.open[k]).token_at,
            g.elements[closed.open[k].element].shape.opener,
        ) by {
            assert(closed.open[k] == st.open[k]);
        }
        lemma_settle_anchored(g, text, closed);
    }
}

/// A step keeps the open scopes anchored; an error that ends the reading
/// names a token of the text.
pub proof fn lemma_step_anchored(g: GraphView, text: Seq<char>, st: ScanState)
    requires
        g.well_formed(),
        sound(g, text, st),
        anchored(g, text, st),
    ensures
        match step(g, text, st) {
            Step::Continue(next) => anchored(g, text, next),
            Step::Finished(reading) => names_token(text, reading),
        },
{
    let at = st.position;
    let ctx = context_of(g, st);
    lemma_innermost_encloser(g, st.open);
    if st.leaf is Some {
        lemma_settle_anchored(g, text, leaf_pushed(text, st));
    }
    if at < text.len() && !st.escaped {
        lemma_stray_closer_is_longest_then_latest(g, text, at, ctx, g.elements.len());
        lemma_best_opener_is_longest_then_latest(g, text, at, ctx, g.elements.len());
        match classify(g, text, st) {
            Token::Close => {
                if st.leaf is None {
                    let behind = at + g.elements[st.open.last().element].shape.closer.len();
                    let closed = close_top(g, st, behind).at(behind);
                    assert forall|k: int| 0 <= k < closed.open.len() implies token_at(
                        text,
                        (#[trigger] closed.open[k]).token_at,
                        g.elements[closed.open[k].element].shape.opener,
                    ) by {
                        assert(closed.open[k] == st.open[k]);
                    }
                    lemma_settle_anchored(g, text, closed);
                }
            },
            Token::Open(e) => {
                if st.leaf is None {
                    assert(g.opens_at(text, at, ctx, e));
                    let shape = g.elements[e].shape;
                    let base = st.nodes.len() - shape.left;
                    let start = if shape.left > 0 {
                        st.nodes[base].start()
                    } else {
                        at
                    };
                    let scope = if shape.kind is Operator {
                        OpenView { element: e, start, token_at: at, base }
                    } else {
                        OpenView { element: e, start: at, token_at: at, base: st.nodes.len() as int }
                    };
                    let opened = ScanState {
                        position: at + shape.opener.len(),
                        open: st.open.push(scope),
                        ..st
                    };
                    assert forall|k: int| 0 <= k < opened.open.len() implies token_at(
                        text,
                        (#[trigger] opened.open[k]).token_at,
                        g.elements[opened.open[k].element].shape.opener,
                    ) by {
                        if k < st.open.len() {
                            assert(opened.open[k] == st.open[k]);
                        }
                    }
                    lemma_settle_anchored(g, text, opened);
                }
            },
            Token::Unexpected(e) => {
                assert(g.closes_at(text, at, ctx, e));
            },
            _ => {},
        }
    }
}

/// An error that ends a reading from a sound and anchored state names a
/// token of the text.
pub proof fn lemma_run_names_token(g: GraphView, text: Seq<char>, st: ScanState)
    requires
        g.well_formed(),
        sound(g, text, st),
        anchored(g, text, st),
    ensures
        names_token(text, run(g, text, st)),
    decreases text.len() - st.position, if st.leaf is Some { 1nat } else { 0nat },
{
    lemma_step_sound(g, text, st);
    lemma_step_anchored(g, text, st);
    match step(g, text, st) {
        Step::Finished(reading) => {},
        Step::Continue(next) => {
            lemma_run_names_token(g, text, next);
        },
    }
}

/// Errors name tokens: the token that a reading's error carries stands in
/// the text at the offset that the reading reports for the error.
pub proof fn lemma_reading_names_token(g: GraphView, text: Seq<char>, position: int)
    requires
        g.well_formed(),
        0 <= position <= text.len(),
    ensures
        names_token(text, read_from(g, text, position)),
{
    lemma_run_names_token(g, text, ScanState::fresh(position));
}

/// Whether every completed node of the state is a tree of the text.
pub open spec fn spelled(text: Seq<char>, st: ScanState) -> bool {
    forall|i: int| 0 <= i < st.nodes.len() ==> (#[trigger] st.nodes[i]).spells(text)
}

/// Whether the tree that a reading yields is a tree of the text.
pub open spec fn yields_spelled(text: Seq<char>, reading: Reading) -> bool {
    reading.outcome matches Ok(Some(tree)) ==> tree.spells(text)
}

/// Closing the innermost scope keeps the nodes trees of the text.
pub proof fn lemma_close_top_spelled(g: GraphView, text: Seq<char>, st: ScanState, end: int)
    requires
        spelled(text, st),
        st.open.len() > 0,
        0 <= st.open.last().base <= st.nodes.len(),
    ensures
        spelled(text, close_top(g, st, end)),
{
    let top = st.open.last();
    let closed = close_top(g, st, end);
    let children = st.nodes.subrange(top.base, st.nodes.len() as int);
    assert forall|i: int| 0 <= i < closed.nodes.len() implies (#[trigger] closed.nodes[i]).spells(
        text,
    ) by {
        if i < top.base {
            assert(closed.nodes[i] == st.nodes[i]);
        } else {
            assert forall|j: int| 0 <= j < children.len() implies (#[trigger] children[j]).spells(
                text,
            ) by {
                assert(children[j] == st.nodes[top.base + j]);
            }
        }
    }
}

/// Closing the operators that have all their arguments keeps the nodes
/// trees of the text.
pub proof fn lemma_settle_spelled(g: GraphView, text: Seq<char>, st: ScanState)
    requires
        g.well_formed(),
        loose(g, text, st),
        st.leaf is None,
        spelled(text, st),
    ensures
        spelled(text, settle(g, st)),
    decreases st.open.len(),
{
    if saturated_top(g, st) {
        let closed = close_top(g, st, operator_end(g, st));
        assert(scope_sound(g, st, st.open.len() - 1));
        lemma_settle_step(g, text, st);
        lemma_close_top_spelled(g, text, st, operator_end(g, st));
        lemma_settle_spelled(g, text, closed);
    }
}

/// A step keeps the nodes trees of the text; a tree that ends the reading
/// is a tree of the text.
pub proof fn lemma_step_spelled(g: GraphView, text: Seq<char>, st: ScanState)
    requires
        g.well_formed(),
        sound(g, text, st),
        spelled(text, st),
    ensures
        match step(g, text, st) {
            Step::Continue(next) => spelled(text, next),
            Step::Finished(reading) => yields_spelled(text, reading),
        },
{
    let at = st.position;
    if st.leaf is Some {
        let pushed = leaf_pushed(text, st);
        lemma_leaf_pushed_loose(g, text, st);
        assert forall|i: int| 0 <= i < pushed.nodes.len() implies (#[trigger] pushed.nodes[i]).spells(
            text,
        ) by {
            if i < st.nodes.len() {
                assert(pushed.nodes[i] == st.nodes[i]);
            }
        }
        lemma_settle_spelled(g, text, pushed);
    } else if at < text.len() && !st.escaped {
        match classify(g, text, st) {
            Token::Close => {
                lemma_classify_facts(g, text, st);
                lemma_close_loose(g, text, st);
                let behind = at + g.elements[st.open.last().element].shape.closer.len();
                assert(scope_sound(g, st, st.open.len() - 1));
                lemma_close_top_spelled(g, text, st, behind);
                lemma_settle_spelled(g, text, close_top(g, st, behind).at(behind));
            },
            Token::Open(e) => {
                lemma_classify_facts(g, text, st);
                let shape = g.elements[e].shape;
                if shape.kind is Operator && !(st.top_level_value() && shape.left != 1) && available(
                    g,
                    st,
                ) >= shape.left {
                    lemma_open_loose(g, text, st, e);
                    let base = st.nodes.len() - shape.left;
                    let start = if shape.left > 0 {
                        st.nodes[base].start()
                    } else {
                        at
                    };
                    lemma_settle_spelled(
                        g,
                        text,
                        ScanState {
                            position: at + shape.opener.len(),
                            open: st.open.push(OpenView { element: e, start, token_at: at, base }),
                            ..st
                        },
                    );
                }
            },
            _ => {},
        }
    }
}

/// A tree that a reading from a sound state yields is a tree of the text,
/// where the nodes of the state are.
pub proof fn lemma_run_spelled(g: GraphView, text: Seq<char>, st: ScanState)
    requires
        g.well_formed(),
        sound(g, text, st),
        spelled(text, st),
    ensures
        yields_spelled(text, run(g, text, st)),
    decreases text.len() - st.position, if st.leaf is Some { 1nat } else { 0nat },
{
    lemma_step_sound(g, text, st);
    lemma_step_spelled(g, text, st);
    match step(g, text, st) {
        Step::Finished(reading) => {},
        Step::Continue(next) => {
            lemma_run_spelled(g, text, next);
        },
    }
}

/// Trees are trees of the text: every leaf of a tree that a reading yields
/// lies in the text and holds the characters of its span.
pub proof fn lemma_reading_spelled(g: GraphView, text: Seq<char>, position: int)
    requires
        g.well_formed(),
        0 <= position <= text.len(),
    ensures
        yields_spelled(text, read_from(g, text, position)),
{
    lemma_run_spelled(g, text, ScanState::fresh(position));
}

/// Whether nothing that the state holds starts before the offset `from`:
/// no node, no open scope, and not the leaf token that is being read.
pub open spec fn not_before(from: int, st: ScanState) -> bool {
    &&& from <= st.position
    &&& st.leaf is Some ==> from <= st.leaf.unwrap()
    &&& forall|i: int| 0 <= i < st.nodes.len() ==> from <= (#[trigger] st.nodes[i]).start()
    &&& forall|k: int| 0 <= k < st.open.len() ==> from <= (#[trigger] st.open[k]).start
}

/// Whether the tree that a reading yields does not start before the
/// offset `from`.
pub open spec fn yields_not_before(from: int, reading: Reading) -> bool {
    reading.outcome matches Ok(Some(tree)) ==> from <= tree.start()
}

/// Closing the innermost scope lets nothing start before the offset.
pub proof fn lemma_close_top_not_before(g: GraphView, st: ScanState, end: int, from: int)
    requires
        not_before(from, st),
        st.open.len() > 0,
        0 <= st.open.last().base <= st.nodes.len(),
    ensures
        not_before(from, close_top(g, st, end)),
{
    let top = st.open.last();
    let closed = close_top(g, st, end);
    assert forall|i: int| 0 <= i < closed.nodes.len() implies from <= (#[trigger] closed.nodes[i]).start() by {
        if i < top.base {
            assert(closed.nodes[i] == st.nodes[i]);
        }
    }
    assert forall|k: int| 0 <= k < closed.open.len() implies from <= (#[trigger] closed.open[k]).start by {
        assert(closed.open[k] == st.open[k]);
    }
}

/// Closing the operators that have all their arguments lets nothing start
/// before the offset.
pub proof fn lemma_settle_not_before(g: GraphView, text: Seq<char>, st: ScanState, from: int)
    requires
        g.well_formed(),
        loose(g, text, st),
        st.leaf is None,
        not_before(from, st),
    ensures
        not_before(from, settle(g, st)),
    decreases st.open.len(),
{
    if saturated_top(g, st) {
        let closed = close_top(g, st, operator_end(g, st));
        assert(scope_sound(g, st, st.open.len() - 1));
        lemma_settle_step(g, text, st);
        lemma_close_top_not_before(g, st, operator_end(g, st), from);
        lemma_settle_not_before(g, text, closed, from);
    }
}

/// A step lets nothing start before the offset; a tree that ends the
/// reading does not start before it.
pub proof fn lemma_step_not_before(g: GraphView, text: Seq<char>, st: ScanState, from: int)
    requires
        g.well_formed(),
        sound(g, text, st),
        not_before(from, st),
    ensures
        match step(g, text, st) {
            Step::Continue(next) => not_before(from, next),
            Step::Finished(reading) => yields_not_before(from, reading),
        },
{
    let at = st.position;
    if st.leaf is Some {
        let pushed = leaf_pushed(text, st);
        lemma_leaf_pushed_loose(g, text, st);
        assert forall|i: int| 0 <= i < pushed.nodes.len() implies from <= (#[trigger] pushed.nodes[i]).start() by {
            if i < st.nodes.len() {
                assert(pushed.nodes[i] == st.nodes[i]);
            }
        }
        lemma_settle_not_before(g, text, pushed, from);
    } else if at < text.len() && !st.escaped {
        match classify(g, text, st) {
            Token::Close => {
                lemma_classify_facts(g, text, st);
                lemma_close_loose(g, text, st);
                let behind_closer = at + g.elements[st.open.last().element].shape.closer.len();
                assert(scope_sound(g, st, st.open.len() - 1));
                lemma_close_top_not_before(g, st, behind_closer, from);
                lemma_settle_not_before(g, text, close_top(g, st, behind_closer).at(behind_closer), from);
            },
            Token::Open(e) => {
                lemma_classify_facts(g, text, st);
                let shape = g.elements[e].shape;
                if shape.kind is Operator {
                    if !(st.top_level_value() && shape.left != 1) && available(g, st) >= shape.left {
                        lemma_open_loose(g, text, st, e);
                        let base = st.nodes.len() - shape.left;
                        let start = if shape.left > 0 {
                            st.nodes[base].start()
                        } else {
                            at
                        };
                        let opened = ScanState {
                            position: at + shape.opener.len(),
                            open: st.open.push(OpenView { element: e, start, token_at: at, base }),
                            ..st
                        };
                        if st.open.len() > 0 {
                            assert(scope_sound(g, st, st.open.len() - 1));
                        }
                        assert forall|k: int| 0 <= k < opened.open.len() implies from <= (
                        #[trigger] opened.open[k]).start by {
                            if k < st.open.len() {
                                assert(opened.open[k] == st.open[k]);
                            }
                        }
                        lemma_settle_not_before(g, text, opened, from);
                    }
                } else if !st.top_level_value() {
                    let opened = ScanState {
                        position: at + shape.opener.len(),
                        open: st.open.push(
                            OpenView { element: e, start: at, token_at: at, base: st.nodes.len() as int },
                        ),
                        ..st
                    };
                    assert forall|k: int| 0 <= k < opened.open.len() implies from <= (
                    #[trigger] opened.open[k]).start by {
                        if k < st.open.len() {
                            assert(opened.open[k] == st.open[k]);
                        }
                    }
                }
            },
            _ => {},
        }
    }
}

/// A tree that a reading yields does not start before the offset before
/// which nothing in the state starts.
pub proof fn lemma_run_not_before(g: GraphView, text: Seq<char>, st: ScanState, from: int)
    requires
        g.well_formed(),
        sound(g, text, st),
        not_before(from, st),
    ensures
        yields_not_before(from, run(g, text, st)),
    decreases text.len() - st.position, if st.leaf is Some { 1nat } else { 0nat },
{
    lemma_step_sound(g, text, st);
    lemma_step_not_before(g, text, st, from);
    match step(g, text, st) {
        Step::Finished(reading) => {},
        Step::Continue(next) => {
            lemma_run_not_before(g, text, next, from);
        },
    }
}

/// Trees lie where they were read: the tree that a reading yields does not
/// start before the offset at which the reading started.
pub proof fn lemma_reading_not_before(g: GraphView, text: Seq<char>, position: int)
    requires
        g.well_formed(),
        0 <= position <= text.len(),
    ensures
        yields_not_before(position, read_from(g, text, position)),
{
    lemma_run_not_before(g, text, ScanState::fresh(position), position);
}

/// What holds of every reading against a well-formed grammar: its result
/// is sound, its tree is a tree of the text and does not start before the
/// reading did, and its error names a token of the text.
pub open spec fn faithful(text: Seq<char>, from: int, reading: Reading) -> bool {
    &&& reading_sound(text, from, reading)
    &&& yields_spelled(text, reading)
    &&& yields_not_before(from, reading)
    &&& names_token(text, reading)
}

/// Every reading against a well-formed grammar is faithful.
pub proof fn lemma_reading_faithful(g: GraphView, text: Seq<char>, position: int)
    requires
        g.well_formed(),
        0 <= position <= text.len(),
    ensures
        faithful(text, position, read_from(g, text, position)),
{
    lemma_reading_sound(g, text, position);
    lemma_reading_spelled(g, text, position);
    lemma_reading_not_before(g, text, position);
    lemma_reading_names_token(g, text, position);
}

/// Whether every tree among the results is nested and saturated, is a tree
/// of the text and does not start before the offset `from`, and the trees
/// are in source order and do not overlap.
pub open spec fn trees_in_order(
    text: Seq<char>,
    from: int,
    results: Seq<Result<TreeView, ParseErrorView>>,
) -> bool {
    &&& forall|i: int|
        0 <= i < results.len() ==> ((#[trigger] results[i]) matches Ok(tree) ==> {
            &&& tree.nested()
            &&& tree.saturated()
            &&& tree.spells(text)
            &&& from <= tree.start()
            &&& tree.end() <= text.len()
        })
    &&& forall|i: int, j: int|
        0 <= i < j < results.len() ==> ((#[trigger] results[i]) matches Ok(first) ==> ((
        #[trigger] results[j]) matches Ok(second) ==> first.end() <= second.start()))
}

/// What the token at the next character tells of a sound state: a closer
/// and an opening token lie in the text, belong to an element of the
/// grammar, and are not empty; a closer that closes stands below a scope
/// that is no operator, and one that finds arguments missing below an
/// operator.
pub proof fn lemma_classify_facts(g: GraphView, text: Seq<char>, st: ScanState)
    requires
        g.well_formed(),
        sound(g, text, st),
        st.position < text.len(),
    ensures
        match classify(g, text, st) {
            Token::Close => {
                &&& st.open.len() > 0
                &&& !(g.elements[st.open.last().element].shape.kind is Operator)
                &&& st.position < st.position + g.elements[st.open.last().element].shape.closer.len()
                    <= text.len()
            },
            Token::MissingRight => st.open.len() > 0 && g.elements[st.open.last().element].shape.kind
                is Operator,
            Token::Unexpected(e) => 0 <= e < g.elements.len() && st.position < st.position
                + g.elements[e].shape.closer.len() <= text.len(),
            Token::Open(e) => 0 <= e < g.elements.len() && st.position < st.position
                + g.elements[e].shape.opener.len() <= text.len(),
            _ => true,
        },
{
    let at = st.position;
    let n = st.open.len() as int;
    let ctx = context_of(g, st);
    lemma_innermost_encloser(g, st.open);
    lemma_stray_closer_is_longest_then_latest(g, text, at, ctx, g.elements.len());
    lemma_best_opener_is_longest_then_latest(g, text, at, ctx, g.elements.len());
    if n > 0 {
        assert(scope_sound(g, st, n - 1));
        assert(g.elements[st.open[n - 1].element].shape.well_formed());
    }
    match innermost_encloser(g, st.open) {
        Some(k) => {
            assert(scope_sound(g, st, k));
            assert(g.elements[st.open[k].element].shape.well_formed());
        },
        None => {},
    }
    match classify(g, text, st) {
        Token::Open(e) => {
            assert(g.opens_at(text, at, ctx, e));
            assert(g.elements[e].shape.well_formed());
        },
        Token::Unexpected(e) => {
            assert(g.closes_at(text, at, ctx, e));
            assert(g.elements[e].shape.well_formed());
        },
        _ => {},
    }
}

/// Closing the innermost scope at its closer keeps a sound state loosely
/// sound.
pub proof fn lemma_close_loose(g: GraphView, text: Seq<char>, st: ScanState)
    requires
        g.well_formed(),
        sound(g, text, st),
        st.leaf is None,
        st.position < text.len(),
        classify(g, text, st) is Close,
    ensures
        ({
            let behind = st.position + g.elements[st.open.last().element].shape.closer.len();
            loose(g, text, close_top(g, st, behind).at(behind))
        }),
{
    lemma_classify_facts(g, text, st);
    let top = st.open.last();
    let n = st.open.len() as int;
    let behind = st.position + g.elements[top.element].shape.closer.len();
    assert(scope_sound(g, st, n - 1));
    assert(g.elements[top.element].shape.well_formed());
    assert forall|i: int| top.base <= i < st.nodes.len() implies top.start <= (
    #[trigger] st.nodes[i]).start() && st.nodes[i].end() <= behind by {
        assert(st.nodes[i].end() <= st.position);
    }
    lemma_close_top_loose(g, text, st, behind, behind);
}

/// The mathematical value of what a reading returns.
pub open spec fn outcome_view(outcome: Result<Option<DocumentSyntaxTree<'_>>, ParseError>) -> Result<
    Option<TreeView>,
    ParseErrorView,
> {
    match outcome {
        Ok(Some(tree)) => Ok(Some(tree@)),
        Ok(None) => Ok(None),
        Err(error) => Err(error@),
    }
}

/// A reader of one text against one grammar. Each reading yields the next
/// completed tree of the text and moves the reader behind it.
pub struct Parser<'g, 's> {
    graph: &'g SyntaxGraph<'s>,
    text: Vec<char>,
    position: usize,
    error_offset: Option<usize>,
}

impl<'g, 's> Parser<'g, 's> {
    #[verifier::type_invariant]
    spec fn in_text(&self) -> bool {
        self.position <= self.text@.len()
    }

    /// The grammar that the reader reads against.
    pub closed spec fn graph(&self) -> GraphView {
        self.graph@
    }

    /// The text that the reader reads.
    pub closed spec fn text(&self) -> Seq<char> {
        self.text@
    }

    /// The offset at which the next reading starts.
    pub closed spec fn offset(&self) -> int {
        self.position as int
    }

    /// The offset of the token that the last reading's error names.
    pub closed spec fn failed_at(&self) -> Option<int> {
        match self.error_offset {
            Some(offset) => Some(offset as int),
            None => None,
        }
    }

    /// A reader that stands at the start of the text.
    pub fn new(graph: &'g SyntaxGraph<'s>, text: &str) -> (parser: Self)
        ensures
            parser.graph() == graph@,
            parser.text() == text@,
            parser.offset() == 0,
            parser.failed_at() is None,
    {
        Parser { graph, text: chars_of(text), position: 0, error_offset: None }
    }

    /// The offset at which the next reading starts. It lies in the text,
    /// and the reader's grammar is well formed.
    pub fn position(&self) -> (position: usize)
        ensures
            position == self.offset(),
            position <= self.text().len(),
            self.graph().well_formed(),
    {
        let count = self.graph.element_count();
        proof {
            use_type_invariant(self);
        }
        self.position
    }

    /// The offset of the token that the last reading's error names; none
    /// where the last reading did not fail.
    pub fn error_offset(&self) -> (offset: Option<usize>)
        ensures
            match offset {
                Some(at) => self.failed_at() == Some(at as int),
                None => self.failed_at() is None,
            },
    {
        self.error_offset
    }

    /// Reads the next tree: `Ok(Some(tree))`, or `Ok(None)` at the end of
    /// the text, or the error that ended the reading. The result is that of
    /// [`read_from`] at the reader's offset, and it is [`faithful`]: a tree
    /// is nested and saturated and its leaves hold the text of their spans,
    /// and an error names a token that stands in the text at the error's
    /// offset.
    pub fn read_next(&mut self) -> (outcome: Result<Option<DocumentSyntaxTree<'s>>, ParseError>)
        ensures
            final(self).graph() == old(self).graph(),
            final(self).text() == old(self).text(),
            outcome_view(outcome) == read_from(
                old(self).graph(),
                old(self).text(),
                old(self).offset(),
            ).outcome,
            final(self).offset() == read_from(
                old(self).graph(),
                old(self).text(),
                old(self).offset(),
            ).position,
            final(self).failed_at() == read_from(
                old(self).graph(),
                old(self).text(),
                old(self).offset(),
            ).offset,
            faithful(
                old(self).text(),
                old(self).offset(),
                read_from(old(self).graph(), old(self).text(), old(self).offset()),
            ),
    {
        proof {
            use_type_invariant(&*self);
        }
        let count = self.graph.element_count();
        let ghost g = self.graph@;
        let ghost text = self.text@;
        let ghost start = ScanState::fresh(self.position as int);
        proof {
            lemma_reading_faithful(g, text, self.position as int);
        }
        let mut scan = Scan::fresh(self.position);
        loop
            invariant
                self.graph == old(self).graph,
                self.text == old(self).text,
                g == self.graph@,
                text == self.text@,
                start == ScanState::fresh(old(self).position as int),
                g.well_formed(),
                sound(g, text, scan@),
                run(g, text, scan@) == run(g, text, start),
                faithful(text, start.position, run(g, text, start)),
                self.position <= self.text@.len(),
            decreases text.len() - scan@.position, if scan@.leaf is Some { 1nat } else { 0nat },
        {
            let ghost before = scan@;
            proof {
                lemma_step_sound(g, text, before);
            }
            match scan.step(self.graph, self.text.as_slice()) {
                None => {},
                Some(finish) => {
                    self.position = finish.position;
                    self.error_offset = finish.offset;
                    return finish.outcome;
                },
            }
        }
    }
}

/// The plain expression that a reading's tree reduces to.
pub open spec fn sexp_outcome(outcome: Result<Option<TreeView>, ParseErrorView>) -> Result<
    Option<crate::ast::RawView>,
    ParseErrorView,
> {
    match outcome {
        Ok(Some(tree)) => Ok(Some(raw_of(tree))),
        Ok(None) => Ok(None),
        Err(error) => Err(error),
    }
}

/// The mathematical value of what a reading of a plain expression returns.
pub open spec fn raw_outcome_view(outcome: Result<Option<RawSexp>, ParseError>) -> Result<
    Option<crate::ast::RawView>,
    ParseErrorView,
> {
    match outcome {
        Ok(Some(sexp)) => Ok(Some(sexp@)),
        Ok(None) => Ok(None),
        Err(error) => Err(error@),
    }
}

impl<'g, 's> Parser<'g, 's> {
    /// Reads the next tree, as [`Self::read_next`] does, and reduces it to a
    /// plain expression.
    pub fn read_next_sexp(&mut self) -> (outcome: Result<Option<RawSexp>, ParseError>)
        ensures
            final(self).graph() == old(self).graph(),
            final(self).text() == old(self).text(),
            raw_outcome_view(outcome) == sexp_outcome(
                read_from(old(self).graph(), old(self).text(), old(self).offset()).outcome,
            ),
            final(self).offset() == read_from(
                old(self).graph(),
                old(self).text(),
                old(self).offset(),
            ).position,
            final(self).failed_at() == read_from(
                old(self).graph(),
                old(self).text(),
                old(self).offset(),
            ).offset,
    {
        match self.read_next() {
            Ok(Some(tree)) => Ok(Some(RawSexp::of_tree(&tree))),
            Ok(None) => Ok(None),
            Err(error) => Err(error),
        }
    }
}

/// Whether a state that holds anything lies behind the offset `from`.
pub open spec fn started(st: ScanState, from: int) -> bool {
    &&& from <= st.position
    &&& (st.open.len() > 0 || st.nodes.len() > 0 || st.leaf is Some) ==> from < st.position
}

/// A reading that yields a tree or fails has taken at least one character.
pub proof fn lemma_run_progress(g: GraphView, text: Seq<char>, st: ScanState, from: int)
    requires
        g.well_formed(),
        sound(g, text, st),
        started(st, from),
    ensures
        !(run(g, text, st).outcome matches Ok(None)) ==> from < run(g, text, st).position,
    decreases text.len() - st.position, if st.leaf is Some { 1nat } else { 0nat },
{
    lemma_step_sound(g, text, st);
    if st.position < text.len() {
        lemma_classify_facts(g, text, st);
    }
    match step(g, text, st) {
        Step::Finished(reading) => {},
        Step::Continue(next) => {
            lemma_run_progress(g, text, next, from);
        },
    }
}

/// Progress: a reading that yields a tree or fails moves the reader on.
pub proof fn lemma_reading_progress(g: GraphView, text: Seq<char>, position: int)
    requires
        g.well_formed(),
        0 <= position <= text.len(),
    ensures
        !(read_from(g, text, position).outcome matches Ok(None)) ==> position < read_from(
            g,
            text,
            position,
        ).position,
{
    lemma_run_progress(g, text, ScanState::fresh(position), position);
}

/// The errors that end a reading of all trees: an unexpected closer, and
/// the end of the text inside an encloser.
pub open spec fn terminal(error: ParseErrorView) -> bool {
    error is UnexpectedCloser || error is EndOfTextWithOpenEncloser
}

/// The results of the readings from the given offset on, one after the
/// other, up to the end of the text or to the first terminal error. The
/// test on the new offset makes the definition well-founded; every reading
/// against a well-formed grammar that yields a tree or fails passes it
/// ([`lemma_reading_progress`]).
pub open spec fn read_each(g: GraphView, text: Seq<char>, position: int) -> Seq<
    Result<TreeView, ParseErrorView>,
>
    decreases text.len() - position,
{
    let reading = read_from(g, text, position);
    let moved = position < reading.position <= text.len();
    match reading.outcome {
        Ok(None) => Seq::empty(),
        Ok(Some(tree)) => if moved {
            seq![Ok(tree)] + read_each(g, text, reading.position)
        } else {
            seq![Ok(tree)]
        },
        Err(error) => if moved && !terminal(error) {
            seq![Err(error)] + read_each(g, text, reading.position)
        } else {
            seq![Err(error)]
        },
    }
}

/// The trees of successive readings are faithful and in source order.
pub proof fn lemma_read_each_in_order(g: GraphView, text: Seq<char>, position: int)
    requires
        g.well_formed(),
        0 <= position <= text.len(),
    ensures
        trees_in_order(text, position, read_each(g, text, position)),
    decreases text.len() - position,
{
    let reading = read_from(g, text, position);
    let results = read_each(g, text, position);
    lemma_reading_faithful(g, text, position);
    if position < reading.position <= text.len() && !(reading.outcome matches Ok(None)) && !(
    reading.outcome matches Err(error) && terminal(error)) {
        let rest = read_each(g, text, reading.position);
        lemma_read_each_in_order(g, text, reading.position);
        assert forall|i: int| 0 < i < results.len() implies results[i] == rest[i - 1] by {}
        assert forall|i: int, j: int| 0 <= i < j < results.len() implies ((
        #[trigger] results[i]) matches Ok(first) ==> ((#[trigger] results[j]) matches Ok(second)
            ==> first.end() <= second.start())) by {
            assert(results[j] == rest[j - 1]);
            if i > 0 {
                assert(results[i] == rest[i - 1]);
            }
        }
    }
}

/// The mathematical values of the results of several readings.
pub open spec fn results_view(results: Seq<Result<DocumentSyntaxTree<'_>, ParseError>>) -> Seq<
    Result<TreeView, ParseErrorView>,
> {
    Seq::new(
        results.len(),
        |i: int|
            match results[i] {
                Ok(tree) => Ok(tree@),
                Err(error) => Err(error@),
            },
    )
}

/// The plain expressions that the trees among the results reduce to.
pub open spec fn sexp_results(results: Seq<Result<TreeView, ParseErrorView>>) -> Seq<
    Result<crate::ast::RawView, ParseErrorView>,
> {
    Seq::new(
        results.len(),
        |i: int|
            match results[i] {
                Ok(tree) => Ok(raw_of(tree)),
                Err(error) => Err(error),
            },
    )
}

/// The mathematical values of the results of several readings of plain
/// expressions.
pub open spec fn raw_results_view(results: Seq<Result<RawSexp, ParseError>>) -> Seq<
    Result<crate::ast::RawView, ParseErrorView>,
> {
    Seq::new(
        results.len(),
        |i: int|
            match results[i] {
                Ok(sexp) => Ok(sexp@),
                Err(error) => Err(error@),
            },
    )
}

/// Whether the error ends a reading of all trees.
pub fn is_terminal(error: &ParseError) -> (ends: bool)
    ensures
        ends == terminal(error@),
{
    match error {
        ParseError::UnexpectedCloser(_) => true,
        ParseError::EndOfTextWithOpenEncloser(_) => true,
        _ => false,
    }
}

impl<'g, 's> Parser<'g, 's> {
    /// Reads the trees of the rest of the text: the result of each reading,
    /// up to the end of the text or to the first terminal error. The trees
    /// are faithful, in source order, and do not overlap.
    pub fn read_all(&mut self) -> (results: Vec<Result<DocumentSyntaxTree<'s>, ParseError>>)
        ensures
            final(self).graph() == old(self).graph(),
            final(self).text() == old(self).text(),
            results_view(results@) == read_each(
                old(self).graph(),
                old(self).text(),
                old(self).offset(),
            ),
            trees_in_order(old(self).text(), old(self).offset(), results_view(results@)),
    {
        let position = self.position();
        proof {
            lemma_read_each_in_order(self.graph(), self.text(), self.offset());
        }
        let mut results: Vec<Result<DocumentSyntaxTree<'s>, ParseError>> = Vec::new();
        let ghost g = self.graph();
        let ghost text = self.text();
        let ghost all = read_each(g, text, self.offset());
        assert(results_view(results@) + all =~= all);
        loop
            invariant_except_break
                results_view(results@) + read_each(g, text, self.offset()) == all,
            invariant
                self.graph() == g,
                self.text() == text,
                g == old(self).graph(),
                text == old(self).text(),
                all == read_each(g, text, old(self).offset()),
            ensures
                results_view(results@) == all,
                self.graph() == g,
                self.text() == text,
            decreases text.len() - self.offset(),
        {
            let ghost before = self.offset();
            let ghost done = results_view(results@);
            let position = self.position();
            proof {
                lemma_reading_progress(g, text, before);
            }
            let outcome = self.read_next();
            let ghost rest = read_each(g, text, self.offset());
            match outcome {
                Ok(None) => {
                    assert(done + Seq::empty() =~= done);
                    break;
                },
                Ok(Some(tree)) => {
                    results.push(Ok(tree));
                    assert(results_view(results@) =~= done + seq![Ok(tree@)]);
                    assert(results_view(results@) + rest =~= done + (seq![Ok(tree@)] + rest));
                },
                Err(error) => {
                    let ends = is_terminal(&error);
                    results.push(Err(error));
                    assert(results_view(results@) =~= done + seq![Err(error@)]);
                    if ends {
                        break;
                    }
                    assert(results_view(results@) + rest =~= done + (seq![Err(error@)] + rest));
                },
            }
        }
        results
    }

    /// Reads the trees of the rest of the text, as [`Self::read_all`] does,
    /// and reduces each to a plain expression.
    pub fn read_all_sexps(&mut self) -> (results: Vec<Result<RawSexp, ParseError>>)
        ensures
            final(self).graph() == old(self).graph(),
            final(self).text() == old(self).text(),
            raw_results_view(results@) == sexp_results(
                read_each(old(self).graph(), old(self).text(), old(self).offset()),
            ),
    {
        let mut trees = self.read_all();
        let ghost all = results_view(trees@);
        let mut results: Vec<Result<RawSexp, ParseError>> = Vec::new();
        let mut i: usize = 0;
        while i < trees.len()
            invariant
                i <= trees@.len(),
                results_view(trees@) == all,
                raw_results_view(results@) == sexp_results(all).take(i as int),
            decreases trees@.len() - i,
        {
            let ghost done = raw_results_view(results@);
            match &trees[i] {
                Ok(tree) => {
                    let sexp = RawSexp::of_tree(tree);
                    results.push(Ok(sexp));
                    assert(all[i as int] == Ok::<TreeView, ParseErrorView>(tree@));
                    assert(raw_results_view(results@) =~= done.push(Ok(sexp@)));
                },
                Err(error) => {
                    let copy = copy_error(error);
                    results.push(Err(copy));
                    assert(all[i as int] == Err::<TreeView, ParseErrorView>(error@));
                    assert(raw_results_view(results@) =~= done.push(Err(error@)));
                },
            }
            assert(sexp_results(all).take(i + 1) =~= sexp_results(all).take(i as int).push(
                sexp_results(all)[i as int],
            ));
            i += 1;
        }
        assert(sexp_results(all).take(trees@.len() as int) =~= sexp_results(all));
        results
    }
}

/// An error with the same value.
fn copy_error(error: &ParseError) -> (copy: ParseError)
    ensures
        copy@ == error@,
{
    match error {
        ParseError::UnexpectedCloser(t) => ParseError::UnexpectedCloser(t.clone()),
        ParseError::EndOfTextWithOpenEncloser(t) => ParseError::EndOfTextWithOpenEncloser(t.clone()),
        ParseError::OperatorMissingLeftArgument(t) => ParseError::OperatorMissingLeftArgument(
            t.clone(),
        ),
        ParseError::OperatorMissingRightArgument(t) => ParseError::OperatorMissingRightArgument(
            t.clone(),
        ),
    }
}

/// Closing takes priority over opening: where the innermost open scope is
/// a symmetric encloser and its token stands at the next character, which
/// is not the context's escape character, the token closes that scope.
pub proof fn lemma_symmetric_closes_first(g: GraphView, text: Seq<char>, st: ScanState)
    requires
        st.open.len() > 0,
        g.elements[st.open.last().element].shape.kind is SymmetricEncloser,
        token_at(text, st.position, g.elements[st.open.last().element].shape.opener),
        g.contexts[context_of(g, st)].escape != Some(text[st.position]),
    ensures
        classify(g, text, st) is Close,
{
}

/// Literal fallback: a character at which no opening token of the grammar
/// and no encloser's closing token stands whole, and which is neither the
/// escape character nor whitespace in its context, is content. Unless a tree stands completed at the top level,
/// the character starts a leaf token or extends the one that is being read.
pub proof fn lemma_unmatched_character_is_content(g: GraphView, text: Seq<char>, st: ScanState)
    requires
        0 <= st.position < text.len(),
        forall|k: int| 0 <= k < st.open.len() ==> 0 <= (#[trigger] st.open[k]).element < g.elements.len(),
        forall|e: int|
            0 <= e < g.elements.len() ==> {
                &&& !token_at(text, st.position, (#[trigger] g.elements[e]).shape.opener)
                &&& g.elements[e].shape.kind is Encloser ==> !token_at(
                    text,
                    st.position,
                    g.elements[e].shape.closer,
                )
            },
        g.contexts[context_of(g, st)].escape != Some(text[st.position]),
        !g.contexts[context_of(g, st)].whitespace.contains(text[st.position]),
    ensures
        classify(g, text, st) is Content,
        !st.escaped && !st.top_level_value() ==> step(g, text, st) == Step::Continue(
            ScanState {
                position: st.position + 1,
                leaf: if st.leaf is Some {
                    st.leaf
                } else {
                    Some(st.position)
                },
                escaped: false,
                ..st
            },
        ),
{
    let ctx = context_of(g, st);
    lemma_innermost_encloser(g, st.open);
    lemma_stray_closer_is_longest_then_latest(g, text, st.position, ctx, g.elements.len());
    lemma_best_opener_is_longest_then_latest(g, text, st.position, ctx, g.elements.len());
}

/// An operator that finds fewer expressions before it than its left arity
/// fails the reading with a missing left argument, at the operator's
/// offset; the next reading starts behind the operator's token. This holds
/// where no leaf token is being read and no tree stands completed at the
/// top level.
pub proof fn lemma_missing_left_argument(g: GraphView, text: Seq<char>, st: ScanState, e: int)
    requires
        st.position < text.len(),
        !st.escaped,
        st.leaf is None,
        !st.top_level_value(),
        classify(g, text, st) == Token::Open(e),
        g.elements[e].shape.kind is Operator,
        available(g, st) < g.elements[e].shape.left,
    ensures
        step(g, text, st) == fails(
            ParseErrorView::OperatorMissingLeftArgument(g.elements[e].shape.opener),
            st.position + g.elements[e].shape.opener.len(),
            st.position,
        ),
{
}

/// An operator that still lacks right arguments where the text ends, or
/// where the closer of the encloser around it stands, fails the reading
/// with a missing right argument, at the operator's offset.
pub proof fn lemma_missing_right_argument(g: GraphView, text: Seq<char>, st: ScanState)
    requires
        st.leaf is None,
        !st.escaped,
        st.open.len() > 0,
        g.elements[st.open.last().element].shape.kind is Operator,
    ensures
        st.position >= text.len() && innermost_encloser(g, st.open) is None ==> step(g, text, st)
            == fails(
            ParseErrorView::OperatorMissingRightArgument(
                g.elements[st.open.last().element].shape.opener,
            ),
            text.len() as int,
            st.open.last().token_at,
        ),
        st.position < text.len() && classify(g, text, st) is MissingRight ==> step(g, text, st)
            == fails(
            ParseErrorView::OperatorMissingRightArgument(
                g.elements[st.open.last().element].shape.opener,
            ),
            st.position,
            st.open.last().token_at,
        ),
{
}

} // verus!
