//! The scanner's working state and its single steps, as executable code.
use crate::ast::{lemma_inner_view, tree_views, DocumentSyntaxTree};
use crate::parser::{
    available, classify, close_top, context_of, fails, flush, innermost_encloser, leaf_pushed,
    lemma_classify_facts, lemma_close_loose, lemma_leaf_pushed_loose, lemma_open_loose,
    lemma_settle_step, loose, open_element, scope_sound, settle, sound, step, step_at_end, OpenView,
    ParseError, Reading, ScanState, Step, Token,
};
use crate::syntax::{ElementKind, SyntaxGraph};
use crate::text::string_of;
use vstd::prelude::*;

verus! {

/// An open scope.
pub struct OpenScope {
    pub element: usize,
    pub start: usize,
    pub token_at: usize,
    pub base: usize,
}

impl View for OpenScope {
    type V = OpenView;

    open spec fn view(&self) -> OpenView {
        OpenView {
            element: self.element as int,
            start: self.start as int,
            token_at: self.token_at as int,
            base: self.base as int,
        }
    }
}

/// The state of a reading.
pub struct Scan<'s> {
    pub position: usize,
    pub leaf: Option<usize>,
    pub escaped: bool,
    pub open: Vec<OpenScope>,
    pub nodes: Vec<DocumentSyntaxTree<'s>>,
}

impl<'s> View for Scan<'s> {
    type V = ScanState;

    open spec fn view(&self) -> ScanState {
        ScanState {
            position: self.position as int,
            leaf: match self.leaf {
                Some(start) => Some(start as int),
                None => None,
            },
            escaped: self.escaped,
            open: Seq::new(self.open@.len(), |k: int| self.open@[k]@),
            nodes: tree_views(self.nodes@),
        }
    }
}

impl<'s> Scan<'s> {
    /// The state in which a reading starts.
    pub fn fresh(position: usize) -> (scan: Self)
        ensures
            scan@ == ScanState::fresh(position as int),
    {
        let scan = Scan { position, leaf: None, escaped: false, open: Vec::new(), nodes: Vec::new() };
        assert(scan@.open =~= Seq::empty());
        assert(scan@.nodes =~= Seq::empty());
        scan
    }

    /// The index of the context in which the next character is read.
    pub fn context(&self, graph: &SyntaxGraph<'s>) -> (ctx: usize)
        requires
            forall|k: int| 0 <= k < self@.open.len() ==> 0 <= (#[trigger] self@.open[k]).element
                < graph@.elements.len(),
        ensures
            ctx == context_of(graph@, self@),
            ctx < graph@.contexts.len(),
    {
        let count = graph.context_count();
        if self.open.len() == 0 {
            0
        } else {
            let top = &self.open[self.open.len() - 1];
            assert(self@.open.last() == top@);
            graph.child_context(top.element)
        }
    }

    /// The index of the innermost open scope that is no operator.
    pub fn innermost(&self, graph: &SyntaxGraph<'s>) -> (found: Option<usize>)
        requires
            forall|k: int| 0 <= k < self@.open.len() ==> 0 <= (#[trigger] self@.open[k]).element
                < graph@.elements.len(),
        ensures
            match found {
                Some(k) => innermost_encloser(graph@, self@.open) == Some(k as int) && k
                    < self.open@.len(),
                None => innermost_encloser(graph@, self@.open) is None,
            },
    {
        let mut k: usize = self.open.len();
        assert(self@.open.take(k as int) =~= self@.open);
        while k > 0
            invariant
                k <= self.open@.len(),
                forall|j: int| 0 <= j < self@.open.len() ==> 0 <= (#[trigger] self@.open[j]).element
                    < graph@.elements.len(),
                innermost_encloser(graph@, self@.open.take(k as int)) == innermost_encloser(
                    graph@,
                    self@.open,
                ),
            decreases k,
        {
            let scope = &self.open[k - 1];
            assert(self@.open[k - 1] == scope@);
            assert(self@.open.take(k as int).last() == scope@);
            assert(self@.open.take(k as int).drop_last() =~= self@.open.take(k - 1));
            match graph.element(scope.element).kind() {
                ElementKind::Operator => {},
                _ => {
                    return Some(k - 1);
                },
            }
            k -= 1;
        }
        None
    }

    /// Closes the innermost scope at offset `end`: wraps its children into
    /// one node, which takes their place.
    pub fn close_top(&mut self, graph: &SyntaxGraph<'s>, end: usize)
        requires
            old(self)@.open.len() > 0,
            0 <= old(self)@.open.last().element < graph@.elements.len(),
            old(self)@.open.last().base <= old(self)@.nodes.len(),
        ensures
            final(self)@ == close_top(graph@, old(self)@, end as int),
    {
        let ghost before = self@;
        let top = self.open.pop().unwrap();
        assert(before.open.last() == top@);
        let children = self.nodes.split_off(top.base);
        let element = graph.element(top.element);
        proof {
            lemma_inner_view((top.start..end, element), children);
        }
        let ghost kept = tree_views(self.nodes@);
        self.nodes.push(DocumentSyntaxTree::Inner((top.start..end, element), children));
        proof {
            let wanted = close_top(graph@, before, end as int);
            assert(tree_views(children@) =~= before.nodes.subrange(
                top.base as int,
                before.nodes.len() as int,
            ));
            assert(kept =~= before.nodes.take(top.base as int));
            assert(self@.nodes =~= wanted.nodes);
            assert(self@.open =~= wanted.open);
        }
    }

    /// Closes every operator that has all its arguments, innermost first.
    pub fn settle(&mut self, graph: &SyntaxGraph<'s>, Ghost(text): Ghost<Seq<char>>)
        requires
            graph@.well_formed(),
            loose(graph@, text, old(self)@),
            old(self)@.leaf is None,
            text.len() <= usize::MAX,
        ensures
            final(self)@ == settle(graph@, old(self)@),
    {
        loop
            invariant
                graph@.well_formed(),
                loose(graph@, text, self@),
                self@.leaf is None,
                text.len() <= usize::MAX,
                settle(graph@, self@) == settle(graph@, old(self)@),
            ensures
                self@ == settle(graph@, old(self)@),
            decreases self@.open.len(),
        {
            if self.open.len() == 0 {
                break;
            }
            let ghost n = self@.open.len() - 1;
            let top = &self.open[self.open.len() - 1];
            assert(self@.open.last() == top@);
            assert(scope_sound(graph@, self@, n));
            let element = graph.element(top.element);
            let is_operator = match element.kind() {
                ElementKind::Operator => true,
                _ => false,
            };
            assert(graph@.elements[top.element as int].shape.well_formed());
            if !is_operator || self.nodes.len() - top.base != element.left_args()
                + element.right_args() {
                break;
            }
            proof {
                lemma_settle_step(graph@, text, self@);
            }
            let end = if element.right_args() > 0 {
                let last = &self.nodes[self.nodes.len() - 1];
                assert(self@.nodes.last() == last@);
                last.end()
            } else {
                top.token_at + graph.opener_len(top.element)
            };
            self.close_top(graph, end);
        }
    }

    /// Completes the leaf token that is being read.
    pub fn flush(&mut self, graph: &SyntaxGraph<'s>, text: &[char])
        requires
            graph@.well_formed(),
            sound(graph@, text@, old(self)@),
            old(self)@.leaf is Some,
        ensures
            final(self)@ == flush(graph@, text@, old(self)@),
    {
        let length = text.len();
        proof {
            lemma_leaf_pushed_loose(graph@, text@, self@);
        }
        let ghost before = self@;
        let start = self.leaf.unwrap();
        let leaf = DocumentSyntaxTree::Leaf(
            start..self.position,
            string_of(text, start, self.position),
        );
        self.nodes.push(leaf);
        self.leaf = None;
        self.escaped = false;
        assert(self@.nodes =~= leaf_pushed(text@, before).nodes);
        assert(self@.open =~= before.open);
        self.settle(graph, Ghost(text@));
    }

    /// Tells what stands at the next character of the text.
    pub fn classify(&self, graph: &SyntaxGraph<'s>, text: &[char]) -> (found: Found)
        requires
            graph@.well_formed(),
            sound(graph@, text@, self@),
            self@.position < text@.len(),
        ensures
            found@ == classify(graph@, text@, self@),
    {
        assert forall|k: int| 0 <= k < self@.open.len() implies 0 <= (
        #[trigger] self@.open[k]).element < graph@.elements.len() by {
            assert(scope_sound(graph@, self@, k));
        }
        let at = self.position;
        let ctx = self.context(graph);
        let context = graph.context(ctx);
        let c = text[at];
        let escapes = match context.escape() {
            Some(escape) => escape == c,
            None => false,
        };
        if escapes {
            return Found::Escape;
        }
        if self.open.len() > 0 {
            let top = &self.open[self.open.len() - 1];
            assert(self@.open.last() == top@);
            let symmetric = match graph.element(top.element).kind() {
                ElementKind::SymmetricEncloser => true,
                _ => false,
            };
            if symmetric && graph.opener_at(top.element, text, at) {
                return Found::Close;
            }
        }
        match self.innermost(graph) {
            Some(k) => {
                let scope = &self.open[k];
                assert(self@.open[k as int] == scope@);
                let encloser = match graph.element(scope.element).kind() {
                    ElementKind::Encloser => true,
                    _ => false,
                };
                if encloser && graph.closer_at(scope.element, text, at) {
                    if k == self.open.len() - 1 {
                        return Found::Close;
                    } else {
                        return Found::MissingRight;
                    }
                }
            },
            None => {},
        }
        match graph.find_stray_closer(text, at, ctx) {
            Some(e) => Found::Unexpected(e),
            None => match graph.find_opener(text, at, ctx) {
                Some(e) => Found::Open(e),
                None => if context.is_whitespace(c) {
                    Found::Blank
                } else {
                    Found::Content
                },
            },
        }
    }
}

/// What stands at the next character.
pub enum Found {
    Escape,
    Close,
    MissingRight,
    Unexpected(usize),
    Open(usize),
    Blank,
    Content,
}

impl View for Found {
    type V = Token;

    open spec fn view(&self) -> Token {
        match self {
            Found::Escape => Token::Escape,
            Found::Close => Token::Close,
            Found::MissingRight => Token::MissingRight,
            Found::Unexpected(e) => Token::Unexpected(*e as int),
            Found::Open(e) => Token::Open(*e as int),
            Found::Blank => Token::Blank,
            Found::Content => Token::Content,
        }
    }
}

/// How a reading ends.
pub struct Finish<'s> {
    pub outcome: Result<Option<DocumentSyntaxTree<'s>>, ParseError>,
    pub position: usize,
    pub offset: Option<usize>,
}

impl<'s> View for Finish<'s> {
    type V = Reading;

    open spec fn view(&self) -> Reading {
        Reading {
            outcome: match self.outcome {
                Ok(Some(tree)) => Ok(Some(tree@)),
                Ok(None) => Ok(None),
                Err(error) => Err(error@),
            },
            position: self.position as int,
            offset: match self.offset {
                Some(offset) => Some(offset as int),
                None => None,
            },
        }
    }
}

/// The text of the opening token of the element with index `e`.
fn opener_text(graph: &SyntaxGraph<'_>, e: usize) -> (token: String)
    requires
        e < graph@.elements.len(),
    ensures
        token@ == graph@.elements[e as int].shape.opener,
{
    graph.element(e).opening_token().to_owned()
}

/// The text of the closing token of the element with index `e`.
fn closer_text(graph: &SyntaxGraph<'_>, e: usize) -> (token: String)
    requires
        e < graph@.elements.len(),
    ensures
        token@ == graph@.elements[e as int].shape.closer,
{
    graph.element(e).closing_token().to_owned()
}

/// The reading's end with an error.
fn failure<'s>(error: ParseError, position: usize, offset: usize) -> (finish: Finish<'s>)
    ensures
        Step::Finished(finish@) == fails(error@, position as int, offset as int),
{
    Finish { outcome: Err(error), position, offset: Some(offset) }
}

impl<'s> Scan<'s> {
    /// The reading's end with the first node as its tree.
    pub fn yields(&mut self) -> (finish: Finish<'s>)
        requires
            old(self)@.nodes.len() > 0,
        ensures
            Step::Finished(finish@) == old(self)@.yields(),
    {
        let tree = self.nodes.remove(0);
        Finish { outcome: Ok(Some(tree)), position: self.position, offset: None }
    }

    /// How many completed expressions an operator that opens now can take.
    pub fn available(&self, graph: &SyntaxGraph<'s>, Ghost(text): Ghost<Seq<char>>) -> (count: usize)
        requires
            sound(graph@, text, self@),
        ensures
            count == available(graph@, self@),
    {
        if self.open.len() == 0 {
            self.nodes.len()
        } else {
            let ghost n = self@.open.len() - 1;
            let top = &self.open[self.open.len() - 1];
            assert(self@.open.last() == top@);
            assert(scope_sound(graph@, self@, n));
            let element = graph.element(top.element);
            let taken = match element.kind() {
                ElementKind::Operator => element.left_args(),
                _ => 0,
            };
            self.nodes.len() - top.base - taken
        }
    }

    /// Opens the element with index `e` at the current offset.
    pub fn open_element(&mut self, graph: &SyntaxGraph<'s>, text: &[char], e: usize) -> (finish: Option<
        Finish<'s>,
    >)
        requires
            graph@.well_formed(),
            sound(graph@, text@, old(self)@),
            old(self)@.leaf is None,
            e < graph@.elements.len(),
            old(self)@.position + graph@.elements[e as int].shape.opener.len() <= text@.len(),
        ensures
            match finish {
                None => open_element(graph@, old(self)@, e as int) == Step::Continue(final(self)@),
                Some(f) => open_element(graph@, old(self)@, e as int) == Step::Finished(f@),
            },
    {
        let length = text.len();
        let ghost before = self@;
        let at = self.position;
        let element = graph.element(e);
        let behind = at + graph.opener_len(e);
        let top_level_value = self.open.len() == 0 && self.nodes.len() > 0;
        let is_operator = match element.kind() {
            ElementKind::Operator => true,
            _ => false,
        };
        assert(graph@.elements[e as int].shape.well_formed());
        if !is_operator {
            if top_level_value {
                return Some(self.yields());
            }
            proof {
                lemma_open_loose(graph@, text@, before, e as int);
            }
            self.open.push(OpenScope { element: e, start: at, token_at: at, base: self.nodes.len() });
            self.position = behind;
            assert(self@.open =~= before.open.push(
                OpenView {
                    element: e as int,
                    start: at as int,
                    token_at: at as int,
                    base: before.nodes.len() as int,
                },
            ));
            return None;
        }
        let left = element.left_args();
        if top_level_value && left != 1 {
            return Some(self.yields());
        }
        if self.available(graph, Ghost(text@)) < left {
            return Some(
                failure(ParseError::OperatorMissingLeftArgument(opener_text(graph, e)), behind, at),
            );
        }
        proof {
            lemma_open_loose(graph@, text@, before, e as int);
        }
        let base = self.nodes.len() - left;
        let start = if left > 0 {
            let first = &self.nodes[base];
            assert(before.nodes[base as int] == first@);
            assert(before.nodes[base as int].nested());
            first.start()
        } else {
            at
        };
        self.open.push(OpenScope { element: e, start, token_at: at, base });
        self.position = behind;
        assert(self@.open =~= before.open.push(
            OpenView {
                element: e as int,
                start: start as int,
                token_at: at as int,
                base: base as int,
            },
        ));
        self.settle(graph, Ghost(text@));
        None
    }
}

impl<'s> Scan<'s> {
    /// The step at the end of the text.
    fn step_at_end(&mut self, graph: &SyntaxGraph<'s>, text: &[char]) -> (finish: Option<Finish<'s>>)
        requires
            graph@.well_formed(),
            sound(graph@, text@, old(self)@),
            old(self)@.position >= text@.len(),
        ensures
            match finish {
                None => step_at_end(graph@, text@, old(self)@) == Step::Continue(final(self)@),
                Some(f) => step_at_end(graph@, text@, old(self)@) == Step::Finished(f@),
            },
    {
        assert forall|k: int| 0 <= k < self@.open.len() implies 0 <= (
        #[trigger] self@.open[k]).element < graph@.elements.len() by {
            assert(scope_sound(graph@, self@, k));
        }
        if self.leaf.is_some() {
            self.flush(graph, text);
            return None;
        }
        if self.open.len() > 0 {
            return match self.innermost(graph) {
                Some(k) => {
                    let scope = &self.open[k];
                    assert(self@.open[k as int] == scope@);
                    Some(
                        failure(
                            ParseError::EndOfTextWithOpenEncloser(opener_text(graph, scope.element)),
                            text.len(),
                            scope.token_at,
                        ),
                    )
                },
                None => {
                    let top = &self.open[self.open.len() - 1];
                    assert(self@.open.last() == top@);
                    Some(
                        failure(
                            ParseError::OperatorMissingRightArgument(
                                opener_text(graph, top.element),
                            ),
                            text.len(),
                            top.token_at,
                        ),
                    )
                },
            };
        }
        if self.nodes.len() > 0 {
            return Some(self.yields());
        }
        Some(Finish { outcome: Ok(None), position: self.position, offset: None })
    }

    /// One step of a reading.
    pub fn step(&mut self, graph: &SyntaxGraph<'s>, text: &[char]) -> (finish: Option<Finish<'s>>)
        requires
            graph@.well_formed(),
            sound(graph@, text@, old(self)@),
        ensures
            match finish {
                None => step(graph@, text@, old(self)@) == Step::Continue(final(self)@),
                Some(f) => step(graph@, text@, old(self)@) == Step::Finished(f@),
            },
    {
        let ghost before = self@;
        let at = self.position;
        if at >= text.len() {
            return self.step_at_end(graph, text);
        }
        if self.escaped {
            self.position = at + 1;
            self.escaped = false;
            assert(self@.open =~= before.open);
            return None;
        }
        let found = self.classify(graph, text);
        proof {
            lemma_classify_facts(graph@, text@, before);
        }
        let top_level_value = self.open.len() == 0 && self.nodes.len() > 0 && self.leaf.is_none();
        match found {
            Found::Escape | Found::Content => {
                if top_level_value {
                    return Some(self.yields());
                }
                if self.leaf.is_none() {
                    self.leaf = Some(at);
                }
                self.escaped = match found {
                    Found::Escape => true,
                    _ => false,
                };
                self.position = at + 1;
                assert(self@.open =~= before.open);
                return None;
            },
            _ => {},
        }
        if self.leaf.is_some() {
            self.flush(graph, text);
            return None;
        }
        match found {
            Found::Blank => {
                self.position = at + 1;
                assert(self@.open =~= before.open);
                None
            },
            Found::Close => {
                let ghost n = self@.open.len() - 1;
                let top = &self.open[self.open.len() - 1];
                assert(self@.open.last() == top@);
                assert(scope_sound(graph@, self@, n));
                let behind = at + graph.closer_len(top.element);
                proof {
                    lemma_close_loose(graph@, text@, before);
                }
                self.close_top(graph, behind);
                self.position = behind;
                assert(self@ == close_top(graph@, before, behind as int).at(behind as int));
                self.settle(graph, Ghost(text@));
                None
            },
            Found::MissingRight => {
                let ghost n = self@.open.len() - 1;
                let top = &self.open[self.open.len() - 1];
                assert(self@.open.last() == top@);
                assert(scope_sound(graph@, self@, n));
                Some(
                    failure(
                        ParseError::OperatorMissingRightArgument(opener_text(graph, top.element)),
                        at,
                        top.token_at,
                    ),
                )
            },
            Found::Unexpected(e) => {
                if top_level_value {
                    Some(self.yields())
                } else {
                    Some(
                        failure(
                            ParseError::UnexpectedCloser(closer_text(graph, e)),
                            at + graph.closer_len(e),
                            at,
                        ),
                    )
                }
            },
            Found::Open(e) => self.open_element(graph, text, e),
            // Escape and content characters were dealt with above.
            Found::Escape | Found::Content => Some(self.yields()),
        }
    }
}

} // verus!
