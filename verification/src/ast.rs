//! The trees that a reading yields: position-annotated trees, and the plain
//! expressions they reduce to.
use crate::syntax::{ElementShape, EncloserOrOperator};
use std::ops::Range;
use vstd::prelude::*;

verus! {

/// A tree with source positions: a leaf token with its span and text, or an
/// inner node with its span, the grammar element it stands for, and its
/// children in source order. A span is a half-open interval of offsets.
#[derive(Debug, PartialEq)]
pub enum DocumentSyntaxTree<'s> {
    Leaf(Range<usize>, String),
    Inner((Range<usize>, EncloserOrOperator<'s>), Vec<DocumentSyntaxTree<'s>>),
}

/// The mathematical value of a [`DocumentSyntaxTree`].
pub enum TreeView {
    Leaf { start: int, end: int, text: Seq<char> },
    Inner { start: int, end: int, element: ElementShape, children: Seq<TreeView> },
}

impl TreeView {
    /// The offset at which the node's span starts.
    pub open spec fn start(self) -> int {
        match self {
            TreeView::Leaf { start, .. } => start,
            TreeView::Inner { start, .. } => start,
        }
    }

    /// The offset at which the node's span ends.
    pub open spec fn end(self) -> int {
        match self {
            TreeView::Leaf { end, .. } => end,
            TreeView::Inner { end, .. } => end,
        }
    }

    /// The node's children; a leaf has none.
    pub open spec fn children(self) -> Seq<TreeView> {
        match self {
            TreeView::Leaf { .. } => Seq::empty(),
            TreeView::Inner { children, .. } => children,
        }
    }

    /// Whether the node's span contains the interval from `start` to `end`.
    pub open spec fn encloses(self, start: int, end: int) -> bool {
        self.start() <= start && end <= self.end()
    }

    /// Structural monotonicity: in the node and in every node below it, the
    /// span is an interval, it contains the span of every child, and the
    /// children's spans are in order and do not overlap.
    pub open spec fn nested(self) -> bool
        decreases self,
    {
        &&& self.start() <= self.end()
        &&& match self {
            TreeView::Leaf { .. } => true,
            TreeView::Inner { start, end, children, .. } => {
                &&& forall|i: int|
                    0 <= i < children.len() ==> {
                        &&& start <= (#[trigger] children[i]).start()
                        &&& children[i].end() <= end
                        &&& children[i].nested()
                    }
                &&& ordered(children)
            },
        }
    }

    /// Whether the tree is one of the given text: every leaf in it lies in
    /// the text and holds the characters of its span.
    pub open spec fn spells(self, source: Seq<char>) -> bool
        decreases self,
    {
        match self {
            TreeView::Leaf { start, end, text } => {
                &&& 0 <= start <= end <= source.len()
                &&& text == source.subrange(start, end)
            },
            TreeView::Inner { children, .. } => forall|i: int|
                0 <= i < children.len() ==> (#[trigger] children[i]).spells(source),
        }
    }

    /// Arity: in the node and in every node below it, an operator has as
    /// many children as its left and right arguments together.
    pub open spec fn saturated(self) -> bool
        decreases self,
    {
        match self {
            TreeView::Leaf { .. } => true,
            TreeView::Inner { element, children, .. } => {
                &&& element.kind is Operator ==> children.len() == element.left + element.right
                &&& forall|i: int| 0 <= i < children.len() ==> (#[trigger] children[i]).saturated()
            },
        }
    }
}

/// Whether each node ends before the next one starts.
pub open spec fn ordered(nodes: Seq<TreeView>) -> bool {
    forall|i: int, j: int|
        0 <= i < j < nodes.len() ==> (#[trigger] nodes[i]).end() <= (#[trigger] nodes[j]).start()
}

impl<'s> DocumentSyntaxTree<'s> {
    /// The tree's mathematical value.
    pub open spec fn model(&self) -> TreeView
        decreases self,
    {
        match self {
            DocumentSyntaxTree::Leaf(span, text) => TreeView::Leaf {
                start: span.start as int,
                end: span.end as int,
                text: text@,
            },
            DocumentSyntaxTree::Inner(head, children) => TreeView::Inner {
                start: head.0.start as int,
                end: head.0.end as int,
                element: head.1.shape(),
                children: Seq::new(
                    children.len() as nat,
                    |i: int|
                        if 0 <= i < children.len() {
                            children[i].model()
                        } else {
                            TreeView::Leaf { start: 0, end: 0, text: Seq::empty() }
                        },
                ),
            },
        }
    }
}

impl<'s> View for DocumentSyntaxTree<'s> {
    type V = TreeView;

    open spec fn view(&self) -> TreeView {
        self.model()
    }
}

/// The values of a sequence of trees.
pub open spec fn tree_views(trees: Seq<DocumentSyntaxTree<'_>>) -> Seq<TreeView> {
    Seq::new(trees.len(), |i: int| trees[i]@)
}

/// The value of an inner node holds the values of its children.
pub proof fn lemma_inner_view<'s>(
    head: (Range<usize>, EncloserOrOperator<'s>),
    children: Vec<DocumentSyntaxTree<'s>>,
)
    ensures
        DocumentSyntaxTree::Inner(head, children)@ == (TreeView::Inner {
            start: head.0.start as int,
            end: head.0.end as int,
            element: head.1@,
            children: tree_views(children@),
        }),
{
    let tree = DocumentSyntaxTree::Inner(head, children);
    let kids = tree@.children();
    assert(tree@ is Inner);
    assert(tree@->Inner_end == head.0.end);
    assert(tree@->Inner_element == head.1.shape());
    assert(kids.len() == children.len());
    assert forall|i: int| 0 <= i < children@.len() implies kids[i] == tree_views(children@)[i] by {
        assert(children[i] == children@[i]);
    }
    assert(kids =~= tree_views(children@));
}

impl<'s> Clone for DocumentSyntaxTree<'s> {
    fn clone(&self) -> (copy: Self)
        ensures
            copy@ == self@,
    {
        self.duplicate()
    }
}

impl<'s> DocumentSyntaxTree<'s> {
    /// A tree with the same value.
    pub fn duplicate(&self) -> (copy: Self)
        ensures
            copy@ == self@,
        decreases self,
    {
        match self {
            DocumentSyntaxTree::Leaf(span, text) => DocumentSyntaxTree::Leaf(
                span.start..span.end,
                text.clone(),
            ),
            DocumentSyntaxTree::Inner(head, children) => {
                let mut copies: Vec<DocumentSyntaxTree<'s>> = Vec::new();
                let mut i: usize = 0;
                while i < children.len()
                    invariant
                        i <= children.len(),
                        self is Inner,
                        self->Inner_1 == *children,
                        tree_views(copies@) == tree_views(children@).take(i as int),
                    decreases children.len() - i,
                {
                    proof {
                        assert(decreases_to!(self => self->Inner_1));
                    }
                    let copy = children[i].duplicate();
                    let ghost before = copies@;
                    copies.push(copy);
                    assert(tree_views(copies@) =~= tree_views(before).push(copy@));
                    assert(tree_views(children@).take(i + 1) =~= tree_views(children@).take(
                        i as int,
                    ).push(children@[i as int]@));
                    i += 1;
                }
                proof {
                    assert(tree_views(children@).take(children@.len() as int) == tree_views(
                        children@,
                    ));
                    lemma_inner_view(*head, *children);
                    lemma_inner_view((head.0.start..head.0.end, head.1), copies);
                }
                DocumentSyntaxTree::Inner((head.0.start..head.0.end, head.1), copies)
            },
        }
    }

    /// The offset at which the node's span starts.
    pub fn start(&self) -> (start: usize)
        ensures
            start == self@.start(),
    {
        match self {
            DocumentSyntaxTree::Leaf(span, _) => span.start,
            DocumentSyntaxTree::Inner(head, _) => head.0.start,
        }
    }

    /// The offset at which the node's span ends.
    pub fn end(&self) -> (end: usize)
        ensures
            end == self@.end(),
    {
        match self {
            DocumentSyntaxTree::Leaf(span, _) => span.end,
            DocumentSyntaxTree::Inner(head, _) => head.0.end,
        }
    }

    /// Whether the node's span contains the given range: it starts no later
    /// and ends no earlier.
    pub fn encloses(&self, range: &Range<usize>) -> (enclosing: bool)
        ensures
            enclosing == self@.encloses(range.start as int, range.end as int),
    {
        self.start() <= range.start && range.end <= self.end()
    }
}

/// A plain expression: a token, or a list of expressions.
#[derive(Debug, PartialEq)]
pub enum RawSexp {
    Leaf(String),
    Inner(Vec<RawSexp>),
}

/// The mathematical value of a [`RawSexp`].
pub enum RawView {
    Leaf(Seq<char>),
    Inner(Seq<RawView>),
}

impl View for RawSexp {
    type V = RawView;

    open spec fn view(&self) -> RawView
        decreases self,
    {
        match self {
            RawSexp::Leaf(text) => RawView::Leaf(text@),
            RawSexp::Inner(items) => RawView::Inner(
                Seq::new(
                    items.len() as nat,
                    |i: int|
                        if 0 <= i < items.len() {
                            items[i]@
                        } else {
                            RawView::Leaf(Seq::empty())
                        },
                ),
            ),
        }
    }
}

/// The values of a sequence of plain expressions.
pub open spec fn raw_views(items: Seq<RawSexp>) -> Seq<RawView> {
    Seq::new(items.len(), |i: int| items[i]@)
}

/// The value of a list holds the values of its items.
pub proof fn lemma_raw_inner_view(items: Vec<RawSexp>)
    ensures
        RawSexp::Inner(items)@ == RawView::Inner(raw_views(items@)),
{
    assert(RawSexp::Inner(items)@->Inner_0 =~= raw_views(items@));
}

/// The plain expression that a tree reduces to: a leaf to its text; an inner
/// node to the list of what its children reduce to, behind the element's tag
/// as a first token where the tag is not empty.
pub open spec fn raw_of(tree: TreeView) -> RawView
    decreases tree,
{
    match tree {
        TreeView::Leaf { text, .. } => RawView::Leaf(text),
        TreeView::Inner { element, children, .. } => {
            let items = Seq::new(
                children.len(),
                |i: int|
                    if 0 <= i < children.len() {
                        raw_of(children[i])
                    } else {
                        RawView::Leaf(Seq::empty())
                    },
            );
            if element.tag.len() == 0 {
                RawView::Inner(items)
            } else {
                RawView::Inner(seq![RawView::Leaf(element.tag)] + items)
            }
        },
    }
}

impl Clone for RawSexp {
    fn clone(&self) -> (copy: Self)
        ensures
            copy@ == self@,
    {
        self.duplicate()
    }
}

impl RawSexp {
    /// A token.
    pub fn leaf(text: String) -> (sexp: RawSexp)
        ensures
            sexp@ == RawView::Leaf(text@),
    {
        RawSexp::Leaf(text)
    }

    /// A list of expressions.
    pub fn inner(items: Vec<RawSexp>) -> (sexp: RawSexp)
        ensures
            sexp@ == RawView::Inner(raw_views(items@)),
    {
        proof {
            lemma_raw_inner_view(items);
        }
        RawSexp::Inner(items)
    }

    /// An expression with the same value.
    pub fn duplicate(&self) -> (copy: RawSexp)
        ensures
            copy@ == self@,
        decreases self,
    {
        match self {
            RawSexp::Leaf(text) => RawSexp::Leaf(text.clone()),
            RawSexp::Inner(items) => {
                let mut copies: Vec<RawSexp> = Vec::new();
                let mut i: usize = 0;
                while i < items.len()
                    invariant
                        i <= items.len(),
                        self is Inner,
                        self->Inner_0 == *items,
                        raw_views(copies@) == raw_views(items@).take(i as int),
                    decreases items.len() - i,
                {
                    proof {
                        assert(decreases_to!(self => self->Inner_0));
                    }
                    let copy = items[i].duplicate();
                    let ghost before = copies@;
                    copies.push(copy);
                    assert(raw_views(copies@) =~= raw_views(before).push(copy@));
                    assert(raw_views(items@).take(i + 1) =~= raw_views(items@).take(i as int).push(
                        items@[i as int]@,
                    ));
                    i += 1;
                }
                proof {
                    assert(raw_views(items@).take(items@.len() as int) == raw_views(items@));
                    lemma_raw_inner_view(*items);
                    lemma_raw_inner_view(copies);
                }
                RawSexp::Inner(copies)
            },
        }
    }

    /// The plain expression that the tree reduces to.
    pub fn of_tree(tree: &DocumentSyntaxTree<'_>) -> (sexp: RawSexp)
        ensures
            sexp@ == raw_of(tree@),
        decreases tree,
    {
        match tree {
            DocumentSyntaxTree::Leaf(_, text) => RawSexp::Leaf(text.clone()),
            DocumentSyntaxTree::Inner(head, children) => {
                let mut items: Vec<RawSexp> = Vec::new();
                let tag = head.1.tag();
                let tagged = !tag.is_empty();
                if tagged {
                    items.push(RawSexp::Leaf(tag.to_owned()));
                }
                let ghost lead = raw_views(items@);
                let ghost below = Seq::new(
                    children@.len(),
                    |i: int| raw_of(tree_views(children@)[i]),
                );
                let mut i: usize = 0;
                while i < children.len()
                    invariant
                        i <= children.len(),
                        tree is Inner,
                        tree->Inner_1 == *children,
                        below == Seq::new(
                            children@.len(),
                            |i: int| raw_of(tree_views(children@)[i]),
                        ),
                        raw_views(items@) == lead + below.take(i as int),
                    decreases children.len() - i,
                {
                    proof {
                        assert(decreases_to!(tree => tree->Inner_1));
                    }
                    let item = RawSexp::of_tree(&children[i]);
                    let ghost before = items@;
                    items.push(item);
                    assert(raw_views(items@) =~= raw_views(before).push(item@));
                    assert(below.take(i + 1) =~= below.take(i as int).push(below[i as int]));
                    assert(raw_views(items@) =~= lead + below.take(i + 1));
                    i += 1;
                }
                proof {
                    assert(below.take(children@.len() as int) == below);
                    lemma_inner_view(*head, *children);
                    lemma_raw_inner_view(items);
                    let wanted = Seq::new(
                        tree@.children().len(),
                        |i: int|
                            if 0 <= i < tree@.children().len() {
                                raw_of(tree@.children()[i])
                            } else {
                                RawView::Leaf(Seq::empty())
                            },
                    );
                    assert(below =~= wanted);
                    if tagged {
                        assert(lead =~= seq![RawView::Leaf(head.1@.tag)]);
                        assert(raw_of(tree@)->Inner_0 =~= seq![RawView::Leaf(head.1@.tag)] + wanted);
                    } else {
                        assert(lead =~= Seq::empty());
                        assert(lead + below =~= below);
                        assert(raw_of(tree@)->Inner_0 =~= wanted);
                    }
                }
                RawSexp::Inner(items)
            },
        }
    }
}

impl<'s> vstd::std_specs::convert::FromSpecImpl<DocumentSyntaxTree<'s>> for RawSexp {
    open spec fn obeys_from_spec() -> bool {
        false
    }

    open spec fn from_spec(tree: DocumentSyntaxTree<'s>) -> RawSexp {
        arbitrary()
    }
}

impl<'s> From<DocumentSyntaxTree<'s>> for RawSexp {
    fn from(tree: DocumentSyntaxTree<'s>) -> (sexp: RawSexp)
        ensures
            sexp@ == raw_of(tree@),
    {
        RawSexp::of_tree(&tree)
    }
}

} // verus!
