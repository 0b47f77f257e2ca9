//! A forest of parsed trees that can be asked for the node at a path and
//! for the path of the innermost node around a source range.
use crate::ast::{lemma_inner_view, ordered, tree_views, DocumentSyntaxTree, TreeView};
use crate::parser::{
    lemma_reading_faithful, lemma_reading_progress, read_from, ParseError, ParseErrorView, Parser,
};
use crate::syntax::GraphView;
use std::ops::Range;
use vstd::prelude::*;

verus! {

/// The node that a path leads to: each index of the path chooses a child,
/// the first one a tree of the forest. No node lies at the empty path, at an
/// index that is out of range, or below a leaf.
pub open spec fn subtree_at(forest: Seq<TreeView>, path: Seq<usize>) -> Option<TreeView>
    decreases path.len(),
{
    if path.len() == 0 || path[0] >= forest.len() {
        None
    } else if path.len() == 1 {
        Some(forest[path[0] as int])
    } else {
        subtree_at(forest[path[0] as int].children(), path.skip(1))
    }
}

/// The index of the first node from index `from` on whose span contains the
/// interval from `start` to `end`.
pub open spec fn first_enclosing(nodes: Seq<TreeView>, start: int, end: int, from: int) -> Option<int>
    decreases nodes.len() - from,
{
    if from < 0 || from >= nodes.len() {
        None
    } else if nodes[from].encloses(start, end) {
        Some(from)
    } else {
        first_enclosing(nodes, start, end, from + 1)
    }
}

/// The path from a node to the innermost node below it around the interval
/// from `start` to `end`: at each level the first child whose span contains
/// the interval is entered; the path ends where no child contains it.
pub open spec fn path_below(tree: TreeView, start: int, end: int) -> Seq<usize>
    decreases tree,
{
    match tree {
        TreeView::Leaf { .. } => Seq::empty(),
        TreeView::Inner { children, .. } => match first_enclosing(children, start, end, 0) {
            Some(i) => if 0 <= i < children.len() {
                seq![i as usize] + path_below(children[i], start, end)
            } else {
                Seq::empty()
            },
            None => Seq::empty(),
        },
    }
}

/// The path to the innermost node around the interval from `start` to
/// `end`: the first tree of the forest whose span contains the interval,
/// and from there the path to the innermost node below it. The path is
/// empty where no tree contains the interval.
pub open spec fn enclosing_path(forest: Seq<TreeView>, start: int, end: int) -> Seq<usize> {
    match first_enclosing(forest, start, end, 0) {
        Some(i) => seq![i as usize] + path_below(forest[i], start, end),
        None => Seq::empty(),
    }
}

/// Where a node is found, its index is in range and its span contains the
/// interval; no node before it does.
pub proof fn lemma_first_enclosing(nodes: Seq<TreeView>, start: int, end: int, from: int)
    requires
        0 <= from,
    ensures
        match first_enclosing(nodes, start, end, from) {
            Some(i) => from <= i < nodes.len() && nodes[i].encloses(start, end) && forall|j: int|
                from <= j < i ==> !(#[trigger] nodes[j]).encloses(start, end),
            None => forall|j: int|
                from <= j < nodes.len() ==> !(#[trigger] nodes[j]).encloses(start, end),
        },
    decreases nodes.len() - from,
{
    if from < nodes.len() && !nodes[from].encloses(start, end) {
        lemma_first_enclosing(nodes, start, end, from + 1);
    }
}

/// Whether the children of every node can be counted: the node and every
/// node below it has at most `usize::MAX` children.
pub open spec fn countable(tree: TreeView) -> bool
    decreases tree,
{
    match tree {
        TreeView::Leaf { .. } => true,
        TreeView::Inner { children, .. } => {
            &&& children.len() <= usize::MAX
            &&& forall|i: int| 0 <= i < children.len() ==> countable(#[trigger] children[i])
        },
    }
}

/// The value of every tree is countable.
pub proof fn lemma_tree_countable(tree: DocumentSyntaxTree<'_>)
    ensures
        countable(tree@),
    decreases tree,
{
    match tree {
        DocumentSyntaxTree::Leaf(_, _) => {},
        DocumentSyntaxTree::Inner(head, children) => {
            lemma_inner_view(head, children);
            assert(children.len() == children@.len());
            assert forall|i: int| 0 <= i < children@.len() implies countable(
                #[trigger] tree_views(children@)[i],
            ) by {
                lemma_tree_countable(children@[i]);
            }
        },
    }
}

/// Whether the node's span contains the interval and no child's span does.
pub open spec fn innermost_around(node: TreeView, start: int, end: int) -> bool {
    &&& node.encloses(start, end)
    &&& forall|i: int|
        0 <= i < node.children().len() ==> !(#[trigger] node.children()[i]).encloses(start, end)
}

/// Below a node whose span contains the interval, [`path_below`] is empty
/// where the node itself is the innermost one around the interval, and
/// leads to that innermost node otherwise.
pub proof fn lemma_path_below(tree: TreeView, start: int, end: int)
    requires
        countable(tree),
        tree.encloses(start, end),
    ensures
        path_below(tree, start, end).len() == 0 ==> innermost_around(tree, start, end),
        path_below(tree, start, end).len() > 0 ==> {
            &&& subtree_at(tree.children(), path_below(tree, start, end)) is Some
            &&& innermost_around(
                subtree_at(tree.children(), path_below(tree, start, end)).unwrap(),
                start,
                end,
            )
        },
    decreases tree,
{
    match tree {
        TreeView::Leaf { .. } => {},
        TreeView::Inner { children, .. } => {
            lemma_first_enclosing(children, start, end, 0);
            match first_enclosing(children, start, end, 0) {
                Some(i) => {
                    let rest = path_below(children[i], start, end);
                    let path = seq![i as usize] + rest;
                    lemma_path_below(children[i], start, end);
                    assert(path[0] == i);
                    assert(path.skip(1) =~= rest);
                },
                None => {},
            }
        },
    }
}

/// Among nodes that are in order and do not overlap, at most one contains
/// an interval that is not empty.
pub proof fn lemma_at_most_one_encloses(nodes: Seq<TreeView>, start: int, end: int, i: int, j: int)
    requires
        ordered(nodes),
        start < end,
        0 <= i < nodes.len(),
        0 <= j < nodes.len(),
        nodes[i].encloses(start, end),
        nodes[j].encloses(start, end),
    ensures
        i == j,
{
}

/// The innermost enclosing path and the node at a path agree: where a tree
/// of the forest contains the interval, the node at [`enclosing_path`]
/// contains it and none of that node's children does; where no tree
/// contains it, the path is empty and no node lies at it.
pub proof fn lemma_enclosing_path_leads_to_innermost(forest: Seq<TreeView>, start: int, end: int)
    requires
        forest.len() <= usize::MAX,
        forall|i: int| 0 <= i < forest.len() ==> countable(#[trigger] forest[i]),
    ensures
        match subtree_at(forest, enclosing_path(forest, start, end)) {
            Some(node) => innermost_around(node, start, end),
            None => {
                &&& enclosing_path(forest, start, end).len() == 0
                &&& forall|i: int| 0 <= i < forest.len() ==> !(#[trigger] forest[i]).encloses(start, end)
            },
        },
{
    lemma_first_enclosing(forest, start, end, 0);
    match first_enclosing(forest, start, end, 0) {
        Some(i) => {
            let rest = path_below(forest[i], start, end);
            let path = seq![i as usize] + rest;
            lemma_path_below(forest[i], start, end);
            assert(path[0] == i);
            assert(path.skip(1) =~= rest);
        },
        None => {},
    }
}

/// A forest of parsed trees.
pub struct Document<'s> {
    trees: Vec<DocumentSyntaxTree<'s>>,
}

impl<'s> View for Document<'s> {
    type V = Seq<TreeView>;

    closed spec fn view(&self) -> Seq<TreeView> {
        tree_views(self.trees@)
    }
}

impl<'s> Document<'s> {
    /// The two queries agree in every document: where a tree contains the
    /// interval, the node at the innermost enclosing path contains it and
    /// none of that node's children does; where no tree contains it, the
    /// path is empty and no node lies at it.
    pub proof fn lemma_enclosing_path_leads_to_innermost(&self, start: int, end: int)
        ensures
            match subtree_at(self@, enclosing_path(self@, start, end)) {
                Some(node) => innermost_around(node, start, end),
                None => {
                    &&& enclosing_path(self@, start, end).len() == 0
                    &&& forall|i: int|
                        0 <= i < self@.len() ==> !(#[trigger] self@[i]).encloses(start, end)
                },
            },
    {
        assert(self.trees.len() == self.trees@.len());
        assert forall|i: int| 0 <= i < self@.len() implies countable(#[trigger] self@[i]) by {
            lemma_tree_countable(self.trees@[i]);
        }
        lemma_enclosing_path_leads_to_innermost(self@, start, end);
    }
}

/// The index of the first of the trees whose span contains the range.
fn find_enclosing(trees: &Vec<DocumentSyntaxTree<'_>>, range: &Range<usize>) -> (found: Option<usize>)
    ensures
        match found {
            Some(i) => first_enclosing(
                tree_views(trees@),
                range.start as int,
                range.end as int,
                0,
            ) == Some(i as int) && i < trees@.len(),
            None => first_enclosing(tree_views(trees@), range.start as int, range.end as int, 0)
                is None,
        },
{
    let ghost nodes = tree_views(trees@);
    let mut i: usize = 0;
    while i < trees.len()
        invariant
            i <= trees@.len(),
            nodes == tree_views(trees@),
            first_enclosing(nodes, range.start as int, range.end as int, i as int)
                == first_enclosing(nodes, range.start as int, range.end as int, 0),
        decreases trees@.len() - i,
    {
        assert(nodes[i as int] == trees@[i as int]@);
        if trees[i].encloses(range) {
            return Some(i);
        }
        i += 1;
    }
    None
}

impl<'s> Document<'s> {
    /// The document of the given trees, in their order.
    pub fn from_trees(trees: Vec<DocumentSyntaxTree<'s>>) -> (document: Self)
        ensures
            document@ == tree_views(trees@),
    {
        Document { trees }
    }

    /// The trees of the document.
    pub fn trees(&self) -> (trees: &Vec<DocumentSyntaxTree<'s>>)
        ensures
            tree_views(trees@) == self@,
    {
        &self.trees
    }

    /// The node at the given path: see [`subtree_at`].
    pub fn get_subtree(&self, path: &[usize]) -> (node: Option<&DocumentSyntaxTree<'s>>)
        ensures
            match node {
                Some(tree) => subtree_at(self@, path@) == Some(tree@),
                None => subtree_at(self@, path@) is None,
            },
    {
        let mut nodes: &Vec<DocumentSyntaxTree<'s>> = &self.trees;
        let mut i: usize = 0;
        assert(path@.skip(0) =~= path@);
        while i < path.len()
            invariant
                i <= path@.len(),
                subtree_at(tree_views(nodes@), path@.skip(i as int)) == subtree_at(self@, path@),
            decreases path@.len() - i,
        {
            let ghost rest = path@.skip(i as int);
            assert(rest[0] == path@[i as int]);
            assert(rest.skip(1) =~= path@.skip(i + 1));
            let index = path[i];
            if index >= nodes.len() {
                return None;
            }
            let node = &nodes[index];
            assert(tree_views(nodes@)[index as int] == node@);
            if i + 1 == path.len() {
                return Some(node);
            }
            match node {
                DocumentSyntaxTree::Leaf(_, _) => {
                    assert(node@.children().len() == 0);
                    assert(subtree_at(node@.children(), rest.skip(1)) is None);
                    return None;
                },
                DocumentSyntaxTree::Inner(head, children) => {
                    proof {
                        lemma_inner_view(*head, *children);
                    }
                    nodes = children;
                },
            }
            i += 1;
        }
        None
    }

    /// The path to the innermost node whose span contains the range: see
    /// [`enclosing_path`]. It is empty where the range lies outside the
    /// document.
    pub fn innermost_enclosing_path(&self, range: &Range<usize>) -> (path: Vec<usize>)
        ensures
            path@ == enclosing_path(self@, range.start as int, range.end as int),
    {
        let ghost start = range.start as int;
        let ghost end = range.end as int;
        let mut path: Vec<usize> = Vec::new();
        let mut node: &DocumentSyntaxTree<'s> = match find_enclosing(&self.trees, range) {
            Some(i) => {
                path.push(i);
                assert(self@[i as int] == self.trees@[i as int]@);
                &self.trees[i]
            },
            None => {
                return path;
            },
        };
        loop
            invariant
                path@ + path_below(node@, start, end) == enclosing_path(self@, start, end),
                start == range.start as int,
                end == range.end as int,
            ensures
                path@ == enclosing_path(self@, start, end),
            decreases node,
        {
            let ghost done = path@;
            match node {
                DocumentSyntaxTree::Leaf(_, _) => {
                    assert(done + Seq::<usize>::empty() =~= done);
                    break;
                },
                DocumentSyntaxTree::Inner(head, children) => {
                    proof {
                        lemma_inner_view(*head, *children);
                        lemma_first_enclosing(tree_views(children@), start, end, 0);
                    }
                    match find_enclosing(children, range) {
                        Some(i) => {
                            path.push(i);
                            assert(tree_views(children@)[i as int] == children@[i as int]@);
                            assert(path@ + path_below(children@[i as int]@, start, end) =~= done
                                + (seq![i] + path_below(children@[i as int]@, start, end)));
                            assert(decreases_to!(node => node->Inner_1));
                            node = &children[i];
                        },
                        None => {
                            assert(done + Seq::<usize>::empty() =~= done);
                            break;
                        },
                    }
                },
            }
        }
        path
    }
}

/// The trees of the readings from the given offset on, up to the end of
/// the text; or the first error among the readings.
pub open spec fn forest_from(g: GraphView, text: Seq<char>, position: int) -> Result<
    Seq<TreeView>,
    ParseErrorView,
>
    decreases text.len() - position,
{
    let reading = read_from(g, text, position);
    match reading.outcome {
        Ok(None) => Ok(Seq::empty()),
        Ok(Some(tree)) => if position < reading.position <= text.len() {
            behind(seq![tree], forest_from(g, text, reading.position))
        } else {
            Ok(seq![tree])
        },
        Err(error) => Err(error),
    }
}

/// Whether the trees are in source order and do not overlap, and each is
/// nested and saturated, is a tree of the text, and does not start before
/// the offset `from`.
pub open spec fn forest_in_order(text: Seq<char>, from: int, trees: Seq<TreeView>) -> bool {
    &&& ordered(trees)
    &&& forall|i: int|
        0 <= i < trees.len() ==> {
            &&& (#[trigger] trees[i]).nested()
            &&& trees[i].saturated()
            &&& trees[i].spells(text)
            &&& from <= trees[i].start()
            &&& trees[i].end() <= text.len()
        }
}

/// The trees of successive readings against a well-formed grammar are in
/// order.
pub proof fn lemma_forest_in_order(g: GraphView, text: Seq<char>, position: int)
    requires
        g.well_formed(),
        0 <= position <= text.len(),
    ensures
        forest_from(g, text, position) matches Ok(trees) ==> forest_in_order(text, position, trees),
    decreases text.len() - position,
{
    let reading = read_from(g, text, position);
    lemma_reading_faithful(g, text, position);
    match reading.outcome {
        Ok(Some(tree)) => {
            if position < reading.position <= text.len() {
                lemma_forest_in_order(g, text, reading.position);
                match forest_from(g, text, reading.position) {
                    Ok(rest) => {
                        let trees = seq![tree] + rest;
                        assert forall|i: int| 0 < i < trees.len() implies trees[i] == rest[i - 1] by {}
                        assert forall|i: int, j: int| 0 <= i < j < trees.len() implies (
                        #[trigger] trees[i]).end() <= (#[trigger] trees[j]).start() by {
                            assert(trees[j] == rest[j - 1]);
                            if i > 0 {
                                assert(trees[i] == rest[i - 1]);
                            }
                        }
                        assert forall|i: int| 0 <= i < trees.len() implies {
                            &&& (#[trigger] trees[i]).nested()
                            &&& trees[i].saturated()
                            &&& trees[i].spells(text)
                            &&& position <= trees[i].start()
                            &&& trees[i].end() <= text.len()
                        } by {
                            if i > 0 {
                                assert(trees[i] == rest[i - 1]);
                            }
                        }
                    },
                    Err(_) => {},
                }
            }
        },
        _ => {},
    }
}

/// The trees read so far, followed by the trees of the rest; or the rest's
/// error.
pub open spec fn behind(done: Seq<TreeView>, rest: Result<Seq<TreeView>, ParseErrorView>) -> Result<
    Seq<TreeView>,
    ParseErrorView,
> {
    match rest {
        Ok(trees) => Ok(done + trees),
        Err(error) => Err(error),
    }
}

/// The mathematical value of what building a document returns.
pub open spec fn document_outcome(outcome: Result<Document<'_>, ParseError>) -> Result<
    Seq<TreeView>,
    ParseErrorView,
> {
    match outcome {
        Ok(document) => Ok(document@),
        Err(error) => Err(error@),
    }
}

impl<'s> Document<'s> {
    /// The document of all trees that the reader still reads, or the first
    /// error of a reading: see [`forest_from`]. The trees of the document are
    /// in source order and do not overlap.
    pub fn from_parser(parser: Parser<'_, 's>) -> (outcome: Result<Self, ParseError>)
        ensures
            document_outcome(outcome) == forest_from(parser.graph(), parser.text(), parser.offset()),
            outcome matches Ok(document) ==> forest_in_order(
                parser.text(),
                parser.offset(),
                document@,
            ),
    {
        let start = parser.position();
        proof {
            lemma_forest_in_order(parser.graph(), parser.text(), parser.offset());
        }
        let mut reader = parser;
        let ghost g = parser.graph();
        let ghost text = parser.text();
        let ghost all = forest_from(g, text, parser.offset());
        let mut trees: Vec<DocumentSyntaxTree<'s>> = Vec::new();
        assert(behind(tree_views(trees@), all) == all) by {
            match all {
                Ok(rest) => {
                    assert(tree_views(trees@) + rest =~= rest);
                },
                Err(_) => {},
            }
        }
        loop
            invariant
                reader.graph() == g,
                reader.text() == text,
                all == forest_from(parser.graph(), parser.text(), parser.offset()),
                all matches Ok(forest) ==> forest_in_order(parser.text(), parser.offset(), forest),
                behind(tree_views(trees@), forest_from(g, text, reader.offset())) == all,
            decreases text.len() - reader.offset(),
        {
            let ghost done = tree_views(trees@);
            let position = reader.position();
            proof {
                lemma_reading_progress(g, text, reader.offset());
            }
            match reader.read_next() {
                Ok(None) => {
                    assert(done + Seq::<TreeView>::empty() =~= done);
                    return Ok(Document { trees });
                },
                Ok(Some(tree)) => {
                    trees.push(tree);
                    assert(tree_views(trees@) =~= done + seq![tree@]);
                    proof {
                        match forest_from(g, text, reader.offset()) {
                            Ok(more) => {
                                assert(tree_views(trees@) + more =~= done + (seq![tree@] + more));
                            },
                            Err(_) => {},
                        }
                    }
                },
                Err(error) => {
                    return Err(error);
                },
            }
        }
    }
}

impl<'g, 's> vstd::std_specs::convert::TryFromSpecImpl<Parser<'g, 's>> for Document<'s> {
    open spec fn obeys_try_from_spec() -> bool {
        false
    }

    open spec fn try_from_spec(parser: Parser<'g, 's>) -> Result<Self, ParseError> {
        arbitrary()
    }
}

impl<'g, 's> TryFrom<Parser<'g, 's>> for Document<'s> {
    type Error = ParseError;

    /// The document of all trees that the reader still reads, as
    /// [`Document::from_parser`] builds it.
    fn try_from(parser: Parser<'g, 's>) -> (outcome: Result<Self, ParseError>)
        ensures
            document_outcome(outcome) == forest_from(parser.graph(), parser.text(), parser.offset()),
            outcome matches Ok(document) ==> forest_in_order(
                parser.text(),
                parser.offset(),
                document@,
            ),
    {
        Document::from_parser(parser)
    }
}

impl<'s> vstd::std_specs::convert::FromSpecImpl<Vec<DocumentSyntaxTree<'s>>> for Document<'s> {
    open spec fn obeys_from_spec() -> bool {
        false
    }

    open spec fn from_spec(trees: Vec<DocumentSyntaxTree<'s>>) -> Self {
        arbitrary()
    }
}

impl<'s> From<Vec<DocumentSyntaxTree<'s>>> for Document<'s> {
    /// The document of the given trees, in their order.
    fn from(trees: Vec<DocumentSyntaxTree<'s>>) -> (document: Self)
        ensures
            document@ == tree_views(trees@),
    {
        Document::from_trees(trees)
    }
}

} // verus!
