//! The syntax tree of one file, held as its nodes in document order.
//!
//! Each node records how deep it lies below the root. A node's descendants are
//! the nodes that follow it for as long as they lie deeper than it does, so the
//! depths alone give the shape of the tree, and every question of navigation
//! is a scan over them.

use vstd::prelude::*;

verus! {

/// What a node is, as far as resolution needs to tell nodes apart.
#[derive(Clone, Copy, Debug, PartialEq, Eq, Structural)]
pub enum NodeKind {
    /// A `key = value;` binding.
    Binding,
    /// The key of a binding: attributes separated by dots.
    KeyPath,
    /// The dot between two attributes of a key.
    PathSeparator,
    /// An identifier token.
    Identifier,
    /// A string literal without interpolation, quotes included.
    StringLiteral,
    /// A string with interpolated expressions.
    Interpolation,
    /// A run of literal text inside an interpolation.
    LiteralFragment,
    /// An interpolated expression inside an interpolation.
    ExpressionFragment,
    /// The token that opens an interpolation: its text up to the first `${`.
    FragmentOpening,
    /// The token between two interpolated expressions, from `}` to `${`.
    FragmentJoint,
    /// The token that closes an interpolation, from the last `}` on.
    FragmentClosing,
    /// A function applied to an argument.
    Application,
    /// An attribute selected from a set, `set.attribute`.
    IndexAccess,
    /// An `inherit` clause.
    Inherit,
    /// The parenthesised source of an `inherit (source) names;` clause.
    InheritSource,
    /// A comment.
    Comment,
    /// White space.
    Whitespace,
    /// A token that the tokenizer could not read.
    Unreadable,
    /// Any other token.
    OtherToken,
    /// Any other node that is made of nodes.
    Other,
}

/// Whether `kind` is the kind of a token: of a piece of text, not of a node
/// made of nodes.
pub open spec fn is_token_kind(kind: NodeKind) -> bool {
    match kind {
        NodeKind::PathSeparator
        | NodeKind::Identifier
        | NodeKind::StringLiteral
        | NodeKind::FragmentOpening
        | NodeKind::FragmentJoint
        | NodeKind::FragmentClosing
        | NodeKind::Comment
        | NodeKind::Whitespace
        | NodeKind::Unreadable
        | NodeKind::OtherToken => true,
        _ => false,
    }
}

/// Whether `kind` is trivia: a comment, white space, or a token that could not
/// be read. Trivia do not count where the parts of a node are counted.
pub open spec fn is_trivia(kind: NodeKind) -> bool {
    kind == NodeKind::Comment || kind == NodeKind::Whitespace || kind == NodeKind::Unreadable
}

/// Whether `kind` is the kind of a token.
pub fn kind_is_token(kind: NodeKind) -> (token: bool)
    ensures
        token == is_token_kind(kind),
{
    match kind {
        NodeKind::PathSeparator
        | NodeKind::Identifier
        | NodeKind::StringLiteral
        | NodeKind::FragmentOpening
        | NodeKind::FragmentJoint
        | NodeKind::FragmentClosing
        | NodeKind::Comment
        | NodeKind::Whitespace
        | NodeKind::Unreadable
        | NodeKind::OtherToken => true,
        _ => false,
    }
}

/// Whether `kind` is trivia.
pub fn kind_is_trivia(kind: NodeKind) -> (trivia: bool)
    ensures
        trivia == is_trivia(kind),
{
    kind == NodeKind::Comment || kind == NodeKind::Whitespace || kind == NodeKind::Unreadable
}

/// One node: its kind, its depth below the root, the byte range it covers and,
/// for a token, its text.
#[derive(Debug)]
pub struct NodeRecord {
    pub kind: NodeKind,
    pub depth: usize,
    pub start: usize,
    pub end: usize,
    pub text: Vec<u8>,
}

/// A node as contracts see it: the text is a sequence of bytes.
pub struct NodeView {
    pub kind: NodeKind,
    pub depth: usize,
    pub start: usize,
    pub end: usize,
    pub text: Seq<u8>,
}

impl View for NodeRecord {
    type V = NodeView;

    open spec fn view(&self) -> NodeView {
        NodeView {
            kind: self.kind,
            depth: self.depth,
            start: self.start,
            end: self.end,
            text: self.text@,
        }
    }
}

/// The views of `records`, in order.
pub open spec fn views_of(records: Seq<NodeRecord>) -> Seq<NodeView> {
    Seq::new(records.len(), |i: int| records[i]@)
}

/// The text of the nodes before node `index`, in document order.
pub open spec fn text_before(nodes: Seq<NodeView>, index: int) -> Seq<u8>
    decreases index,
{
    if index <= 0 {
        Seq::empty()
    } else {
        text_before(nodes, index - 1) + nodes[index - 1].text
    }
}

/// The first node from `from` on that lies no deeper than `depth`, or the
/// number of nodes where there is none.
pub open spec fn next_at_most(nodes: Seq<NodeView>, from: int, depth: int) -> int
    decreases nodes.len() - from,
{
    if from >= nodes.len() {
        nodes.len() as int
    } else if nodes[from].depth <= depth {
        from
    } else {
        next_at_most(nodes, from + 1, depth)
    }
}

/// The index just behind the last descendant of node `index`.
pub open spec fn extent(nodes: Seq<NodeView>, index: int) -> int {
    next_at_most(nodes, index + 1, nodes[index].depth as int)
}

/// The last node up to `upto` that lies no deeper than `depth`, if there is one.
pub open spec fn last_at_most(nodes: Seq<NodeView>, upto: int, depth: int) -> Option<usize>
    decreases upto + 1,
{
    if upto < 0 || upto >= nodes.len() {
        None
    } else if nodes[upto].depth <= depth {
        Some(upto as usize)
    } else {
        last_at_most(nodes, upto - 1, depth)
    }
}

/// The children of a node at `depth`, looked for from `from` on. With
/// `skip_trivia` the comments, the white space and the unreadable tokens among
/// them are left out.
pub open spec fn children_from(
    nodes: Seq<NodeView>,
    from: int,
    depth: int,
    skip_trivia: bool,
) -> Seq<usize>
    decreases nodes.len() - from,
{
    if from < 0 || from >= nodes.len() || nodes[from].depth <= depth {
        Seq::empty()
    } else if nodes[from].depth == depth + 1 && !(skip_trivia && is_trivia(nodes[from].kind)) {
        seq![from as usize] + children_from(nodes, from + 1, depth, skip_trivia)
    } else {
        children_from(nodes, from + 1, depth, skip_trivia)
    }
}

/// The children of node `index`, in order.
pub open spec fn children_of(nodes: Seq<NodeView>, index: usize) -> Seq<usize> {
    children_from(nodes, index + 1, nodes[index as int].depth as int, false)
}

/// The children of node `index` that are not trivia, in order.
pub open spec fn inner_children_of(nodes: Seq<NodeView>, index: usize) -> Seq<usize> {
    children_from(nodes, index + 1, nodes[index as int].depth as int, true)
}

/// The previous sibling of node `index`, or its parent where it is a first
/// child: the nearest node before it that lies no deeper.
pub open spec fn scope_step(nodes: Seq<NodeView>, index: usize) -> Option<usize> {
    last_at_most(nodes, index - 1, nodes[index as int].depth as int)
}

/// The parent of node `index`: the nearest node before it that lies higher.
pub open spec fn parent_of(nodes: Seq<NodeView>, index: usize) -> Option<usize> {
    last_at_most(nodes, index - 1, nodes[index as int].depth - 1)
}

/// The sibling that follows node `index`, if it has one.
pub open spec fn next_sibling_of(nodes: Seq<NodeView>, index: usize) -> Option<usize> {
    let next = extent(nodes, index as int);
    if next < nodes.len() && nodes[next].depth == nodes[index as int].depth {
        Some(next as usize)
    } else {
        None
    }
}

/// The sibling that precedes node `index`, if it has one.
pub open spec fn prev_sibling_of(nodes: Seq<NodeView>, index: usize) -> Option<usize> {
    match scope_step(nodes, index) {
        Some(before) if nodes[before as int].depth == nodes[index as int].depth => Some(before),
        _ => None,
    }
}

/// The depths describe one tree: the first node is the root, and each later
/// node lies below the root and at most one level deeper than the node before.
/// There are no more nodes than a `usize` can count.
pub open spec fn depths_nest(nodes: Seq<NodeView>) -> bool {
    &&& 0 < nodes.len() <= usize::MAX
    &&& nodes[0].depth == 0
    &&& forall|i: int|
        0 < i < nodes.len() ==> 1 <= #[trigger] nodes[i].depth <= nodes[i - 1].depth + 1
}

/// Node `index` covers exactly the text of itself and its descendants, and
/// carries text only where it has no children.
pub open spec fn covers_its_text(nodes: Seq<NodeView>, index: int) -> bool {
    &&& nodes[index].start == text_before(nodes, index).len()
    &&& nodes[index].end == text_before(nodes, extent(nodes, index)).len()
    &&& nodes[index].text.len() > 0 ==> extent(nodes, index) == index + 1
}

/// The nodes form a tree in document order whose byte ranges agree with the
/// text that the nodes carry.
pub open spec fn well_formed(nodes: Seq<NodeView>) -> bool {
    &&& depths_nest(nodes)
    &&& forall|i: int| 0 <= i < nodes.len() ==> #[trigger] covers_its_text(nodes, i)
}

/// The whole text of the tree.
pub open spec fn source_of(nodes: Seq<NodeView>) -> Seq<u8> {
    text_before(nodes, nodes.len() as int)
}

/// `next_at_most` answers with an index behind `from`, at most the number of
/// nodes, and nothing before its answer lies as high as `depth`.
pub proof fn lemma_next_at_most(nodes: Seq<NodeView>, from: int, depth: int)
    requires
        0 <= from <= nodes.len(),
    ensures
        from <= next_at_most(nodes, from, depth) <= nodes.len(),
        next_at_most(nodes, from, depth) < nodes.len() ==> nodes[next_at_most(
            nodes,
            from,
            depth,
        )].depth <= depth,
        forall|k: int|
            from <= k < next_at_most(nodes, from, depth) ==> (#[trigger] nodes[k]).depth > depth,
    decreases nodes.len() - from,
{
    if from < nodes.len() && nodes[from].depth > depth {
        lemma_next_at_most(nodes, from + 1, depth);
    }
}

/// `last_at_most` answers with an index up to `upto` that lies no deeper than
/// `depth`, and nothing between its answer and `upto` does.
pub proof fn lemma_last_at_most(nodes: Seq<NodeView>, upto: int, depth: int)
    requires
        upto < nodes.len(),
        upto <= usize::MAX,
    ensures
        match last_at_most(nodes, upto, depth) {
            Some(found) => {
                &&& 0 <= found <= upto
                &&& nodes[found as int].depth <= depth
                &&& forall|k: int| found < k <= upto ==> (#[trigger] nodes[k]).depth > depth
            },
            None => forall|k: int| 0 <= k <= upto ==> (#[trigger] nodes[k]).depth > depth,
        },
    decreases upto + 1,
{
    if upto >= 0 && nodes[upto].depth > depth {
        lemma_last_at_most(nodes, upto - 1, depth);
    }
}

/// Every child found from `from` on lies at or behind `from`, one level below
/// `depth`, and before the next node that lies no deeper than `depth`.
pub proof fn lemma_children_from(nodes: Seq<NodeView>, from: int, depth: int, skip_trivia: bool)
    requires
        0 <= from,
        nodes.len() <= usize::MAX,
    ensures
        forall|k: int|
            0 <= k < children_from(nodes, from, depth, skip_trivia).len() ==> {
                let child = #[trigger] children_from(nodes, from, depth, skip_trivia)[k];
                &&& from <= child < next_at_most(nodes, from, depth)
                &&& nodes[child as int].depth == depth + 1
                &&& skip_trivia ==> !is_trivia(nodes[child as int].kind)
            },
    decreases nodes.len() - from,
{
    if from < nodes.len() && nodes[from].depth > depth {
        lemma_children_from(nodes, from + 1, depth, skip_trivia);
        lemma_next_at_most(nodes, from + 1, depth);
        let rest = children_from(nodes, from + 1, depth, skip_trivia);
        let all = children_from(nodes, from, depth, skip_trivia);
        if nodes[from].depth == depth + 1 && !(skip_trivia && is_trivia(nodes[from].kind)) {
            assert forall|k: int| 0 <= k < all.len() implies {
                let child = #[trigger] all[k];
                &&& from <= child < next_at_most(nodes, from, depth)
                &&& nodes[child as int].depth == depth + 1
                &&& skip_trivia ==> !is_trivia(nodes[child as int].kind)
            } by {
                if k > 0 {
                    assert(all[k] == rest[k - 1]);
                }
            }
        }
    }
}

/// Children and parents agree: the parent of each child of a node is that
/// node.
pub proof fn lemma_children_have_their_parent(nodes: Seq<NodeView>, index: usize, which: int)
    requires
        index < nodes.len() <= usize::MAX,
        0 <= which < children_of(nodes, index).len(),
    ensures
        parent_of(nodes, children_of(nodes, index)[which]) == Some(index),
{
    let depth = nodes[index as int].depth as int;
    let child = children_of(nodes, index)[which];
    lemma_children_from(nodes, index + 1, depth, false);
    lemma_next_at_most(nodes, index + 1, depth);
    lemma_last_at_most(nodes, child - 1, depth);
    match last_at_most(nodes, child - 1, depth) {
        Some(found) => {
            if found < index {
                assert(nodes[index as int].depth > depth);
            } else if found > index {
                assert(nodes[found as int].depth > depth);
            }
        },
        None => {
            assert(nodes[index as int].depth > depth);
        },
    }
}

/// The text before a node grows with the node's index.
pub proof fn lemma_text_before_grows(nodes: Seq<NodeView>, low: int, high: int)
    requires
        0 <= low <= high,
    ensures
        text_before(nodes, low).len() <= text_before(nodes, high).len(),
        text_before(nodes, low) =~= text_before(nodes, high).take(
            text_before(nodes, low).len() as int,
        ),
    decreases high - low,
{
    if low < high {
        lemma_text_before_grows(nodes, low, high - 1);
    }
}

/// A syntax tree: nodes in document order that are known to be well formed.
pub struct SyntaxTree {
    nodes: Vec<NodeRecord>,
}

impl View for SyntaxTree {
    type V = Seq<NodeView>;

    closed spec fn view(&self) -> Seq<NodeView> {
        views_of(self.nodes@)
    }
}

impl SyntaxTree {
    /// What holds of every tree: its nodes are well formed.
    #[verifier::type_invariant]
    pub open spec fn is_sound(&self) -> bool {
        well_formed(self@)
    }

    /// Makes a tree of `nodes` if they are well formed.
    pub fn new(nodes: Vec<NodeRecord>) -> (made: Option<SyntaxTree>)
        ensures
            well_formed(views_of(nodes@)) <==> made is Some,
            made matches Some(tree) ==> tree@ == views_of(nodes@),
    {
        if check_well_formed(&nodes) {
            Some(SyntaxTree { nodes })
        } else {
            None
        }
    }

    /// The number of nodes.
    pub fn len(&self) -> (count: usize)
        ensures
            count == self@.len(),
            count > 0,
    {
        proof {
            use_type_invariant(self);
        }
        self.nodes.len()
    }

    /// The whole text of the tree.
    pub fn source(&self) -> (text: Vec<u8>)
        ensures
            text@ == source_of(self@),
    {
        let mut text: Vec<u8> = Vec::new();
        let mut i: usize = 0;
        while i < self.nodes.len()
            invariant
                0 <= i <= self.nodes@.len(),
                text@ == text_before(self@, i as int),
            decreases self.nodes@.len() - i,
        {
            let piece = &self.nodes[i].text;
            let mut j: usize = 0;
            while j < piece.len()
                invariant
                    i < self.nodes@.len(),
                    piece@ == self@[i as int].text,
                    0 <= j <= piece@.len(),
                    text@ =~= text_before(self@, i as int) + piece@.take(j as int),
                decreases piece@.len() - j,
            {
                text.push(piece[j]);
                j = j + 1;
            }
            assert(piece@.take(piece@.len() as int) =~= piece@);
            i = i + 1;
        }
        text
    }

    /// The children of node `index`, in order; with `skip_trivia`, those that
    /// are not trivia.
    pub fn children(&self, index: usize, skip_trivia: bool) -> (found: Vec<usize>)
        requires
            index < self@.len(),
        ensures
            found@ == children_from(
                self@,
                index + 1,
                self@[index as int].depth as int,
                skip_trivia,
            ),
            forall|k: int| 0 <= k < found@.len() ==> index < #[trigger] found@[k] < self@.len(),
    {
        let count = self.nodes.len();
        let depth = self.nodes[index].depth;
        let mut found: Vec<usize> = Vec::new();
        let mut j: usize = index + 1;
        while j < count && self.nodes[j].depth > depth
            invariant
                count == self@.len(),
                index < j <= count,
                depth == self@[index as int].depth,
                found@ + children_from(self@, j as int, depth as int, skip_trivia)
                    =~= children_from(self@, index + 1, depth as int, skip_trivia),
                forall|k: int| 0 <= k < found@.len() ==> index < #[trigger] found@[k] < count,
            decreases count - j,
        {
            if self.nodes[j].depth - 1 == depth && !(skip_trivia && kind_is_trivia(
                self.nodes[j].kind,
            )) {
                found.push(j);
            }
            j = j + 1;
        }
        found
    }

    /// The last node before `index` that lies no deeper than `depth`.
    fn find_back(&self, index: usize, depth: usize) -> (found: Option<usize>)
        requires
            index < self@.len(),
        ensures
            found == last_at_most(self@, index - 1, depth as int),
            found matches Some(before) ==> before < index,
    {
        let mut j: usize = index;
        while j > 0 && self.nodes[j - 1].depth > depth
            invariant
                0 <= j <= index < self@.len(),
                last_at_most(self@, j - 1, depth as int) == last_at_most(
                    self@,
                    index - 1,
                    depth as int,
                ),
            decreases j,
        {
            j = j - 1;
        }
        if j > 0 {
            Some(j - 1)
        } else {
            None
        }
    }

    /// The previous sibling of node `index`, or its parent where it has none.
    pub fn scope_step(&self, index: usize) -> (found: Option<usize>)
        requires
            index < self@.len(),
        ensures
            found == scope_step(self@, index),
            found matches Some(before) ==> before < index,
    {
        self.find_back(index, self.nodes[index].depth)
    }

    /// The parent of node `index`.
    pub fn parent(&self, index: usize) -> (found: Option<usize>)
        requires
            index < self@.len(),
        ensures
            found == parent_of(self@, index),
            found matches Some(above) ==> above < index,
    {
        let depth = self.nodes[index].depth;
        if depth == 0 {
            proof {
                use_type_invariant(self);
                lemma_last_at_most(self@, index - 1, -1);
            }
            None
        } else {
            self.find_back(index, depth - 1)
        }
    }

    /// The sibling that precedes node `index`.
    pub fn prev_sibling(&self, index: usize) -> (found: Option<usize>)
        requires
            index < self@.len(),
        ensures
            found == prev_sibling_of(self@, index),
            found matches Some(before) ==> before < index,
    {
        match self.scope_step(index) {
            Some(before) => if self.nodes[before].depth == self.nodes[index].depth {
                Some(before)
            } else {
                None
            },
            None => None,
        }
    }

    /// The sibling that follows node `index`.
    pub fn next_sibling(&self, index: usize) -> (found: Option<usize>)
        requires
            index < self@.len(),
        ensures
            found == next_sibling_of(self@, index),
            found matches Some(behind) ==> index < behind < self@.len(),
    {
        let behind = subtree_end(&self.nodes, index);
        if behind < self.nodes.len() && self.nodes[behind].depth == self.nodes[index].depth {
            Some(behind)
        } else {
            None
        }
    }

    /// The index just behind the last descendant of node `index`.
    pub fn end_of_subtree(&self, index: usize) -> (behind: usize)
        requires
            index < self@.len(),
        ensures
            behind == extent(self@, index as int),
            index < behind <= self@.len(),
    {
        subtree_end(&self.nodes, index)
    }

    /// Whether node `index` is a token, going by its kind.
    pub fn is_token(&self, index: usize) -> (token: bool)
        requires
            index < self@.len(),
        ensures
            token == is_token_kind(self@[index as int].kind),
    {
        kind_is_token(self.nodes[index].kind)
    }

    /// The record of node `index`.
    pub fn node(&self, index: usize) -> (record: &NodeRecord)
        requires
            index < self@.len(),
        ensures
            record@ == self@[index as int],
    {
        &self.nodes[index]
    }
}

/// Whether `nodes` are well formed, found by checking each node.
fn check_well_formed(nodes: &Vec<NodeRecord>) -> (ok: bool)
    ensures
        ok == well_formed(views_of(nodes@)),
{
    if !check_depths(nodes) {
        return false;
    }
    let count = nodes.len();
    match text_offsets(nodes) {
        None => false,
        Some(offsets) => {
            let mut i: usize = 0;
            while i < count
                invariant
                    count == views_of(nodes@).len(),
                    0 <= i <= count,
                    offsets@.len() == count + 1,
                    forall|k: int|
                        0 <= k <= count ==> offsets@[k] == text_before(views_of(nodes@), k).len(),
                    forall|k: int| 0 <= k < i ==> covers_its_text(views_of(nodes@), k),
                decreases count - i,
            {
                let node = &nodes[i];
                let behind = subtree_end(nodes, i);
                if node.start != offsets[i] || node.end != offsets[behind] || (node.text.len() > 0
                    && behind != i + 1) {
                    assert(!covers_its_text(views_of(nodes@), i as int));
                    return false;
                }
                i = i + 1;
            }
            true
        },
    }
}

/// Whether the depths of `nodes` describe one tree.
fn check_depths(nodes: &Vec<NodeRecord>) -> (ok: bool)
    ensures
        ok == depths_nest(views_of(nodes@)),
{
    let count = nodes.len();
    if count == 0 || nodes[0].depth != 0 {
        return false;
    }
    let mut i: usize = 1;
    while i < count
        invariant
            count == views_of(nodes@).len(),
            1 <= i <= count,
            views_of(nodes@)[0].depth == 0,
            forall|k: int|
                0 < k < i ==> 1 <= #[trigger] views_of(nodes@)[k].depth <= views_of(nodes@)[k - 1].depth + 1,
        decreases count - i,
    {
        if nodes[i].depth == 0 || nodes[i].depth - 1 > nodes[i - 1].depth {
            assert(!(1 <= views_of(nodes@)[i as int].depth <= views_of(nodes@)[i - 1].depth + 1));
            return false;
        }
        i = i + 1;
    }
    true
}

/// The length of the text before each node and, last, of the whole text; or
/// nothing where the whole is longer than a `usize` can say.
fn text_offsets(nodes: &Vec<NodeRecord>) -> (found: Option<Vec<usize>>)
    ensures
        found is Some <==> source_of(views_of(nodes@)).len() <= usize::MAX,
        found matches Some(offsets) ==> {
            &&& offsets@.len() == views_of(nodes@).len() + 1
            &&& forall|k: int|
                0 <= k <= views_of(nodes@).len() ==> offsets@[k] == text_before(views_of(nodes@), k).len()
        },
        depths_nest(views_of(nodes@)) && found is None ==> !covers_its_text(views_of(nodes@), 0),
{
    let count = nodes.len();
    let mut offsets: Vec<usize> = Vec::new();
    let mut total: usize = 0;
    let mut i: usize = 0;
    while i < count
        invariant
            count == views_of(nodes@).len(),
            0 <= i <= count,
            offsets@.len() == i,
            total == text_before(views_of(nodes@), i as int).len(),
            forall|k: int| 0 <= k < i ==> offsets@[k] == text_before(views_of(nodes@), k).len(),
        decreases count - i,
    {
        if nodes[i].text.len() > usize::MAX - total {
            proof {
                lemma_text_before_grows(views_of(nodes@), i + 1, count as int);
                if depths_nest(views_of(nodes@)) {
                    lemma_root_spans_all(views_of(nodes@));
                }
            }
            return None;
        }
        offsets.push(total);
        total = total + nodes[i].text.len();
        i = i + 1;
    }
    offsets.push(total);
    Some(offsets)
}

/// The root's descendants are all the other nodes.
pub proof fn lemma_root_spans_all(nodes: Seq<NodeView>)
    requires
        depths_nest(nodes),
    ensures
        extent(nodes, 0) == nodes.len(),
{
    lemma_next_at_most(nodes, 1, 0);
}

/// The one item of `items`, where there is exactly one.
pub open spec fn only(items: Seq<usize>) -> Option<usize> {
    if items.len() == 1 {
        Some(items[0])
    } else {
        None
    }
}

/// The one item of `items`, where there is exactly one.
pub fn single(items: &Vec<usize>) -> (found: Option<usize>)
    ensures
        found == only(items@),
{
    if items.len() == 1 {
        Some(items[0])
    } else {
        None
    }
}

/// The index just behind the last descendant of node `index`.
pub(crate) fn subtree_end(nodes: &Vec<NodeRecord>, index: usize) -> (behind: usize)
    requires
        index < views_of(nodes@).len(),
    ensures
        behind == extent(views_of(nodes@), index as int),
        index < behind <= views_of(nodes@).len(),
{
    let count = nodes.len();
    let depth = nodes[index].depth;
    let mut j: usize = index + 1;
    while j < count && nodes[j].depth > depth
        invariant
            count == views_of(nodes@).len(),
            index < j <= count,
            depth == views_of(nodes@)[index as int].depth,
            next_at_most(views_of(nodes@), j as int, depth as int) == extent(views_of(nodes@), index as int),
        decreases views_of(nodes@).len() - j,
    {
        j = j + 1;
    }
    j
}

} // verus!
