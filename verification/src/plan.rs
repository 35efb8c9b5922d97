//! Putting the edits of one file in order and checking that they agree.

use crate::error::UpdateError;
use crate::resolve::{edit_views, EditView, ResolvedEdit};
use crate::text::{
    same_bytes, LOWER_E, LOWER_I, LOWER_N, LOWER_O, LOWER_R, LOWER_S, LOWER_V,
};
use crate::tree::{extent, NodeView, SyntaxTree};
use vstd::prelude::*;

verus! {

/// The name under which the version is bound: `version`.
pub open spec fn version_name() -> Seq<u8> {
    seq![LOWER_V, LOWER_E, LOWER_R, LOWER_S, LOWER_I, LOWER_O, LOWER_N]
}

/// The offset at which node `node` starts; zero for a node that is not there.
pub open spec fn start_of(nodes: Seq<NodeView>, node: usize) -> usize {
    if node < nodes.len() {
        nodes[node as int].start
    } else {
        0
    }
}

/// Whether `first` must come before `second`: its node starts earlier, or at
/// the same offset while it is direct and `second` is derived.
pub open spec fn goes_before(nodes: Seq<NodeView>, first: EditView, second: EditView) -> bool {
    let a = start_of(nodes, first.node);
    let b = start_of(nodes, second.node);
    a < b || (a == b && !first.derived && second.derived)
}

/// Where `edit` goes into `plan`: behind the edits from `from` on that must
/// come before it, and before all others.
pub open spec fn slot_for(nodes: Seq<NodeView>, plan: Seq<EditView>, edit: EditView, from: int) -> int
    decreases plan.len() - from,
{
    if from < 0 || from >= plan.len() {
        plan.len() as int
    } else if goes_before(nodes, plan[from], edit) {
        slot_for(nodes, plan, edit, from + 1)
    } else {
        from
    }
}

/// `edits` in the order in which they apply: by the offset of their nodes,
/// direct edits before derived ones, and among edits that are alike in both
/// the one found later first.
pub open spec fn ordered(nodes: Seq<NodeView>, edits: Seq<EditView>) -> Seq<EditView>
    decreases edits.len(),
{
    if edits.len() == 0 {
        Seq::empty()
    } else {
        let before = ordered(nodes, edits.drop_last());
        before.insert(slot_for(nodes, before, edits.last(), 0), edits.last())
    }
}

/// The place of the first edit from `from` on that is for `node`.
pub open spec fn first_for(plan: Seq<EditView>, node: usize, from: int) -> Option<int>
    decreases plan.len() - from,
{
    if from < 0 || from >= plan.len() {
        None
    } else if plan[from].node == node {
        Some(from)
    } else {
        first_for(plan, node, from + 1)
    }
}

/// The edit that applies to `node`: the first one for it in the plan.
pub open spec fn active_for(plan: Seq<EditView>, node: usize) -> Option<EditView> {
    match first_for(plan, node, 0) {
        Some(place) => Some(plan[place]),
        None => None,
    }
}

/// Whether `other` may stand behind `active` for the same node: it asks for the
/// same text, or `active` sets the version, which overrides on purpose.
pub open spec fn gives_way(active: EditView, other: EditView) -> bool {
    active.name == version_name() || (active.name == other.name && active.value == other.value)
}

/// Whether every edit of `plan` gives way to the edit that applies to its node.
pub open spec fn free_of_conflict(plan: Seq<EditView>) -> bool {
    forall|i: int|
        0 <= i < plan.len() ==> match active_for(plan, (#[trigger] plan[i]).node) {
            Some(active) => gives_way(active, plan[i]),
            None => false,
        }
}

/// Whether node `inner` lies inside node `outer`: it is one of its
/// descendants.
pub open spec fn lies_inside(nodes: Seq<NodeView>, inner: usize, outer: usize) -> bool {
    outer < nodes.len() && outer < inner < extent(nodes, outer as int)
}

/// Whether no edit of `plan` is for a node inside the node of another.
pub open spec fn lies_apart(nodes: Seq<NodeView>, plan: Seq<EditView>) -> bool {
    forall|i: int, j: int|
        0 <= i < plan.len() && 0 <= j < plan.len() ==> !lies_inside(
            nodes,
            (#[trigger] plan[i]).node,
            (#[trigger] plan[j]).node,
        )
}

/// The plan for `edits`: the edits in order, unless two of them disagree or
/// one is for a node inside the node of another.
pub open spec fn planned(nodes: Seq<NodeView>, edits: Seq<EditView>) -> Result<
    Seq<EditView>,
    UpdateError,
> {
    let plan = ordered(nodes, edits);
    if free_of_conflict(plan) && lies_apart(nodes, plan) {
        Ok(plan)
    } else {
        Err(UpdateError::EditConflict)
    }
}

/// `first_for` answers with the place of an edit for the node that has no edit
/// for the node between `from` and itself, and with nothing only where no edit
/// from `from` on is for the node.
pub proof fn lemma_first_for(plan: Seq<EditView>, node: usize, from: int)
    requires
        0 <= from,
    ensures
        match first_for(plan, node, from) {
            Some(place) => {
                &&& from <= place < plan.len()
                &&& plan[place].node == node
                &&& forall|k: int| from <= k < place ==> (#[trigger] plan[k]).node != node
            },
            None => forall|k: int| from <= k < plan.len() ==> (#[trigger] plan[k]).node != node,
        },
    decreases plan.len() - from,
{
    if from < plan.len() && plan[from].node != node {
        lemma_first_for(plan, node, from + 1);
    }
}

/// `slot_for` answers with a place in the plan or just behind it. The edits
/// between `from` and that place must all come before the edit, and the one at
/// the place need not.
pub proof fn lemma_slot_for(nodes: Seq<NodeView>, plan: Seq<EditView>, edit: EditView, from: int)
    requires
        0 <= from <= plan.len(),
    ensures
        from <= slot_for(nodes, plan, edit, from) <= plan.len(),
        forall|k: int|
            from <= k < slot_for(nodes, plan, edit, from) ==> goes_before(
                nodes,
                #[trigger] plan[k],
                edit,
            ),
        slot_for(nodes, plan, edit, from) < plan.len() ==> !goes_before(
            nodes,
            plan[slot_for(nodes, plan, edit, from)],
            edit,
        ),
    decreases plan.len() - from,
{
    if from < plan.len() && goes_before(nodes, plan[from], edit) {
        lemma_slot_for(nodes, plan, edit, from + 1);
    }
}

/// Whether no edit of `plan` must come before one that stands before it.
pub open spec fn is_ordered(nodes: Seq<NodeView>, plan: Seq<EditView>) -> bool {
    forall|i: int, j: int|
        0 <= i < j < plan.len() ==> !goes_before(nodes, #[trigger] plan[j], #[trigger] plan[i])
}

/// The edits in order are the edits that were found, each as often as it was
/// found.
pub proof fn lemma_ordered_rearranges(nodes: Seq<NodeView>, edits: Seq<EditView>)
    ensures
        ordered(nodes, edits).to_multiset() == edits.to_multiset(),
        ordered(nodes, edits).len() == edits.len(),
    decreases edits.len(),
{
    if edits.len() > 0 {
        let earlier = edits.drop_last();
        let before = ordered(nodes, earlier);
        lemma_ordered_rearranges(nodes, earlier);
        lemma_slot_for(nodes, before, edits.last(), 0);
        vstd::seq_lib::to_multiset_insert(
            before,
            slot_for(nodes, before, edits.last(), 0),
            edits.last(),
        );
        assert(earlier.push(edits.last()) =~= edits);
        vstd::seq_lib::to_multiset_build(earlier, edits.last());
    } else {
        assert(edits =~= Seq::<EditView>::empty());
    }
}

/// The edits in order are sorted: by the offset of their nodes, and at one
/// offset the direct ones before the derived ones.
pub proof fn lemma_ordered_is_sorted(nodes: Seq<NodeView>, edits: Seq<EditView>)
    ensures
        is_ordered(nodes, ordered(nodes, edits)),
    decreases edits.len(),
{
    if edits.len() > 0 {
        let before = ordered(nodes, edits.drop_last());
        let edit = edits.last();
        let slot = slot_for(nodes, before, edit, 0);
        let after = before.insert(slot, edit);
        lemma_ordered_is_sorted(nodes, edits.drop_last());
        lemma_slot_for(nodes, before, edit, 0);
        assert forall|i: int, j: int| 0 <= i < j < after.len() implies !goes_before(
            nodes,
            #[trigger] after[j],
            #[trigger] after[i],
        ) by {
            if j == slot {
                assert(after[i] == before[i]);
                assert(goes_before(nodes, before[i], edit));
            } else if i == slot {
                assert(after[j] == before[j - 1]);
                if j - 1 > slot {
                    assert(!goes_before(nodes, before[j - 1], before[slot]));
                }
            } else {
                let old_i = if i < slot {
                    i
                } else {
                    i - 1
                };
                let old_j = if j < slot {
                    j
                } else {
                    j - 1
                };
                assert(after[i] == before[old_i]);
                assert(after[j] == before[old_j]);
            }
        }
    }
}

/// A direct edit is preferred: where one of the edits for a node is direct,
/// the edit that applies to the node is direct.
pub proof fn lemma_direct_edit_applies(nodes: Seq<NodeView>, edits: Seq<EditView>, which: int)
    requires
        0 <= which < edits.len(),
        !edits[which].derived,
    ensures
        active_for(ordered(nodes, edits), edits[which].node) matches Some(active)
            && !active.derived && active.node == edits[which].node,
{
    let plan = ordered(nodes, edits);
    let node = edits[which].node;
    lemma_ordered_rearranges(nodes, edits);
    lemma_ordered_is_sorted(nodes, edits);
    vstd::seq_lib::to_multiset_contains(edits, edits[which]);
    vstd::seq_lib::to_multiset_contains(plan, edits[which]);
    assert(edits.contains(edits[which]));
    let place = choose|place: int| 0 <= place < plan.len() && plan[place] == edits[which];
    lemma_first_for(plan, node, 0);
    let first = first_for(plan, node, 0)->Some_0;
    if first < place && plan[first].derived {
        assert(goes_before(nodes, plan[place], plan[first]));
    }
}

/// The ordered, conflict-checked edits of one file.
#[derive(Debug)]
pub struct EditPlan {
    edits: Vec<ResolvedEdit>,
}

impl View for EditPlan {
    type V = Seq<EditView>;

    closed spec fn view(&self) -> Seq<EditView> {
        edit_views(self.edits@)
    }
}

impl EditPlan {
    /// What holds of every plan: no two of its edits disagree.
    #[verifier::type_invariant]
    pub open spec fn is_sound(&self) -> bool {
        free_of_conflict(self@)
    }

    /// The number of edits.
    pub fn len(&self) -> (count: usize)
        ensures
            count == self@.len(),
    {
        self.edits.len()
    }

    /// The edit at `place`.
    pub fn edit(&self, place: usize) -> (edit: &ResolvedEdit)
        requires
            place < self@.len(),
        ensures
            edit@ == self@[place as int],
    {
        &self.edits[place]
    }

    /// The edit that applies to `node`, if there is one.
    pub fn active(&self, node: usize) -> (found: Option<&ResolvedEdit>)
        ensures
            match active_for(self@, node) {
                Some(edit) => found matches Some(held) && held@ == edit,
                None => found is None,
            },
    {
        let mut i: usize = 0;
        while i < self.edits.len()
            invariant
                0 <= i <= self.edits@.len(),
                first_for(self@, node, i as int) == first_for(self@, node, 0),
            decreases self.edits@.len() - i,
        {
            if self.edits[i].node == node {
                return Some(&self.edits[i]);
            }
            i = i + 1;
        }
        None
    }
}

/// Whether `name` is `version`.
pub fn is_version_name(name: &[u8]) -> (version: bool)
    ensures
        version == (name@ == version_name()),
{
    let mut wanted: Vec<u8> = Vec::new();
    wanted.push(LOWER_V);
    wanted.push(LOWER_E);
    wanted.push(LOWER_R);
    wanted.push(LOWER_S);
    wanted.push(LOWER_I);
    wanted.push(LOWER_O);
    wanted.push(LOWER_N);
    assert(wanted@ =~= version_name());
    same_bytes(name, wanted.as_slice())
}

/// Whether the node of `first` starts before that of `second`, or at the same
/// offset while `first` is direct and `second` derived.
fn comes_before(tree: &SyntaxTree, first: &ResolvedEdit, second: &ResolvedEdit) -> (before: bool)
    ensures
        before == goes_before(tree@, first@, second@),
{
    let count = tree.len();
    let a = if first.node < count {
        tree.node(first.node).start
    } else {
        0
    };
    let b = if second.node < count {
        tree.node(second.node).start
    } else {
        0
    };
    a < b || (a == b && !first.derived && second.derived)
}

/// Puts `edits` in the order in which they apply.
pub fn order_edits(tree: &SyntaxTree, edits: &Vec<ResolvedEdit>) -> (plan: Vec<ResolvedEdit>)
    ensures
        edit_views(plan@) == ordered(tree@, edit_views(edits@)),
{
    let ghost nodes = tree@;
    let ghost all = edit_views(edits@);
    let mut plan: Vec<ResolvedEdit> = Vec::new();
    let mut i: usize = 0;
    assert(all.take(0) =~= Seq::<EditView>::empty());
    assert(edit_views(plan@) =~= Seq::<EditView>::empty());
    while i < edits.len()
        invariant
            nodes == tree@,
            all == edit_views(edits@),
            0 <= i <= edits@.len(),
            edit_views(plan@) == ordered(nodes, all.take(i as int)),
        decreases edits@.len() - i,
    {
        let edit = &edits[i];
        let ghost before = edit_views(plan@);
        let mut slot: usize = 0;
        while slot < plan.len() && comes_before(tree, &plan[slot], edit)
            invariant
                nodes == tree@,
                before == edit_views(plan@),
                0 <= slot <= plan@.len(),
                slot_for(nodes, before, edit@, slot as int) == slot_for(nodes, before, edit@, 0),
            decreases plan@.len() - slot,
        {
            slot = slot + 1;
        }
        let copy = ResolvedEdit::new(
            edit.node,
            edit.name.as_slice(),
            edit.value.as_slice(),
            edit.derived,
        );
        plan.insert(slot, copy);
        proof {
            assert(all.take(i + 1).drop_last() =~= all.take(i as int));
            assert(all.take(i + 1).last() == edit@);
            assert(edit_views(plan@) =~= before.insert(slot as int, edit@));
        }
        i = i + 1;
    }
    assert(all.take(edits@.len() as int) =~= all);
    plan
}

/// Whether no edit of `plan` is for a node inside the node of another.
pub fn check_apart(tree: &SyntaxTree, plan: &Vec<ResolvedEdit>) -> (apart: bool)
    ensures
        apart == lies_apart(tree@, edit_views(plan@)),
{
    let ghost views = edit_views(plan@);
    let count = tree.len();
    let mut j: usize = 0;
    while j < plan.len()
        invariant
            views == edit_views(plan@),
            count == tree@.len(),
            0 <= j <= plan@.len(),
            forall|i: int, k: int|
                0 <= i < views.len() && 0 <= k < j ==> !lies_inside(
                    tree@,
                    (#[trigger] views[i]).node,
                    (#[trigger] views[k]).node,
                ),
        decreases plan@.len() - j,
    {
        let outer = plan[j].node;
        if outer < count {
            let behind = tree.end_of_subtree(outer);
            let mut i: usize = 0;
            while i < plan.len()
                invariant
                    views == edit_views(plan@),
                    0 <= i <= plan@.len(),
                    j < plan@.len(),
                    outer == views[j as int].node,
                    outer < tree@.len(),
                    behind == extent(tree@, outer as int),
                    forall|k: int|
                        0 <= k < i ==> !lies_inside(tree@, (#[trigger] views[k]).node, outer),
                decreases plan@.len() - i,
            {
                if outer < plan[i].node && plan[i].node < behind {
                    assert(lies_inside(tree@, views[i as int].node, views[j as int].node));
                    return false;
                }
                i = i + 1;
            }
        }
        j = j + 1;
    }
    true
}

/// Orders `edits` and checks that no two of them disagree and that none is for
/// a node inside the node of another.
pub fn plan_edits(tree: &SyntaxTree, edits: &Vec<ResolvedEdit>) -> (made: Result<
    EditPlan,
    UpdateError,
>)
    ensures
        match planned(tree@, edit_views(edits@)) {
            Ok(plan) => made matches Ok(held) && held@ == plan,
            Err(error) => made matches Err(failure) && failure == error,
        },
{
    let plan = order_edits(tree, edits);
    let ghost views = edit_views(plan@);
    let mut i: usize = 0;
    while i < plan.len()
        invariant
            views == edit_views(plan@),
            views == ordered(tree@, edit_views(edits@)),
            0 <= i <= plan@.len(),
            forall|k: int|
                0 <= k < i ==> match active_for(views, (#[trigger] views[k]).node) {
                    Some(active) => gives_way(active, views[k]),
                    None => false,
                },
        decreases plan@.len() - i,
    {
        let node = plan[i].node;
        let mut j: usize = 0;
        while plan[j].node != node
            invariant
                views == edit_views(plan@),
                0 <= j <= i < plan@.len(),
                node == views[i as int].node,
                first_for(views, node, j as int) == first_for(views, node, 0),
            decreases i - j,
        {
            j = j + 1;
        }
        let active = &plan[j];
        let other = &plan[i];
        let agrees = is_version_name(active.name.as_slice()) || (same_bytes(
            active.name.as_slice(),
            other.name.as_slice(),
        ) && same_bytes(active.value.as_slice(), other.value.as_slice()));
        if !agrees {
            assert(active_for(views, views[i as int].node) == Some(views[j as int]));
            assert(!gives_way(views[j as int], views[i as int]));
            return Err(UpdateError::EditConflict);
        }
        i = i + 1;
    }
    if !check_apart(tree, &plan) {
        return Err(UpdateError::EditConflict);
    }
    Ok(EditPlan { edits: plan })
}

} // verus!
