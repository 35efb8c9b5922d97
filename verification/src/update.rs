//! Updating one file: from its requests to its new text.

use crate::error::{UpdateError, UpdateFailure};
use crate::locate::{lemma_first_at, locate, located, starts_at};
use crate::parse::{parse, parsed_nodes};
use crate::plan::{
    active_for, free_of_conflict, is_version_name, lemma_ordered_rearranges, ordered, plan_edits,
    planned, version_name,
};
use crate::request::{request_views, RequestView, UpdateRequest};
use crate::resolve::{
    appended, edit_views, is_terminal, lemma_edits_are_single_line, lemma_edits_end_at_literals,
    resolve, resolve_bindings, EditView, ResolvedEdit,
};
use crate::rewrite::{
    lemma_apart, lemma_one_edit_replaces_one_span, lemma_rewriting_replaces_the_edited_spans,
    reconstruct, rendering, replacements_from, rewritten, spliced,
};
use crate::scope::{
    binding_at, lemma_binding_at, lookup, lookup_set_entry, to_set_entry, value_of,
};
use crate::text::{
    contains_line_break, copy_bytes, has_line_break, same_bytes, LOWER_E, LOWER_I, LOWER_N,
    LOWER_O, LOWER_R, LOWER_S, LOWER_V,
};
use crate::tree::{source_of, well_formed, NodeKind, NodeView, SyntaxTree};
use vstd::prelude::*;

verus! {

/// What a run carries from one file to the next: the file whose version
/// binding took the version override, once there is one.
#[derive(Debug)]
pub struct RunContext {
    pub version_file: Option<Vec<u8>>,
}

/// The name of the file that holds the version, if one does.
pub open spec fn file_of(holder: Option<Vec<u8>>) -> Option<Seq<u8>> {
    match holder {
        Some(file) => Some(file@),
        None => None,
    }
}

impl View for RunContext {
    type V = Option<Seq<u8>>;

    open spec fn view(&self) -> Option<Seq<u8>> {
        file_of(self.version_file)
    }
}

impl RunContext {
    /// The context at the start of a run: no file holds the version yet.
    pub fn new() -> (context: RunContext)
        ensures
            context@ is None,
    {
        RunContext { version_file: None }
    }
}

/// The text of a version override, if there is one.
pub open spec fn override_text(version: Option<&[u8]>) -> Option<Seq<u8>> {
    match version {
        Some(text) => Some(text@),
        None => None,
    }
}

/// How far the requests of a file have come: the edits found, and the file
/// that holds the version.
pub struct Progress {
    pub edits: Seq<EditView>,
    pub holder: Option<Seq<u8>>,
}

/// Whether an edit named `version` among `edits` is for another node than
/// `binding`.
pub open spec fn names_other_version(edits: Seq<EditView>, binding: usize) -> bool {
    exists|i: int|
        0 <= i < edits.len() && (#[trigger] edits[i]).name == version_name() && edits[i].node
            != binding
}

/// What the version override comes to at a located `node` of `file`.
///
/// Where no binding of `version` is visible from the node, nothing happens.
/// The first such binding of the run takes the override, and its file holds
/// the version from then on. Later, a version binding in another file is a
/// conflict, and so is one in the same file when an edit named `version` is
/// for another binding.
pub open spec fn version_step(
    nodes: Seq<NodeView>,
    file: Seq<u8>,
    version: Seq<u8>,
    node: usize,
    state: Progress,
) -> Result<Progress, UpdateError> {
    match lookup(nodes, version_name(), node) {
        None => Ok(state),
        Some(binding) => match state.holder {
            Some(holder) => if holder != file || names_other_version(state.edits, binding) {
                Err(UpdateError::VersionConflict)
            } else {
                Ok(state)
            },
            None => match resolve(nodes, binding, version_name(), version, false, Seq::empty()) {
                Err(error) => Err(error),
                Ok(found) => Ok(Progress { edits: state.edits + found, holder: Some(file) }),
            },
        },
    }
}

/// What one request comes to: the node at its position is located, the binding
/// it stands for is resolved, and the version override, if any, is seen to.
pub open spec fn request_step(
    nodes: Seq<NodeView>,
    file: Seq<u8>,
    version: Option<Seq<u8>>,
    request: RequestView,
    state: Progress,
) -> Result<Progress, UpdateError> {
    match located(nodes, request.position.line, request.position.column) {
        None => Err(UpdateError::PositionNotFound),
        Some(node) => match binding_at(nodes, node) {
            Err(error) => Err(error),
            Ok(None) => Err(UpdateError::BindingNotFound),
            Ok(Some(binding)) => match resolve(
                nodes,
                binding,
                request.name,
                request.value,
                false,
                Seq::empty(),
            ) {
                Err(error) => Err(error),
                Ok(found) => {
                    let next = Progress { edits: state.edits + found, holder: state.holder };
                    match version {
                        Some(text) => version_step(nodes, file, text, node, next),
                        None => Ok(next),
                    }
                },
            },
        },
    }
}

/// Where the first `count` requests lead, taken in order; the first failure
/// ends it.
pub open spec fn progress_after(
    nodes: Seq<NodeView>,
    file: Seq<u8>,
    version: Option<Seq<u8>>,
    requests: Seq<RequestView>,
    count: int,
    holder: Option<Seq<u8>>,
) -> Result<Progress, UpdateError>
    decreases count,
{
    if count <= 0 {
        Ok(Progress { edits: Seq::empty(), holder })
    } else {
        match progress_after(nodes, file, version, requests, count - 1, holder) {
            Err(error) => Err(error),
            Ok(state) => request_step(nodes, file, version, requests[count - 1], state),
        }
    }
}

/// Whether a requested value, or the version override, holds a line break.
pub open spec fn asks_for_line_break(version: Option<Seq<u8>>, requests: Seq<RequestView>) -> bool {
    ||| version matches Some(text) && has_line_break(text)
    ||| exists|i: int| 0 <= i < requests.len() && has_line_break((#[trigger] requests[i]).value)
}

/// The new text of a file, and the file that holds the version afterwards.
pub struct Outcome {
    pub text: Seq<u8>,
    pub holder: Option<Seq<u8>>,
}

/// What the requests for one file come to: they are resolved in order, their
/// edits are planned, and the text is written anew.
pub open spec fn updated(
    nodes: Seq<NodeView>,
    file: Seq<u8>,
    version: Option<Seq<u8>>,
    requests: Seq<RequestView>,
    holder: Option<Seq<u8>>,
) -> Result<Outcome, UpdateError> {
    if asks_for_line_break(version, requests) {
        Err(UpdateError::InputMalformed)
    } else {
        match progress_after(nodes, file, version, requests, requests.len() as int, holder) {
            Err(error) => Err(error),
            Ok(state) => match planned(nodes, state.edits) {
                Err(error) => Err(error),
                Ok(plan) => Ok(Outcome { text: rewritten(nodes, plan), holder: state.holder }),
            },
        }
    }
}

/// What the requests for a file with `content` come to: as `updated` says of
/// the tree that the content parses into.
pub open spec fn updated_content(
    content: Seq<u8>,
    file: Seq<u8>,
    version: Option<Seq<u8>>,
    requests: Seq<RequestView>,
    holder: Option<Seq<u8>>,
) -> Result<Outcome, UpdateError> {
    if asks_for_line_break(version, requests) {
        Err(UpdateError::InputMalformed)
    } else {
        match parsed_nodes(content) {
            Err(error) => Err(error),
            Ok(nodes) => updated(nodes, file, version, requests, holder),
        }
    }
}

/// The first request from `from` on whose value holds a line break.
pub open spec fn first_line_break(requests: Seq<RequestView>, from: int) -> Option<usize>
    decreases requests.len() - from,
{
    if from < 0 || from >= requests.len() {
        None
    } else if has_line_break(requests[from].value) {
        Some(from as usize)
    } else {
        first_line_break(requests, from + 1)
    }
}

/// The first request from `from` on at which the requests up to it fail.
pub open spec fn first_failing(
    nodes: Seq<NodeView>,
    file: Seq<u8>,
    version: Option<Seq<u8>>,
    requests: Seq<RequestView>,
    holder: Option<Seq<u8>>,
    from: int,
) -> Option<usize>
    decreases requests.len() - from,
{
    if from < 0 || from >= requests.len() {
        None
    } else if progress_after(nodes, file, version, requests, from + 1, holder) is Err {
        Some(from as usize)
    } else {
        first_failing(nodes, file, version, requests, holder, from + 1)
    }
}

/// The request that is at fault where asking for a line break fails the
/// update: the first whose value holds one, and none where the version
/// override does.
pub open spec fn line_break_culprit(version: Option<Seq<u8>>, requests: Seq<RequestView>) -> Option<
    usize,
> {
    if version matches Some(text) && has_line_break(text) {
        None
    } else {
        first_line_break(requests, 0)
    }
}

/// The request that is at fault where the update of a tree fails: the first
/// that asks for a line break or, where none does, the first at which
/// resolution fails. Where the edits do not agree, no single request is.
pub open spec fn culprit(
    nodes: Seq<NodeView>,
    file: Seq<u8>,
    version: Option<Seq<u8>>,
    requests: Seq<RequestView>,
    holder: Option<Seq<u8>>,
) -> Option<usize> {
    if asks_for_line_break(version, requests) {
        line_break_culprit(version, requests)
    } else {
        first_failing(nodes, file, version, requests, holder, 0)
    }
}

/// The request that is at fault where the update of a file fails; none where
/// the file does not parse.
pub open spec fn culprit_in_content(
    content: Seq<u8>,
    file: Seq<u8>,
    version: Option<Seq<u8>>,
    requests: Seq<RequestView>,
    holder: Option<Seq<u8>>,
) -> Option<usize> {
    if asks_for_line_break(version, requests) {
        line_break_culprit(version, requests)
    } else {
        match parsed_nodes(content) {
            Err(_) => None,
            Ok(nodes) => first_failing(nodes, file, version, requests, holder, 0),
        }
    }
}

/// How a call stands to what was asked of it: on success the text and the
/// holder are as `outcome` says; on failure the failure names the error and
/// the request at fault, and the holder is left as it was.
pub open spec fn delivered(
    outcome: Result<Outcome, UpdateError>,
    culprit: Option<usize>,
    done: Result<Vec<u8>, UpdateFailure>,
    before: Option<Seq<u8>>,
    after: Option<Seq<u8>>,
) -> bool {
    match outcome {
        Ok(wanted) => done matches Ok(text) && text@ == wanted.text && after == wanted.holder,
        Err(error) => done matches Err(failure) && failure == (UpdateFailure {
            error,
            request: culprit,
        }) && after == before,
    }
}

/// The request that is at fault where a line break is asked for.
pub fn find_line_break(version: Option<&[u8]>, requests: &Vec<UpdateRequest>) -> (found: Option<
    usize,
>)
    ensures
        found == line_break_culprit(override_text(version), request_views(requests@)),
{
    if let Some(text) = version {
        if contains_line_break(text) {
            return None;
        }
    }
    let ghost wanted = request_views(requests@);
    let mut i: usize = 0;
    while i < requests.len()
        invariant
            wanted == request_views(requests@),
            0 <= i <= requests@.len(),
            line_break_culprit(override_text(version), wanted) == first_line_break(wanted, 0),
            first_line_break(wanted, i as int) == first_line_break(wanted, 0),
        decreases requests@.len() - i,
    {
        if contains_line_break(requests[i].value.as_slice()) {
            return Some(i);
        }
        i = i + 1;
    }
    None
}

/// Whether a requested value, or the version override, holds a line break.
pub fn check_single_line(version: Option<&[u8]>, requests: &Vec<UpdateRequest>) -> (multiline: bool)
    ensures
        multiline == asks_for_line_break(override_text(version), request_views(requests@)),
{
    if let Some(text) = version {
        if contains_line_break(text) {
            return true;
        }
    }
    let mut i: usize = 0;
    while i < requests.len()
        invariant
            0 <= i <= requests@.len(),
            forall|k: int| 0 <= k < i ==> !has_line_break(request_views(requests@)[k].value),
        decreases requests@.len() - i,
    {
        if contains_line_break(requests[i].value.as_slice()) {
            assert(has_line_break(request_views(requests@)[i as int].value));
            return true;
        }
        i = i + 1;
    }
    false
}

/// Whether an edit named `version` among `edits` is for another node than
/// `binding`.
pub fn other_version_named(edits: &Vec<ResolvedEdit>, binding: usize) -> (found: bool)
    ensures
        found == names_other_version(edit_views(edits@), binding),
{
    let mut i: usize = 0;
    while i < edits.len()
        invariant
            0 <= i <= edits@.len(),
            forall|k: int|
                0 <= k < i ==> !((#[trigger] edit_views(edits@)[k]).name == version_name()
                    && edit_views(edits@)[k].node != binding),
        decreases edits@.len() - i,
    {
        if edits[i].node != binding && is_version_name(edits[i].name.as_slice()) {
            assert(edit_views(edits@)[i as int].name == version_name());
            return true;
        }
        i = i + 1;
    }
    false
}

/// The name `version`.
fn version_text() -> (name: Vec<u8>)
    ensures
        name@ == version_name(),
{
    let mut name: Vec<u8> = Vec::new();
    name.push(LOWER_V);
    name.push(LOWER_E);
    name.push(LOWER_R);
    name.push(LOWER_S);
    name.push(LOWER_I);
    name.push(LOWER_O);
    name.push(LOWER_N);
    assert(name@ =~= version_name());
    name
}

/// How the edits and the holder stand after a step with `outcome` that began
/// at `before`.
pub open spec fn stepped(
    before: Progress,
    outcome: Result<Progress, UpdateError>,
    done: Result<(), UpdateError>,
    edits: Seq<ResolvedEdit>,
    holder: Option<Vec<u8>>,
) -> bool {
    match outcome {
        Ok(state) => {
            &&& done is Ok
            &&& edit_views(edits) == state.edits
            &&& file_of(holder) == state.holder
        },
        Err(error) => done == Err::<(), UpdateError>(error),
    }
}

/// Sees to the version override at a located `node` of `file`.
pub fn apply_version(
    tree: &SyntaxTree,
    file: &[u8],
    version: &[u8],
    node: usize,
    edits: &mut Vec<ResolvedEdit>,
    holder: &mut Option<Vec<u8>>,
) -> (done: Result<(), UpdateError>)
    requires
        node < tree@.len(),
    ensures
        stepped(
            Progress { edits: edit_views(old(edits)@), holder: file_of(*old(holder)) },
            version_step(
                tree@,
                file@,
                version@,
                node,
                Progress {
                    edits: edit_views(old(edits)@),
                    holder: file_of(*old(holder)),
                },
            ),
            done,
            final(edits)@,
            *final(holder),
        ),
{
    let name = version_text();
    match lookup_set_entry(tree, name.as_slice(), node) {
        None => Ok(()),
        Some(binding) => {
            let conflict = match holder {
                Some(held) => Some(!same_bytes(held.as_slice(), file) || other_version_named(
                    edits,
                    binding,
                )),
                None => None,
            };
            match conflict {
                Some(true) => Err(UpdateError::VersionConflict),
                Some(false) => Ok(()),
                None => {
                    let edit = ResolvedEdit::new(binding, name.as_slice(), version, false);
                    match resolve_bindings(tree, edits, edit) {
                        Err(error) => Err(error),
                        Ok(()) => {
                            *holder = Some(copy_bytes(file));
                            Ok(())
                        },
                    }
                },
            }
        },
    }
}

/// Resolves one request against `tree` and sees to the version override.
pub fn apply_request(
    tree: &SyntaxTree,
    file: &[u8],
    version: Option<&[u8]>,
    request: &UpdateRequest,
    edits: &mut Vec<ResolvedEdit>,
    holder: &mut Option<Vec<u8>>,
) -> (done: Result<(), UpdateError>)
    ensures
        stepped(
            Progress { edits: edit_views(old(edits)@), holder: file_of(*old(holder)) },
            request_step(
                tree@,
                file@,
                override_text(version),
                request@,
                Progress {
                    edits: edit_views(old(edits)@),
                    holder: file_of(*old(holder)),
                },
            ),
            done,
            final(edits)@,
            *final(holder),
        ),
{
    match locate(tree, request.position.line, request.position.column) {
        None => Err(UpdateError::PositionNotFound),
        Some(node) => match to_set_entry(tree, node) {
            Err(error) => Err(error),
            Ok(None) => Err(UpdateError::BindingNotFound),
            Ok(Some(binding)) => {
                let edit = ResolvedEdit::new(
                    binding,
                    request.name.as_slice(),
                    request.value.as_slice(),
                    false,
                );
                match resolve_bindings(tree, edits, edit) {
                    Err(error) => Err(error),
                    Ok(()) => match version {
                        Some(text) => apply_version(tree, file, text, node, edits, holder),
                        None => Ok(()),
                    },
                }
            },
        },
    }
}

/// Updates the file whose syntax tree is `tree`: resolves `requests` in order,
/// plans their edits and writes the text anew. `context` learns which file
/// holds the version; it is left as it was where the update fails.
pub fn update_tree(
    tree: &SyntaxTree,
    context: &mut RunContext,
    file: &[u8],
    requests: &Vec<UpdateRequest>,
    version: Option<&[u8]>,
) -> (done: Result<Vec<u8>, UpdateFailure>)
    ensures
        delivered(
            updated(
                tree@,
                file@,
                override_text(version),
                request_views(requests@),
                old(context)@,
            ),
            culprit(
                tree@,
                file@,
                override_text(version),
                request_views(requests@),
                old(context)@,
            ),
            done,
            old(context)@,
            final(context)@,
        ),
{
    if check_single_line(version, requests) {
        return Err(
            UpdateFailure {
                error: UpdateError::InputMalformed,
                request: find_line_break(version, requests),
            },
        );
    }
    let ghost nodes = tree@;
    let ghost wanted = request_views(requests@);
    let ghost start = context@;
    let mut holder: Option<Vec<u8>> = match &context.version_file {
        Some(held) => Some(copy_bytes(held.as_slice())),
        None => None,
    };
    let mut edits: Vec<ResolvedEdit> = Vec::new();
    let mut i: usize = 0;
    assert(edit_views(edits@) =~= Seq::<EditView>::empty());
    while i < requests.len()
        invariant
            nodes == tree@,
            wanted == request_views(requests@),
            start == context@,
            context == old(context),
            !asks_for_line_break(override_text(version), wanted),
            0 <= i <= requests@.len(),
            first_failing(nodes, file@, override_text(version), wanted, start, i as int)
                == first_failing(nodes, file@, override_text(version), wanted, start, 0),
            progress_after(nodes, file@, override_text(version), wanted, i as int, start) == Ok::<
                Progress,
                UpdateError,
            >(
                Progress {
                    edits: edit_views(edits@),
                    holder: file_of(holder),
                },
            ),
        decreases requests@.len() - i,
    {
        match apply_request(tree, file, version, &requests[i], &mut edits, &mut holder) {
            Err(error) => {
                proof {
                    lemma_progress_fails_on(
                        nodes,
                        file@,
                        override_text(version),
                        wanted,
                        i + 1,
                        wanted.len() as int,
                        start,
                    );
                }
                return Err(UpdateFailure { error, request: Some(i) });
            },
            Ok(()) => {},
        }
        i = i + 1;
    }
    match plan_edits(tree, &edits) {
        Err(error) => Err(UpdateFailure { error, request: None }),
        Ok(plan) => {
            let text = reconstruct(tree, &plan);
            context.version_file = holder;
            Ok(text)
        },
    }
}

/// Updates the file called `file` with `content`: parses it and updates the
/// tree as `update_tree` does.
pub fn update_file(
    context: &mut RunContext,
    file: &[u8],
    content: &[u8],
    requests: &Vec<UpdateRequest>,
    version: Option<&[u8]>,
) -> (done: Result<Vec<u8>, UpdateFailure>)
    ensures
        delivered(
            updated_content(
                content@,
                file@,
                override_text(version),
                request_views(requests@),
                old(context)@,
            ),
            culprit_in_content(
                content@,
                file@,
                override_text(version),
                request_views(requests@),
                old(context)@,
            ),
            done,
            old(context)@,
            final(context)@,
        ),
{
    if check_single_line(version, requests) {
        return Err(
            UpdateFailure {
                error: UpdateError::InputMalformed,
                request: find_line_break(version, requests),
            },
        );
    }
    match parse(content) {
        Err(error) => Err(UpdateFailure { error, request: None }),
        Ok(tree) => update_tree(&tree, context, file, requests, version),
    }
}

/// A failure among the first `count` requests is the failure of any longer
/// run of them.
pub proof fn lemma_progress_fails_on(
    nodes: Seq<NodeView>,
    file: Seq<u8>,
    version: Option<Seq<u8>>,
    requests: Seq<RequestView>,
    count: int,
    longer: int,
    holder: Option<Seq<u8>>,
)
    requires
        0 <= count <= longer,
        progress_after(nodes, file, version, requests, count, holder) is Err,
    ensures
        progress_after(nodes, file, version, requests, longer, holder) == progress_after(
            nodes,
            file,
            version,
            requests,
            count,
            holder,
        ),
    decreases longer - count,
{
    if count < longer {
        lemma_progress_fails_on(nodes, file, version, requests, count, longer - 1, holder);
    }
}

/// The binding that `request` is for, where the node at its position stands
/// for a binding whose value is a string literal.
pub open spec fn literal_binding(nodes: Seq<NodeView>, request: RequestView) -> Option<usize> {
    match located(nodes, request.position.line, request.position.column) {
        Some(node) => match binding_at(nodes, node) {
            Ok(Some(binding)) => match value_of(nodes, binding) {
                Some(value) => if nodes[value as int].kind == NodeKind::StringLiteral {
                    Some(binding)
                } else {
                    None
                },
                None => None,
            },
            _ => None,
        },
        None => None,
    }
}

/// A request for a binding whose value is a string literal rewrites the file
/// so that exactly the span of that binding reads `name = "value";`, and every
/// byte before and behind it is as it was.
pub proof fn lemma_literal_request_replaces_its_binding(
    nodes: Seq<NodeView>,
    file: Seq<u8>,
    request: RequestView,
    holder: Option<Seq<u8>>,
    binding: usize,
)
    requires
        well_formed(nodes),
        !has_line_break(request.value),
        literal_binding(nodes, request) == Some(binding),
    ensures
        binding < nodes.len(),
        updated(nodes, file, None, seq![request], holder) == Ok::<Outcome, UpdateError>(
            Outcome {
                text: source_of(nodes).take(nodes[binding as int].start as int) + rendering(
                    EditView {
                        node: binding,
                        name: request.name,
                        value: request.value,
                        derived: false,
                    },
                ) + source_of(nodes).skip(nodes[binding as int].end as int),
                holder,
            },
        ),
{
    let requests = seq![request];
    let edit = EditView {
        node: binding,
        name: request.name,
        value: request.value,
        derived: false,
    };
    let node = located(nodes, request.position.line, request.position.column)->Some_0;
    lemma_first_at(nodes, 0, request.position.line, request.position.column);
    lemma_binding_at(nodes, node);
    let start = Progress { edits: Seq::empty(), holder };
    assert(progress_after(nodes, file, None, requests, 0, holder) == Ok::<Progress, UpdateError>(
        start,
    ));
    assert(resolve(nodes, binding, request.name, request.value, false, Seq::empty()) == Ok::<
        Seq<EditView>,
        UpdateError,
    >(seq![edit]));
    assert(Seq::<EditView>::empty() + seq![edit] =~= seq![edit]);
    assert(request_step(nodes, file, None, request, start) == Ok::<Progress, UpdateError>(
        Progress { edits: seq![edit], holder },
    ));
    assert(requests[0] == request);
    assert(progress_after(nodes, file, None, requests, 1, holder) == request_step(
        nodes,
        file,
        None,
        request,
        start,
    ));
    let plan = ordered(nodes, seq![edit]);
    assert(plan =~= seq![edit]) by {
        assert(seq![edit].drop_last() =~= Seq::<EditView>::empty());
        assert(ordered(nodes, Seq::<EditView>::empty()) =~= Seq::<EditView>::empty());
    }
    assert(free_of_conflict(plan)) by {
        assert(active_for(plan, edit.node) == Some(edit));
    }
    assert(!asks_for_line_break(None, requests));
    lemma_one_edit_replaces_one_span(nodes, edit);
}

/// With a version override, a request that finds a version binding in one
/// file after another file took the override is rejected.
pub proof fn lemma_version_in_second_file_is_rejected(
    nodes: Seq<NodeView>,
    file: Seq<u8>,
    version: Seq<u8>,
    request: RequestView,
    state: Progress,
)
    requires
        request_step(nodes, file, None, request, state) is Ok,
        located(nodes, request.position.line, request.position.column) matches Some(node)
            && lookup(nodes, version_name(), node) is Some,
        state.holder matches Some(other) && other != file,
    ensures
        request_step(nodes, file, Some(version), request, state) == Err::<Progress, UpdateError>(
            UpdateError::VersionConflict,
        ),
{
}

/// In the file that took the override, a further request that sees the same
/// version binding is accepted and adds nothing, as long as every edit named
/// `version` is for that binding.
pub proof fn lemma_same_version_binding_is_accepted(
    nodes: Seq<NodeView>,
    file: Seq<u8>,
    version: Seq<u8>,
    node: usize,
    state: Progress,
)
    requires
        state.holder == Some(file),
        lookup(nodes, version_name(), node) matches Some(binding) && forall|i: int|
            0 <= i < state.edits.len() && (#[trigger] state.edits[i]).name == version_name()
                ==> state.edits[i].node == binding,
    ensures
        version_step(nodes, file, version, node, state) == Ok::<Progress, UpdateError>(state),
{
}

/// A request at a position where no node starts is rejected as not found, and
/// so no new text comes of the file.
pub proof fn lemma_unknown_position_is_rejected(
    nodes: Seq<NodeView>,
    file: Seq<u8>,
    version: Option<Seq<u8>>,
    requests: Seq<RequestView>,
    holder: Option<Seq<u8>>,
    which: int,
)
    requires
        nodes.len() <= usize::MAX,
        !asks_for_line_break(version, requests),
        0 <= which < requests.len(),
        progress_after(nodes, file, version, requests, which, holder) is Ok,
        forall|index: int|
            0 <= index < nodes.len() ==> !starts_at(
                nodes,
                index,
                requests[which].position.line,
                requests[which].position.column,
            ),
    ensures
        updated(nodes, file, version, requests, holder) == Err::<Outcome, UpdateError>(
            UpdateError::PositionNotFound,
        ),
{
    lemma_first_at(nodes, 0, requests[which].position.line, requests[which].position.column);
    lemma_progress_fails_on(
        nodes,
        file,
        version,
        requests,
        which + 1,
        requests.len() as int,
        holder,
    );
}

/// Whether every edit of `edits` is for a binding of the tree whose value is
/// a string literal or `null`, and gives it a value on one line.
pub open spec fn all_settled(nodes: Seq<NodeView>, edits: Seq<EditView>) -> bool {
    forall|i: int|
        0 <= i < edits.len() ==> {
            &&& (#[trigger] edits[i]).node < nodes.len()
            &&& nodes[edits[i].node as int].kind == NodeKind::Binding
            &&& is_terminal(nodes, edits[i].node)
            &&& !has_line_break(edits[i].value)
        }
}

/// However the requests of a file are resolved, every edit found is for a
/// binding whose value is a string literal or `null`, and gives it a value on
/// one line, as long as no request and no override asks for a line break.
pub proof fn lemma_progress_is_settled(
    nodes: Seq<NodeView>,
    file: Seq<u8>,
    version: Option<Seq<u8>>,
    requests: Seq<RequestView>,
    count: int,
    holder: Option<Seq<u8>>,
)
    requires
        !asks_for_line_break(version, requests),
        0 <= count <= requests.len(),
    ensures
        progress_after(nodes, file, version, requests, count, holder) matches Ok(state)
            ==> all_settled(nodes, state.edits),
    decreases count,
{
    if count > 0 {
        lemma_progress_is_settled(nodes, file, version, requests, count - 1, holder);
        let request = requests[count - 1];
        assert(!has_line_break(request.value));
        match progress_after(nodes, file, version, requests, count - 1, holder) {
            Err(_) => {},
            Ok(state) => {
                match located(nodes, request.position.line, request.position.column) {
                    None => {},
                    Some(node) => match binding_at(nodes, node) {
                        Ok(Some(binding)) => {
                            lemma_edits_end_at_literals(
                                nodes,
                                binding,
                                request.name,
                                request.value,
                                false,
                                Seq::empty(),
                            );
                            lemma_edits_are_single_line(
                                nodes,
                                binding,
                                request.name,
                                request.value,
                                false,
                                Seq::empty(),
                            );
                            match resolve(
                                nodes,
                                binding,
                                request.name,
                                request.value,
                                false,
                                Seq::empty(),
                            ) {
                                Err(_) => {},
                                Ok(found) => {
                                    let next = state.edits + found;
                                    assert(all_settled(nodes, next)) by {
                                        assert forall|i: int| 0 <= i < next.len() implies {
                                            &&& (#[trigger] next[i]).node < nodes.len()
                                            &&& nodes[next[i].node as int].kind
                                                == NodeKind::Binding
                                            &&& is_terminal(nodes, next[i].node)
                                            &&& !has_line_break(next[i].value)
                                        } by {
                                            if i < state.edits.len() {
                                                assert(next[i] == state.edits[i]);
                                            } else {
                                                assert(next[i] == found[i - state.edits.len()]);
                                            }
                                        }
                                    }
                                    match version {
                                        None => {},
                                        Some(text) => {
                                            lemma_version_step_is_settled(
                                                nodes,
                                                file,
                                                text,
                                                node,
                                                Progress { edits: next, holder: state.holder },
                                            );
                                        },
                                    }
                                },
                            }
                        },
                        _ => {},
                    },
                }
            },
        }
    }
}

/// The version override adds settled edits to settled edits.
proof fn lemma_version_step_is_settled(
    nodes: Seq<NodeView>,
    file: Seq<u8>,
    version: Seq<u8>,
    node: usize,
    state: Progress,
)
    requires
        !has_line_break(version),
        all_settled(nodes, state.edits),
    ensures
        version_step(nodes, file, version, node, state) matches Ok(next) ==> all_settled(
            nodes,
            next.edits,
        ),
{
    match lookup(nodes, version_name(), node) {
        None => {},
        Some(binding) => {
            lemma_edits_end_at_literals(
                nodes,
                binding,
                version_name(),
                version,
                false,
                Seq::empty(),
            );
            lemma_edits_are_single_line(
                nodes,
                binding,
                version_name(),
                version,
                false,
                Seq::empty(),
            );
            if state.holder is None {
                match resolve(nodes, binding, version_name(), version, false, Seq::empty()) {
                    Err(_) => {},
                    Ok(found) => {
                        let next = state.edits + found;
                        assert forall|i: int| 0 <= i < next.len() implies {
                            &&& (#[trigger] next[i]).node < nodes.len()
                            &&& nodes[next[i].node as int].kind == NodeKind::Binding
                            &&& is_terminal(nodes, next[i].node)
                            &&& !has_line_break(next[i].value)
                        } by {
                            if i < state.edits.len() {
                                assert(next[i] == state.edits[i]);
                            } else {
                                assert(next[i] == found[i - state.edits.len()]);
                            }
                        }
                    },
                }
            }
        },
    }
}

/// An update that succeeds replaces exactly the spans of the bindings it
/// edits, each with `name = "value";` as its edit has it, and keeps every
/// other byte of the file as it was. The bindings it edits all have a string
/// literal or `null` for their value, and the values it gives them are each on
/// one line.
pub proof fn lemma_update_replaces_the_edited_spans(
    nodes: Seq<NodeView>,
    file: Seq<u8>,
    version: Option<Seq<u8>>,
    requests: Seq<RequestView>,
    holder: Option<Seq<u8>>,
)
    requires
        well_formed(nodes),
    ensures
        updated(nodes, file, version, requests, holder) matches Ok(outcome) ==> {
            let plan = planned(
                nodes,
                progress_after(
                    nodes,
                    file,
                    version,
                    requests,
                    requests.len() as int,
                    holder,
                )->Ok_0.edits,
            )->Ok_0;
            &&& all_settled(nodes, plan)
            &&& outcome.text == spliced(source_of(nodes), replacements_from(nodes, plan, 0), 0)
        },
{
    if let Ok(outcome) = updated(nodes, file, version, requests, holder) {
        let state = progress_after(
            nodes,
            file,
            version,
            requests,
            requests.len() as int,
            holder,
        )->Ok_0;
        let plan = ordered(nodes, state.edits);
        lemma_progress_is_settled(nodes, file, version, requests, requests.len() as int, holder);
        lemma_ordered_rearranges(nodes, state.edits);
        assert forall|i: int| 0 <= i < plan.len() implies {
            &&& (#[trigger] plan[i]).node < nodes.len()
            &&& nodes[plan[i].node as int].kind == NodeKind::Binding
            &&& is_terminal(nodes, plan[i].node)
            &&& !has_line_break(plan[i].value)
        } by {
            vstd::seq_lib::to_multiset_contains(plan, plan[i]);
            vstd::seq_lib::to_multiset_contains(state.edits, plan[i]);
            assert(plan.contains(plan[i]));
            let k = choose|k: int| 0 <= k < state.edits.len() && state.edits[k] == plan[i];
            assert(state.edits[k] == plan[i]);
        }
        lemma_apart(nodes, plan);
        lemma_rewriting_replaces_the_edited_spans(nodes, plan);
    }
}

/// The request named at fault is the first at which the update fails: where
/// the requests before one are resolved and that one is not, it is the one.
pub proof fn lemma_culprit_is_the_first_to_fail(
    nodes: Seq<NodeView>,
    file: Seq<u8>,
    version: Option<Seq<u8>>,
    requests: Seq<RequestView>,
    holder: Option<Seq<u8>>,
    which: int,
)
    requires
        requests.len() <= usize::MAX,
        !asks_for_line_break(version, requests),
        0 <= which < requests.len(),
        progress_after(nodes, file, version, requests, which, holder) is Ok,
        progress_after(nodes, file, version, requests, which + 1, holder) is Err,
    ensures
        culprit(nodes, file, version, requests, holder) == Some(which as usize),
{
    lemma_first_failing(nodes, file, version, requests, holder, 0, which);
}

/// Where the requests before `which` are resolved and `which` is not, it is
/// the first to fail from any request before it on.
proof fn lemma_first_failing(
    nodes: Seq<NodeView>,
    file: Seq<u8>,
    version: Option<Seq<u8>>,
    requests: Seq<RequestView>,
    holder: Option<Seq<u8>>,
    from: int,
    which: int,
)
    requires
        requests.len() <= usize::MAX,
        0 <= from <= which < requests.len(),
        progress_after(nodes, file, version, requests, which, holder) is Ok,
        progress_after(nodes, file, version, requests, which + 1, holder) is Err,
    ensures
        first_failing(nodes, file, version, requests, holder, from) == Some(which as usize),
    decreases which - from,
{
    if from < which {
        if progress_after(nodes, file, version, requests, from + 1, holder) is Err {
            lemma_progress_fails_on(nodes, file, version, requests, from + 1, which, holder);
        }
        lemma_first_failing(nodes, file, version, requests, holder, from + 1, which);
    }
}

} // verus!
