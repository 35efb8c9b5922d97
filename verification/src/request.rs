//! What a caller asks for: a value for the binding at a position.

use crate::text::{
    copy_bytes, lemma_precedes_chains, lemma_precedes_one_way, lemma_precedes_or_same, precedes,
    same_bytes, text_precedes,
};
use vstd::prelude::*;

verus! {

/// A place in a file: the file's name, the 1-based line, and the 1-based
/// column counted in characters.
#[derive(Debug)]
pub struct SourcePosition {
    pub file: Vec<u8>,
    pub line: usize,
    pub column: usize,
}

/// A position as contracts see it.
pub struct PositionView {
    pub file: Seq<u8>,
    pub line: usize,
    pub column: usize,
}

impl View for SourcePosition {
    type V = PositionView;

    open spec fn view(&self) -> PositionView {
        PositionView { file: self.file@, line: self.line, column: self.column }
    }
}

/// The request that the binding at `position` be given `value`. The name is
/// what the binding is called in the edit and in messages.
#[derive(Debug)]
pub struct UpdateRequest {
    pub name: Vec<u8>,
    pub position: SourcePosition,
    pub value: Vec<u8>,
}

/// A request as contracts see it.
pub struct RequestView {
    pub name: Seq<u8>,
    pub position: PositionView,
    pub value: Seq<u8>,
}

impl View for UpdateRequest {
    type V = RequestView;

    open spec fn view(&self) -> RequestView {
        RequestView { name: self.name@, position: self.position@, value: self.value@ }
    }
}

impl UpdateRequest {
    /// The request called `name` that the binding at `line` and `column` of
    /// `file` be given `value`.
    pub fn new(name: &[u8], file: &[u8], line: usize, column: usize, value: &[u8]) -> (request:
        UpdateRequest)
        ensures
            request@ == (RequestView {
                name: name@,
                position: PositionView { file: file@, line, column },
                value: value@,
            }),
    {
        UpdateRequest {
            name: copy_bytes(name),
            position: SourcePosition { file: copy_bytes(file), line, column },
            value: copy_bytes(value),
        }
    }
}

/// The views of `requests`, in order.
pub open spec fn request_views(requests: Seq<UpdateRequest>) -> Seq<RequestView> {
    Seq::new(requests.len(), |i: int| requests[i]@)
}

/// Whether `first` must be seen to before `second`: its file comes first in
/// the order of a dictionary or, in the same file, its line comes first.
pub open spec fn goes_first(first: RequestView, second: RequestView) -> bool {
    text_precedes(first.position.file, second.position.file) || (first.position.file
        == second.position.file && first.position.line < second.position.line)
}

/// Where `request` goes into `sorted`: behind the requests from `from` on that
/// it need not be seen to before.
pub open spec fn place_for(sorted: Seq<RequestView>, request: RequestView, from: int) -> int
    decreases sorted.len() - from,
{
    if from < 0 || from >= sorted.len() {
        sorted.len() as int
    } else if goes_first(request, sorted[from]) {
        from
    } else {
        place_for(sorted, request, from + 1)
    }
}

/// `requests` in the order in which they are seen to: by file, then by line,
/// and otherwise as they came.
pub open spec fn in_order(requests: Seq<RequestView>) -> Seq<RequestView>
    decreases requests.len(),
{
    if requests.len() == 0 {
        Seq::empty()
    } else {
        let before = in_order(requests.drop_last());
        before.insert(place_for(before, requests.last(), 0), requests.last())
    }
}

/// The views of `batches`, in order.
pub open spec fn batch_views(batches: Seq<Vec<UpdateRequest>>) -> Seq<Seq<RequestView>> {
    Seq::new(batches.len(), |i: int| request_views(batches[i]@))
}

/// Whether `batches` are the runs of requests for one file each: none is
/// empty, the requests of a batch are all for the file of its first, and a
/// batch is for another file than the batch before it.
pub open spec fn are_runs_by_file(batches: Seq<Seq<RequestView>>) -> bool {
    &&& forall|b: int| 0 <= b < batches.len() ==> (#[trigger] batches[b]).len() > 0
    &&& forall|b: int, i: int|
        0 <= b < batches.len() && 0 <= i < batches[b].len() ==> (#[trigger] batches[b][i]).position.file
            == batches[b][0].position.file
    &&& forall|b: int|
        0 < b < batches.len() ==> (#[trigger] batches[b])[0].position.file != batches[b
            - 1][0].position.file
}

/// Whether no request of `requests` must be seen to before one that stands
/// before it.
pub open spec fn is_in_order(requests: Seq<RequestView>) -> bool {
    forall|i: int, j: int|
        0 <= i < j < requests.len() ==> !goes_first(#[trigger] requests[j], #[trigger] requests[i])
}

/// `place_for` answers with a place in `sorted` or just behind it. The request
/// need not be seen to before any of those between `from` and its place, and
/// must be seen to before the one at its place.
pub proof fn lemma_place_for(sorted: Seq<RequestView>, request: RequestView, from: int)
    requires
        0 <= from <= sorted.len(),
    ensures
        from <= place_for(sorted, request, from) <= sorted.len(),
        forall|k: int|
            from <= k < place_for(sorted, request, from) ==> !goes_first(
                request,
                #[trigger] sorted[k],
            ),
        place_for(sorted, request, from) < sorted.len() ==> goes_first(
            request,
            sorted[place_for(sorted, request, from)],
        ),
    decreases sorted.len() - from,
{
    if from < sorted.len() && !goes_first(request, sorted[from]) {
        lemma_place_for(sorted, request, from + 1);
    }
}

/// The order of requests has no loops: a request that goes first before a
/// second, which goes first before a third, goes first before the third, and
/// none goes first before itself.
pub proof fn lemma_goes_first_chains(first: RequestView, second: RequestView, third: RequestView)
    requires
        goes_first(first, second),
        goes_first(second, third),
    ensures
        goes_first(first, third),
        !goes_first(second, first),
{
    let a = first.position.file;
    let b = second.position.file;
    let c = third.position.file;
    if text_precedes(a, b) {
        lemma_precedes_one_way(a, b);
        if text_precedes(b, c) {
            lemma_precedes_chains(a, b, c);
        }
    } else if text_precedes(b, c) {
        lemma_precedes_one_way(b, c);
    }
    if text_precedes(b, a) {
        lemma_precedes_one_way(b, a);
    }
}

/// The requests in order are the requests that were given, each as often as it
/// was given.
pub proof fn lemma_in_order_rearranges(requests: Seq<RequestView>)
    ensures
        in_order(requests).to_multiset() == requests.to_multiset(),
        in_order(requests).len() == requests.len(),
    decreases requests.len(),
{
    if requests.len() > 0 {
        let earlier = requests.drop_last();
        let before = in_order(earlier);
        lemma_in_order_rearranges(earlier);
        lemma_place_for(before, requests.last(), 0);
        vstd::seq_lib::to_multiset_insert(
            before,
            place_for(before, requests.last(), 0),
            requests.last(),
        );
        assert(earlier.push(requests.last()) =~= requests);
        vstd::seq_lib::to_multiset_build(earlier, requests.last());
    } else {
        assert(requests =~= Seq::<RequestView>::empty());
    }
}

/// The requests in order are sorted by file and line: none must be seen to
/// before one that stands before it.
pub proof fn lemma_in_order_is_sorted(requests: Seq<RequestView>)
    ensures
        is_in_order(in_order(requests)),
    decreases requests.len(),
{
    if requests.len() > 0 {
        let before = in_order(requests.drop_last());
        let request = requests.last();
        let place = place_for(before, request, 0);
        let after = before.insert(place, request);
        lemma_in_order_is_sorted(requests.drop_last());
        lemma_place_for(before, request, 0);
        assert forall|i: int, j: int| 0 <= i < j < after.len() implies !goes_first(
            #[trigger] after[j],
            #[trigger] after[i],
        ) by {
            if j == place {
                assert(after[i] == before[i]);
            } else if i == place {
                assert(after[j] == before[j - 1]);
                if goes_first(before[j - 1], request) {
                    lemma_goes_first_chains(before[j - 1], request, before[place]);
                }
            } else {
                let old_i = if i < place {
                    i
                } else {
                    i - 1
                };
                let old_j = if j < place {
                    j
                } else {
                    j - 1
                };
                assert(after[i] == before[old_i]);
                assert(after[j] == before[old_j]);
            }
        }
    }
}

/// Where item `index` of batch `batch` stands when the batches are laid end
/// to end: behind all the batches before its own.
proof fn lemma_place_in_sequence(batches: Seq<Seq<RequestView>>, batch: int, index: int)
    requires
        0 <= batch < batches.len(),
        0 <= index < batches[batch].len(),
    ensures
        batches.take(batch).flatten().len() + index < batches.flatten().len(),
        batches.flatten()[batches.take(batch).flatten().len() + index] == batches[batch][index],
{
    let head = batches.take(batch);
    let own = seq![batches[batch]];
    let tail = batches.skip(batch + 1);
    assert(batches =~= (head + own) + tail);
    vstd::seq_lib::lemma_flatten_concat(head + own, tail);
    vstd::seq_lib::lemma_flatten_concat(head, own);
    own.lemma_flatten_one_element();
}

/// A later batch begins behind the end of an earlier one.
proof fn lemma_batches_follow(batches: Seq<Seq<RequestView>>, earlier: int, later: int)
    requires
        0 <= earlier < later < batches.len(),
    ensures
        batches.take(earlier).flatten().len() + batches[earlier].len() <= batches.take(
            later,
        ).flatten().len(),
{
    let head = batches.take(earlier);
    let own = seq![batches[earlier]];
    let between = batches.subrange(earlier + 1, later);
    assert(batches.take(later) =~= (head + own) + between);
    vstd::seq_lib::lemma_flatten_concat(head + own, between);
    vstd::seq_lib::lemma_flatten_concat(head, own);
    own.lemma_flatten_one_element();
}

/// Each file has one batch: where the requests are in order and the batches
/// are their runs by file, two batches are never for the same file. So every
/// file is read, parsed and written once.
pub proof fn lemma_one_batch_for_each_file(
    batches: Seq<Seq<RequestView>>,
    earlier: int,
    later: int,
)
    requires
        are_runs_by_file(batches),
        is_in_order(batches.flatten()),
        0 <= earlier < later < batches.len(),
    ensures
        batches[earlier][0].position.file != batches[later][0].position.file,
{
    let all = batches.flatten();
    let file = batches[earlier][0].position.file;
    if later > earlier + 1 && batches[later][0].position.file == file {
        // The batch right behind the earlier one is for another file, which
        // would have to come both behind and before this one.
        let next = earlier + 1;
        let other = batches[next][0].position.file;
        let x = batches.take(earlier).flatten().len() as int;
        let y = batches.take(next).flatten().len() as int;
        let z = batches.take(later).flatten().len() as int;
        lemma_place_in_sequence(batches, earlier, 0);
        lemma_place_in_sequence(batches, next, 0);
        lemma_place_in_sequence(batches, later, 0);
        lemma_batches_follow(batches, earlier, next);
        lemma_batches_follow(batches, next, later);
        assert(batches[earlier].len() > 0);
        assert(batches[next].len() > 0);
        assert(x < y < z);
        assert(!goes_first(all[y], all[x]));
        assert(!goes_first(all[z], all[y]));
        lemma_precedes_or_same(file, other);
        assert(batches[next][0].position.file != batches[next - 1][0].position.file);
    } else if later == earlier + 1 {
        assert(batches[later][0].position.file != batches[later - 1][0].position.file);
    }
}

/// Whether `first` must be seen to before `second`.
fn comes_first(first: &UpdateRequest, second: &UpdateRequest) -> (before: bool)
    ensures
        before == goes_first(first@, second@),
{
    let left = first.position.file.as_slice();
    let right = second.position.file.as_slice();
    precedes(left, right) || (same_bytes(left, right) && first.position.line
        < second.position.line)
}

/// Puts `requests` in the order in which they are seen to.
pub fn sort_requests(requests: &Vec<UpdateRequest>) -> (sorted: Vec<UpdateRequest>)
    ensures
        request_views(sorted@) == in_order(request_views(requests@)),
{
    let ghost all = request_views(requests@);
    let mut sorted: Vec<UpdateRequest> = Vec::new();
    let mut i: usize = 0;
    assert(all.take(0) =~= Seq::<RequestView>::empty());
    assert(request_views(sorted@) =~= Seq::<RequestView>::empty());
    while i < requests.len()
        invariant
            all == request_views(requests@),
            0 <= i <= requests@.len(),
            request_views(sorted@) == in_order(all.take(i as int)),
        decreases requests@.len() - i,
    {
        let request = &requests[i];
        let ghost before = request_views(sorted@);
        let mut place: usize = 0;
        while place < sorted.len() && !comes_first(request, &sorted[place])
            invariant
                before == request_views(sorted@),
                0 <= place <= sorted@.len(),
                place_for(before, request@, place as int) == place_for(before, request@, 0),
            decreases sorted@.len() - place,
        {
            place = place + 1;
        }
        let copy = UpdateRequest::new(
            request.name.as_slice(),
            request.position.file.as_slice(),
            request.position.line,
            request.position.column,
            request.value.as_slice(),
        );
        sorted.insert(place, copy);
        proof {
            assert(all.take(i + 1).drop_last() =~= all.take(i as int));
            assert(all.take(i + 1).last() == request@);
            assert(request_views(sorted@) =~= before.insert(place as int, request@));
        }
        i = i + 1;
    }
    assert(all.take(requests@.len() as int) =~= all);
    sorted
}

/// Groups `requests` with itertools' `group_by`, keyed by the file of each
/// request. As its documentation says, consecutive requests with the same key
/// form one group: the groups, one after the other, are the requests in their
/// order, no group is empty, a group holds one file only, and the group
/// behind it begins with another file.
#[verifier::external_body]
fn group_by_file(requests: Vec<UpdateRequest>) -> (batches: Vec<Vec<UpdateRequest>>)
    ensures
        batch_views(batches@).flatten() == request_views(requests@),
        are_runs_by_file(batch_views(batches@)),
{
    let grouped = itertools::Itertools::group_by(
        requests.into_iter(),
        |request| request.position.file.clone(),
    );
    (&grouped).into_iter().map(|(_, group)| group.collect()).collect()
}

/// Splits the requests of a run into the batches of its files: the requests
/// are put in order and each run of requests for one file becomes a batch.
pub fn batch_requests(requests: &Vec<UpdateRequest>) -> (batches: Vec<Vec<UpdateRequest>>)
    ensures
        batch_views(batches@).flatten() == in_order(request_views(requests@)),
        are_runs_by_file(batch_views(batches@)),
        forall|earlier: int, later: int|
            0 <= earlier < later < batches@.len() ==> (#[trigger] batch_views(
                batches@,
            )[earlier])[0].position.file != (#[trigger] batch_views(
                batches@,
            )[later])[0].position.file,
{
    let batches = group_by_file(sort_requests(requests));
    proof {
        let views = batch_views(batches@);
        lemma_in_order_is_sorted(request_views(requests@));
        assert forall|earlier: int, later: int| 0 <= earlier < later < views.len() implies (
        #[trigger] views[earlier])[0].position.file != (#[trigger] views[later])[0].position.file by {
            lemma_one_batch_for_each_file(views, earlier, later);
        }
    }
    batches
}

} // verus!
