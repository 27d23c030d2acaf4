//! Cursor-driven pagination: the id collection each dataset accumulates,
//! the observable states of one pagination run, and the laws that make
//! interruption and resumption safe.

use vstd::prelude::*;

use crate::model::Ids;

verus! {

/// Observable state of one pagination run. `Exhausted` and `Done` are
/// terminal for the current attempt; only `Done` is terminal for the
/// dataset.
#[derive(Clone, Copy, PartialEq, Eq, Structural, Debug)]
pub enum FetchState {
    Idle,
    Fetching,
    Exhausted,
    Done,
}

/// Append-only sequence of collected identifiers together with the
/// pagination cursor that produced it: the unit the checkpoint store
/// persists per logical dataset.
#[derive(Clone, Debug)]
pub struct IdCollection {
    pub ids: Vec<i64>,
    pub cursor: i64,
}

/// One remote page response as the specification sees it.
pub ghost struct PageResponse {
    pub ids: Seq<i64>,
    pub next_cursor: i64,
}

/// The collection reached by feeding `responses`, in order, to a collection
/// holding `ids` at `cursor`. Pagination consumes one response per step and
/// stops as soon as the cursor reaches zero.
pub open spec fn run_from(
    ids: Seq<i64>,
    cursor: i64,
    responses: Seq<PageResponse>,
) -> (Seq<i64>, i64)
    decreases responses.len(),
{
    if cursor == 0 || responses.len() == 0 {
        (ids, cursor)
    } else {
        run_from(ids + responses[0].ids, responses[0].next_cursor, responses.drop_first())
    }
}

impl IdCollection {
    /// The not-yet-started collection: no ids, cursor at the start marker.
    pub fn new() -> (r: Self)
        ensures
            r.ids@ == Seq::<i64>::empty(),
            r.cursor == -1,
    {
        IdCollection { ids: Vec::new(), cursor: -1 }
    }

    /// A cursor of zero means the endpoint is fully drained.
    pub open spec fn spec_done(&self) -> bool {
        self.cursor == 0
    }

    /// Whether this dataset has reached its terminal state.
    pub fn is_done(&self) -> (r: bool)
        ensures
            r == self.spec_done(),
    {
        self.cursor == 0
    }

    /// Folds one page response into the collection: appends the returned ids
    /// and advances the cursor to exactly the value the response carried —
    /// never a guessed or stale one.
    pub fn apply_page(&mut self, page: Ids)
        requires
            !old(self).spec_done(),
        ensures
            final(self).ids@ == old(self).ids@ + page.ids@,
            final(self).cursor == page.next_cursor,
    {
        let mut incoming = page.ids;
        self.ids.append(&mut incoming);
        self.cursor = page.next_cursor;
    }
}

/// One scheduling decision of the pagination state machine: `Done` once the
/// cursor signals completion, `Fetching` when the selector produced a
/// session for the next page, `Exhausted` when the pool had no budget left.
pub fn fetch_decision(coll: &IdCollection, selected: Option<usize>) -> (r: FetchState)
    ensures
        coll.spec_done() ==> r == FetchState::Done,
        !coll.spec_done() && selected is Some ==> r == FetchState::Fetching,
        !coll.spec_done() && selected is None ==> r == FetchState::Exhausted,
{
    if coll.cursor == 0 {
        FetchState::Done
    } else if selected.is_some() {
        FetchState::Fetching
    } else {
        FetchState::Exhausted
    }
}

/// One `apply_page` call agrees with one step of the specification run: the
/// exec transition and the model advance in lock step.
pub proof fn lemma_step_matches_run(ids: Seq<i64>, cursor: i64, response: PageResponse)
    requires
        cursor != 0,
    ensures
        run_from(ids, cursor, seq![response]) == (ids + response.ids, response.next_cursor),
{
    reveal_with_fuel(run_from, 2);
    assert(seq![response].drop_first() =~= Seq::<PageResponse>::empty());
    assert(run_from(ids + response.ids, response.next_cursor, seq![response].drop_first())
        == (ids + response.ids, response.next_cursor));
}

/// Cursor termination: whenever some response in the stream carries a next
/// cursor of zero, the run ends with cursor zero — the `Done` state — after
/// finitely many pages (each step of `run_from` consumes one response).
pub proof fn lemma_cursor_termination(
    ids: Seq<i64>,
    cursor: i64,
    responses: Seq<PageResponse>,
    k: int,
)
    requires
        0 <= k < responses.len(),
        responses[k].next_cursor == 0,
    ensures
        run_from(ids, cursor, responses).1 == 0,
    decreases k,
{
    if cursor == 0 {
    } else if k == 0 {
        assert(run_from(
            ids + responses[0].ids,
            0i64,
            responses.drop_first(),
        ).1 == 0);
    } else {
        assert(responses.drop_first()[k - 1] == responses[k]);
        lemma_cursor_termination(
            ids + responses[0].ids,
            responses[0].next_cursor,
            responses.drop_first(),
            k - 1,
        );
    }
}

/// Resume idempotence: interrupting a run after its first `j` responses and
/// restarting from the persisted collection, with the rest of the stream,
/// ends in exactly the collection and cursor an uninterrupted run reaches —
/// no duplicate pages and no gaps.
pub proof fn lemma_resume_idempotence(
    ids: Seq<i64>,
    cursor: i64,
    responses: Seq<PageResponse>,
    j: int,
)
    requires
        0 <= j <= responses.len(),
    ensures
        ({
            let mid = run_from(ids, cursor, responses.take(j));
            run_from(mid.0, mid.1, responses.skip(j)) == run_from(ids, cursor, responses)
        }),
    decreases j,
{
    if j == 0 {
        assert(responses.take(0) =~= Seq::<PageResponse>::empty());
        assert(responses.skip(0) =~= responses);
    } else if cursor == 0 {
    } else {
        let first = responses[0];
        assert(responses.take(j)[0] == first);
        assert(responses.take(j).drop_first() =~= responses.drop_first().take(j - 1));
        assert(responses.skip(j) =~= responses.drop_first().skip(j - 1));
        lemma_resume_idempotence(
            ids + first.ids,
            first.next_cursor,
            responses.drop_first(),
            j - 1,
        );
    }
}

} // verus!
