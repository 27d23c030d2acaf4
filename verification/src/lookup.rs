//! Profile batch lookup: splitting a worklist of ids into bounded batches
//! under a hard ceiling on the number of lookup calls one invocation may
//! issue.

use vstd::prelude::*;

use crate::model::User;

verus! {

/// Up to 100 ids go into one lookup call: the most the endpoint accepts.
pub const BATCH_SIZE: usize = 100;

/// How many items `pop_n` removes: everything when `n` is zero (the loop
/// below only stops on an empty vector or a full result), otherwise at most
/// `n`.
pub open spec fn spec_pop_count(len: nat, n: nat) -> nat {
    if n == 0 {
        len
    } else if n <= len {
        n
    } else {
        len
    }
}

/// Removes up to `n` items from the end of `v` and returns them, last item
/// of `v` first.
pub fn pop_n<T>(v: &mut Vec<T>, n: usize) -> (r: Vec<T>)
    ensures
        ({
            let k = spec_pop_count(old(v)@.len(), n as nat) as int;
            &&& r@ == old(v)@.skip(old(v)@.len() - k).reverse()
            &&& final(v)@ == old(v)@.take(old(v)@.len() - k)
        }),
{
    let mut r: Vec<T> = Vec::new();
    loop
        invariant_except_break
            n > 0 ==> r@.len() < n,
        invariant
            v@ == old(v)@.take(v@.len() as int),
            r@ == old(v)@.skip(v@.len() as int).reverse(),
            r@.len() == old(v)@.len() - v@.len(),
        ensures
            n > 0 ==> r@.len() <= n,
            v@ == old(v)@.take(v@.len() as int),
            r@ == old(v)@.skip(v@.len() as int).reverse(),
            r@.len() == old(v)@.len() - v@.len(),
            v@.len() == 0 || (n > 0 && r@.len() == n),
        decreases v@.len(),
    {
        let ghost m = v@.len() as int;
        match v.pop() {
            None => {
                break;
            },
            Some(item) => {
                proof {
                    assert(v@ =~= old(v)@.take(m - 1));
                    assert(old(v)@.skip(m - 1).reverse() =~= old(v)@.skip(m).reverse().push(
                        old(v)@[m - 1],
                    ));
                }
                r.push(item);
                if r.len() == n {
                    break;
                }
            },
        }
    }
    proof {
        let k = spec_pop_count(old(v)@.len(), n as nat) as int;
        assert(r@.len() == k);
    }
    r
}

/// The state of one bounded lookup invocation: the ids still to resolve, the
/// profiles fetched so far, and how many lookup calls were already issued
/// out of the allowed ceiling.
pub struct BatchLookup {
    pub pending: Vec<i64>,
    pub users: Vec<User>,
    pub batches_issued: usize,
    pub max_batches: usize,
}

impl BatchLookup {
    /// The call counter never passes the ceiling.
    pub open spec fn wf(&self) -> bool {
        self.batches_issued <= self.max_batches
    }

    /// Starts a lookup invocation over `ids` with a hard ceiling of
    /// `max_batches` lookup calls.
    pub fn new(ids: Vec<i64>, max_batches: usize) -> (r: Self)
        ensures
            r.pending@ == ids@,
            r.users@ == Seq::<User>::empty(),
            r.batches_issued == 0,
            r.max_batches == max_batches,
            r.wf(),
    {
        BatchLookup { pending: ids, users: Vec::new(), batches_issued: 0, max_batches }
    }

    /// The invocation stops once the worklist is drained or the ceiling is
    /// reached.
    pub open spec fn spec_finished(&self) -> bool {
        self.pending@.len() == 0 || self.batches_issued >= self.max_batches
    }

    /// Takes the next batch off the worklist: up to 100 ids from the end of
    /// the remaining input, most recent first. Returns `None` exactly when
    /// the invocation is finished. A batch is taken even if every session
    /// then turns out to be exhausted for it: such an attempt is skipped,
    /// never retried within the same invocation.
    pub fn next_batch(&mut self) -> (r: Option<Vec<i64>>)
        requires
            old(self).wf(),
        ensures
            final(self).wf(),
            final(self).users@ == old(self).users@,
            final(self).batches_issued == old(self).batches_issued,
            final(self).max_batches == old(self).max_batches,
            match r {
                Some(batch) => {
                    let len = old(self).pending@.len() as int;
                    let k = if len <= 100 { len } else { 100int };
                    &&& !old(self).spec_finished()
                    &&& 1 <= batch@.len() <= 100
                    &&& batch@ == old(self).pending@.skip(len - k).reverse()
                    &&& final(self).pending@ == old(self).pending@.take(len - k)
                },
                None => {
                    &&& old(self).spec_finished()
                    &&& final(self).pending@ == old(self).pending@
                },
            },
    {
        if self.pending.len() == 0 || self.batches_issued >= self.max_batches {
            return None;
        }
        let batch = pop_n(&mut self.pending, BATCH_SIZE);
        Some(batch)
    }

    /// Records the outcome of one issued lookup call: appends the fetched
    /// profiles and counts the call against the ceiling.
    pub fn record_batch(&mut self, fetched: Vec<User>)
        requires
            old(self).batches_issued < old(self).max_batches,
        ensures
            final(self).wf(),
            final(self).users@ == old(self).users@ + fetched@,
            final(self).batches_issued == old(self).batches_issued + 1,
            final(self).max_batches == old(self).max_batches,
            final(self).pending@ == old(self).pending@,
    {
        let mut incoming = fetched;
        self.users.append(&mut incoming);
        self.batches_issued = self.batches_issued + 1;
    }

    /// Hands the fetched profiles out, consuming the invocation state.
    pub fn into_users(self) -> (r: Vec<User>)
        ensures
            r@ == self.users@,
    {
        self.users
    }
}

} // verus!
