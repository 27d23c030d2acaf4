//! Set-difference reporting: which ids of one checkpointed collection are
//! absent from another, most recently appended first, and which looked-up
//! profiles are worth listing.

use vstd::prelude::*;

use std::collections::HashSet;

use crate::fetcher::IdCollection;
use crate::model::User;

verus! {

broadcast use vstd::std_specs::hash::group_hash_axioms;

/// Membership test used to exclude ids: keep an id exactly when `b` does not
/// contain it.
pub open spec fn excluded_from(b: Seq<i64>) -> spec_fn(i64) -> bool {
    |x: i64| !b.contains(x)
}

/// The report order: iterate `a` most-recently-appended first (reverse of
/// append order) and keep the ids absent from `b`.
pub open spec fn spec_sub_set(a: Seq<i64>, b: Seq<i64>) -> Seq<i64> {
    a.reverse().filter(excluded_from(b))
}

/// Asymmetric difference of two checkpointed collections: the ids of `ids`
/// that `already` does not hold, yielded in reverse append order so the most
/// recently collected edges come first. `already` is materialized into a
/// hash set for constant-time exclusion tests.
pub fn sub_set(ids: &IdCollection, already: &IdCollection) -> (r: Vec<i64>)
    ensures
        r@ == spec_sub_set(ids.ids@, already.ids@),
{
    let b = &already.ids;
    let mut member: HashSet<i64> = HashSet::new();
    let mut k: usize = 0;
    while k < b.len()
        invariant
            k <= b@.len(),
            forall|x: i64| #[trigger] member@.contains(x) <==> b@.take(k as int).contains(x),
        decreases b@.len() - k,
    {
        let ghost prefix = b@.take(k as int);
        member.insert(b[k]);
        proof {
            assert forall|x: i64| #[trigger]
                b@.take(k + 1int).contains(x) <==> prefix.contains(x) || x == b@[k as int] by {
                assert(b@.take(k + 1int).drop_last() =~= prefix);
                if prefix.contains(x) || x == b@[k as int] {
                    if x == b@[k as int] {
                        assert(b@.take(k + 1int)[k as int] == x);
                    } else {
                        let i = choose|i: int| 0 <= i < prefix.len() && prefix[i] == x;
                        assert(b@.take(k + 1int)[i] == x);
                    }
                }
            }
        }
        k = k + 1;
    }
    assert(b@.take(b@.len() as int) =~= b@);

    let a = &ids.ids;
    let mut r: Vec<i64> = Vec::new();
    let mut j: usize = a.len();
    while j > 0
        invariant
            j <= a@.len(),
            forall|x: i64| #[trigger] member@.contains(x) <==> b@.contains(x),
            r@ == a@.skip(j as int).reverse().filter(excluded_from(b@)),
        decreases j,
    {
        let ghost before = a@.skip(j as int).reverse();
        j = j - 1;
        let x = a[j];
        proof {
            assert(a@.skip(j as int).reverse() =~= before.push(x));
            assert(before.push(x).drop_last() =~= before);
            reveal(Seq::filter);
        }
        if !member.contains(&x) {
            r.push(x);
        }
    }
    assert(a@.skip(0) =~= a@);
    r
}

/// Profiles worth listing in the follow report: public accounts with more
/// than five statuses.
pub open spec fn spec_followable(u: User) -> bool {
    !u.protected && u.statuses_count > 5
}

/// Keeps, in order, the profiles worth listing in the follow report.
pub fn filter_followable(users: Vec<User>) -> (r: Vec<User>)
    ensures
        r@ == users@.filter(|u: User| spec_followable(u)),
{
    let ghost all = users@;
    let mut rest = users;
    let mut stack: Vec<User> = Vec::new();
    while rest.len() > 0
        invariant
            rest@.len() <= all.len(),
            rest@ =~= all.take(rest@.len() as int),
            stack@ =~= all.skip(rest@.len() as int).reverse(),
        decreases rest@.len(),
    {
        let ghost n = rest@.len() as int;
        let u = rest.pop().unwrap();
        proof {
            assert(rest@ =~= all.take(n - 1));
            assert(u == all[n - 1]);
            assert(all.skip(n - 1).reverse() =~= all.skip(n).reverse().push(all[n - 1]));
        }
        stack.push(u);
    }

    let mut r: Vec<User> = Vec::new();
    while stack.len() > 0
        invariant
            stack@.len() <= all.len(),
            stack@ =~= all.skip(all.len() as int - stack@.len() as int).reverse(),
            r@ =~= all.take(all.len() as int - stack@.len() as int).filter(
                |u: User| spec_followable(u),
            ),
        decreases stack@.len(),
    {
        let ghost m = all.len() as int - stack@.len() as int;
        let u = stack.pop().unwrap();
        proof {
            assert(all.skip(m).reverse()[all.len() - m - 1] == all[m]);
            assert(u == all[m]);
            assert(stack@ =~= all.skip(m + 1).reverse());
            assert(all.take(m + 1).drop_last() =~= all.take(m));
            assert(all.take(m + 1).last() == all[m]);
            reveal(Seq::filter);
        }
        if !u.protected && u.statuses_count > 5 {
            r.push(u);
        }
    }
    assert(all.take(all.len() as int) =~= all);
    r
}

} // verus!
