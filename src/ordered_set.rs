//! What the trees of unique values (`Javlt`, `Jbst`, `BinTree`) do to their
//! values, stated on the ascending sequence of the values they hold, and the
//! laws that follow for any run of insertions and deletions.
use vstd::prelude::*;

use crate::errors::TreeError;
use crate::order::{is_ascending, lemma_ascending_no_duplicates, TreeValue};

verus! {

/// What `add` leaves: the value is inserted when it was absent, otherwise the
/// call is refused with `ValueAlreadyStored` and nothing changes.
pub open spec fn add_result<T: TreeValue>(
    before: Seq<T>,
    value: T,
    r: Result<(), TreeError>,
    after: Seq<T>,
) -> bool {
    &&& is_ascending(after)
    &&& match r {
        Ok(()) => {
            &&& !before.contains(value)
            &&& forall|x: T| #[trigger] after.contains(x) <==> (before.contains(x) || x == value)
            &&& after.len() == before.len() + 1
        },
        Err(e) => {
            &&& e == TreeError::ValueAlreadyStored
            &&& before.contains(value)
            &&& after == before
        },
    }
}

/// What `drop_value` leaves: the value is removed when it was present,
/// otherwise the call fails with `ValueNotFound` and nothing changes.
pub open spec fn drop_result<T: TreeValue>(
    before: Seq<T>,
    value: T,
    r: Result<(), TreeError>,
    after: Seq<T>,
) -> bool {
    &&& is_ascending(after)
    &&& match r {
        Ok(()) => {
            &&& before.contains(value)
            &&& forall|x: T| #[trigger] after.contains(x) <==> (before.contains(x) && x != value)
            &&& after.len() + 1 == before.len()
        },
        Err(e) => {
            &&& e == TreeError::ValueNotFound
            &&& !before.contains(value)
            &&& after == before
        },
    }
}

/// A tree whose values all come from `pool`, which holds at most `u32::MAX`
/// distinct values, has room for one more value of `pool` that it lacks.
pub proof fn lemma_room_for<T: TreeValue>(s: Seq<T>, pool: Seq<T>, value: T)
    requires
        is_ascending(s),
        pool.to_set().len() <= u32::MAX,
        forall|x: T| #[trigger] s.contains(x) ==> pool.contains(x),
        pool.contains(value),
        !s.contains(value),
    ensures
        s.len() < u32::MAX,
{
    broadcast use vstd::seq_lib::seq_to_set_is_finite;

    lemma_ascending_no_duplicates(s);
    s.unique_seq_to_set();
    let a = s.to_set().insert(value);
    assert(a.subset_of(pool.to_set()));
    vstd::set_lib::lemma_len_subset(a, pool.to_set());
}

/// One change made to a tree.
pub enum Change<T> {
    Add(T),
    Drop(T),
}

/// What one change leaves.
pub open spec fn change_result<T: TreeValue>(
    before: Seq<T>,
    c: Change<T>,
    r: Result<(), TreeError>,
    after: Seq<T>,
) -> bool {
    match c {
        Change::Add(v) => add_result(before, v, r, after),
        Change::Drop(v) => drop_result(before, v, r, after),
    }
}

/// `states` are the values of a tree before and after each of `changes`,
/// which returned `results`.
pub open spec fn is_run<T: TreeValue>(
    states: Seq<Seq<T>>,
    changes: Seq<Change<T>>,
    results: Seq<Result<(), TreeError>>,
) -> bool {
    &&& states.len() == changes.len() + 1
    &&& results.len() == changes.len()
    &&& forall|i: int|
        0 <= i < changes.len() ==> #[trigger] change_result(
            states[i],
            changes[i],
            results[i],
            states[i + 1],
        )
}

/// `v` was added and not dropped since: the last change that names `v` adds it.
pub open spec fn held_after<T>(changes: Seq<Change<T>>, v: T) -> bool
    decreases changes.len(),
{
    if changes.len() == 0 {
        false
    } else {
        match changes.last() {
            Change::Add(x) if x == v => true,
            Change::Drop(x) if x == v => false,
            _ => held_after(changes.drop_last(), v),
        }
    }
}

/// Successful insertions minus successful deletions.
pub open spec fn net_count<T>(changes: Seq<Change<T>>, results: Seq<Result<(), TreeError>>) -> int
    decreases changes.len(),
{
    if changes.len() == 0 || results.len() == 0 {
        0
    } else {
        net_count(changes.drop_last(), results.drop_last()) + match (
            changes.last(),
            results.last(),
        ) {
            (Change::Add(_), Ok(())) => 1int,
            (Change::Drop(_), Ok(())) => -1int,
            _ => 0int,
        }
    }
}

/// Round-trip membership and size: after any run of insertions and deletions
/// that starts from an empty tree, the tree holds exactly the values that were
/// added and not dropped since, in ascending order, and its size is the number
/// of successful insertions minus the number of successful deletions.
pub proof fn lemma_run_from_empty<T: TreeValue>(
    states: Seq<Seq<T>>,
    changes: Seq<Change<T>>,
    results: Seq<Result<(), TreeError>>,
)
    requires
        is_run(states, changes, results),
        states[0].len() == 0,
    ensures
        forall|v: T| #[trigger] states.last().contains(v) <==> held_after(changes, v),
        states.last().len() == net_count(changes, results),
        changes.len() > 0 ==> is_ascending(states.last()),
    decreases changes.len(),
{
    if changes.len() > 0 {
        let n = changes.len() - 1;
        let before = states[n];
        let after = states.last();
        assert(change_result(states[n], changes[n], results[n], states[n + 1]));
        lemma_run_from_empty(states.drop_last(), changes.drop_last(), results.drop_last());
        assert forall|v: T| #[trigger] after.contains(v) <==> held_after(changes, v) by {
            assert(before.contains(v) <==> held_after(changes.drop_last(), v));
        }
    }
}

/// Duplicate rejection: adding a value twice in a row succeeds at most once
/// (exactly when the value was absent), the second call is always refused with
/// `ValueAlreadyStored` and changes nothing, and the size grows by one exactly
/// when the first call succeeded.
pub proof fn lemma_add_twice<T: TreeValue>(
    s0: Seq<T>,
    v: T,
    r1: Result<(), TreeError>,
    s1: Seq<T>,
    r2: Result<(), TreeError>,
    s2: Seq<T>,
)
    requires
        add_result(s0, v, r1, s1),
        add_result(s1, v, r2, s2),
    ensures
        r1 is Ok <==> !s0.contains(v),
        r2 == Err::<(), TreeError>(TreeError::ValueAlreadyStored),
        s2 == s1,
        s2.len() == s0.len() + (if r1 is Ok {
            1int
        } else {
            0int
        }),
{
    if r1 is Ok {
        assert(s1.contains(v));
    }
}

/// Deleting an absent value, from an empty tree or any other, fails with
/// `ValueNotFound` and leaves the values and the size as they were.
pub proof fn lemma_drop_absent<T: TreeValue>(s0: Seq<T>, v: T, r: Result<(), TreeError>, s1: Seq<T>)
    requires
        drop_result(s0, v, r, s1),
        !s0.contains(v),
    ensures
        r == Err::<(), TreeError>(TreeError::ValueNotFound),
        s1 == s0,
        s1.len() == s0.len(),
{
}

} // verus!
