//! Variations of a patch: which knobs a mutation leaves alone, and how two
//! parents are crossed.

use crate::genome::{Genome, N_PARAMS, PARAMS};
use crate::text::{chars_of, only, pieces, same_chars, split, string_of, trim, trimmed};
use vstd::prelude::*;

verus! {

/// The first knob at or after `k` that is called `name`.
pub open spec fn param_from(name: Seq<char>, k: int) -> Option<int>
    decreases N_PARAMS - k,
{
    if k < 0 || k >= N_PARAMS {
        None
    } else if PARAMS@[k].0@ == name {
        Some(k)
    } else {
        param_from(name, k + 1)
    }
}

/// The knobs that a list of names stands for, blank names left out; or the first
/// piece that is neither blank nor the name of a knob.
pub open spec fn locked(parts: Seq<Seq<char>>) -> Result<Seq<int>, Seq<char>>
    decreases parts.len(),
{
    if parts.len() == 0 {
        Ok(Seq::empty())
    } else {
        match locked(parts.drop_last()) {
            Err(e) => Err(e),
            Ok(v) => {
                let name = trimmed(parts.last());
                if name.len() == 0 {
                    Ok(v)
                } else {
                    match param_from(name, 0) {
                        Some(k) => Ok(v.push(k)),
                        None => Err(parts.last()),
                    }
                }
            },
        }
    }
}

fn param_of(name: &[char]) -> (r: Option<usize>)
    ensures
        match r {
            Some(k) => param_from(name@, 0) == Some(k as int) && k < N_PARAMS,
            None => param_from(name@, 0) is None,
        },
{
    let mut k: usize = 0;
    while k < N_PARAMS
        invariant
            k <= N_PARAMS,
            param_from(name@, 0) == param_from(name@, k as int),
        decreases N_PARAMS - k,
    {
        let table = chars_of(PARAMS[k].0);
        if same_chars(table.as_slice(), name) {
            return Some(k);
        }
        k = k + 1;
    }
    None
}

proof fn lemma_error_stays(parts: Seq<Seq<char>>, i: int)
    requires
        0 <= i <= parts.len(),
        locked(parts.take(i)) is Err,
    ensures
        locked(parts) == locked(parts.take(i)),
    decreases parts.len() - i,
{
    if i == parts.len() {
        assert(parts.take(i) =~= parts);
    } else {
        assert(parts.take(i + 1).drop_last() =~= parts.take(i));
        lemma_error_stays(parts, i + 1);
    }
}

/// The knobs that a comma-separated list of names freezes. An unknown name is
/// handed back as it stood between the commas.
pub fn lock_indices(lock: &str) -> (r: Result<Vec<usize>, String>)
    ensures
        match r {
            Ok(v) => {
                &&& locked(pieces(lock@, only(','))) == Ok::<Seq<int>, Seq<char>>(
                    v@.map_values(|i: usize| i as int),
                )
                &&& forall|i: int| 0 <= i < v@.len() ==> #[trigger] v@[i] < N_PARAMS
            },
            Err(s) => locked(pieces(lock@, only(','))) == Err::<Seq<int>, Seq<char>>(s@),
        },
{
    let all = chars_of(lock);
    let parts = split(all.as_slice(), ',');
    let ghost ps = pieces(lock@, only(','));
    let mut v: Vec<usize> = Vec::new();
    let mut i: usize = 0;
    assert(v@.map_values(|i: usize| i as int) =~= Seq::<int>::empty());
    while i < parts.len()
        invariant
            i <= parts@.len(),
            parts@.map_values(|v: Vec<char>| v@) == ps,
            ps == pieces(lock@, only(',')),
            locked(ps.take(i as int)) == Ok::<Seq<int>, Seq<char>>(
                v@.map_values(|i: usize| i as int),
            ),
            forall|i: int| 0 <= i < v@.len() ==> #[trigger] v@[i] < N_PARAMS,
        decreases parts@.len() - i,
    {
        assert(ps.take(i + 1).drop_last() =~= ps.take(i as int));
        assert(ps[i as int] == parts@[i as int]@);
        let name = trim(parts[i].as_slice());
        if name.len() > 0 {
            let ghost before = v@.map_values(|i: usize| i as int);
            match param_of(name) {
                Some(k) => {
                    v.push(k);
                    assert(v@.map_values(|i: usize| i as int) =~= before.push(k as int));
                },
                None => {
                    proof {
                        lemma_error_stays(ps, i + 1);
                    }
                    return Err(string_of(parts[i].as_slice()));
                },
            }
        }
        i = i + 1;
    }
    assert(ps.take(ps.len() as int) =~= ps);
    Ok(v)
}

/// The knob of that row has this name.
#[verifier::opaque]
pub open spec fn is_called(k: int, name: Seq<char>) -> bool {
    0 <= k < 16 && PARAMS@[k].0@ == name
}

/// What is locked is what is named: where a list is understood, every name in it is that of
/// a knob that is locked, and every knob that is locked is named.
pub proof fn law_what_is_locked_is_what_is_named(parts: Seq<Seq<char>>, v: Seq<int>)
    requires
        locked(parts) == Ok::<Seq<int>, Seq<char>>(v),
    ensures
        forall|j: int|
            0 <= j < v.len() ==> exists|i: int|
                0 <= i < parts.len() && is_called(#[trigger] v[j], trimmed(#[trigger] parts[i])),
        forall|i: int|
            0 <= i < parts.len() && trimmed(#[trigger] parts[i]).len() > 0 ==> exists|j: int|
                0 <= j < v.len() && is_called(#[trigger] v[j], trimmed(parts[i])),
    decreases parts.len(),
{
    if parts.len() > 0 {
        let front = parts.drop_last();
        let last = parts.len() - 1;
        let name = trimmed(parts.last());
        let u = locked(front)->Ok_0;
        law_what_is_locked_is_what_is_named(front, u);
        lemma_param_from(name, 0);
        assert forall|i: int| 0 <= i < last implies #[trigger] parts[i] == front[i] by {}
        assert forall|j: int| 0 <= j < u.len() implies #[trigger] v[j] == u[j] by {}
        assert forall|j: int| 0 <= j < v.len() implies exists|i: int|
            0 <= i < parts.len() && is_called(#[trigger] v[j], trimmed(#[trigger] parts[i])) by {
            if j < u.len() {
                assert(v[j] == u[j]);
                let i = choose|i: int|
                    0 <= i < front.len() && is_called(u[j], trimmed(#[trigger] front[i]));
                assert(parts[i] == front[i]);
            } else {
                assert(is_called(v[j], trimmed(parts[last])));
            }
        }
        assert forall|i: int|
            0 <= i < parts.len() && trimmed(#[trigger] parts[i]).len() > 0 implies exists|j: int|
            0 <= j < v.len() && is_called(#[trigger] v[j], trimmed(parts[i])) by {
            if i < last {
                assert(parts[i] == front[i]);
                let j = choose|j: int|
                    0 <= j < u.len() && is_called(#[trigger] u[j], trimmed(front[i]));
                assert(v[j] == u[j]);
            } else {
                assert(is_called(v[u.len() as int], trimmed(parts[i])));
            }
        }
    }
}

/// What is handed back is not understood: it is a piece of the list that is neither blank
/// nor the name of a knob, and every piece before it is one or the other.
pub proof fn law_what_is_handed_back_is_not_understood(parts: Seq<Seq<char>>, e: Seq<char>)
    requires
        locked(parts) == Err::<Seq<int>, Seq<char>>(e),
    ensures
        trimmed(e).len() > 0,
        forall|k: int| !#[trigger] is_called(k, trimmed(e)),
        exists|i: int|
            0 <= i < parts.len() && #[trigger] parts[i] == e && locked(parts.take(i)) is Ok,
    decreases parts.len(),
{
    if parts.len() > 0 {
        let front = parts.drop_last();
        let last = parts.len() - 1;
        assert(parts.take(last) =~= front);
        if locked(front) is Err {
            law_what_is_handed_back_is_not_understood(front, e);
            let i = choose|i: int|
                0 <= i < front.len() && #[trigger] front[i] == e && locked(front.take(i)) is Ok;
            assert(front.take(i) =~= parts.take(i));
            assert(parts[i] == e);
        } else {
            lemma_param_from(trimmed(parts.last()), 0);
            assert(parts[last] == e);
        }
    }
}

proof fn lemma_param_from(name: Seq<char>, k: int)
    requires
        0 <= k <= 16,
    ensures
        match param_from(name, k) {
            Some(i) => k <= i && is_called(i, name),
            None => forall|i: int| i < 0 || k <= i ==> !#[trigger] is_called(i, name),
        },
    decreases 16 - k,
{
    reveal(is_called);
    if k < 16 {
        lemma_param_from(name, k + 1);
    }
}

/// The knobs below `n` that are not in `lock`, from the lowest up.
pub open spec fn unlocked(lock: Seq<usize>, n: int) -> Seq<int>
    decreases n,
{
    if n <= 0 {
        Seq::empty()
    } else if lock.contains((n - 1) as usize) {
        unlocked(lock, n - 1)
    } else {
        unlocked(lock, n - 1).push(n - 1)
    }
}

fn holds(lock: &[usize], k: usize) -> (r: bool)
    ensures
        r == lock@.contains(k),
{
    let mut i: usize = 0;
    while i < lock.len()
        invariant
            i <= lock@.len(),
            forall|j: int| 0 <= j < i ==> lock@[j] != k,
        decreases lock@.len() - i,
    {
        if lock[i] == k {
            return true;
        }
        i = i + 1;
    }
    false
}

/// The knobs that a mutation turns, in the order in which it turns them: all
/// that are not locked.
pub fn free_params(lock: &[usize]) -> (r: Vec<usize>)
    ensures
        r@.map_values(|i: usize| i as int) == unlocked(lock@, N_PARAMS as int),
        forall|i: int| 0 <= i < r@.len() ==> #[trigger] r@[i] < N_PARAMS,
{
    let mut r: Vec<usize> = Vec::new();
    let mut k: usize = 0;
    assert(r@.map_values(|i: usize| i as int) =~= Seq::<int>::empty());
    while k < N_PARAMS
        invariant
            k <= N_PARAMS,
            r@.map_values(|i: usize| i as int) == unlocked(lock@, k as int),
            forall|i: int| 0 <= i < r@.len() ==> #[trigger] r@[i] < N_PARAMS,
        decreases N_PARAMS - k,
    {
        if !holds(lock, k) {
            let ghost before = r@.map_values(|i: usize| i as int);
            r.push(k);
            assert(r@.map_values(|i: usize| i as int) =~= before.push(k as int));
        }
        k = k + 1;
    }
    r
}

/// A knob is turned if and only if it is not locked.
pub proof fn law_locked_knobs_are_left_alone(lock: Seq<usize>, n: int, k: int)
    requires
        0 <= k < n <= N_PARAMS,
    ensures
        unlocked(lock, n).contains(k) <==> !lock.contains(k as usize),
    decreases n,
{
    let rest = unlocked(lock, n - 1);
    lemma_unlocked_bound(lock, n - 1);
    if !lock.contains((n - 1) as usize) {
        let r = rest.push(n - 1);
        assert(r[rest.len() as int] == n - 1);
        if k < n - 1 {
            law_locked_knobs_are_left_alone(lock, n - 1, k);
            if rest.contains(k) {
                let j = choose|j: int| 0 <= j < rest.len() && rest[j] == k;
                assert(r[j] == k);
            }
            if r.contains(k) {
                let j = choose|j: int| 0 <= j < r.len() && r[j] == k;
                assert(rest[j] == k);
            }
        }
    } else if k < n - 1 {
        law_locked_knobs_are_left_alone(lock, n - 1, k);
    }
}

proof fn lemma_unlocked_bound(lock: Seq<usize>, n: int)
    ensures
        forall|i: int| 0 <= i < unlocked(lock, n).len() ==> 0 <= #[trigger] unlocked(lock, n)[i] < n,
    decreases n,
{
    if n > 0 {
        lemma_unlocked_bound(lock, n - 1);
        let rest = unlocked(lock, n - 1);
        assert forall|i: int| 0 <= i < unlocked(lock, n).len() implies 0 <= #[trigger] unlocked(
            lock,
            n,
        )[i] < n by {
            if i < rest.len() {
                assert(unlocked(lock, n)[i] == rest[i]);
            }
        }
    }
}

/// Knobs are turned once each, from the lowest to the highest.
pub proof fn law_knobs_are_turned_once(lock: Seq<usize>, n: int, i: int, j: int)
    requires
        0 <= i < j < unlocked(lock, n).len(),
    ensures
        0 <= unlocked(lock, n)[i] < unlocked(lock, n)[j] < n,
    decreases n,
{
    lemma_unlocked_bound(lock, n);
    if n > 0 {
        let rest = unlocked(lock, n - 1);
        lemma_unlocked_bound(lock, n - 1);
        if j < rest.len() {
            law_knobs_are_turned_once(lock, n - 1, i, j);
        } else {
            assert(unlocked(lock, n)[i] == rest[i]);
        }
    }
}

/// Uniform crossover: each knob from the first parent where the coin says so,
/// else from the second.
pub fn crossover<T: Copy>(a: &Genome<T>, b: &Genome<T>, coins: &[bool; 16]) -> (r: Genome<T>)
    ensures
        forall|i: int|
            0 <= i < N_PARAMS ==> #[trigger] r@[i] == (if coins@[i] {
                a@[i]
            } else {
                b@[i]
            }),
{
    let mut r: Genome<T> = *a;
    let mut i: usize = 0;
    while i < N_PARAMS
        invariant
            i <= N_PARAMS,
            forall|k: int|
                0 <= k < i ==> #[trigger] r@[k] == (if coins@[k] {
                    a@[k]
                } else {
                    b@[k]
                }),
            forall|k: int| i <= k < N_PARAMS ==> #[trigger] r@[k] == a@[k],
        decreases N_PARAMS - i,
    {
        if !coins[i] {
            r[i] = b[i];
        }
        i = i + 1;
    }
    r
}

} // verus!
