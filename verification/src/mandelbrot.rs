//! The escape-time iteration.
//!
//! A point `c` of the plane is followed along its orbit `z0, z1, z2, ..`,
//! where `z0` is the origin and each `z` gives the next by the fractal's
//! recurrence (`z * z + c` for the Mandelbrot set, `z * z * z + c` for its
//! cubic cousin). The escape time of `c` is the index of the first `z` that
//! has left the disc in which the set lies.
//!
//! The number type `Z`, the recurrence and the test for having left the disc
//! are the caller's. What they promise of their results is all that is known
//! of them here, so an orbit is any sequence that those promises admit.

use vstd::prelude::*;

verus! {

/// `orbit` starts at `origin`, and each of its points gives the next by
/// `recur`.
pub open spec fn is_orbit<Z, R: Fn(Z, Z) -> Z>(orbit: Seq<Z>, c: Z, origin: Z, recur: R) -> bool {
    &&& orbit.len() >= 1
    &&& orbit[0] == origin
    &&& forall|i: int|
        0 <= i < orbit.len() - 1 ==> recur.ensures((#[trigger] orbit[i], c), orbit[i + 1])
}

/// None of the first `n` points of `orbit` has diverged.
pub open spec fn bounded_before<Z, D: Fn(Z) -> bool>(orbit: Seq<Z>, n: int, diverged: D) -> bool {
    forall|i: int| 0 <= i < n ==> diverged.ensures((#[trigger] orbit[i],), false)
}

/// `orbit` is an orbit of `c` that justifies `result` as the escape time of
/// `c` within `limit` iterations.
///
/// For `Some(k)`: `k` is below `limit`, the orbit runs from `z0` to `zk`,
/// `zk` has diverged and none before it has. For `None`: the orbit runs from
/// `z0` to `z_limit`, and none of its first `limit` points has diverged.
pub open spec fn escape_run<Z, D: Fn(Z) -> bool, R: Fn(Z, Z) -> Z>(
    orbit: Seq<Z>,
    c: Z,
    limit: usize,
    origin: Z,
    diverged: D,
    recur: R,
    result: Option<usize>,
) -> bool {
    &&& is_orbit(orbit, c, origin, recur)
    &&& match result {
        Some(k) => {
            &&& k < limit
            &&& orbit.len() == k + 1
            &&& bounded_before(orbit, k as int, diverged)
            &&& diverged.ensures((orbit[k as int],), true)
        },
        None => {
            &&& orbit.len() == limit + 1
            &&& bounded_before(orbit, limit as int, diverged)
        },
    }
}

/// The orbit of `c` can be followed: the origin may be put to `diverged`, a
/// point that has not diverged may be handed to `recur`, and what `recur`
/// gives may be put to `diverged` in its turn.
pub open spec fn can_follow<Z, D: Fn(Z) -> bool, R: Fn(Z, Z) -> Z>(
    c: Z,
    origin: Z,
    diverged: D,
    recur: R,
) -> bool {
    &&& diverged.requires((origin,))
    &&& forall|z: Z| #[trigger] diverged.ensures((z,), false) ==> recur.requires((z, c))
    &&& forall|z: Z, next: Z| #[trigger] recur.ensures((z, c), next) ==> diverged.requires((next,))
}

/// The escape time of `c`: the index of the first point of its orbit that
/// has diverged, if there is one among the first `limit` points.
///
/// The orbit starts at `origin`. Before each of at most `limit` steps the
/// current point is put to `diverged`; if it has, its index is the result,
/// and otherwise `recur(z, c)` gives the next point. `None` says that `limit`
/// points were tried and none had diverged.
pub fn escape_time<Z: Copy, D: Fn(Z) -> bool, R: Fn(Z, Z) -> Z>(
    c: Z,
    limit: usize,
    origin: Z,
    diverged: D,
    recur: R,
) -> (result: Option<usize>)
    requires
        can_follow(c, origin, diverged, recur),
    ensures
        exists|orbit: Seq<Z>| escape_run(orbit, c, limit, origin, diverged, recur, result),
{
    let mut z = origin;
    let ghost mut orbit: Seq<Z> = seq![origin];
    for i in 0..limit
        invariant
            can_follow(c, origin, diverged, recur),
            diverged.requires((z,)),
            is_orbit(orbit, c, origin, recur),
            orbit.len() == i + 1,
            orbit[i as int] == z,
            bounded_before(orbit, i as int, diverged),
    {
        if diverged(z) {
            assert(escape_run(orbit, c, limit, origin, diverged, recur, Some(i)));
            return Some(i);
        }
        let next = recur(z, c);
        proof {
            let longer = orbit.push(next);
            assert forall|j: int| 0 <= j < longer.len() - 1 implies recur.ensures(
                (#[trigger] longer[j], c),
                longer[j + 1],
            ) by {
                if j < orbit.len() - 1 {
                    assert(longer[j] == orbit[j]);
                    assert(longer[j + 1] == orbit[j + 1]);
                }
            }
            assert forall|j: int| 0 <= j < i + 1 implies diverged.ensures(
                (#[trigger] longer[j],),
                false,
            ) by {
                assert(longer[j] == orbit[j]);
            }
            orbit = longer;
        }
        z = next;
    }
    assert(escape_run(orbit, c, limit, origin, diverged, recur, None));
    None
}

/// `diverged` and `recur` promise at most one result for each argument.
pub open spec fn is_deterministic<Z, D: Fn(Z) -> bool, R: Fn(Z, Z) -> Z>(
    c: Z,
    diverged: D,
    recur: R,
) -> bool {
    &&& forall|z: Z, a: bool, b: bool|
        #[trigger] diverged.ensures((z,), a) && #[trigger] diverged.ensures((z,), b) ==> a == b
    &&& forall|z: Z, a: Z, b: Z|
        #[trigger] recur.ensures((z, c), a) && #[trigger] recur.ensures((z, c), b) ==> a == b
}

/// Two orbits of one point agree as far as both run, when the recurrence is
/// deterministic.
proof fn lemma_orbits_agree<Z, D: Fn(Z) -> bool, R: Fn(Z, Z) -> Z>(
    first: Seq<Z>,
    second: Seq<Z>,
    c: Z,
    origin: Z,
    diverged: D,
    recur: R,
    i: int,
)
    requires
        is_orbit(first, c, origin, recur),
        is_orbit(second, c, origin, recur),
        is_deterministic(c, diverged, recur),
        0 <= i < first.len(),
        i < second.len(),
    ensures
        first[i] == second[i],
    decreases i,
{
    if i > 0 {
        lemma_orbits_agree(first, second, c, origin, diverged, recur, i - 1);
        assert(recur.ensures((first[i - 1], c), first[i - 1 + 1]));
        assert(recur.ensures((second[i - 1], c), second[i - 1 + 1]));
    }
}

/// The escape time is a function of its inputs: when the recurrence and the
/// divergence test are deterministic, any two runs from the same inputs give
/// the same result.
pub proof fn lemma_escape_time_deterministic<Z, D: Fn(Z) -> bool, R: Fn(Z, Z) -> Z>(
    first_orbit: Seq<Z>,
    first: Option<usize>,
    second_orbit: Seq<Z>,
    second: Option<usize>,
    c: Z,
    limit: usize,
    origin: Z,
    diverged: D,
    recur: R,
)
    requires
        is_deterministic(c, diverged, recur),
        escape_run(first_orbit, c, limit, origin, diverged, recur, first),
        escape_run(second_orbit, c, limit, origin, diverged, recur, second),
    ensures
        first == second,
{
    let k1: int = match first {
        Some(k) => k as int,
        None => limit as int,
    };
    let k2: int = match second {
        Some(k) => k as int,
        None => limit as int,
    };
    if k1 < k2 {
        // The first run stopped at a point that the second run passed.
        lemma_orbits_agree(first_orbit, second_orbit, c, origin, diverged, recur, k1);
        assert(diverged.ensures((second_orbit[k1],), false));
        assert(diverged.ensures((first_orbit[k1],), true));
    } else if k2 < k1 {
        lemma_orbits_agree(first_orbit, second_orbit, c, origin, diverged, recur, k2);
        assert(diverged.ensures((first_orbit[k2],), false));
        assert(diverged.ensures((second_orbit[k2],), true));
    } else if first.is_some() != second.is_some() {
        // One run stopped at index `limit`, which no run reaches.
        assert(false);
    }
}

/// The origin is tested before the first step is taken. So a point whose
/// first iterate has diverged, while the origin has not, has escape time 1
/// and not 0, and needs a limit of at least 2 to be seen to escape.
pub proof fn lemma_escape_after_first_step<Z, D: Fn(Z) -> bool, R: Fn(Z, Z) -> Z>(
    orbit: Seq<Z>,
    result: Option<usize>,
    c: Z,
    limit: usize,
    origin: Z,
    diverged: D,
    recur: R,
)
    requires
        is_deterministic(c, diverged, recur),
        escape_run(orbit, c, limit, origin, diverged, recur, result),
        diverged.ensures((origin,), false),
        forall|z: Z| recur.ensures((origin, c), z) ==> diverged.ensures((z,), true),
    ensures
        limit >= 2 ==> result == Some(1usize),
        limit < 2 ==> result.is_none(),
{
    match result {
        Some(k) => {
            if k == 0 {
                assert(diverged.ensures((orbit[0],), true));
            } else if k > 1 {
                assert(recur.ensures((orbit[0], c), orbit[1]));
                assert(diverged.ensures((orbit[1],), false));
            }
        },
        None => {
            if limit >= 2 {
                assert(recur.ensures((orbit[0], c), orbit[1]));
                assert(diverged.ensures((orbit[1],), false));
            }
        },
    }
}

} // verus!
