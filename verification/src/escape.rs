//! The escape-time evaluator.
//!
//! A point `c` of the plane is judged by the recurrence `z <- step(z, c)`,
//! started at a seed. The evaluator counts how many times the recurrence can
//! be applied before an iterate is found to have left the bounded region.
//!
//! The number system is the caller's: the evaluator is handed the seed, the
//! bound test and the recurrence. Its contract speaks of the two functions
//! through what they are known to return, so it holds for every choice of
//! them; for the Mandelbrot set the seed is zero, the test is `|z| > 2` and
//! the recurrence is `z * z + c`.

use vstd::prelude::*;

verus! {

/// Iterate number `k` of `orbit` is what `step` gave for the one before it.
pub open spec fn follows<Z, S: Fn(Z, Z) -> Z>(orbit: Seq<Z>, c: Z, step: S, k: int) -> bool {
    call_ensures(step, (orbit[k - 1], c), orbit[k])
}

/// `orbit` is a run of the recurrence for the point `c`: it begins with `seed`
/// and each later iterate follows from the one before it.
pub open spec fn is_orbit<Z, S: Fn(Z, Z) -> Z>(orbit: Seq<Z>, c: Z, seed: Z, step: S) -> bool {
    &&& orbit.len() >= 1
    &&& orbit[0] == seed
    &&& forall|k: int| 1 <= k < orbit.len() ==> #[trigger] follows(orbit, c, step, k)
}

/// Along `orbit`, the bound test fails for the first time at iterate number
/// `count`, or never within the budget, in which case `count` is the budget.
pub open spec fn escapes_at<Z, D: Fn(Z) -> bool>(
    orbit: Seq<Z>,
    diverged: D,
    budget: u32,
    count: u32,
) -> bool {
    &&& count <= budget
    &&& orbit.len() == count + 1
    &&& forall|k: int| 0 <= k < count ==> call_ensures(diverged, (#[trigger] orbit[k],), false)
    &&& count < budget ==> call_ensures(diverged, (orbit[count as int],), true)
}

/// `count` is an escape count of `c` under `budget`: some orbit of `c` from
/// `seed` escapes at `count`.
pub open spec fn is_escape_count<Z, D: Fn(Z) -> bool, S: Fn(Z, Z) -> Z>(
    c: Z,
    budget: u32,
    seed: Z,
    diverged: D,
    step: S,
    count: u32,
) -> bool {
    exists|orbit: Seq<Z>| #[trigger]
        is_orbit(orbit, c, seed, step) && escapes_at(orbit, diverged, budget, count)
}

/// Counts the applications of the recurrence for `c` that happen while the
/// iterate is still bounded, up to `num_iterations` of them.
///
/// The bound is tested before each application, the first included, so a seed
/// that is already out of bounds counts zero. A result equal to
/// `num_iterations` means that no test within the budget failed.
pub fn mandelbrot<Z: Copy, D: Fn(Z) -> bool, S: Fn(Z, Z) -> Z>(
    c: Z,
    num_iterations: u32,
    seed: Z,
    diverged: &D,
    step: &S,
) -> (diverge_count: u32)
    requires
        forall|z: Z| call_requires(*diverged, (z,)),
        forall|z: Z, p: Z| call_requires(*step, (z, p)),
    ensures
        diverge_count <= num_iterations,
        is_escape_count(c, num_iterations, seed, *diverged, *step, diverge_count),
{
    let mut diverge_count: u32 = 0;
    let mut z = seed;
    let ghost mut orbit: Seq<Z> = seq![seed];
    while diverge_count < num_iterations
        invariant
            forall|z: Z| call_requires(*diverged, (z,)),
            forall|z: Z, p: Z| call_requires(*step, (z, p)),
            diverge_count <= num_iterations,
            orbit.len() == diverge_count + 1,
            orbit[diverge_count as int] == z,
            is_orbit(orbit, c, seed, *step),
            forall|k: int|
                0 <= k < diverge_count ==> call_ensures(*diverged, (#[trigger] orbit[k],), false),
        decreases num_iterations - diverge_count,
    {
        if diverged(z) {
            assert(escapes_at(orbit, *diverged, num_iterations, diverge_count));
            return diverge_count;
        }
        let ghost before = orbit;
        z = step(z, c);
        diverge_count += 1;
        proof {
            orbit = before.push(z);
            assert forall|k: int| 1 <= k < orbit.len() implies #[trigger] follows(
                orbit,
                c,
                *step,
                k,
            ) by {
                if k < before.len() {
                    assert(follows(before, c, *step, k));
                }
            }
        }
    }
    assert(escapes_at(orbit, *diverged, num_iterations, diverge_count));
    diverge_count
}

/// The escape time of the point `c` from the iterate `z` under the recurrence
/// `z <- f(z, c)` with the bound test `out`: the number of applications made
/// before an iterate fails the test, or `budget` if none of the first
/// `budget` iterates does.
pub open spec fn escape_time<Z>(
    out: spec_fn(Z) -> bool,
    f: spec_fn(Z, Z) -> Z,
    c: Z,
    z: Z,
    budget: nat,
) -> nat
    decreases budget,
{
    if budget == 0 || out(z) {
        0
    } else {
        1 + escape_time(out, f, c, f(z, c), (budget - 1) as nat)
    }
}

/// A count below the budget is the exact index of the iterate that failed the
/// test, whatever the budget: a smaller budget only cuts the escape time
/// short.
pub proof fn lemma_escape_time_truncates<Z>(
    out: spec_fn(Z) -> bool,
    f: spec_fn(Z, Z) -> Z,
    c: Z,
    z: Z,
    small: nat,
    large: nat,
)
    requires
        small <= large,
    ensures
        escape_time(out, f, c, z, small) == if escape_time(out, f, c, z, large) < small {
            escape_time(out, f, c, z, large)
        } else {
            small
        },
    decreases small,
{
    if small > 0 && !out(z) {
        lemma_escape_time_truncates(out, f, c, f(z, c), (small - 1) as nat, (large - 1) as nat);
    }
}

/// Where the bound test computes `out` and the recurrence computes `f`, the
/// escape count is the escape time of the point from the seed.
pub proof fn lemma_escape_count_is_escape_time<Z, D: Fn(Z) -> bool, S: Fn(Z, Z) -> Z>(
    c: Z,
    budget: u32,
    seed: Z,
    diverged: D,
    step: S,
    count: u32,
    out: spec_fn(Z) -> bool,
    f: spec_fn(Z, Z) -> Z,
)
    requires
        forall|z: Z, answer: bool| call_ensures(diverged, (z,), answer) ==> answer == out(z),
        forall|z: Z, p: Z, next: Z| call_ensures(step, (z, p), next) ==> next == f(z, p),
        is_escape_count(c, budget, seed, diverged, step, count),
    ensures
        count == escape_time(out, f, c, seed, budget as nat),
    decreases budget,
{
    let orbit = choose|orbit: Seq<Z>| #[trigger]
        is_orbit(orbit, c, seed, step) && escapes_at(orbit, diverged, budget, count);
    if budget > 0 && count > 0 {
        assert(call_ensures(diverged, (orbit[0],), false));
        assert(follows(orbit, c, step, 1));
        let rest = orbit.subrange(1, orbit.len() as int);
        assert forall|k: int| 1 <= k < rest.len() implies #[trigger] follows(rest, c, step, k) by {
            assert(follows(orbit, c, step, k + 1));
        }
        assert(is_orbit(rest, c, orbit[1], step));
        assert forall|k: int| 0 <= k < count - 1 implies call_ensures(
            diverged,
            (#[trigger] rest[k],),
            false,
        ) by {
            assert(call_ensures(diverged, (orbit[k + 1],), false));
        }
        assert(escapes_at(rest, diverged, (budget - 1) as u32, (count - 1) as u32));
        lemma_escape_count_is_escape_time(
            c,
            (budget - 1) as u32,
            orbit[1],
            diverged,
            step,
            (count - 1) as u32,
            out,
            f,
        );
    }
}

/// `diverged` answers each iterate in one way only.
pub open spec fn test_is_function<Z, D: Fn(Z) -> bool>(diverged: D) -> bool {
    forall|z: Z, a: bool, b: bool|
        call_ensures(diverged, (z,), a) && call_ensures(diverged, (z,), b) ==> a == b
}

/// `step` gives each pair of iterate and point one successor only.
pub open spec fn step_is_function<Z, S: Fn(Z, Z) -> Z>(step: S) -> bool {
    forall|z: Z, c: Z, a: Z, b: Z|
        call_ensures(step, (z, c), a) && call_ensures(step, (z, c), b) ==> a == b
}

/// Two orbits of one point under a single-valued `step` agree wherever both
/// are defined.
proof fn lemma_orbits_agree<Z, S: Fn(Z, Z) -> Z>(
    first: Seq<Z>,
    second: Seq<Z>,
    c: Z,
    seed: Z,
    step: S,
    k: int,
)
    requires
        step_is_function(step),
        is_orbit(first, c, seed, step),
        is_orbit(second, c, seed, step),
        0 <= k < first.len(),
        k < second.len(),
    ensures
        first[k] == second[k],
    decreases k,
{
    if k > 0 {
        lemma_orbits_agree(first, second, c, seed, step, k - 1);
        assert(follows(first, c, step, k));
        assert(follows(second, c, step, k));
    }
}

/// Evaluation has no hidden state: where the bound test and the recurrence
/// are single-valued, a point and a budget have one escape count, so two
/// evaluations with the same inputs return the same number.
pub proof fn lemma_escape_count_unique<Z, D: Fn(Z) -> bool, S: Fn(Z, Z) -> Z>(
    c: Z,
    budget: u32,
    seed: Z,
    diverged: D,
    step: S,
    first: u32,
    second: u32,
)
    requires
        test_is_function(diverged),
        step_is_function(step),
        is_escape_count(c, budget, seed, diverged, step, first),
        is_escape_count(c, budget, seed, diverged, step, second),
    ensures
        first == second,
{
    let a = choose|orbit: Seq<Z>| #[trigger]
        is_orbit(orbit, c, seed, step) && escapes_at(orbit, diverged, budget, first);
    let b = choose|orbit: Seq<Z>| #[trigger]
        is_orbit(orbit, c, seed, step) && escapes_at(orbit, diverged, budget, second);
    if first < second {
        lemma_orbits_agree(a, b, c, seed, step, first as int);
        assert(call_ensures(diverged, (b[first as int],), false));
    } else if second < first {
        lemma_orbits_agree(a, b, c, seed, step, second as int);
        assert(call_ensures(diverged, (a[second as int],), false));
    }
}

/// Every iterate of an orbit whose seed the recurrence maps to itself is the
/// seed.
proof fn lemma_orbit_rests<Z, S: Fn(Z, Z) -> Z>(orbit: Seq<Z>, c: Z, seed: Z, step: S, k: int)
    requires
        is_orbit(orbit, c, seed, step),
        forall|next: Z| call_ensures(step, (seed, c), next) ==> next == seed,
        0 <= k < orbit.len(),
    ensures
        orbit[k] == seed,
    decreases k,
{
    if k > 0 {
        lemma_orbit_rests(orbit, c, seed, step, k - 1);
        assert(follows(orbit, c, step, k));
    }
}

/// A point that leaves the seed where it is never diverges: if the
/// recurrence maps the seed to itself and the seed passes the bound test, the
/// escape count is the whole budget, whatever the budget.
pub proof fn lemma_resting_seed_uses_budget<Z, D: Fn(Z) -> bool, S: Fn(Z, Z) -> Z>(
    c: Z,
    budget: u32,
    seed: Z,
    diverged: D,
    step: S,
    count: u32,
)
    requires
        forall|next: Z| call_ensures(step, (seed, c), next) ==> next == seed,
        forall|out: bool| call_ensures(diverged, (seed,), out) ==> !out,
        is_escape_count(c, budget, seed, diverged, step, count),
    ensures
        count == budget,
{
    let orbit = choose|orbit: Seq<Z>| #[trigger]
        is_orbit(orbit, c, seed, step) && escapes_at(orbit, diverged, budget, count);
    if count < budget {
        lemma_orbit_rests(orbit, c, seed, step, count as int);
    }
}

/// A seed that already fails the bound test stops the evaluation before the
/// first application: with a budget of at least one the escape count is zero.
pub proof fn lemma_diverged_seed_counts_zero<Z, D: Fn(Z) -> bool, S: Fn(Z, Z) -> Z>(
    c: Z,
    budget: u32,
    seed: Z,
    diverged: D,
    step: S,
    count: u32,
)
    requires
        budget >= 1,
        forall|out: bool| call_ensures(diverged, (seed,), out) ==> out,
        is_escape_count(c, budget, seed, diverged, step, count),
    ensures
        count == 0,
{
    let orbit = choose|orbit: Seq<Z>| #[trigger]
        is_orbit(orbit, c, seed, step) && escapes_at(orbit, diverged, budget, count);
    if count > 0 {
        assert(call_ensures(diverged, (orbit[0],), false));
    }
}

/// A point whose first iterate is out of bounds diverges at once: if the seed
/// passes the bound test and whatever one application makes of it fails the
/// test, then with a budget of at least one the escape count is one, the
/// single application that happened while the iterate was still bounded.
pub proof fn lemma_first_iterate_diverged_counts_one<Z, D: Fn(Z) -> bool, S: Fn(Z, Z) -> Z>(
    c: Z,
    budget: u32,
    seed: Z,
    diverged: D,
    step: S,
    count: u32,
)
    requires
        budget >= 1,
        forall|out: bool| call_ensures(diverged, (seed,), out) ==> !out,
        forall|next: Z, out: bool|
            call_ensures(step, (seed, c), next) && call_ensures(diverged, (next,), out) ==> out,
        is_escape_count(c, budget, seed, diverged, step, count),
    ensures
        count == 1,
{
    let orbit = choose|orbit: Seq<Z>| #[trigger]
        is_orbit(orbit, c, seed, step) && escapes_at(orbit, diverged, budget, count);
    if count >= 2 {
        assert(follows(orbit, c, step, 1));
        assert(call_ensures(diverged, (orbit[1],), false));
    }
}

} // verus!
