use vstd::prelude::*;

verus! {

/// What happens to a path at one step: the outcome of tracing a ray into the
/// scene and, on a hit, of asking the surface's material to scatter it.
pub enum Bounce<R, C> {
    /// The ray hit nothing: the background color.
    Escaped(C),
    /// The surface absorbed the path: the color it emits.
    Absorbed(C),
    /// The path goes on: the color the surface emits, the attenuation of what
    /// comes back along the new ray, and that ray.
    Scattered(C, C, R),
}

/// `r` is a value that `trace` may return for `ray` with `depth` bounces left:
/// `black` when none are left; else, for an outcome of `step` on the ray, the
/// background or the emission where the path ends there, and otherwise what
/// `combine` makes of the emission, the attenuation and a value traced along
/// the scattered ray with one bounce fewer.
pub open spec fn traced<R, C, S: Fn(R) -> Bounce<R, C>, G: Fn(C, C, C) -> C>(
    step: S,
    combine: G,
    black: C,
    ray: R,
    depth: nat,
    r: C,
) -> bool
    decreases depth,
{
    if depth == 0 {
        r == black
    } else {
        exists|o: Bounce<R, C>|
            #[trigger] step.ensures((ray,), o) && match o {
                Bounce::Escaped(c) => r == c,
                Bounce::Absorbed(e) => r == e,
                Bounce::Scattered(e, a, next) => exists|rest: C|
                    traced(step, combine, black, next, (depth - 1) as nat, rest)
                        && #[trigger] combine.ensures((e, a, rest), r),
            }
    }
}

/// The recursive path-tracing estimator: follows `ray` for at most `depth`
/// bounces, with no early termination but the depth cap. A path that runs
/// out of bounces contributes `black`; one that escapes, the background; one
/// that is absorbed, the emission; one that scatters, `combine(emission,
/// attenuation, rest)`, where `rest` is traced along the new ray.
pub fn trace<R, C, S: Fn(R) -> Bounce<R, C>, G: Fn(C, C, C) -> C>(
    ray: R,
    depth: u64,
    black: C,
    step: &S,
    combine: &G,
) -> (r: C)
    requires
        forall|x: R| step.requires((x,)),
        forall|e: C, a: C, x: C| combine.requires((e, a, x)),
    ensures
        traced(*step, *combine, black, ray, depth as nat, r),
    decreases depth,
{
    if depth == 0 {
        black
    } else {
        let ghost ray0 = ray;
        let ghost black0 = black;
        let o = step(ray);
        match o {
            Bounce::Escaped(c) => c,
            Bounce::Absorbed(e) => e,
            Bounce::Scattered(e, a, next) => {
                let ghost next0 = next;
                let rest = trace(next, depth - 1, black, step, combine);
                let r = combine(e, a, rest);
                assert(traced(*step, *combine, black0, ray0, depth as nat, r)) by {
                    assert(traced(*step, *combine, black0, next0, ((depth as nat) - 1) as nat, rest));
                }
                r
            },
        }
    }
}

/// A ray that escapes the scene on its first step brings back exactly the
/// background color, with no further recursion, whenever any bounce is left.
pub proof fn lemma_escaped_is_background<R, C, S: Fn(R) -> Bounce<R, C>, G: Fn(C, C, C) -> C>(
    step: S,
    combine: G,
    black: C,
    ray: R,
    depth: nat,
    background: C,
    r: C,
)
    requires
        depth > 0,
        forall|o: Bounce<R, C>| #[trigger] step.ensures((ray,), o) ==> o == Bounce::<R, C>::Escaped(background),
        traced(step, combine, black, ray, depth, r),
    ensures
        r == background,
{
}

} // verus!
