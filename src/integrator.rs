//! The integrator: radiance along a ray, gathered by recursion over the
//! bounces of a path.
//!
//! At each vertex of a path the scene is queried, and the material there may
//! scatter the ray on. The scene, its materials and the colour arithmetic
//! come through `Shading`; what happens next at each vertex is decided by
//! `next_step`, and the recursion is bounded by a depth counter.
use vstd::prelude::*;
use crate::materials::ScatterResult;

verus! {

/// Depth at which a path stops bouncing.
pub const MAX_DEPTH: u32 = 50;

/// What a vertex of a path turned out to be.
#[derive(Copy, Clone, Debug, PartialEq, Eq, Structural)]
pub enum Event {
    /// The ray left the scene.
    Miss,
    /// The ray hit a surface; `scatters` tells whether its material sent
    /// a ray on.
    Hit { scatters: bool },
}

/// What the integrator does with a vertex.
#[derive(Copy, Clone, Debug, PartialEq, Eq, Structural)]
pub enum Step {
    /// Return the background colour.
    Background,
    /// Return the light emitted at the hit, and nothing more.
    Emitted,
    /// Return the emitted light plus the attenuated radiance of the
    /// scattered ray, traced one level deeper.
    Bounce,
}

/// The rule of one vertex: a miss gives the background at every depth; a hit
/// bounces when its material scatters and the depth is below the limit, and
/// otherwise gives the emitted light alone.
pub open spec fn step_of(depth: int, event: Event) -> Step {
    match event {
        Event::Miss => Step::Background,
        Event::Hit { scatters } => if scatters && depth < MAX_DEPTH {
            Step::Bounce
        } else {
            Step::Emitted
        },
    }
}

/// Decides what to do at a vertex reached at `depth` bounces.
pub fn next_step(depth: u32, event: Event) -> (r: Step)
    ensures
        r == step_of(depth as int, event),
        event is Miss ==> r == Step::Background,
        r == Step::Bounce ==> depth < MAX_DEPTH,
{
    match event {
        Event::Miss => Step::Background,
        Event::Hit { scatters } => {
            if scatters && depth < MAX_DEPTH {
                Step::Bounce
            } else {
                Step::Emitted
            }
        },
    }
}

/// The number of vertices that a path visits when it starts at `depth` and
/// its vertices turn out as `events` (a path that outlives `events` is cut
/// off there).
pub open spec fn vertices_visited(depth: int, events: Seq<Event>) -> nat
    decreases events.len(),
{
    if events.len() == 0 {
        0
    } else if step_of(depth, events[0]) == Step::Bounce {
        1 + vertices_visited(depth + 1, events.drop_first())
    } else {
        1
    }
}

/// Every path stops: started at `depth <= MAX_DEPTH`, it visits at most
/// `MAX_DEPTH - depth + 1` vertices, whatever the scene does.
pub proof fn lemma_walk_bounded(depth: int, events: Seq<Event>)
    requires
        0 <= depth <= MAX_DEPTH,
    ensures
        vertices_visited(depth, events) <= MAX_DEPTH - depth + 1,
    decreases events.len(),
{
    if events.len() > 0 && step_of(depth, events[0]) == Step::Bounce {
        lemma_walk_bounded(depth + 1, events.drop_first());
    }
}

/// Between two parallel mirrors every vertex scatters; such a path from a
/// camera ray bounces until `depth == MAX_DEPTH` and then stops, after
/// exactly `MAX_DEPTH + 1` vertices.
pub proof fn lemma_hall_of_mirrors(events: Seq<Event>)
    requires
        events.len() > MAX_DEPTH,
        forall|i: int| 0 <= i < events.len() ==> #[trigger] events[i] == (Event::Hit { scatters: true }),
    ensures
        vertices_visited(0, events) == MAX_DEPTH + 1,
{
    lemma_mirrors_from(0, events);
}

/// From `depth` on, a path of scattering hits visits `MAX_DEPTH - depth + 1`
/// vertices.
proof fn lemma_mirrors_from(depth: int, events: Seq<Event>)
    requires
        0 <= depth <= MAX_DEPTH,
        events.len() > MAX_DEPTH - depth,
        forall|i: int| 0 <= i < events.len() ==> #[trigger] events[i] == (Event::Hit { scatters: true }),
    ensures
        vertices_visited(depth, events) == MAX_DEPTH - depth + 1,
    decreases MAX_DEPTH - depth,
{
    assert(events[0] == (Event::Hit { scatters: true }));
    if depth < MAX_DEPTH {
        let rest = events.drop_first();
        assert forall|i: int| 0 <= i < rest.len() implies #[trigger] rest[i] == (Event::Hit {
            scatters: true,
        }) by {
            assert(rest[i] == events[i + 1]);
        }
        lemma_mirrors_from(depth + 1, rest);
    }
}

/// A scene as the integrator sees it: the nearest hit of a ray, what the
/// material there does, and the colour arithmetic.
///
/// Each query's outcome is stated as a relation, since materials scatter at
/// random. Unless an implementation states more, every outcome counts as
/// possible, which claims nothing of it.
pub trait Shading: Sized {
    type Ray;
    type Hit;
    type Colour;

    /// `r` is a possible outcome of `self.trace(ray)`.
    open spec fn trace_outcome(&self, ray: Self::Ray, r: Option<Self::Hit>) -> bool {
        true
    }

    /// `r` is a possible outcome of `self.scatter(ray, hit)`.
    open spec fn scatter_outcome(
        &self,
        ray: Self::Ray,
        hit: Self::Hit,
        r: Option<ScatterResult<Self::Colour, Self::Ray>>,
    ) -> bool {
        true
    }

    /// `r` is a possible outcome of `self.emitted(hit)`.
    open spec fn emitted_outcome(&self, hit: Self::Hit, r: Self::Colour) -> bool {
        true
    }

    /// `r` is a possible outcome of `self.background()`.
    open spec fn background_outcome(&self, r: Self::Colour) -> bool {
        true
    }

    /// `r` is a possible outcome of `Self::combine(emitted, attenuation, incoming)`.
    open spec fn combine_outcome(
        emitted: Self::Colour,
        attenuation: Self::Colour,
        incoming: Self::Colour,
        r: Self::Colour,
    ) -> bool {
        true
    }

    /// The nearest hit of `ray` past the margin that keeps a bounce from
    /// hitting the surface it leaves.
    fn trace(&self, ray: &Self::Ray) -> (r: Option<Self::Hit>)
        ensures
            self.trace_outcome(*ray, r),
    ;

    /// What the material at `hit` does with `ray`: the scattered ray and its
    /// attenuation, or `None` where it absorbs the ray.
    fn scatter(&self, ray: &Self::Ray, hit: &Self::Hit) -> (r: Option<ScatterResult<Self::Colour, Self::Ray>>)
        ensures
            self.scatter_outcome(*ray, *hit, r),
    ;

    /// The light emitted at `hit`.
    fn emitted(&self, hit: &Self::Hit) -> (r: Self::Colour)
        ensures
            self.emitted_outcome(*hit, r),
    ;

    /// The colour of a ray that leaves the scene.
    fn background(&self) -> (r: Self::Colour)
        ensures
            self.background_outcome(r),
    ;

    /// `emitted + attenuation * incoming`, component by component.
    fn combine(emitted: Self::Colour, attenuation: Self::Colour, incoming: Self::Colour) -> (r: Self::Colour)
        ensures
            Self::combine_outcome(emitted, attenuation, incoming, r),
    ;
}

/// How far a path traced at `depth` may still recurse.
pub open spec fn depth_left(depth: int) -> int {
    if depth < MAX_DEPTH {
        MAX_DEPTH - depth
    } else {
        0
    }
}

/// `r` is a possible radiance along `ray` traced at `depth`: the background
/// when the ray leaves the scene. At a hit, a bounce combines the emitted
/// light with the attenuated radiance of the scattered ray one level deeper;
/// any other step gives the emitted light alone.
pub open spec fn radiance_outcome<S: Shading>(s: S, ray: S::Ray, depth: int, r: S::Colour) -> bool
    decreases depth_left(depth),
{
    exists|h: Option<S::Hit>|
        #[trigger] s.trace_outcome(ray, h) && match h {
            None => s.background_outcome(r),
            Some(hit) => exists|sc: Option<ScatterResult<S::Colour, S::Ray>>, e: S::Colour|
                #[trigger] s.scatter_outcome(ray, hit, sc) && #[trigger] s.emitted_outcome(hit, e)
                    && if step_of(depth, Event::Hit { scatters: sc is Some }) == Step::Bounce {
                    exists|incoming: S::Colour|
                        radiance_outcome(s, sc->Some_0.scattered_ray, depth + 1, incoming)
                            && #[trigger] S::combine_outcome(e, sc->Some_0.attenuation, incoming, r)
                } else {
                    r == e
                },
        }
}

/// The radiance along `ray`, traced at `depth` bounces from the camera.
pub fn radiance<S: Shading>(scene: &S, ray: &S::Ray, depth: u32) -> (r: S::Colour)
    ensures
        radiance_outcome(*scene, *ray, depth as int, r),
    decreases depth_left(depth as int),
{
    let hit = scene.trace(ray);
    let ghost traced = hit;
    match hit {
        None => scene.background(),
        Some(h) => {
            let scatter = scene.scatter(ray, &h);
            let emitted = scene.emitted(&h);
            let ghost (sc, e) = (scatter, emitted);
            let step = next_step(depth, Event::Hit { scatters: scatter.is_some() });
            let r = match (step, scatter) {
                (Step::Bounce, Some(res)) => {
                    let incoming = radiance(scene, &res.scattered_ray, depth + 1);
                    let r = S::combine(emitted, res.attenuation, incoming);
                    assert(radiance_outcome(*scene, sc->Some_0.scattered_ray, depth + 1, incoming));
                    assert(S::combine_outcome(e, sc->Some_0.attenuation, incoming, r));
                    r
                },
                _ => emitted,
            };
            assert(scene.scatter_outcome(*ray, traced->Some_0, sc));
            assert(scene.emitted_outcome(traced->Some_0, e));
            r
        },
    }
}

/// A ray that leaves the scene yields the background, whatever the depth
/// it is traced at.
pub proof fn lemma_radiance_of_miss<S: Shading>(s: S, ray: S::Ray, depth: int, r: S::Colour)
    requires
        forall|h: Option<S::Hit>| #[trigger] s.trace_outcome(ray, h) ==> h is None,
        radiance_outcome(s, ray, depth, r),
    ensures
        s.background_outcome(r),
{
}

/// At the depth limit the integrator no longer recurses: the radiance is
/// the background or the light emitted where the ray hits.
pub proof fn lemma_radiance_at_depth_limit<S: Shading>(s: S, ray: S::Ray, depth: int, r: S::Colour)
    requires
        depth >= MAX_DEPTH,
        radiance_outcome(s, ray, depth, r),
    ensures
        exists|h: Option<S::Hit>|
            #[trigger] s.trace_outcome(ray, h) && match h {
                None => s.background_outcome(r),
                Some(hit) => s.emitted_outcome(hit, r),
            },
{
    let h = choose|h: Option<S::Hit>|
        #[trigger] s.trace_outcome(ray, h) && match h {
            None => s.background_outcome(r),
            Some(hit) => exists|sc: Option<ScatterResult<S::Colour, S::Ray>>, e: S::Colour|
                #[trigger] s.scatter_outcome(ray, hit, sc) && #[trigger] s.emitted_outcome(hit, e)
                    && if step_of(depth, Event::Hit { scatters: sc is Some }) == Step::Bounce {
                exists|incoming: S::Colour|
                    radiance_outcome(s, sc->Some_0.scattered_ray, depth + 1, incoming)
                        && #[trigger] S::combine_outcome(e, sc->Some_0.attenuation, incoming, r)
            } else {
                r == e
            },
        };
    if let Some(hit) = h {
        let (sc, e) = choose|sc: Option<ScatterResult<S::Colour, S::Ray>>, e: S::Colour|
            #[trigger] s.scatter_outcome(ray, hit, sc) && #[trigger] s.emitted_outcome(hit, e)
                && if step_of(depth, Event::Hit { scatters: sc is Some }) == Step::Bounce {
                exists|incoming: S::Colour|
                    radiance_outcome(s, sc->Some_0.scattered_ray, depth + 1, incoming)
                        && #[trigger] S::combine_outcome(e, sc->Some_0.attenuation, incoming, r)
            } else {
                r == e
            };
        assert(r == e);
    }
}

/// `r` is a possible radiance along `ray` traced at `depth` that takes at
/// most `n` nested evaluations of the integrator: the same rule as
/// `radiance_outcome`, with each bounce spending one evaluation.
pub open spec fn radiance_within<S: Shading>(
    s: S,
    ray: S::Ray,
    depth: int,
    r: S::Colour,
    n: nat,
) -> bool
    decreases n,
{
    n >= 1 && exists|h: Option<S::Hit>|
        #[trigger] s.trace_outcome(ray, h) && match h {
            None => s.background_outcome(r),
            Some(hit) => exists|sc: Option<ScatterResult<S::Colour, S::Ray>>, e: S::Colour|
                #[trigger] s.scatter_outcome(ray, hit, sc) && #[trigger] s.emitted_outcome(hit, e)
                    && if step_of(depth, Event::Hit { scatters: sc is Some }) == Step::Bounce {
                    exists|incoming: S::Colour|
                        radiance_within(s, sc->Some_0.scattered_ray, depth + 1, incoming, (n - 1) as nat)
                            && #[trigger] S::combine_outcome(e, sc->Some_0.attenuation, incoming, r)
                } else {
                    r == e
                },
        }
}

/// Every radiance traced at `depth` takes at most `depth_left(depth) + 1`
/// nested evaluations.
proof fn lemma_radiance_nesting<S: Shading>(s: S, ray: S::Ray, depth: int, r: S::Colour)
    requires
        radiance_outcome(s, ray, depth, r),
    ensures
        radiance_within(s, ray, depth, r, (depth_left(depth) + 1) as nat),
    decreases depth_left(depth),
{
    let n = (depth_left(depth) + 1) as nat;
    let h = choose|h: Option<S::Hit>|
        #[trigger] s.trace_outcome(ray, h) && match h {
            None => s.background_outcome(r),
            Some(hit) => exists|sc: Option<ScatterResult<S::Colour, S::Ray>>, e: S::Colour|
                #[trigger] s.scatter_outcome(ray, hit, sc) && #[trigger] s.emitted_outcome(hit, e)
                    && if step_of(depth, Event::Hit { scatters: sc is Some }) == Step::Bounce {
                exists|incoming: S::Colour|
                    radiance_outcome(s, sc->Some_0.scattered_ray, depth + 1, incoming)
                        && #[trigger] S::combine_outcome(e, sc->Some_0.attenuation, incoming, r)
            } else {
                r == e
            },
        };
    if let Some(hit) = h {
        let (sc, e) = choose|sc: Option<ScatterResult<S::Colour, S::Ray>>, e: S::Colour|
            #[trigger] s.scatter_outcome(ray, hit, sc) && #[trigger] s.emitted_outcome(hit, e)
                && if step_of(depth, Event::Hit { scatters: sc is Some }) == Step::Bounce {
                exists|incoming: S::Colour|
                    radiance_outcome(s, sc->Some_0.scattered_ray, depth + 1, incoming)
                        && #[trigger] S::combine_outcome(e, sc->Some_0.attenuation, incoming, r)
            } else {
                r == e
            };
        if step_of(depth, Event::Hit { scatters: sc is Some }) == Step::Bounce {
            let inc = choose|incoming: S::Colour|
                radiance_outcome(s, sc->Some_0.scattered_ray, depth + 1, incoming)
                    && #[trigger] S::combine_outcome(e, sc->Some_0.attenuation, incoming, r);
            lemma_radiance_nesting(s, sc->Some_0.scattered_ray, depth + 1, inc);
            assert(depth_left(depth + 1) + 1 == n - 1);
            assert(radiance_within(s, sc->Some_0.scattered_ray, depth + 1, inc, (n - 1) as nat));
            assert(S::combine_outcome(e, sc->Some_0.attenuation, inc, r));
        }
        assert(s.scatter_outcome(ray, h->Some_0, sc) && s.emitted_outcome(h->Some_0, e));
    }
    assert(s.trace_outcome(ray, h));
}

/// Tracing from the camera nests at most `MAX_DEPTH + 1` evaluations of the
/// integrator (depths 0 to `MAX_DEPTH`), however the scene scatters; in a
/// hall of mirrors, where every ray hits and every hit scatters, the
/// evaluation at depth `MAX_DEPTH` returns its emitted light without
/// recursing (`lemma_radiance_at_depth_limit`).
pub proof fn lemma_radiance_nesting_bounded<S: Shading>(s: S, ray: S::Ray, r: S::Colour)
    requires
        radiance_outcome(s, ray, 0, r),
    ensures
        radiance_within(s, ray, 0, r, (MAX_DEPTH + 1) as nat),
{
    lemma_radiance_nesting(s, ray, 0, r);
}

} // verus!
