//! How the colour of one ray is resolved: the walk of a light path from
//! bounce to bounce until it escapes to the sky, is absorbed, or runs out of
//! depth.
//!
//! Rays, surfaces and colours are the caller's own types.  The walk asks two
//! questions through the functions it is given, and decides the rest: which
//! question comes next, when to stop, and in what order the colours met on
//! the way are to be applied.
use vstd::prelude::*;

verus! {

/// A path that has bounced this often is cut off at its next hit.
pub const MAX_DEPTH: usize = 50;

/// How a light path ended.
#[derive(Debug, PartialEq, Eq)]
pub enum PathEnd<R> {
    /// This ray met nothing: the path carries the sky's colour for it.
    Sky(R),
    /// Something was hit, but the depth was used up: the path is black.
    Exhausted,
    /// The surface that was hit swallowed the ray: the path is black.
    Absorbed,
}

/// A resolved light path.
#[derive(Debug, PartialEq, Eq)]
pub struct Path<R, A> {
    /// The attenuations of the bounces, that of the last bounce first: the
    /// order in which they multiply the colour the path ended with.
    pub attenuations: Vec<A>,
    /// How the path ended.
    pub end: PathEnd<R>,
}

/// `attenuations` and `end` are what the walk from `ray` at `depth` leaves,
/// for some run of answers that `check_hit` and `scatter` may give.
///
/// A ray that `check_hit` reports no hit for ends the path in the sky, at
/// any depth.  A ray with a hit ends it black when `depth` has reached
/// [`MAX_DEPTH`] (nothing is scattered then) or when `scatter` gives nothing.
/// Otherwise the path goes on with the scattered ray one level deeper, and
/// this bounce's attenuation comes after all the later ones.
pub open spec fn resolves<R, H, A, P: Fn(&R) -> Option<H>, S: Fn(&H, &R) -> Option<(R, A)>>(
    check_hit: &P,
    scatter: &S,
    ray: R,
    depth: int,
    attenuations: Seq<A>,
    end: PathEnd<R>,
) -> bool
    decreases attenuations.len(),
{
    if attenuations.len() == 0 {
        match end {
            PathEnd::Sky(escaped) => escaped == ray && check_hit.ensures((&ray,), None),
            PathEnd::Exhausted => depth >= MAX_DEPTH && exists|hit: H|
                check_hit.ensures((&ray,), Some(hit)),
            PathEnd::Absorbed => depth < MAX_DEPTH && exists|hit: H|
                check_hit.ensures((&ray,), Some(hit)) && scatter.ensures((&hit, &ray), None),
        }
    } else {
        depth < MAX_DEPTH && exists|hit: H, next: R|
            check_hit.ensures((&ray,), Some(hit)) && scatter.ensures(
                (&hit, &ray),
                Some((next, attenuations.last())),
            ) && resolves(check_hit, scatter, next, depth + 1, attenuations.drop_last(), end)
    }
}

/// Resolves the light path that starts with `ray`, `depth` bounces into its
/// walk.
///
/// `check_hit` gives the nearest surface a ray meets, if any; `scatter`
/// gives, for a hit and the ray that made it, the ray that leaves the surface
/// and its attenuation, or nothing where the surface absorbs the ray.
pub fn color_for<R, H, A, P: Fn(&R) -> Option<H>, S: Fn(&H, &R) -> Option<(R, A)>>(
    ray: R,
    depth: usize,
    check_hit: &P,
    scatter: &S,
) -> (path: Path<R, A>)
    requires
        forall|r: &R| check_hit.requires((r,)),
        forall|h: &H, r: &R| scatter.requires((h, r)),
    ensures
        resolves(check_hit, scatter, ray, depth as int, path.attenuations@, path.end),
    decreases MAX_DEPTH - depth,
{
    match check_hit(&ray) {
        None => Path { attenuations: Vec::new(), end: PathEnd::Sky(ray) },
        Some(hit) => {
            if depth >= MAX_DEPTH {
                return Path { attenuations: Vec::new(), end: PathEnd::Exhausted };
            }
            match scatter(&hit, &ray) {
                None => Path { attenuations: Vec::new(), end: PathEnd::Absorbed },
                Some((next, attenuation)) => {
                    let mut path = color_for(next, depth + 1, check_hit, scatter);
                    let ghost inner = path.attenuations@;
                    path.attenuations.push(attenuation);
                    proof {
                        assert(path.attenuations@.drop_last() =~= inner);
                        assert(path.attenuations@.last() == attenuation);
                    }
                    path
                },
            }
        },
    }
}

/// A ray that misses everything gets the sky, whatever the depth: if a miss
/// is the only answer `check_hit` can give for `ray`, the path has no bounce
/// and ends in the sky with that very ray.
pub proof fn miss_ends_in_sky<R, H, A, P: Fn(&R) -> Option<H>, S: Fn(&H, &R) -> Option<(R, A)>>(
    check_hit: &P,
    scatter: &S,
    ray: R,
    depth: int,
    attenuations: Seq<A>,
    end: PathEnd<R>,
)
    requires
        resolves(check_hit, scatter, ray, depth, attenuations, end),
        forall|answer: Option<H>| check_hit.ensures((&ray,), answer) ==> answer is None,
    ensures
        attenuations.len() == 0,
        end == PathEnd::Sky(ray),
{
    if attenuations.len() == 0 {
        match end {
            PathEnd::Sky(escaped) => {},
            PathEnd::Exhausted => {
                let hit = choose|hit: H| check_hit.ensures((&ray,), Some(hit));
                assert(Some(hit) is None);
            },
            PathEnd::Absorbed => {
                let hit = choose|hit: H|
                    check_hit.ensures((&ray,), Some(hit)) && scatter.ensures((&hit, &ray), None);
                assert(Some(hit) is None);
            },
        }
    } else {
        let (hit, next) = choose|hit: H, next: R|
            check_hit.ensures((&ray,), Some(hit)) && scatter.ensures(
                (&hit, &ray),
                Some((next, attenuations.last())),
            ) && resolves(check_hit, scatter, next, depth + 1, attenuations.drop_last(), end);
        assert(Some(hit) is None);
    }
}

/// The depth is a hard limit: a path never bounces once `depth` has reached
/// [`MAX_DEPTH`], so a walk begun at `depth` takes at most
/// `MAX_DEPTH - depth` bounces.
pub proof fn bounces_are_bounded<
    R,
    H,
    A,
    P: Fn(&R) -> Option<H>,
    S: Fn(&H, &R) -> Option<(R, A)>,
>(check_hit: &P, scatter: &S, ray: R, depth: int, attenuations: Seq<A>, end: PathEnd<R>)
    requires
        resolves(check_hit, scatter, ray, depth, attenuations, end),
    ensures
        attenuations.len() > 0 ==> depth + attenuations.len() <= MAX_DEPTH,
        end is Exhausted ==> depth + attenuations.len() >= MAX_DEPTH,
    decreases attenuations.len(),
{
    if attenuations.len() > 0 {
        let (hit, next) = choose|hit: H, next: R|
            check_hit.ensures((&ray,), Some(hit)) && scatter.ensures(
                (&hit, &ray),
                Some((next, attenuations.last())),
            ) && resolves(check_hit, scatter, next, depth + 1, attenuations.drop_last(), end);
        bounces_are_bounded(check_hit, scatter, next, depth + 1, attenuations.drop_last(), end);
    }
}

} // verus!
