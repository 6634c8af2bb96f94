//! Which object of a scene a ray meets first.
//!
//! A scene is an ordered list of objects.  For one ray, each object reports
//! the parameter at which the ray meets it, or nothing.  Only the order of
//! the parameters matters here, so they are carried as `i64` places on a
//! scale that keeps their order; [`place`] gives the place of a
//! double-precision number from its bits.
use vstd::prelude::*;

verus! {

/// The sign bit of a double-precision number.
pub const SIGN_BIT: u64 = 0x8000_0000_0000_0000;

/// The bits of positive infinity.  With the sign bit cleared, the numbers
/// have bits up to this; what lies above is not a number.
pub const INFINITY_BITS: u64 = 0x7FF0_0000_0000_0000;

/// The bits of a double-precision number without its sign bit.  Among
/// numbers of one sign, a larger magnitude has the larger bits.
pub open spec fn magnitude(bits: u64) -> int {
    if bits >= SIGN_BIT {
        bits - SIGN_BIT
    } else {
        bits as int
    }
}

/// The place of the number with the given bits: its magnitude bits,
/// counted upwards from zero for a positive number and downwards for a
/// negative one.  Both zeros share place 0.  What is not a number has no
/// place.
pub open spec fn spec_place(bits: u64) -> Option<i64> {
    if magnitude(bits) > INFINITY_BITS {
        None
    } else if bits >= SIGN_BIT {
        Some((-magnitude(bits)) as i64)
    } else {
        Some(bits as i64)
    }
}

/// Gives the place of a double-precision number, from its bits.
pub fn place(bits: u64) -> (r: Option<i64>)
    ensures
        r == spec_place(bits),
{
    let negative: bool = bits >= SIGN_BIT;
    let magnitude: u64 = if negative {
        bits - SIGN_BIT
    } else {
        bits
    };
    if magnitude > INFINITY_BITS {
        None
    } else if negative {
        Some(-(magnitude as i64))
    } else {
        Some(magnitude as i64)
    }
}

/// Places are ordered as the numbers are: a negative number stands below a
/// positive one, of two positive numbers the one with the larger magnitude
/// stands higher, of two negative ones it stands lower, and two numbers
/// share a place only if they have the same bits or are both zero.
pub proof fn places_keep_order(a: u64, b: u64)
    requires
        spec_place(a) is Some,
        spec_place(b) is Some,
    ensures
        a < SIGN_BIT && b < SIGN_BIT ==> (spec_place(a).unwrap() < spec_place(b).unwrap() <==> a
            < b),
        a >= SIGN_BIT && b >= SIGN_BIT ==> (spec_place(a).unwrap() < spec_place(b).unwrap() <==> a
            > b),
        a >= SIGN_BIT && b < SIGN_BIT ==> spec_place(a).unwrap() <= spec_place(b).unwrap(),
        spec_place(a) == spec_place(b) <==> a == b || (magnitude(a) == 0 && magnitude(b) == 0),
        -INFINITY_BITS <= spec_place(a).unwrap() <= INFINITY_BITS,
{
}

/// The nearest meeting of a ray with a scene.
#[derive(Clone, Copy, Debug, PartialEq, Eq, Structural)]
pub struct Hit {
    /// The place of the ray's parameter at the meeting.
    pub t: i64,
    /// The object that was hit, by its place in the scene.
    pub object: usize,
}

/// The object meets the ray at a parameter inside `[t_min, t_max]`.
pub open spec fn accepted(root: Option<i64>, t_min: i64, t_max: i64) -> bool {
    root is Some && t_min <= root.unwrap() <= t_max
}

/// Object `i` is the one the ray meets first: its parameter is inside the
/// range, no object has a smaller one inside the range, and of those with
/// that same parameter it stands first in the scene.
pub open spec fn is_nearest(roots: Seq<Option<i64>>, t_min: i64, t_max: i64, i: int) -> bool {
    &&& 0 <= i < roots.len()
    &&& accepted(roots[i], t_min, t_max)
    &&& forall|j: int|
        0 <= j < roots.len() && accepted(#[trigger] roots[j], t_min, t_max) ==> roots[i].unwrap()
            <= roots[j].unwrap()
    &&& forall|j: int|
        0 <= j < i && accepted(#[trigger] roots[j], t_min, t_max) ==> roots[i].unwrap()
            < roots[j].unwrap()
}

/// Whether a meeting at `t` counts: it does inside `[t_min, t_max]`, both
/// ends included.
pub fn in_range(t: i64, t_min: i64, t_max: i64) -> (r: bool)
    ensures
        r == accepted(Some(t), t_min, t_max),
{
    t >= t_min && t <= t_max
}

/// Finds the nearest hit among what the objects of a scene report for one
/// ray, `roots[i]` being the report of object `i`.
///
/// The objects are tried in order, and the upper end of the range shrinks to
/// the best parameter found so far, so that a later object takes over only
/// with a strictly smaller one.
pub fn check_hit(roots: &[Option<i64>], t_min: i64, t_max: i64) -> (r: Option<Hit>)
    ensures
        match r {
            Some(hit) => is_nearest(roots@, t_min, t_max, hit.object as int) && roots@[hit.object as int]
                == Some(hit.t),
            None => forall|j: int|
                0 <= j < roots@.len() ==> !accepted(#[trigger] roots@[j], t_min, t_max),
        },
{
    let mut closest: Option<Hit> = None;
    let mut i: usize = 0;
    while i < roots.len()
        invariant
            i <= roots@.len(),
            match closest {
                Some(hit) => is_nearest(roots@.take(i as int), t_min, t_max, hit.object as int)
                    && roots@[hit.object as int] == Some(hit.t),
                None => forall|j: int|
                    0 <= j < i ==> !accepted(#[trigger] roots@[j], t_min, t_max),
            },
        decreases roots@.len() - i,
    {
        let ghost seen = roots@.take(i as int);
        let ghost more = roots@.take(i + 1);
        proof {
            assert forall|j: int| 0 <= j < i implies #[trigger] more[j] == seen[j] by {}
        }
        match roots[i] {
            Some(t) => {
                let nearer: bool = match closest {
                    Some(hit) => t < hit.t,
                    None => true,
                };
                if nearer && in_range(t, t_min, t_max) {
                    closest = Some(Hit { t, object: i });
                }
            },
            None => {},
        }
        i += 1;
    }
    proof {
        assert(roots@.take(i as int) =~= roots@);
    }
    closest
}

/// A ray has at most one nearest hit.
pub proof fn nearest_is_unique(roots: Seq<Option<i64>>, t_min: i64, t_max: i64, i: int, j: int)
    requires
        is_nearest(roots, t_min, t_max, i),
        is_nearest(roots, t_min, t_max, j),
    ensures
        i == j,
{
    if i < j {
        assert(accepted(roots[i], t_min, t_max));
    } else if j < i {
        assert(accepted(roots[j], t_min, t_max));
    }
}

/// Taking every object but the nearest out of the scene changes nothing:
/// alone, the nearest object is hit at the same parameter.
pub proof fn nearest_alone_is_nearest(roots: Seq<Option<i64>>, t_min: i64, t_max: i64, i: int)
    requires
        is_nearest(roots, t_min, t_max, i),
    ensures
        is_nearest(seq![roots[i]], t_min, t_max, 0),
{
}

/// The order of the objects does not change where the ray is stopped: two
/// scenes made of the same reports have their nearest hits at the same
/// parameter.
pub proof fn nearest_ignores_order(
    roots: Seq<Option<i64>>,
    shuffled: Seq<Option<i64>>,
    t_min: i64,
    t_max: i64,
    i: int,
    j: int,
)
    requires
        roots.to_multiset() == shuffled.to_multiset(),
        is_nearest(roots, t_min, t_max, i),
        is_nearest(shuffled, t_min, t_max, j),
    ensures
        roots[i] == shuffled[j],
{
    roots.to_multiset_ensures();
    shuffled.to_multiset_ensures();
    assert(roots.contains(roots[i]));
    assert(shuffled.contains(shuffled[j]));
    assert(shuffled.to_multiset().count(roots[i]) > 0);
    assert(roots.to_multiset().count(shuffled[j]) > 0);
    assert(shuffled.contains(roots[i]));
    assert(roots.contains(shuffled[j]));
    let k = choose|k: int| 0 <= k < shuffled.len() && shuffled[k] == roots[i];
    let l = choose|l: int| 0 <= l < roots.len() && roots[l] == shuffled[j];
    assert(accepted(shuffled[k], t_min, t_max));
    assert(accepted(roots[l], t_min, t_max));
}

} // verus!
