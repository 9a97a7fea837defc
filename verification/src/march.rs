//! The bounded march of a ray towards a surface given by a distance field.
use vstd::prelude::*;

verus! {

/// The most samples of the field that one ray may take.
pub const MARCH_CAP: usize = 128;

/// What sampling the field at a point tells the march.
pub enum Probe<P> {
    /// The point lies inside the surface.
    Inside,
    /// The point lies outside; the march goes on from the point given.
    Outside(P),
}

/// `path` is a run of the march: every point but the last was sampled and
/// found outside, and the march went on from it to the next.
pub open spec fn marches<P, S: Fn(P) -> Probe<P>>(probe: S, path: Seq<P>) -> bool {
    forall|k: int|
        0 <= k < path.len() - 1 ==> probe.ensures((#[trigger] path[k],), Probe::Outside(path[k + 1]))
}

/// `hit` is what a march along `path` from `origin` comes to: the last point
/// of a path of at most `MARCH_CAP` points, sampled and found inside, or
/// nothing after `MARCH_CAP` samples that all lay outside.
pub open spec fn traced<P, S: Fn(P) -> Probe<P>>(
    probe: S,
    origin: P,
    path: Seq<P>,
    hit: Option<P>,
) -> bool {
    &&& path.len() >= 1
    &&& path[0] == origin
    &&& marches(probe, path)
    &&& match hit {
        Some(p) => path.len() <= MARCH_CAP && p == path.last() && probe.ensures(
            (p,),
            Probe::Inside,
        ),
        None => path.len() == MARCH_CAP + 1,
    }
}

/// The number of samples that a march along `path` took to come to `hit`.
pub open spec fn samples_taken<P>(path: Seq<P>, hit: Option<P>) -> int {
    if hit is Some {
        path.len() as int
    } else {
        path.len() - 1
    }
}

/// `probe` tells at most one thing of each point.
pub open spec fn pure_probe<P, S: Fn(P) -> Probe<P>>(probe: S) -> bool {
    forall|p: P, a: Probe<P>, b: Probe<P>|
        probe.ensures((p,), a) && probe.ensures((p,), b) ==> a == b
}

/// Marches from `origin` until a sample lies inside the surface, and returns
/// the point of that sample: the first one inside, with no refinement towards
/// the surface. A ray that is `culled`, because it passes the bounding sphere
/// by, hits nothing and is never sampled: `probe` need not even accept a
/// point then. A ray that is still outside after `MARCH_CAP` samples hits
/// nothing either.
pub fn sphere_trace<P, S>(origin: P, culled: bool, probe: &S) -> (hit: Option<P>)
    where P: Copy, S: Fn(P) -> Probe<P>,
    requires
        !culled ==> forall|p: P| probe.requires((p,)),
    ensures
        culled ==> hit is None,
        !culled ==> exists|path: Seq<P>| traced(*probe, origin, path, hit),
{
    if culled {
        return None;
    }
    let mut pos: P = origin;
    let ghost mut path: Seq<P> = seq![origin];
    let mut taken: usize = 0;
    while taken < MARCH_CAP
        invariant
            !culled,
            taken <= MARCH_CAP,
            forall|p: P| probe.requires((p,)),
            path.len() == taken + 1,
            path[0] == origin,
            path.last() == pos,
            marches(*probe, path),
        decreases MARCH_CAP - taken,
    {
        match probe(pos) {
            Probe::Inside => {
                assert(traced(*probe, origin, path, Some(pos)));
                return Some(pos);
            },
            Probe::Outside(next) => {
                proof {
                    let longer = path.push(next);
                    assert forall|k: int| 0 <= k < longer.len() - 1 implies probe.ensures(
                        (#[trigger] longer[k],),
                        Probe::Outside(longer[k + 1]),
                    ) by {
                        if k < path.len() - 1 {
                            assert(longer[k] == path[k]);
                            assert(longer[k + 1] == path[k + 1]);
                        }
                    }
                    path = longer;
                }
                pos = next;
                taken = taken + 1;
            },
        }
    }
    assert(traced(*probe, origin, path, None::<P>));
    None
}

/// No march takes more than `MARCH_CAP` samples, and one that hits nothing
/// takes exactly that many.
pub proof fn lemma_samples_within_cap<P, S: Fn(P) -> Probe<P>>(
    probe: S,
    origin: P,
    path: Seq<P>,
    hit: Option<P>,
)
    requires
        traced(probe, origin, path, hit),
    ensures
        1 <= samples_taken(path, hit) <= MARCH_CAP,
        hit is None ==> samples_taken(path, hit) == MARCH_CAP,
{
}

/// Two runs of the march from one origin, sampled by the same pure probe,
/// pass through the same points as far as both go.
pub proof fn lemma_paths_agree<P, S: Fn(P) -> Probe<P>>(
    probe: S,
    origin: P,
    path_a: Seq<P>,
    path_b: Seq<P>,
    k: int,
)
    requires
        pure_probe(probe),
        path_a.len() >= 1,
        path_b.len() >= 1,
        path_a[0] == origin,
        path_b[0] == origin,
        marches(probe, path_a),
        marches(probe, path_b),
        0 <= k < path_a.len(),
        k < path_b.len(),
    ensures
        path_a[k] == path_b[k],
    decreases k,
{
    if k > 0 {
        lemma_paths_agree(probe, origin, path_a, path_b, k - 1);
        assert(probe.ensures((path_a[k - 1],), Probe::Outside(path_a[k])));
        assert(probe.ensures((path_b[k - 1],), Probe::Outside(path_b[k])));
    }
}

/// With a pure probe the march is a function of its origin: two marches from
/// one origin come to the same hit, after the same samples.
pub proof fn lemma_trace_reproducible<P, S: Fn(P) -> Probe<P>>(
    probe: S,
    origin: P,
    path_a: Seq<P>,
    hit_a: Option<P>,
    path_b: Seq<P>,
    hit_b: Option<P>,
)
    requires
        pure_probe(probe),
        traced(probe, origin, path_a, hit_a),
        traced(probe, origin, path_b, hit_b),
    ensures
        hit_a == hit_b,
        path_a == path_b,
{
    let la = path_a.len() as int;
    let lb = path_b.len() as int;
    if la < lb {
        lemma_paths_agree(probe, origin, path_a, path_b, la - 1);
        assert(probe.ensures((path_b[la - 1],), Probe::Outside(path_b[la])));
        assert(hit_a is Some);
        assert(probe.ensures((path_a[la - 1],), Probe::<P>::Inside));
        assert(false);
    }
    if lb < la {
        lemma_paths_agree(probe, origin, path_a, path_b, lb - 1);
        assert(probe.ensures((path_a[lb - 1],), Probe::Outside(path_a[lb])));
        assert(hit_b is Some);
        assert(probe.ensures((path_b[lb - 1],), Probe::<P>::Inside));
        assert(false);
    }
    assert forall|k: int| 0 <= k < la implies path_a[k] == path_b[k] by {
        lemma_paths_agree(probe, origin, path_a, path_b, k);
    }
    assert(path_a =~= path_b);
}

} // verus!
