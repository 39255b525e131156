//! The depth-counter walks of constructive solid geometry.
//!
//! A combinator merges the hits of its two children into one stream sorted by
//! distance, cancels coincident pairs, and then walks the stream keeping a depth
//! counter: one more on each front-face hit, one less on each back-face hit. The
//! walk decides which hits of the stream the combined solid emits, and for a
//! difference which way each emitted hit faces. Here the stream is given by its
//! face flags alone (`true` for a front face); the result names stream indices.
use vstd::prelude::*;

verus! {

/// How two solids are combined.
#[derive(Clone, Copy, Debug, PartialEq, Eq, Structural)]
pub enum CsgOp {
    /// Inside either child.
    Union,
    /// Inside both children.
    Intersection,
    /// Inside the first child and not the second; the first child's hits enter
    /// the stream twice.
    Difference,
}

/// What a combinator returns when a child has no hit along the ray.
#[derive(Clone, Copy, Debug, PartialEq, Eq, Structural)]
pub enum Shortcut {
    /// The first child's hits, as they are.
    First,
    /// The second child's hits, as they are.
    Second,
    /// Neither child is empty: merge the two streams and walk them.
    Merge,
}

/// The shortcut of `op` when the first or the second child has no hit: a union
/// is the other child; an intersection is empty, as the empty child is; a
/// difference is the first child.
pub open spec fn shortcut_of(op: CsgOp, first_empty: bool, second_empty: bool) -> Shortcut {
    if !first_empty && !second_empty {
        Shortcut::Merge
    } else {
        match op {
            CsgOp::Union => if first_empty {
                Shortcut::Second
            } else {
                Shortcut::First
            },
            CsgOp::Intersection => if first_empty {
                Shortcut::First
            } else {
                Shortcut::Second
            },
            CsgOp::Difference => Shortcut::First,
        }
    }
}

/// Decides whether `op` can skip the merge because a child has no hit.
pub fn csg_shortcut(op: CsgOp, first_empty: bool, second_empty: bool) -> (r: Shortcut)
    ensures
        r == shortcut_of(op, first_empty, second_empty),
{
    if !first_empty && !second_empty {
        return Shortcut::Merge;
    }
    match op {
        CsgOp::Union => if first_empty {
            Shortcut::Second
        } else {
            Shortcut::First
        },
        CsgOp::Intersection => if first_empty {
            Shortcut::First
        } else {
            Shortcut::Second
        },
        CsgOp::Difference => Shortcut::First,
    }
}

/// The depth counter before hit `i` of the stream `f`.
pub open spec fn depth(f: Seq<bool>, i: int) -> int
    decreases i,
{
    if i <= 0 {
        0
    } else {
        depth(f, i - 1) + if f[i - 1] {
            1int
        } else {
            -1int
        }
    }
}

/// Whether `op` emits hit `i` of the stream `f`: a union where the counter
/// leaves or returns to zero, an intersection where it reaches or leaves two, a
/// difference where it enters or leaves two.
pub open spec fn emits(op: CsgOp, f: Seq<bool>, i: int) -> bool {
    match op {
        CsgOp::Union => if f[i] {
            depth(f, i) == 0
        } else {
            depth(f, i + 1) == 0
        },
        CsgOp::Intersection => if f[i] {
            depth(f, i + 1) == 2
        } else {
            depth(f, i) == 2
        },
        CsgOp::Difference => depth(f, i) == 2 || depth(f, i + 1) == 2,
    }
}

/// The indices below `n` of the hits that `op` emits, in increasing order.
pub open spec fn selection(op: CsgOp, f: Seq<bool>, n: int) -> Seq<int>
    decreases n,
{
    if n <= 0 {
        Seq::empty()
    } else if emits(op, f, n - 1) {
        selection(op, f, n - 1).push(n - 1)
    } else {
        selection(op, f, n - 1)
    }
}

/// Which way the `k`-th emitted hit faces. A union or an intersection keeps the
/// hit's own face; a difference alternates, entering first, since its solid is
/// entered and left in turn.
pub open spec fn emitted_face(op: CsgOp, f: Seq<bool>, i: int, k: int) -> bool {
    match op {
        CsgOp::Difference => k % 2 == 0,
        _ => f[i],
    }
}

/// What the walk of `op` over the stream `f` emits: each emitted stream index,
/// with the face of the emitted hit. Where that face differs from the stream's,
/// the hit is emitted flipped (its normal reversed).
pub open spec fn walk(op: CsgOp, f: Seq<bool>) -> Seq<(int, bool)> {
    let s = selection(op, f, f.len() as int);
    Seq::new(s.len(), |k: int| (s[k], emitted_face(op, f, s[k], k)))
}

/// The emitted indices and faces as integers.
pub open spec fn as_walk(r: Seq<(usize, bool)>) -> Seq<(int, bool)> {
    r.map_values(|e: (usize, bool)| (e.0 as int, e.1))
}

proof fn lemma_selection_bounds(op: CsgOp, f: Seq<bool>, n: int)
    requires
        0 <= n,
    ensures
        forall|a: int| 0 <= a < selection(op, f, n).len() ==> 0 <= #[trigger] selection(op, f, n)[a] < n,
        forall|a: int, b: int|
            0 <= a < b < selection(op, f, n).len() ==> #[trigger] selection(op, f, n)[a] < #[trigger] selection(op, f, n)[b],
    decreases n,
{
    if n > 0 {
        lemma_selection_bounds(op, f, n - 1);
        let p = selection(op, f, n - 1);
        let s = selection(op, f, n);
        if emits(op, f, n - 1) {
            assert(s == p.push(n - 1));
            assert forall|a: int| 0 <= a < s.len() implies 0 <= #[trigger] s[a] < n by {
                if a < p.len() {
                    assert(s[a] == p[a]);
                }
            }
            assert forall|a: int, b: int| 0 <= a < b < s.len() implies #[trigger] s[a] < #[trigger] s[b] by {
                assert(s[a] == p[a]);
                if b < p.len() {
                    assert(s[b] == p[b]);
                }
            }
        }
    }
}

/// Walks the face flags of a merged, sorted and cancelled hit stream, and returns
/// the hits that `op` emits, in stream order, with the face of each.
pub fn csg_walk(op: CsgOp, faces: &[bool]) -> (r: Vec<(usize, bool)>)
    ensures
        as_walk(r@) == walk(op, faces@),
        forall|a: int| 0 <= a < r@.len() ==> (#[trigger] r@[a]).0 < faces@.len(),
        forall|a: int, b: int| 0 <= a < b < r@.len() ==> (#[trigger] r@[a]).0 < (#[trigger] r@[b]).0,
{
    let ghost f = faces@;
    let mut stack: i128 = 0;
    let mut is_front_face = false;
    let mut result: Vec<(usize, bool)> = Vec::new();
    let mut i: usize = 0;
    while i < faces.len()
        invariant
            f == faces@,
            i <= f.len(),
            stack == depth(f, i as int),
            -(i as int) <= stack <= i,
            is_front_face == (result@.len() % 2 == 1),
            as_walk(result@) == Seq::new(
                selection(op, f, i as int).len(),
                |k: int|
                    (
                        selection(op, f, i as int)[k],
                        emitted_face(op, f, selection(op, f, i as int)[k], k),
                    ),
            ),
        decreases f.len() - i,
    {
        let face = faces[i];
        let prev = stack;
        if face {
            stack = stack + 1;
        } else {
            stack = stack - 1;
        }
        let emit = match op {
            CsgOp::Union => if face {
                prev == 0
            } else {
                stack == 0
            },
            CsgOp::Intersection => if face {
                stack == 2
            } else {
                prev == 2
            },
            CsgOp::Difference => prev == 2 || stack == 2,
        };
        if emit {
            is_front_face = !is_front_face;
            let out_face = match op {
                CsgOp::Difference => is_front_face,
                _ => face,
            };
            let ghost before = result@;
            result.push((i, out_face));
            proof {
                let s = selection(op, f, i + 1);
                assert(s == selection(op, f, i as int).push(i as int));
                assert(as_walk(result@) =~= as_walk(before).push((i as int, out_face)));
                assert(as_walk(result@) =~= Seq::new(
                    s.len(),
                    |k: int| (s[k], emitted_face(op, f, s[k], k)),
                ));
            }
        }
        i += 1;
    }
    proof {
        lemma_selection_bounds(op, f, f.len() as int);
        let s = selection(op, f, f.len() as int);
        assert forall|a: int| 0 <= a < result@.len() implies (#[trigger] result@[a]).0 < f.len() by {
            assert(as_walk(result@)[a].0 == s[a]);
        }
        assert forall|a: int, b: int| 0 <= a < b < result@.len() implies (#[trigger] result@[a]).0
            < (#[trigger] result@[b]).0 by {
            assert(as_walk(result@)[a].0 == s[a]);
            assert(as_walk(result@)[b].0 == s[b]);
        }
    }
    result
}

/// The face flags of one solid's hits along a ray: fronts and backs in turn, a
/// front first.
pub open spec fn alternating(s: Seq<bool>) -> bool {
    forall|i: int| 0 <= i < s.len() ==> #[trigger] s[i] == (i % 2 == 0)
}

/// The merged stream of a solid combined with itself: each hit twice, side by side.
pub open spec fn doubled(s: Seq<bool>) -> Seq<bool> {
    Seq::new(2 * s.len(), |k: int| s[k / 2])
}

/// The merged stream of a difference of a solid with itself: the first child's
/// hits twice and the second's once, so each hit three times, side by side.
pub open spec fn tripled(s: Seq<bool>) -> Seq<bool> {
    Seq::new(3 * s.len(), |k: int| s[k / 3])
}

proof fn lemma_doubled_depth(s: Seq<bool>, i: int)
    requires
        alternating(s),
        0 <= i <= s.len(),
    ensures
        depth(doubled(s), 2 * i) == 2 * (i % 2),
    decreases i,
{
    if i > 0 {
        lemma_doubled_depth(s, i - 1);
        let d = doubled(s);
        assert(d[2 * i - 2] == s[i - 1]);
        assert(d[2 * i - 1] == s[i - 1]);
        assert(depth(d, 2 * i - 1) == depth(d, 2 * i - 2) + if s[i - 1] {
            1int
        } else {
            -1int
        });
    }
}

proof fn lemma_tripled_depth(s: Seq<bool>, i: int)
    requires
        alternating(s),
        0 <= i <= s.len(),
    ensures
        depth(tripled(s), 3 * i) == 3 * (i % 2),
    decreases i,
{
    if i > 0 {
        lemma_tripled_depth(s, i - 1);
        let t = tripled(s);
        assert(t[3 * i - 3] == s[i - 1]);
        assert(t[3 * i - 2] == s[i - 1]);
        assert(t[3 * i - 1] == s[i - 1]);
        assert(depth(t, 3 * i - 2) == depth(t, 3 * i - 3) + if s[i - 1] {
            1int
        } else {
            -1int
        });
        assert(depth(t, 3 * i - 1) == depth(t, 3 * i - 2) + if s[i - 1] {
            1int
        } else {
            -1int
        });
    }
}

proof fn lemma_doubled_selection(op: CsgOp, s: Seq<bool>, i: int)
    requires
        alternating(s),
        op != CsgOp::Difference,
        0 <= i <= s.len(),
    ensures
        selection(op, doubled(s), 2 * i) =~= Seq::new(
            i as nat,
            |k: int|
                if (k % 2 == 0) == (op == CsgOp::Union) {
                    2 * k
                } else {
                    2 * k + 1
                },
        ),
    decreases i,
{
    if i > 0 {
        let j = i - 1;
        let d = doubled(s);
        lemma_doubled_selection(op, s, j);
        lemma_doubled_depth(s, j);
        assert(d[2 * j] == s[j]);
        assert(d[2 * j + 1] == s[j]);
        assert(depth(d, 2 * j + 1) == depth(d, 2 * j) + if s[j] {
            1int
        } else {
            -1int
        });
        assert(depth(d, 2 * j + 2) == depth(d, 2 * j + 1) + if s[j] {
            1int
        } else {
            -1int
        });
        let p = selection(op, d, 2 * j);
        let q = selection(op, d, 2 * j + 1);
        let r = selection(op, d, 2 * j + 2);
        assert(q == if emits(op, d, 2 * j) {
            p.push(2 * j)
        } else {
            p
        });
        assert(r == if emits(op, d, 2 * j + 1) {
            q.push(2 * j + 1)
        } else {
            q
        });
        if j % 2 == 0 {
            assert(s[j]);
        } else {
            assert(!s[j]);
        }
    }
}

proof fn lemma_tripled_selection(s: Seq<bool>, i: int)
    requires
        alternating(s),
        0 <= i <= s.len(),
    ensures
        selection(CsgOp::Difference, tripled(s), 3 * i) =~= Seq::new(
            2 * i as nat,
            |k: int|
                if (k / 2) % 2 == 0 {
                    3 * (k / 2) + 1 + k % 2
                } else {
                    3 * (k / 2) + k % 2
                },
        ),
    decreases i,
{
    if i > 0 {
        let j = i - 1;
        let t = tripled(s);
        lemma_tripled_selection(s, j);
        lemma_tripled_depth(s, j);
        assert(t[3 * j] == s[j]);
        assert(t[3 * j + 1] == s[j]);
        assert(t[3 * j + 2] == s[j]);
        assert(depth(t, 3 * j + 1) == depth(t, 3 * j) + if s[j] {
            1int
        } else {
            -1int
        });
        assert(depth(t, 3 * j + 2) == depth(t, 3 * j + 1) + if s[j] {
            1int
        } else {
            -1int
        });
        assert(depth(t, 3 * j + 3) == depth(t, 3 * j + 2) + if s[j] {
            1int
        } else {
            -1int
        });
        let op = CsgOp::Difference;
        let p = selection(op, t, 3 * j);
        let q = selection(op, t, 3 * j + 1);
        let r = selection(op, t, 3 * j + 2);
        let u = selection(op, t, 3 * j + 3);
        assert(q == if emits(op, t, 3 * j) {
            p.push(3 * j)
        } else {
            p
        });
        assert(r == if emits(op, t, 3 * j + 1) {
            q.push(3 * j + 1)
        } else {
            q
        });
        assert(u == if emits(op, t, 3 * j + 2) {
            r.push(3 * j + 2)
        } else {
            r
        });
        if j % 2 == 0 {
            assert(s[j]);
        } else {
            assert(!s[j]);
        }
    }
}

/// The union of a solid with itself emits one copy of each of the solid's hits,
/// in order, each facing as it did.
pub proof fn lemma_union_self(s: Seq<bool>)
    requires
        alternating(s),
    ensures
        walk(CsgOp::Union, doubled(s)).len() == s.len(),
        forall|k: int|
            0 <= k < s.len() ==> (#[trigger] walk(CsgOp::Union, doubled(s))[k]).0 / 2 == k
                && walk(CsgOp::Union, doubled(s))[k].1 == s[k],
{
    lemma_doubled_selection(CsgOp::Union, s, s.len() as int);
    let d = doubled(s);
    assert(d.len() == 2 * s.len());
}

/// The intersection of a solid with itself emits one copy of each of the
/// solid's hits, in order, each facing as it did.
pub proof fn lemma_intersection_self(s: Seq<bool>)
    requires
        alternating(s),
    ensures
        walk(CsgOp::Intersection, doubled(s)).len() == s.len(),
        forall|k: int|
            0 <= k < s.len() ==> (#[trigger] walk(CsgOp::Intersection, doubled(s))[k]).0 / 2 == k
                && walk(CsgOp::Intersection, doubled(s))[k].1 == s[k],
{
    lemma_doubled_selection(CsgOp::Intersection, s, s.len() as int);
    let d = doubled(s);
    assert(d.len() == 2 * s.len());
}

/// The difference of a solid with itself emits each of the solid's hits as a
/// front-face hit directly followed by a back-face hit at the same place: pairs
/// that the cancellation of coincident hits then removes, leaving no hit.
pub proof fn lemma_difference_self(s: Seq<bool>)
    requires
        alternating(s),
    ensures
        walk(CsgOp::Difference, tripled(s)).len() == 2 * s.len(),
        forall|k: int|
            0 <= k < 2 * s.len() ==> (#[trigger] walk(CsgOp::Difference, tripled(s))[k]).0 / 3
                == k / 2 && walk(CsgOp::Difference, tripled(s))[k].1 == (k % 2 == 0),
{
    lemma_tripled_selection(s, s.len() as int);
    let t = tripled(s);
    assert(t.len() == 3 * s.len());
}

/// A walk keeps the order of its stream: where the stream's distances do not
/// decrease, neither do the distances of the emitted hits.
pub proof fn lemma_walk_keeps_order(op: CsgOp, f: Seq<bool>, dist: Seq<int>)
    requires
        dist.len() == f.len(),
        forall|i: int, j: int| 0 <= i <= j < dist.len() ==> dist[i] <= dist[j],
    ensures
        forall|a: int| 0 <= a < walk(op, f).len() ==> 0 <= #[trigger] walk(op, f)[a].0 < f.len(),
        forall|a: int, b: int|
            0 <= a <= b < walk(op, f).len() ==> dist[#[trigger] walk(op, f)[a].0] <= dist[#[trigger] walk(
                op,
                f,
            )[b].0],
{
    lemma_selection_bounds(op, f, f.len() as int);
    let s = selection(op, f, f.len() as int);
    assert forall|a: int, b: int| 0 <= a <= b < walk(op, f).len() implies dist[#[trigger] walk(
        op,
        f,
    )[a].0] <= dist[#[trigger] walk(op, f)[b].0] by {
        if a < b {
            assert(s[a] < s[b]);
        }
    }
}

} // verus!
