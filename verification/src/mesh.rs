use vstd::prelude::*;
use crate::ring::{decides3, lemma_ring_neighbours};

verus! {

/// Where a point lies against a directed edge, read from the sign of their cross
/// product within a tolerance band: `Left` above the band, `On` inside it,
/// `Right` below it, `Unordered` when the product is not a number.
#[derive(Clone, Copy, Debug, PartialEq, Eq, Structural)]
pub enum Side {
    Left,
    On,
    Right,
    Unordered,
}

/// The cross product lies at or above the lower edge of the band.
pub open spec fn not_right(s: Side) -> bool {
    s == Side::Left || s == Side::On
}

/// The cross product lies at or below the upper edge of the band.
pub open spec fn not_left(s: Side) -> bool {
    s == Side::Right || s == Side::On
}

fn is_not_right(s: Side) -> (r: bool)
    ensures
        r == not_right(s),
{
    match s {
        Side::Left => true,
        Side::On => true,
        _ => false,
    }
}

fn is_not_left(s: Side) -> (r: bool)
    ensures
        r == not_left(s),
{
    match s {
        Side::Right => true,
        Side::On => true,
        _ => false,
    }
}

/// Whether a point lies in a triangle of either winding, border included, given
/// its sides `s1`, `s2`, `s3` against the edges a→b, b→c and c→a: it lies in it
/// when it is on no edge's right, or on no edge's left.
pub fn point_in_tri(s1: Side, s2: Side, s3: Side) -> (inside: bool)
    ensures
        inside == ((not_right(s1) && not_right(s2) && not_right(s3)) || (not_left(s1) && not_left(s2)
            && not_left(s3))),
{
    (is_not_right(s1) && is_not_right(s2) && is_not_right(s3)) || (is_not_left(s1) && is_not_left(s2)
        && is_not_left(s3))
}

/// `f` answers every question about four vertex indices, and always gives the
/// same answer to the same question.
pub open spec fn decides4<F: Fn(usize, usize, usize, usize) -> bool>(f: F) -> bool {
    &&& forall|p: usize, a: usize, b: usize, c: usize| #[trigger] f.requires((p, a, b, c))
    &&& forall|p: usize, a: usize, b: usize, c: usize, r1: bool, r2: bool|
        #![trigger f.ensures((p, a, b, c), r1), f.ensures((p, a, b, c), r2)]
        f.ensures((p, a, b, c), r1) && f.ensures((p, a, b, c), r2) ==> r1 == r2
}

/// The corner at position `k` of the outline `ids`: its vertex and the two
/// neighbours around it.
pub open spec fn corner_at(ids: Seq<usize>, k: int) -> (usize, usize, usize) {
    let n = ids.len() as int;
    (ids[(k + n - 1) % n], ids[k], ids[(k + 1) % n])
}

/// The corner at position `k` is an ear: `convex` says it turns the right way,
/// and `inside` says of no other vertex of the outline that it lies in the
/// corner's triangle.
pub open spec fn is_ear<C: Fn(usize, usize, usize) -> bool, I: Fn(usize, usize, usize, usize) -> bool>(
    ids: Seq<usize>,
    k: int,
    convex: C,
    inside: I,
) -> bool {
    let t = corner_at(ids, k);
    &&& 0 <= k < ids.len()
    &&& convex.ensures((t.0, t.1, t.2), true)
    &&& forall|m: int|
        0 <= m < ids.len() && ids[m] != t.0 && ids[m] != t.1 && ids[m] != t.2 ==> !inside.ensures(
            (#[trigger] ids[m], t.0, t.1, t.2),
            true,
        )
}

/// Position `k` holds the first ear of the outline.
pub open spec fn is_first_ear<C: Fn(usize, usize, usize) -> bool, I: Fn(usize, usize, usize, usize) -> bool>(
    ids: Seq<usize>,
    k: int,
    convex: C,
    inside: I,
) -> bool {
    &&& is_ear(ids, k, convex, inside)
    &&& forall|j: int| 0 <= j < k ==> !#[trigger] is_ear(ids, j, convex, inside)
}

/// The position of the first ear, if the outline has one.
pub open spec fn first_ear<C: Fn(usize, usize, usize) -> bool, I: Fn(usize, usize, usize, usize) -> bool>(
    ids: Seq<usize>,
    convex: C,
    inside: I,
) -> Option<int> {
    if exists|k: int| is_first_ear(ids, k, convex, inside) {
        Some(choose|k: int| is_first_ear(ids, k, convex, inside))
    } else {
        None
    }
}

/// The triangle of a corner, as three vertex indices.
pub open spec fn corner_triangle(t: (usize, usize, usize)) -> Seq<u32> {
    seq![t.0 as u32, t.1 as u32, t.2 as u32]
}

/// Ear clipping from the outline `ids` with the triangles `tris` cut so far:
/// while more than three vertices are left and fewer than `limit` rounds have
/// run, the first ear is cut off; it stops early when there is no ear.
pub open spec fn clip<C: Fn(usize, usize, usize) -> bool, I: Fn(usize, usize, usize, usize) -> bool>(
    ids: Seq<usize>,
    tris: Seq<u32>,
    rounds: nat,
    limit: nat,
    convex: C,
    inside: I,
) -> (Seq<usize>, Seq<u32>)
    decreases ids.len(),
{
    if ids.len() > 3 && rounds < limit {
        match first_ear(ids, convex, inside) {
            None => (ids, tris),
            Some(k) => {
                if 0 <= k < ids.len() {
                    clip(
                        ids.remove(k),
                        tris + corner_triangle(corner_at(ids, k)),
                        rounds + 1,
                        limit,
                        convex,
                        inside,
                    )
                } else {
                    (ids, tris)
                }
            },
        }
    } else {
        (ids, tris)
    }
}

/// The vertex indices `0..n`, backwards when the outline winds clockwise.
pub open spec fn start_order(n: nat, reversed: bool) -> Seq<usize> {
    Seq::new(
        n,
        |i: int|
            if reversed {
                (n - 1 - i) as usize
            } else {
                i as usize
            },
    )
}

/// The triangles cut so far, and the last three vertices as one more triangle
/// when exactly three are left.
pub open spec fn with_last_triangle(r: (Seq<usize>, Seq<u32>)) -> Seq<u32> {
    if r.0.len() == 3 {
        r.1 + corner_triangle((r.0[0], r.0[1], r.0[2]))
    } else {
        r.1
    }
}

/// The triangles, three vertex indices each, that ear clipping cuts from an
/// outline of `n` points: the ears, then the last three vertices if exactly three
/// are left. Nothing for fewer than three points.
pub open spec fn triangulated<C: Fn(usize, usize, usize) -> bool, I: Fn(usize, usize, usize, usize) -> bool>(
    n: nat,
    reversed: bool,
    convex: C,
    inside: I,
) -> Seq<u32> {
    if n < 3 {
        Seq::empty()
    } else {
        with_last_triangle(clip(start_order(n, reversed), Seq::empty(), 0, n * n, convex, inside))
    }
}

/// Triangulates an outline of `n` points by ear clipping. The outline is walked
/// in index order, or backwards when `reversed` (it winds clockwise).
/// `convex(a, b, c)` says that the corner a→b→c turns left; `inside(p, a, b, c)`
/// says that point `p` lies in the triangle a, b, c. Returns the triangles as
/// consecutive triples of vertex indices.
pub fn triangulate<C: Fn(usize, usize, usize) -> bool, I: Fn(usize, usize, usize, usize) -> bool>(
    n: usize,
    reversed: bool,
    convex: C,
    inside: I,
) -> (tris: Vec<u32>)
    requires
        decides3(convex),
        decides4(inside),
        n * n <= usize::MAX,
    ensures
        tris@ == triangulated(n as nat, reversed, convex, inside),
        triangles_over(tris@, n as nat),
        n >= 3 ==> tris@.len() <= 3 * (n - 2),
        forall|b: int, t: int|
            #![trigger corners_from(tris@, b), tris@[t]]
            0 <= b && b % 3 == 0 && b + 3 <= t < tris@.len() && tris@[t] != corners_from(tris@, b).0 && tris@[t] != corners_from(tris@, b).1
                && tris@[t] != corners_from(tris@, b).2 ==> !inside.ensures(
                (tris@[t] as usize, corners_from(tris@, b).0 as usize, corners_from(tris@, b).1 as usize, corners_from(tris@, b).2 as usize),
                true,
            ),
{
    if n < 3 {
        proof {
            lemma_triangles_well_formed(n, reversed, convex, inside);
        }
        return Vec::new();
    }
    let mut ids: Vec<usize> = Vec::new();
    let mut k: usize = 0;
    while k < n
        invariant
            k <= n,
            ids@ =~= start_order(n as nat, reversed).take(k as int),
        decreases n - k,
    {
        if reversed {
            ids.push(n - 1 - k);
        } else {
            ids.push(k);
        }
        k += 1;
    }
    proof {
        assert(start_order(n as nat, reversed).take(n as int) =~= start_order(n as nat, reversed));
    }
    let limit = n * n;
    let mut tris: Vec<u32> = Vec::new();
    let mut rounds: usize = 0;
    let mut stuck = false;
    while ids.len() > 3 && rounds < limit && !stuck
        invariant
            decides3(convex),
            decides4(inside),
            n >= 3,
            limit == n * n,
            rounds <= limit,
            ids@.len() <= n,
            triangulated(n as nat, reversed, convex, inside) == with_last_triangle(
                clip(ids@, tris@, rounds as nat, limit as nat, convex, inside),
            ),
            stuck ==> clip(ids@, tris@, rounds as nat, limit as nat, convex, inside) == (ids@, tris@),
        decreases ids@.len() + (if stuck {
            0int
        } else {
            1int
        }),
    {
        let len = ids.len();
        let mut found = false;
        let mut at: usize = 0;
        let mut q: usize = 0;
        while q < len && !found
            invariant
                decides3(convex),
                decides4(inside),
                len == ids@.len(),
                len > 3,
                q <= len,
                found ==> at < len && is_first_ear(ids@, at as int, convex, inside),
                !found ==> forall|j: int| 0 <= j < q ==> !#[trigger] is_ear(ids@, j, convex, inside),
            decreases len - q + (if found {
                0int
            } else {
                1int
            }),
        {
            let ia = if q == 0 {
                ids[len - 1]
            } else {
                ids[q - 1]
            };
            let ib = ids[q];
            let ic = if q + 1 == len {
                ids[0]
            } else {
                ids[q + 1]
            };
            proof {
                lemma_ring_neighbours(q as int, len as int);
                assert(corner_at(ids@, q as int) == (ia, ib, ic));
            }
            if convex(ia, ib, ic) {
                let mut holds = false;
                let mut m: usize = 0;
                while m < len && !holds
                    invariant
                        decides4(inside),
                        len == ids@.len(),
                        m <= len,
                        holds ==> exists|m2: int|
                            0 <= m2 < len && ids@[m2] != ia && ids@[m2] != ib && ids@[m2] != ic
                                && inside.ensures((#[trigger] ids@[m2], ia, ib, ic), true),
                        !holds ==> forall|m2: int|
                            0 <= m2 < m && ids@[m2] != ia && ids@[m2] != ib && ids@[m2] != ic ==> !inside.ensures(
                                (#[trigger] ids@[m2], ia, ib, ic),
                                true,
                            ),
                    decreases len - m + (if holds {
                        0int
                    } else {
                        1int
                    }),
                {
                    let j = ids[m];
                    if j != ia && j != ib && j != ic {
                        if inside(j, ia, ib, ic) {
                            holds = true;
                        }
                    }
                    m += 1;
                }
                if !holds {
                    found = true;
                    at = q;
                } else {
                    proof {
                        assert(!is_ear(ids@, q as int, convex, inside));
                    }
                }
            } else {
                proof {
                    assert(!is_ear(ids@, q as int, convex, inside));
                }
            }
            if !found {
                q += 1;
            }
        }
        if found {
            let ia = if at == 0 {
                ids[len - 1]
            } else {
                ids[at - 1]
            };
            let ib = ids[at];
            let ic = if at + 1 == len {
                ids[0]
            } else {
                ids[at + 1]
            };
            let ghost old_ids = ids@;
            let ghost old_tris = tris@;
            proof {
                lemma_ring_neighbours(at as int, len as int);
                assert(corner_at(old_ids, at as int) == (ia, ib, ic));
                let c = choose|k: int| is_first_ear(old_ids, k, convex, inside);
                lemma_first_ear_unique(old_ids, c, at as int, convex, inside);
                assert(first_ear(old_ids, convex, inside) == Some(at as int));
            }
            tris.push(ia as u32);
            tris.push(ib as u32);
            tris.push(ic as u32);
            ids.remove(at);
            proof {
                assert(tris@ =~= old_tris + corner_triangle((ia, ib, ic)));
            }
            rounds += 1;
        } else {
            proof {
                assert forall|k: int| !is_first_ear(ids@, k, convex, inside) by {
                    if 0 <= k < len {
                        assert(!is_ear(ids@, k, convex, inside));
                    }
                }
                assert(first_ear(ids@, convex, inside) == None::<int>);
            }
            stuck = true;
        }
    }
    proof {
        assert(clip(ids@, tris@, rounds as nat, limit as nat, convex, inside) == (ids@, tris@));
    }
    if ids.len() == 3 {
        let a = ids[0];
        let b = ids[1];
        let c = ids[2];
        let ghost before = tris@;
        tris.push(a as u32);
        tris.push(b as u32);
        tris.push(c as u32);
        proof {
            assert(tris@ =~= before + corner_triangle((a, b, c)));
        }
    }
    proof {
        assert(tris@ == triangulated(n as nat, reversed, convex, inside));
        lemma_triangles_well_formed(n, reversed, convex, inside);
        lemma_cut_ears_hold_no_later_vertex(n, reversed, convex, inside);
    }
    tris
}


/// Triangle `i` of `tris` has three different corners.
pub open spec fn distinct_corners(tris: Seq<u32>, i: int) -> bool {
    &&& tris[3 * i] != tris[3 * i + 1]
    &&& tris[3 * i + 1] != tris[3 * i + 2]
    &&& tris[3 * i] != tris[3 * i + 2]
}

/// `tris` is a list of whole triangles over the vertex indices `0..n`, none of
/// them with a repeated corner.
pub open spec fn triangles_over(tris: Seq<u32>, n: nat) -> bool {
    &&& tris.len() % 3 == 0
    &&& forall|t: int| 0 <= t < tris.len() ==> #[trigger] tris[t] < n
    &&& forall|i: int| 0 <= i < tris.len() / 3 ==> #[trigger] distinct_corners(tris, i)
}

proof fn lemma_side_below_u32(n: usize)
    requires
        n * n <= usize::MAX,
    ensures
        n <= u32::MAX,
{
    assert(usize::MAX <= u64::MAX);
    if n > u32::MAX {
        assert(n * n >= (u32::MAX as int + 1) * (u32::MAX as int + 1)) by (nonlinear_arith)
            requires
                n > u32::MAX,
        ;
    }
}

proof fn lemma_append_triangle(tris: Seq<u32>, n: nat, t: (usize, usize, usize))
    requires
        triangles_over(tris, n),
        n <= u32::MAX,
        t.0 < n,
        t.1 < n,
        t.2 < n,
        t.0 != t.1,
        t.1 != t.2,
        t.0 != t.2,
    ensures
        triangles_over(tris + corner_triangle(t), n),
        (tris + corner_triangle(t)).len() == tris.len() + 3,
{
    let s = tris + corner_triangle(t);
    let l = tris.len() as int;
    assert(s[l] == t.0 as u32);
    assert(s[l + 1] == t.1 as u32);
    assert(s[l + 2] == t.2 as u32);
    assert forall|k: int| 0 <= k < s.len() implies #[trigger] s[k] < n by {
        if k < l {
            assert(s[k] == tris[k]);
        }
    }
    assert forall|i: int| 0 <= i < s.len() / 3 implies #[trigger] distinct_corners(s, i) by {
        if i < l / 3 {
            assert(distinct_corners(tris, i));
            assert(s[3 * i] == tris[3 * i]);
            assert(s[3 * i + 1] == tris[3 * i + 1]);
            assert(s[3 * i + 2] == tris[3 * i + 2]);
        } else {
            assert(3 * i == l);
        }
    }
}

proof fn lemma_corner_distinct(ids: Seq<usize>, k: int)
    requires
        ids.no_duplicates(),
        ids.len() >= 3,
        0 <= k < ids.len(),
    ensures
        corner_at(ids, k).0 != corner_at(ids, k).1,
        corner_at(ids, k).1 != corner_at(ids, k).2,
        corner_at(ids, k).0 != corner_at(ids, k).2,
        ids.contains(corner_at(ids, k).0),
        ids.contains(corner_at(ids, k).1),
        ids.contains(corner_at(ids, k).2),
{
    let n = ids.len() as int;
    lemma_ring_neighbours(k, n);
    let p = (k + n - 1) % n;
    let q = (k + 1) % n;
    assert(ids[p] == corner_at(ids, k).0);
    assert(ids[q] == corner_at(ids, k).2);
}

proof fn lemma_clip_facts<C: Fn(usize, usize, usize) -> bool, I: Fn(usize, usize, usize, usize) -> bool>(
    ids: Seq<usize>,
    tris: Seq<u32>,
    rounds: nat,
    n: nat,
    convex: C,
    inside: I,
)
    requires
        n <= u32::MAX,
        ids.no_duplicates(),
        forall|t: int| 0 <= t < ids.len() ==> #[trigger] ids[t] < n,
        ids.len() >= 3,
        rounds + ids.len() == n,
        tris.len() == 3 * rounds,
        triangles_over(tris, n),
    ensures
        ({
            let r = clip(ids, tris, rounds, n * n, convex, inside);
            &&& r.0.no_duplicates()
            &&& forall|t: int| 0 <= t < r.0.len() ==> #[trigger] r.0[t] < n
            &&& r.0.len() >= 3
            &&& r.1.len() == 3 * (n - r.0.len())
            &&& triangles_over(r.1, n)
            &&& r.0.len() > 3 ==> first_ear(r.0, convex, inside) is None
        }),
    decreases ids.len(),
{
    if ids.len() > 3 {
        assert(rounds < n * n) by (nonlinear_arith)
            requires
                rounds + ids.len() == n,
                ids.len() > 3,
        ;
        match first_ear(ids, convex, inside) {
            None => {},
            Some(k) => {
                let c = choose|k: int| is_first_ear(ids, k, convex, inside);
                assert(is_first_ear(ids, c, convex, inside));
                assert(0 <= k < ids.len());
                lemma_corner_distinct(ids, k);
                let t = corner_at(ids, k);
                lemma_append_triangle(tris, n, t);
                let rest = ids.remove(k);
                ids.remove_ensures(k);
                assert forall|t2: int| 0 <= t2 < rest.len() implies #[trigger] rest[t2] < n by {
                    if t2 < k {
                        assert(rest[t2] == ids[t2]);
                    } else {
                        assert(rest[t2] == ids[t2 + 1]);
                    }
                }
                assert forall|a: int, b: int| 0 <= a < rest.len() && 0 <= b < rest.len() && a != b implies rest[a]
                    != rest[b] by {
                    let a2 = if a < k { a } else { a + 1 };
                    let b2 = if b < k { b } else { b + 1 };
                    assert(rest[a] == ids[a2]);
                    assert(rest[b] == ids[b2]);
                }
                lemma_clip_facts(rest, tris + corner_triangle(t), rounds + 1, n, convex, inside);
            },
        }
    }
}

/// Ear clipping yields whole triangles over the outline's own vertices, none with
/// a repeated corner, and at most two fewer triangles than points.
pub proof fn lemma_triangles_well_formed<C: Fn(usize, usize, usize) -> bool, I: Fn(
    usize,
    usize,
    usize,
    usize,
) -> bool>(n: usize, reversed: bool, convex: C, inside: I)
    requires
        n * n <= usize::MAX,
    ensures
        triangles_over(triangulated(n as nat, reversed, convex, inside), n as nat),
        n >= 3 ==> triangulated(n as nat, reversed, convex, inside).len() <= 3 * (n - 2),
{
    if n >= 3 {
        lemma_side_below_u32(n);
        lemma_start_facts(n as nat, reversed);
        let start = start_order(n as nat, reversed);
        assert(triangles_over(Seq::<u32>::empty(), n as nat));
        lemma_clip_facts(start, Seq::empty(), 0, n as nat, convex, inside);
        let r = clip(start, Seq::empty(), 0, (n * n) as nat, convex, inside);
        if r.0.len() == 3 {
            assert(r.0.contains(r.0[0]) && r.0.contains(r.0[1]) && r.0.contains(r.0[2]));
            lemma_append_triangle(r.1, n as nat, (r.0[0], r.0[1], r.0[2]));
        }
    } else {
        assert(triangles_over(Seq::<u32>::empty(), n as nat));
    }
}

/// Ear clipping stops with more than three vertices left only when no corner of
/// what is left is an ear: its round limit never cuts it short.
pub proof fn lemma_clipping_stops_only_when_stuck<C: Fn(usize, usize, usize) -> bool, I: Fn(
    usize,
    usize,
    usize,
    usize,
) -> bool>(n: usize, reversed: bool, convex: C, inside: I)
    requires
        n * n <= usize::MAX,
        n >= 3,
    ensures
        ({
            let r = clip(start_order(n as nat, reversed), Seq::empty(), 0, n as nat * n as nat, convex, inside);
            r.0.len() > 3 ==> first_ear(r.0, convex, inside) is None
        }),
{
    lemma_side_below_u32(n);
    lemma_start_facts(n as nat, reversed);
    assert(triangles_over(Seq::<u32>::empty(), n as nat));
    lemma_clip_facts(start_order(n as nat, reversed), Seq::empty(), 0, n as nat, convex, inside);
}

proof fn lemma_start_facts(n: nat, reversed: bool)
    requires
        n <= u32::MAX,
    ensures
        start_order(n, reversed).no_duplicates(),
        forall|t: int| 0 <= t < start_order(n, reversed).len() ==> #[trigger] start_order(n, reversed)[t] < n,
        start_order(n, reversed).len() == n,
{
}


/// The corners of the triangle that starts at position `b` of `tris`.
pub open spec fn corners_from(tris: Seq<u32>, b: int) -> (u32, u32, u32) {
    (tris[b], tris[b + 1], tris[b + 2])
}

/// No triangle from position `from` on holds a vertex of a later triangle:
/// `inside` says of no such vertex that it lies in the earlier triangle.
#[verifier::opaque]
spec fn clear_after<I: Fn(usize, usize, usize, usize) -> bool>(full: Seq<u32>, from: int, inside: I) -> bool {
    forall|b: int, t: int|
        #![trigger corners_from(full, b), full[t]]
        from <= b && b % 3 == 0 && b + 3 <= t < full.len() && full[t] != corners_from(full, b).0 && full[t] != corners_from(full, b).1
            && full[t] != corners_from(full, b).2 ==> !inside.ensures(
            (full[t] as usize, corners_from(full, b).0 as usize, corners_from(full, b).1 as usize, corners_from(full, b).2 as usize),
            true,
        )
}

/// `x` is one of `ids`, cut to 32 bits.
spec fn came_from(x: u32, ids: Seq<usize>) -> bool {
    exists|m: int| 0 <= m < ids.len() && x == ids[m] as u32
}

/// Every entry of `full` from position `from` on is one of `ids`, cut to 32 bits.
#[verifier::opaque]
spec fn drawn_from(full: Seq<u32>, from: int, ids: Seq<usize>) -> bool {
    forall|t: int| from <= t < full.len() ==> #[trigger] came_from(full[t], ids)
}

proof fn lemma_drawn_extend(full: Seq<u32>, l: int, ids: Seq<usize>, rest: Seq<usize>, k: int, tri: (usize, usize, usize))
    requires
        0 <= l,
        l + 3 <= full.len(),
        0 <= k < ids.len(),
        rest == ids.remove(k),
        drawn_from(full, l + 3, rest),
        ids.contains(tri.0) && ids.contains(tri.1) && ids.contains(tri.2),
        full[l] == tri.0 as u32 && full[l + 1] == tri.1 as u32 && full[l + 2] == tri.2 as u32,
    ensures
        drawn_from(full, l, ids),
{
    ids.remove_ensures(k);
    assert forall|t: int| l <= t < full.len() implies #[trigger] came_from(full[t], ids) by {
        if t == l {
            let m = choose|m: int| 0 <= m < ids.len() && ids[m] == tri.0;
            assert(full[t] == ids[m] as u32);
        } else if t == l + 1 {
            let m = choose|m: int| 0 <= m < ids.len() && ids[m] == tri.1;
            assert(full[t] == ids[m] as u32);
        } else if t == l + 2 {
            let m = choose|m: int| 0 <= m < ids.len() && ids[m] == tri.2;
            assert(full[t] == ids[m] as u32);
        } else {
            lemma_drawn_at(full, l + 3, rest, t);
            let m = choose|m: int| 0 <= m < rest.len() && full[t] == rest[m] as u32;
            if m < k {
                assert(rest[m] == ids[m]);
                assert(full[t] == ids[m] as u32);
            } else {
                assert(rest[m] == ids[m + 1]);
                assert(full[t] == ids[m + 1] as u32);
            }
        }
    }
    assert(drawn_from(full, l, ids)) by {
        reveal(drawn_from);
    }
}

proof fn lemma_new_ear_clear<C: Fn(usize, usize, usize) -> bool, I: Fn(usize, usize, usize, usize) -> bool>(
    full: Seq<u32>,
    l: int,
    ids: Seq<usize>,
    rest: Seq<usize>,
    k: int,
    n: nat,
    convex: C,
    inside: I,
)
    requires
        n <= u32::MAX,
        0 <= l,
        l % 3 == 0,
        l + 3 <= full.len(),
        0 <= k < ids.len(),
        rest == ids.remove(k),
        forall|t: int| 0 <= t < ids.len() ==> #[trigger] ids[t] < n,
        is_ear(ids, k, convex, inside),
        corner_at(ids, k).0 < n && corner_at(ids, k).1 < n && corner_at(ids, k).2 < n,
        full[l] == corner_at(ids, k).0 as u32,
        full[l + 1] == corner_at(ids, k).1 as u32,
        full[l + 2] == corner_at(ids, k).2 as u32,
        drawn_from(full, l + 3, rest),
        clear_after(full, l + 3, inside),
    ensures
        clear_after(full, l, inside),
{
    ids.remove_ensures(k);
    let tri = corner_at(ids, k);
    assert forall|b: int, t: int|
        #![trigger corners_from(full, b), full[t]]
        l <= b && b % 3 == 0 && b + 3 <= t < full.len() && full[t] != corners_from(full, b).0 && full[t] != corners_from(full, b).1
            && full[t] != corners_from(full, b).2 implies !inside.ensures(
            (full[t] as usize, corners_from(full, b).0 as usize, corners_from(full, b).1 as usize, corners_from(full, b).2 as usize),
            true,
        ) by {
        if b >= l + 3 {
            lemma_clear_at(full, l + 3, inside, b, t);
        } else {
            assert(b == l);
            lemma_drawn_at(full, l + 3, rest, t);
            let m = choose|m: int| 0 <= m < rest.len() && full[t] == rest[m] as u32;
            let m2 = if m < k { m } else { m + 1 };
            assert(rest[m] == ids[m2]);
            assert(ids[m2] < n);
            assert(ids[m2] != tri.0 && ids[m2] != tri.1 && ids[m2] != tri.2);
            assert(!inside.ensures((ids[m2], tri.0, tri.1, tri.2), true));
            assert(full[t] as usize == ids[m2]);
        }
    }
    assert(clear_after(full, l, inside)) by {
        reveal(clear_after);
    }
}

proof fn lemma_clear_at<I: Fn(usize, usize, usize, usize) -> bool>(full: Seq<u32>, from: int, inside: I, b: int, t: int)
    requires
        clear_after(full, from, inside),
        from <= b && b % 3 == 0 && b + 3 <= t < full.len() && full[t] != full[b] && full[t] != full[b + 1]
            && full[t] != full[b + 2],
    ensures
        !inside.ensures((full[t] as usize, full[b] as usize, full[b + 1] as usize, full[b + 2] as usize), true),
{
    reveal(clear_after);
    assert(corners_from(full, b) == (full[b], full[b + 1], full[b + 2]));
}

proof fn lemma_drawn_at(full: Seq<u32>, from: int, ids: Seq<usize>, t: int)
    requires
        drawn_from(full, from, ids),
        from <= t < full.len(),
    ensures
        came_from(full[t], ids),
{
    reveal(drawn_from);
}

proof fn lemma_clip_clear<C: Fn(usize, usize, usize) -> bool, I: Fn(usize, usize, usize, usize) -> bool>(
    ids: Seq<usize>,
    tris: Seq<u32>,
    rounds: nat,
    n: nat,
    convex: C,
    inside: I,
)
    requires
        n <= u32::MAX,
        ids.no_duplicates(),
        forall|t: int| 0 <= t < ids.len() ==> #[trigger] ids[t] < n,
        ids.len() >= 3,
        rounds + ids.len() == n,
        tris.len() == 3 * rounds,
    ensures
        ({
            let full = with_last_triangle(clip(ids, tris, rounds, n * n, convex, inside));
            &&& full.len() >= tris.len()
            &&& forall|t: int| 0 <= t < tris.len() ==> #[trigger] full[t] == tris[t]
            &&& drawn_from(full, tris.len() as int, ids)
            &&& clear_after(full, tris.len() as int, inside)
        }),
    decreases ids.len(),
{
    let full = with_last_triangle(clip(ids, tris, rounds, n * n, convex, inside));
    let l = tris.len() as int;
    if ids.len() > 3 && rounds < n * n && first_ear(ids, convex, inside) is Some {
        let k = first_ear(ids, convex, inside)->Some_0;
        let c = choose|k: int| is_first_ear(ids, k, convex, inside);
        assert(is_first_ear(ids, c, convex, inside));
        assert(is_ear(ids, k, convex, inside));
        lemma_corner_distinct(ids, k);
        let tri = corner_at(ids, k);
        let tris2 = tris + corner_triangle(tri);
        let rest = ids.remove(k);
        ids.remove_ensures(k);
        assert forall|t2: int| 0 <= t2 < rest.len() implies #[trigger] rest[t2] < n by {
            if t2 < k {
                assert(rest[t2] == ids[t2]);
            } else {
                assert(rest[t2] == ids[t2 + 1]);
            }
        }
        assert forall|a: int, b: int| 0 <= a < rest.len() && 0 <= b < rest.len() && a != b implies rest[a]
            != rest[b] by {
            let a2 = if a < k { a } else { a + 1 };
            let b2 = if b < k { b } else { b + 1 };
            assert(rest[a] == ids[a2]);
            assert(rest[b] == ids[b2]);
        }
        assert(clip(ids, tris, rounds, n * n, convex, inside) == clip(rest, tris2, rounds + 1, n * n, convex, inside));
        lemma_clip_clear(rest, tris2, rounds + 1, n, convex, inside);
        assert(full[l] == tris2[l]);
        assert(full[l + 1] == tris2[l + 1]);
        assert(full[l + 2] == tris2[l + 2]);
        assert(tri.0 < n && tri.1 < n && tri.2 < n) by {
            let i0 = choose|m: int| 0 <= m < ids.len() && ids[m] == tri.0;
            let i1 = choose|m: int| 0 <= m < ids.len() && ids[m] == tri.1;
            let i2 = choose|m: int| 0 <= m < ids.len() && ids[m] == tri.2;
        }
        lemma_drawn_extend(full, l, ids, rest, k, tri);
        lemma_new_ear_clear(full, l, ids, rest, k, n, convex, inside);
        assert forall|t: int| 0 <= t < l implies #[trigger] full[t] == tris[t] by {
            assert(full[t] == tris2[t]);
        }
    } else {
        assert(clip(ids, tris, rounds, n * n, convex, inside) == (ids, tris));
        if ids.len() == 3 {
            let last = corner_triangle((ids[0], ids[1], ids[2]));
            assert(full == tris + last);
            assert forall|t: int| l <= t < full.len() implies #[trigger] came_from(full[t], ids) by {
                assert(full[t] == ids[t - l] as u32);
            }
        }
        assert(drawn_from(full, l, ids)) by {
            reveal(drawn_from);
        }
        assert(clear_after(full, l, inside)) by {
            reveal(clear_after);
        }
    }
}

/// No ear that clipping cuts holds a vertex still to come: for every triangle
/// of the result and every vertex of a later triangle other than its corners,
/// `inside` does not say that the vertex lies in the triangle.
pub proof fn lemma_cut_ears_hold_no_later_vertex<C: Fn(usize, usize, usize) -> bool, I: Fn(
    usize,
    usize,
    usize,
    usize,
) -> bool>(n: usize, reversed: bool, convex: C, inside: I)
    requires
        n * n <= usize::MAX,
    ensures
        ({
            let tris = triangulated(n as nat, reversed, convex, inside);
            forall|b: int, t: int|
                #![trigger corners_from(tris, b), tris[t]]
                0 <= b && b % 3 == 0 && b + 3 <= t < tris.len() && tris[t] != corners_from(tris, b).0 && tris[t] != corners_from(tris, b).1
                    && tris[t] != corners_from(tris, b).2 ==> !inside.ensures(
                    (tris[t] as usize, corners_from(tris, b).0 as usize, corners_from(tris, b).1 as usize, corners_from(tris, b).2 as usize),
                    true,
                )
        }),
{
    if n >= 3 {
        lemma_side_below_u32(n);
        lemma_start_facts(n as nat, reversed);
        lemma_clip_clear(start_order(n as nat, reversed), Seq::empty(), 0, n as nat, convex, inside);
        let tris = triangulated(n as nat, reversed, convex, inside);
        reveal(clear_after);
        assert(clear_after(tris, 0, inside));
    }
}

proof fn lemma_first_ear_unique<C: Fn(usize, usize, usize) -> bool, I: Fn(usize, usize, usize, usize) -> bool>(
    ids: Seq<usize>,
    a: int,
    b: int,
    convex: C,
    inside: I,
)
    requires
        is_first_ear(ids, a, convex, inside),
        is_first_ear(ids, b, convex, inside),
    ensures
        a == b,
{
    if a < b {
        assert(!is_ear(ids, a, convex, inside));
    } else if b < a {
        assert(!is_ear(ids, b, convex, inside));
    }
}

} // verus!
