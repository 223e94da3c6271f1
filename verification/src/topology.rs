use vstd::prelude::*;

verus! {

/// The identity of a vertex: its coordinates rounded to whole steps of a fixed
/// grid, so that points that print alike are one vertex.
#[derive(Clone, Copy, Debug, PartialEq, Eq, Structural)]
pub struct Key {
    pub x: i64,
    pub y: i64,
}

/// A directed boundary piece of the merged outline, known by the keys of its
/// two ends; the merged region lies on its left.
#[derive(Clone, Copy, Debug, PartialEq, Eq, Structural)]
pub struct Link {
    pub from: Key,
    pub to: Key,
}

/// Whether a piece running from `from` to `to` is already stored.
pub fn segment_exists(links: &Vec<Link>, from: Key, to: Key) -> (found: bool)
    ensures
        found == links@.contains((Link { from, to })),
{
    let mut i: usize = 0;
    while i < links.len()
        invariant
            0 <= i <= links@.len(),
            forall|k: int| 0 <= k < i ==> links@[k] != (Link { from, to }),
        decreases links.len() - i,
    {
        if links[i].from == from && links[i].to == to {
            proof {
                assert(links@[i as int] == (Link { from, to }));
            }
            return true;
        }
        i += 1;
    }
    false
}

/// Stores `link` unless a piece with the same two ends is stored already.
pub fn add_link(links: &mut Vec<Link>, link: Link) -> (added: bool)
    ensures
        added == !old(links)@.contains(link),
        final(links)@ == (if added { old(links)@.push(link) } else { old(links)@ }),
        old(links)@.no_duplicates() ==> final(links)@.no_duplicates(),
{
    if segment_exists(links, link.from, link.to) {
        false
    } else {
        proof {
            assert(link == (Link { from: link.from, to: link.to }));
        }
        links.push(link);
        proof {
            let s = old(links)@;
            assert forall|i: int, j: int|
                s.no_duplicates() && 0 <= i < s.len() + 1 && 0 <= j < s.len() + 1 && i != j
                implies final(links)@[i] != final(links)@[j] by {
                if i == s.len() {
                    assert(s.contains(s[j]));
                } else if j == s.len() {
                    assert(s.contains(s[i]));
                }
            }
        }
        true
    }
}


/// Whether a piece of an input edge survives on the merged outline, and which
/// way it runs. `left_inside` and `right_inside` say whether points just left and
/// just right of the piece's middle (seen going from `a` to `b`) lie in the
/// union. The piece survives when exactly one side does, turned so that the
/// union lies on its left.
pub fn surviving_piece<T>(a: T, b: T, left_inside: bool, right_inside: bool) -> (piece: Option<(T, T)>)
    ensures
        piece == (if left_inside == right_inside {
            None
        } else if left_inside {
            Some((a, b))
        } else {
            Some((b, a))
        }),
{
    if left_inside == right_inside {
        None
    } else if left_inside {
        Some((a, b))
    } else {
        Some((b, a))
    }
}


/// The edges of a closed outline: from each vertex to the next, and from the
/// last back to the first.
pub fn closed_edges<T: Copy>(poly: &Vec<T>) -> (edges: Vec<(T, T)>)
    ensures
        edges@.len() == poly@.len(),
        forall|i: int|
            0 <= i < poly@.len() ==> #[trigger] edges@[i] == (poly@[i], poly@[(i + 1) % (poly@.len() as int)]),
{
    let n = poly.len();
    let mut edges: Vec<(T, T)> = Vec::new();
    let mut i: usize = 0;
    while i < n
        invariant
            n == poly@.len(),
            i <= n,
            edges@.len() == i,
            forall|k: int| 0 <= k < i ==> #[trigger] edges@[k] == (poly@[k], poly@[(k + 1) % (n as int)]),
        decreases n - i,
    {
        let next = if i + 1 == n {
            0
        } else {
            i + 1
        };
        proof {
            crate::ring::lemma_ring_neighbours(i as int, n as int);
        }
        edges.push((poly[i], poly[next]));
        i += 1;
    }
    edges
}

/// The vertices of a stitched contour: where its first piece starts, then where
/// each piece but the last ends (the last ends where the first starts).
pub fn contour_points<T: Copy>(pieces: &Vec<(T, T)>, ring: &Vec<usize>) -> (points: Vec<T>)
    requires
        ring@.len() >= 1,
        forall|t: int| 0 <= t < ring@.len() ==> #[trigger] ring@[t] < pieces@.len(),
    ensures
        points@ == seq![pieces@[ring@[0] as int].0] + Seq::new(
            (ring@.len() - 1) as nat,
            |t: int| pieces@[ring@[t] as int].1,
        ),
{
    let mut points: Vec<T> = Vec::new();
    points.push(pieces[ring[0]].0);
    let last = ring.len() - 1;
    let mut t: usize = 0;
    while t < last
        invariant
            last == ring@.len() - 1,
            t <= last,
            forall|k: int| 0 <= k < ring@.len() ==> #[trigger] ring@[k] < pieces@.len(),
            points@ =~= seq![pieces@[ring@[0] as int].0] + Seq::new(
                t as nat,
                |k: int| pieces@[ring@[k] as int].1,
            ),
        decreases last - t,
    {
        points.push(pieces[ring[t]].1);
        t += 1;
    }
    points
}

/// Piece `j` may follow piece `cur`: it is not yet on a contour and starts where
/// `cur` ends.
pub open spec fn can_follow(links: Seq<Link>, used: Seq<bool>, cur: int, j: int) -> bool {
    &&& 0 <= j < links.len()
    &&& !used[j]
    &&& links[j].from == links[cur].to
}

/// Piece `j` is the one that follows `cur`: of the pieces that may follow, it
/// has the least turn key seen from `cur`, and the least index among equal keys.
pub open spec fn preferred(
    links: Seq<Link>,
    turns: Seq<Seq<i64>>,
    used: Seq<bool>,
    cur: int,
    j: int,
) -> bool {
    &&& can_follow(links, used, cur, j)
    &&& forall|k: int|
        #[trigger] can_follow(links, used, cur, k) ==> turns[cur][j] < turns[cur][k] || (
        turns[cur][j] == turns[cur][k] && j <= k)
}

/// The piece that follows `cur`, if any may.
pub open spec fn next_piece(links: Seq<Link>, turns: Seq<Seq<i64>>, used: Seq<bool>, cur: int) -> Option<
    int,
> {
    if exists|j: int| preferred(links, turns, used, cur, j) {
        Some(choose|j: int| preferred(links, turns, used, cur, j))
    } else {
        None
    }
}

/// A walk's outcome with `p` put in front of the pieces it found.
pub open spec fn prefixed(p: Seq<usize>, r: Result<(Seq<usize>, Seq<bool>), u32>) -> Result<
    (Seq<usize>, Seq<bool>),
    u32,
> {
    match r {
        Ok(found) => Ok((p + found.0, found.1)),
        Err(e) => Err(e),
    }
}

/// The pieces that follow `cur`, one after another, until the contour is back at
/// `first`, with the flags of used pieces afterwards. Error 1: no piece may follow.
/// Error 2: the step count `steps` passes the number of pieces plus one.
pub open spec fn walk(
    links: Seq<Link>,
    turns: Seq<Seq<i64>>,
    used: Seq<bool>,
    first: Key,
    cur: int,
    steps: nat,
) -> Result<(Seq<usize>, Seq<bool>), u32>
    decreases links.len() + 1 - steps,
{
    if links[cur].to == first {
        Ok((Seq::empty(), used))
    } else {
        match next_piece(links, turns, used, cur) {
            None => Err(1u32),
            Some(j) => {
                if steps + 1 > links.len() + 1 {
                    Err(2u32)
                } else {
                    prefixed(seq![j as usize], walk(links, turns, used.update(j, true), first, j, steps + 1))
                }
            },
        }
    }
}

/// The contours found from piece `seed` on, after the contours `done`: each unused
/// piece, lowest index first, starts a contour that is walked until it closes.
pub open spec fn stitch_from(
    links: Seq<Link>,
    turns: Seq<Seq<i64>>,
    used: Seq<bool>,
    seed: int,
    done: Seq<Seq<usize>>,
) -> Result<Seq<Seq<usize>>, u32>
    decreases links.len() - seed,
{
    if seed < 0 || seed >= links.len() {
        Ok(done)
    } else if used[seed] {
        stitch_from(links, turns, used, seed + 1, done)
    } else {
        match walk(links, turns, used.update(seed, true), links[seed].from, seed, 0) {
            Err(e) => Err(e),
            Ok(found) => stitch_from(
                links,
                turns,
                found.1,
                seed + 1,
                done.push(seq![seed as usize] + found.0),
            ),
        }
    }
}

/// All contours of the pieces `links`, each a list of piece indices in walking
/// order, with `turns[i][j]` the turn key of piece `j` seen from piece `i`.
pub open spec fn stitched(links: Seq<Link>, turns: Seq<Seq<i64>>) -> Result<Seq<Seq<usize>>, u32> {
    stitch_from(links, turns, Seq::new(links.len(), |i: int| false), 0, Seq::empty())
}

/// The rows of a table of turn keys.
pub open spec fn table_view(t: Vec<Vec<i64>>) -> Seq<Seq<i64>> {
    Seq::new(t@.len(), |i: int| t@[i]@)
}

/// The contours of a result, as sequences of piece indices.
pub open spec fn rings_view(v: Vec<Vec<usize>>) -> Seq<Seq<usize>> {
    Seq::new(v@.len(), |i: int| v@[i]@)
}

/// The number of pieces not yet on a contour.
pub open spec fn unused_count(used: Seq<bool>) -> nat
    decreases used.len(),
{
    if used.len() == 0 {
        0
    } else {
        unused_count(used.drop_last()) + (if used.last() {
            0nat
        } else {
            1nat
        })
    }
}

proof fn lemma_unused_mark(used: Seq<bool>, j: int)
    requires
        0 <= j < used.len(),
        !used[j],
    ensures
        unused_count(used.update(j, true)) + 1 == unused_count(used),
    decreases used.len(),
{
    let u = used.update(j, true);
    if j == used.len() - 1 {
        assert(u.drop_last() =~= used.drop_last());
    } else {
        assert(u.drop_last() =~= used.drop_last().update(j, true));
        lemma_unused_mark(used.drop_last(), j);
    }
}

proof fn lemma_unused_bound(used: Seq<bool>)
    ensures
        unused_count(used) <= used.len(),
    decreases used.len(),
{
    if used.len() > 0 {
        lemma_unused_bound(used.drop_last());
    }
}

proof fn lemma_preferred_unique(
    links: Seq<Link>,
    turns: Seq<Seq<i64>>,
    used: Seq<bool>,
    cur: int,
    a: int,
    b: int,
)
    requires
        preferred(links, turns, used, cur, a),
        preferred(links, turns, used, cur, b),
    ensures
        a == b,
{
    assert(can_follow(links, used, cur, a));
    assert(can_follow(links, used, cur, b));
}

proof fn lemma_prefixed_twice(p: Seq<usize>, q: Seq<usize>, r: Result<(Seq<usize>, Seq<bool>), u32>)
    ensures
        prefixed(p, prefixed(q, r)) == prefixed(p + q, r),
{
    match r {
        Ok(found) => {
            assert(p + (q + found.0) =~= (p + q) + found.0);
        },
        Err(e) => {},
    }
}


/// Pieces `t` and `t + 1` of `path` meet: the first ends where the second starts.
pub open spec fn joins(links: Seq<Link>, path: Seq<usize>, t: int) -> bool {
    links[path[t] as int].to == links[path[t + 1] as int].from
}

/// `path` is a chain of pieces that ends at `first` and reaches it only at its end.
pub open spec fn path_to(links: Seq<Link>, path: Seq<usize>, first: Key) -> bool {
    &&& path.len() >= 1
    &&& forall|t: int| 0 <= t < path.len() ==> #[trigger] path[t] < links.len()
    &&& forall|t: int| 0 <= t < path.len() - 1 ==> #[trigger] joins(links, path, t)
    &&& links[path.last() as int].to == first
    &&& forall|t: int| 0 <= t < path.len() - 1 ==> #[trigger] links[path[t] as int].to != first
}

/// `ring` is a closed contour: a chain that returns to where its first piece
/// starts, and only at its last piece.
pub open spec fn is_closed_ring(links: Seq<Link>, ring: Seq<usize>) -> bool {
    ring.len() >= 1 && path_to(links, ring, links[ring[0] as int].from)
}

proof fn lemma_walk_facts(
    links: Seq<Link>,
    turns: Seq<Seq<i64>>,
    used: Seq<bool>,
    first: Key,
    cur: int,
    steps: nat,
)
    requires
        used.len() == links.len(),
        links.len() <= usize::MAX,
        0 <= cur < links.len(),
    ensures
        walk(links, turns, used, first, cur, steps) is Ok ==> {
            let found = walk(links, turns, used, first, cur, steps)->Ok_0;
            &&& found.0.no_duplicates()
            &&& forall|t: int| 0 <= t < found.0.len() ==> #[trigger] found.0[t] < links.len() && !used[found.0[t] as int]
            &&& found.1.len() == used.len()
            &&& forall|i: int| 0 <= i < used.len() ==> #[trigger] found.1[i] == (used[i] || found.0.contains(i as usize))
            &&& path_to(links, seq![cur as usize] + found.0, first)
        },
    decreases links.len() + 1 - steps,
{
    if links[cur].to == first {
        let found = walk(links, turns, used, first, cur, steps)->Ok_0;
        assert(found.0 =~= Seq::<usize>::empty());
        let full = seq![cur as usize] + found.0;
        assert(full =~= seq![cur as usize]);
    } else {
        match next_piece(links, turns, used, cur) {
            None => {},
            Some(j) => {
                if steps + 1 <= links.len() + 1 {
                    assert(preferred(links, turns, used, cur, j));
                    let u2 = used.update(j, true);
                    lemma_walk_facts(links, turns, u2, first, j, steps + 1);
                    let inner = walk(links, turns, u2, first, j, steps + 1);
                    if inner is Ok {
                        let sub = inner->Ok_0;
                        let found = walk(links, turns, used, first, cur, steps)->Ok_0;
                        assert(found.0 == seq![j as usize] + sub.0);
                        assert(found.1 == sub.1);
                        let rest = sub.0;
                        assert forall|t: int| 0 <= t < found.0.len() implies #[trigger] found.0[t] < links.len()
                            && !used[found.0[t] as int] by {
                            if t > 0 {
                                assert(found.0[t] == rest[t - 1]);
                            } else {
                                assert(found.0[0] == j as usize);
                            }
                        }
                        assert forall|a: int, b: int|
                            0 <= a < found.0.len() && 0 <= b < found.0.len() && a != b implies found.0[a]
                            != found.0[b] by {
                            if a > 0 && b > 0 {
                                assert(found.0[a] == rest[a - 1]);
                                assert(found.0[b] == rest[b - 1]);
                            } else if a == 0 {
                                assert(found.0[b] == rest[b - 1]);
                                assert(!u2[rest[b - 1] as int]);
                            } else {
                                assert(found.0[a] == rest[a - 1]);
                                assert(!u2[rest[a - 1] as int]);
                            }
                        }
                        assert forall|i: int| 0 <= i < used.len() implies #[trigger] found.1[i] == (used[i]
                            || found.0.contains(i as usize)) by {
                            assert(sub.1[i] == (u2[i] || rest.contains(i as usize)));
                            if rest.contains(i as usize) {
                                let t = choose|t: int| 0 <= t < rest.len() && rest[t] == i as usize;
                                assert(found.0[t + 1] == rest[t]);
                            }
                            if found.0.contains(i as usize) {
                                let t = choose|t: int| 0 <= t < found.0.len() && found.0[t] == i as usize;
                                if t > 0 {
                                    assert(found.0[t] == rest[t - 1]);
                                }
                            }
                            assert(found.0[0] == j as usize);
                            if i == j {
                                assert(found.0.contains(i as usize));
                            }
                        }
                        let full = seq![cur as usize] + found.0;
                        let sfull = seq![j as usize] + rest;
                        assert(full =~= seq![cur as usize] + sfull);
                        assert forall|t: int| 0 <= t < full.len() implies #[trigger] full[t] < links.len() by {
                            if t > 0 {
                                assert(full[t] == sfull[t - 1]);
                            }
                        }
                        assert forall|t: int| 0 <= t < full.len() - 1 implies #[trigger] joins(links, full, t) by {
                            if t > 0 {
                                assert(full[t] == sfull[t - 1]);
                                assert(full[t + 1] == sfull[t]);
                                assert(joins(links, sfull, t - 1));
                            } else {
                                assert(full[1] == j as usize);
                            }
                        }
                        assert(full.last() == sfull.last());
                        assert forall|t: int| 0 <= t < full.len() - 1 implies #[trigger] links[full[t] as int].to
                            != first by {
                            if t > 0 {
                                assert(full[t] == sfull[t - 1]);
                                assert(links[sfull[t - 1] as int].to != first);
                            }
                        }
                    }
                }
            },
        }
    }
}

proof fn lemma_stitch_from_facts(
    links: Seq<Link>,
    turns: Seq<Seq<i64>>,
    used: Seq<bool>,
    seed: int,
    done: Seq<Seq<usize>>,
)
    requires
        used.len() == links.len(),
        links.len() <= usize::MAX,
        0 <= seed,
        done.flatten().no_duplicates(),
        forall|t: int| 0 <= t < done.flatten().len() ==> #[trigger] done.flatten()[t] < links.len()
            && used[done.flatten()[t] as int],
        forall|i: int| 0 <= i < used.len() && #[trigger] used[i] ==> done.flatten().contains(i as usize),
        forall|i: int| 0 <= i < seed && i < used.len() ==> #[trigger] used[i],
        forall|k: int| 0 <= k < done.len() ==> is_closed_ring(links, #[trigger] done[k]),
    ensures
        stitch_from(links, turns, used, seed, done) is Ok ==> {
            let out = stitch_from(links, turns, used, seed, done)->Ok_0;
            &&& out.flatten().no_duplicates()
            &&& forall|t: int| 0 <= t < out.flatten().len() ==> #[trigger] out.flatten()[t] < links.len()
            &&& forall|i: usize| i < links.len() ==> #[trigger] out.flatten().contains(i)
            &&& forall|k: int| 0 <= k < out.len() ==> is_closed_ring(links, #[trigger] out[k])
        },
    decreases links.len() - seed,
{
    if seed >= links.len() {
        let out = done;
        assert forall|i: usize| i < links.len() implies #[trigger] out.flatten().contains(i) by {
            assert(used[i as int]);
        }
    } else if used[seed] {
        lemma_stitch_from_facts(links, turns, used, seed + 1, done);
    } else {
        let marked = used.update(seed, true);
        let first = links[seed].from;
        lemma_walk_facts(links, turns, marked, first, seed, 0);
        let w = walk(links, turns, marked, first, seed, 0);
        if w is Ok {
            let found = w->Ok_0;
            let ring = seq![seed as usize] + found.0;
            let nd = done.push(ring);
            let after = found.1;
            done.lemma_flatten_push(ring);
            let f0 = done.flatten();
            let f1 = nd.flatten();
            assert(f1 =~= f0 + ring);
            assert(ring[0] == seed as usize);
            assert(is_closed_ring(links, ring));
            assert forall|k: int| 0 <= k < nd.len() implies is_closed_ring(links, #[trigger] nd[k]) by {
                if k < done.len() {
                    assert(nd[k] == done[k]);
                }
            }
            // the new ring holds distinct pieces that were all unused
            assert forall|t: int| 0 <= t < ring.len() implies #[trigger] ring[t] < links.len() && !used[ring[t] as int]
                by {
                if t > 0 {
                    assert(ring[t] == found.0[t - 1]);
                    assert(!marked[found.0[t - 1] as int]);
                } else {
                    assert(ring[0] == seed as usize);
                }
            }
            assert(ring.no_duplicates()) by {
                assert forall|a: int, b: int| 0 <= a < ring.len() && 0 <= b < ring.len() && a != b implies ring[a]
                    != ring[b] by {
                    if a > 0 && b > 0 {
                        assert(ring[a] == found.0[a - 1]);
                        assert(ring[b] == found.0[b - 1]);
                    } else if a == 0 {
                        assert(ring[b] == found.0[b - 1]);
                        assert(!marked[found.0[b - 1] as int]);
                    } else {
                        assert(ring[a] == found.0[a - 1]);
                        assert(!marked[found.0[a - 1] as int]);
                    }
                }
            }
            assert forall|a: int, b: int| 0 <= a < f0.len() && 0 <= b < ring.len() implies f0[a] != ring[b] by {
                assert(used[f0[a] as int]);
                assert(!used[ring[b] as int]);
            }
            vstd::seq_lib::lemma_no_dup_in_concat(f0, ring);
            assert forall|t: int| 0 <= t < f1.len() implies #[trigger] f1[t] < links.len() && after[f1[t] as int] by {
                if t < f0.len() {
                    assert(f1[t] == f0[t]);
                    assert(used[f0[t] as int]);
                    assert(marked[f0[t] as int]);
                    assert(after[f0[t] as int]);
                } else {
                    let r = t - f0.len();
                    assert(f1[t] == ring[r]);
                    if r == 0 {
                        assert(marked[seed]);
                    } else {
                        assert(ring[r] == found.0[r - 1]);
                        assert(found.0.contains(found.0[r - 1]));
                    }
                }
            }
            assert forall|i: int| 0 <= i < after.len() && #[trigger] after[i] implies f1.contains(i as usize) by {
                if used[i] {
                    assert(f0.contains(i as usize));
                    let t = choose|t: int| 0 <= t < f0.len() && f0[t] == i as usize;
                    assert(f1[t] == f0[t]);
                } else if i == seed {
                    assert(f1[f0.len() as int] == ring[0]);
                } else {
                    assert(found.0.contains(i as usize));
                    let t = choose|t: int| 0 <= t < found.0.len() && found.0[t] == i as usize;
                    assert(f1[f0.len() + 1 + t] == ring[t + 1]);
                }
            }
            assert forall|i: int| 0 <= i < seed + 1 && i < after.len() implies #[trigger] after[i] by {
                if i < seed {
                    assert(used[i]);
                }
            }
            lemma_stitch_from_facts(links, turns, after, seed + 1, nd);
        }
    }
}

/// Every contour that stitching returns is closed: each piece starts where the
/// one before it ends, the last piece ends where the first starts, and no
/// earlier piece ends there.
pub proof fn lemma_rings_closed(links: Seq<Link>, turns: Seq<Seq<i64>>)
    requires
        links.len() <= usize::MAX,
        stitched(links, turns) is Ok,
    ensures
        forall|k: int|
            0 <= k < stitched(links, turns)->Ok_0.len() ==> is_closed_ring(
                links,
                #[trigger] stitched(links, turns)->Ok_0[k],
            ),
{
    lemma_stitch_facts(links, turns);
}

/// Every piece lies on exactly one contour, once: the contours, laid end to end,
/// hold each piece index below the number of pieces, and each only once.
pub proof fn lemma_rings_partition(links: Seq<Link>, turns: Seq<Seq<i64>>)
    requires
        links.len() <= usize::MAX,
        stitched(links, turns) is Ok,
    ensures
        stitched(links, turns)->Ok_0.flatten().no_duplicates(),
        forall|t: int|
            0 <= t < stitched(links, turns)->Ok_0.flatten().len() ==> #[trigger] stitched(
                links,
                turns,
            )->Ok_0.flatten()[t] < links.len(),
        forall|i: usize| i < links.len() ==> #[trigger] stitched(links, turns)->Ok_0.flatten().contains(i),
{
    lemma_stitch_facts(links, turns);
}

proof fn lemma_stitch_facts(links: Seq<Link>, turns: Seq<Seq<i64>>)
    requires
        links.len() <= usize::MAX,
    ensures
        stitched(links, turns) is Ok ==> {
            let out = stitched(links, turns)->Ok_0;
            &&& out.flatten().no_duplicates()
            &&& forall|t: int| 0 <= t < out.flatten().len() ==> #[trigger] out.flatten()[t] < links.len()
            &&& forall|i: usize| i < links.len() ==> #[trigger] out.flatten().contains(i)
            &&& forall|k: int| 0 <= k < out.len() ==> is_closed_ring(links, #[trigger] out[k])
        },
{
    let used = Seq::new(links.len(), |i: int| false);
    let done = Seq::<Seq<usize>>::empty();
    assert(done.flatten() =~= Seq::<usize>::empty());
    lemma_stitch_from_facts(links, turns, used, 0, done);
}

proof fn lemma_walk_bounded(
    links: Seq<Link>,
    turns: Seq<Seq<i64>>,
    used: Seq<bool>,
    first: Key,
    cur: int,
    steps: nat,
)
    requires
        used.len() == links.len(),
        steps + unused_count(used) <= links.len(),
    ensures
        walk(links, turns, used, first, cur, steps) != Err::<(Seq<usize>, Seq<bool>), u32>(2u32),
    decreases links.len() + 1 - steps,
{
    if links[cur].to != first {
        match next_piece(links, turns, used, cur) {
            None => {},
            Some(j) => {
                assert(preferred(links, turns, used, cur, j));
                lemma_unused_mark(used, j);
                lemma_walk_bounded(links, turns, used.update(j, true), first, j, steps + 1);
            },
        }
    }
}

proof fn lemma_stitch_from_bounded(
    links: Seq<Link>,
    turns: Seq<Seq<i64>>,
    used: Seq<bool>,
    seed: int,
    done: Seq<Seq<usize>>,
)
    requires
        used.len() == links.len(),
        links.len() <= usize::MAX,
    ensures
        stitch_from(links, turns, used, seed, done) != Err::<Seq<Seq<usize>>, u32>(2u32),
    decreases links.len() - seed,
{
    if 0 <= seed < links.len() {
        if used[seed] {
            lemma_stitch_from_bounded(links, turns, used, seed + 1, done);
        } else {
            let marked = used.update(seed, true);
            lemma_unused_mark(used, seed);
            lemma_unused_bound(used);
            lemma_walk_bounded(links, turns, marked, links[seed].from, seed, 0);
            let w = walk(links, turns, marked, links[seed].from, seed, 0);
            if w is Ok {
                let found = w->Ok_0;
                lemma_walk_facts(links, turns, marked, links[seed].from, seed, 0);
                lemma_stitch_from_bounded(
                    links,
                    turns,
                    found.1,
                    seed + 1,
                    done.push(seq![seed as usize] + found.0),
                );
            }
        }
    }
}

/// Stitching never fails for overrunning its step guard: each step takes a piece
/// that no contour holds yet, so no walk takes more steps than there are pieces.
pub proof fn lemma_stitch_never_overruns(links: Seq<Link>, turns: Seq<Seq<i64>>)
    requires
        links.len() <= usize::MAX,
    ensures
        stitched(links, turns) != Err::<Seq<Seq<usize>>, u32>(2u32),
{
    lemma_stitch_from_bounded(links, turns, Seq::new(links.len(), |i: int| false), 0, Seq::empty());
}


/// Some piece other than `skip`, already on a contour, ends where piece `x` starts.
spec fn has_used_pred(links: Seq<Link>, used: Seq<bool>, x: int, skip: int) -> bool {
    exists|p: int| 0 <= p < links.len() && used[p] && p != skip && links[p].to == links[x].from
}

/// No two pieces start at one point, no two end at one point, and every piece
/// ends where some piece starts: at every point the outline goes on one way only.
pub open spec fn single_continuations(links: Seq<Link>) -> bool {
    &&& forall|i: int, j: int| 0 <= i < j < links.len() ==> links[i].from != links[j].from
    &&& forall|i: int, j: int| 0 <= i < j < links.len() ==> links[i].to != links[j].to
    &&& forall|i: int|
        #![trigger links[i]]
        0 <= i < links.len() ==> exists|j: int| 0 <= j < links.len() && links[j].from == links[i].to
}

#[verifier::rlimit(60)]
proof fn lemma_walk_succeeds(
    links: Seq<Link>,
    turns: Seq<Seq<i64>>,
    used: Seq<bool>,
    first: Key,
    cur: int,
    steps: nat,
    seed: int,
)
    requires
        single_continuations(links),
        used.len() == links.len(),
        links.len() <= usize::MAX,
        0 <= cur < links.len(),
        0 <= seed < links.len(),
        used[cur],
        used[seed],
        first == links[seed].from,
        steps + unused_count(used) <= links.len(),
        forall|x: int| 0 <= x < links.len() && used[x] && x != seed ==> #[trigger] has_used_pred(links, used, x, cur),
    ensures
        walk(links, turns, used, first, cur, steps) is Ok,
        walk(links, turns, used, first, cur, steps) is Ok ==> {
            let after = walk(links, turns, used, first, cur, steps)->Ok_0.1;
            forall|x: int| 0 <= x < links.len() && after[x] ==> #[trigger] has_used_pred(links, after, x, -1)
        },
    decreases links.len() + 1 - steps,
{
    if links[cur].to == first {
        assert forall|x: int| 0 <= x < links.len() && used[x] implies #[trigger] has_used_pred(links, used, x, -1) by {
            if x == seed {
                assert(links[cur].to == links[x].from);
            } else {
                assert(has_used_pred(links, used, x, cur));
                let p = choose|p: int| 0 <= p < links.len() && used[p] && p != cur && links[p].to == links[x].from;
            }
        }
    } else {
        let j = choose|j: int| 0 <= j < links.len() && links[j].from == links[cur].to;
        assert(links[cur] == links[cur]);
        if used[j] {
            if j == seed {
                assert(false);
            } else {
                assert(has_used_pred(links, used, j, cur));
                let p = choose|p: int| 0 <= p < links.len() && used[p] && p != cur && links[p].to == links[j].from;
                if p < cur {
                    assert(links[p].to != links[cur].to);
                } else {
                    assert(links[cur].to != links[p].to);
                }
            }
        }
        assert(can_follow(links, used, cur, j));
        assert forall|k: int| #[trigger] can_follow(links, used, cur, k) implies k == j by {
            if k < j {
                assert(links[k].from != links[j].from);
            } else if j < k {
                assert(links[j].from != links[k].from);
            }
        }
        assert(preferred(links, turns, used, cur, j));
        let c = choose|c: int| preferred(links, turns, used, cur, c);
        lemma_preferred_unique(links, turns, used, cur, c, j);
        assert(next_piece(links, turns, used, cur) == Some(j));
        lemma_unused_mark(used, j);
        let u2 = used.update(j, true);
        assert forall|x: int| 0 <= x < links.len() && u2[x] && x != seed implies #[trigger] has_used_pred(
            links,
            u2,
            x,
            j,
        ) by {
            if x == j {
                assert(u2[cur] && cur != j && links[cur].to == links[x].from);
            } else {
                assert(has_used_pred(links, used, x, cur));
                let p = choose|p: int| 0 <= p < links.len() && used[p] && p != cur && links[p].to == links[x].from;
                assert(u2[p] && p != j);
            }
        }
        lemma_walk_succeeds(links, turns, u2, first, j, steps + 1, seed);
    }
}

proof fn lemma_stitch_from_succeeds(
    links: Seq<Link>,
    turns: Seq<Seq<i64>>,
    used: Seq<bool>,
    seed: int,
    done: Seq<Seq<usize>>,
)
    requires
        single_continuations(links),
        used.len() == links.len(),
        links.len() <= usize::MAX,
        forall|x: int| 0 <= x < links.len() && used[x] ==> #[trigger] has_used_pred(links, used, x, -1),
    ensures
        stitch_from(links, turns, used, seed, done) is Ok,
    decreases links.len() - seed,
{
    if 0 <= seed < links.len() {
        if used[seed] {
            lemma_stitch_from_succeeds(links, turns, used, seed + 1, done);
        } else {
            let marked = used.update(seed, true);
            lemma_unused_mark(used, seed);
            lemma_unused_bound(used);
            assert forall|x: int| 0 <= x < links.len() && marked[x] && x != seed implies #[trigger] has_used_pred(
                links,
                marked,
                x,
                seed,
            ) by {
                assert(has_used_pred(links, used, x, -1));
                let p = choose|p: int| 0 <= p < links.len() && used[p] && p != -1 && links[p].to == links[x].from;
                assert(marked[p] && p != seed);
            }
            lemma_walk_succeeds(links, turns, marked, links[seed].from, seed, 0, seed);
            lemma_walk_facts(links, turns, marked, links[seed].from, seed, 0);
            let found = walk(links, turns, marked, links[seed].from, seed, 0)->Ok_0;
            lemma_stitch_from_succeeds(links, turns, found.1, seed + 1, done.push(seq![seed as usize] + found.0));
        }
    }
}

/// Where the outline goes on one way only at every point (no two pieces start
/// at one point, no two end at one point, every piece ends where another
/// starts), stitching succeeds whatever the turn keys: the walk takes the one
/// piece that may follow, whatever its key.
pub proof fn lemma_single_continuations_stitch(links: Seq<Link>, turns: Seq<Seq<i64>>)
    requires
        links.len() <= usize::MAX,
        forall|i: int, j: int| 0 <= i < j < links.len() ==> links[i].from != links[j].from,
        forall|i: int, j: int| 0 <= i < j < links.len() ==> links[i].to != links[j].to,
        forall|i: int|
            #![trigger links[i]]
            0 <= i < links.len() ==> exists|j: int| 0 <= j < links.len() && links[j].from == links[i].to,
    ensures
        stitched(links, turns) is Ok,
{
    assert(single_continuations(links));
    lemma_stitch_from_succeeds(links, turns, Seq::new(links.len(), |i: int| false), 0, Seq::empty());
}

/// Stitches the directed pieces `links` into closed contours. Every unused piece,
/// lowest index first, starts a contour; from the piece last taken, the walk takes
/// the unused piece that starts where it ends with the least turn key
/// `turns[last][next]` (lowest index among equal keys), until the contour is back
/// at its start. Error 1: the walk finds no piece to take. Error 2: a walk takes
/// more steps than there are pieces plus one.
#[verifier::rlimit(40)]
pub fn stitch(links: &Vec<Link>, turns: &Vec<Vec<i64>>) -> (res: Result<Vec<Vec<usize>>, u32>)
    requires
        turns@.len() == links@.len(),
        forall|i: int| 0 <= i < turns@.len() ==> (#[trigger] turns@[i])@.len() == links@.len(),
    ensures
        match res {
            Ok(rings) => stitched(links@, table_view(*turns)) == Ok::<Seq<Seq<usize>>, u32>(
                rings_view(rings),
            ),
            Err(e) => stitched(links@, table_view(*turns)) == Err::<Seq<Seq<usize>>, u32>(e),
        },
        !(res is Err && res->Err_0 == 2),
        (forall|i: int, j: int| 0 <= i < j < links@.len() ==> links@[i].from != links@[j].from) && (forall|
            i: int,
            j: int,
        | 0 <= i < j < links@.len() ==> links@[i].to != links@[j].to) && (forall|i: int|
            #![trigger links@[i]]
            0 <= i < links@.len() ==> exists|j: int| 0 <= j < links@.len() && links@[j].from == links@[i].to)
            ==> res is Ok,
{
    let n = links.len();
    proof {
        lemma_stitch_never_overruns(links@, table_view(*turns));
        if single_continuations(links@) {
            lemma_single_continuations_stitch(links@, table_view(*turns));
        }
    }
    let ghost ls = links@;
    let ghost ts = table_view(*turns);
    let mut used: Vec<bool> = Vec::new();
    let mut k: usize = 0;
    while k < n
        invariant
            k <= n,
            used@ =~= Seq::new(k as nat, |i: int| false),
        decreases n - k,
    {
        used.push(false);
        k += 1;
    }
    let mut rings: Vec<Vec<usize>> = Vec::new();
    proof {
        assert(rings_view(rings) =~= Seq::<Seq<usize>>::empty());
    }
    let mut seed: usize = 0;
    while seed < n
        invariant
            n == ls.len(),
            ls == links@,
            ts == table_view(*turns),
            turns@.len() == n,
            forall|i: int| 0 <= i < turns@.len() ==> (#[trigger] turns@[i])@.len() == n,
            used@.len() == n,
            seed <= n,
            stitched(ls, ts) == stitch_from(ls, ts, used@, seed as int, rings_view(rings)),
            single_continuations(ls) ==> stitched(ls, ts) is Ok,
        decreases n - seed,
    {
        if used[seed] {
            seed += 1;
            continue;
        }
        let ghost before = used@;
        used.set(seed, true);
        let ghost marked = used@;
        let first = links[seed].from;
        let mut cur: usize = seed;
        let mut guard: usize = 0;
        let mut ring: Vec<usize> = Vec::new();
        ring.push(seed);
        proof {
            lemma_unused_bound(marked);
            assert(ring@.drop_first() =~= Seq::<usize>::empty());
            assert(prefixed(Seq::empty(), walk(ls, ts, marked, first, seed as int, 0)) == walk(
                ls,
                ts,
                marked,
                first,
                seed as int,
                0,
            )) by {
                match walk(ls, ts, marked, first, seed as int, 0) {
                    Ok(found) => {
                        assert(Seq::<usize>::empty() + found.0 =~= found.0);
                    },
                    Err(e) => {},
                }
            }
        }
        while !(links[cur].to == first)
            invariant
                n == ls.len(),
                ls == links@,
                ts == table_view(*turns),
                turns@.len() == n,
                forall|i: int| 0 <= i < turns@.len() ==> (#[trigger] turns@[i])@.len() == n,
                used@.len() == n,
                seed < n,
                cur < n,
                first == ls[seed as int].from,
                !before[seed as int],
                marked == before.update(seed as int, true),
                stitched(ls, ts) == stitch_from(ls, ts, before, seed as int, rings_view(rings)),
                single_continuations(ls) ==> stitched(ls, ts) is Ok,
                ring@.len() >= 1,
                ring@[0] == seed,
                walk(ls, ts, marked, first, seed as int, 0) == prefixed(
                    ring@.drop_first(),
                    walk(ls, ts, used@, first, cur as int, guard as nat),
                ),
                guard + unused_count(used@) <= n,
            decreases n - guard,
        {
            let last = links[cur].to;
            let mut best: Option<usize> = None;
            let mut best_turn: i64 = 0;
            let mut i: usize = 0;
            while i < n
                invariant
                    n == ls.len(),
                    ls == links@,
                    ts == table_view(*turns),
                    turns@.len() == n,
                    forall|r: int| 0 <= r < turns@.len() ==> (#[trigger] turns@[r])@.len() == n,
                    used@.len() == n,
                    cur < n,
                    i <= n,
                    last == ls[cur as int].to,
                    match best {
                        None => forall|k: int| 0 <= k < i ==> !can_follow(ls, used@, cur as int, k),
                        Some(b) => {
                            &&& b < i
                            &&& can_follow(ls, used@, cur as int, b as int)
                            &&& best_turn == ts[cur as int][b as int]
                            &&& forall|k: int|
                                0 <= k < i && can_follow(ls, used@, cur as int, k) ==> ts[cur as int][b as int]
                                    < ts[cur as int][k] || (ts[cur as int][b as int] == ts[cur as int][k]
                                    && b <= k)
                        },
                    },
                decreases n - i,
            {
                if !used[i] && links[i].from == last {
                    let t = turns[cur][i];
                    let take = match best {
                        Some(_) => t < best_turn,
                        None => true,
                    };
                    if take {
                        best = Some(i);
                        best_turn = t;
                    }
                }
                i += 1;
            }
            match best {
                None => {
                    proof {
                        assert(!exists|j: int| preferred(ls, ts, used@, cur as int, j));
                        assert(walk(ls, ts, used@, first, cur as int, guard as nat) == Err::<
                            (Seq<usize>, Seq<bool>),
                            u32,
                        >(1u32));
                    }
                    return Err(1);
                },
                Some(next) => {
                    let ghost old_used = used@;
                    let ghost old_ring = ring@;
                    let ghost old_guard = guard;
                    proof {
                        assert(preferred(ls, ts, old_used, cur as int, next as int));
                        let c = choose|j: int| preferred(ls, ts, old_used, cur as int, j);
                        lemma_preferred_unique(ls, ts, old_used, cur as int, c, next as int);
                        assert(next_piece(ls, ts, old_used, cur as int) == Some(next as int));
                        lemma_unused_mark(old_used, next as int);
                    }
                    used.set(next, true);
                    ring.push(next);
                    let ghost old_cur = cur;
                    cur = next;
                    guard += 1;
                    proof {
                        assert(walk(ls, ts, old_used, first, old_cur as int, old_guard as nat)
                            == prefixed(
                            seq![next],
                            walk(ls, ts, used@, first, cur as int, guard as nat),
                        ));
                        lemma_prefixed_twice(
                            old_ring.drop_first(),
                            seq![next],
                            walk(ls, ts, used@, first, cur as int, guard as nat),
                        );
                        assert(ring@.drop_first() =~= old_ring.drop_first() + seq![next]);
                    }
                    if guard - 1 > n {
                        return Err(2);
                    }
                },
            }
        }
        proof {
            let found = (ring@.drop_first(), used@);
            assert(walk(ls, ts, used@, first, cur as int, guard as nat) == Ok::<
                (Seq<usize>, Seq<bool>),
                u32,
            >((Seq::empty(), used@)));
            assert(ring@.drop_first() + Seq::<usize>::empty() =~= ring@.drop_first());
            assert(seq![seed] + ring@.drop_first() =~= ring@);
        }
        let ghost old_rings = rings_view(rings);
        rings.push(ring);
        proof {
            assert(rings_view(rings) =~= old_rings.push(ring@));
        }
        seed += 1;
    }
    Ok(rings)
}

} // verus!
