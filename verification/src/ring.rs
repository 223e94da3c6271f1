use vstd::prelude::*;

verus! {

/// `g` answers every question about three vertex indices, and always gives the
/// same answer to the same question.
pub open spec fn decides3<G: Fn(usize, usize, usize) -> bool>(g: G) -> bool {
    &&& forall|a: usize, b: usize, c: usize| #[trigger] g.requires((a, b, c))
    &&& forall|a: usize, b: usize, c: usize, r1: bool, r2: bool|
        #![trigger g.ensures((a, b, c), r1), g.ensures((a, b, c), r2)]
        g.ensures((a, b, c), r1) && g.ensures((a, b, c), r2) ==> r1 == r2
}

/// The vertex at position `i` of the ring `ids` is degenerate: `degenerate`
/// says so of it and its two neighbours around the ring.
pub open spec fn dropped<G: Fn(usize, usize, usize) -> bool>(ids: Seq<usize>, degenerate: G, i: int) -> bool {
    let n = ids.len() as int;
    degenerate.ensures((ids[(i + n - 1) % n], ids[i], ids[(i + 1) % n]), true)
}

/// The vertices among the first `m` positions of `ids` that one pass keeps.
pub open spec fn kept_upto<G: Fn(usize, usize, usize) -> bool>(ids: Seq<usize>, degenerate: G, m: int) -> Seq<
    usize,
>
    decreases m,
{
    if m <= 0 {
        Seq::empty()
    } else {
        let rest = kept_upto(ids, degenerate, m - 1);
        if dropped(ids, degenerate, m - 1) {
            rest
        } else {
            rest.push(ids[m - 1])
        }
    }
}

/// One pass over the ring: every vertex that is degenerate against its
/// neighbours (as they stand before the pass) is dropped.
pub open spec fn clean_pass<G: Fn(usize, usize, usize) -> bool>(ids: Seq<usize>, degenerate: G) -> Seq<usize> {
    kept_upto(ids, degenerate, ids.len() as int)
}

/// Passes over the ring until a pass drops nothing, the ring has fewer than three
/// vertices, or `budget` passes are spent.
pub open spec fn clean_passes<G: Fn(usize, usize, usize) -> bool>(
    ids: Seq<usize>,
    degenerate: G,
    budget: nat,
) -> Seq<usize>
    decreases budget,
{
    if budget == 0 || ids.len() < 3 {
        ids
    } else {
        let q = clean_pass(ids, degenerate);
        if q.len() == ids.len() {
            q
        } else {
            clean_passes(q, degenerate, (budget - 1) as nat)
        }
    }
}

/// The vertices, by index into a ring of `n` points, that cleaning keeps: a last
/// point that meets the first is dropped, then passes run as many times as
/// vertices remain (at least once).
pub open spec fn cleaned<G: Fn(usize, usize, usize) -> bool>(n: nat, ends_meet: bool, degenerate: G) -> Seq<
    usize,
> {
    let m: nat = if n > 1 && ends_meet {
        (n - 1) as nat
    } else {
        n
    };
    clean_passes(Seq::new(m, |i: int| i as usize), degenerate, if m > 1 { m } else { 1 })
}


/// The indices of `s` rise strictly from first to last.
pub open spec fn ascending(s: Seq<usize>) -> bool {
    forall|a: int, b: int| 0 <= a < b < s.len() ==> s[a] < s[b]
}

proof fn lemma_kept_upto_ascending<G: Fn(usize, usize, usize) -> bool>(ids: Seq<usize>, degenerate: G, m: int)
    requires
        ascending(ids),
        0 <= m <= ids.len(),
    ensures
        ascending(kept_upto(ids, degenerate, m)),
        kept_upto(ids, degenerate, m).len() <= m,
        forall|t: int|
            0 <= t < kept_upto(ids, degenerate, m).len() ==> exists|u: int|
                0 <= u < m && ids[u] == #[trigger] kept_upto(ids, degenerate, m)[t],
    decreases m,
{
    if m > 0 {
        lemma_kept_upto_ascending(ids, degenerate, m - 1);
        let rest = kept_upto(ids, degenerate, m - 1);
        if !dropped(ids, degenerate, m - 1) {
            let k = rest.push(ids[m - 1]);
            assert forall|t: int| 0 <= t < k.len() implies exists|u: int| 0 <= u < m && ids[u] == #[trigger] k[t] by {
                if t < rest.len() {
                    assert(k[t] == rest[t]);
                } else {
                    assert(k[t] == ids[m - 1]);
                }
            }
            assert forall|a: int, b: int| 0 <= a < b < k.len() implies k[a] < k[b] by {
                if b == k.len() - 1 {
                    assert(k[a] == rest[a]);
                    let u = choose|u: int| 0 <= u < m - 1 && ids[u] == rest[a];
                    assert(ids[u] < ids[m - 1]);
                } else {
                    assert(k[a] == rest[a]);
                    assert(k[b] == rest[b]);
                }
            }
        }
    }
}

proof fn lemma_passes_ascending<G: Fn(usize, usize, usize) -> bool>(
    ids: Seq<usize>,
    degenerate: G,
    budget: nat,
    n: nat,
)
    requires
        ascending(ids),
        forall|t: int| 0 <= t < ids.len() ==> #[trigger] ids[t] < n,
    ensures
        ascending(clean_passes(ids, degenerate, budget)),
        clean_passes(ids, degenerate, budget).len() <= ids.len(),
        forall|t: int|
            0 <= t < clean_passes(ids, degenerate, budget).len() ==> #[trigger] clean_passes(
                ids,
                degenerate,
                budget,
            )[t] < n,
    decreases budget,
{
    if budget > 0 && ids.len() >= 3 {
        lemma_kept_upto_ascending(ids, degenerate, ids.len() as int);
        let q = clean_pass(ids, degenerate);
        assert forall|t: int| 0 <= t < q.len() implies #[trigger] q[t] < n by {
            let u = choose|u: int| 0 <= u < ids.len() && ids[u] == q[t];
        }
        if q.len() != ids.len() {
            lemma_passes_ascending(q, degenerate, (budget - 1) as nat, n);
        }
    }
}

/// Cleaning keeps the ring's order and never repeats or invents a vertex: the
/// kept indices rise strictly and stay below the number of points, so no more
/// vertices come out than points went in.
pub proof fn lemma_cleaned_is_subsequence<G: Fn(usize, usize, usize) -> bool>(
    n: usize,
    ends_meet: bool,
    degenerate: G,
)
    ensures
        ascending(cleaned(n as nat, ends_meet, degenerate)),
        cleaned(n as nat, ends_meet, degenerate).len() <= n,
        forall|t: int|
            0 <= t < cleaned(n as nat, ends_meet, degenerate).len() ==> #[trigger] cleaned(
                n as nat,
                ends_meet,
                degenerate,
            )[t] < n,
{
    let m: nat = if n > 1 && ends_meet {
        (n - 1) as nat
    } else {
        n as nat
    };
    let start = Seq::new(m, |i: int| i as usize);
    lemma_passes_ascending(start, degenerate, if m > 1 { m } else { 1 }, n as nat);
}


proof fn lemma_kept_upto_full<G: Fn(usize, usize, usize) -> bool>(ids: Seq<usize>, degenerate: G, m: int)
    requires
        0 <= m <= ids.len(),
    ensures
        kept_upto(ids, degenerate, m).len() <= m,
        kept_upto(ids, degenerate, m).len() == m ==> kept_upto(ids, degenerate, m) == ids.take(m),
    decreases m,
{
    if m > 0 {
        lemma_kept_upto_full(ids, degenerate, m - 1);
        let rest = kept_upto(ids, degenerate, m - 1);
        if !dropped(ids, degenerate, m - 1) && rest.len() == m - 1 {
            assert(rest.push(ids[m - 1]) =~= ids.take(m));
        }
    } else {
        assert(ids.take(0) =~= Seq::<usize>::empty());
    }
}

proof fn lemma_passes_stable<G: Fn(usize, usize, usize) -> bool>(ids: Seq<usize>, degenerate: G, budget: nat)
    requires
        budget + 2 >= ids.len(),
    ensures
        clean_passes(ids, degenerate, budget).len() >= 3 ==> clean_pass(
            clean_passes(ids, degenerate, budget),
            degenerate,
        ) == clean_passes(ids, degenerate, budget),
    decreases budget,
{
    if budget > 0 && ids.len() >= 3 {
        lemma_kept_upto_full(ids, degenerate, ids.len() as int);
        let q = clean_pass(ids, degenerate);
        if q.len() == ids.len() {
            assert(ids.take(ids.len() as int) =~= ids);
        } else {
            lemma_passes_stable(q, degenerate, (budget - 1) as nat);
        }
    }
}

/// A cleaned ring of three or more vertices is clean: one more pass over it,
/// judging each vertex against its neighbours in the cleaned ring, drops
/// nothing. (Cleaning never stops for running out of passes while a pass would
/// still drop a vertex.)
pub proof fn lemma_cleaned_is_stable<G: Fn(usize, usize, usize) -> bool>(n: usize, ends_meet: bool, degenerate: G)
    ensures
        cleaned(n as nat, ends_meet, degenerate).len() >= 3 ==> clean_pass(
            cleaned(n as nat, ends_meet, degenerate),
            degenerate,
        ) == cleaned(n as nat, ends_meet, degenerate),
{
    let m: nat = if n > 1 && ends_meet {
        (n - 1) as nat
    } else {
        n as nat
    };
    lemma_passes_stable(Seq::new(m, |i: int| i as usize), degenerate, if m > 1 { m } else { 1 });
}


proof fn lemma_kept_upto_none_dropped<G: Fn(usize, usize, usize) -> bool>(ids: Seq<usize>, degenerate: G, m: int)
    requires
        0 <= m <= ids.len(),
        kept_upto(ids, degenerate, m).len() == m,
    ensures
        forall|i: int| 0 <= i < m ==> !dropped(ids, degenerate, i),
    decreases m,
{
    if m > 0 {
        lemma_kept_upto_full(ids, degenerate, m - 1);
        let rest = kept_upto(ids, degenerate, m - 1);
        assert(!dropped(ids, degenerate, m - 1));
        assert(rest.len() == m - 1);
        lemma_kept_upto_none_dropped(ids, degenerate, m - 1);
    }
}

/// Every vertex of a cleaned ring of three or more vertices is a true corner:
/// `degenerate`, asked about it and its two neighbours around the cleaned ring,
/// never says that it is degenerate.
pub proof fn lemma_cleaned_corners_are_true<G: Fn(usize, usize, usize) -> bool>(
    n: usize,
    ends_meet: bool,
    degenerate: G,
)
    ensures
        ({
            let k = cleaned(n as nat, ends_meet, degenerate);
            let len = k.len() as int;
            len >= 3 ==> forall|t: int|
                0 <= t < len ==> !#[trigger] degenerate.ensures(
                    (k[(t + len - 1) % len], k[t], k[(t + 1) % len]),
                    true,
                )
        }),
{
    let k = cleaned(n as nat, ends_meet, degenerate);
    let len = k.len() as int;
    if len >= 3 {
        lemma_cleaned_is_stable(n, ends_meet, degenerate);
        lemma_kept_upto_none_dropped(k, degenerate, len);
        assert forall|t: int| 0 <= t < len implies !#[trigger] degenerate.ensures(
            (k[(t + len - 1) % len], k[t], k[(t + 1) % len]),
            true,
        ) by {
            assert(!dropped(k, degenerate, t));
        }
    }
}

/// Positions before and after `i` around a ring of `n` positions.
pub proof fn lemma_ring_neighbours(i: int, n: int)
    requires
        0 <= i < n,
    ensures
        (i + n - 1) % n == (if i == 0 { n - 1 } else { i - 1 }),
        (i + 1) % n == (if i + 1 == n { 0 } else { i + 1 }),
{
    if i == 0 {
        vstd::arithmetic::div_mod::lemma_small_mod((n - 1) as nat, n as nat);
    } else {
        vstd::arithmetic::div_mod::lemma_mod_add_multiples_vanish(i - 1, n);
        vstd::arithmetic::div_mod::lemma_small_mod((i - 1) as nat, n as nat);
    }
    if i + 1 == n {
        vstd::arithmetic::div_mod::lemma_mod_self_0(n);
    } else {
        vstd::arithmetic::div_mod::lemma_small_mod((i + 1) as nat, n as nat);
    }
}

/// Cleans a ring of `n` points given by index. `ends_meet` says that the last
/// point lies on the first; `degenerate(prev, cur, next)` says that `cur` is not
/// a true corner between its neighbours (an edge too short, or no turn). Returns
/// the indices of the points kept, in ring order.
pub fn clean_ring<G: Fn(usize, usize, usize) -> bool>(n: usize, ends_meet: bool, degenerate: G) -> (kept: Vec<
    usize,
>)
    requires
        decides3(degenerate),
    ensures
        kept@ == cleaned(n as nat, ends_meet, degenerate),
        ascending(kept@),
        kept@.len() <= n,
        forall|t: int| 0 <= t < kept@.len() ==> #[trigger] kept@[t] < n,
        kept@.len() >= 3 ==> clean_pass(kept@, degenerate) == kept@,
        kept@.len() >= 3 ==> forall|t: int|
            0 <= t < kept@.len() ==> !#[trigger] degenerate.ensures(
                (kept@[(t + kept@.len() - 1) % (kept@.len() as int)], kept@[t], kept@[(t + 1) % (kept@.len() as int)]),
                true,
            ),
{
    proof {
        lemma_cleaned_is_subsequence(n, ends_meet, degenerate);
        lemma_cleaned_is_stable(n, ends_meet, degenerate);
        lemma_cleaned_corners_are_true(n, ends_meet, degenerate);
    }
    let m: usize = if n > 1 && ends_meet {
        n - 1
    } else {
        n
    };
    let mut p: Vec<usize> = Vec::new();
    let mut k: usize = 0;
    while k < m
        invariant
            k <= m,
            p@ =~= Seq::new(k as nat, |i: int| i as usize),
        decreases m - k,
    {
        p.push(k);
        k += 1;
    }
    let max_passes: usize = if m > 1 {
        m
    } else {
        1
    };
    let mut pass: usize = 0;
    let mut done = false;
    while pass < max_passes && !done
        invariant
            decides3(degenerate),
            pass <= max_passes,
            cleaned(n as nat, ends_meet, degenerate) == (if done {
                p@
            } else {
                clean_passes(p@, degenerate, (max_passes - pass) as nat)
            }),
        decreases max_passes - pass + (if done {
            0int
        } else {
            1int
        }),
    {
        if p.len() < 3 {
            done = true;
        } else {
            let len = p.len();
            let mut q: Vec<usize> = Vec::new();
            let mut changed = false;
            let mut i: usize = 0;
            while i < len
                invariant
                    decides3(degenerate),
                    len == p@.len(),
                    len >= 3,
                    i <= len,
                    q@ == kept_upto(p@, degenerate, i as int),
                    q@.len() <= i,
                    changed == (q@.len() < i),
                decreases len - i,
            {
                let prev = if i == 0 {
                    p[len - 1]
                } else {
                    p[i - 1]
                };
                let cur = p[i];
                let next = if i + 1 == len {
                    p[0]
                } else {
                    p[i + 1]
                };
                proof {
                    lemma_ring_neighbours(i as int, len as int);
                }
                let drop = degenerate(prev, cur, next);
                proof {
                    if !drop {
                        assert(!dropped(p@, degenerate, i as int));
                    }
                }
                if drop {
                    changed = true;
                } else {
                    q.push(cur);
                }
                i += 1;
            }
            p = q;
            if !changed {
                done = true;
            } else {
                pass += 1;
            }
        }
    }
    p
}

} // verus!
