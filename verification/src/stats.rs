use vstd::prelude::*;

verus! {

/// Counts that describe one merge: the raw contours of the Boolean union, their
/// vertices, and how many of the rounded corners are concave or had their radius
/// cut short by the room around them.
#[derive(Clone, Copy, Debug)]
pub struct MergeStats {
    pub contours: u32,
    pub raw_vertices: u32,
    pub concave: u32,
    pub limited: u32,
}

impl Default for MergeStats {
    fn default() -> (s: Self)
        ensures
            s.contours == 0,
            s.raw_vertices == 0,
            s.concave == 0,
            s.limited == 0,
    {
        MergeStats { contours: 0, raw_vertices: 0, concave: 0, limited: 0 }
    }
}

/// What the fillet solver found at one corner of a contour.
#[derive(Clone, Copy, Debug, PartialEq, Eq, Structural)]
pub struct CornerKind {
    /// The contour turns clockwise here.
    pub concave: bool,
    /// The fillet radius had to stay below the one that was asked for.
    pub limited: bool,
}

/// The corners of each contour.
pub open spec fn corner_rings(rings: Vec<Vec<CornerKind>>) -> Seq<Seq<CornerKind>> {
    Seq::new(rings@.len(), |i: int| rings@[i]@)
}

pub open spec fn is_concave(c: CornerKind) -> bool {
    c.concave
}

pub open spec fn is_limited(c: CornerKind) -> bool {
    c.limited
}

proof fn lemma_filter_push(s: Seq<CornerKind>, c: CornerKind, pred: spec_fn(CornerKind) -> bool)
    ensures
        s.push(c).filter(pred) == (if pred(c) { s.filter(pred).push(c) } else { s.filter(pred) }),
{
    reveal(Seq::filter);
    assert(s.push(c).drop_last() =~= s);
}

/// The counts of a merge whose fillet solver found the corners `rings`, one
/// list per raw contour, one corner per raw vertex.
pub fn merge_stats(rings: &Vec<Vec<CornerKind>>) -> (stats: MergeStats)
    requires
        corner_rings(*rings).flatten().len() <= u32::MAX,
    ensures
        stats.contours == rings@.len() as u32,
        stats.raw_vertices == corner_rings(*rings).flatten().len(),
        stats.concave == corner_rings(*rings).flatten().filter(|c: CornerKind| is_concave(c)).len(),
        stats.limited == corner_rings(*rings).flatten().filter(|c: CornerKind| is_limited(c)).len(),
        stats.concave == corner_rings(*rings).flatten().filter(|c: CornerKind| c.concave).len(),
        stats.limited == corner_rings(*rings).flatten().filter(|c: CornerKind| c.limited).len(),
        stats.concave <= stats.raw_vertices,
        stats.limited <= stats.raw_vertices,
{
    let ghost all = corner_rings(*rings);
    let ghost pc = |c: CornerKind| is_concave(c);
    let ghost pl = |c: CornerKind| is_limited(c);
    let mut stats = MergeStats::default();
    stats.contours = rings.len() as u32;
    let mut r: usize = 0;
    proof {
        assert(all.take(0) =~= Seq::<Seq<CornerKind>>::empty());
        assert(all.take(0).flatten() =~= Seq::<CornerKind>::empty());
        reveal(Seq::filter);
    }
    while r < rings.len()
        invariant
            all == corner_rings(*rings),
            pc == (|c: CornerKind| is_concave(c)),
            pl == (|c: CornerKind| is_limited(c)),
            all.flatten().len() <= u32::MAX,
            r <= rings@.len(),
            stats.contours == rings@.len() as u32,
            stats.raw_vertices == all.take(r as int).flatten().len(),
            stats.concave == all.take(r as int).flatten().filter(pc).len(),
            stats.limited == all.take(r as int).flatten().filter(pl).len(),
        decreases rings.len() - r,
    {
        let ring = &rings[r];
        let ghost before = all.take(r as int).flatten();
        proof {
            assert(all.take(r as int) + all.skip(r as int) =~= all);
            vstd::seq_lib::lemma_flatten_concat(all.take(r as int), all.skip(r as int));
            assert(all.skip(r as int)[0] == ring@);
            assert(all.skip(r as int).flatten() == all.skip(r as int)[0] + all.skip(r as int).drop_first().flatten());
        }
        let mut c: usize = 0;
        while c < ring.len()
            invariant
                all == corner_rings(*rings),
                pc == (|c: CornerKind| is_concave(c)),
                pl == (|c: CornerKind| is_limited(c)),
                all.flatten().len() <= u32::MAX,
                r < rings@.len(),
                ring@ == all[r as int],
                before == all.take(r as int).flatten(),
                before.len() + ring@.len() <= all.flatten().len(),
                c <= ring@.len(),
                stats.contours == rings@.len() as u32,
                stats.raw_vertices == before.len(),
                stats.concave == (before + ring@.take(c as int)).filter(pc).len(),
                stats.limited == (before + ring@.take(c as int)).filter(pl).len(),
            decreases ring.len() - c,
        {
            let corner = ring[c];
            proof {
                let s = before + ring@.take(c as int);
                assert(before + ring@.take(c as int + 1) =~= s.push(corner));
                lemma_filter_push(s, corner, pc);
                lemma_filter_push(s, corner, pl);
                s.lemma_filter_len(pc);
                s.lemma_filter_len(pl);
                assert(pc(corner) == corner.concave);
                assert(pl(corner) == corner.limited);
                assert(s.push(corner).filter(pc).len() == s.filter(pc).len() + (if corner.concave { 1int } else { 0int }));
                assert(s.push(corner).filter(pl).len() == s.filter(pl).len() + (if corner.limited { 1int } else { 0int }));
            }
            if corner.concave {
                stats.concave += 1;
            }
            if corner.limited {
                stats.limited += 1;
            }
            c += 1;
        }
        stats.raw_vertices += ring.len() as u32;
        proof {
            assert(all.take(r as int + 1) =~= all.take(r as int).push(ring@));
            all.take(r as int).lemma_flatten_push(ring@);
            assert(ring@.take(c as int) =~= ring@);
        }
        r += 1;
    }
    proof {
        assert(all.take(rings@.len() as int) =~= all);
        assert(pc =~= (|c: CornerKind| c.concave));
        assert(pl =~= (|c: CornerKind| c.limited));
        all.flatten().lemma_filter_len(pc);
        all.flatten().lemma_filter_len(pl);
    }
    stats
}

} // verus!
