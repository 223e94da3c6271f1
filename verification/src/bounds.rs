use vstd::prelude::*;
use egui::{Pos2, Rect};

verus! {

/// A point of egui's logical coordinate space, carried through unchanged.
#[verifier::external_type_specification]
#[verifier::external_body]
pub struct ExPos2(egui::Pos2);

/// An axis-aligned rectangle of egui, carried through unchanged.
#[verifier::external_type_specification]
#[verifier::external_body]
pub struct ExRect(egui::Rect);

/// `r` is egui's empty bounding box, `Rect::NOTHING`: its least corner at plus
/// infinity and its greatest at minus infinity, so that extending it by a point
/// gives that point.
pub uninterp spec fn is_empty_box(r: Rect) -> bool;

/// `after` is a rectangle that `Rect::extend_with` may leave when it extends
/// `before` by `p`. egui takes the component-wise `f32::min` of the least corner
/// and `f32::max` of the greatest; std leaves open which of two equal zeros and
/// which NaN comes back, so the relation does not say that one result is the
/// only one.
pub uninterp spec fn is_extension(before: Rect, p: Pos2, after: Rect) -> bool;

/// `chain` is a run of boxes that starts at the empty box and grows by the
/// points in order: box `i + 1` is an extension of box `i` by point `i`.
pub open spec fn grows_by(points: Seq<Pos2>, chain: Seq<Rect>) -> bool {
    &&& chain.len() == points.len() + 1
    &&& is_empty_box(chain[0])
    &&& forall|i: int|
        0 <= i < points.len() ==> #[trigger] is_extension(chain[i], points[i], chain[i + 1])
}

/// `r` is a bounding box that growing the empty box by `points`, first to
/// last, can give.
pub open spec fn grown_bounds(points: Seq<Pos2>, r: Rect) -> bool {
    exists|chain: Seq<Rect>| grows_by(points, chain) && chain.last() == r
}

/// `egui::Rect::NOTHING`, the empty bounding box. The contract claims only
/// that the result is that box; its float corners are egui's.
#[verifier::external_body]
fn rect_nothing() -> (r: Rect)
    ensures
        is_empty_box(r),
{
    Rect::NOTHING
}

/// `egui::Rect::extend_with`: the rectangle afterwards is one that extending the
/// rectangle before by `p` may give; which of several equal floats egui keeps
/// is left open.
#[verifier::external_body]
fn rect_extend_with(r: &mut Rect, p: Pos2)
    ensures
        is_extension(*old(r), p, *final(r)),
{
    r.extend_with(p)
}

/// The bounding rectangle of `points`: `Rect::NOTHING` extended by every
/// point, first to last.
pub fn bounds_of(points: &[Pos2]) -> (r: Rect)
    ensures
        grown_bounds(points@, r),
{
    let mut r = rect_nothing();
    let n = points.len();
    let ghost mut chain: Seq<Rect> = seq![r];
    let mut i: usize = 0;
    while i < n
        invariant
            n == points@.len(),
            i <= n,
            grows_by(points@.take(i as int), chain),
            chain.last() == r,
        decreases n - i,
    {
        let p = points[i];
        let ghost before = r;
        rect_extend_with(&mut r, p);
        proof {
            let old_chain = chain;
            let pre = points@.take(i as int);
            chain = chain.push(r);
            let post = points@.take(i as int + 1);
            assert forall|k: int| 0 <= k < post.len() implies #[trigger] is_extension(
                chain[k],
                post[k],
                chain[k + 1],
            ) by {
                if k < i {
                    assert(post[k] == pre[k]);
                    assert(is_extension(old_chain[k], pre[k], old_chain[k + 1]));
                } else {
                    assert(post[k] == p);
                }
            }
        }
        i += 1;
    }
    proof {
        assert(points@.take(n as int) =~= points@);
    }
    r
}

} // verus!
