use vstd::prelude::*;

verus! {

/// Floats per vertex in the frame's vertex buffer: x, y, then red, green, blue
/// and alpha.
pub const VERTEX_STRIDE: usize = 6;

/// The index a mesh's vertex 0 gets in a frame whose vertex buffer already holds
/// `vertex_floats` floats (the vertex count, cut to 32 bits).
pub open spec fn vertex_base(vertex_floats: usize) -> u32 {
    (vertex_floats / VERTEX_STRIDE) as u32
}

/// Appends the triangle indices `mesh` of one mesh to the frame's index buffer,
/// shifted past the vertices that the vertex buffer held before the mesh's own
/// (`vertex_floats` floats).
pub fn append_mesh_indices(indices: &mut Vec<u32>, vertex_floats: usize, mesh: &Vec<u32>)
    requires
        forall|t: int| 0 <= t < mesh@.len() ==> vertex_base(vertex_floats) + #[trigger] mesh@[t] <= u32::MAX,
    ensures
        final(indices)@ == old(indices)@ + Seq::new(
            mesh@.len(),
            |t: int| (vertex_base(vertex_floats) + mesh@[t]) as u32,
        ),
        final(indices)@.len() == old(indices)@.len() + mesh@.len(),
        forall|t: int| 0 <= t < old(indices)@.len() ==> #[trigger] final(indices)@[t] == old(indices)@[t],
        forall|t: int|
            0 <= t < mesh@.len() && mesh@[t] + vertex_floats as int / VERTEX_STRIDE as int <= u32::MAX
                ==> #[trigger] final(indices)@[old(indices)@.len() + t] == mesh@[t] + vertex_floats as int
                / VERTEX_STRIDE as int,
{
    let base = (vertex_floats / VERTEX_STRIDE) as u32;
    let ghost start = indices@;
    let mut t: usize = 0;
    while t < mesh.len()
        invariant
            base == vertex_base(vertex_floats),
            t <= mesh@.len(),
            forall|k: int| 0 <= k < mesh@.len() ==> vertex_base(vertex_floats) + #[trigger] mesh@[k] <= u32::MAX,
            indices@ =~= start + Seq::new(t as nat, |k: int| (vertex_base(vertex_floats) + mesh@[k]) as u32),
        decreases mesh.len() - t,
    {
        indices.push(base + mesh[t]);
        t += 1;
    }
    proof {
        assert forall|t: int|
            0 <= t < mesh@.len() && mesh@[t] + vertex_floats as int / VERTEX_STRIDE as int <= u32::MAX
            implies #[trigger] indices@[start.len() + t] == mesh@[t] + vertex_floats as int / VERTEX_STRIDE as int by {
            assert(vertex_floats as int / VERTEX_STRIDE as int <= u32::MAX);
            assert(vertex_base(vertex_floats) == vertex_floats as int / VERTEX_STRIDE as int);
        }
    }
}

/// A mouse button as the page reports it.
#[derive(Clone, Copy, Debug, PartialEq, Eq, Structural)]
pub enum Button {
    Primary,
    Secondary,
    Middle,
}

/// The button behind a button code from the page: 1 is the secondary button,
/// 2 the middle one, any other code the primary one.
pub fn button_from_code(code: u32) -> (b: Button)
    ensures
        b == (if code == 1 {
            Button::Secondary
        } else if code == 2 {
            Button::Middle
        } else {
            Button::Primary
        }),
{
    match code {
        1 => Button::Secondary,
        2 => Button::Middle,
        _ => Button::Primary,
    }
}

} // verus!
