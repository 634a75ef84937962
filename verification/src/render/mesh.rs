//! Triangle meshes over vertices that are still to be placed.
use crate::render::surface::SurfaceVertex;
use vstd::prelude::*;

verus! {

/// What a mesh holds.
#[verifier::ext_equal]
pub struct MeshView<V> {
    pub vertices: Seq<V>,
    pub indices: Seq<int>,
}

impl<V> MeshView<V> {
    /// Nothing.
    pub open spec fn empty() -> MeshView<V> {
        MeshView { vertices: Seq::empty(), indices: Seq::empty() }
    }

    /// Whole triangles, each corner naming a vertex.
    pub open spec fn well_formed(self) -> bool {
        &&& self.indices.len() % 3 == 0
        &&& forall|i: int|
            0 <= i < self.indices.len() ==> 0 <= #[trigger] self.indices[i] < self.vertices.len()
    }

    /// The mesh with a quadrilateral added, as two triangles that share the
    /// diagonal from the first corner to the third. `flipped` turns both to
    /// face the other way.
    pub open spec fn with_quad(self, a: V, b: V, c: V, d: V, flipped: bool) -> MeshView<V> {
        let base = self.vertices.len() as int;
        MeshView {
            vertices: self.vertices + seq![a, b, c, d],
            indices: self.indices + if flipped {
                seq![base, base + 2, base + 1, base, base + 3, base + 2]
            } else {
                seq![base, base + 1, base + 2, base, base + 2, base + 3]
            },
        }
    }

    /// The mesh with one triangle added.
    pub open spec fn with_triangle(self, a: V, b: V, c: V) -> MeshView<V> {
        let base = self.vertices.len() as int;
        MeshView {
            vertices: self.vertices + seq![a, b, c],
            indices: self.indices + seq![base, base + 1, base + 2],
        }
    }

    /// The mesh with a closed fan added: from the centre to every ring vertex,
    /// each triangle running from the next one back to the current one.
    pub open spec fn with_fan(self, centre: V, ring: Seq<V>) -> MeshView<V> {
        let base = self.vertices.len() as int;
        MeshView {
            vertices: self.vertices.push(centre) + ring,
            indices: self.indices + Seq::new(
                3 * ring.len(),
                |i: int| fan_index(base, ring.len() as int, i),
            ),
        }
    }
}

/// The `i`th index of a fan of `sides` sides whose centre is vertex `base`.
pub open spec fn fan_index(base: int, sides: int, i: int) -> int {
    let side = i / 3;
    if i % 3 == 0 {
        base
    } else if i % 3 == 1 {
        base + 1 + (side + 1) % sides
    } else {
        base + 1 + side
    }
}

/// Adding to a well-formed mesh leaves it well-formed.
pub proof fn adding_keeps_meshes_well_formed<V>(
    m: MeshView<V>,
    a: V,
    b: V,
    c: V,
    d: V,
    flipped: bool,
    ring: Seq<V>,
)
    requires
        m.well_formed(),
    ensures
        m.with_quad(a, b, c, d, flipped).well_formed(),
        m.with_triangle(a, b, c).well_formed(),
        m.with_fan(a, ring).well_formed(),
        MeshView::<V>::empty().well_formed(),
{
    let fan = m.with_fan(a, ring);
    assert forall|i: int| 0 <= i < fan.indices.len() implies 0 <= #[trigger] fan.indices[i]
        < fan.vertices.len() by {
        if i >= m.indices.len() {
            let j = i - m.indices.len();
            let sides = ring.len() as int;
            assert(0 <= j < 3 * sides);
            assert(0 <= j / 3 < sides);
            assert(0 <= (j / 3 + 1) % sides < sides) by (nonlinear_arith)
                requires
                    sides > 0,
            ;
            assert(fan.indices[i] == fan_index(m.vertices.len() as int, sides, j));
        }
    }
    assert((m.indices.len() + 3 * ring.len()) % 3 == 0) by (nonlinear_arith)
        requires
            m.indices.len() % 3 == 0,
    ;
}

/// A mesh over vertices that are still to be placed.
#[derive(Debug)]
pub struct TriangleMesh<V> {
    pub vertices: Vec<V>,
    pub indices: Vec<u32>,
}

/// A mesh laid out on the ground.
pub type SurfaceMesh = TriangleMesh<SurfaceVertex>;

impl<V> View for TriangleMesh<V> {
    type V = MeshView<V>;

    open spec fn view(&self) -> MeshView<V> {
        MeshView {
            vertices: self.vertices@,
            indices: Seq::new(self.indices@.len(), |i: int| self.indices@[i] as int),
        }
    }
}

impl<V: Copy> TriangleMesh<V> {
    /// A mesh of nothing.
    pub fn new() -> (r: TriangleMesh<V>)
        ensures
            r@ == MeshView::<V>::empty(),
    {
        let r: TriangleMesh<V> = TriangleMesh { vertices: Vec::new(), indices: Vec::new() };
        assert(r@ =~= MeshView::<V>::empty());
        r
    }

    /// How many vertices there are.
    pub fn count_vertices(&self) -> (r: usize)
        ensures
            r == self@.vertices.len(),
    {
        self.vertices.len()
    }

    fn push_triangle_indices(&mut self, a: u32, b: u32, c: u32)
        ensures
            final(self)@.vertices == old(self)@.vertices,
            final(self)@.indices == old(self)@.indices + seq![a as int, b as int, c as int],
    {
        self.indices.push(a);
        self.indices.push(b);
        self.indices.push(c);
        assert(self@.indices =~= old(self)@.indices + seq![a as int, b as int, c as int]);
    }

    /// Adds a quadrilateral.
    pub fn push_quad(
        &mut self,
        a: V,
        b: V,
        c: V,
        d: V,
        flipped: bool,
    )
        requires
            old(self)@.vertices.len() + 4 <= u32::MAX,
        ensures
            final(self)@ == old(self)@.with_quad(a, b, c, d, flipped),
    {
        let base: u32 = self.vertices.len() as u32;
        self.vertices.push(a);
        self.vertices.push(b);
        self.vertices.push(c);
        self.vertices.push(d);
        assert(self@.vertices =~= old(self)@.vertices + seq![a, b, c, d]);
        assert(self@.indices =~= old(self)@.indices);
        if flipped {
            self.push_triangle_indices(base, base + 2, base + 1);
            self.push_triangle_indices(base, base + 3, base + 2);
        } else {
            self.push_triangle_indices(base, base + 1, base + 2);
            self.push_triangle_indices(base, base + 2, base + 3);
        }
        assert(self@ =~= old(self)@.with_quad(a, b, c, d, flipped));
    }

    /// Adds a triangle.
    pub fn push_triangle(&mut self, a: V, b: V, c: V)
        requires
            old(self)@.vertices.len() + 3 <= u32::MAX,
        ensures
            final(self)@ == old(self)@.with_triangle(a, b, c),
    {
        let base: u32 = self.vertices.len() as u32;
        self.vertices.push(a);
        self.vertices.push(b);
        self.vertices.push(c);
        assert(self@.vertices =~= old(self)@.vertices + seq![a, b, c]);
        assert(self@.indices =~= old(self)@.indices);
        self.push_triangle_indices(base, base + 1, base + 2);
        assert(self@ =~= old(self)@.with_triangle(a, b, c));
    }

    /// Adds a closed fan.
    pub fn push_fan(&mut self, centre: V, ring: &Vec<V>)
        requires
            old(self)@.vertices.len() + 1 + ring@.len() <= u32::MAX,
        ensures
            final(self)@ == old(self)@.with_fan(centre, ring@),
    {
        let base: u32 = self.vertices.len() as u32;
        let sides: u32 = ring.len() as u32;
        let ghost before = self@;
        self.vertices.push(centre);
        let mut i: u32 = 0;
        while i < sides
            invariant
                i <= sides,
                sides == ring@.len(),
                self@.vertices == before.vertices.push(centre) + ring@.take(i as int),
                self@.indices == before.indices,
            decreases sides - i,
        {
            let ghost prior = self@.vertices;
            self.vertices.push(ring[i as usize]);
            i = i + 1;
            assert(self@.vertices =~= prior.push(ring@[i - 1]));
            assert(self@.vertices =~= before.vertices.push(centre) + ring@.take(i as int));
            assert(self@.indices =~= before.indices);
        }
        assert(ring@.take(sides as int) =~= ring@);
        let mut side: u32 = 0;
        while side < sides
            invariant
                side <= sides,
                sides == ring@.len(),
                base == before.vertices.len(),
                base + 1 + sides <= u32::MAX,
                self@.vertices == before.vertices.push(centre) + ring@,
                self@.indices == before.indices + Seq::new(
                    3 * side as nat,
                    |j: int| fan_index(base as int, sides as int, j),
                ),
            decreases sides - side,
        {
            let ghost prior = self@.indices;
            let next: u32 = if side + 1 == sides {
                0
            } else {
                side + 1
            };
            proof {
                if side + 1 == sides {
                    assert((side + 1) % (sides as int) == 0);
                } else {
                    vstd::arithmetic::div_mod::lemma_small_mod((side + 1) as nat, sides as nat);
                }
            }
            self.push_triangle_indices(base, base + 1 + next, base + 1 + side);
            side = side + 1;
            assert(self@.indices =~= before.indices + Seq::new(
                3 * side as nat,
                |j: int| fan_index(base as int, sides as int, j),
            )) by {
                let k = 3 * (side - 1);
                assert(fan_index(base as int, sides as int, k) == base);
                assert(fan_index(base as int, sides as int, k + 1) == base + 1 + next);
                assert(fan_index(base as int, sides as int, k + 2) == base + 1 + (side - 1));
            }
        }
        assert(self@ =~= before.with_fan(centre, ring@));
    }
}

} // verus!
