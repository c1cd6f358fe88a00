//! The entry point: a mesh is rasterized into a heightfield, and the
//! heightfield filtered.

use vstd::prelude::*;
use crate::filter::{floors, lacks_headroom};
use crate::heightfield::{Heightfield, HeightfieldView};
use crate::math::IVec3;
use crate::rasterize::RasterizationError;
use crate::span::{AreaType, NULL_AREA};
use crate::trimesh::{TriMesh, TriangleIndices};

verus! {

broadcast use crate::heightfield::Heightfield::lemma_view;

/// The corners of a triangle of a mesh.
pub open spec fn corners_of(vertices: Seq<IVec3>, triangle: [u32; 3]) -> [IVec3; 3] {
    [vertices[triangle[0] as int], vertices[triangle[1] as int], vertices[triangle[2] as int]]
}

impl HeightfieldView {
    /// The heightfield after the first `n` triangles of the mesh were
    /// rasterized in their order, and the error of the first triangle that
    /// was refused, if one was: after that triangle nothing more is
    /// rasterized.
    pub open spec fn rasterize_mesh(
        self,
        vertices: Seq<IVec3>,
        indices: Seq<[u32; 3]>,
        areas: Seq<AreaType>,
        climb: int,
        n: int,
    ) -> (HeightfieldView, Option<RasterizationError>)
        decreases n,
    {
        if n <= 0 {
            (self, None)
        } else {
            let before = self.rasterize_mesh(vertices, indices, areas, climb, n - 1);
            if before.1.is_some() {
                before
            } else {
                match before.0.rasterize_triangle(
                    corners_of(vertices, indices[n - 1]),
                    areas[n - 1].0,
                    climb,
                ) {
                    Ok(v) => (v, None),
                    Err(e) => (before.0, Some(e)),
                }
            }
        }
    }

    /// The three filters in their order: low-hanging obstacles, ledges,
    /// low headroom.
    pub open spec fn filter_all(self, walkable_height: int, walkable_climb: int)
        -> HeightfieldView {
        self.filter_low_hanging(walkable_climb).filter_ledges(walkable_climb).filter_low_height(
            walkable_height,
        )
    }
}

impl HeightfieldView {
    /// What the filters leave walkable can be stood on: a span that is
    /// walkable after the three filters has the headroom asked for and
    /// does not stand at a ledge.
    pub proof fn lemma_filtered_walkable_spans(
        self,
        walkable_height: int,
        walkable_climb: int,
        c: int,
        i: int,
    )
        requires
            self.columns.len() == self.width * self.depth,
            0 <= c < self.columns.len(),
            0 <= i < self.columns[c].len(),
            self.filter_all(walkable_height, walkable_climb).columns[c][i].area != NULL_AREA,
        ensures
            ({
                let filtered = self.filter_all(walkable_height, walkable_climb);
                &&& !lacks_headroom(filtered.columns[c], i, walkable_height)
                &&& !filtered.is_ledge(
                    c % (self.width as int),
                    c / (self.width as int),
                    filtered.columns[c][i].min as int,
                    walkable_climb,
                )
            }),
    {
        let hanging = self.filter_low_hanging(walkable_climb);
        let ledges = hanging.filter_ledges(walkable_climb);
        let filtered = ledges.filter_low_height(walkable_height);
        let x = c % (self.width as int);
        let z = c / (self.width as int);
        assert(lacks_headroom(filtered.columns[c], i, walkable_height) == lacks_headroom(
            ledges.columns[c],
            i,
            walkable_height,
        ));
        assert(filtered.columns[c][i].area == ledges.columns[c][i].area);
        assert(ledges.columns[c][i].area == hanging.columns[c][i].area);
        assert(!hanging.is_ledge(x, z, hanging.columns[c][i].min as int, walkable_climb));
        assert forall|d: int| 0 <= d < filtered.columns.len() implies floors(
            #[trigger] filtered.columns[d],
        ) == floors(hanging.columns[d]) by {
            assert(floors(filtered.columns[d]) =~= floors(ledges.columns[d]));
            assert(floors(ledges.columns[d]) =~= floors(hanging.columns[d]));
        }
        filtered.lemma_is_ledge_same_floors(
            hanging,
            x,
            z,
            filtered.columns[c][i].min as int,
            walkable_climb,
        );
    }
}

impl Heightfield {
    /// Rasterizes the triangles of a [`TriMesh`] into the heightfield and
    /// runs the three filters over it.
    ///
    /// - `walkable_height`: least clearance above a floor, in voxels, under
    ///   which one can stand; meant to be 3 at least.
    /// - `walkable_climb`: greatest step, in voxels, that can be climbed;
    ///   also the tolerance with which spans are merged.
    ///
    /// Where a triangle is refused, its error is returned, the triangles
    /// before it stay rasterized and no filter runs.
    pub fn populate_from_trimesh(&mut self, trimesh: TriMesh, walkable_height: u16, walkable_climb: u16)
        -> (r: Result<(), RasterizationError>)
        requires
            old(self).wf(),
            trimesh.wf(),
        ensures
            final(self).wf(),
            ({
                let outcome = old(self)@.rasterize_mesh(
                    trimesh.vertices@,
                    trimesh.indices@,
                    trimesh.area_types@,
                    walkable_climb as int,
                    trimesh.indices@.len() as int,
                );
                match outcome.1 {
                    Some(e) => r == Err::<(), RasterizationError>(e) && final(self)@ == outcome.0,
                    None => r.is_ok() && final(self)@ == outcome.0.filter_all(
                        walkable_height as int,
                        walkable_climb as int,
                    ),
                }
            }),
    {
        let ghost start = *self;
        let mut i: usize = 0;
        while i < trimesh.indices.len()
            invariant
                self.wf(),
                trimesh.wf(),
                start@ == old(self)@,
                0 <= i <= trimesh.indices@.len(),
                start@.rasterize_mesh(
                    trimesh.vertices@,
                    trimesh.indices@,
                    trimesh.area_types@,
                    walkable_climb as int,
                    i as int,
                ) == (self@, None::<RasterizationError>),
            decreases trimesh.indices@.len() - i,
        {
            let triangle = trimesh.indices[i];
            assert(triangle.names_vertices_of(trimesh.vertices@));
            let corners = [
                trimesh.vertices[triangle[0] as usize],
                trimesh.vertices[triangle[1] as usize],
                trimesh.vertices[triangle[2] as usize],
            ];
            assert(corners == corners_of(trimesh.vertices@, triangle));
            let area_type = trimesh.area_types[i];
            let ghost before = *self;
            match self.rasterize_triangle(corners, area_type, walkable_climb) {
                Ok(()) => {},
                Err(e) => {
                    proof {
                        let n = trimesh.indices@.len() as int;
                        let prior = start@.rasterize_mesh(
                            trimesh.vertices@,
                            trimesh.indices@,
                            trimesh.area_types@,
                            walkable_climb as int,
                            i as int,
                        );
                        assert(prior == (before@, None::<RasterizationError>));
                        assert(before@.rasterize_triangle(
                            corners_of(trimesh.vertices@, trimesh.indices@[i as int]),
                            trimesh.area_types@[i as int].0,
                            walkable_climb as int,
                        ) == Err::<HeightfieldView, RasterizationError>(e));
                        assert(start@.rasterize_mesh(
                            trimesh.vertices@,
                            trimesh.indices@,
                            trimesh.area_types@,
                            walkable_climb as int,
                            i as int + 1,
                        ) == (before@, Some(e)));
                        lemma_rasterize_mesh_stops(
                            start@,
                            trimesh.vertices@,
                            trimesh.indices@,
                            trimesh.area_types@,
                            walkable_climb as int,
                            i as int + 1,
                            n,
                        );
                    }
                    return Err(e);
                },
            }
            i += 1;
        }
        // Once all geometry is rasterized, the filters remove what the
        // conservative rasterization overhangs and where nobody can stand.
        self.filter_low_hanging_walkable_obstacles(walkable_climb);
        self.filter_ledge_spans(walkable_height, walkable_climb);
        self.filter_walkable_low_height_spans(walkable_height);
        Ok(())
    }
}

/// Once a triangle was refused, rasterizing more triangles changes neither
/// the heightfield nor the error.
pub proof fn lemma_rasterize_mesh_stops(
    field: HeightfieldView,
    vertices: Seq<IVec3>,
    indices: Seq<[u32; 3]>,
    areas: Seq<AreaType>,
    climb: int,
    m: int,
    n: int,
)
    requires
        m <= n,
        field.rasterize_mesh(vertices, indices, areas, climb, m).1.is_some(),
    ensures
        field.rasterize_mesh(vertices, indices, areas, climb, n) == field.rasterize_mesh(
            vertices,
            indices,
            areas,
            climb,
            m,
        ),
    decreases n - m,
{
    if m < n {
        lemma_rasterize_mesh_stops(field, vertices, indices, areas, climb, m, n - 1);
    }
}

} // verus!
