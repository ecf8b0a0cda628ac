//! A mesh made of a vertex buffer and an index buffer living on the GPU.
use vstd::prelude::*;

verus! {

/// Usage flags of a GPU buffer.
#[allow(non_camel_case_types)]
pub enum BufferUsage {
    COPY_DST,
}

/// A mesh: the buffers holding its vertices (`V`) and its indices (`I`).
pub struct Mesh<V, I> {
    vertex_buffer: V,
    index_buffer: I,
}

impl<V, I> Mesh<V, I> {
    /// The buffer holding the vertices.
    pub closed spec fn vertices(&self) -> V {
        self.vertex_buffer
    }

    /// The buffer holding the indices.
    pub closed spec fn indices(&self) -> I {
        self.index_buffer
    }

    /// Creates and returns a new `Mesh` instance which uses the provided
    /// buffers.
    pub fn new(vertex_buffer: V, index_buffer: I) -> (r: Self)
        ensures
            r.vertices() == vertex_buffer,
            r.indices() == index_buffer,
    {
        Self { vertex_buffer, index_buffer }
    }

    /// The buffer holding the vertices, for the passes that draw the mesh.
    pub fn vertex_buffer(&self) -> (r: &V)
        ensures
            *r == self.vertices(),
    {
        &self.vertex_buffer
    }

    /// The buffer holding the indices, for the passes that draw the mesh.
    pub fn index_buffer(&self) -> (r: &I)
        ensures
            *r == self.indices(),
    {
        &self.index_buffer
    }
}

} // verus!
