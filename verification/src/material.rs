//! Materials: the component that attaches one to an entity, the kinds of
//! material and their texture slots.
use vstd::prelude::*;

verus! {

/// Identifies an asset registered in the asset server.
pub type AssetResourceID = String;

/// Represents a material component associated with an asset resource ID.
///
/// This component stores the ID of the material associated with an entity.
pub struct MaterialComponent(pub AssetResourceID);

impl MaterialComponent {
    /// Creates a new instance of `MaterialComponent` with the given asset resource ID.
    pub fn new(id: AssetResourceID) -> (r: Self)
        ensures
            r.0 == id,
    {
        Self(id)
    }
}

impl core::ops::Deref for MaterialComponent {
    type Target = String;

    fn deref(&self) -> (r: &String)
        ensures
            *r == self.0,
    {
        &self.0
    }
}

/// Represents all the possible types of textures associated with a material.
pub enum MaterialTexture {
    /// Diffuse texture.
    Diffuse,
}

impl MaterialTexture {
    /// Returns the texture type as a string.
    pub fn as_string(&self) -> (r: String)
        ensures
            r@ == "tex_diffuse"@,
    {
        match self {
            MaterialTexture::Diffuse => "tex_diffuse".to_owned(),
        }
    }
}

/// Defines the type of material we are dealing with.
///
/// This is usefull to determine which data we should pass to the
/// shader.
#[derive(Copy, Clone)]
pub enum MaterialKind {
    Untextured,
}

impl MaterialKind {
    /// The identifier of the render pipeline of this kind of material.
    pub fn pipeline_id(&self) -> (r: String)
        ensures
            r@ == "untextured_material_pipeline_id"@,
    {
        match self {
            MaterialKind::Untextured => "untextured_material_pipeline_id".to_owned(),
        }
    }
}

} // verus!
