//! The plugins of the engine and of the editor. The application configures
//! each one when it starts; that configuration is host code.
use vstd::prelude::*;

use crate::widgets::EguiSceneSelector;

verus! {

/// Handles the editor camera.
pub struct CameraPlugin;

/// Builds the editor's user interface.
pub struct GuiPlugin;

/// Sends the log records to the editor's log section.
pub struct GuiLoggerPlugin;

/// Populates the workbench scene of the editor.
pub struct WorkbenchScenePlugin;

/// Traks the elapsed time between frames. This can be used to know the delta
/// time.
pub struct ClockPlugin;

/// Allocates and setups all the default primitives (pentagon, cube, sphere,
/// plane and cone) to be used in the rendering step.
pub struct PrimitivesPlugin;

/// Renders the scenes with `wgpu`.
pub struct WgpuRendererPlugin;

/// Renders an `iced` user interface.
pub struct IcedPlugin;

/// Renders an `egui` user interface into the selected scene.
pub struct EguiPlugin {
    pub scene: EguiSceneSelector,
}

} // verus!
