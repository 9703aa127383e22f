//! Developer diagnostics that need no GPU or layout engine.
use crate::render::SurfaceStatus;
use vstd::prelude::*;

verus! {

/// Debug dumps of the widget tree.
pub struct WidgetTreeDump;

/// Queries over layout results.
pub struct LayoutInspector;

/// Diagnostics about the renderer state.
pub struct RenderDiagnostics;

impl RenderDiagnostics {
    /// A human-readable description of a surface status.
    pub fn surface_status_summary(status: SurfaceStatus) -> (r: &'static str)
        ensures
            r@ == match status {
                SurfaceStatus::Ready => "surface is ready"@,
                SurfaceStatus::Suspended => "surface is suspended (window hidden or zero-sized)"@,
                SurfaceStatus::Recovering => "surface is recovering from an error"@,
            },
    {
        match status {
            SurfaceStatus::Ready => "surface is ready",
            SurfaceStatus::Suspended => "surface is suspended (window hidden or zero-sized)",
            SurfaceStatus::Recovering => "surface is recovering from an error",
        }
    }
}

} // verus!
