//! Renderer decisions that do not touch the GPU: what to do with a frame
//! given the surface state, device-loss recovery bookkeeping, batch
//! descriptors and golden-image pixel comparison.
use std::sync::atomic::AtomicBool;
use vstd::prelude::*;

verus! {

/// Lifecycle state of a window surface.
#[derive(Clone, Copy, Debug, Eq, PartialEq, Structural)]
pub enum SurfaceStatus {
    Ready,
    Suspended,
    Recovering,
}

/// What the caller should do after a render attempt.
#[derive(Clone, Copy, Debug, Eq, PartialEq, Structural)]
pub enum SurfaceAction {
    Rendered,
    Reconfigure,
    Skip,
    Exit,
    DeviceLost,
}

/// The outcome of acquiring the next surface texture.
#[derive(Clone, Copy, Debug, Eq, PartialEq, Structural)]
pub enum AcquireOutcome {
    Success,
    Suboptimal,
    OutdatedOrLost,
    TimeoutOrOccluded,
    Validation,
}

/// The action for a frame: a suspended surface skips it whatever else
/// holds; otherwise a lost device asks for recovery; otherwise the acquire
/// outcome decides: success (optimal or not) renders, an outdated or lost
/// surface is reconfigured, a timeout, occlusion or validation error skips.
pub open spec fn surface_action(suspended: bool, device_lost: bool, acquire: AcquireOutcome) -> SurfaceAction {
    if suspended {
        SurfaceAction::Skip
    } else if device_lost {
        SurfaceAction::DeviceLost
    } else {
        match acquire {
            AcquireOutcome::Success | AcquireOutcome::Suboptimal => SurfaceAction::Rendered,
            AcquireOutcome::OutdatedOrLost => SurfaceAction::Reconfigure,
            AcquireOutcome::TimeoutOrOccluded | AcquireOutcome::Validation => SurfaceAction::Skip,
        }
    }
}

/// Decides what to do with a frame.
pub fn resolve_surface_action(suspended: bool, device_lost: bool, acquire: AcquireOutcome) -> (r: SurfaceAction)
    ensures
        r == surface_action(suspended, device_lost, acquire),
{
    if suspended {
        return SurfaceAction::Skip;
    }
    if device_lost {
        return SurfaceAction::DeviceLost;
    }
    match acquire {
        AcquireOutcome::Success | AcquireOutcome::Suboptimal => SurfaceAction::Rendered,
        AcquireOutcome::OutdatedOrLost => SurfaceAction::Reconfigure,
        AcquireOutcome::TimeoutOrOccluded | AcquireOutcome::Validation => SurfaceAction::Skip,
    }
}

/// Reads the device-lost flag shared with the GPU error callbacks. The
/// flag is set from other threads, so nothing is stated of the value read.
pub fn is_device_lost(flag: &AtomicBool) -> bool {
    flag.load(std::sync::atomic::Ordering::Acquire)
}

/// Finishes a device recovery: clears the device-lost flag, marks the
/// surface ready and advances the GPU epoch (wrapping). The flag is shared
/// with the device-loss callback; only the status and epoch are stated.
pub fn complete_recovery_state(device_lost: &AtomicBool, status: &mut SurfaceStatus, gpu_epoch: &mut u64)
    ensures
        *final(status) == SurfaceStatus::Ready,
        *final(gpu_epoch) == (if *old(gpu_epoch) == u64::MAX {
            0
        } else {
            *old(gpu_epoch) + 1
        }),
{
    device_lost.store(false, std::sync::atomic::Ordering::Release);
    *status = SurfaceStatus::Ready;
    *gpu_epoch = gpu_epoch.wrapping_add(1);
}

/// Why the renderer could not be created or recovered.
#[derive(Clone, Debug, PartialEq, Eq)]
pub enum RenderError {
    WindowTarget,
    Surface(String),
    Adapter,
    Device(String),
    DeviceLost,
    DeviceRecoveryFailed,
}

impl RenderError {
    /// The human-readable description of the error.
    pub fn message(&self) -> (r: String)
        ensures
            r@ == match self {
                RenderError::WindowTarget => "unsupported window surface target"@,
                RenderError::Surface(d) => "failed to create GPU surface: "@ + d@,
                RenderError::Adapter => "no compatible GPU adapter was found"@,
                RenderError::Device(d) => "failed to request GPU device: "@ + d@,
                RenderError::DeviceLost => "device lost"@,
                RenderError::DeviceRecoveryFailed => "failed to recreate GPU resources after device loss"@,
            },
    {
        match self {
            RenderError::WindowTarget => "unsupported window surface target".to_owned(),
            RenderError::Surface(d) => {
                let mut out = "failed to create GPU surface: ".to_owned();
                out.append(d.as_str());
                out
            },
            RenderError::Adapter => "no compatible GPU adapter was found".to_owned(),
            RenderError::Device(d) => {
                let mut out = "failed to request GPU device: ".to_owned();
                out.append(d.as_str());
                out
            },
            RenderError::DeviceLost => "device lost".to_owned(),
            RenderError::DeviceRecoveryFailed => "failed to recreate GPU resources after device loss".to_owned(),
        }
    }
}

/// The GPU pipeline used to draw a batch.
#[derive(Clone, Copy, Debug, PartialEq, Eq, Structural)]
pub enum BatchPipeline {
    /// Solid-colour quads (rounded rect / border).
    Quad,
    /// Alpha8 text glyphs (mask atlas).
    TextAlpha,
    /// RGBA text glyphs (colour emoji atlas).
    TextRgba,
}

/// A batch of adjacent draw commands sharing the same pipeline and clip.
#[derive(Clone, Copy, Debug, PartialEq, Eq)]
pub struct RenderBatch {
    pub pipeline: BatchPipeline,
    /// Scissor rect `[x, y, w, h]`, or `None` for the full viewport.
    pub clip: Option<[u32; 4]>,
    /// Layer depth.
    pub layer: u32,
    /// Index of the first draw command of the batch.
    pub command_start: usize,
    /// One past the last draw command of the batch.
    pub command_end: usize,
}

impl RenderBatch {
    /// A batch holding the single command `cmd_idx`.
    pub fn new(pipeline: BatchPipeline, clip: Option<[u32; 4]>, layer: u32, cmd_idx: usize) -> (r: Self)
        requires
            cmd_idx < usize::MAX,
        ensures
            r == (RenderBatch { pipeline, clip, layer, command_start: cmd_idx, command_end: (cmd_idx + 1) as usize }),
    {
        RenderBatch { pipeline, clip, layer, command_start: cmd_idx, command_end: cmd_idx + 1 }
    }
}

/// The difference between two bytes.
pub open spec fn byte_diff(x: u8, y: u8) -> int {
    if x < y {
        y - x
    } else {
        x - y
    }
}

/// `r` is the largest channel difference between the paired bytes of `a`
/// and `b` (as far as the shorter one goes), or 0 when there is none.
pub open spec fn is_max_diff(a: Seq<u8>, b: Seq<u8>, r: int) -> bool {
    &&& forall|i: int| 0 <= i < a.len() && i < b.len() ==> #[trigger] byte_diff(a[i], b[i]) <= r
    &&& (r == 0 || exists|i: int| 0 <= i < a.len() && i < b.len() && #[trigger] byte_diff(a[i], b[i]) == r)
}

/// The largest per-channel difference between two pixel buffers, over the
/// bytes they both have.
pub fn max_pixel_diff(a: &[u8], b: &[u8]) -> (r: u8)
    ensures
        is_max_diff(a@, b@, r as int),
{
    let n = if a.len() < b.len() { a.len() } else { b.len() };
    let mut best: u8 = 0;
    let mut i: usize = 0;
    while i < n
        invariant
            n <= a@.len(),
            n <= b@.len(),
            n == a@.len() || n == b@.len(),
            0 <= i <= n,
            forall|k: int| 0 <= k < i ==> #[trigger] byte_diff(a@[k], b@[k]) <= best,
            best == 0 || exists|k: int| 0 <= k < i && #[trigger] byte_diff(a@[k], b@[k]) == best,
        decreases n - i,
    {
        let x = a[i];
        let y = b[i];
        let d = if x < y { y - x } else { x - y };
        if d > best {
            best = d;
        }
        proof {
            assert(byte_diff(a@[i as int], b@[i as int]) == d);
        }
        i += 1;
    }
    best
}

/// Whether two pixel buffers have the same length and differ by at most
/// `tolerance` in every byte.
pub fn pixels_match(a: &[u8], b: &[u8], tolerance: u8) -> (r: bool)
    ensures
        r == (a@.len() == b@.len() && forall|i: int| 0 <= i < a@.len() ==> #[trigger] byte_diff(a@[i], b@[i]) <= tolerance),
{
    if a.len() != b.len() {
        return false;
    }
    let d = max_pixel_diff(a, b);
    proof {
        if d > tolerance {
            let i = choose|i: int| 0 <= i < a@.len() && i < b@.len() && #[trigger] byte_diff(a@[i], b@[i]) == d;
        }
    }
    d <= tolerance
}

} // verus!
