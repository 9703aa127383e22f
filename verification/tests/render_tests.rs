use acme_native::devtools::RenderDiagnostics;
use acme_native::render::AcquireOutcome::{
    OutdatedOrLost, Success, Suboptimal, TimeoutOrOccluded, Validation,
};
use acme_native::render::{
    complete_recovery_state, is_device_lost, max_pixel_diff, pixels_match,
    resolve_surface_action, AcquireOutcome, BatchPipeline, RenderBatch, RenderError,
    SurfaceAction, SurfaceStatus,
};
use std::sync::atomic::{AtomicBool, Ordering};

#[test]
fn pixel_diff_identical() {
    let a = vec![128u8; 16];
    assert_eq!(max_pixel_diff(&a, &a), 0);
    assert!(pixels_match(&a, &a, 0));
}

#[test]
fn pixel_diff_within_tolerance() {
    let a = vec![100u8; 4];
    let b = vec![102u8; 4];
    assert_eq!(max_pixel_diff(&a, &b), 2);
    assert!(pixels_match(&a, &b, 2));
    assert!(!pixels_match(&a, &b, 1));
}

#[test]
fn pixel_diff_length_mismatch() {
    let a = vec![0u8; 4];
    let b = vec![0u8; 8];
    assert!(!pixels_match(&a, &b, 255));
}

#[test]
fn pixel_diff_takes_largest_channel_over_common_prefix() {
    let a = [10u8, 200, 30, 0];
    let b = [12u8, 100, 35];
    assert_eq!(max_pixel_diff(&a, &b), 100);
    assert_eq!(max_pixel_diff(&[], &b), 0);
}

#[test]
fn device_lost_action_is_distinct() {
    assert_ne!(SurfaceAction::DeviceLost, SurfaceAction::Exit);
    assert_ne!(SurfaceAction::DeviceLost, SurfaceAction::Reconfigure);
}

#[test]
fn resolve_surface_action_covers_all_transitions() {
    let outcomes = [Success, Suboptimal, OutdatedOrLost, TimeoutOrOccluded, Validation];

    for &acquire in &outcomes {
        for &device_lost in &[false, true] {
            assert_eq!(
                resolve_surface_action(true, device_lost, acquire),
                SurfaceAction::Skip,
                "suspended must Skip (device_lost={device_lost}, acquire={acquire:?})"
            );
        }
    }

    for &acquire in &outcomes {
        assert_eq!(
            resolve_surface_action(false, true, acquire),
            SurfaceAction::DeviceLost,
            "device_lost must map to DeviceLost (acquire={acquire:?})"
        );
    }

    assert_eq!(resolve_surface_action(false, false, Success), SurfaceAction::Rendered);
    assert_eq!(resolve_surface_action(false, false, Suboptimal), SurfaceAction::Rendered);
    assert_eq!(resolve_surface_action(false, false, OutdatedOrLost), SurfaceAction::Reconfigure);
    assert_eq!(resolve_surface_action(false, false, TimeoutOrOccluded), SurfaceAction::Skip);
    assert_eq!(resolve_surface_action(false, false, Validation), SurfaceAction::Skip);
}

#[test]
fn recovery_resets_pure_state_and_bumps_epoch() {
    let device_lost = AtomicBool::new(true);
    let mut status = SurfaceStatus::Recovering;
    let mut gpu_epoch = 7u64;
    complete_recovery_state(&device_lost, &mut status, &mut gpu_epoch);
    assert!(!is_device_lost(&device_lost), "device_lost must clear after recovery");
    assert_eq!(status, SurfaceStatus::Ready, "status must return to Ready");
    assert_eq!(gpu_epoch, 8, "gpu_epoch must increment by one");
}

#[test]
fn recovery_epoch_wraps() {
    let device_lost = AtomicBool::new(true);
    let mut status = SurfaceStatus::Suspended;
    let mut gpu_epoch = u64::MAX;
    complete_recovery_state(&device_lost, &mut status, &mut gpu_epoch);
    assert_eq!(gpu_epoch, 0);
}

#[test]
fn device_lost_flag_maps_to_device_lost_action() {
    let flag = AtomicBool::new(false);
    assert_eq!(
        resolve_surface_action(false, is_device_lost(&flag), AcquireOutcome::Success),
        SurfaceAction::Rendered
    );
    flag.store(true, Ordering::Release);
    assert_eq!(
        resolve_surface_action(false, is_device_lost(&flag), AcquireOutcome::Success),
        SurfaceAction::DeviceLost
    );
}

#[test]
fn render_error_messages() {
    assert_eq!(RenderError::DeviceLost.message(), "device lost");
    assert_eq!(
        RenderError::Surface("no window".to_string()).message(),
        "failed to create GPU surface: no window"
    );
}

#[test]
fn render_batch_new_holds_one_command() {
    let b = RenderBatch::new(BatchPipeline::Quad, Some([1, 2, 3, 4]), 0, 7);
    assert_eq!(b.command_start, 7);
    assert_eq!(b.command_end, 8);
    assert_eq!(b.clip, Some([1, 2, 3, 4]));
}

#[test]
fn surface_status_summary_ready() {
    let s = RenderDiagnostics::surface_status_summary(SurfaceStatus::Ready);
    assert!(s.contains("ready"));
}

#[test]
fn surface_status_summary_suspended() {
    let s = RenderDiagnostics::surface_status_summary(SurfaceStatus::Suspended);
    assert!(s.contains("suspended"));
}

#[test]
fn surface_status_summary_recovering() {
    let s = RenderDiagnostics::surface_status_summary(SurfaceStatus::Recovering);
    assert!(s.contains("recovering"));
}
