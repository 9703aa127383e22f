use acme_native::text::{AtlasFormat, AtlasUpload};
use acme_native::upload::plan_atlas_uploads;

fn upload(x: u32, y: u32, width: u32, height: u32, format: AtlasFormat, len: usize) -> AtlasUpload {
    AtlasUpload { x, y, width, height, format, pixels: vec![0; len] }
}

#[test]
fn plan_skips_malformed_uploads_and_repeated_regions() {
    let uploads = vec![
        upload(0, 0, 2, 3, AtlasFormat::Alpha8, 6),
        upload(0, 0, 0, 3, AtlasFormat::Alpha8, 0),
        upload(2047, 0, 2, 1, AtlasFormat::Alpha8, 2),
        upload(4, 0, 2, 2, AtlasFormat::Rgba8, 4),
        upload(0, 0, 2, 3, AtlasFormat::Alpha8, 6),
        upload(4, 0, 2, 2, AtlasFormat::Rgba8, 16),
    ];
    let mut seen = Vec::new();
    let plan = plan_atlas_uploads(&uploads, &mut seen);
    assert_eq!(plan.writes, vec![0, 5]);
    assert_eq!(plan.total, 3);
    assert_eq!(plan.skipped, 1);
    assert_eq!(plan.bytes, 22);
    assert_eq!(seen, vec![(0, 0, 2, 3), (4, 0, 2, 2)]);
}

#[test]
fn plan_skips_regions_written_earlier_in_the_frame() {
    let mut seen = vec![(8, 8, 1, 1)];
    let plan = plan_atlas_uploads(&[upload(8, 8, 1, 1, AtlasFormat::Alpha8, 1)], &mut seen);
    assert!(plan.writes.is_empty());
    assert_eq!((plan.total, plan.skipped, plan.bytes), (1, 1, 0));
    assert_eq!(seen.len(), 1);
}
