use acme_native::batch::{compile_batches, CommandKind};
use acme_native::render::BatchPipeline;

const CLIP: Option<[u32; 4]> = Some([0, 0, 50, 50]);

fn quad() -> CommandKind {
    CommandKind::Quad
}

fn text(alpha: bool) -> CommandKind {
    CommandKind::Text { alpha, rgba: !alpha }
}

#[test]
fn empty_scene_produces_no_batches() {
    let batches = compile_batches(&[], &[]);
    assert!(batches.is_empty(), "empty scene gives no batches");
}

#[test]
fn single_quad_produces_one_batch() {
    let batches = compile_batches(&[quad()], &[None]);
    assert_eq!(batches.len(), 1);
    assert_eq!(batches[0].pipeline, BatchPipeline::Quad);
    assert_eq!(batches[0].command_start, 0);
    assert_eq!(batches[0].command_end, 1);
}

#[test]
fn adjacent_quads_are_merged() {
    let batches = compile_batches(&[quad(), quad(), quad()], &[None, None, None]);
    assert_eq!(batches.len(), 1, "three adjacent quads give one batch");
    assert_eq!(batches[0].command_start, 0);
    assert_eq!(batches[0].command_end, 3);
}

#[test]
fn text_and_quad_are_separate_batches() {
    let batches = compile_batches(&[quad(), text(true)], &[None, None]);
    assert_eq!(batches.len(), 2);
    assert_eq!(batches[0].pipeline, BatchPipeline::Quad);
    assert_eq!(batches[1].pipeline, BatchPipeline::TextAlpha);
}

#[test]
fn clip_boundary_flushes_batches() {
    let kinds = [quad(), CommandKind::PushClip, quad(), CommandKind::PopClip, quad()];
    let clips = [None, CLIP, CLIP, None, None];
    let batches = compile_batches(&kinds, &clips);
    assert_eq!(batches.len(), 3);
    assert_eq!(batches[0].command_start, 0);
    assert_eq!(batches[0].command_end, 1);
    assert_eq!(batches[1].command_start, 2);
    assert_eq!(batches[1].command_end, 3);
    assert_eq!(batches[1].clip, CLIP);
    assert_eq!(batches[2].command_start, 4);
    assert_eq!(batches[2].command_end, 5);
}

#[test]
fn layer_boundary_flushes_batches() {
    let kinds = [quad(), CommandKind::BeginLayer, quad(), CommandKind::EndLayer, quad()];
    let batches = compile_batches(&kinds, &[None; 5]);
    assert!(batches.len() >= 3, "should have at least 3 batches");
    assert_eq!(batches[1].layer, 1, "quad inside layer should have layer=1");
    assert_eq!(batches[2].layer, 0, "quad after EndLayer should have layer=0");
}

#[test]
fn adjacent_text_with_same_format_and_clip_are_merged() {
    let batches = compile_batches(&[text(true), text(true)], &[None, None]);
    assert_eq!(batches.len(), 1, "two adjacent alpha-text commands give one batch");
    assert_eq!(batches[0].command_start, 0);
    assert_eq!(batches[0].command_end, 2);
}

#[test]
fn text_alpha_and_rgba_in_same_command_produce_separate_batches() {
    let batches = compile_batches(&[CommandKind::Text { alpha: true, rgba: true }], &[None]);
    assert_eq!(batches.len(), 2);
    assert_eq!(batches[0].pipeline, BatchPipeline::TextAlpha);
    assert_eq!(batches[1].pipeline, BatchPipeline::TextRgba);
    assert_eq!(batches[0].command_start, 0);
    assert_eq!(batches[1].command_start, 0);
}

#[test]
fn compile_scene_is_deterministic() {
    let kinds = [
        quad(),
        CommandKind::PushClip,
        quad(),
        quad(),
        CommandKind::PopClip,
        text(true),
        text(false),
        CommandKind::BeginLayer,
        quad(),
        CommandKind::EndLayer,
    ];
    let clips = [None, CLIP, CLIP, CLIP, None, None, None, None, None, None];
    let reference = compile_batches(&kinds, &clips);
    for run in 0..100 {
        let result = compile_batches(&kinds, &clips);
        assert_eq!(result, reference, "run {run}: batching must be deterministic");
    }
}

#[test]
fn text_runs_of_different_formats_get_their_own_batches() {
    let batches = compile_batches(&[text(true), text(false)], &[None, None]);
    assert_eq!(batches.len(), 2);
    assert_eq!(batches[0].pipeline, BatchPipeline::TextAlpha);
    assert_eq!((batches[0].command_start, batches[0].command_end), (0, 1));
    assert_eq!(batches[1].pipeline, BatchPipeline::TextRgba);
    assert_eq!((batches[1].command_start, batches[1].command_end), (1, 2));
}

#[test]
fn every_text_command_is_covered_by_a_batch_of_each_of_its_formats() {
    let kinds = [text(false), text(true), text(false), quad()];
    let batches = compile_batches(&kinds, &[None; 4]);
    assert_eq!(batches.len(), 4);
    assert_eq!(batches[0].pipeline, BatchPipeline::TextRgba);
    assert_eq!((batches[0].command_start, batches[0].command_end), (0, 1));
    assert_eq!(batches[1].pipeline, BatchPipeline::TextAlpha);
    assert_eq!((batches[1].command_start, batches[1].command_end), (1, 2));
    assert_eq!(batches[2].pipeline, BatchPipeline::TextRgba);
    assert_eq!((batches[2].command_start, batches[2].command_end), (2, 3));
    assert_eq!(batches[3].pipeline, BatchPipeline::Quad);
}

#[test]
fn mixed_text_commands_merge_only_with_mixed_ones() {
    let both = CommandKind::Text { alpha: true, rgba: true };
    let batches = compile_batches(&[both, both, text(true)], &[None; 3]);
    assert_eq!(batches.len(), 3);
    assert_eq!((batches[0].pipeline, batches[0].command_end), (BatchPipeline::TextAlpha, 2));
    assert_eq!((batches[1].pipeline, batches[1].command_end), (BatchPipeline::TextRgba, 2));
    assert_eq!((batches[2].pipeline, batches[2].command_start), (BatchPipeline::TextAlpha, 2));
}

#[test]
fn clip_change_between_quads_splits_batches_and_end_layer_saturates() {
    let kinds = [CommandKind::EndLayer, quad(), quad()];
    let clips = [None, None, CLIP];
    let batches = compile_batches(&kinds, &clips);
    assert_eq!(batches.len(), 2);
    assert_eq!(batches[0].layer, 0);
    assert_eq!(batches[0].command_end, 2);
    assert_eq!(batches[1].clip, CLIP);
}
