//! Adjacent batching of an ordered draw-command list: runs of compatible
//! commands under the same clip and layer are drawn by one batch each.
use crate::render::{BatchPipeline, RenderBatch};
use vstd::prelude::*;

verus! {

/// What batching needs to know of a draw command.
#[derive(Clone, Copy, Debug, PartialEq, Eq, Structural)]
pub enum CommandKind {
    /// A solid or bordered quad.
    Quad,
    /// A text run, with whether it holds alpha-mask glyphs and whether it
    /// holds colour glyphs.
    Text { alpha: bool, rgba: bool },
    /// Pushes a clip region.
    PushClip,
    /// Pops a clip region.
    PopClip,
    /// Begins a composited layer.
    BeginLayer,
    /// Ends a composited layer.
    EndLayer,
}

/// Two scissor rectangles (or the absence of one) are the same.
pub open spec fn clip_eq(a: Option<[u32; 4]>, b: Option<[u32; 4]>) -> bool {
    match (a, b) {
        (Some(x), Some(y)) => x[0] == y[0] && x[1] == y[1] && x[2] == y[2] && x[3] == y[3],
        (None, None) => true,
        _ => false,
    }
}

/// Command `j` continues the run of command `j - 1`: both are quads, or
/// both are text runs with the same glyph formats, under the same clip.
pub open spec fn joins(kinds: Seq<CommandKind>, clips: Seq<Option<[u32; 4]>>, j: int) -> bool {
    &&& 0 < j < kinds.len()
    &&& ((kinds[j - 1] is Quad && kinds[j] is Quad) || (kinds[j - 1] is Text && kinds[j] == kinds[j - 1]))
    &&& clip_eq(clips[j], clips[j - 1])
}

/// Command `i` draws something and does not continue a run.
pub open spec fn starts_run(kinds: Seq<CommandKind>, clips: Seq<Option<[u32; 4]>>, i: int) -> bool {
    (kinds[i] is Quad || kinds[i] is Text) && !joins(kinds, clips, i)
}

/// The first command from `j` on that does not continue the run before it.
pub open spec fn run_end(kinds: Seq<CommandKind>, clips: Seq<Option<[u32; 4]>>, j: int) -> int
    decreases kinds.len() - j,
{
    if j >= kinds.len() || !joins(kinds, clips, j) {
        j
    } else {
        run_end(kinds, clips, j + 1)
    }
}

/// The layer depth in effect at command `i`: layers begun and not yet
/// ended, never below zero.
pub open spec fn layer_at(kinds: Seq<CommandKind>, i: int) -> int
    decreases i,
{
    if i <= 0 {
        0
    } else {
        let l = layer_at(kinds, i - 1);
        match kinds[i - 1] {
            CommandKind::BeginLayer => l + 1,
            CommandKind::EndLayer => if l == 0 {
                0
            } else {
                l - 1
            },
            _ => l,
        }
    }
}

/// How many of the first `i` commands begin a layer.
pub open spec fn layers_begun(kinds: Seq<CommandKind>, i: int) -> int
    decreases i,
{
    if i <= 0 {
        0
    } else {
        layers_begun(kinds, i - 1) + if kinds[i - 1] is BeginLayer {
            1int
        } else {
            0int
        }
    }
}

/// How many of the first `i` commands end a layer.
pub open spec fn layers_ended(kinds: Seq<CommandKind>, i: int) -> int
    decreases i,
{
    if i <= 0 {
        0
    } else {
        layers_ended(kinds, i - 1) + if kinds[i - 1] is EndLayer {
            1int
        } else {
            0int
        }
    }
}

/// The batches of the run that starts at `s`: one quad batch over the
/// whole run; or, for text, an alpha batch when the run's commands hold
/// alpha glyphs and a colour batch when they hold colour glyphs, each over
/// the whole run.
pub open spec fn run_batches(kinds: Seq<CommandKind>, clips: Seq<Option<[u32; 4]>>, s: int) -> Seq<RenderBatch> {
    let e = run_end(kinds, clips, s + 1);
    let clip = clips[s];
    let layer = layer_at(kinds, s) as u32;
    match kinds[s] {
        CommandKind::Quad => seq![batch_of(BatchPipeline::Quad, clip, layer, s as usize, e)],
        CommandKind::Text { alpha, rgba } => (if alpha {
            seq![batch_of(BatchPipeline::TextAlpha, clip, layer, s as usize, e)]
        } else {
            Seq::empty()
        }) + (if rgba {
            seq![batch_of(BatchPipeline::TextRgba, clip, layer, s as usize, e)]
        } else {
            Seq::empty()
        }),
        _ => Seq::empty(),
    }
}

/// The batches of the runs that start before command `k`, in order.
pub open spec fn batches_upto(kinds: Seq<CommandKind>, clips: Seq<Option<[u32; 4]>>, k: int) -> Seq<RenderBatch>
    decreases k,
{
    if k <= 0 {
        Seq::empty()
    } else {
        batches_upto(kinds, clips, k - 1) + if starts_run(kinds, clips, k - 1) {
            run_batches(kinds, clips, k - 1)
        } else {
            Seq::empty()
        }
    }
}

/// A batch over commands `start..end`.
pub open spec fn batch_of(pipeline: BatchPipeline, clip: Option<[u32; 4]>, layer: u32, start: usize, end: int) -> RenderBatch {
    RenderBatch { pipeline, clip, layer, command_start: start, command_end: end as usize }
}

fn same_clip(a: Option<[u32; 4]>, b: Option<[u32; 4]>) -> (r: bool)
    ensures
        r == clip_eq(a, b),
{
    match (a, b) {
        (Some(x), Some(y)) => x[0] == y[0] && x[1] == y[1] && x[2] == y[2] && x[3] == y[3],
        (None, None) => true,
        _ => false,
    }
}

proof fn lemma_layer_bound(kinds: Seq<CommandKind>, i: int)
    requires
        0 <= i,
    ensures
        0 <= layer_at(kinds, i) <= i,
    decreases i,
{
    if i > 0 {
        lemma_layer_bound(kinds, i - 1);
    }
}

/// No run starts inside a run, and draw commands leave the layer as it is,
/// so the batches and the layer at the end of a run are those at its start
/// plus the run's own batches.
proof fn lemma_run_span(kinds: Seq<CommandKind>, clips: Seq<Option<[u32; 4]>>, s: int, j: int)
    requires
        0 <= s < j <= kinds.len(),
        kinds.len() == clips.len(),
        starts_run(kinds, clips, s),
        forall|m: int| s < m < j ==> #[trigger] joins(kinds, clips, m),
    ensures
        batches_upto(kinds, clips, j) == batches_upto(kinds, clips, s) + run_batches(kinds, clips, s),
        layer_at(kinds, j) == layer_at(kinds, s),
    decreases j - s,
{
    if j == s + 1 {
        assert(batches_upto(kinds, clips, s + 1) == batches_upto(kinds, clips, s) + run_batches(kinds, clips, s));
    } else {
        lemma_run_span(kinds, clips, s, j - 1);
        assert(joins(kinds, clips, j - 1));
        assert(!starts_run(kinds, clips, j - 1));
        assert(batches_upto(kinds, clips, j) =~= batches_upto(kinds, clips, j - 1));
        assert(kinds[j - 1] is Quad || kinds[j - 1] is Text);
    }
}

/// The run that starts at `s` ends at `e` when every command in between
/// continues it and `e` does not.
proof fn lemma_run_end(kinds: Seq<CommandKind>, clips: Seq<Option<[u32; 4]>>, j: int, e: int)
    requires
        0 <= j <= e <= kinds.len(),
        forall|m: int| j <= m < e ==> #[trigger] joins(kinds, clips, m),
        e == kinds.len() || !joins(kinds, clips, e),
    ensures
        run_end(kinds, clips, j) == e,
    decreases e - j,
{
    if j < e {
        assert(joins(kinds, clips, j));
        lemma_run_end(kinds, clips, j + 1, e);
    }
}

/// Groups an ordered command list into render batches, in painter's
/// order. `clips[i]` is the scissor rectangle in effect at command `i`.
/// Adjacent quads under the same clip share one batch; adjacent text
/// commands with the same glyph formats under the same clip share one batch
/// per format, so each text batch covers exactly commands that hold its
/// format; clip and layer commands end every run.
pub fn compile_batches(kinds: &[CommandKind], clips: &[Option<[u32; 4]>]) -> (r: Vec<RenderBatch>)
    requires
        kinds@.len() == clips@.len(),
        kinds@.len() < u32::MAX,
    ensures
        r@ == batches_upto(kinds@, clips@, kinds@.len() as int),
{
    let n = kinds.len();
    let mut batches: Vec<RenderBatch> = Vec::new();
    let mut layer: u32 = 0;
    let mut i: usize = 0;
    while i < n
        invariant
            n == kinds@.len(),
            n == clips@.len(),
            n < u32::MAX,
            0 <= i <= n,
            i == n || !joins(kinds@, clips@, i as int),
            layer == layer_at(kinds@, i as int),
            batches@ == batches_upto(kinds@, clips@, i as int),
        decreases n - i,
    {
        proof {
            lemma_layer_bound(kinds@, i as int);
        }
        let kind = kinds[i];
        match kind {
            CommandKind::PushClip | CommandKind::PopClip => {
                proof {
                    assert(batches_upto(kinds@, clips@, i + 1) =~= batches_upto(kinds@, clips@, i as int));
                }
                i += 1;
            },
            CommandKind::BeginLayer => {
                proof {
                    assert(batches_upto(kinds@, clips@, i + 1) =~= batches_upto(kinds@, clips@, i as int));
                }
                layer += 1;
                i += 1;
            },
            CommandKind::EndLayer => {
                proof {
                    assert(batches_upto(kinds@, clips@, i + 1) =~= batches_upto(kinds@, clips@, i as int));
                }
                layer = if layer > 0 { layer - 1 } else { 0 };
                i += 1;
            },
            CommandKind::Quad => {
                let s = i;
                let clip = clips[i];
                let ghost before = batches@;
                batches.push(RenderBatch::new(BatchPipeline::Quad, clip, layer, i));
                let bidx = batches.len() - 1;
                i += 1;
                while i < n
                    invariant_except_break
                        n == kinds@.len(),
                        n == clips@.len(),
                        n < u32::MAX,
                        s < i <= n,
                        kinds@[s as int] is Quad,
                        clip == clips@[s as int],
                        clip_eq(clips@[i - 1], clip),
                        kinds@[i - 1] is Quad,
                        bidx == before.len(),
                        batches@ == before.push(
                            RenderBatch {
                                pipeline: BatchPipeline::Quad,
                                clip,
                                layer,
                                command_start: s,
                                command_end: i,
                            },
                        ),
                        forall|m: int| s < m < i ==> #[trigger] joins(kinds@, clips@, m),
                    ensures
                        s < i <= n,
                        i == n || !joins(kinds@, clips@, i as int),
                        batches@ == before.push(
                            RenderBatch {
                                pipeline: BatchPipeline::Quad,
                                clip,
                                layer,
                                command_start: s,
                                command_end: i,
                            },
                        ),
                        forall|m: int| s < m < i ==> #[trigger] joins(kinds@, clips@, m),
                    decreases n - i,
                {
                    let next = kinds[i];
                    match next {
                        CommandKind::Quad => {
                            if same_clip(clips[i], clip) {
                                let mut b = batches[bidx];
                                b.command_end = i + 1;
                                batches.set(bidx, b);
                                proof {
                                    assert(joins(kinds@, clips@, i as int));
                                }
                                i += 1;
                            } else {
                                break;
                            }
                        },
                        _ => {
                            break;
                        },
                    }
                }
                proof {
                    lemma_run_end(kinds@, clips@, s + 1, i as int);
                    lemma_run_span(kinds@, clips@, s as int, i as int);
                    assert(batches@ =~= batches_upto(kinds@, clips@, i as int));
                }
            },
            CommandKind::Text { alpha: has_alpha, rgba: has_rgba } => {
                let s = i;
                let clip = clips[i];
                let ghost before = batches@;
                let mut alpha_idx: usize = 0;
                let mut rgba_idx: usize = 0;
                if has_alpha {
                    alpha_idx = batches.len();
                    batches.push(RenderBatch::new(BatchPipeline::TextAlpha, clip, layer, i));
                }
                if has_rgba {
                    rgba_idx = batches.len();
                    batches.push(RenderBatch::new(BatchPipeline::TextRgba, clip, layer, i));
                }
                i += 1;
                while i < n
                    invariant_except_break
                        n == kinds@.len(),
                        n == clips@.len(),
                        n < u32::MAX,
                        s < i <= n,
                        kinds@[s as int] == (CommandKind::Text { alpha: has_alpha, rgba: has_rgba }),
                        clip == clips@[s as int],
                        clip_eq(clips@[i - 1], clip),
                        kinds@[i - 1] == kinds@[s as int],
                        has_alpha ==> alpha_idx == before.len(),
                        has_rgba ==> rgba_idx == before.len() + (if has_alpha { 1int } else { 0 }),
                        batches@ == before + (if has_alpha {
                            seq![batch_of(BatchPipeline::TextAlpha, clip, layer, s, i as int)]
                        } else {
                            Seq::empty()
                        }) + (if has_rgba {
                            seq![batch_of(BatchPipeline::TextRgba, clip, layer, s, i as int)]
                        } else {
                            Seq::empty()
                        }),
                        forall|m: int| s < m < i ==> #[trigger] joins(kinds@, clips@, m),
                    ensures
                        s < i <= n,
                        i == n || !joins(kinds@, clips@, i as int),
                        batches@ == before + (if has_alpha {
                            seq![batch_of(BatchPipeline::TextAlpha, clip, layer, s, i as int)]
                        } else {
                            Seq::empty()
                        }) + (if has_rgba {
                            seq![batch_of(BatchPipeline::TextRgba, clip, layer, s, i as int)]
                        } else {
                            Seq::empty()
                        }),
                        forall|m: int| s < m < i ==> #[trigger] joins(kinds@, clips@, m),
                    decreases n - i,
                {
                    let same_kind = match kinds[i] {
                        CommandKind::Text { alpha, rgba } => alpha == has_alpha && rgba == has_rgba,
                        _ => false,
                    };
                    if same_kind && same_clip(clips[i], clip) {
                        if has_alpha {
                            let mut b = batches[alpha_idx];
                            b.command_end = i + 1;
                            batches.set(alpha_idx, b);
                        }
                        if has_rgba {
                            let mut b = batches[rgba_idx];
                            b.command_end = i + 1;
                            batches.set(rgba_idx, b);
                        }
                        proof {
                            assert(joins(kinds@, clips@, i as int));
                        }
                        i += 1;
                        proof {
                            assert(batches@ =~= before + (if has_alpha {
                                seq![batch_of(BatchPipeline::TextAlpha, clip, layer, s, i as int)]
                            } else {
                                Seq::empty()
                            }) + (if has_rgba {
                                seq![batch_of(BatchPipeline::TextRgba, clip, layer, s, i as int)]
                            } else {
                                Seq::empty()
                            }));
                        }
                    } else {
                        break;
                    }
                }
                proof {
                    lemma_run_end(kinds@, clips@, s + 1, i as int);
                    lemma_run_span(kinds@, clips@, s as int, i as int);
                    assert(batches@ =~= batches_upto(kinds@, clips@, i as int));
                }
            },
        }
    }
    batches
}

/// While no prefix of the commands ends more layers than it begins, the
/// layer depth at command `i` is the number of layers begun before it less
/// the number ended: each `BeginLayer` deepens by one, each `EndLayer`
/// returns by one, so nested layers count up.
pub proof fn lemma_layer_counts(kinds: Seq<CommandKind>, i: int)
    requires
        0 <= i <= kinds.len(),
        forall|j: int| 0 <= j <= i ==> layers_ended(kinds, j) <= #[trigger] layers_begun(kinds, j),
    ensures
        layer_at(kinds, i) == layers_begun(kinds, i) - layers_ended(kinds, i),
    decreases i,
{
    if i > 0 {
        assert(layers_ended(kinds, i - 1) <= layers_begun(kinds, i - 1));
        lemma_layer_counts(kinds, i - 1);
    }
}

/// Every batch lies inside the commands, and carries the layer depth in
/// effect at its first command.
proof fn lemma_batch_starts(kinds: Seq<CommandKind>, clips: Seq<Option<[u32; 4]>>, k: int, b: int)
    requires
        0 <= k <= kinds.len(),
        kinds.len() == clips.len(),
        kinds.len() < u32::MAX,
        0 <= b < batches_upto(kinds, clips, k).len(),
    ensures
        batches_upto(kinds, clips, k)[b].command_start < k,
        batches_upto(kinds, clips, k)[b].layer == layer_at(kinds, batches_upto(kinds, clips, k)[b].command_start as int),
    decreases k,
{
    let prev = batches_upto(kinds, clips, k - 1);
    if b < prev.len() {
        lemma_batch_starts(kinds, clips, k - 1, b);
    } else {
        let s = k - 1;
        lemma_layer_bound(kinds, s);
        let rb = run_batches(kinds, clips, s);
        assert(batches_upto(kinds, clips, k)[b] == rb[b - prev.len()]);
    }
}

/// In a command list where no prefix ends more layers than it begins, the
/// layer of every batch is the number of layers begun before its first
/// command less the number ended there.
pub proof fn lemma_batch_layers(kinds: Seq<CommandKind>, clips: Seq<Option<[u32; 4]>>, b: int)
    requires
        kinds.len() == clips.len(),
        kinds.len() < u32::MAX,
        forall|j: int| 0 <= j <= kinds.len() ==> layers_ended(kinds, j) <= #[trigger] layers_begun(kinds, j),
        0 <= b < batches_upto(kinds, clips, kinds.len() as int).len(),
    ensures
        ({
            let bt = batches_upto(kinds, clips, kinds.len() as int)[b];
            bt.layer == layers_begun(kinds, bt.command_start as int) - layers_ended(kinds, bt.command_start as int)
        }),
{
    let n = kinds.len() as int;
    lemma_batch_starts(kinds, clips, n, b);
    let st = batches_upto(kinds, clips, n)[b].command_start as int;
    lemma_layer_counts(kinds, st);
}

} // verus!
