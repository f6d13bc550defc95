//! What frames owe each other: how they follow, what they hand on and when things they use
//! may go.

use vk_sync_fork::AccessType;
use vstd::prelude::*;

use crate::render_graph::alias::MemoryLocation;
use crate::render_graph::graph::{import_views, RenderGraph};
use crate::render_graph::submission::{transition_views, PresentImage, SemaphoreOp, Submission};
use crate::renderer::{
    measurable, temporals_made, transposed, CameraMatrices, FrameOutput, FrameSubmission, Renderer,
    TemporalBackings,
};
use crate::scheduled::{due_of, law_each_waits_for_its_frame, waiting_of};

verus! {

// ---------------------------------------------------------------------------
// Matrices
// ---------------------------------------------------------------------------

/// A matrix that is written column by column is handed on row by row: what stands in a row
/// and a column is found where the rows before it end.
pub proof fn law_matrices_are_handed_on_row_by_row(m: Seq<u32>, row: int, column: int)
    requires
        m.len() == 16,
        0 <= row < 4,
        0 <= column < 4,
    ensures
        transposed(m).len() == 16,
        transposed(m)[4 * row + column] == m[4 * column + row],
{
    let i = 4 * row + column;
    assert(i % 4 == column && i / 4 == row);
}

/// What a frame hands on as the matrix of the frame before is what that frame handed on as
/// its own.
pub proof fn law_the_history_matrix_is_the_last_frames<S, E>(
    first: Renderer<S, E>,
    second: Renderer<S, E>,
    third: Renderer<S, E>,
    camera: CameraMatrices,
    camera_after: CameraMatrices,
    matrices: CameraMatrices,
    matrices_after: CameraMatrices,
)
    requires
        first.hands_matrices(second, camera, matrices),
        second.hands_matrices(third, camera_after, matrices_after),
    ensures
        matrices_after.prev_view_proj@ == matrices.view_proj@,
        forall|row: int, column: int| #![trigger matrices.view_proj@[4 * row + column]]
            0 <= row < 4 && 0 <= column < 4 ==> matrices.view_proj@[4 * row + column]
                == camera.view_proj@[4 * column + row],
        forall|row: int, column: int| #![trigger matrices.view_inverse@[4 * row + column]]
            0 <= row < 4 && 0 <= column < 4 ==> matrices.view_inverse@[4 * row + column]
                == camera.view_inverse@[4 * column + row],
        forall|row: int, column: int| #![trigger matrices.proj_inverse@[4 * row + column]]
            0 <= row < 4 && 0 <= column < 4 ==> matrices.proj_inverse@[4 * row + column]
                == camera.proj_inverse@[4 * column + row],
        second.absolute_frame_count == first.absolute_frame_count,
        second.temporal == first.temporal,
{
    assert forall|row: int, column: int| #![trigger matrices.view_proj@[4 * row + column]]
        0 <= row < 4 && 0 <= column < 4 implies matrices.view_proj@[4 * row + column]
        == camera.view_proj@[4 * column + row] by {
        law_matrices_are_handed_on_row_by_row(camera.view_proj@, row, column);
    }
    assert forall|row: int, column: int| #![trigger matrices.view_inverse@[4 * row + column]]
        0 <= row < 4 && 0 <= column < 4 implies matrices.view_inverse@[4 * row + column]
        == camera.view_inverse@[4 * column + row] by {
        law_matrices_are_handed_on_row_by_row(camera.view_inverse@, row, column);
    }
    assert forall|row: int, column: int| #![trigger matrices.proj_inverse@[4 * row + column]]
        0 <= row < 4 && 0 <= column < 4 implies matrices.proj_inverse@[4 * row + column]
        == camera.proj_inverse@[4 * column + row] by {
        law_matrices_are_handed_on_row_by_row(camera.proj_inverse@, row, column);
    }
}

// ---------------------------------------------------------------------------
// Submissions
// ---------------------------------------------------------------------------

/// Whether something is done to a semaphore with this value.
pub open spec fn has_op(ops: Seq<SemaphoreOp>, semaphore: u64, value: u64) -> bool {
    exists|i: int|
        0 <= i < ops.len() && (#[trigger] ops[i]).0 == semaphore && ops[i].1 == value && ops[i].2
            > 0
}

/// A frame waits for what the frame before it signals, on one and the same semaphore, and
/// for all that it is asked to wait for besides; it signals all that it is asked to.
pub proof fn law_frames_wait_for_the_frame_before(
    frame: u64,
    next: u64,
    timeline: u64,
    waits: Vec<SemaphoreOp>,
    signals: Vec<SemaphoreOp>,
    next_waits: Vec<SemaphoreOp>,
    next_signals: Vec<SemaphoreOp>,
    submission: Submission,
    next_submission: Submission,
)
    requires
        next == frame + 1,
        call_ensures(RenderGraph::submission, (frame, timeline, &waits, &signals), submission),
        call_ensures(
            RenderGraph::submission,
            (next, timeline, &next_waits, &next_signals),
            next_submission,
        ),
    ensures
        has_op(submission.signals@, timeline, frame),
        has_op(next_submission.waits@, timeline, frame),
        has_op(next_submission.signals@, timeline, next),
        forall|i: int|
            0 <= i < next_waits@.len() ==> next_submission.waits@.contains(
                #[trigger] next_waits@[i],
            ),
        forall|i: int|
            0 <= i < next_signals@.len() ==> next_submission.signals@.contains(
                #[trigger] next_signals@[i],
            ),
        next_submission.waits@.len() == next_waits@.len() + 1,
        next_submission.signals@.len() == next_signals@.len() + 1,
{
    assert(submission.signals@[0].0 == timeline);
    assert(next_submission.waits@[0].0 == timeline);
    assert(next_submission.signals@[0].0 == timeline);
    assert forall|i: int| 0 <= i < next_waits@.len() implies next_submission.waits@.contains(
        #[trigger] next_waits@[i],
    ) by {
        assert(next_submission.waits@[i + 1] == next_waits@[i]);
    }
    assert forall|i: int| 0 <= i < next_signals@.len() implies next_submission.signals@.contains(
        #[trigger] next_signals@[i],
    ) by {
        assert(next_submission.signals@[i + 1] == next_signals@[i]);
    }
}

/// Waits on semaphores that do not count keep the order of both lists, and each has its own
/// stages. None is made up.
pub proof fn law_waits_have_their_own_stages(
    semaphores: Vec<u64>,
    stages: Vec<u32>,
    waits: Vec<SemaphoreOp>,
)
    requires
        call_ensures(RenderGraph::binary_waits, (&semaphores, &stages), waits),
    ensures
        waits@.len() <= semaphores@.len(),
        waits@.len() <= stages@.len(),
        waits@.len() == semaphores@.len() || waits@.len() == stages@.len(),
        forall|i: int|
            0 <= i < waits@.len() ==> (#[trigger] waits@[i]).0 == semaphores@[i] && waits@[i].2
                == stages@[i] && waits@[i].1 == 0,
{
}

/// Whether a barrier on an image takes it from these accesses to those.
pub open spec fn takes(
    list: Seq<(PresentImage, Seq<AccessType>, Seq<AccessType>, bool)>,
    image: PresentImage,
    i: int,
) -> bool {
    &&& 0 <= i < list.len()
    &&& list[i].0 == image
    &&& forall|j: int| 0 <= j < list.len() && (#[trigger] list[j]).0 == image ==> j == i
}

/// A frame's image comes out of its copy as the graph left it, and nothing of it is dropped:
/// the next frame finds it as its import says. Each image is taken on behind the copy from
/// where it was taken to in front of it, one to be read and the other to be written, and
/// what the output image held is dropped.
pub proof fn law_a_copied_image_is_given_back<S, E>(
    before: Renderer<S, E>,
    after: Renderer<S, E>,
    source: u32,
    output: FrameOutput,
    timeline: u64,
    release: E,
    done: FrameSubmission,
) -> (r: (int, int, int, int))
    requires
        before.finishes(after, source, output, timeline, release, done),
    ensures
        ({
            let pre = transition_views(done.before_copy@);
            let post = transition_views(done.after_copy@);
            let (s0, o0, s1, o1) = r;
            &&& pre.len() == 2 && post.len() == 2
            &&& takes(pre, PresentImage::Source, s0)
            &&& takes(pre, PresentImage::Output, o0)
            &&& takes(post, PresentImage::Source, s1)
            &&& takes(post, PresentImage::Output, o1)
            &&& post[s1].2 == pre[s0].1
            &&& post[s1].1 == pre[s0].2
            &&& post[o1].1 == pre[o0].2
            &&& pre[s0].2.contains(AccessType::TransferRead)
            &&& pre[o0].2.contains(AccessType::TransferWrite)
            &&& !pre[s0].3 && !post[s1].3 && pre[o0].3 && !post[o1].3
            &&& post[o1].2.contains(AccessType::Present) <==> output is Present
            &&& before.render_graph.resource_end_states@.contains_key(source)
                && before.render_graph.resource_end_states@[source].end_accesses@.len() > 0
                ==> pre[s0].1 == before.render_graph.resource_end_states@[source].end_accesses@
        }),
{
    let pre = transition_views(done.before_copy@);
    let post = transition_views(done.after_copy@);
    assert(pre[0].2[0] == AccessType::TransferRead);
    assert(pre[1].2[0] == AccessType::TransferWrite);
    assert(post[0].2[0] == output.final_access());
    (0, 1, 1, 0)
}

/// A frame that goes to an image of the swapchain waits until the image is there, and tells
/// the one who shows it when it is ready, if the renderer is the last to draw on it. It
/// waits for and signals nothing else but the timeline: the frame before it, and itself.
pub proof fn law_frames_wait_for_their_image<S, E>(
    before: Renderer<S, E>,
    after: Renderer<S, E>,
    source: u32,
    output: FrameOutput,
    timeline: u64,
    release: E,
    done: FrameSubmission,
)
    requires
        before.finishes(after, source, output, timeline, release, done),
    ensures
        done.frame == before.absolute_frame_count,
        has_op(done.submission.signals@, timeline, done.frame),
        done.frame > 0 ==> has_op(done.submission.waits@, timeline, (done.frame - 1) as u64),
        match output {
            FrameOutput::Present { acquire, present } => {
                &&& has_op(done.submission.waits@, acquire, 0)
                &&& has_op(done.submission.signals@, present, 0)
                &&& done.submission.waits@.len() == 2
                &&& done.submission.signals@.len() == 2
            },
            FrameOutput::PresentOverlay { acquire } => {
                &&& has_op(done.submission.waits@, acquire, 0)
                &&& done.submission.waits@.len() == 2
                &&& done.submission.signals@.len() == 1
            },
            FrameOutput::Offscreen => {
                &&& done.submission.waits@.len() == 1
                &&& done.submission.signals@.len() == 1
            },
        },
        done.wait matches Some(awaited) ==> awaited == done.frame,
        done.wait is Some <==> before.settings.serialize_frames,
{
    let waits = done.submission.waits@;
    let signals = done.submission.signals@;
    assert(waits[0].0 == timeline && waits[0].2 > 0);
    assert(signals[0].0 == timeline && signals[0].2 > 0);
    match output {
        FrameOutput::Present { acquire, present } => {
            assert(waits[1].0 == acquire && waits[1].2 > 0);
            assert(signals[1].0 == present && signals[1].2 > 0);
        },
        FrameOutput::PresentOverlay { acquire } => {
            assert(waits[1].0 == acquire && waits[1].2 > 0);
        },
        FrameOutput::Offscreen => {},
    }
}

// ---------------------------------------------------------------------------
// Frames in flight
// ---------------------------------------------------------------------------

/// What a frame used is held while the frame is in flight: its passes and resources stay
/// parked through the starts of the frames that may run beside it, and go when a frame is
/// started in whose place none of them can still be running.
pub proof fn law_frames_in_flight_keep_what_they_use<S, E>(
    before: Renderer<S, E>,
    after: Renderer<S, E>,
    started: Renderer<S, E>,
    source: u32,
    output: FrameOutput,
    timeline: u64,
    release: E,
    done: FrameSubmission,
    frame_count: u32,
)
    requires
        before.wf(),
        after.wf(),
        before.finishes(after, source, output, timeline, release, done),
        after.advances_to(started, frame_count),
        after.absolute_frame_count < usize::MAX,
    ensures
        ({
            let bin = before.absolute_frame_count as int % 2;
            let other = (before.absolute_frame_count + 1) % 2;
            &&& after.render_graph.retired_passes@[bin] == before.render_graph.passes
            &&& after.render_graph.retired_resources@[bin] == before.render_graph.virtual_resources
            &&& started.render_graph.retired_passes@[bin] == before.render_graph.passes
            &&& started.render_graph.retired_resources@[bin]
                == before.render_graph.virtual_resources
            &&& after.render_graph.retired_passes@[other]
                == before.render_graph.retired_passes@[other]
            &&& started.render_graph.retired_passes@[other]@.len() == 0
            &&& started.render_graph.retired_resources@[other]@.len() == 0
        }),
        after.render_graph.passes@.len() == 0,
        after.render_graph.virtual_resources@.len() == 0,
        started.absolute_frame_count == before.absolute_frame_count + 1,
{
    let f = before.absolute_frame_count as int;
    assert(f % 2 != (f + 1) % 2);
    let bin = f % 2;
    assert(started.render_graph.retired_passes[bin] == after.render_graph.retired_passes[bin]);
    assert(started.render_graph.retired_resources[bin]
        == after.render_graph.retired_resources[bin]);
}

/// Starting a frame forgets what the frame before declared, and nothing else: what lives
/// across frames and the pipelines stay, and so does the renderer but for its counts. Each
/// frame accumulates one further than the frame before.
pub proof fn law_starting_a_frame_keeps_what_outlives_it<S, E>(
    before: Renderer<S, E>,
    after: Renderer<S, E>,
    later: Renderer<S, E>,
    frame_count: u32,
    later_count: u32,
)
    requires
        before.relative_frame_count < u32::MAX,
        before.advances_to(after, frame_count),
        after.advances_to(later, later_count),
        after.relative_frame_count < u32::MAX,
    ensures
        later_count == frame_count + 1,
        after.render_graph.temporal_resources@ == before.render_graph.temporal_resources@,
        after.render_graph.pipeline_caches@ == before.render_graph.pipeline_caches@,
        after.temporal == before.temporal,
        after.render_graph.passes@.len() == 0,
        after.render_graph.virtual_resources@.len() == 0,
        after.render_graph.prologue_copies@.len() == 0,
        after.render_graph.registered_temporal@.len() == 0,
        after.render_graph.next_pass_id == 0,
        after.render_graph.next_resource_id == 0,
        forall|id: u32| !#[trigger] after.render_graph.output_resources@.contains(id),
        forall|id: u32| !#[trigger] after.render_graph.resource_end_states@.contains_key(id),
        after.start_of_frame_callbacks == before.start_of_frame_callbacks,
        after.end_of_frame_callbacks == before.end_of_frame_callbacks,
        after.image_extent == before.image_extent,
        after.prev_view_proj == before.prev_view_proj,
        after.assets == before.assets,
        after.completed_frame == before.completed_frame,
{
}

/// Before a frame may take the place of another, the last frame that had it must be
/// complete: the one frame that is as many frames before it as can be in flight.
pub proof fn law_a_place_is_awaited(frame: u64, awaited: Option<u64>)
    requires
        frame < u64::MAX,
        call_ensures(RenderGraph::wait_for_slot_reuse, (frame,), awaited),
    ensures
        match awaited {
            Some(earlier) => {
                &&& 0 < earlier < frame + 1
                &&& earlier as int % 2 == (frame + 1) % 2
                &&& forall|between: int| #![trigger between % 2]
                    earlier < between < frame + 1 ==> between % 2 != (frame + 1) % 2
            },
            None => forall|earlier: int| #![trigger earlier % 2]
                0 < earlier < frame + 1 ==> earlier % 2 != (frame + 1) % 2,
        },
{
}

// ---------------------------------------------------------------------------
// What is scheduled
// ---------------------------------------------------------------------------

/// A mesh that is unloaded stays while the frame that was started last, or a frame that may
/// run beside the next one, is not complete. Once they are, its removal comes. Nothing else
/// that was scheduled is lost.
pub proof fn law_an_unloaded_mesh_outlives_its_frames<S, E>(
    before: Renderer<S, E>,
    after: Renderer<S, E>,
    removal: E,
    completed: u64,
    at: int,
)
    requires
        before.absolute_frame_count + 3 <= u64::MAX,
        before.unloads(after, removal),
        0 <= at < before.end_of_frame_callbacks.entries@.len(),
    ensures
        ({
            let entries = after.end_of_frame_callbacks.entries@;
            let waiting = waiting_of(entries, completed, entries.len());
            let due = due_of(entries, completed, entries.len());
            &&& entries.last().1 == removal
            &&& completed <= before.absolute_frame_count + 2 ==> waiting.contains(entries.last())
            &&& completed > before.absolute_frame_count + 2 ==> due.contains(removal)
            &&& entries[at] == before.end_of_frame_callbacks.entries@[at]
        }),
{
    let entries = after.end_of_frame_callbacks.entries@;
    law_each_waits_for_its_frame(entries, completed, entries.len(), entries.len() - 1);
}

/// What is scheduled for the start of the next frame comes when that frame starts and not
/// before.
pub proof fn law_start_callbacks_come_with_the_next_frame<S, E>(
    before: Renderer<S, E>,
    after: Renderer<S, E>,
    then: Renderer<S, E>,
    callback: S,
    upcoming_frame: u64,
    due: Seq<S>,
)
    requires
        before.absolute_frame_count < u64::MAX,
        before.calls_at_start(after, callback),
        after.starts_with(then, upcoming_frame, due),
    ensures
        upcoming_frame <= before.absolute_frame_count
            ==> then.start_of_frame_callbacks.entries@.contains(
            after.start_of_frame_callbacks.entries@.last(),
        ),
        upcoming_frame > before.absolute_frame_count ==> due.contains(callback),
        after.start_of_frame_callbacks.entries@.last().1 == callback,
        after.end_of_frame_callbacks == before.end_of_frame_callbacks,
        then.end_of_frame_callbacks == before.end_of_frame_callbacks,
{
    let entries = after.start_of_frame_callbacks.entries@;
    law_each_waits_for_its_frame(entries, upcoming_frame, entries.len(), entries.len() - 1);
}

/// What is scheduled for the end of the next frame comes once the device has completed that
/// frame and not before.
pub proof fn law_end_callbacks_come_with_completion<S, E>(
    before: Renderer<S, E>,
    after: Renderer<S, E>,
    then: Renderer<S, E>,
    callback: E,
    due: Seq<E>,
)
    requires
        before.absolute_frame_count < u64::MAX,
        before.calls_at_end(after, callback),
        after.ends_with(then, due),
    ensures
        before.completed_frame <= before.absolute_frame_count
            ==> then.end_of_frame_callbacks.entries@.contains(
            after.end_of_frame_callbacks.entries@.last(),
        ),
        before.completed_frame > before.absolute_frame_count ==> due.contains(callback),
        after.end_of_frame_callbacks.entries@.last().1 == callback,
        after.start_of_frame_callbacks == before.start_of_frame_callbacks,
        then.start_of_frame_callbacks == before.start_of_frame_callbacks,
{
    let entries = after.end_of_frame_callbacks.entries@;
    law_each_waits_for_its_frame(entries, after.completed_frame, entries.len(), entries.len() - 1);
}

/// What a frame holds for itself goes only when the device has completed that very frame;
/// so does what is to be noted of its builds.
pub proof fn law_a_frames_own_things_go_with_it<S, E>(
    marking: Renderer<S, E>,
    before: Renderer<S, E>,
    after: Renderer<S, E>,
    marks: Seq<E>,
    k: int,
    source: u32,
    output: FrameOutput,
    timeline: u64,
    release: E,
    done: FrameSubmission,
    completed: u64,
)
    requires
        marking.absolute_frame_count <= u64::MAX,
        marking.marks_builds(before, marks),
        0 <= k < marks.len(),
        before.finishes(after, source, output, timeline, release, done),
    ensures
        ({
            let entries = after.end_of_frame_callbacks.entries@;
            let waiting = waiting_of(entries, completed, entries.len());
            let due = due_of(entries, completed, entries.len());
            let mark = marking.end_of_frame_callbacks.entries@.len() + k;
            &&& entries.last().1 == release
            &&& entries[mark].1 == marks[k]
            &&& completed < before.absolute_frame_count ==> waiting.contains(entries.last())
                && waiting.contains(entries[mark])
            &&& completed >= before.absolute_frame_count ==> due.contains(release)
                && due.contains(marks[k])
        }),
{
    let entries = after.end_of_frame_callbacks.entries@;
    let mark = marking.end_of_frame_callbacks.entries@.len() + k;
    law_each_waits_for_its_frame(entries, completed, entries.len(), entries.len() - 1);
    law_each_waits_for_its_frame(entries, completed, entries.len(), mark);
}

// ---------------------------------------------------------------------------
// The swapchain
// ---------------------------------------------------------------------------

/// Slots of the swapchain are taken in turn: two frames in a row have different ones, and
/// the frame behind them has the first one's again. What was noted for a slot is what is
/// awaited when its turn comes again.
pub proof fn law_slots_are_taken_in_turn<S, E>(
    first: Renderer<S, E>,
    noted: Renderer<S, E>,
    second: Renderer<S, E>,
    third: Renderer<S, E>,
    fourth: Renderer<S, E>,
    a: (usize, u64),
    b: (usize, u64),
    c: (usize, u64),
    frame: u64,
)
    requires
        first.swapchain matches Some(count) && count.frame_count + 3 <= u64::MAX,
        first.takes_slot(second, Ok(a)),
        second.notes_frame(noted, a.0, frame),
        noted.takes_slot(third, Ok(b)),
        third.takes_slot(fourth, Ok(c)),
    ensures
        a.0 < 2 && b.0 < 2,
        a.0 != b.0,
        c.0 == a.0,
        c.1 == frame,
        b.1 == first.swapchain->0.img_rendered_frames@[b.0 as int],
{
    let n = first.swapchain->0.frame_count as int;
    assert(n % 2 != (n + 1) % 2 && n % 2 == (n + 2) % 2);
}

// ---------------------------------------------------------------------------
// What lives across frames
// ---------------------------------------------------------------------------

/// What lives across frames fits the image and is what the renderer was given: the images
/// have its extent and can be written and sampled, a buffer of reservoirs holds one for each
/// pixel, and the copies of each are the backings that were meant for it.
pub proof fn law_what_lives_across_frames_fits<S, E>(
    renderer: Renderer<S, E>,
    backings: TemporalBackings,
    frame: usize,
    copy: int,
)
    requires
        renderer.tracks_temporals(backings, frame),
        measurable(renderer.image_extent, renderer.sizes),
        0 <= copy < 2,
    ensures
        ({
            let tokens = renderer.temporal;
            let width = renderer.image_extent.0;
            let height = renderer.image_extent.1;
            let held = renderer.render_graph.temporal_resources@;
            &&& tokens.accumulation.desc.extent == renderer.image_extent
            &&& tokens.denoising.desc.extent == renderer.image_extent
            &&& tokens.accumulation.desc.usage & 0x8 != 0
            &&& tokens.accumulation.desc.usage & 0x4 != 0
            &&& tokens.denoising.desc.usage & 0x8 != 0
            &&& tokens.denoising.desc.usage & 0x4 != 0
            &&& tokens.accumulation.desc.format == tokens.denoising.desc.format
            &&& tokens.reservoir.desc.byte_size == width * height * renderer.sizes.reservoir
            &&& tokens.reservoir_gi.desc.byte_size == width * height
                * renderer.sizes.reservoir_gi
            &&& tokens.reservoir.desc.usage & 0x20 != 0
            &&& tokens.reservoir.desc.usage & 0x2_0000 != 0
            &&& tokens.reservoir_gi.desc.usage & 0x20 != 0
            &&& tokens.reservoir_gi.desc.usage & 0x2_0000 != 0
            &&& tokens.accumulation.desc.location == MemoryLocation::GpuOnly
            &&& tokens.denoising.desc.location == MemoryLocation::GpuOnly
            &&& tokens.reservoir.desc.memory_location == MemoryLocation::GpuOnly
            &&& tokens.reservoir_gi.desc.memory_location == MemoryLocation::GpuOnly
            &&& held[tokens.accumulation.index as int].imports@[copy]@.object.token()
                == backings.accumulation@[copy]
            &&& held[tokens.denoising.index as int].imports@[copy]@.object.token()
                == backings.denoising@[copy]
            &&& held[tokens.reservoir.index as int].imports@[copy]@.object.token()
                == backings.reservoir@[copy]
            &&& held[tokens.reservoir_gi.index as int].imports@[copy]@.object.token()
                == backings.reservoir_gi@[copy]
            &&& held[tokens.accumulation.index as int].frame_of_creation == frame
            &&& held[tokens.reservoir_gi.index as int].frame_of_creation == frame
        }),
{
    let before = choose|before: RenderGraph|
        before.temporal_resources@.len() == 0 && #[trigger] temporals_made(
            before,
            renderer.render_graph,
            renderer.temporal,
            renderer.image_extent,
            renderer.sizes,
            backings,
            frame,
        );
    let held = renderer.render_graph.temporal_resources@;
    assert((0x8u32 | 0x4u32) & 0x8u32 != 0 && (0x8u32 | 0x4u32) & 0x4u32 != 0 && (0x20u32
        | 0x2_0000u32 | 0x2u32) & 0x20u32 != 0 && (0x20u32 | 0x2_0000u32 | 0x2u32) & 0x2_0000u32
        != 0) by (bit_vector);
    let made = |i: int| import_views(held[i].imports@);
    assert(made(0).len() == 2 && made(1).len() == 2 && made(2).len() == 2 && made(3).len() == 2);
    assert(import_views(held[0].imports@)[copy] == held[0].imports@[copy]@);
    assert(import_views(held[1].imports@)[copy] == held[1].imports@[copy]@);
    assert(import_views(held[2].imports@)[copy] == held[2].imports@[copy]@);
    assert(import_views(held[3].imports@)[copy] == held[3].imports@[copy]@);
}

/// The images that have to be given a layout are the copies of those that accumulate and
/// denoise, each of them once.
pub proof fn law_every_accumulated_image_is_given_a_layout<S, E>(
    renderer: Renderer<S, E>,
    backings: TemporalBackings,
    frame: usize,
    copy: int,
)
    requires
        renderer.tracks_temporals(backings, frame),
        measurable(renderer.image_extent, renderer.sizes),
        0 <= copy < 2,
    ensures
        renderer.undefined_images().contains(backings.accumulation@[copy]),
        renderer.undefined_images().contains(backings.denoising@[copy]),
        renderer.undefined_images().len() == 4,
{
    law_what_lives_across_frames_fits(renderer, backings, frame, copy);
    let images = renderer.undefined_images();
    assert(images[copy] == backings.accumulation@[copy]);
    assert(images[2 + copy] == backings.denoising@[copy]);
}

/// A renderer that was fitted to another extent has it, owns what was made for it, and
/// starts to accumulate afresh. One that has the extent already is left alone. Frames go on
/// being counted, and what is scheduled stays scheduled.
pub proof fn law_a_resized_renderer_starts_afresh<S, E>(
    before: Renderer<S, E>,
    after: Renderer<S, E>,
    image_extent: (u32, u32),
    backings: TemporalBackings,
    changed: bool,
)
    requires
        before.resizes(after, image_extent, backings, changed),
    ensures
        after.image_extent == (image_extent.0, image_extent.1, 1u32),
        before.image_extent == (image_extent.0, image_extent.1, 1u32) <==> !changed,
        before.image_extent == after.image_extent ==> after == before,
        changed ==> after.relative_frame_count == 0 && after.tracks_temporals(
            backings,
            before.absolute_frame_count,
        ),
        after.absolute_frame_count == before.absolute_frame_count,
        after.end_of_frame_callbacks == before.end_of_frame_callbacks,
        after.start_of_frame_callbacks == before.start_of_frame_callbacks,
        after.assets == before.assets,
        after.render_graph.retired_passes == before.render_graph.retired_passes,
        after.render_graph.pipeline_caches == before.render_graph.pipeline_caches,
{
}

} // verus!
