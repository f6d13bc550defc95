//! Handing a recorded frame to the device: what it waits for, what it signals, and how
//! its result gets onto an output image.

use vk_sync_fork::AccessType;
use vstd::prelude::*;

use crate::render_graph::access::copy_accesses;
use crate::render_graph::graph::{slot_of, AnyRenderPass, RenderGraph};
use crate::render_graph::resource::{GraphResourceInfo, Handle, Image};

verus! {

broadcast use vstd::std_specs::hash::group_hash_axioms;

/// Vulkan's mask of all stages.
pub const STAGE_ALL_COMMANDS: u64 = 0x1_0000;

/// A semaphore, a value for those that count, and the stages that take part.
pub type SemaphoreOp = (u64, u64, u64);

/// What a submission waits for and what it signals.
#[derive(Debug)]
pub struct Submission {
    pub waits: Vec<SemaphoreOp>,
    pub signals: Vec<SemaphoreOp>,
}

/// The number of the frame before; the first has none before it and gets 0.
pub open spec fn previous_frame(frame: u64) -> u64 {
    if frame > 0 {
        (frame - 1) as u64
    } else {
        0
    }
}

/// A list with one operation in front.
fn behind(first: SemaphoreOp, rest: &Vec<SemaphoreOp>) -> (all: Vec<SemaphoreOp>)
    ensures
        all@ == seq![first] + rest@,
{
    let mut all: Vec<SemaphoreOp> = Vec::with_capacity(rest.len());
    all.push(first);
    let mut i: usize = 0;
    proof {
        assert(all@ =~= seq![first] + rest@.take(0));
    }
    while i < rest.len()
        invariant
            i <= rest.len(),
            all@ == seq![first] + rest@.take(i as int),
        decreases rest.len() - i,
    {
        all.push(rest[i]);
        i = i + 1;
        proof {
            assert(all@ =~= seq![first] + rest@.take(i as int));
        }
    }
    proof {
        assert(rest@.take(i as int) =~= rest@);
    }
    all
}

impl RenderGraph {
    /// The submission of a frame: it waits until the graph's timeline has reached the
    /// frame before, which orders what lives across frames, and signals the timeline
    /// with its own number. Further waits and signals come behind.
    pub fn submission(
        frame: u64,
        timeline: u64,
        extra_waits: &Vec<SemaphoreOp>,
        extra_signals: &Vec<SemaphoreOp>,
    ) -> (s: Submission)
        ensures
            s.waits@ == seq![(timeline, previous_frame(frame), STAGE_ALL_COMMANDS)]
                + extra_waits@,
            s.signals@ == seq![(timeline, frame, STAGE_ALL_COMMANDS)] + extra_signals@,
    {
        let previous: u64 = if frame > 0 {
            frame - 1
        } else {
            0
        };
        Submission {
            waits: behind((timeline, previous, STAGE_ALL_COMMANDS), extra_waits),
            signals: behind((timeline, frame, STAGE_ALL_COMMANDS), extra_signals),
        }
    }

    /// Waits on semaphores that do not count, each with its stages. What has no partner
    /// in the other list is left out.
    pub fn binary_waits(semaphores: &Vec<u64>, stages: &Vec<u32>) -> (waits: Vec<SemaphoreOp>)
        ensures
            waits@ == Seq::new(
                if semaphores@.len() < stages@.len() {
                    semaphores@.len()
                } else {
                    stages@.len()
                },
                |i: int| (semaphores@[i], 0u64, stages@[i] as u64),
            ),
    {
        let mut waits: Vec<SemaphoreOp> = Vec::new();
        let mut i: usize = 0;
        while i < semaphores.len() && i < stages.len()
            invariant
                i <= semaphores.len(),
                i <= stages.len(),
                waits@ == Seq::new(i as nat, |k: int| (semaphores@[k], 0u64, stages@[k] as u64)),
            decreases semaphores.len() - i,
        {
            waits.push((semaphores[i], 0, stages[i] as u64));
            i = i + 1;
            proof {
                assert(waits@ =~= Seq::new(
                    i as nat,
                    |k: int| (semaphores@[k], 0u64, stages@[k] as u64),
                ));
            }
        }
        waits
    }

    /// Parks the passes and resources of a frame that was submitted in the bins of its
    /// slot. They own what the device still reads.
    pub fn retire(&mut self, frame: usize)
        requires
            old(self).slots_wf(),
        ensures
            final(self).slots_wf(),
            *final(self) == (RenderGraph {
                passes: final(self).passes,
                virtual_resources: final(self).virtual_resources,
                retired_passes: final(self).retired_passes,
                retired_resources: final(self).retired_resources,
                ..*old(self)
            }),
            final(self).passes@.len() == 0,
            final(self).virtual_resources@.len() == 0,
            final(self).retired_passes@ == old(self).retired_passes@.update(
                slot_of(frame as int),
                old(self).passes,
            ),
            final(self).retired_resources@ == old(self).retired_resources@.update(
                slot_of(frame as int),
                old(self).virtual_resources,
            ),
    {
        let slot: usize = Self::current_slot(frame);
        let mut passes: Vec<AnyRenderPass> = Vec::new();
        std::mem::swap(&mut passes, &mut self.passes);
        let mut resources: Vec<GraphResourceInfo> = Vec::new();
        std::mem::swap(&mut resources, &mut self.virtual_resources);
        self.retired_passes.set(slot, passes);
        self.retired_resources.set(slot, resources);
    }

    /// How a frame leaves the image it presents: in every access of its final epoch, or
    /// in `Nothing` where no pass touched it.
    pub open spec fn presented_in(self, source: u32) -> Seq<AccessType> {
        let ends = self.resource_end_states@;
        if ends.contains_key(source) && ends[source].end_accesses@.len() > 0 {
            ends[source].end_accesses@
        } else {
            seq![AccessType::Nothing]
        }
    }

    /// The barriers around the copy of a frame's result onto an output image.
    ///
    /// Before it, the source goes from how the graph left it to a transfer read, and the
    /// output to a transfer write, its contents discarded. After it, the output goes to
    /// `dst_final`, and the source back to how the graph left it, so that the next frame
    /// finds it as its import says.
    pub fn present_transitions(
        &self,
        source: &Handle<Image>,
        dst_final: AccessType,
    ) -> (r: (Vec<ImageTransition>, Vec<ImageTransition>))
        ensures
            transition_views(r.0@) == copy_entered(self.presented_in(source.id)),
            transition_views(r.1@) == copy_left(self.presented_in(source.id), dst_final),
    {
        let mut left: Vec<AccessType> = Vec::new();
        match self.resource_end_states.get(&source.id) {
            Some(end) => {
                left = copy_accesses(&end.end_accesses);
            },
            None => {},
        }
        if left.len() == 0 {
            left = one(AccessType::Nothing);
        }
        proof {
            assert(left@ =~= self.presented_in(source.id));
        }
        let back = copy_accesses(&left);
        let mut pre: Vec<ImageTransition> = Vec::new();
        pre.push(
            ImageTransition {
                image: PresentImage::Source,
                prev: left,
                next: one(AccessType::TransferRead),
                discard: false,
            },
        );
        pre.push(
            ImageTransition {
                image: PresentImage::Output,
                prev: one(AccessType::Nothing),
                next: one(AccessType::TransferWrite),
                discard: true,
            },
        );
        let mut post: Vec<ImageTransition> = Vec::new();
        post.push(
            ImageTransition {
                image: PresentImage::Output,
                prev: one(AccessType::TransferWrite),
                next: one(dst_final),
                discard: false,
            },
        );
        post.push(
            ImageTransition {
                image: PresentImage::Source,
                prev: one(AccessType::TransferRead),
                next: back,
                discard: false,
            },
        );
        proof {
            let left = self.presented_in(source.id);
            assert(transition_views(pre@) =~= copy_entered(left));
            assert(transition_views(post@) =~= copy_left(left, dst_final));
        }
        (pre, post)
    }
}

/// The two images of a presentation.
#[derive(Clone, Copy, Debug, PartialEq, Eq, Structural)]
pub enum PresentImage {
    Source,
    Output,
}

/// A barrier on one of them.
#[derive(Debug)]
pub struct ImageTransition {
    pub image: PresentImage,
    pub prev: Vec<AccessType>,
    pub next: Vec<AccessType>,
    pub discard: bool,
}

/// The views of such barriers.
pub open spec fn transition_views(list: Seq<ImageTransition>) -> Seq<
    (PresentImage, Seq<AccessType>, Seq<AccessType>, bool),
> {
    Seq::new(
        list.len(),
        |i: int| (list[i].image, list[i].prev@, list[i].next@, list[i].discard),
    )
}

/// The barriers in front of the copy of an image that is left in these accesses.
pub open spec fn copy_entered(left: Seq<AccessType>) -> Seq<
    (PresentImage, Seq<AccessType>, Seq<AccessType>, bool),
> {
    seq![
        (PresentImage::Source, left, seq![AccessType::TransferRead], false),
        (PresentImage::Output, seq![AccessType::Nothing], seq![AccessType::TransferWrite], true),
    ]
}

/// The barriers behind that copy.
pub open spec fn copy_left(left: Seq<AccessType>, dst_final: AccessType) -> Seq<
    (PresentImage, Seq<AccessType>, Seq<AccessType>, bool),
> {
    seq![
        (PresentImage::Output, seq![AccessType::TransferWrite], seq![dst_final], false),
        (PresentImage::Source, seq![AccessType::TransferRead], left, false),
    ]
}

/// A list of one access.
fn one(access: AccessType) -> (list: Vec<AccessType>)
    ensures
        list@ == seq![access],
{
    let mut list: Vec<AccessType> = Vec::new();
    list.push(access);
    proof {
        assert(list@ =~= seq![access]);
    }
    list
}

} // verus!
