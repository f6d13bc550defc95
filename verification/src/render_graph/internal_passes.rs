//! The passes a graph makes for itself, and those it drops.

use std::collections::HashSet;

use vk_sync_fork::AccessType;
use vstd::prelude::*;

use crate::error::{SrError, SrResult};
use crate::render_graph::access::{opens_write_epoch, ResourceRef};
use crate::render_graph::graph::{AnyRenderPass, RenderGraph};
use crate::render_graph::liveness::{is_live, is_root, live_passes, roots_of};
use crate::render_graph::pass_builder::{
    out_of_bounds, read_ref, write_ref, BufferCopy, CopyEnd, InternalPass, PassCommonData,
    PassCommonDataBuilder, TransferPass, TransferPassBuilder,
};
use crate::render_graph::resource::{
    imported_initial_access, GraphResourceImportInfo, GraphResourceInfo, Handle, RawBuffer,
};

verus! {

broadcast use vstd::std_specs::hash::group_hash_axioms;

// ---------------------------------------------------------------------------
// What imports carry in
// ---------------------------------------------------------------------------

/// How the accesses that a resource carries in are declared: those that open a write
/// epoch as writes, the others as reads.
pub open spec fn carried(id: u32, accesses: Seq<AccessType>, n: nat, as_write: bool) -> Seq<
    ResourceRef,
>
    decreases n,
{
    if n == 0 {
        Seq::empty()
    } else {
        let rest = carried(id, accesses, (n - 1) as nat, as_write);
        if opens_write_epoch(accesses[n - 1]) != as_write {
            rest
        } else if as_write {
            rest.push(write_ref(id, accesses[n - 1]))
        } else {
            rest.push(read_ref(id, accesses[n - 1]))
        }
    }
}

/// The accesses that a resource carries into a frame. What the graph makes itself
/// carries none.
pub open spec fn carried_in(info: GraphResourceInfo) -> Seq<AccessType> {
    match info {
        GraphResourceInfo::Imported(import) => import@.accesses,
        GraphResourceInfo::Created(_) => Seq::empty(),
    }
}

/// What the first `n` resources carry in, as it is declared.
pub open spec fn all_carried(infos: Seq<GraphResourceInfo>, n: nat, as_write: bool) -> Seq<
    ResourceRef,
>
    decreases n,
{
    if n == 0 {
        Seq::empty()
    } else {
        let accesses = carried_in(infos[n - 1]);
        all_carried(infos, (n - 1) as nat, as_write) + carried(
            (n - 1) as u32,
            accesses,
            accesses.len(),
            as_write,
        )
    }
}

/// Whether a resource is an import with contents: samplers have none.
pub open spec fn has_contents(info: GraphResourceInfo) -> bool {
    info matches GraphResourceInfo::Imported(import) && !(import is Sampler)
}

/// Whether some resource is an import with contents.
pub open spec fn imports_contents(infos: Seq<GraphResourceInfo>) -> bool {
    exists|i: int| 0 <= i < infos.len() && has_contents(#[trigger] infos[i])
}

/// Declares every access that one resource carries in.
fn declare_accesses(builder: &mut PassCommonDataBuilder, id: u32, accesses: &Vec<AccessType>)
    ensures
        ({
            let before = old(builder).pass_common_data;
            let after = final(builder).pass_common_data;
            &&& after == (PassCommonData { read: after.read, write: after.write, ..before })
            &&& after.read@ == before.read@ + carried(id, accesses@, accesses@.len(), false)
            &&& after.write@ == before.write@ + carried(id, accesses@, accesses@.len(), true)
        }),
{
    let ghost before = builder.pass_common_data;
    proof {
        assert(before.read@ =~= before.read@ + carried(id, accesses@, 0, false));
        assert(before.write@ =~= before.write@ + carried(id, accesses@, 0, true));
    }
    let mut i: usize = 0;
    while i < accesses.len()
        invariant
            i <= accesses.len(),
            builder.pass_common_data == (PassCommonData {
                read: builder.pass_common_data.read,
                write: builder.pass_common_data.write,
                ..before
            }),
            builder.pass_common_data.read@ == before.read@ + carried(id, accesses@, i as nat, false),
            builder.pass_common_data.write@ == before.write@ + carried(id, accesses@, i as nat, true),
        decreases accesses.len() - i,
    {
        builder.declare_previous_imports(id, accesses[i]);
        i = i + 1;
        proof {
            assert(builder.pass_common_data.read@ =~= before.read@ + carried(
                id,
                accesses@,
                i as nat,
                false,
            ));
            assert(builder.pass_common_data.write@ =~= before.write@ + carried(
                id,
                accesses@,
                i as nat,
                true,
            ));
        }
    }
}

/// Declares every access that the resources carry in.
fn declare_imports(builder: &mut PassCommonDataBuilder, infos: &Vec<GraphResourceInfo>)
    requires
        infos.len() <= u32::MAX,
    ensures
        ({
            let before = old(builder).pass_common_data;
            let after = final(builder).pass_common_data;
            &&& after == (PassCommonData { read: after.read, write: after.write, ..before })
            &&& after.read@ == before.read@ + all_carried(infos@, infos@.len(), false)
            &&& after.write@ == before.write@ + all_carried(infos@, infos@.len(), true)
        }),
{
    let ghost before = builder.pass_common_data;
    proof {
        assert(before.read@ =~= before.read@ + all_carried(infos@, 0, false));
        assert(before.write@ =~= before.write@ + all_carried(infos@, 0, true));
    }
    let mut i: usize = 0;
    while i < infos.len()
        invariant
            i <= infos.len() <= u32::MAX,
            builder.pass_common_data == (PassCommonData {
                read: builder.pass_common_data.read,
                write: builder.pass_common_data.write,
                ..before
            }),
            builder.pass_common_data.read@ == before.read@ + all_carried(infos@, i as nat, false),
            builder.pass_common_data.write@ == before.write@ + all_carried(infos@, i as nat, true),
        decreases infos.len() - i,
    {
        let accesses: Vec<AccessType> = match &infos[i] {
            GraphResourceInfo::Imported(import) => imported_initial_access(import),
            GraphResourceInfo::Created(_) => Vec::new(),
        };
        declare_accesses(builder, i as u32, &accesses);
        i = i + 1;
        proof {
            assert(accesses@ == carried_in(infos@[i - 1]));
            assert(builder.pass_common_data.read@ =~= before.read@ + all_carried(
                infos@,
                i as nat,
                false,
            ));
            assert(builder.pass_common_data.write@ =~= before.write@ + all_carried(
                infos@,
                i as nat,
                true,
            ));
        }
    }
}

/// Is some resource an import with contents?
fn any_import_with_contents(infos: &Vec<GraphResourceInfo>) -> (r: bool)
    ensures
        r == imports_contents(infos@),
{
    let mut i: usize = 0;
    while i < infos.len()
        invariant
            i <= infos.len(),
            forall|k: int| 0 <= k < i ==> !has_contents(#[trigger] infos[k]),
        decreases infos.len() - i,
    {
        match &infos[i] {
            GraphResourceInfo::Imported(GraphResourceImportInfo::Sampler { .. }) => {},
            GraphResourceInfo::Imported(_) => {
                proof {
                    assert(has_contents(infos@[i as int]));
                }
                return true;
            },
            GraphResourceInfo::Created(_) => {},
        }
        i = i + 1;
    }
    false
}

// ---------------------------------------------------------------------------
// The passes
// ---------------------------------------------------------------------------

/// The pass that declares what every import carries in: nothing is recorded for it.
pub open spec fn is_imports_pass(
    pass: AnyRenderPass,
    infos: Seq<GraphResourceInfo>,
    id: u32,
) -> bool {
    let data = pass.data();
    &&& pass is Internal
    &&& data.name@ == "__imports"@
    &&& data.id == id
    &&& data.render is None
    &&& !data.output
    &&& data.read@ == all_carried(infos, infos.len(), false)
    &&& data.write@ == all_carried(infos, infos.len(), true)
}

/// The pass that copies from staging memory.
pub open spec fn is_prologue_pass(
    pass: AnyRenderPass,
    copies: Seq<(u64, Handle<RawBuffer>, BufferCopy)>,
    id: u32,
) -> bool {
    let data = pass.data();
    &&& pass matches AnyRenderPass::Transfer(transfer) && transfer.copies@ == prologue_list(copies)
    &&& data.name@ == "__prologue_copies"@
    &&& data.id == id
    &&& data.render is None
    &&& !data.output
    &&& data.read@.len() == 0
    &&& data.write@ == prologue_writes(copies)
}

/// Copies as a pass carries them.
pub open spec fn prologue_list(copies: Seq<(u64, Handle<RawBuffer>, BufferCopy)>) -> Seq<
    (CopyEnd, CopyEnd, BufferCopy),
> {
    Seq::new(
        copies.len(),
        |i: int| (CopyEnd::Raw(copies[i].0), CopyEnd::Handle(copies[i].1.id), copies[i].2),
    )
}

/// What copies write.
pub open spec fn prologue_writes(copies: Seq<(u64, Handle<RawBuffer>, BufferCopy)>) -> Seq<
    ResourceRef,
> {
    Seq::new(copies.len(), |i: int| write_ref(copies[i].1.id, AccessType::TransferWrite))
}

/// Whether a copy stays inside the buffer it goes to.
pub open spec fn lands(copy: (u64, Handle<RawBuffer>, BufferCopy)) -> bool {
    copy.2.dst_offset + copy.2.size <= copy.1.desc.byte_size
}

/// What is said of a copy that leaves the buffer it goes to.
pub open spec fn misses(copy: (u64, Handle<RawBuffer>, BufferCopy)) -> Seq<char> {
    out_of_bounds(
        "destination"@,
        copy.1.desc.name@,
        copy.1.desc.byte_size,
        copy.2.dst_offset,
        copy.2.size,
    )
}

/// The first copy that leaves the buffer it goes to is at `i`.
pub open spec fn first_miss(copies: Seq<(u64, Handle<RawBuffer>, BufferCopy)>, i: int) -> bool {
    &&& 0 <= i < copies.len()
    &&& !lands(copies[i])
    &&& forall|k: int| 0 <= k < i ==> lands(#[trigger] copies[k])
}

impl RenderGraph {
    /// How many passes the graph makes for itself.
    pub open spec fn internal_count(self) -> int {
        let imports: int = if imports_contents(self.virtual_resources@) {
            1
        } else {
            0
        };
        let prologue: int = if self.prologue_copies@.len() > 0 {
            1
        } else {
            0
        };
        imports + prologue
    }

    /// `passes` are the graph's own passes followed by the declared ones.
    pub open spec fn with_internal(self, passes: Seq<AnyRenderPass>) -> bool {
        let n = self.internal_count();
        &&& passes.len() == n + self.passes@.len()
        &&& passes.skip(n) == self.passes@
        &&& imports_contents(self.virtual_resources@) ==> is_imports_pass(
            passes[0],
            self.virtual_resources@,
            self.next_pass_id,
        )
        &&& self.prologue_copies@.len() > 0 ==> is_prologue_pass(
            passes[n - 1],
            self.prologue_copies@,
            (self.next_pass_id + n - 1) as u32,
        )
    }

    /// Every copy from staging memory stays inside the buffer it goes to.
    pub open spec fn all_copies_land(self) -> bool {
        forall|i: int|
            0 <= i < self.prologue_copies@.len() ==> lands(#[trigger] self.prologue_copies@[i])
    }

    /// The error names the first copy that does not.
    pub open spec fn names_first_miss(self, e: SrError) -> bool {
        exists|i: int| #[trigger]
            first_miss(self.prologue_copies@, i) && e.is_custom(misses(self.prologue_copies@[i]))
    }

    /// The pass that declares what every import carries in.
    fn imports_pass(&mut self) -> (pass: InternalPass)
        requires
            old(self).virtual_resources.len() <= u32::MAX,
            old(self).next_pass_id < u32::MAX,
        ensures
            is_imports_pass(
                AnyRenderPass::Internal(pass),
                old(self).virtual_resources@,
                old(self).next_pass_id,
            ),
            *final(self) == (RenderGraph {
                next_pass_id: (old(self).next_pass_id + 1) as u32,
                ..*old(self)
            }),
    {
        let mut builder = PassCommonDataBuilder::new(self, "__imports");
        declare_imports(&mut builder, &self.virtual_resources);
        proof {
            assert(builder.pass_common_data.read@ =~= all_carried(
                self.virtual_resources@,
                self.virtual_resources@.len(),
                false,
            ));
            assert(builder.pass_common_data.write@ =~= all_carried(
                self.virtual_resources@,
                self.virtual_resources@.len(),
                true,
            ));
        }
        builder.build_internal()
    }

    /// The pass that copies from staging memory. It takes the copies; one that leaves
    /// its buffer is refused.
    fn prologue_pass(&mut self) -> (r: SrResult<TransferPass>)
        requires
            old(self).next_pass_id < u32::MAX,
        ensures
            *final(self) == (RenderGraph {
                next_pass_id: (old(self).next_pass_id + 1) as u32,
                prologue_copies: final(self).prologue_copies,
                ..*old(self)
            }),
            final(self).prologue_copies@.len() == 0,
            match r {
                Ok(pass) => old(self).all_copies_land() && is_prologue_pass(
                    AnyRenderPass::Transfer(pass),
                    old(self).prologue_copies@,
                    old(self).next_pass_id,
                ),
                Err(e) => old(self).names_first_miss(e),
            },
    {
        let mut copies: Vec<(u64, Handle<RawBuffer>, BufferCopy)> = Vec::new();
        std::mem::swap(&mut copies, &mut self.prologue_copies);
        let ghost graph = *old(self);
        let mut builder = TransferPassBuilder::new(self, "__prologue_copies");
        let ghost empty = builder.common.pass_common_data;
        let ghost numbered = *self;
        let mut i: usize = 0;
        while i < copies.len()
            invariant
                i <= copies.len(),
                *self == numbered,
                graph == *old(self),
                numbered == (RenderGraph {
                    next_pass_id: (graph.next_pass_id + 1) as u32,
                    prologue_copies: numbered.prologue_copies,
                    ..graph
                }),
                numbered.prologue_copies@.len() == 0,
                copies@ == graph.prologue_copies@,
                forall|k: int| 0 <= k < i ==> lands(#[trigger] copies@[k]),
                builder.common.pass_common_data.same_but_write(empty),
                builder.common.pass_common_data.write@ == prologue_writes(copies@.take(i as int)),
                builder.copies@ == prologue_list(copies@.take(i as int)),
            decreases copies.len() - i,
        {
            let src: u64 = copies[i].0;
            let region = copies[i].2;
            match builder.copy_from_prechecked_raw(src, &copies[i].1, region) {
                Ok(_) => {},
                Err(e) => {
                    proof {
                        assert(first_miss(graph.prologue_copies@, i as int));
                    }
                    return Err(e);
                },
            }
            i = i + 1;
            proof {
                assert(prologue_writes(copies@.take(i as int)) =~= prologue_writes(
                    copies@.take(i - 1),
                ).push(write_ref(copies@[i - 1].1.id, AccessType::TransferWrite)));
                assert(prologue_list(copies@.take(i as int)) =~= prologue_list(
                    copies@.take(i - 1),
                ).push(
                    (
                        CopyEnd::Raw(copies@[i - 1].0),
                        CopyEnd::Handle(copies@[i - 1].1.id),
                        copies@[i - 1].2,
                    ),
                ));
            }
        }
        proof {
            assert(copies@.take(i as int) =~= copies@);
        }
        Ok(builder.build())
    }

    /// Makes the graph's own passes and puts them before the declared ones. Returns how
    /// many there are.
    ///
    /// The first declares the access that every import carries into the frame, so that
    /// its first consumer is ordered against the frame before; the second copies from
    /// staging memory. They stand in front because hazards only order a pass after
    /// those that were declared before it.
    pub fn build_internal_passes(&mut self) -> (r: SrResult<usize>)
        requires
            old(self).virtual_resources.len() <= u32::MAX,
            old(self).next_pass_id + 2 <= u32::MAX,
        ensures
            *final(self) == (RenderGraph {
                next_pass_id: (old(self).next_pass_id + old(self).internal_count()) as u32,
                passes: final(self).passes,
                prologue_copies: final(self).prologue_copies,
                ..*old(self)
            }),
            final(self).prologue_copies@.len() == 0,
            match r {
                Ok(count) => {
                    &&& count == old(self).internal_count()
                    &&& old(self).all_copies_land()
                    &&& old(self).with_internal(final(self).passes@)
                },
                Err(e) => final(self).passes == old(self).passes && old(self).names_first_miss(e),
            },
    {
        let mut internal: Vec<AnyRenderPass> = Vec::new();
        if any_import_with_contents(&self.virtual_resources) {
            let pass = self.imports_pass();
            internal.push(AnyRenderPass::Internal(pass));
        }
        if self.prologue_copies.len() > 0 {
            match self.prologue_pass() {
                Ok(pass) => {
                    internal.push(AnyRenderPass::Transfer(pass));
                },
                Err(e) => {
                    return Err(e);
                },
            }
        }
        let internal_count: usize = internal.len();
        if internal_count > 0 {
            internal.append(&mut self.passes);
            self.passes = internal;
        }
        proof {
            assert(self.passes@.skip(internal_count as int) =~= old(self).passes@);
        }
        Ok(internal_count)
    }
}

// ---------------------------------------------------------------------------
// Dead passes
// ---------------------------------------------------------------------------

/// Of the first `n` of a list, those that are kept, in their order.
pub open spec fn kept<T>(list: Seq<T>, keep: spec_fn(int) -> bool, n: nat) -> Seq<T>
    decreases n,
{
    if n == 0 {
        Seq::empty()
    } else {
        let rest = kept(list, keep, (n - 1) as nat);
        if keep(n - 1) {
            rest.push(list[n - 1])
        } else {
            rest
        }
    }
}

proof fn lemma_kept_same<T>(
    list: Seq<T>,
    a: spec_fn(int) -> bool,
    b: spec_fn(int) -> bool,
    n: nat,
)
    requires
        forall|p: int| 0 <= p < n ==> #[trigger] a(p) == b(p),
    ensures
        kept(list, a, n) == kept(list, b, n),
    decreases n,
{
    if n > 0 {
        lemma_kept_same(list, a, b, (n - 1) as nat);
    }
}

/// Everything is kept.
pub proof fn lemma_all_kept<T>(list: Seq<T>, keep: spec_fn(int) -> bool, n: nat)
    requires
        n <= list.len(),
        forall|p: int| 0 <= p < n ==> #[trigger] keep(p),
    ensures
        kept(list, keep, n) == list.take(n as int),
    decreases n,
{
    if n > 0 {
        lemma_all_kept(list, keep, (n - 1) as nat);
        assert(list.take(n as int) =~= list.take(n - 1).push(list[n - 1]));
    } else {
        assert(list.take(0) =~= Seq::empty());
    }
}

/// The write lists of passes.
pub open spec fn write_lists(passes: Seq<AnyRenderPass>) -> Seq<Vec<ResourceRef>> {
    Seq::new(passes.len(), |i: int| passes[i].data().write)
}

/// The resources of the first `n` declarations.
pub open spec fn ids_of(refs: Seq<ResourceRef>, n: nat) -> Set<u32>
    decreases n,
{
    if n == 0 {
        Set::empty()
    } else {
        ids_of(refs, (n - 1) as nat).insert(refs[n - 1].id)
    }
}

/// What the passes marked as outputs write, of the first `n` passes.
pub open spec fn written_by_outputs(passes: Seq<AnyRenderPass>, n: nat) -> Set<u32>
    decreases n,
{
    if n == 0 {
        Set::empty()
    } else {
        let rest = written_by_outputs(passes, (n - 1) as nat);
        let data = passes[n - 1].data();
        if data.output {
            rest.union(ids_of(data.write@, data.write@.len()))
        } else {
            rest
        }
    }
}

/// The resources of the first `n` registrations.
pub open spec fn registered_ids(registered: Seq<(usize, usize, u32)>, n: nat) -> Set<u32>
    decreases n,
{
    if n == 0 {
        Set::empty()
    } else {
        registered_ids(registered, (n - 1) as nat).insert(registered[n - 1].2)
    }
}

/// The results of a frame: the resources marked as outputs, and what the passes marked
/// as outputs write.
pub open spec fn results_of(passes: Seq<AnyRenderPass>, marked: Set<u32>) -> Set<u32> {
    marked.union(written_by_outputs(passes, passes.len()))
}

/// The passes that some result of the frame, or some temporal copy, needs. A frame
/// without either keeps all of its passes.
pub open spec fn needed_passes(
    passes: Seq<AnyRenderPass>,
    marked: Set<u32>,
    temporal: Set<u32>,
    raw_producers: Seq<Vec<usize>>,
    internal_count: int,
) -> Seq<AnyRenderPass> {
    let results = results_of(passes, marked);
    if results == Set::<u32>::empty() && temporal == Set::<u32>::empty() {
        passes
    } else {
        let roots = roots_of(write_lists(passes), results, temporal, internal_count);
        kept(passes, |p: int| is_live(raw_producers, roots, p), passes.len())
    }
}

impl RenderGraph {
    /// The temporal copies registered into this build.
    pub open spec fn temporal_ids(self) -> Set<u32> {
        registered_ids(self.registered_temporal@, self.registered_temporal@.len())
    }
}

/// The write lists of passes.
fn copy_write_lists(passes: &Vec<AnyRenderPass>) -> (writes: Vec<Vec<ResourceRef>>)
    ensures
        writes.len() == passes.len(),
        forall|i: int|
            0 <= i < passes.len() ==> (#[trigger] writes[i])@ == passes[i].data().write@,
{
    let mut writes: Vec<Vec<ResourceRef>> = Vec::with_capacity(passes.len());
    let mut i: usize = 0;
    while i < passes.len()
        invariant
            i <= passes.len(),
            writes.len() == i,
            forall|k: int|
                0 <= k < i ==> (#[trigger] writes[k])@ == passes[k].data().write@,
        decreases passes.len() - i,
    {
        writes.push(copy_refs(&passes[i].common().write));
        i = i + 1;
    }
    writes
}

/// A copy of a list of declarations.
pub(crate) fn copy_refs(refs: &Vec<ResourceRef>) -> (copy: Vec<ResourceRef>)
    ensures
        copy@ == refs@,
{
    let mut copy: Vec<ResourceRef> = Vec::with_capacity(refs.len());
    let mut i: usize = 0;
    while i < refs.len()
        invariant
            i <= refs.len(),
            copy@ == refs@.take(i as int),
        decreases refs.len() - i,
    {
        copy.push(refs[i]);
        i = i + 1;
        proof {
            assert(refs@.take(i as int) =~= refs@.take(i - 1).push(refs@[i - 1]));
        }
    }
    proof {
        assert(refs@.take(i as int) =~= refs@);
    }
    copy
}

/// Roots depend on what is written alone.
proof fn lemma_same_roots(
    a: Seq<Vec<ResourceRef>>,
    b: Seq<Vec<ResourceRef>>,
    outputs: Set<u32>,
    temporal: Set<u32>,
    internal_count: int,
)
    requires
        a.len() == b.len(),
        forall|i: int| 0 <= i < a.len() ==> (#[trigger] a[i])@ == b[i]@,
    ensures
        roots_of(a, outputs, temporal, internal_count) == roots_of(
            b,
            outputs,
            temporal,
            internal_count,
        ),
{
    assert forall|p: int|
        is_root(a, outputs, temporal, internal_count, p) == is_root(
            b,
            outputs,
            temporal,
            internal_count,
            p,
        ) by {
        if 0 <= p < a.len() {
            assert(a[p]@ == b[p]@);
        }
    }
    assert(roots_of(a, outputs, temporal, internal_count) =~= roots_of(
        b,
        outputs,
        temporal,
        internal_count,
    ));
}

/// The flagged items of a list, in their order.
fn keep_flagged<T>(list: Vec<T>, keep: &Vec<bool>) -> (out: Vec<T>)
    requires
        keep.len() == list.len(),
    ensures
        out@ == kept(list@, |p: int| keep@[p], list@.len()),
{
    let ghost flags = |p: int| keep@[p];
    let ghost all = list@;
    let mut list = list;
    let mut backwards: Vec<T> = Vec::new();
    let mut i: usize = list.len();
    proof {
        assert(list@ =~= all.take(i as int));
        assert(kept(all, flags, i as nat) + backwards@.reverse() =~= kept(all, flags, all.len()));
    }
    while i > 0
        invariant
            i <= keep.len(),
            keep.len() == all.len(),
            list@ == all.take(i as int),
            flags == (|p: int| keep@[p]),
            kept(all, flags, i as nat) + backwards@.reverse() == kept(all, flags, all.len()),
        decreases i,
    {
        i = i - 1;
        let ghost collected = backwards@;
        match list.pop() {
            Some(item) => {
                if keep[i] {
                    backwards.push(item);
                    proof {
                        assert(backwards@.reverse() =~= seq![item] + collected.reverse());
                    }
                }
            },
            None => {},
        }
        proof {
            assert(list@ =~= all.take(i as int));
            assert(kept(all, flags, i as nat) + backwards@.reverse() =~= kept(
                all,
                flags,
                (i + 1) as nat,
            ) + collected.reverse());
        }
    }
    let mut out: Vec<T> = Vec::new();
    let ghost collected = backwards@;
    proof {
        assert(out@ + backwards@.reverse() =~= collected.reverse());
    }
    while backwards.len() > 0
        invariant
            out@ + backwards@.reverse() == collected.reverse(),
        decreases backwards.len(),
    {
        let ghost left = backwards@;
        match backwards.pop() {
            Some(item) => {
                out.push(item);
                proof {
                    assert(left.reverse() =~= seq![item] + backwards@.reverse());
                    assert(out@ + backwards@.reverse() =~= collected.reverse());
                }
            },
            None => {},
        }
    }
    proof {
        assert(out@ =~= collected.reverse());
        assert(kept(all, flags, 0) + collected.reverse() =~= collected.reverse());
    }
    out
}

/// The first `n` of a list, as a set.
spec fn set_of(list: Seq<u32>, n: nat) -> Set<u32>
    decreases n,
{
    if n == 0 {
        Set::empty()
    } else {
        set_of(list, (n - 1) as nat).insert(list[n - 1])
    }
}

proof fn lemma_set_of_prefix(a: Seq<u32>, b: Seq<u32>, n: nat)
    requires
        n <= a.len(),
        n <= b.len(),
        forall|k: int| 0 <= k < n ==> a[k] == b[k],
    ensures
        set_of(a, n) == set_of(b, n),
    decreases n,
{
    if n > 0 {
        lemma_set_of_prefix(a, b, (n - 1) as nat);
    }
}

/// The `k`th of a list is neither in `start` nor earlier in the list.
spec fn fresh_at(start: Set<u32>, list: Seq<u32>, k: int) -> bool {
    !start.contains(list[k]) && !set_of(list, k as nat).contains(list[k])
}

/// `set` is `start` with the list added, item by item.
spec fn grew_by(start: Set<u32>, list: Seq<u32>, set: Set<u32>) -> bool {
    &&& set == start.union(set_of(list, list.len()))
    &&& forall|k: int| 0 <= k < list.len() ==> #[trigger] fresh_at(start, list, k)
}

proof fn lemma_grows(start: Set<u32>, list: Seq<u32>, set: Set<u32>, id: u32)
    requires
        grew_by(start, list, set),
    ensures
        set.contains(id) ==> grew_by(start, list, set.insert(id)),
        !set.contains(id) ==> grew_by(start, list.push(id), set.insert(id)),
{
    if set.contains(id) {
        assert(set.insert(id) =~= set);
    } else {
        let more = list.push(id);
        lemma_set_of_prefix(list, more, list.len());
        assert(set.insert(id) =~= start.union(set_of(more, more.len())));
        assert forall|k: int| 0 <= k < more.len() implies #[trigger] fresh_at(start, more, k) by {
            lemma_set_of_prefix(list, more, k as nat);
            if k < list.len() {
                assert(fresh_at(start, list, k));
            }
        }
    }
}

proof fn lemma_shrinks(start: Set<u32>, list: Seq<u32>, set: Set<u32>)
    requires
        grew_by(start, list, set),
        list.len() > 0,
    ensures
        grew_by(start, list.drop_last(), set.remove(list.last())),
{
    let fewer = list.drop_last();
    lemma_set_of_prefix(list, fewer, fewer.len());
    assert(fresh_at(start, list, list.len() - 1));
    assert(set.remove(list.last()) =~= start.union(set_of(fewer, fewer.len())));
    assert forall|k: int| 0 <= k < fewer.len() implies #[trigger] fresh_at(start, fewer, k) by {
        lemma_set_of_prefix(list, fewer, k as nat);
        assert(fresh_at(start, list, k));
    }
}

/// Adds the resources of some declarations, and lists those that were not there.
fn add_ids(
    outputs: &mut HashSet<u32>,
    added: &mut Vec<u32>,
    refs: &Vec<ResourceRef>,
    Ghost(start): Ghost<Set<u32>>,
)
    requires
        grew_by(start, old(added)@, old(outputs)@),
    ensures
        grew_by(start, final(added)@, final(outputs)@),
        final(outputs)@ == old(outputs)@.union(ids_of(refs@, refs@.len())),
{
    let mut w: usize = 0;
    proof {
        assert(outputs@ =~= old(outputs)@.union(ids_of(refs@, 0)));
    }
    while w < refs.len()
        invariant
            w <= refs.len(),
            grew_by(start, added@, outputs@),
            outputs@ == old(outputs)@.union(ids_of(refs@, w as nat)),
        decreases refs.len() - w,
    {
        let id: u32 = refs[w].id;
        proof {
            lemma_grows(start, added@, outputs@, id);
        }
        let fresh: bool = outputs.insert(id);
        if fresh {
            added.push(id);
        }
        w = w + 1;
        proof {
            assert(outputs@ =~= old(outputs)@.union(ids_of(refs@, w as nat)));
        }
    }
}

/// Adds every resource that a pass marked as an output writes, and lists those that
/// were not there.
fn add_written(outputs: &mut HashSet<u32>, passes: &Vec<AnyRenderPass>) -> (added: Vec<u32>)
    ensures
        final(outputs)@ == old(outputs)@.union(written_by_outputs(passes@, passes@.len())),
        grew_by(old(outputs)@, added@, final(outputs)@),
{
    let ghost start = outputs@;
    let mut added: Vec<u32> = Vec::new();
    let mut p: usize = 0;
    proof {
        assert(outputs@ =~= start.union(written_by_outputs(passes@, 0)));
        assert(outputs@ =~= start.union(set_of(added@, 0)));
    }
    while p < passes.len()
        invariant
            p <= passes.len(),
            start == old(outputs)@,
            outputs@ == start.union(written_by_outputs(passes@, p as nat)),
            grew_by(start, added@, outputs@),
        decreases passes.len() - p,
    {
        let common = passes[p].common();
        if common.output {
            add_ids(outputs, &mut added, &common.write, Ghost(start));
        }
        p = p + 1;
        proof {
            assert(outputs@ =~= start.union(written_by_outputs(passes@, p as nat)));
        }
    }
    added
}

impl RenderGraph {
    /// The ids of the temporal copies registered into this build.
    fn temporal_set(&self) -> (ids: HashSet<u32>)
        ensures
            ids@ == self.temporal_ids(),
    {
        let mut ids: HashSet<u32> = HashSet::new();
        let mut i: usize = 0;
        while i < self.registered_temporal.len()
            invariant
                i <= self.registered_temporal.len(),
                ids@ == registered_ids(self.registered_temporal@, i as nat),
            decreases self.registered_temporal.len() - i,
        {
            ids.insert(self.registered_temporal[i].2);
            i = i + 1;
        }
        ids
    }

    /// Drops every pass that no declared result needs. What is left stays in its order.
    pub fn cull_dead_passes(&mut self, raw_producers: &Vec<Vec<usize>>, internal_count: usize)
        requires
            old(self).passes.len() <= raw_producers.len(),
            forall|q: int, k: int|
                0 <= q < old(self).passes.len() && 0 <= k < raw_producers[q]@.len() ==> (
                #[trigger] raw_producers[q]@[k]) < old(self).passes.len(),
        ensures
            *final(self) == (RenderGraph {
                passes: final(self).passes,
                output_resources: final(self).output_resources,
                ..*old(self)
            }),
            final(self).output_resources@ == old(self).output_resources@,
            final(self).passes@ == needed_passes(
                old(self).passes@,
                old(self).output_resources@,
                old(self).temporal_ids(),
                raw_producers@,
                internal_count as int,
            ),
    {
        let mut outputs: HashSet<u32> = HashSet::new();
        std::mem::swap(&mut outputs, &mut self.output_resources);
        let ghost declared = outputs@;
        let mut added = add_written(&mut outputs, &self.passes);
        let temporal = self.temporal_set();
        let ghost graph = *old(self);
        proof {
            assert(outputs@ =~= results_of(graph.passes@, declared));
            assert(temporal@ == graph.temporal_ids());
        }
        if !(outputs.is_empty() && temporal.is_empty()) {
            let writes = copy_write_lists(&self.passes);
            let live = live_passes(&writes, raw_producers, &outputs, &temporal, internal_count);
            let ghost roots = roots_of(
                write_lists(self.passes@),
                outputs@,
                temporal@,
                internal_count as int,
            );
            proof {
                lemma_same_roots(
                    writes@,
                    write_lists(self.passes@),
                    outputs@,
                    temporal@,
                    internal_count as int,
                );
                lemma_kept_same(
                    self.passes@,
                    |p: int| live@[p],
                    |p: int| is_live(raw_producers@, roots, p),
                    self.passes@.len(),
                );
            }
            let mut passes: Vec<AnyRenderPass> = Vec::new();
            std::mem::swap(&mut passes, &mut self.passes);
            self.passes = keep_flagged(passes, &live);
        } else {
            proof {
                assert(outputs@ =~= Set::<u32>::empty());
                assert(temporal@ =~= Set::<u32>::empty());
            }
        }
        while added.len() > 0
            invariant
                grew_by(declared, added@, outputs@),
            decreases added.len(),
        {
            proof {
                lemma_shrinks(declared, added@, outputs@);
            }
            match added.pop() {
                Some(id) => {
                    outputs.remove(&id);
                },
                None => {},
            }
        }
        proof {
            assert(outputs@ =~= declared);
        }
        self.output_resources = outputs;
    }
}

} // verus!
