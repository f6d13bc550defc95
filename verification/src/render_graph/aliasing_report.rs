//! A report on what a frame is bound to: how its memory is shared, what it imports, and
//! which barriers were issued.

use vk_sync_fork::AccessType;
use vstd::prelude::*;

use crate::render_graph::access::{accesses_text, push_accesses};
use crate::render_graph::alias::Placement;
use crate::render_graph::barriers::ResourceBarrier;
use crate::render_graph::sorting::{
    index_view, is_permutation, key_view, lemma_stable_order, sort_indices, stable_order,
};
use crate::render_graph::transient_resources::{
    epoch_layout, layout_of_side, SlotAllocation, TransientResources,
};
use crate::text::{
    decimal, decimal_text, hexadecimal, left_aligned, push_decimal, push_hexadecimal,
    push_left_aligned, push_right_aligned, right_aligned,
};

verus! {

broadcast use vstd::std_specs::hash::group_hash_axioms;

/// A label, a number, and the end of the line.
pub open spec fn count_line(label: Seq<char>, n: nat) -> Seq<char> {
    label + decimal(n) + "\n"@
}

/// Appends a label, a number, and the end of the line.
fn push_count_line(out: &mut String, label: &str, n: u64)
    ensures
        final(out)@ == old(out)@ + count_line(label@, n as nat),
{
    let mut line = label.to_owned();
    push_decimal(&mut line, n);
    line.append("\n");
    out.append(line.as_str());
}

/// The sizes of the first `n` chunks together.
pub open spec fn allocated(chunks: Seq<SlotAllocation>, n: nat) -> nat
    decreases n,
{
    if n == 0 {
        0
    } else {
        allocated(chunks, (n - 1) as nat) + chunks[n - 1].size as nat
    }
}

/// The sizes of the resources below `n` that have a place, together.
pub open spec fn requested(placements: Map<u32, Placement>, n: nat) -> nat
    decreases n,
{
    if n == 0 {
        0
    } else {
        let rest = requested(placements, (n - 1) as nat);
        if placements.contains_key((n - 1) as u32) {
            rest + placements[(n - 1) as u32].size as nat
        } else {
            rest
        }
    }
}

/// How many barriers the first `n` points hold.
pub open spec fn barrier_count(points: Seq<(usize, Vec<ResourceBarrier>)>, n: nat) -> nat
    decreases n,
{
    if n == 0 {
        0
    } else {
        barrier_count(points, (n - 1) as nat) + points[n - 1].1@.len()
    }
}

impl TransientResources {
    /// How many imports are bound.
    pub open spec fn imported_count(self) -> nat {
        self.external_images@.len() + self.external_buffers@.len() + self.external_samplers@.len()
            + self.external_raytracing_ac@.len()
    }

    /// How many resources are bound.
    pub open spec fn tracked_count(self) -> nat {
        self.transient_images@.len() + self.transient_buffers@.len() + self.transient_samplers@.len()
            + self.imported_count()
    }

    /// The sums in a report fit into 64 bits.
    pub open spec fn reportable(self) -> bool {
        &&& self.wf()
        &&& self.tracked_count() <= u64::MAX
        &&& allocated(self.slot_allocations@, self.slot_allocations@.len()) <= u64::MAX
        &&& requested(self.placements@, self.resource_count as nat) <= u64::MAX
        &&& barrier_count(self.recorded_barriers@, self.recorded_barriers@.len()) <= u64::MAX
    }

    // -----------------------------------------------------------------------
    // Totals
    // -----------------------------------------------------------------------

    /// The head of a report. `percent` is how much was allocated of what was requested.
    pub open spec fn totals_text(self, percent: Seq<char>) -> Seq<char> {
        "\n=== TransientResources aliasing report ===\n"@ + count_line(
            "resources tracked           : "@,
            self.tracked_count(),
        ) + count_line("  transient images          : "@, self.transient_images@.len()) + count_line(
            "  transient buffers         : "@,
            self.transient_buffers@.len(),
        ) + count_line("  transient samplers        : "@, self.transient_samplers@.len())
            + count_line("  imported                  : "@, self.imported_count()) + count_line(
            "aliasable resources (img+buf): "@,
            self.placements@.len(),
        ) + count_line("bucket allocations          : "@, self.slot_allocations@.len())
            + "allocated / requested bytes : "@ + decimal(
            allocated(self.slot_allocations@, self.slot_allocations@.len()),
        ) + " / "@ + decimal(requested(self.placements@, self.resource_count as nat)) + " ("@
            + percent + "%)\n\n"@
    }

    /// How much was allocated.
    pub fn allocated_bytes(&self) -> (sum: u64)
        requires
            allocated(self.slot_allocations@, self.slot_allocations@.len()) <= u64::MAX,
        ensures
            sum == allocated(self.slot_allocations@, self.slot_allocations@.len()),
    {
        let chunks = &self.slot_allocations;
        let mut sum: u64 = 0;
        let mut i: usize = 0;
        while i < chunks.len()
            invariant
                i <= chunks.len(),
                allocated(chunks@, chunks@.len()) <= u64::MAX,
                sum == allocated(chunks@, i as nat),
            decreases chunks.len() - i,
        {
            proof {
                lemma_allocated_grows(chunks@, (i + 1) as nat, chunks@.len());
            }
            sum = sum + chunks[i].size;
            i = i + 1;
        }
        sum
    }

    /// How much was asked for.
    pub fn requested_bytes(&self) -> (sum: u64)
        requires
            self.resource_count <= u32::MAX,
            requested(self.placements@, self.resource_count as nat) <= u64::MAX,
        ensures
            sum == requested(self.placements@, self.resource_count as nat),
    {
        let mut sum: u64 = 0;
        let mut i: usize = 0;
        while i < self.resource_count
            invariant
                i <= self.resource_count <= u32::MAX,
                requested(self.placements@, self.resource_count as nat) <= u64::MAX,
                sum == requested(self.placements@, i as nat),
            decreases self.resource_count - i,
        {
            proof {
                lemma_requested_grows(
                    self.placements@,
                    (i + 1) as nat,
                    self.resource_count as nat,
                );
            }
            match self.placements.get(&(i as u32)) {
                Some(p) => {
                    sum = sum + p.size;
                },
                None => {},
            }
            i = i + 1;
        }
        sum
    }

    fn totals(&self, percent: &str) -> (text: String)
        requires
            self.reportable(),
        ensures
            text@ == self.totals_text(percent@),
    {
        let images: u64 = self.transient_images.len() as u64;
        let buffers: u64 = self.transient_buffers.len() as u64;
        let samplers: u64 = self.transient_samplers.len() as u64;
        let imported: u64 = self.external_images.len() as u64 + self.external_buffers.len() as u64
            + self.external_samplers.len() as u64 + self.external_raytracing_ac.len() as u64;
        let mut text = String::from_str("\n=== TransientResources aliasing report ===\n");
        push_count_line(
            &mut text,
            "resources tracked           : ",
            images + buffers + samplers + imported,
        );
        push_count_line(&mut text, "  transient images          : ", images);
        push_count_line(&mut text, "  transient buffers         : ", buffers);
        push_count_line(&mut text, "  transient samplers        : ", samplers);
        push_count_line(&mut text, "  imported                  : ", imported);
        push_count_line(
            &mut text,
            "aliasable resources (img+buf): ",
            self.placements.len() as u64,
        );
        push_count_line(
            &mut text,
            "bucket allocations          : ",
            self.slot_allocations.len() as u64,
        );
        text.append("allocated / requested bytes : ");
        push_decimal(&mut text, self.allocated_bytes());
        text.append(" / ");
        push_decimal(&mut text, self.requested_bytes());
        text.append(" (");
        text.append(percent);
        text.append("%)\n\n");
        text
    }

    // -----------------------------------------------------------------------
    // Chunks
    // -----------------------------------------------------------------------

    /// The first `n` lines of the table of chunks.
    pub open spec fn chunk_lines(self, n: nat) -> Seq<char>
        decreases n,
    {
        if n == 0 {
            Seq::empty()
        } else {
            self.chunk_lines((n - 1) as nat) + chunk_line(
                (n - 1) as nat,
                self.slot_allocations@[n - 1],
            )
        }
    }

    fn chunks(&self) -> (text: String)
        ensures
            text@ == self.chunk_lines(self.slot_allocations@.len()),
    {
        let mut text = String::new();
        let mut i: usize = 0;
        proof {
            assert(text@ =~= self.chunk_lines(0));
        }
        while i < self.slot_allocations.len()
            invariant
                i <= self.slot_allocations.len(),
                text@ == self.chunk_lines(i as nat),
            decreases self.slot_allocations.len() - i,
        {
            let chunk = self.slot_allocations[i];
            let mut line = String::from_str("  bucket ");
            push_decimal(&mut line, i as u64);
            line.append(": size=");
            push_right_aligned(&mut line, decimal_text(chunk.size).as_str(), 8);
            line.append(" offset=");
            push_right_aligned(&mut line, decimal_text(chunk.offset).as_str(), 8);
            line.append(" memory=0x");
            push_hexadecimal(&mut line, chunk.memory);
            line.append("\n");
            text.append(line.as_str());
            i = i + 1;
        }
        text
    }

    // -----------------------------------------------------------------------
    // Aliasing groups
    // -----------------------------------------------------------------------

    /// What a resource is called in its group.
    pub open spec fn kind_text(self, id: u32) -> Seq<char> {
        if self.transient_images@.contains_key(id) {
            let extent = self.transient_images@[id].extent;
            "Image "@ + decimal(extent.0 as nat) + "x"@ + decimal(extent.1 as nat) + "x"@ + decimal(
                extent.2 as nat,
            )
        } else if self.transient_buffers@.contains_key(id) {
            "Buffer "@ + decimal(self.transient_buffers@[id].byte_size as nat) + " bytes"@
        } else {
            "???"@
        }
    }

    fn kind(&self, id: u32) -> (text: String)
        ensures
            text@ == self.kind_text(id),
    {
        match self.transient_images.get(&id) {
            Some(image) => {
                let mut text = String::from_str("Image ");
                push_decimal(&mut text, image.extent.0 as u64);
                text.append("x");
                push_decimal(&mut text, image.extent.1 as u64);
                text.append("x");
                push_decimal(&mut text, image.extent.2 as u64);
                text
            },
            None => match self.transient_buffers.get(&id) {
                Some(buffer) => {
                    let mut text = String::from_str("Buffer ");
                    push_decimal(&mut text, buffer.byte_size);
                    text.append(" bytes");
                    text
                },
                None => String::from_str("???"),
            },
        }
    }

    /// The resources below `n` in a bucket, by ascending id.
    pub open spec fn ids_in_bucket(self, bucket: u32, n: nat) -> Seq<u32>
        decreases n,
    {
        if n == 0 {
            Seq::empty()
        } else {
            let rest = self.ids_in_bucket(bucket, (n - 1) as nat);
            let id = (n - 1) as u32;
            if self.placements@.contains_key(id) && self.placements@[id].bucket == bucket {
                rest.push(id)
            } else {
                rest
            }
        }
    }

    /// By offset, then by id.
    pub open spec fn offset_keys(self, ids: Seq<u32>) -> Seq<(int, int)> {
        Seq::new(ids.len(), |i: int| (self.placements@[ids[i]].offset as int, ids[i] as int))
    }

    /// The resources of a bucket, by their place in it.
    pub open spec fn members(self, bucket: u32) -> Seq<u32> {
        let ids = self.ids_in_bucket(bucket, self.resource_count as nat);
        let order = stable_order(self.offset_keys(ids));
        Seq::new(ids.len(), |i: int| ids[order[i]])
    }

    /// The line of one resource in its group.
    pub open spec fn member_line(self, id: u32) -> Seq<char> {
        let p = self.placements@[id];
        "    res "@ + right_aligned(decimal(id as nat), 3) + " "@ + left_aligned(
            self.kind_text(id),
            28,
        ) + " @ "@ + right_aligned(decimal(p.offset as nat), 9) + ".."@ + left_aligned(
            decimal((p.offset + p.size) as nat),
            9,
        ) + "\n"@
    }

    /// The lines of the first `n` resources of a group.
    pub open spec fn member_lines(self, ids: Seq<u32>, n: nat) -> Seq<char>
        decreases n,
    {
        if n == 0 {
            Seq::empty()
        } else {
            self.member_lines(ids, (n - 1) as nat) + self.member_line(ids[n - 1])
        }
    }

    /// One group.
    pub open spec fn group_text(self, bucket: nat) -> Seq<char> {
        let ids = self.members(bucket as u32);
        "  bucket "@ + decimal(bucket) + " ("@ + decimal(
            self.slot_allocations@[bucket as int].size as nat,
        ) + " bytes)"@ + (if ids.len() > 1 {
            " (ALIASED)"@
        } else {
            ""@
        }) + "\n"@ + self.member_lines(ids, ids.len())
    }

    /// The groups of the first `n` buckets. A bucket that holds nothing has none.
    pub open spec fn group_texts(self, n: nat) -> Seq<char>
        decreases n,
    {
        if n == 0 {
            Seq::empty()
        } else {
            let rest = self.group_texts((n - 1) as nat);
            if self.members((n - 1) as u32).len() > 0 {
                rest + self.group_text((n - 1) as nat)
            } else {
                rest
            }
        }
    }

    fn bucket_members(&self, bucket: u32) -> (ids: Vec<u32>)
        requires
            self.wf(),
        ensures
            ids@ == self.members(bucket),
            forall|i: int| 0 <= i < ids.len() ==> self.placements@.contains_key(#[trigger] ids[i]),
    {
        let mut ids: Vec<u32> = Vec::new();
        let mut keys: Vec<(u64, u64)> = Vec::new();
        let mut i: usize = 0;
        proof {
            assert(key_view(keys@) =~= self.offset_keys(ids@));
        }
        while i < self.resource_count
            invariant
                self.wf(),
                i <= self.resource_count,
                ids@ == self.ids_in_bucket(bucket, i as nat),
                key_view(keys@) == self.offset_keys(ids@),
                forall|k: int|
                    0 <= k < ids.len() ==> self.placements@.contains_key(#[trigger] ids[k]),
            decreases self.resource_count - i,
        {
            let id: u32 = i as u32;
            match self.placements.get(&id) {
                Some(p) => {
                    if p.bucket == bucket {
                        let ghost some_ids = ids@;
                        let ghost some_keys = keys@;
                        ids.push(id);
                        keys.push((p.offset, id as u64));
                        proof {
                            let key = (p.offset as int, id as int);
                            assert(key_view(keys@) =~= key_view(some_keys).push(key));
                            assert(self.offset_keys(ids@) =~= self.offset_keys(some_ids).push(key));
                        }
                    }
                },
                None => {},
            }
            i = i + 1;
        }
        let order = sort_indices(&keys);
        let ghost spots = stable_order(self.offset_keys(ids@));
        proof {
            lemma_stable_order(self.offset_keys(ids@));
            assert(index_view(order@) == spots);
        }
        let mut sorted: Vec<u32> = Vec::new();
        let mut k: usize = 0;
        while k < order.len()
            invariant
                k <= order.len(),
                order.len() == ids.len(),
                index_view(order@) == spots,
                is_permutation(spots, ids.len() as int),
                sorted.len() == k,
                forall|j: int|
                    0 <= j < ids.len() ==> self.placements@.contains_key(#[trigger] ids[j]),
                forall|j: int| 0 <= j < k ==> #[trigger] sorted[j] == ids[spots[j]],
            decreases order.len() - k,
        {
            proof {
                assert(index_view(order@)[k as int] == spots[k as int]);
                assert(0 <= spots[k as int] < ids.len());
            }
            sorted.push(ids[order[k]]);
            k = k + 1;
        }
        proof {
            assert(sorted@ =~= self.members(bucket));
            assert forall|j: int| 0 <= j < sorted.len() implies self.placements@.contains_key(
                #[trigger] sorted[j],
            ) by {
                assert(0 <= spots[j] < ids.len());
                assert(self.placements@.contains_key(ids[spots[j]]));
            }
        }
        sorted
    }

    fn group(&self, bucket: usize) -> (text: Option<String>)
        requires
            self.wf(),
            bucket < self.slot_allocations.len(),
            bucket <= u32::MAX,
        ensures
            match text {
                Some(found) => self.members(bucket as u32).len() > 0 && found@ == self.group_text(
                    bucket as nat,
                ),
                None => self.members(bucket as u32).len() == 0,
            },
    {
        let ids = self.bucket_members(bucket as u32);
        if ids.len() == 0 {
            return None;
        }
        let mut lines = String::new();
        let mut i: usize = 0;
        proof {
            assert(lines@ =~= self.member_lines(ids@, 0));
        }
        while i < ids.len()
            invariant
                self.wf(),
                i <= ids.len(),
                forall|k: int|
                    0 <= k < ids.len() ==> self.placements@.contains_key(#[trigger] ids[k]),
                lines@ == self.member_lines(ids@, i as nat),
            decreases ids.len() - i,
        {
            let id: u32 = ids[i];
            match self.placements.get(&id) {
                Some(p) => {
                    let mut line = String::from_str("    res ");
                    push_right_aligned(&mut line, decimal_text(id as u64).as_str(), 3);
                    line.append(" ");
                    push_left_aligned(&mut line, self.kind(id).as_str(), 28);
                    line.append(" @ ");
                    push_right_aligned(&mut line, decimal_text(p.offset).as_str(), 9);
                    line.append("..");
                    push_left_aligned(&mut line, decimal_text(p.offset + p.size).as_str(), 9);
                    line.append("\n");
                    lines.append(line.as_str());
                },
                None => {},
            }
            i = i + 1;
        }
        let mut text = String::from_str("  bucket ");
        push_decimal(&mut text, bucket as u64);
        text.append(" (");
        push_decimal(&mut text, self.slot_allocations[bucket].size);
        text.append(" bytes)");
        text.append(
            if ids.len() > 1 {
                " (ALIASED)"
            } else {
                ""
            },
        );
        text.append("\n");
        text.append(lines.as_str());
        Some(text)
    }

    fn groups(&self) -> (text: String)
        requires
            self.wf(),
            self.slot_allocations.len() <= u32::MAX,
        ensures
            text@ == self.group_texts(self.slot_allocations@.len()),
    {
        let mut text = String::new();
        let mut i: usize = 0;
        proof {
            assert(text@ =~= self.group_texts(0));
        }
        while i < self.slot_allocations.len()
            invariant
                self.wf(),
                self.slot_allocations.len() <= u32::MAX,
                i <= self.slot_allocations.len(),
                text@ == self.group_texts(i as nat),
            decreases self.slot_allocations.len() - i,
        {
            match self.group(i) {
                Some(found) => {
                    text.append(found.as_str());
                },
                None => {},
            }
            i = i + 1;
        }
        text
    }
}

/// One line of the table of chunks.
pub open spec fn chunk_line(i: nat, chunk: SlotAllocation) -> Seq<char> {
    "  bucket "@ + decimal(i) + ": size="@ + right_aligned(decimal(chunk.size as nat), 8)
        + " offset="@ + right_aligned(decimal(chunk.offset as nat), 8) + " memory=0x"@
        + hexadecimal(chunk.memory as nat) + "\n"@
}

proof fn lemma_allocated_grows(chunks: Seq<SlotAllocation>, n: nat, m: nat)
    requires
        n <= m,
    ensures
        allocated(chunks, n) <= allocated(chunks, m),
    decreases m,
{
    if n < m {
        lemma_allocated_grows(chunks, n, (m - 1) as nat);
    }
}

proof fn lemma_requested_grows(placements: Map<u32, Placement>, n: nat, m: nat)
    requires
        n <= m,
    ensures
        requested(placements, n) <= requested(placements, m),
    decreases m,
{
    if n < m {
        lemma_requested_grows(placements, n, (m - 1) as nat);
    }
}

impl TransientResources {
    // -----------------------------------------------------------------------
    // What is not aliased
    // -----------------------------------------------------------------------

    /// The samplers of the graph's own below `n`, by ascending id.
    pub open spec fn sampler_ids(self, n: nat) -> Seq<u32>
        decreases n,
    {
        if n == 0 {
            Seq::empty()
        } else {
            let rest = self.sampler_ids((n - 1) as nat);
            if self.transient_samplers@.contains_key((n - 1) as u32) {
                rest.push((n - 1) as u32)
            } else {
                rest
            }
        }
    }

    /// The list of samplers, where there are any.
    pub open spec fn samplers_text(self) -> Seq<char> {
        if self.transient_samplers@.len() > 0 {
            let ids = self.sampler_ids(self.resource_count as nat);
            "\nTransient samplers (not aliased): ["@ + joined_ids(ids, ids.len()) + "]\n"@
        } else {
            ""@
        }
    }

    fn samplers(&self) -> (text: String)
        requires
            self.wf(),
        ensures
            text@ == self.samplers_text(),
    {
        if self.transient_samplers.len() == 0 {
            return String::from_str("");
        }
        let mut ids: Vec<u32> = Vec::new();
        let mut i: usize = 0;
        while i < self.resource_count
            invariant
                self.wf(),
                i <= self.resource_count,
                ids@ == self.sampler_ids(i as nat),
            decreases self.resource_count - i,
        {
            if self.transient_samplers.contains_key(&(i as u32)) {
                ids.push(i as u32);
            }
            i = i + 1;
        }
        let mut text = String::from_str("\nTransient samplers (not aliased): [");
        let list = id_list(&ids);
        text.append(list.as_str());
        text.append("]\n");
        text
    }

    /// The lines of what resource `id` imports.
    pub open spec fn import_lines_of(self, id: u32) -> Seq<char> {
        import_line(self.external_raytracing_ac@.contains_key(id), id, " AccelStruct\n"@)
            + import_line(self.external_buffers@.contains_key(id), id, " Buffer\n"@) + import_line(
            self.external_images@.contains_key(id),
            id,
            " Image\n"@,
        ) + import_line(self.external_samplers@.contains_key(id), id, " Sampler\n"@)
    }

    /// The lines of what the resources below `n` import.
    pub open spec fn import_lines(self, n: nat) -> Seq<char>
        decreases n,
    {
        if n == 0 {
            Seq::empty()
        } else {
            self.import_lines((n - 1) as nat) + self.import_lines_of((n - 1) as u32)
        }
    }

    /// The list of imports, where there are any.
    pub open spec fn imports_text(self) -> Seq<char> {
        if self.imported_count() > 0 {
            "\nImported resources:\n"@ + self.import_lines(self.resource_count as nat)
        } else {
            ""@
        }
    }

    fn imports(&self) -> (text: String)
        requires
            self.wf(),
        ensures
            text@ == self.imports_text(),
    {
        if self.external_images.len() == 0 && self.external_buffers.len() == 0
            && self.external_samplers.len() == 0 && self.external_raytracing_ac.len() == 0 {
            return String::from_str("");
        }
        let mut lines = String::new();
        let mut i: usize = 0;
        proof {
            assert(lines@ =~= self.import_lines(0));
        }
        while i < self.resource_count
            invariant
                self.wf(),
                i <= self.resource_count,
                lines@ == self.import_lines(i as nat),
            decreases self.resource_count - i,
        {
            let id: u32 = i as u32;
            let mut some = one_import(self.external_raytracing_ac.contains_key(&id), id, " AccelStruct\n");
            some.append(one_import(self.external_buffers.contains_key(&id), id, " Buffer\n").as_str());
            some.append(one_import(self.external_images.contains_key(&id), id, " Image\n").as_str());
            some.append(
                one_import(self.external_samplers.contains_key(&id), id, " Sampler\n").as_str(),
            );
            lines.append(some.as_str());
            i = i + 1;
        }
        let mut text = String::from_str("\nImported resources:\n");
        text.append(lines.as_str());
        text
    }

    // -----------------------------------------------------------------------
    // Barriers
    // -----------------------------------------------------------------------

    /// What a barrier is on.
    pub open spec fn barrier_kind_text(self, id: u32) -> Seq<char> {
        if self.transient_images@.contains_key(id) || self.external_images@.contains_key(id) {
            "Image"@
        } else if self.transient_buffers@.contains_key(id) || self.external_buffers@.contains_key(id) {
            "Buffer"@
        } else if self.transient_samplers@.contains_key(id) || self.external_samplers@.contains_key(
            id,
        ) {
            "Sampler"@
        } else if self.external_raytracing_ac@.contains_key(id) {
            "AccelStruct"@
        } else {
            "Global"@
        }
    }

    fn barrier_kind(&self, id: u32) -> (kind: &'static str)
        ensures
            kind@ == self.barrier_kind_text(id),
    {
        if self.transient_images.contains_key(&id) || self.external_images.contains_key(&id) {
            "Image"
        } else if self.transient_buffers.contains_key(&id) || self.external_buffers.contains_key(&id) {
            "Buffer"
        } else if self.transient_samplers.contains_key(&id) || self.external_samplers.contains_key(
            &id,
        ) {
            "Sampler"
        } else if self.external_raytracing_ac.contains_key(&id) {
            "AccelStruct"
        } else {
            "Global"
        }
    }

    /// Whether a barrier on an image is part of the global one: it keeps the layout and
    /// the contents.
    pub open spec fn folds(self, b: ResourceBarrier) -> bool {
        &&& self.transient_images@.contains_key(b.resource_id)
            || self.external_images@.contains_key(b.resource_id)
        &&& layout_of_side(b.prev@) == layout_of_side(b.next@)
        &&& !b.discard
    }

    /// The line of one barrier.
    pub open spec fn barrier_line(self, b: ResourceBarrier) -> Seq<char> {
        "    res "@ + right_aligned(decimal(b.resource_id as nat), 3) + " ("@ + left_aligned(
            self.barrier_kind_text(b.resource_id),
            11,
        ) + ") "@ + accesses_text(b.prev@) + " -> "@ + accesses_text(b.next@) + (if b.discard {
            "  [discard]"@
        } else {
            ""@
        }) + (if self.folds(b) {
            "  [folded into global]"@
        } else {
            ""@
        }) + "\n"@
    }

    /// The lines of the first `n` barriers at one point.
    pub open spec fn barrier_lines(self, barriers: Seq<ResourceBarrier>, n: nat) -> Seq<char>
        decreases n,
    {
        if n == 0 {
            Seq::empty()
        } else {
            self.barrier_lines(barriers, (n - 1) as nat) + self.barrier_line(barriers[n - 1])
        }
    }

    /// The lines of the first `n` points.
    pub open spec fn point_lines(self, n: nat) -> Seq<char>
        decreases n,
    {
        if n == 0 {
            Seq::empty()
        } else {
            let (pass, barriers) = self.recorded_barriers@[n - 1];
            self.point_lines((n - 1) as nat) + ("  before pass "@ + decimal(pass as nat) + ":\n"@
                + self.barrier_lines(barriers@, barriers@.len()))
        }
    }

    /// The list of barriers.
    pub open spec fn barriers_text(self) -> Seq<char> {
        let points = self.recorded_barriers@;
        if points.len() == 0 {
            "\nBarriers recorded: none (graph not compiled or single-pass)\n"@
        } else {
            "\nBarriers recorded ("@ + decimal(barrier_count(points, points.len()))
                + " total across "@ + decimal(points.len()) + " pass(es), in topo order):\n"@
                + self.point_lines(points.len())
        }
    }

    fn one_barrier(&self, b: &ResourceBarrier) -> (line: String)
        ensures
            line@ == self.barrier_line(*b),
    {
        let id: u32 = b.resource_id;
        let is_image: bool = self.transient_images.contains_key(&id)
            || self.external_images.contains_key(&id);
        let folds: bool = is_image && epoch_layout(&b.prev) == epoch_layout(&b.next) && !b.discard;
        let mut line = String::from_str("    res ");
        push_right_aligned(&mut line, decimal_text(id as u64).as_str(), 3);
        line.append(" (");
        push_left_aligned(&mut line, self.barrier_kind(id), 11);
        line.append(") ");
        push_accesses(&mut line, &b.prev);
        line.append(" -> ");
        push_accesses(&mut line, &b.next);
        line.append(
            if b.discard {
                "  [discard]"
            } else {
                ""
            },
        );
        line.append(
            if folds {
                "  [folded into global]"
            } else {
                ""
            },
        );
        line.append("\n");
        line
    }

    fn point(&self, barriers: &Vec<ResourceBarrier>) -> (lines: String)
        ensures
            lines@ == self.barrier_lines(barriers@, barriers@.len()),
    {
        let mut lines = String::new();
        let mut i: usize = 0;
        proof {
            assert(lines@ =~= self.barrier_lines(barriers@, 0));
        }
        while i < barriers.len()
            invariant
                i <= barriers.len(),
                lines@ == self.barrier_lines(barriers@, i as nat),
            decreases barriers.len() - i,
        {
            lines.append(self.one_barrier(&barriers[i]).as_str());
            i = i + 1;
        }
        lines
    }

    fn barriers(&self) -> (text: String)
        requires
            barrier_count(self.recorded_barriers@, self.recorded_barriers@.len()) <= u64::MAX,
        ensures
            text@ == self.barriers_text(),
    {
        let points = &self.recorded_barriers;
        if points.len() == 0 {
            return String::from_str(
                "\nBarriers recorded: none (graph not compiled or single-pass)\n",
            );
        }
        let mut lines = String::new();
        let mut i: usize = 0;
        proof {
            assert(lines@ =~= self.point_lines(0));
        }
        while i < points.len()
            invariant
                *points == self.recorded_barriers,
                i <= points.len(),
                lines@ == self.point_lines(i as nat),
            decreases points.len() - i,
        {
            let mut some = String::from_str("  before pass ");
            push_decimal(&mut some, points[i].0 as u64);
            some.append(":\n");
            some.append(self.point(&points[i].1).as_str());
            lines.append(some.as_str());
            i = i + 1;
        }
        let mut text = String::from_str("\nBarriers recorded (");
        push_decimal(&mut text, count_barriers(points));
        text.append(" total across ");
        push_decimal(&mut text, points.len() as u64);
        text.append(" pass(es), in topo order):\n");
        text.append(lines.as_str());
        text
    }

    // -----------------------------------------------------------------------
    // The report
    // -----------------------------------------------------------------------

    /// The whole report.
    pub open spec fn report_text(self, percent: Seq<char>) -> Seq<char> {
        self.totals_text(percent) + "Per-bucket allocation:\n"@ + self.chunk_lines(
            self.slot_allocations@.len(),
        ) + "\nAliasing groups (bucket -> resources sharing memory):\n"@ + self.group_texts(
            self.slot_allocations@.len(),
        ) + self.samplers_text() + self.imports_text() + self.barriers_text()
            + "==========================================\n"@
    }

    /// A report on what is bound: totals, the chunk behind each bucket, who shares it,
    /// what is not aliased, and the barriers that were issued. `percent` is how much was
    /// allocated of what was requested, as it is to be printed.
    pub fn report(&self, percent: &str) -> (text: String)
        requires
            self.reportable(),
            self.slot_allocations.len() <= u32::MAX,
        ensures
            text@ == self.report_text(percent@),
    {
        let mut text = self.totals(percent);
        text.append("Per-bucket allocation:\n");
        text.append(self.chunks().as_str());
        text.append("\nAliasing groups (bucket -> resources sharing memory):\n");
        text.append(self.groups().as_str());
        text.append(self.samplers().as_str());
        text.append(self.imports().as_str());
        text.append(self.barriers().as_str());
        text.append("==========================================\n");
        text
    }
}

/// How many barriers there are at all points together.
pub fn count_barriers(points: &Vec<(usize, Vec<ResourceBarrier>)>) -> (count: u64)
    requires
        barrier_count(points@, points@.len()) <= u64::MAX,
    ensures
        count == barrier_count(points@, points@.len()),
{
    let mut count: u64 = 0;
    let mut i: usize = 0;
    while i < points.len()
        invariant
            i <= points.len(),
            barrier_count(points@, points@.len()) <= u64::MAX,
            count == barrier_count(points@, i as nat),
        decreases points.len() - i,
    {
        proof {
            lemma_barrier_count_grows(points@, (i + 1) as nat, points@.len());
        }
        count = count + points[i].1.len() as u64;
        i = i + 1;
    }
    count
}

proof fn lemma_barrier_count_grows(points: Seq<(usize, Vec<ResourceBarrier>)>, n: nat, m: nat)
    requires
        n <= m,
    ensures
        barrier_count(points, n) <= barrier_count(points, m),
    decreases m,
{
    if n < m {
        lemma_barrier_count_grows(points, n, (m - 1) as nat);
    }
}

/// The first `n` ids with commas between them.
pub open spec fn joined_ids(ids: Seq<u32>, n: nat) -> Seq<char>
    decreases n,
{
    if n == 0 {
        Seq::empty()
    } else if n == 1 {
        decimal(ids[0] as nat)
    } else {
        joined_ids(ids, (n - 1) as nat) + ", "@ + decimal(ids[n - 1] as nat)
    }
}

fn id_list(ids: &Vec<u32>) -> (text: String)
    ensures
        text@ == joined_ids(ids@, ids@.len()),
{
    let mut text = String::new();
    let mut i: usize = 0;
    proof {
        assert(text@ =~= joined_ids(ids@, 0));
    }
    while i < ids.len()
        invariant
            i <= ids.len(),
            text@ == joined_ids(ids@, i as nat),
        decreases ids.len() - i,
    {
        if i > 0 {
            text.append(", ");
        }
        push_decimal(&mut text, ids[i] as u64);
        i = i + 1;
        proof {
            assert(text@ =~= joined_ids(ids@, i as nat));
        }
    }
    text
}

/// The line of an import, where there is one.
pub open spec fn import_line(present: bool, id: u32, kind: Seq<char>) -> Seq<char> {
    if present {
        "  res "@ + decimal(id as nat) + kind
    } else {
        ""@
    }
}

fn one_import(present: bool, id: u32, kind: &str) -> (line: String)
    ensures
        line@ == import_line(present, id, kind@),
{
    if !present {
        return String::from_str("");
    }
    let mut line = String::from_str("  res ");
    push_decimal(&mut line, id as u64);
    line.append(kind);
    line
}

} // verus!
