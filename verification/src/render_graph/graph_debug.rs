//! A dump of a compiled frame, as a Graphviz graph and as text.
//!
//! Resources read as `res<id>` where the graph owns them, whose memory may be shared and
//! ends with the frame, and as `ext<id>` where they are imported and outlive it. A usage
//! is marked where its pass is the first or the last to touch the resource: for a
//! resource of the graph's own that is the window its memory has to stay live.
//!
//! The table of resources shows the accesses each import carries into the frame. A row
//! marked `<== enters UNDEFINED` carries `Nothing`: it still gets a barrier, but its
//! contents are discarded. That is right for what is written first in every frame, and a
//! mistake for what is meant to carry data from one frame to the next.

use std::collections::HashMap;

use petgraph::graph::DiGraph;
use vk_sync_fork::AccessType;
use vstd::prelude::*;

use crate::render_graph::access::{
    access_name, access_text, accesses_text, push_accesses, same_access, ResourceRef,
};
use crate::render_graph::alias::Placement;
use crate::render_graph::aliasing_report::{barrier_count, count_barriers};
use crate::render_graph::analysis::PassDecl;
use crate::render_graph::barriers::ResourceBarrier;
use crate::render_graph::compile::{declarations, FramePlan};
use crate::render_graph::dep_graph::{
    edge_count, edge_endpoints, edge_weight, edges, node_count, node_weight, node_weights,
};
use crate::render_graph::frame_laws::names;
use crate::render_graph::graph::RenderGraph;
use crate::render_graph::resource::{
    imported_initial_access, GraphResourceDesc, GraphResourceImportInfo, GraphResourceInfo,
};
use crate::text::{
    decimal, decimal_text, left_aligned, push_decimal, push_left_aligned, push_right_aligned,
    right_aligned,
};

verus! {

broadcast use vstd::std_specs::hash::group_hash_axioms;

/// What a row of the table is about.
#[derive(Clone, Copy, Debug, PartialEq, Eq, Structural)]
pub enum DumpKind {
    CreatedImage,
    CreatedBuffer,
    CreatedSampler,
    CreatedAs,
    ImportedImage,
    ImportedBuffer,
    ImportedSampler,
    ImportedAs,
}

/// One row of the table of resources.
#[derive(Debug)]
pub struct ResourceDumpInfo {
    pub id: u32,
    pub kind: DumpKind,
    /// Its name, extent or size.
    pub detail: String,
    /// Where it is bound in shared memory.
    pub placement: Option<Placement>,
    /// For an import, every access the frame before left it in.
    pub import_access: Option<Vec<AccessType>>,
}

/// All that is needed to show a frame.
#[derive(Debug)]
pub struct GraphDump<'a> {
    pub frame: u64,
    pub pass_names: Vec<String>,
    /// What each pass declares.
    pub pass_uses: Vec<PassDecl>,
    /// Which pass waits for which, and the resources whose hazards forced it.
    pub edges: Vec<(usize, usize, Vec<u32>)>,
    pub resources: Vec<ResourceDumpInfo>,
    /// The barriers issued right before each pass, in the order of the passes.
    pub barriers_at: &'a Vec<(usize, Vec<ResourceBarrier>)>,
    pub aliasing_report: String,
}

impl DumpKind {
    /// Whether this is of an import.
    pub open spec fn imported(self) -> bool {
        self == DumpKind::ImportedImage || self == DumpKind::ImportedBuffer || self
            == DumpKind::ImportedSampler || self == DumpKind::ImportedAs
    }

    /// What it is called.
    pub open spec fn text(self) -> Seq<char> {
        match self {
            DumpKind::CreatedImage => "created-image"@,
            DumpKind::CreatedBuffer => "created-buffer"@,
            DumpKind::CreatedSampler => "created-sampler"@,
            DumpKind::CreatedAs => "created-as"@,
            DumpKind::ImportedImage => "imported-image"@,
            DumpKind::ImportedBuffer => "imported-buffer"@,
            DumpKind::ImportedSampler => "imported-sampler"@,
            DumpKind::ImportedAs => "imported-as"@,
        }
    }

    fn is_imported(&self) -> (r: bool)
        ensures
            r == self.imported(),
    {
        matches!(
            self,
            DumpKind::ImportedImage
                | DumpKind::ImportedBuffer
                | DumpKind::ImportedSampler
                | DumpKind::ImportedAs
        )
    }

    /// What it is called.
    pub fn name(&self) -> (name: &'static str)
        ensures
            name@ == self.text(),
    {
        match self {
            DumpKind::CreatedImage => "created-image",
            DumpKind::CreatedBuffer => "created-buffer",
            DumpKind::CreatedSampler => "created-sampler",
            DumpKind::CreatedAs => "created-as",
            DumpKind::ImportedImage => "imported-image",
            DumpKind::ImportedBuffer => "imported-buffer",
            DumpKind::ImportedSampler => "imported-sampler",
            DumpKind::ImportedAs => "imported-as",
        }
    }
}

// ---------------------------------------------------------------------------
// Quoting
// ---------------------------------------------------------------------------

/// The first `n` characters of a text as they stand between double quotes: backslashes
/// and double quotes with a backslash before them.
pub open spec fn escaped(text: Seq<char>, n: nat) -> Seq<char>
    decreases n,
{
    if n == 0 {
        Seq::empty()
    } else {
        let rest = escaped(text, (n - 1) as nat);
        let c = text[n - 1];
        if c == '\\' || c == '"' {
            rest.push('\\').push(c)
        } else {
            rest.push(c)
        }
    }
}

/// A text as it stands between double quotes.
pub fn escape(s: &str) -> (r: String)
    ensures
        r@ == escaped(s@, s@.len()),
{
    let n: usize = s.unicode_len();
    let mut out = String::new();
    let mut i: usize = 0;
    proof {
        assert(out@ =~= escaped(s@, 0));
    }
    while i < n
        invariant
            i <= n,
            n == s@.len(),
            out@ == escaped(s@, i as nat),
        decreases n - i,
    {
        let c: char = s.get_char(i);
        let ghost before = out@;
        if c == '\\' || c == '"' {
            out.append("\\");
        }
        out.append(s.substring_char(i, i + 1));
        i = i + 1;
        proof {
            reveal_strlit("\\");
            assert(s@.subrange(i - 1, i as int) =~= seq![c]);
            assert(out@ =~= escaped(s@, i as nat));
        }
    }
    out
}

// ---------------------------------------------------------------------------
// Labels
// ---------------------------------------------------------------------------

/// The first row about a resource, from the `from`th on.
pub open spec fn row_of(rows: Seq<ResourceDumpInfo>, id: u32, from: int) -> Option<ResourceDumpInfo>
    decreases rows.len() - from,
{
    if from < 0 || from >= rows.len() {
        None
    } else if rows[from].id == id {
        Some(rows[from])
    } else {
        row_of(rows, id, from + 1)
    }
}

/// The first and the last of the first `n` passes that touch a resource.
pub open spec fn span_of(uses: Seq<PassDecl>, id: u32, n: nat) -> Option<(usize, usize)>
    decreases n,
{
    if n == 0 {
        None
    } else {
        let rest = span_of(uses, id, (n - 1) as nat);
        if names(uses[n - 1].0@, id) || names(uses[n - 1].1@, id) {
            match rest {
                Some((first, _)) => Some((first, (n - 1) as usize)),
                None => Some(((n - 1) as usize, (n - 1) as usize)),
            }
        } else {
            rest
        }
    }
}

/// Whether a map holds the spans of the first `n` passes.
pub open spec fn spans_match(spans: Map<u32, (usize, usize)>, uses: Seq<PassDecl>, n: nat) -> bool {
    &&& forall|id: u32| #[trigger] spans.contains_key(id) <==> span_of(uses, id, n) is Some
    &&& forall|id: u32| #[trigger] spans.contains_key(id) ==> span_of(uses, id, n) == Some(spans[id])
}

/// How a usage is marked: where its pass bounds the resource's span.
pub open spec fn span_mark(span: Option<(usize, usize)>, pass: int) -> Seq<char> {
    match span {
        Some((first, last)) => if first == last {
            " <-- only use"@
        } else if first == pass {
            " <-- first use"@
        } else if last == pass {
            " <-- last use"@
        } else {
            ""@
        },
        None => ""@,
    }
}

impl<'a> GraphDump<'a> {
    /// What a resource is called.
    pub open spec fn label_text(self, id: u32) -> Seq<char> {
        match row_of(self.resources@, id, 0) {
            Some(row) => (if row.kind.imported() {
                "ext"@
            } else {
                "res"@
            }) + decimal(id as nat) + " "@ + row.detail@,
            None => "res"@ + decimal(id as nat),
        }
    }

    /// What a resource is called: `ext` where it is imported, `res` otherwise, its id,
    /// and what is known of it.
    pub fn res_label(&self, id: u32) -> (label: String)
        ensures
            label@ == self.label_text(id),
    {
        let mut i: usize = 0;
        while i < self.resources.len()
            invariant
                i <= self.resources.len(),
                row_of(self.resources@, id, 0) == row_of(self.resources@, id, i as int),
            decreases self.resources.len() - i,
        {
            let row = &self.resources[i];
            if row.id == id {
                let mut label = String::from_str(
                    if row.kind.is_imported() {
                        "ext"
                    } else {
                        "res"
                    },
                );
                push_decimal(&mut label, id as u64);
                label.append(" ");
                label.append(row.detail.as_str());
                return label;
            }
            i = i + 1;
        }
        let mut label = String::from_str("res");
        push_decimal(&mut label, id as u64);
        label
    }

    /// The first and the last pass that touch each resource.
    pub fn lifetimes(&self) -> (spans: HashMap<u32, (usize, usize)>)
        ensures
            spans_match(spans@, self.pass_uses@, self.pass_uses@.len()),
    {
        let mut spans: HashMap<u32, (usize, usize)> = HashMap::new();
        let mut p: usize = 0;
        while p < self.pass_uses.len()
            invariant
                p <= self.pass_uses.len(),
                spans_match(spans@, self.pass_uses@, p as nat),
            decreases self.pass_uses.len() - p,
        {
            let ghost before = spans@;
            proof {
                assert(spans_during(before, spans@, p, Seq::empty(), 0));
            }
            note_touches(&mut spans, &self.pass_uses[p].0, p, Ghost(before), Ghost(Seq::empty()));
            note_touches(
                &mut spans,
                &self.pass_uses[p].1,
                p,
                Ghost(before),
                Ghost(self.pass_uses@[p as int].0@),
            );
            proof {
                let reads = self.pass_uses@[p as int].0@;
                let writes = self.pass_uses@[p as int].1@;
                let all = reads + writes;
                assert(spans_during(before, spans@, p, all, all.len() as int));
                assert forall|id: u32| names(all, id) <==> names(reads, id) || names(writes, id) by {
                    lemma_names_add(reads, writes, id);
                }
                assert forall|id: u32| #[trigger]
                    spans@.contains_key(id) <==> span_of(self.pass_uses@, id, (p + 1) as nat)
                        is Some by {
                    assert(names(all, id) <==> names(reads, id) || names(writes, id));
                    assert(before.contains_key(id) <==> span_of(self.pass_uses@, id, p as nat)
                        is Some);
                    assert(all.take(all.len() as int) =~= all);
                    assert(span_during(before, spans@, p, all, id));
                }
                assert forall|id: u32| #[trigger] spans@.contains_key(id) implies span_of(
                    self.pass_uses@,
                    id,
                    (p + 1) as nat,
                ) == Some(spans@[id]) by {
                    assert(names(all, id) <==> names(reads, id) || names(writes, id));
                    assert(before.contains_key(id) <==> span_of(self.pass_uses@, id, p as nat)
                        is Some);
                    assert(all.take(all.len() as int) =~= all);
                    assert(span_during(before, spans@, p, all, id));
                }
            }
            p = p + 1;
        }
        spans
    }
}

/// What `after` holds of one resource once pass `p` has been seen to touch those of
/// `refs`.
spec fn span_during(
    before: Map<u32, (usize, usize)>,
    after: Map<u32, (usize, usize)>,
    p: usize,
    refs: Seq<ResourceRef>,
    id: u32,
) -> bool {
    if names(refs, id) {
        after.contains_key(id) && after[id] == (if before.contains_key(id) {
            (before[id].0, p)
        } else {
            (p, p)
        })
    } else {
        (after.contains_key(id) <==> before.contains_key(id)) && (before.contains_key(id)
            ==> after[id] == before[id])
    }
}

spec fn spans_during(
    before: Map<u32, (usize, usize)>,
    after: Map<u32, (usize, usize)>,
    p: usize,
    refs: Seq<ResourceRef>,
    n: int,
) -> bool {
    forall|id: u32| #[trigger] span_during(before, after, p, refs.take(n), id)
}

proof fn lemma_names_add(a: Seq<ResourceRef>, b: Seq<ResourceRef>, id: u32)
    ensures
        names(a + b, id) <==> names(a, id) || names(b, id),
{
    let all = a + b;
    if names(a, id) {
        let i = choose|i: int| 0 <= i < a.len() && (#[trigger] a[i]).id == id;
        assert(all[i].id == id);
    }
    if names(b, id) {
        let i = choose|i: int| 0 <= i < b.len() && (#[trigger] b[i]).id == id;
        assert(all[a.len() + i].id == id);
    }
    if names(all, id) {
        let i = choose|i: int| 0 <= i < all.len() && (#[trigger] all[i]).id == id;
        if i < a.len() {
            assert(a[i].id == id);
        } else {
            assert(b[i - a.len()].id == id);
        }
    }
}

/// Notes that pass `p` touches some resources.
fn note_touches(
    spans: &mut HashMap<u32, (usize, usize)>,
    refs: &Vec<ResourceRef>,
    p: usize,
    Ghost(before): Ghost<Map<u32, (usize, usize)>>,
    Ghost(earlier): Ghost<Seq<ResourceRef>>,
)
    requires
        spans_during(before, old(spans)@, p, earlier, earlier.len() as int),
    ensures
        spans_during(before, final(spans)@, p, earlier + refs@, (earlier + refs@).len() as int),
{
    let ghost all = earlier + refs@;
    let ghost k = earlier.len() as int;
    let mut i: usize = 0;
    proof {
        assert(all.take(k) =~= earlier.take(k));
        assert forall|id: u32| #[trigger] span_during(before, spans@, p, all.take(k + 0), id) by {
            assert(span_during(before, spans@, p, earlier.take(k), id));
        }
    }
    while i < refs.len()
        invariant
            i <= refs.len(),
            k == earlier.len(),
            all == earlier + refs@,
            spans_during(before, spans@, p, all, k + i),
        decreases refs.len() - i,
    {
        let id: u32 = refs[i].id;
        let ghost now = spans@;
        let first: usize = match spans.get(&id) {
            Some(span) => span.0,
            None => p,
        };
        spans.insert(id, (first, p));
        proof {
            let seen = all.take(k + i);
            let more = all.take(k + i + 1);
            assert(more =~= seen.push(refs@[i as int]));
            assert forall|other: u32| #[trigger] span_during(before, spans@, p, more, other) by {
                assert(span_during(before, now, p, seen, other));
                lemma_names_push(seen, refs@[i as int], other);
            }
        }
        i = i + 1;
    }
}

proof fn lemma_names_push(refs: Seq<ResourceRef>, r: ResourceRef, id: u32)
    ensures
        names(refs.push(r), id) <==> names(refs, id) || r.id == id,
{
    let more = refs.push(r);
    if names(refs, id) {
        let i = choose|i: int| 0 <= i < refs.len() && (#[trigger] refs[i]).id == id;
        assert(more[i].id == id);
    }
    if r.id == id {
        assert(more[refs.len() as int].id == id);
    }
    if names(more, id) {
        let i = choose|i: int| 0 <= i < more.len() && (#[trigger] more[i]).id == id;
        if i < refs.len() {
            assert(refs[i].id == id);
        }
    }
}

impl<'a> GraphDump<'a> {
    /// What a barrier is called.
    pub open spec fn barrier_text(self, b: ResourceBarrier) -> Seq<char> {
        self.label_text(b.resource_id) + ": "@ + accesses_text(b.prev@) + "->"@ + accesses_text(
            b.next@,
        ) + (if b.discard {
            " [discard]"@
        } else {
            ""@
        })
    }

    /// What a barrier is called: its resource, what it leaves and what it enters.
    pub fn barrier_label(&self, b: &ResourceBarrier) -> (label: String)
        ensures
            label@ == self.barrier_text(*b),
    {
        let mut label = self.res_label(b.resource_id);
        label.append(": ");
        push_accesses(&mut label, &b.prev);
        label.append("->");
        push_accesses(&mut label, &b.next);
        label.append(
            if b.discard {
                " [discard]"
            } else {
                ""
            },
        );
        label
    }

    /// What the usages of a pass are called: the reads, then the writes.
    pub open spec fn use_text(self, pass: int, i: int) -> Seq<char> {
        let reads = self.pass_uses@[pass].0@;
        let writes = self.pass_uses@[pass].1@;
        let r = if i < reads.len() {
            reads[i]
        } else {
            writes[i - reads.len()]
        };
        (if i < reads.len() {
            "R "@
        } else {
            "W "@
        }) + self.label_text(r.id) + " ["@ + access_name(r.access.access_type) + "]"@ + span_mark(
            span_of(self.pass_uses@, r.id, self.pass_uses@.len()),
            pass,
        )
    }

    /// How many resources a pass declares, reads and writes together.
    pub open spec fn use_count(self, pass: int) -> int {
        (self.pass_uses@[pass].0@.len() + self.pass_uses@[pass].1@.len()) as int
    }

    fn use_label(
        &self,
        pass: usize,
        write: bool,
        r: &ResourceRef,
        spans: &HashMap<u32, (usize, usize)>,
    ) -> (label: String)
        requires
            spans_match(spans@, self.pass_uses@, self.pass_uses@.len()),
        ensures
            label@ == (if write {
                "W "@
            } else {
                "R "@
            }) + self.label_text(r.id) + " ["@ + access_name(r.access.access_type) + "]"@
                + span_mark(span_of(self.pass_uses@, r.id, self.pass_uses@.len()), pass as int),
    {
        let mut label = String::from_str(
            if write {
                "W "
            } else {
                "R "
            },
        );
        label.append(self.res_label(r.id).as_str());
        label.append(" [");
        label.append(access_text(r.access.access_type).as_str());
        label.append("]");
        proof {
            assert(spans@.contains_key(r.id) <==> span_of(
                self.pass_uses@,
                r.id,
                self.pass_uses@.len(),
            ) is Some);
        }
        let mark: &str = match spans.get(&r.id) {
            Some(span) => if span.0 == span.1 {
                " <-- only use"
            } else if span.0 == pass {
                " <-- first use"
            } else if span.1 == pass {
                " <-- last use"
            } else {
                ""
            },
            None => "",
        };
        label.append(mark);
        label
    }

    /// What the usages of a pass are called, each with its access, marked where the pass
    /// bounds the span of the resource.
    pub fn use_labels(&self, pass: usize, spans: &HashMap<u32, (usize, usize)>) -> (labels: Vec<String>)
        requires
            pass < self.pass_uses.len(),
            spans_match(spans@, self.pass_uses@, self.pass_uses@.len()),
        ensures
            labels@.len() == self.use_count(pass as int),
            forall|i: int|
                0 <= i < labels@.len() ==> (#[trigger] labels@[i])@ == self.use_text(pass as int, i),
    {
        let reads = &self.pass_uses[pass].0;
        let writes = &self.pass_uses[pass].1;
        let mut labels: Vec<String> = Vec::new();
        let mut i: usize = 0;
        while i < reads.len()
            invariant
                pass < self.pass_uses.len(),
                *reads == self.pass_uses@[pass as int].0,
                spans_match(spans@, self.pass_uses@, self.pass_uses@.len()),
                i <= reads.len(),
                labels.len() == i,
                forall|k: int|
                    0 <= k < labels@.len() ==> (#[trigger] labels@[k])@ == self.use_text(
                        pass as int,
                        k,
                    ),
            decreases reads.len() - i,
        {
            labels.push(self.use_label(pass, false, &reads[i], spans));
            i = i + 1;
        }
        let mut j: usize = 0;
        while j < writes.len()
            invariant
                pass < self.pass_uses.len(),
                *reads == self.pass_uses@[pass as int].0,
                *writes == self.pass_uses@[pass as int].1,
                spans_match(spans@, self.pass_uses@, self.pass_uses@.len()),
                j <= writes.len(),
                labels@.len() == reads@.len() + j,
                forall|k: int|
                    0 <= k < labels@.len() ==> (#[trigger] labels@[k])@ == self.use_text(
                        pass as int,
                        k,
                    ),
            decreases writes.len() - j,
        {
            labels.push(self.use_label(pass, true, &writes[j], spans));
            j = j + 1;
        }
        labels
    }

    // -----------------------------------------------------------------------
    // Graphviz
    // -----------------------------------------------------------------------

    /// The first `n` usages of a pass in its node, each on a line of its own.
    pub open spec fn dot_uses(self, pass: int, n: nat) -> Seq<char>
        decreases n,
    {
        if n == 0 {
            Seq::empty()
        } else {
            let text = self.use_text(pass, n - 1);
            self.dot_uses(pass, (n - 1) as nat) + (escaped(text, text.len()) + "\\l"@)
        }
    }

    /// The node of a pass.
    pub open spec fn dot_node(self, pass: nat) -> Seq<char> {
        let name = self.pass_names@[pass as int]@;
        "  pass_"@ + decimal(pass) + " [label=\"pass "@ + decimal(pass) + ": "@ + escaped(
            name,
            name.len(),
        ) + "\\l"@ + self.dot_uses(pass as int, self.use_count(pass as int) as nat) + "\"];\n"@
    }

    /// The nodes of the first `n` passes.
    pub open spec fn dot_nodes(self, n: nat) -> Seq<char>
        decreases n,
    {
        if n == 0 {
            Seq::empty()
        } else {
            self.dot_nodes((n - 1) as nat) + self.dot_node((n - 1) as nat)
        }
    }

    /// The first `n` barriers of a point in its note.
    pub open spec fn dot_barriers(self, barriers: Seq<ResourceBarrier>, n: nat) -> Seq<char>
        decreases n,
    {
        if n == 0 {
            Seq::empty()
        } else {
            let text = self.barrier_text(barriers[n - 1]);
            self.dot_barriers(barriers, (n - 1) as nat) + ("\\n"@ + escaped(text, text.len()))
        }
    }

    /// The note of a point, drawn into the pass it precedes. A point without barriers has
    /// none.
    pub open spec fn dot_note(self, i: int) -> Seq<char> {
        let (pass, barriers) = self.barriers_at@[i];
        let p = decimal(pass as nat);
        if barriers@.len() == 0 {
            ""@
        } else {
            "  barrier_"@ + p
                + " [shape=note, style=filled, fillcolor=\"#ffe8b3\", label=\"barriers before pass "@
                + p + self.dot_barriers(barriers@, barriers@.len()) + "\"];\n  barrier_"@ + p
                + " -> pass_"@ + p + " [style=dashed, color=\"#b38f00\"];\n"@
        }
    }

    /// The notes of the first `n` points.
    pub open spec fn dot_notes(self, n: nat) -> Seq<char>
        decreases n,
    {
        if n == 0 {
            Seq::empty()
        } else {
            self.dot_notes((n - 1) as nat) + self.dot_note(n - 1)
        }
    }

    /// The first `n` edges.
    pub open spec fn dot_edges(self, n: nat) -> Seq<char>
        decreases n,
    {
        if n == 0 {
            Seq::empty()
        } else {
            let (src, dst, _) = self.edges@[n - 1];
            self.dot_edges((n - 1) as nat) + ("  pass_"@ + decimal(src as nat) + " -> pass_"@
                + decimal(dst as nat) + ";\n"@)
        }
    }

    /// The whole graph.
    pub open spec fn dot_text(self) -> Seq<char> {
        "digraph render_graph_frame_"@ + decimal(self.frame as nat) + DOT_HEAD@ + self.dot_nodes(
            self.pass_names@.len(),
        ) + self.dot_notes(self.barriers_at@.len()) + self.dot_edges(self.edges@.len()) + "}\n"@
    }

    fn node(&self, pass: usize, spans: &HashMap<u32, (usize, usize)>) -> (text: String)
        requires
            pass < self.pass_uses.len(),
            pass < self.pass_names.len(),
            spans_match(spans@, self.pass_uses@, self.pass_uses@.len()),
        ensures
            text@ == self.dot_node(pass as nat),
    {
        let labels = self.use_labels(pass, spans);
        let mut uses = String::new();
        let mut i: usize = 0;
        proof {
            assert(uses@ =~= self.dot_uses(pass as int, 0));
        }
        while i < labels.len()
            invariant
                i <= labels.len(),
                forall|k: int|
                    0 <= k < labels@.len() ==> (#[trigger] labels@[k])@ == self.use_text(
                        pass as int,
                        k,
                    ),
                uses@ == self.dot_uses(pass as int, i as nat),
            decreases labels.len() - i,
        {
            let mut line = escape(labels[i].as_str());
            line.append("\\l");
            uses.append(line.as_str());
            i = i + 1;
        }
        let mut text = String::from_str("  pass_");
        push_decimal(&mut text, pass as u64);
        text.append(" [label=\"pass ");
        push_decimal(&mut text, pass as u64);
        text.append(": ");
        text.append(escape(self.pass_names[pass].as_str()).as_str());
        text.append("\\l");
        text.append(uses.as_str());
        text.append("\"];\n");
        text
    }

    fn note(&self, i: usize) -> (text: String)
        requires
            i < self.barriers_at.len(),
        ensures
            text@ == self.dot_note(i as int),
    {
        let pass: usize = self.barriers_at[i].0;
        let barriers = &self.barriers_at[i].1;
        if barriers.len() == 0 {
            return String::from_str("");
        }
        let mut lines = String::new();
        let mut k: usize = 0;
        proof {
            assert(lines@ =~= self.dot_barriers(barriers@, 0));
        }
        while k < barriers.len()
            invariant
                k <= barriers.len(),
                lines@ == self.dot_barriers(barriers@, k as nat),
            decreases barriers.len() - k,
        {
            let mut line = String::from_str("\\n");
            line.append(escape(self.barrier_label(&barriers[k]).as_str()).as_str());
            lines.append(line.as_str());
            k = k + 1;
        }
        let number = decimal_text(pass as u64);
        let mut text = String::from_str("  barrier_");
        text.append(number.as_str());
        text.append(
            " [shape=note, style=filled, fillcolor=\"#ffe8b3\", label=\"barriers before pass ",
        );
        text.append(number.as_str());
        text.append(lines.as_str());
        text.append("\"];\n  barrier_");
        text.append(number.as_str());
        text.append(" -> pass_");
        text.append(number.as_str());
        text.append(" [style=dashed, color=\"#b38f00\"];\n");
        text
    }

    /// The frame as a Graphviz graph: passes with all they touch, a note at every point
    /// that has barriers, and the edges.
    pub fn to_dot(&self) -> (text: String)
        requires
            self.pass_names.len() == self.pass_uses.len(),
        ensures
            text@ == self.dot_text(),
    {
        let spans = self.lifetimes();
        let mut nodes = String::new();
        let mut i: usize = 0;
        proof {
            assert(nodes@ =~= self.dot_nodes(0));
        }
        while i < self.pass_names.len()
            invariant
                self.pass_names.len() == self.pass_uses.len(),
                spans_match(spans@, self.pass_uses@, self.pass_uses@.len()),
                i <= self.pass_names.len(),
                nodes@ == self.dot_nodes(i as nat),
            decreases self.pass_names.len() - i,
        {
            nodes.append(self.node(i, &spans).as_str());
            i = i + 1;
        }
        let mut notes = String::new();
        let mut j: usize = 0;
        proof {
            assert(notes@ =~= self.dot_notes(0));
        }
        while j < self.barriers_at.len()
            invariant
                j <= self.barriers_at.len(),
                notes@ == self.dot_notes(j as nat),
            decreases self.barriers_at.len() - j,
        {
            notes.append(self.note(j).as_str());
            j = j + 1;
        }
        let mut arrows = String::new();
        let mut k: usize = 0;
        proof {
            assert(arrows@ =~= self.dot_edges(0));
        }
        while k < self.edges.len()
            invariant
                k <= self.edges.len(),
                arrows@ == self.dot_edges(k as nat),
            decreases self.edges.len() - k,
        {
            let mut line = String::from_str("  pass_");
            push_decimal(&mut line, self.edges[k].0 as u64);
            line.append(" -> pass_");
            push_decimal(&mut line, self.edges[k].1 as u64);
            line.append(";\n");
            arrows.append(line.as_str());
            k = k + 1;
        }
        let mut text = String::from_str("digraph render_graph_frame_");
        push_decimal(&mut text, self.frame);
        text.append(DOT_HEAD);
        text.append(nodes.as_str());
        text.append(notes.as_str());
        text.append(arrows.as_str());
        text.append("}\n");
        text
    }
}

/// The head of the graph, behind its name: from top to bottom, and a legend.
pub const DOT_HEAD: &'static str = " {\n  rankdir=TB;\n  node [shape=box, style=rounded, fontname=\"monospace\"];\n  edge [fontname=\"monospace\", fontsize=9];\n  legend [shape=plaintext, label=\"res<id> = transient (graph-owned, may alias)\\lext<id> = external (imported, outlives the frame)\\lR / W   = declared read / write\\lfirst/last use = the transient's live range\\l\"];\n";

// ---------------------------------------------------------------------------
// Text
// ---------------------------------------------------------------------------

/// Whether an import enters with undefined contents: it carries `Nothing` and nothing
/// else.
pub open spec fn enters_undefined(accesses: Seq<AccessType>) -> bool {
    accesses.len() > 0 && forall|i: int|
        0 <= i < accesses.len() ==> #[trigger] accesses[i] == AccessType::Nothing
}

fn is_undefined(accesses: &Vec<AccessType>) -> (r: bool)
    ensures
        r == enters_undefined(accesses@),
{
    let mut i: usize = 0;
    while i < accesses.len()
        invariant
            i <= accesses.len(),
            forall|k: int| 0 <= k < i ==> #[trigger] accesses@[k] == AccessType::Nothing,
        decreases accesses.len() - i,
    {
        if !same_access(accesses[i], AccessType::Nothing) {
            return false;
        }
        i = i + 1;
    }
    accesses.len() > 0
}

/// Where a resource is bound, as the table shows it.
pub open spec fn place_text(placement: Option<Placement>) -> Seq<char> {
    match placement {
        Some(p) => decimal(p.bucket as nat) + "@"@ + decimal(p.offset as nat),
        None => "-"@,
    }
}

/// The passes in which a resource is live, as the table shows them.
pub open spec fn live_text(span: Option<(usize, usize)>) -> Seq<char> {
    match span {
        Some((first, last)) => decimal(first as nat) + ".."@ + decimal(last as nat),
        None => "unused"@,
    }
}

/// What an import carries in, as the table shows it.
pub open spec fn carried_text(row: ResourceDumpInfo) -> Seq<char> {
    match row.import_access {
        Some(accesses) => accesses_text(accesses@) + (if enters_undefined(accesses@) {
            "   <== enters UNDEFINED (contents discarded)"@
        } else {
            ""@
        }) + "\n"@,
        None => "-\n"@,
    }
}

impl<'a> GraphDump<'a> {
    /// The first `n` usages of a pass, each on a line of its own.
    pub open spec fn text_uses(self, pass: int, n: nat) -> Seq<char>
        decreases n,
    {
        if n == 0 {
            Seq::empty()
        } else {
            self.text_uses(pass, (n - 1) as nat) + ("      "@ + self.use_text(pass, n - 1) + "\n"@)
        }
    }

    /// The first `n` passes.
    pub open spec fn text_passes(self, n: nat) -> Seq<char>
        decreases n,
    {
        if n == 0 {
            Seq::empty()
        } else {
            self.text_passes((n - 1) as nat) + ("  pass "@ + decimal((n - 1) as nat) + ": "@
                + self.pass_names@[n - 1]@ + "\n"@ + self.text_uses(
                n - 1,
                self.use_count(n - 1) as nat,
            ))
        }
    }

    /// One row of the table of resources.
    pub open spec fn text_row(self, row: ResourceDumpInfo) -> Seq<char> {
        "  "@ + right_aligned(decimal(row.id as nat), 3) + " | "@ + left_aligned(
            row.kind.text(),
            16,
        ) + " | "@ + left_aligned(row.detail@, 28) + " | "@ + left_aligned(
            live_text(span_of(self.pass_uses@, row.id, self.pass_uses@.len())),
            8,
        ) + " | "@ + left_aligned(place_text(row.placement), 16) + " | "@ + carried_text(row)
    }

    /// The first `n` rows.
    pub open spec fn text_rows(self, n: nat) -> Seq<char>
        decreases n,
    {
        if n == 0 {
            Seq::empty()
        } else {
            self.text_rows((n - 1) as nat) + self.text_row(self.resources@[n - 1])
        }
    }

    /// The first `n` resources of an edge.
    pub open spec fn text_edge_resources(self, ids: Seq<u32>, n: nat) -> Seq<char>
        decreases n,
    {
        if n == 0 {
            Seq::empty()
        } else {
            self.text_edge_resources(ids, (n - 1) as nat) + ("      "@ + self.label_text(ids[n - 1])
                + "\n"@)
        }
    }

    /// The first `n` edges, each with its resources.
    pub open spec fn text_edges(self, n: nat) -> Seq<char>
        decreases n,
    {
        if n == 0 {
            Seq::empty()
        } else {
            let (src, dst, ids) = self.edges@[n - 1];
            self.text_edges((n - 1) as nat) + ("  pass "@ + decimal(src as nat) + " -> pass "@
                + decimal(dst as nat) + "\n"@ + self.text_edge_resources(ids@, ids@.len()))
        }
    }

    /// The first `n` barriers of a point.
    pub open spec fn text_barriers(self, barriers: Seq<ResourceBarrier>, n: nat) -> Seq<char>
        decreases n,
    {
        if n == 0 {
            Seq::empty()
        } else {
            self.text_barriers(barriers, (n - 1) as nat) + ("      "@ + self.barrier_text(
                barriers[n - 1],
            ) + "\n"@)
        }
    }

    /// The first `n` points.
    pub open spec fn text_points(self, n: nat) -> Seq<char>
        decreases n,
    {
        if n == 0 {
            Seq::empty()
        } else {
            let (pass, barriers) = self.barriers_at@[n - 1];
            self.text_points((n - 1) as nat) + ("  before pass "@ + decimal(pass as nat) + ":\n"@
                + self.text_barriers(barriers@, barriers@.len()))
        }
    }

    /// The whole text.
    pub open spec fn whole_text(self) -> Seq<char> {
        "=== Render graph frame "@ + decimal(self.frame as nat)
            + " ===\n\nPasses (res<id> = transient, ext<id> = external/imported):\n"@
            + self.text_passes(self.pass_names@.len())
            + "\nResources (id | kind | detail | live passes | bucket@offset | cross-frame access):\n"@
            + self.text_rows(self.resources@.len()) + EDGES_HEAD@ + self.text_edges(
            self.edges@.len(),
        ) + "\nBarriers ("@ + decimal(barrier_count(self.barriers_at@, self.barriers_at@.len()))
            + " transitions at "@ + decimal(self.barriers_at@.len())
            + " point(s), in schedule order):\n"@ + (if self.barriers_at@.len() == 0 {
            "  (none)\n"@
        } else {
            ""@
        }) + self.text_points(self.barriers_at@.len()) + "\n"@ + self.aliasing_report@ + "\n"@
    }

    fn passes_section(&self, spans: &HashMap<u32, (usize, usize)>) -> (text: String)
        requires
            self.pass_names.len() == self.pass_uses.len(),
            spans_match(spans@, self.pass_uses@, self.pass_uses@.len()),
        ensures
            text@ == self.text_passes(self.pass_names@.len()),
    {
        let mut text = String::new();
        let mut i: usize = 0;
        proof {
            assert(text@ =~= self.text_passes(0));
        }
        while i < self.pass_names.len()
            invariant
                self.pass_names.len() == self.pass_uses.len(),
                spans_match(spans@, self.pass_uses@, self.pass_uses@.len()),
                i <= self.pass_names.len(),
                text@ == self.text_passes(i as nat),
            decreases self.pass_names.len() - i,
        {
            let labels = self.use_labels(i, spans);
            let mut uses = String::new();
            let mut k: usize = 0;
            proof {
                assert(uses@ =~= self.text_uses(i as int, 0));
            }
            while k < labels.len()
                invariant
                    k <= labels.len(),
                    forall|j: int|
                        0 <= j < labels@.len() ==> (#[trigger] labels@[j])@ == self.use_text(
                            i as int,
                            j,
                        ),
                    uses@ == self.text_uses(i as int, k as nat),
                decreases labels.len() - k,
            {
                let mut line = String::from_str("      ");
                line.append(labels[k].as_str());
                line.append("\n");
                uses.append(line.as_str());
                k = k + 1;
            }
            let mut part = String::from_str("  pass ");
            push_decimal(&mut part, i as u64);
            part.append(": ");
            part.append(self.pass_names[i].as_str());
            part.append("\n");
            part.append(uses.as_str());
            text.append(part.as_str());
            i = i + 1;
        }
        text
    }

    fn row(&self, row: &ResourceDumpInfo, spans: &HashMap<u32, (usize, usize)>) -> (text: String)
        requires
            spans_match(spans@, self.pass_uses@, self.pass_uses@.len()),
        ensures
            text@ == self.text_row(*row),
    {
        let mut place = String::from_str("-");
        match &row.placement {
            Some(p) => {
                place = decimal_text(p.bucket as u64);
                place.append("@");
                push_decimal(&mut place, p.offset);
            },
            None => {},
        }
        let mut live = String::from_str("unused");
        proof {
            assert(spans@.contains_key(row.id) <==> span_of(
                self.pass_uses@,
                row.id,
                self.pass_uses@.len(),
            ) is Some);
        }
        match spans.get(&row.id) {
            Some(span) => {
                live = decimal_text(span.0 as u64);
                live.append("..");
                push_decimal(&mut live, span.1 as u64);
            },
            None => {},
        }
        let mut text = String::from_str("  ");
        push_right_aligned(&mut text, decimal_text(row.id as u64).as_str(), 3);
        text.append(" | ");
        push_left_aligned(&mut text, row.kind.name(), 16);
        text.append(" | ");
        push_left_aligned(&mut text, row.detail.as_str(), 28);
        text.append(" | ");
        push_left_aligned(&mut text, live.as_str(), 8);
        text.append(" | ");
        push_left_aligned(&mut text, place.as_str(), 16);
        text.append(" | ");
        let mut carried = String::new();
        match &row.import_access {
            Some(accesses) => {
                push_accesses(&mut carried, accesses);
                proof {
                    assert(carried@ =~= accesses_text(accesses@));
                }
                carried.append(
                    if is_undefined(accesses) {
                        "   <== enters UNDEFINED (contents discarded)"
                    } else {
                        ""
                    },
                );
                carried.append("\n");
            },
            None => {
                carried = String::from_str("-\n");
            },
        }
        text.append(carried.as_str());
        text
    }

    fn rows_section(&self, spans: &HashMap<u32, (usize, usize)>) -> (text: String)
        requires
            spans_match(spans@, self.pass_uses@, self.pass_uses@.len()),
        ensures
            text@ == self.text_rows(self.resources@.len()),
    {
        let mut text = String::new();
        let mut i: usize = 0;
        proof {
            assert(text@ =~= self.text_rows(0));
        }
        while i < self.resources.len()
            invariant
                spans_match(spans@, self.pass_uses@, self.pass_uses@.len()),
                i <= self.resources.len(),
                text@ == self.text_rows(i as nat),
            decreases self.resources.len() - i,
        {
            text.append(self.row(&self.resources[i], spans).as_str());
            i = i + 1;
        }
        text
    }

    fn edges_section(&self) -> (text: String)
        ensures
            text@ == self.text_edges(self.edges@.len()),
    {
        let mut text = String::new();
        let mut i: usize = 0;
        proof {
            assert(text@ =~= self.text_edges(0));
        }
        while i < self.edges.len()
            invariant
                i <= self.edges.len(),
                text@ == self.text_edges(i as nat),
            decreases self.edges.len() - i,
        {
            let ids = &self.edges[i].2;
            let mut lines = String::new();
            let mut k: usize = 0;
            proof {
                assert(lines@ =~= self.text_edge_resources(ids@, 0));
            }
            while k < ids.len()
                invariant
                    k <= ids.len(),
                    lines@ == self.text_edge_resources(ids@, k as nat),
                decreases ids.len() - k,
            {
                let mut line = String::from_str("      ");
                line.append(self.res_label(ids[k]).as_str());
                line.append("\n");
                lines.append(line.as_str());
                k = k + 1;
            }
            let mut part = String::from_str("  pass ");
            push_decimal(&mut part, self.edges[i].0 as u64);
            part.append(" -> pass ");
            push_decimal(&mut part, self.edges[i].1 as u64);
            part.append("\n");
            part.append(lines.as_str());
            text.append(part.as_str());
            i = i + 1;
        }
        text
    }

    fn points_section(&self) -> (text: String)
        ensures
            text@ == self.text_points(self.barriers_at@.len()),
    {
        let mut text = String::new();
        let mut i: usize = 0;
        proof {
            assert(text@ =~= self.text_points(0));
        }
        while i < self.barriers_at.len()
            invariant
                i <= self.barriers_at.len(),
                text@ == self.text_points(i as nat),
            decreases self.barriers_at.len() - i,
        {
            let barriers = &self.barriers_at[i].1;
            let mut lines = String::new();
            let mut k: usize = 0;
            proof {
                assert(lines@ =~= self.text_barriers(barriers@, 0));
            }
            while k < barriers.len()
                invariant
                    k <= barriers.len(),
                    lines@ == self.text_barriers(barriers@, k as nat),
                decreases barriers.len() - k,
            {
                let mut line = String::from_str("      ");
                line.append(self.barrier_label(&barriers[k]).as_str());
                line.append("\n");
                lines.append(line.as_str());
                k = k + 1;
            }
            let mut part = String::from_str("  before pass ");
            push_decimal(&mut part, self.barriers_at[i].0 as u64);
            part.append(":\n");
            part.append(lines.as_str());
            text.append(part.as_str());
            i = i + 1;
        }
        text
    }

    /// The frame as text: passes, the table of resources, edges, barriers, and the report
    /// on aliasing.
    pub fn to_text(&self) -> (text: String)
        requires
            self.pass_names.len() == self.pass_uses.len(),
            barrier_count(self.barriers_at@, self.barriers_at@.len()) <= u64::MAX,
        ensures
            text@ == self.whole_text(),
    {
        let spans = self.lifetimes();
        let mut text = String::from_str("=== Render graph frame ");
        push_decimal(&mut text, self.frame);
        text.append(" ===\n\nPasses (res<id> = transient, ext<id> = external/imported):\n");
        text.append(self.passes_section(&spans).as_str());
        text.append(
            "\nResources (id | kind | detail | live passes | bucket@offset | cross-frame access):\n",
        );
        text.append(self.rows_section(&spans).as_str());
        text.append(EDGES_HEAD);
        text.append(self.edges_section().as_str());
        text.append("\nBarriers (");
        push_decimal(&mut text, count_barriers(self.barriers_at));
        text.append(" transitions at ");
        push_decimal(&mut text, self.barriers_at.len() as u64);
        text.append(" point(s), in schedule order):\n");
        text.append(
            if self.barriers_at.len() == 0 {
                "  (none)\n"
            } else {
                ""
            },
        );
        text.append(self.points_section().as_str());
        text.append("\n");
        text.append(self.aliasing_report.as_str());
        text.append("\n");
        text
    }
}

/// The head of the list of edges.
pub const EDGES_HEAD: &'static str = "\nDependency edges — ordering only (src -> dst : resources):\n";

/// The name of a dump without its ending: the number of the frame, in five digits or
/// more.
pub open spec fn stem(frame: u64) -> Seq<char> {
    let digits = decimal(frame as nat);
    "graph_frame_"@ + zeros(5 - digits.len()) + digits
}

/// `n` zeros.
pub open spec fn zeros(n: int) -> Seq<char> {
    Seq::new(if n > 0 { n as nat } else { 0 }, |i: int| '0')
}

/// The name of a dump without its ending.
pub fn file_stem(frame: u64) -> (name: String)
    ensures
        name@ == stem(frame),
{
    let digits = decimal_text(frame);
    let mut name = String::from_str("graph_frame_");
    let len: usize = digits.as_str().unicode_len();
    let mut i: usize = len;
    proof {
        assert(name@ =~= "graph_frame_"@ + zeros(0));
    }
    while i < 5
        invariant
            len <= i,
            i <= 5 || i == len,
            name@ == "graph_frame_"@ + zeros(i - len),
        decreases 5 - i,
    {
        name.append("0");
        i = i + 1;
        proof {
            reveal_strlit("0");
            assert(name@ =~= "graph_frame_"@ + zeros(i - len));
        }
    }
    name.append(digits.as_str());
    proof {
        assert(zeros(i - len) =~= zeros(5 - len));
    }
    name
}

// ---------------------------------------------------------------------------
// Gathering
// ---------------------------------------------------------------------------

/// What the table says of a resource: its kind, and its name, extent or size.
pub open spec fn row_kind(info: GraphResourceInfo) -> DumpKind {
    match info {
        GraphResourceInfo::Created(GraphResourceDesc::Image(_)) => DumpKind::CreatedImage,
        GraphResourceInfo::Created(GraphResourceDesc::Buffer(_)) => DumpKind::CreatedBuffer,
        GraphResourceInfo::Created(GraphResourceDesc::Sampler(_)) => DumpKind::CreatedSampler,
        GraphResourceInfo::Created(GraphResourceDesc::RaytracingAS(_)) => DumpKind::CreatedAs,
        GraphResourceInfo::Imported(GraphResourceImportInfo::Image { .. }) =>
            DumpKind::ImportedImage,
        GraphResourceInfo::Imported(GraphResourceImportInfo::Buffer { .. }) =>
            DumpKind::ImportedBuffer,
        GraphResourceInfo::Imported(GraphResourceImportInfo::Sampler { .. }) =>
            DumpKind::ImportedSampler,
        GraphResourceInfo::Imported(GraphResourceImportInfo::RayTracingAcceleration { .. }) =>
            DumpKind::ImportedAs,
    }
}

/// What the table says of a resource besides its kind.
pub open spec fn row_detail(info: GraphResourceInfo) -> Seq<char> {
    match info {
        GraphResourceInfo::Created(GraphResourceDesc::Image(d)) => d.name@ + " "@ + decimal(
            d.extent.0 as nat,
        ) + "x"@ + decimal(d.extent.1 as nat),
        GraphResourceInfo::Created(GraphResourceDesc::Buffer(d)) => d.name@ + " "@ + decimal(
            d.byte_size as nat,
        ) + "B"@,
        GraphResourceInfo::Imported(GraphResourceImportInfo::Image { resource, .. }) => decimal(
            resource.extent.0 as nat,
        ) + "x"@ + decimal(resource.extent.1 as nat),
        GraphResourceInfo::Imported(GraphResourceImportInfo::Buffer { resource, .. }) => decimal(
            resource.byte_size as nat,
        ) + "B"@,
        _ => ""@,
    }
}

/// Whether a row says of resource `id` what there is to say.
pub open spec fn is_row_of(
    row: ResourceDumpInfo,
    infos: Seq<GraphResourceInfo>,
    placements: Map<u32, Placement>,
    id: int,
) -> bool {
    let info = infos[id];
    &&& row.id == id
    &&& row.kind == row_kind(info)
    &&& row.detail@ == row_detail(info)
    &&& row.placement == (if placements.contains_key(id as u32) {
        Some(placements[id as u32])
    } else {
        None
    })
    &&& match info {
        GraphResourceInfo::Imported(import) => row.import_access matches Some(accesses)
            && accesses@ == import@.accesses,
        GraphResourceInfo::Created(_) => row.import_access is None,
    }
}

fn describe(info: &GraphResourceInfo) -> (r: (DumpKind, String))
    ensures
        r.0 == row_kind(*info),
        r.1@ == row_detail(*info),
{
    match info {
        GraphResourceInfo::Created(GraphResourceDesc::Image(d)) => {
            let mut detail = d.name.to_owned();
            detail.append(" ");
            push_decimal(&mut detail, d.extent.0 as u64);
            detail.append("x");
            push_decimal(&mut detail, d.extent.1 as u64);
            (DumpKind::CreatedImage, detail)
        },
        GraphResourceInfo::Created(GraphResourceDesc::Buffer(d)) => {
            let mut detail = d.name.to_owned();
            detail.append(" ");
            push_decimal(&mut detail, d.byte_size);
            detail.append("B");
            (DumpKind::CreatedBuffer, detail)
        },
        GraphResourceInfo::Created(GraphResourceDesc::Sampler(_)) => {
            (DumpKind::CreatedSampler, String::from_str(""))
        },
        GraphResourceInfo::Created(GraphResourceDesc::RaytracingAS(_)) => {
            (DumpKind::CreatedAs, String::from_str(""))
        },
        GraphResourceInfo::Imported(GraphResourceImportInfo::Image { resource, .. }) => {
            let mut detail = decimal_text(resource.extent.0 as u64);
            detail.append("x");
            push_decimal(&mut detail, resource.extent.1 as u64);
            (DumpKind::ImportedImage, detail)
        },
        GraphResourceInfo::Imported(GraphResourceImportInfo::Buffer { resource, .. }) => {
            let mut detail = decimal_text(resource.byte_size);
            detail.append("B");
            (DumpKind::ImportedBuffer, detail)
        },
        GraphResourceInfo::Imported(GraphResourceImportInfo::Sampler { .. }) => {
            (DumpKind::ImportedSampler, String::from_str(""))
        },
        GraphResourceInfo::Imported(GraphResourceImportInfo::RayTracingAcceleration { .. }) => {
            (DumpKind::ImportedAs, String::from_str(""))
        },
    }
}

/// The table of resources of a frame.
pub fn dump_resources(
    infos: &Vec<GraphResourceInfo>,
    placements: &HashMap<u32, Placement>,
) -> (rows: Vec<ResourceDumpInfo>)
    requires
        infos.len() <= u32::MAX,
    ensures
        rows.len() == infos.len(),
        forall|i: int|
            0 <= i < rows.len() ==> is_row_of(#[trigger] rows[i], infos@, placements@, i),
{
    let mut rows: Vec<ResourceDumpInfo> = Vec::with_capacity(infos.len());
    let mut i: usize = 0;
    while i < infos.len()
        invariant
            i <= infos.len() <= u32::MAX,
            rows.len() == i,
            forall|k: int|
                0 <= k < rows.len() ==> is_row_of(#[trigger] rows[k], infos@, placements@, k),
        decreases infos.len() - i,
    {
        let id: u32 = i as u32;
        let (kind, detail) = describe(&infos[i]);
        let placement: Option<Placement> = match placements.get(&id) {
            Some(p) => Some(*p),
            None => None,
        };
        let import_access: Option<Vec<AccessType>> = match &infos[i] {
            GraphResourceInfo::Imported(import) => Some(imported_initial_access(import)),
            GraphResourceInfo::Created(_) => None,
        };
        rows.push(ResourceDumpInfo { id, kind, detail, placement, import_access });
        i = i + 1;
    }
    rows
}

/// The edges of a pass graph, by the passes they join.
pub open spec fn edge_list(weights: Seq<usize>, list: Seq<(usize, usize, Seq<u32>)>) -> Seq<
    (usize, usize, Seq<u32>),
> {
    Seq::new(
        list.len(),
        |e: int| (weights[list[e].0 as int], weights[list[e].1 as int], list[e].2),
    )
}

/// The views of dumped edges.
pub open spec fn edge_views(list: Seq<(usize, usize, Vec<u32>)>) -> Seq<(usize, usize, Seq<u32>)> {
    Seq::new(list.len(), |e: int| (list[e].0, list[e].1, list[e].2@))
}

/// The edges of a pass graph, in the order they were found.
pub fn dump_edges(dep_graph: &DiGraph<usize, Vec<u32>>) -> (list: Vec<(usize, usize, Vec<u32>)>)
    ensures
        edge_views(list@) == edge_list(node_weights(*dep_graph), edges(*dep_graph)),
{
    let n: usize = node_count(dep_graph);
    let count: usize = edge_count(dep_graph);
    let mut list: Vec<(usize, usize, Vec<u32>)> = Vec::new();
    let ghost all = edges(*dep_graph);
    let ghost weights = node_weights(*dep_graph);
    let mut e: usize = 0;
    proof {
        assert(edge_views(list@) =~= edge_list(weights, all.take(0)));
    }
    while e < count
        invariant
            e <= count <= u32::MAX,
            count == all.len(),
            all == edges(*dep_graph),
            weights == node_weights(*dep_graph),
            n == weights.len(),
            n <= u32::MAX,
            forall|k: int| 0 <= k < all.len() ==> (#[trigger] all[k]).0 < n && all[k].1 < n,
            edge_views(list@) == edge_list(weights, all.take(e as int)),
        decreases count - e,
    {
        let (a, b) = edge_endpoints(dep_graph, e);
        proof {
            assert(all[e as int].0 < n && all[e as int].1 < n);
        }
        let ids = copy_ids(edge_weight(dep_graph, e));
        let ghost so_far = list@;
        list.push((node_weight(dep_graph, a), node_weight(dep_graph, b), ids));
        e = e + 1;
        proof {
            let added = (weights[a as int], weights[b as int], ids@);
            assert(edge_views(list@) =~= edge_views(so_far).push(added));
            assert(edge_list(weights, all.take(e as int)) =~= edge_list(
                weights,
                all.take(e - 1),
            ).push(added));
        }
    }
    proof {
        assert(all.take(e as int) =~= all);
    }
    list
}

/// A copy of a list of ids.
pub(crate) fn copy_ids(ids: &Vec<u32>) -> (copy: Vec<u32>)
    ensures
        copy@ == ids@,
{
    let mut copy: Vec<u32> = Vec::with_capacity(ids.len());
    let mut i: usize = 0;
    while i < ids.len()
        invariant
            i <= ids.len(),
            copy@ == ids@.take(i as int),
        decreases ids.len() - i,
    {
        copy.push(ids[i]);
        i = i + 1;
        proof {
            assert(ids@.take(i as int) =~= ids@.take(i - 1).push(ids@[i - 1]));
        }
    }
    proof {
        assert(ids@.take(i as int) =~= ids@);
    }
    copy
}

impl RenderGraph {
    /// Gathers all that is needed to show the frame that was compiled into `plan`.
    pub fn dump_graph<'a>(
        &self,
        frame: u64,
        plan: &'a FramePlan,
        aliasing_report: String,
    ) -> (dump: GraphDump<'a>)
        requires
            self.virtual_resources.len() <= u32::MAX,
        ensures
            dump.frame == frame,
            dump.aliasing_report == aliasing_report,
            *dump.barriers_at == plan.barriers,
            dump.pass_names@.len() == self.passes@.len(),
            dump.pass_uses@.len() == self.passes@.len(),
            forall|i: int|
                0 <= i < self.passes@.len() ==> (#[trigger] dump.pass_names@[i])@
                    == self.passes@[i].data().name@,
            forall|i: int|
                0 <= i < self.passes@.len() ==> (#[trigger] dump.pass_uses@[i]).0@
                    == self.passes@[i].data().read@ && dump.pass_uses@[i].1@
                    == self.passes@[i].data().write@,
            edge_views(dump.edges@) == edge_list(
                node_weights(plan.analysis.dep_graph),
                edges(plan.analysis.dep_graph),
            ),
            dump.resources.len() == self.virtual_resources.len(),
            forall|i: int|
                0 <= i < dump.resources.len() ==> is_row_of(
                    #[trigger] dump.resources[i],
                    self.virtual_resources@,
                    plan.placements@,
                    i,
                ),
    {
        let mut pass_names: Vec<String> = Vec::with_capacity(self.passes.len());
        let mut i: usize = 0;
        while i < self.passes.len()
            invariant
                i <= self.passes.len(),
                pass_names.len() == i,
                forall|k: int|
                    0 <= k < i ==> (#[trigger] pass_names@[k])@ == self.passes@[k].data().name@,
            decreases self.passes.len() - i,
        {
            pass_names.push(self.passes[i].common().name.clone());
            i = i + 1;
        }
        GraphDump {
            frame,
            pass_names,
            pass_uses: declarations(&self.passes),
            edges: dump_edges(&plan.analysis.dep_graph),
            resources: dump_resources(&self.virtual_resources, &plan.placements),
            barriers_at: &plan.barriers,
            aliasing_report,
        }
    }
}

} // verus!
