//! What a dump tells: numbers can be read back, nothing that was asked for is left out, and
//! sums are sums.

use std::collections::HashMap;

use vstd::prelude::*;

use crate::render_graph::alias::Placement;
use crate::render_graph::aliasing_report::{
    allocated, barrier_count, count_barriers, requested,
};
use crate::render_graph::analysis::PassDecl;
use crate::render_graph::barriers::ResourceBarrier;
use crate::render_graph::frame_laws::names;
use crate::render_graph::graph_debug::{
    escaped, file_stem, span_of, zeros, GraphDump, EDGES_HEAD,
};
use crate::render_graph::sorting::{is_ordered, is_permutation, lemma_stable_order, stable_order};
use crate::render_graph::transient_resources::{SlotAllocation, TransientResources};
use crate::text::{decimal, hexadecimal, left_aligned, right_aligned};

verus! {

// ---------------------------------------------------------------------------
// Numbers
// ---------------------------------------------------------------------------

/// What a digit counts.
pub open spec fn digit_value(c: char) -> int {
    if '0' <= c <= '9' {
        c as int - '0' as int
    } else {
        c as int - 'a' as int + 10
    }
}

/// What digits come to in a base.
pub open spec fn read_back(digits: Seq<char>, base: int) -> int
    decreases digits.len(),
{
    if digits.len() == 0 {
        0
    } else {
        read_back(digits.drop_last(), base) * base + digit_value(digits.last())
    }
}

/// A number that is written in decimal can be read back.
pub proof fn law_decimals_can_be_read_back(n: nat)
    ensures
        read_back(decimal(n), 10) == n,
        decimal(n).len() > 0,
        forall|i: int| 0 <= i < decimal(n).len() ==> '0' <= #[trigger] decimal(n)[i] <= '9',
        n > 0 ==> decimal(n)[0] != '0',
    decreases n,
{
    let digits = decimal(n);
    if n >= 10 {
        law_decimals_can_be_read_back(n / 10);
        assert(digits.drop_last() =~= decimal(n / 10));
        assert forall|i: int| 0 <= i < digits.len() implies '0' <= #[trigger] digits[i] <= '9' by {
            if i < digits.len() - 1 {
                assert(digits[i] == decimal(n / 10)[i]);
            }
        }
        assert(digits[0] == decimal(n / 10)[0]);
    } else {
        assert(digits.drop_last() =~= Seq::empty());
        assert(read_back(digits.drop_last(), 10) == 0);
    }
}

/// So can one that is written in hexadecimal.
pub proof fn law_hexadecimals_can_be_read_back(n: nat)
    ensures
        read_back(hexadecimal(n), 16) == n,
        hexadecimal(n).len() > 0,
    decreases n,
{
    let digits = hexadecimal(n);
    if n >= 16 {
        law_hexadecimals_can_be_read_back(n / 16);
        assert(digits.drop_last() =~= hexadecimal(n / 16));
    } else {
        assert(digits.drop_last() =~= Seq::empty());
        assert(read_back(digits.drop_last(), 16) == 0);
    }
}

/// A text that is aligned fills its field, at the end that was asked for, and loses nothing.
pub proof fn law_aligned_texts_fill_their_field(text: Seq<char>, width: int)
    requires
        width >= 0,
    ensures
        ({
            let right = right_aligned(text, width);
            let left = left_aligned(text, width);
            let n = text.len() as int;
            &&& right.len() == left.len()
            &&& right.len() == if n < width { width } else { n }
            &&& right.skip(right.len() - n) == text
            &&& left.take(n) == text
            &&& forall|i: int| 0 <= i < right.len() - n ==> #[trigger] right[i] == ' '
            &&& forall|i: int| n <= i < left.len() ==> #[trigger] left[i] == ' '
        }),
{
    let right = right_aligned(text, width);
    let left = left_aligned(text, width);
    let n = text.len() as int;
    assert(right.skip(right.len() - n) =~= text);
    assert(left.take(n) =~= text);
}

/// A text without the signs that keep its quotes and strokes apart from others.
pub open spec fn unescaped(text: Seq<char>) -> Seq<char>
    decreases text.len(),
{
    if text.len() == 0 {
        Seq::empty()
    } else if text.len() >= 2 && (text.last() == '\\' || text.last() == '"') {
        unescaped(text.take(text.len() - 2)).push(text.last())
    } else {
        unescaped(text.drop_last()).push(text.last())
    }
}

/// A text that stands between quotes can be read back.
pub proof fn law_escaped_texts_can_be_read_back(text: Seq<char>, n: nat)
    requires
        n <= text.len(),
    ensures
        unescaped(escaped(text, n)) == text.take(n as int),
    decreases n,
{
    let all = escaped(text, n);
    if n > 0 {
        law_escaped_texts_can_be_read_back(text, (n - 1) as nat);
        let rest = escaped(text, (n - 1) as nat);
        let c = text[n - 1];
        assert(text.take(n as int) =~= text.take(n - 1).push(c));
        if c == '\\' || c == '"' {
            assert(all.take(all.len() - 2) =~= rest);
        } else {
            assert(all.drop_last() =~= rest);
        }
    } else {
        assert(text.take(0) =~= Seq::empty());
    }
}

/// Dumps of different frames have different names.
pub proof fn law_dumps_have_names_of_their_own(a: u64, b: u64, stem_a: String, stem_b: String)
    requires
        call_ensures(file_stem, (a,), stem_a),
        call_ensures(file_stem, (b,), stem_b),
    ensures
        stem_a@ == stem_b@ ==> a == b,
{
    let head = "graph_frame_"@;
    let da = decimal(a as nat);
    let db = decimal(b as nat);
    let ta = zeros(5 - da.len()) + da;
    let tb = zeros(5 - db.len()) + db;
    lemma_zeros_count_nothing(5 - da.len(), da);
    lemma_zeros_count_nothing(5 - db.len(), db);
    law_decimals_can_be_read_back(a as nat);
    law_decimals_can_be_read_back(b as nat);
    if stem_a@ == stem_b@ {
        assert(stem_a@ =~= head + ta);
        assert(stem_b@ =~= head + tb);
        assert((head + ta).skip(head.len() as int) =~= ta);
        assert((head + tb).skip(head.len() as int) =~= tb);
    }
}

proof fn lemma_zeros_count_nothing(n: int, digits: Seq<char>)
    ensures
        read_back(zeros(n) + digits, 10) == read_back(digits, 10),
    decreases digits.len(), n,
{
    let all = zeros(n) + digits;
    if digits.len() > 0 {
        assert(all.drop_last() =~= zeros(n) + digits.drop_last());
        lemma_zeros_count_nothing(n, digits.drop_last());
    } else if n > 0 {
        assert(all.drop_last() =~= zeros(n - 1) + digits);
        assert(all.last() == '0');
        lemma_zeros_count_nothing(n - 1, digits);
    } else {
        assert(all =~= digits);
    }
}

// ---------------------------------------------------------------------------
// Sums
// ---------------------------------------------------------------------------

/// What is allocated is what each chunk takes: one more chunk is as much more as it takes,
/// and without chunks there is nothing.
pub proof fn law_each_chunk_counts(chunks: Seq<SlotAllocation>, more: SlotAllocation, n: nat)
    requires
        n == chunks.len(),
    ensures
        allocated(Seq::empty(), 0) == 0,
        allocated(chunks.push(more), n + 1) == allocated(chunks, n) + more.size,
{
    lemma_allocated_prefix(chunks, more, n);
}

proof fn lemma_allocated_prefix(chunks: Seq<SlotAllocation>, more: SlotAllocation, n: nat)
    requires
        n <= chunks.len(),
    ensures
        allocated(chunks.push(more), n) == allocated(chunks, n),
    decreases n,
{
    if n > 0 {
        lemma_allocated_prefix(chunks, more, (n - 1) as nat);
    }
}

/// What is requested is what each resource with a place asks for: without one of them it is
/// as much less.
pub proof fn law_each_placement_counts(placements: Map<u32, Placement>, id: u32, n: nat)
    requires
        placements.contains_key(id),
        id < n <= u32::MAX + 1,
    ensures
        requested(placements, n) == requested(placements.remove(id), n) + placements[id].size,
    decreases n,
{
    if id < n - 1 {
        law_each_placement_counts(placements, id, (n - 1) as nat);
    } else {
        lemma_requested_below(placements, id, (n - 1) as nat);
    }
}

proof fn lemma_requested_below(placements: Map<u32, Placement>, id: u32, n: nat)
    requires
        n <= id,
    ensures
        requested(placements, n) == requested(placements.remove(id), n),
    decreases n,
{
    if n > 0 {
        lemma_requested_below(placements, id, (n - 1) as nat);
    }
}

/// Barriers are counted one by one, at every point.
pub proof fn law_each_barrier_counts(
    points: Vec<(usize, Vec<ResourceBarrier>)>,
    more: Vec<(usize, Vec<ResourceBarrier>)>,
    last: (usize, Vec<ResourceBarrier>),
    count: u64,
    count_more: u64,
)
    requires
        more@ == points@.push(last),
        call_ensures(count_barriers, (&points,), count),
        call_ensures(count_barriers, (&more,), count_more),
    ensures
        count_more == count + last.1@.len(),
        points@.len() == 0 ==> count == 0,
{
    lemma_count_prefix(points@, last, points@.len());
}

proof fn lemma_count_prefix(
    points: Seq<(usize, Vec<ResourceBarrier>)>,
    last: (usize, Vec<ResourceBarrier>),
    n: nat,
)
    requires
        n <= points.len(),
    ensures
        barrier_count(points.push(last), n) == barrier_count(points, n),
    decreases n,
{
    if n > 0 {
        lemma_count_prefix(points, last, (n - 1) as nat);
    }
}

// ---------------------------------------------------------------------------
// Groups
// ---------------------------------------------------------------------------

proof fn lemma_ids(tr: TransientResources, bucket: u32, n: nat)
    requires
        n <= u32::MAX + 1,
    ensures
        forall|i: int|
            0 <= i < tr.ids_in_bucket(bucket, n).len() ==> {
                let id = #[trigger] tr.ids_in_bucket(bucket, n)[i];
                id < n && tr.placements@.contains_key(id) && tr.placements@[id].bucket == bucket
            },
        forall|id: u32|
            id < n && #[trigger] tr.placements@.contains_key(id) && tr.placements@[id].bucket
                == bucket ==> tr.ids_in_bucket(bucket, n).contains(id),
        tr.ids_in_bucket(bucket, n).no_duplicates(),
    decreases n,
{
    if n > 0 {
        lemma_ids(tr, bucket, (n - 1) as nat);
        let few = tr.ids_in_bucket(bucket, (n - 1) as nat);
        let all = tr.ids_in_bucket(bucket, n);
        let last = (n - 1) as u32;
        assert forall|id: u32|
            id < n && #[trigger] tr.placements@.contains_key(id) && tr.placements@[id].bucket
                == bucket implies all.contains(id) by {
            if id < n - 1 {
                let i = choose|i: int| 0 <= i < few.len() && few[i] == id;
                assert(all[i] == id);
            } else {
                assert(all[few.len() as int] == id);
            }
        }
    }
}

/// A bucket's group lists the resources that stand in it, each once and no others, in the
/// order of their places.
pub proof fn law_groups_list_who_shares(tr: TransientResources, bucket: u32, id: u32)
    requires
        tr.resource_count <= u32::MAX,
    ensures
        tr.members(bucket).contains(id) <==> id < tr.resource_count && tr.placements@.contains_key(
            id,
        ) && tr.placements@[id].bucket == bucket,
        forall|i: int, j: int|
            #![trigger tr.members(bucket)[i], tr.members(bucket)[j]]
            0 <= i < j < tr.members(bucket).len() ==> tr.members(bucket)[i] != tr.members(bucket)[j]
                && tr.placements@[tr.members(bucket)[i]].offset
                <= tr.placements@[tr.members(bucket)[j]].offset,
{
    let n = tr.resource_count as nat;
    lemma_ids(tr, bucket, n);
    let ids = tr.ids_in_bucket(bucket, n);
    let keys = tr.offset_keys(ids);
    lemma_stable_order(keys);
    let order = stable_order(keys);
    let members = tr.members(bucket);
    assert(is_permutation(order, ids.len() as int));
    if ids.contains(id) {
        let k = choose|k: int| 0 <= k < ids.len() && ids[k] == id;
        assert(order.contains(k));
        let i = choose|i: int| 0 <= i < order.len() && order[i] == k;
        assert(members[i] == id);
    }
    if members.contains(id) {
        let i = choose|i: int| 0 <= i < members.len() && members[i] == id;
        assert(ids[order[i]] == id);
        assert(ids.contains(id));
    }
    assert forall|i: int, j: int| #![trigger members[i], members[j]]
        0 <= i < j < members.len() implies members[i] != members[j]
        && tr.placements@[members[i]].offset <= tr.placements@[members[j]].offset by {
        assert(order[i] != order[j]);
        assert(is_ordered(keys, order));
        assert(keys[order[i]].0 == tr.placements@[ids[order[i]]].offset);
        assert(keys[order[j]].0 == tr.placements@[ids[order[j]]].offset);
        assert(ids[order[i]] != ids[order[j]]);
    }
}

// ---------------------------------------------------------------------------
// Spans
// ---------------------------------------------------------------------------

/// Whether a pass touches a resource.
pub open spec fn touches_it(uses: Seq<PassDecl>, p: int, id: u32) -> bool {
    0 <= p < uses.len() && (names(uses[p].0@, id) || names(uses[p].1@, id))
}

proof fn lemma_span(uses: Seq<PassDecl>, id: u32, n: nat)
    requires
        n <= uses.len() <= usize::MAX,
    ensures
        match span_of(uses, id, n) {
            Some((first, last)) => {
                &&& first <= last < n
                &&& touches_it(uses, first as int, id)
                &&& touches_it(uses, last as int, id)
                &&& forall|p: int|
                    0 <= p < n && #[trigger] touches_it(uses, p, id) ==> first <= p <= last
            },
            None => forall|p: int| 0 <= p < n ==> !#[trigger] touches_it(uses, p, id),
        },
    decreases n,
{
    if n > 0 {
        lemma_span(uses, id, (n - 1) as nat);
        assert(touches_it(uses, n - 1, id) <==> names(uses[n - 1].0@, id) || names(
            uses[n - 1].1@,
            id,
        ));
    }
}

/// A dump says of a resource from which pass to which it is touched, and says nothing of one
/// that no pass touches.
pub proof fn law_spans_reach_from_the_first_use_to_the_last<'a>(
    dump: GraphDump<'a>,
    spans: HashMap<u32, (usize, usize)>,
    id: u32,
    p: int,
)
    requires
        dump.pass_uses@.len() <= usize::MAX,
        call_ensures(GraphDump::lifetimes, (&dump,), spans),
    ensures
        touches_it(dump.pass_uses@, p, id) ==> spans@.contains_key(id) && spans@[id].0 <= p
            <= spans@[id].1,
        spans@.contains_key(id) ==> touches_it(dump.pass_uses@, spans@[id].0 as int, id)
            && touches_it(dump.pass_uses@, spans@[id].1 as int, id),
{
    lemma_span(dump.pass_uses@, id, dump.pass_uses@.len());
    assert(spans@.contains_key(id) <==> span_of(dump.pass_uses@, id, dump.pass_uses@.len())
        is Some);
}

// ---------------------------------------------------------------------------
// Texts
// ---------------------------------------------------------------------------

/// Whether a text holds another at a place.
pub open spec fn stands_at(text: Seq<char>, part: Seq<char>, i: int) -> bool {
    0 <= i <= text.len() - part.len() && text.subrange(i, i + part.len()) == part
}

/// Whether a text holds another.
pub open spec fn mentions(text: Seq<char>, part: Seq<char>) -> bool {
    exists|i: int| #[trigger] stands_at(text, part, i)
}

proof fn lemma_mentions_around(
    before: Seq<char>,
    text: Seq<char>,
    after: Seq<char>,
    part: Seq<char>,
)
    requires
        mentions(text, part),
    ensures
        mentions(before + text + after, part),
{
    let i = choose|i: int| #[trigger] stands_at(text, part, i);
    let all = before + text + after;
    let k = before.len() + i;
    assert(all.subrange(k, k + part.len()) =~= part) by {
        assert forall|j: int| 0 <= j < part.len() implies all.subrange(k, k + part.len())[j]
            == part[j] by {
            assert(text.subrange(i, i + part.len())[j] == part[j]);
            assert(all[k + j] == text[i + j]);
        }
    }
    assert(stands_at(all, part, k));
}

/// The first `n` pieces of a text, one behind the other.
spec fn joined(pieces: Seq<Seq<char>>, n: nat) -> Seq<char>
    decreases n,
{
    if n == 0 {
        Seq::empty()
    } else {
        joined(pieces, (n - 1) as nat) + pieces[n - 1]
    }
}

proof fn lemma_mentions_piece(pieces: Seq<Seq<char>>, n: nat, k: int, part: Seq<char>)
    requires
        0 <= k < n,
        mentions(pieces[k], part),
    ensures
        mentions(joined(pieces, n), part),
    decreases n,
{
    let few = joined(pieces, (n - 1) as nat);
    let last = pieces[n - 1];
    if k == n - 1 {
        lemma_mentions_around(few, last, Seq::empty(), part);
        assert(few + last + Seq::<char>::empty() =~= joined(pieces, n));
    } else {
        lemma_mentions_piece(pieces, (n - 1) as nat, k, part);
        lemma_mentions_around(Seq::empty(), few, last, part);
        assert(Seq::<char>::empty() + few + last =~= joined(pieces, n));
    }
}

proof fn lemma_mentions_itself(before: Seq<char>, part: Seq<char>, after: Seq<char>)
    ensures
        mentions(before + part + after, part),
{
    assert(part.subrange(0, part.len() as int) =~= part);
    assert(stands_at(part, part, 0));
    lemma_mentions_around(before, part, after, part);
}

proof fn lemma_use_told<'a>(dump: GraphDump<'a>, pass: int, i: int, n: nat)
    requires
        0 <= i < n,
    ensures
        mentions(dump.text_uses(pass, n), dump.use_text(pass, i)),
    decreases n,
{
    let few = dump.text_uses(pass, (n - 1) as nat);
    let line = "      "@ + dump.use_text(pass, n - 1) + "\n"@;
    let all = dump.text_uses(pass, n);
    if i == n - 1 {
        lemma_mentions_itself("      "@, dump.use_text(pass, i), "\n"@);
        lemma_mentions_around(few, line, Seq::empty(), dump.use_text(pass, i));
        assert(few + line + Seq::<char>::empty() =~= all);
    } else {
        lemma_use_told(dump, pass, i, (n - 1) as nat);
        lemma_mentions_around(Seq::empty(), few, line, dump.use_text(pass, i));
        assert(Seq::<char>::empty() + few + line =~= all);
    }
}

proof fn lemma_pass_told<'a>(dump: GraphDump<'a>, pass: int, i: int, n: nat)
    requires
        0 <= pass < n,
        0 <= i < dump.use_count(pass),
    ensures
        mentions(dump.text_passes(n), dump.pass_names@[pass]@),
        mentions(dump.text_passes(n), dump.use_text(pass, i)),
    decreases n,
{
    let few = dump.text_passes((n - 1) as nat);
    let all = dump.text_passes(n);
    let uses = dump.text_uses(n - 1, dump.use_count(n - 1) as nat);
    let head = "  pass "@ + decimal((n - 1) as nat) + ": "@;
    let name = dump.pass_names@[n - 1]@;
    let entry = head + name + "\n"@ + uses;
    assert(all =~= few + entry + Seq::<char>::empty());
    if pass == n - 1 {
        lemma_mentions_itself(head, name, "\n"@ + uses);
        assert(head + name + ("\n"@ + uses) =~= entry);
        lemma_mentions_around(few, entry, Seq::empty(), name);
        lemma_use_told(dump, pass, i, dump.use_count(pass) as nat);
        lemma_mentions_around(head + name + "\n"@, uses, Seq::empty(), dump.use_text(pass, i));
        assert(head + name + "\n"@ + uses + Seq::<char>::empty() =~= entry);
        lemma_mentions_around(few, entry, Seq::empty(), dump.use_text(pass, i));
    } else {
        lemma_pass_told(dump, pass, i, (n - 1) as nat);
        lemma_mentions_around(Seq::empty(), few, entry, dump.pass_names@[pass]@);
        lemma_mentions_around(Seq::empty(), few, entry, dump.use_text(pass, i));
        assert(Seq::<char>::empty() + few + entry =~= all);
    }
}

proof fn lemma_row_told<'a>(dump: GraphDump<'a>, r: int, n: nat)
    requires
        0 <= r < n,
    ensures
        mentions(dump.text_rows(n), dump.text_row(dump.resources@[r])),
    decreases n,
{
    let few = dump.text_rows((n - 1) as nat);
    let row = dump.text_row(dump.resources@[n - 1]);
    let part = dump.text_row(dump.resources@[r]);
    let all = dump.text_rows(n);
    if r == n - 1 {
        lemma_mentions_itself(few, row, Seq::empty());
        assert(few + row + Seq::<char>::empty() =~= all);
    } else {
        lemma_row_told(dump, r, (n - 1) as nat);
        lemma_mentions_around(Seq::empty(), few, row, part);
        assert(Seq::<char>::empty() + few + row =~= all);
    }
}

proof fn lemma_barrier_told<'a>(dump: GraphDump<'a>, barriers: Seq<ResourceBarrier>, k: int, n: nat)
    requires
        0 <= k < n,
    ensures
        mentions(dump.text_barriers(barriers, n), dump.barrier_text(barriers[k])),
    decreases n,
{
    let few = dump.text_barriers(barriers, (n - 1) as nat);
    let line = "      "@ + dump.barrier_text(barriers[n - 1]) + "\n"@;
    let part = dump.barrier_text(barriers[k]);
    let all = dump.text_barriers(barriers, n);
    if k == n - 1 {
        lemma_mentions_itself("      "@, part, "\n"@);
        lemma_mentions_around(few, line, Seq::empty(), part);
        assert(few + line + Seq::<char>::empty() =~= all);
    } else {
        lemma_barrier_told(dump, barriers, k, (n - 1) as nat);
        lemma_mentions_around(Seq::empty(), few, line, part);
        assert(Seq::<char>::empty() + few + line =~= all);
    }
}

proof fn lemma_point_told<'a>(dump: GraphDump<'a>, e: int, k: int, n: nat)
    requires
        0 <= e < n,
        0 <= k < dump.barriers_at@[e].1@.len(),
    ensures
        mentions(dump.text_points(n), dump.barrier_text(dump.barriers_at@[e].1@[k])),
    decreases n,
{
    let few = dump.text_points((n - 1) as nat);
    let (pass, barriers) = dump.barriers_at@[n - 1];
    let head = "  before pass "@ + decimal(pass as nat) + ":\n"@;
    let lines = dump.text_barriers(barriers@, barriers@.len());
    let part = dump.barrier_text(dump.barriers_at@[e].1@[k]);
    let all = dump.text_points(n);
    if e == n - 1 {
        lemma_barrier_told(dump, barriers@, k, barriers@.len());
        lemma_mentions_around(few + head, lines, Seq::empty(), part);
        assert(few + head + lines + Seq::<char>::empty() =~= all);
    } else {
        lemma_point_told(dump, e, k, (n - 1) as nat);
        lemma_mentions_around(Seq::empty(), few, head + lines, part);
        assert(Seq::<char>::empty() + few + (head + lines) =~= all);
    }
}

/// A dump leaves nothing out: it names every pass, tells each of its uses, has a row for
/// every resource, tells every barrier, and ends with the report that it was given.
pub proof fn law_dumps_leave_nothing_out<'a>(
    dump: GraphDump<'a>,
    text: String,
    pass: int,
    i: int,
    r: int,
    e: int,
    k: int,
)
    requires
        call_ensures(GraphDump::to_text, (&dump,), text),
        0 <= pass < dump.pass_names@.len(),
        0 <= i < dump.use_count(pass),
        0 <= r < dump.resources@.len(),
        0 <= e < dump.barriers_at@.len(),
        0 <= k < dump.barriers_at@[e].1@.len(),
    ensures
        mentions(text@, dump.pass_names@[pass]@),
        mentions(text@, dump.use_text(pass, i)),
        mentions(text@, dump.text_row(dump.resources@[r])),
        mentions(text@, dump.barrier_text(dump.barriers_at@[e].1@[k])),
        mentions(text@, dump.aliasing_report@),
        mentions(text@, decimal(dump.frame as nat)),
{
    let pieces = seq![
        "=== Render graph frame "@,
        decimal(dump.frame as nat),
        " ===\n\nPasses (res<id> = transient, ext<id> = external/imported):\n"@,
        dump.text_passes(dump.pass_names@.len()),
        "\nResources (id | kind | detail | live passes | bucket@offset | cross-frame access):\n"@,
        dump.text_rows(dump.resources@.len()),
        EDGES_HEAD@,
        dump.text_edges(dump.edges@.len()),
        "\nBarriers ("@,
        decimal(barrier_count(dump.barriers_at@, dump.barriers_at@.len())),
        " transitions at "@,
        decimal(dump.barriers_at@.len()),
        " point(s), in schedule order):\n"@,
        ""@,
        dump.text_points(dump.barriers_at@.len()),
        "\n"@,
        dump.aliasing_report@,
        "\n"@,
    ];
    lemma_whole(dump, pieces);
    lemma_pass_told(dump, pass, i, dump.pass_names@.len());
    lemma_row_told(dump, r, dump.resources@.len());
    lemma_point_told(dump, e, k, dump.barriers_at@.len());
    lemma_mentions_piece(pieces, 18, 3, dump.pass_names@[pass]@);
    lemma_mentions_piece(pieces, 18, 3, dump.use_text(pass, i));
    lemma_mentions_piece(pieces, 18, 5, dump.text_row(dump.resources@[r]));
    lemma_mentions_piece(pieces, 18, 14, dump.barrier_text(dump.barriers_at@[e].1@[k]));
    lemma_mentions_own(dump.aliasing_report@);
    lemma_mentions_piece(pieces, 18, 16, dump.aliasing_report@);
    lemma_mentions_own(decimal(dump.frame as nat));
    lemma_mentions_piece(pieces, 18, 1, decimal(dump.frame as nat));
}

proof fn lemma_mentions_own(part: Seq<char>)
    ensures
        mentions(part, part),
{
    assert(part.subrange(0, part.len() as int) =~= part);
    assert(stands_at(part, part, 0));
}

proof fn lemma_whole<'a>(dump: GraphDump<'a>, pieces: Seq<Seq<char>>)
    requires
        dump.barriers_at@.len() > 0,
        pieces.len() == 18,
        pieces[0] == "=== Render graph frame "@,
        pieces[1] == decimal(dump.frame as nat),
        pieces[2] == " ===\n\nPasses (res<id> = transient, ext<id> = external/imported):\n"@,
        pieces[3] == dump.text_passes(dump.pass_names@.len()),
        pieces[4]
            == "\nResources (id | kind | detail | live passes | bucket@offset | cross-frame access):\n"@,
        pieces[5] == dump.text_rows(dump.resources@.len()),
        pieces[6] == EDGES_HEAD@,
        pieces[7] == dump.text_edges(dump.edges@.len()),
        pieces[8] == "\nBarriers ("@,
        pieces[9] == decimal(barrier_count(dump.barriers_at@, dump.barriers_at@.len())),
        pieces[10] == " transitions at "@,
        pieces[11] == decimal(dump.barriers_at@.len()),
        pieces[12] == " point(s), in schedule order):\n"@,
        pieces[13] == ""@,
        pieces[14] == dump.text_points(dump.barriers_at@.len()),
        pieces[15] == "\n"@,
        pieces[16] == dump.aliasing_report@,
        pieces[17] == "\n"@,
    ensures
        dump.whole_text() == joined(pieces, 18),
{
    assert(joined(pieces, 0) =~= Seq::empty());
    assert(joined(pieces, 1) =~= pieces[0]);
    reveal_with_fuel(joined, 19);
}

} // verus!
