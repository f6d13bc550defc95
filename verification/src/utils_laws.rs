//! What small things promise: switches, settings, errors, and data that is walked or moved.

use vstd::prelude::*;

use crate::bevy_integration::state::SunrayScene;
use crate::error::{with_backtrace, ErrorSource, SrError};
use crate::renderer::pad_if_empty;
use crate::settings::{DiagnosticTool, Settings, Switches};
use crate::shader_compiler::{slang_compiler_options, CompilerOptions};
use crate::utils::{
    is_white, iterate_image_extent, law_words_are_told_apart, lower, parse_bool, parse_dump_target,
    realign_data, realigned, trimmed, white_back, white_from, word_is, word_of, DumpTarget,
};

verus! {

// ---------------------------------------------------------------------------
// Switches
// ---------------------------------------------------------------------------

proof fn lemma_white_bounds(text: Seq<char>, from: int, to: int)
    requires
        0 <= from <= text.len(),
        0 <= to <= text.len(),
    ensures
        from <= white_from(text, from) <= text.len(),
        0 <= white_back(text, to) <= to,
        forall|i: int| from <= i < white_from(text, from) ==> is_white(#[trigger] text[i]),
        forall|i: int| white_back(text, to) <= i < to ==> is_white(#[trigger] text[i]),
        white_from(text, from) < text.len() ==> !is_white(text[white_from(text, from)]),
        white_back(text, to) > 0 ==> !is_white(text[white_back(text, to) - 1]),
    decreases text.len() - from, to,
{
    if from < text.len() && is_white(text[from]) {
        lemma_white_bounds(text, from + 1, to);
    } else if to > 0 && is_white(text[to - 1]) {
        lemma_white_bounds(text, from, to - 1);
    }
}

/// A word is found in a text exactly if it is all that is there besides white space around
/// it, whatever the case of its letters.
pub proof fn law_a_word_is_found_without_what_is_around_it(
    raw: &str,
    word: &str,
    found: bool,
    from: int,
    to: int,
)
    requires
        call_ensures(word_is, (raw, word), found),
        0 <= from < to <= raw@.len(),
        forall|i: int| 0 <= i < from ==> is_white(#[trigger] raw@[i]),
        forall|i: int| to <= i < raw@.len() ==> is_white(#[trigger] raw@[i]),
        !is_white(raw@[from]),
        !is_white(raw@[to - 1]),
    ensures
        found <==> word@.len() == to - from && forall|k: int|
            0 <= k < to - from ==> lower(#[trigger] raw@[from + k]) == word@[k],
{
    let text = raw@;
    lemma_white_bounds(text, 0, text.len() as int);
    let a = white_from(text, 0);
    let b = white_back(text, text.len() as int);
    assert(a == from) by {
        if a < from {
            assert(is_white(text[a]));
        }
        if a > from {
            assert(is_white(text[from]));
        }
    }
    assert(b == to) by {
        if b < to {
            assert(is_white(text[to - 1]));
        }
        if b > to {
            assert(is_white(text[b - 1]));
        }
    }
    assert(trimmed(text) == text.subrange(from, to));
    let w = word_of(text);
    assert(w.len() == to - from);
    if found {
        assert forall|k: int| 0 <= k < to - from implies lower(#[trigger] text[from + k])
            == word@[k] by {
            assert(w[k] == lower(text.subrange(from, to)[k]));
        }
    } else if word@.len() == to - from && (forall|k: int|
        0 <= k < to - from ==> lower(#[trigger] text[from + k]) == word@[k]) {
        assert forall|k: int| 0 <= k < w.len() implies w[k] == word@[k] by {
            assert(lower(text[from + k]) == word@[k]);
        }
        assert(w =~= word@);
    }
}

/// Letters are told apart by what they are and not by their case: a capital is what its
/// small letter is, and everything else is itself.
pub proof fn law_case_does_not_matter(c: char)
    ensures
        'A' <= c <= 'Z' ==> lower(c) as int == c as int + 32,
        !('A' <= c <= 'Z') ==> lower(c) == c,
        lower(lower(c)) == lower(c),
{
}

/// A switch that is on is one for dumps too, and so is one that is off. What is no switch
/// names a directory as it stands, unless there is nothing to name.
pub proof fn law_dumps_go_by_their_switch(raw: &str, switch: Option<bool>, target: DumpTarget)
    requires
        call_ensures(parse_bool, (raw,), switch),
        call_ensures(parse_dump_target, (raw,), target),
    ensures
        switch == Some(true) ==> target is DefaultDir,
        switch == Some(false) ==> target is Off,
        target is DefaultDir ==> switch == Some(true),
        target matches DumpTarget::Dir(path) ==> switch is None && path@ == raw@,
        switch is None && target is Off ==> word_of(raw@).len() == 0,
{
    law_words_are_told_apart(word_of(raw@));
    reveal_strlit("");
}

/// A switch that is set decides, and decides its own setting alone. Where none is set, a
/// debug build is watched by the validation layer and frames are serialized.
pub proof fn law_a_set_switch_decides(
    switches: Switches,
    debug_build: bool,
    settings: Settings,
)
    requires
        call_ensures(Settings::from_switches, (switches, debug_build), settings),
    ensures
        switches.validation_layer matches Some(on) ==> settings.with_validation_layer == on,
        switches.validation_layer is None ==> settings.with_validation_layer == debug_build,
        switches.gpuav matches Some(on) ==> settings.with_gpuav == on,
        switches.gpuav is None ==> !settings.with_gpuav,
        switches.serialize_frames matches Some(on) ==> settings.serialize_frames == on,
        switches.serialize_frames is None ==> settings.serialize_frames,
        switches.nsight == Some(true) ==> settings.diagnostics
            == DiagnosticTool::NvidiaNsightGraphics,
        switches.nsight != Some(true) && switches.nvidia_aftermath == Some(true)
            ==> settings.diagnostics == DiagnosticTool::NvidiaAftermath,
        switches.nsight != Some(true) && switches.nvidia_aftermath != Some(true)
            ==> settings.diagnostics == DiagnosticTool::Off,
{
}

/// With debug information or without, shaders are compiled alike.
pub proof fn law_debug_information_changes_nothing_else(
    with: CompilerOptions,
    without: CompilerOptions,
)
    requires
        call_ensures(slang_compiler_options, (true,), with),
        call_ensures(slang_compiler_options, (false,), without),
    ensures
        with.debug_information && !without.debug_information,
        with.maximal_optimization == without.maximal_optimization,
        with.row_major == without.row_major,
        with.descriptor_heap == without.descriptor_heap,
{
}

/// Asking for a scene, or for none, is seen by whoever compares generations; what is asked
/// for is what was asked for last.
pub proof fn law_every_request_is_seen(
    scene: &mut SunrayScene,
    cleared: &mut SunrayScene,
    path: String,
)
    requires
        old(scene).generation < u64::MAX,
        old(cleared).generation < u64::MAX,
        call_ensures(SunrayScene::request, (scene, path), ()),
        call_ensures(SunrayScene::clear, (cleared,), ()),
    ensures
        final(scene).generation > old(scene).generation,
        final(scene).gltf_path == Some(path),
        final(cleared).generation > old(cleared).generation,
        final(cleared).gltf_path is None,
{
}

// ---------------------------------------------------------------------------
// Errors
// ---------------------------------------------------------------------------

/// Whether a text begins with another.
pub open spec fn begins_with(text: Seq<char>, start: Seq<char>) -> bool {
    start.len() <= text.len() && text.take(start.len() as int) == start
}

/// An error keeps where it comes from and what was said of it, in front of whatever is
/// added.
pub proof fn law_errors_keep_what_was_said(source: ErrorSource, description: String, e: SrError)
    requires
        call_ensures(SrError::new, (source, description), e),
    ensures
        e.source == source,
        begins_with(e.description@, description@),
        e.description@.len() > description@.len(),
{
    let backtrace = choose|backtrace: Option<Seq<char>>|
        e.description@ == #[trigger] with_backtrace(description@, backtrace);
    reveal_strlit("\n");
    reveal_strlit(" (set RUST_BACKTRACE=1 to get a backtrace)");
    assert(e.description@.take(description@.len() as int) =~= description@);
}

/// An error in words is one of the crate's own and holds those words.
pub proof fn law_errors_in_words_hold_them(error: String, e: SrError)
    requires
        call_ensures(SrError::new_custom, (error,), e),
    ensures
        e.source matches ErrorSource::Custom(text) && text@ == error@,
        begins_with(e.description@, "UNEXPECTED CUSTOM ERROR: "@ + error@),
{
    let start = "UNEXPECTED CUSTOM ERROR: "@ + error@;
    let backtrace = choose|backtrace: Option<Seq<char>>|
        e.description@ == #[trigger] with_backtrace(start, backtrace);
    assert(e.description@.take(start.len() as int) =~= start);
}

// ---------------------------------------------------------------------------
// Data
// ---------------------------------------------------------------------------

/// A list that goes into a buffer is never empty, and one that is not stays as it is.
pub proof fn law_padded_lists_hold_something<T>(list: Vec<T>, dummy: T, padded: Vec<T>)
    requires
        call_ensures(pad_if_empty::<T>, (list, dummy), padded),
    ensures
        padded@.len() > 0,
        list@.len() > 0 ==> padded@ == list@,
        list@.len() == 0 ==> padded@.len() == 1 && padded@[0] == dummy,
{
}

/// Walking an image comes by every point of it once, row by row: a point stands behind the
/// rows above it and the points to its left.
pub proof fn law_every_point_is_walked(w: u32, h: u32, points: Vec<(u32, u32)>, x: int, y: int)
    requires
        w * h <= u32::MAX,
        call_ensures(iterate_image_extent, (w, h), points),
        0 <= x < w,
        0 <= y < h,
    ensures
        points@.len() == w * h,
        0 <= y * w + x < points@.len(),
        points@[y * w + x].0 == x,
        points@[y * w + x].1 == y,
{
    let i = y * w + x;
    assert(0 <= y * w && y * w + w <= w * h) by (nonlinear_arith)
        requires
            0 <= y < h,
            0 < w,
    ;
    vstd::arithmetic::div_mod::lemma_fundamental_div_mod_converse(i, w as int, y, x);
}

proof fn lemma_realigned(bytes: Seq<u8>, from: int, to: int, n: nat, i: int, j: int)
    requires
        from > 0,
        to >= 0,
        0 <= i < n,
        0 <= j < to,
    ensures
        realigned(bytes, from, to, n).len() == n * to,
        0 <= i * to + j < n * to,
        realigned(bytes, from, to, n)[i * to + j] == if j < from {
            bytes[i * from + j]
        } else {
            0u8
        },
    decreases n,
{
    lemma_realigned_len(bytes, from, to, n);
    lemma_realigned_len(bytes, from, to, (n - 1) as nat);
    assert(i * to + j < n * to && 0 <= i * to) by (nonlinear_arith)
        requires
            0 <= i < n,
            0 <= j < to,
    ;
    if i < n - 1 {
        lemma_realigned(bytes, from, to, (n - 1) as nat, i, j);
    } else {
        assert(i * to == (n - 1) * to);
        assert(i * from == (n - 1) * from);
    }
}

proof fn lemma_realigned_len(bytes: Seq<u8>, from: int, to: int, n: nat)
    requires
        to >= 0,
    ensures
        realigned(bytes, from, to, n).len() == n * to,
    decreases n,
{
    if n > 0 {
        lemma_realigned_len(bytes, from, to, (n - 1) as nat);
        assert((n - 1) * to + to == n * to) by (nonlinear_arith);
    } else {
        assert(n * to == 0) by (nonlinear_arith)
            requires
                n == 0,
        ;
    }
}

/// Data that is moved to another alignment keeps its items: each begins at a multiple of the
/// new alignment with the bytes it had, as far as there is room, and zeros behind them.
pub proof fn law_realigned_items_keep_their_bytes(
    bytes: Vec<u8>,
    from: usize,
    to: usize,
    out: Vec<u8>,
    i: int,
    j: int,
)
    requires
        from > 0,
        call_ensures(realign_data, (&bytes, from, to), out),
        0 <= i,
        (i + 1) * from <= bytes@.len(),
        0 <= j < to,
    ensures
        i * to + j < out@.len(),
        j < from ==> out@[i * to + j] == bytes@[i * from + j],
        j >= from ==> out@[i * to + j] == 0,
        out@.len() == (bytes@.len() as int / from as int) * to,
{
    let n = bytes@.len() / (from as nat);
    let len = bytes@.len() as int;
    let f = from as int;
    assert(i < len / f) by (nonlinear_arith)
        requires
            (i + 1) * f <= len,
            f > 0,
    ;
    lemma_realigned(bytes@, f, to as int, n, i, j);
}

} // verus!
