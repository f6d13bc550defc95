//! Small things: reading switches from text, walking an image, moving data to another
//! alignment.

use vstd::prelude::*;

verus! {

// ---------------------------------------------------------------------------
// Words
// ---------------------------------------------------------------------------

/// Unicode's white space.
pub open spec fn is_white(c: char) -> bool {
    ||| '\u{9}' <= c <= '\u{d}'
    ||| c == '\u{20}'
    ||| c == '\u{85}'
    ||| c == '\u{a0}'
    ||| c == '\u{1680}'
    ||| '\u{2000}' <= c <= '\u{200a}'
    ||| c == '\u{2028}'
    ||| c == '\u{2029}'
    ||| c == '\u{202f}'
    ||| c == '\u{205f}'
    ||| c == '\u{3000}'
}

fn is_white_space(c: char) -> (r: bool)
    ensures
        r == is_white(c),
{
    ('\u{9}' <= c && c <= '\u{d}') || c == '\u{20}' || c == '\u{85}' || c == '\u{a0}' || c
        == '\u{1680}' || ('\u{2000}' <= c && c <= '\u{200a}') || c == '\u{2028}' || c == '\u{2029}'
        || c == '\u{202f}' || c == '\u{205f}' || c == '\u{3000}'
}

/// How many characters of white space a text begins with, from `from` on.
pub open spec fn white_from(text: Seq<char>, from: int) -> int
    decreases text.len() - from,
{
    if 0 <= from < text.len() && is_white(text[from]) {
        white_from(text, from + 1)
    } else {
        from
    }
}

/// Where a text ends before the white space behind it, from `to` back.
pub open spec fn white_back(text: Seq<char>, to: int) -> int
    decreases to,
{
    if 0 < to <= text.len() && is_white(text[to - 1]) {
        white_back(text, to - 1)
    } else {
        to
    }
}

/// A text without the white space around it.
pub open spec fn trimmed(text: Seq<char>) -> Seq<char> {
    let from = white_from(text, 0);
    let to = white_back(text, text.len() as int);
    if from <= to {
        text.subrange(from, to)
    } else {
        Seq::empty()
    }
}

/// An ASCII letter in lower case; another character as it is.
pub open spec fn lower(c: char) -> char {
    if 'A' <= c <= 'Z' {
        ((c as u32) + 32) as char
    } else {
        c
    }
}

/// A text with its ASCII letters in lower case.
pub open spec fn lowered(text: Seq<char>) -> Seq<char> {
    Seq::new(text.len(), |i: int| lower(text[i]))
}

/// The word that a switch is set to: without white space around it, in lower case.
pub open spec fn word_of(raw: Seq<char>) -> Seq<char> {
    lowered(trimmed(raw))
}

/// Is `a` the letter `b`, whose case is lower?
fn same_letter(a: char, b: char) -> (r: bool)
    ensures
        r == (lower(a) == b),
{
    if 'A' <= a && a <= 'Z' {
        (a as u32) + 32 == b as u32
    } else {
        a == b
    }
}

/// Where the word in a text begins and ends.
fn word_bounds(raw: &str) -> (bounds: (usize, usize))
    ensures
        bounds.0 <= bounds.1 <= raw@.len(),
        trimmed(raw@) == raw@.subrange(bounds.0 as int, bounds.1 as int),
{
    let n: usize = raw.unicode_len();
    let mut from: usize = 0;
    while from < n && is_white_space(raw.get_char(from))
        invariant
            n == raw@.len(),
            from <= n,
            white_from(raw@, 0) == white_from(raw@, from as int),
        decreases n - from,
    {
        from = from + 1;
    }
    let mut to: usize = n;
    while to > 0 && is_white_space(raw.get_char(to - 1))
        invariant
            n == raw@.len(),
            to <= n,
            white_back(raw@, n as int) == white_back(raw@, to as int),
        decreases to,
    {
        to = to - 1;
    }
    if from <= to {
        (from, to)
    } else {
        proof {
            assert(raw@.subrange(0, 0) =~= Seq::empty());
        }
        (0, 0)
    }
}

/// Is the word in a text this one?
pub fn word_is(raw: &str, word: &str) -> (r: bool)
    ensures
        r == (word_of(raw@) == word@),
{
    let (from, to) = word_bounds(raw);
    let n: usize = word.unicode_len();
    if to - from != n {
        return false;
    }
    let mut i: usize = 0;
    while i < n
        invariant
            n == word@.len(),
            from <= to <= raw@.len(),
            to - from == n,
            trimmed(raw@) == raw@.subrange(from as int, to as int),
            i <= n,
            forall|k: int| 0 <= k < i ==> lower(raw@[from + k]) == word@[k],
        decreases n - i,
    {
        if !same_letter(raw.get_char(from + i), word.get_char(i)) {
            proof {
                assert(word_of(raw@)[i as int] == lower(raw@[from + i]));
            }
            return false;
        }
        i = i + 1;
    }
    proof {
        assert(word_of(raw@) =~= word@);
    }
    true
}

// ---------------------------------------------------------------------------
// Switches
// ---------------------------------------------------------------------------

/// Whether a word switches something on.
pub open spec fn is_on(word: Seq<char>) -> bool {
    word == "1"@ || word == "true"@ || word == "on"@ || word == "yes"@
}

/// Whether a word switches something off.
pub open spec fn is_off(word: Seq<char>) -> bool {
    word == "0"@ || word == "false"@ || word == "off"@ || word == "no"@
}

/// What a switch is set to: on, off, or neither, where the text is none of the words for
/// either. The case does not matter, nor does white space around the word.
pub fn parse_bool(raw: &str) -> (r: Option<bool>)
    ensures
        r == (if is_on(word_of(raw@)) {
            Some(true)
        } else if is_off(word_of(raw@)) {
            Some(false)
        } else {
            None
        }),
{
    if word_is(raw, "1") || word_is(raw, "true") || word_is(raw, "on") || word_is(raw, "yes") {
        Some(true)
    } else if word_is(raw, "0") || word_is(raw, "false") || word_is(raw, "off") || word_is(raw, "no") {
        Some(false)
    } else {
        None
    }
}

/// Where the dumps of a graph go.
#[derive(Clone, Debug)]
pub enum DumpTarget {
    /// Nowhere.
    Off,
    /// Into the default directory.
    DefaultDir,
    /// Into this directory.
    Dir(String),
}

/// Where dumps go: nowhere where the text is empty or switches them off, into the default
/// directory where it switches them on, and otherwise into the directory it names, as it
/// stands.
pub fn parse_dump_target(raw: &str) -> (target: DumpTarget)
    ensures
        match target {
            DumpTarget::Off => word_of(raw@) == ""@ || is_off(word_of(raw@)),
            DumpTarget::DefaultDir => is_on(word_of(raw@)),
            DumpTarget::Dir(path) => path@ == raw@ && word_of(raw@) != ""@ && !is_off(word_of(raw@))
                && !is_on(word_of(raw@)),
        },
{
    if word_is(raw, "") {
        return DumpTarget::Off;
    }
    match parse_bool(raw) {
        Some(true) => DumpTarget::DefaultDir,
        Some(false) => DumpTarget::Off,
        None => DumpTarget::Dir(raw.to_owned()),
    }
}

/// No word switches both on and off, and the empty one does neither.
pub proof fn law_words_are_told_apart(word: Seq<char>)
    ensures
        !(is_on(word) && is_off(word)),
        !is_on(""@),
        !is_off(""@),
{
    reveal_strlit("1");
    reveal_strlit("true");
    reveal_strlit("on");
    reveal_strlit("yes");
    reveal_strlit("0");
    reveal_strlit("false");
    reveal_strlit("off");
    reveal_strlit("no");
    reveal_strlit("");
    assert(""@.len() == 0);
    assert("1"@.len() == 1 && "true"@.len() == 4 && "on"@.len() == 2 && "yes"@.len() == 3);
    assert("0"@.len() == 1 && "false"@.len() == 5 && "off"@.len() == 3 && "no"@.len() == 2);
    assert("1"@[0] == '1');
    assert("0"@[0] == '0');
    assert("true"@[0] == 't');
    assert("false"@[0] == 'f');
    assert("on"@[1] == 'n');
    assert("on"@[0] == 'o');
    assert("no"@[0] == 'n');
    assert("off"@[0] == 'o');
    assert("yes"@[0] == 'y');
}

// ---------------------------------------------------------------------------
// Images and bytes
// ---------------------------------------------------------------------------

/// The points of an image, row by row.
pub fn iterate_image_extent(w: u32, h: u32) -> (points: Vec<(u32, u32)>)
    requires
        w * h <= u32::MAX,
    ensures
        points@ == Seq::new(
            (w * h) as nat,
            |i: int| ((i % (w as int)) as u32, (i / (w as int)) as u32),
        ),
{
    let n: u32 = w * h;
    let mut points: Vec<(u32, u32)> = Vec::new();
    let mut i: u32 = 0;
    while i < n
        invariant
            i <= n,
            n == w * h,
            n > 0 ==> w > 0,
            points@ == Seq::new(
                i as nat,
                |k: int| ((k % (w as int)) as u32, (k / (w as int)) as u32),
            ),
        decreases n - i,
    {
        points.push((i % w, i / w));
        i = i + 1;
        proof {
            assert(points@ =~= Seq::new(
                i as nat,
                |k: int| ((k % (w as int)) as u32, (k / (w as int)) as u32),
            ));
        }
    }
    points
}

/// The extent of an image without depth.
pub fn tuple_to_extent3d(tuple: (u32, u32)) -> (extent: (u32, u32, u32))
    ensures
        extent == (tuple.0, tuple.1, 1u32),
{
    (tuple.0, tuple.1, 1)
}

/// One item at its new alignment: cut to it, or filled up with zeros.
pub open spec fn realigned_item(bytes: Seq<u8>, at: int, from: int, to: int) -> Seq<u8> {
    Seq::new(
        to as nat,
        |j: int|
            if j < from {
                bytes[at + j]
            } else {
                0u8
            },
    )
}

/// The first `n` items at their new alignment.
pub open spec fn realigned(bytes: Seq<u8>, from: int, to: int, n: nat) -> Seq<u8>
    decreases n,
{
    if n == 0 {
        Seq::empty()
    } else {
        realigned(bytes, from, to, (n - 1) as nat) + realigned_item(bytes, (n - 1) * from, from, to)
    }
}

/// Moves items from one alignment to another. Bytes behind the last whole item are left
/// out.
pub fn realign_data(
    bytes: &Vec<u8>,
    starting_alignment: usize,
    target_alignment: usize,
) -> (out: Vec<u8>)
    requires
        starting_alignment > 0,
    ensures
        out@ == realigned(
            bytes@,
            starting_alignment as int,
            target_alignment as int,
            (bytes@.len() / (starting_alignment as nat)),
        ),
{
    let len: usize = bytes.len();
    let count: usize = len / starting_alignment;
    let mut out: Vec<u8> = Vec::new();
    let mut i: usize = 0;
    while i < count
        invariant
            starting_alignment > 0,
            len == bytes@.len(),
            count == len / starting_alignment,
            i <= count,
            out@ == realigned(
                bytes@,
                starting_alignment as int,
                target_alignment as int,
                i as nat,
            ),
        decreases count - i,
    {
        proof {
            assert(i * starting_alignment + starting_alignment <= len) by (nonlinear_arith)
                requires
                    i < count,
                    count == len / starting_alignment,
                    starting_alignment > 0,
            ;
        }
        let at: usize = i * starting_alignment;
        let ghost before = out@;
        let mut j: usize = 0;
        proof {
            assert(out@ =~= before + realigned_item(
                bytes@,
                at as int,
                starting_alignment as int,
                0,
            ));
        }
        while j < target_alignment
            invariant
                j <= target_alignment,
                len == bytes@.len(),
                at + starting_alignment <= len,
                out@ == before + realigned_item(
                    bytes@,
                    at as int,
                    starting_alignment as int,
                    j as int,
                ),
            decreases target_alignment - j,
        {
            if j < starting_alignment {
                out.push(bytes[at + j]);
            } else {
                out.push(0);
            }
            j = j + 1;
            proof {
                assert(out@ =~= before + realigned_item(
                    bytes@,
                    at as int,
                    starting_alignment as int,
                    j as int,
                ));
            }
        }
        i = i + 1;
    }
    out
}

} // verus!
