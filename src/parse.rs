use vstd::prelude::*;
use vstd::string::StringSliceAdditionalSpecFns;
use vstd::utf8::{decode_utf8, is_char_boundary, is_continuation_byte, valid_utf8};

use crate::decimal::cell_nanos;
use crate::error::Malformed;

verus! {

pub const NEWLINE: u8 = 10;
pub const RETURN: u8 = 13;
pub const COMMA: u8 = 44;
pub const QUOTE: u8 = 34;

/// A line ends before an optional carriage return.
pub open spec fn trim_return(b: Seq<u8>, s: int, e: int) -> int {
    if s < e && b[e - 1] == RETURN {
        e - 1
    } else {
        e
    }
}

/// The lines of `b[i..]` as byte spans `(start, end)`, where the current
/// line began at `start`. Lines end at `\n`; a final line without `\n` is
/// a line too, and nothing after a final `\n` is.
pub open spec fn lines_from(b: Seq<u8>, start: int, i: int) -> Seq<(int, int)>
    decreases b.len() - i,
{
    if i >= b.len() {
        if start < b.len() {
            seq![(start, trim_return(b, start, b.len() as int))]
        } else {
            seq![]
        }
    } else if b[i] == NEWLINE {
        seq![(start, trim_return(b, start, i))] + lines_from(b, i + 1, i + 1)
    } else {
        lines_from(b, start, i + 1)
    }
}

/// The lines of `b`.
pub open spec fn lines(b: Seq<u8>) -> Seq<(int, int)> {
    lines_from(b, 0, 0)
}

/// The comma-separated cells of `b[i..e]`, where the current cell began at
/// `start` and `quoted` tells whether an odd number of double quotes has
/// been seen in it. A comma between quotes does not end a cell.
pub open spec fn cells_from(b: Seq<u8>, e: int, start: int, i: int, quoted: bool) -> Seq<(int, int)>
    decreases e - i,
{
    if i >= e {
        seq![(start, e)]
    } else if b[i] == QUOTE {
        cells_from(b, e, start, i + 1, !quoted)
    } else if b[i] == COMMA && !quoted {
        seq![(start, i)] + cells_from(b, e, i + 1, i + 1, false)
    } else {
        cells_from(b, e, start, i + 1, quoted)
    }
}

/// The cells of the line `span`.
pub open spec fn cells(b: Seq<u8>, span: (int, int)) -> Seq<(int, int)> {
    cells_from(b, span.1, span.0, span.0, false)
}

/// The cell `span` is enclosed in double quotes.
pub open spec fn is_quoted(b: Seq<u8>, span: (int, int)) -> bool {
    span.1 - span.0 >= 2 && b[span.0] == QUOTE && b[span.1 - 1] == QUOTE
}

/// The cell `span` without its enclosing quotes, if any.
pub open spec fn cell_inner(b: Seq<u8>, span: (int, int)) -> (int, int) {
    if is_quoted(b, span) {
        (span.0 + 1, span.1 - 1)
    } else {
        span
    }
}

/// `b[i..z]` with each `""` read as one `"`.
pub open spec fn unescape_from(b: Seq<u8>, i: int, z: int) -> Seq<u8>
    decreases z - i,
{
    if i >= z {
        seq![]
    } else if b[i] == QUOTE && i + 1 < z && b[i + 1] == QUOTE {
        seq![QUOTE] + unescape_from(b, i + 2, z)
    } else {
        seq![b[i]] + unescape_from(b, i + 1, z)
    }
}

/// The bytes that the cell `span` holds: a quoted cell without its quotes
/// and with `""` read as `"`, any other cell as it stands.
pub open spec fn cell_bytes(b: Seq<u8>, span: (int, int)) -> Seq<u8> {
    if is_quoted(b, span) {
        unescape_from(b, span.0 + 1, span.1 - 1)
    } else {
        b.subrange(span.0, span.1)
    }
}

/// What is wrong with the line `span`, if anything. Every line has four
/// cells; a data line (not the header) has an elapsed time in its second.
pub open spec fn line_problem(b: Seq<u8>, span: (int, int), header: bool) -> Option<Malformed> {
    let c = cells(b, span);
    if c.len() != 4 {
        Some(Malformed::ColumnCount { found: c.len() as usize })
    } else if !header && cell_nanos(b, cell_inner(b, c[1]).0, cell_inner(b, c[1]).1) is None {
        Some(Malformed::InvalidElapsed)
    } else {
        None
    }
}

/// The text of the cell `span`.
pub open spec fn cell_text(b: Seq<u8>, span: (int, int)) -> Seq<char> {
    decode_utf8(cell_bytes(b, span))
}

/// A byte next to an ASCII byte, or at either end, starts a character.
pub proof fn lemma_boundary_near_ascii(b: Seq<u8>, p: int)
    requires
        valid_utf8(b),
        0 <= p <= b.len(),
        p == 0 || p == b.len() || b[p] < 128 || b[p - 1] < 128,
    ensures
        is_char_boundary(b, p),
{
    broadcast use vstd::utf8::group_utf8_lib;

    if p == 0 || p == b.len() {
    } else if b[p] < 128 {
        assert(!is_continuation_byte(b[p]));
    } else {
        assert(!is_continuation_byte(b[p - 1]));
        assert(is_char_boundary(b, p - 1));
        let t = b.subrange(p - 1, b.len() as int);
        assert(valid_utf8(t));
        assert(t[0] == b[p - 1]);
        reveal_with_fuel(is_char_boundary, 2);
        assert(is_char_boundary(t, 1));
        assert(t[1] == b[p]);
        assert(!is_continuation_byte(t[1]));
    }
}

/// The byte spans of the cells of the line `b[s..e]`.
pub fn split_cells(b: &[u8], s: usize, e: usize) -> (r: Vec<(usize, usize)>)
    requires
        s <= e <= b@.len(),
    ensures
        r@.len() == cells(b@, (s as int, e as int)).len(),
        forall|k: int|
            0 <= k < r@.len() ==> (r@[k].0 as int, r@[k].1 as int) == #[trigger] cells(
                b@,
                (s as int, e as int),
            )[k],
{
    let mut r: Vec<(usize, usize)> = Vec::new();
    let mut start = s;
    let mut i = s;
    let mut quoted = false;
    let ghost done: Seq<(int, int)> = seq![];
    while i < e
        invariant
            s <= start <= i <= e <= b@.len(),
            done + cells_from(b@, e as int, start as int, i as int, quoted) == cells(b@, (s as int, e as int)),
            r@.len() == done.len(),
            forall|k: int| 0 <= k < r@.len() ==> (r@[k].0 as int, r@[k].1 as int) == #[trigger] done[k],
        decreases e - i,
    {
        if b[i] == QUOTE {
            quoted = !quoted;
        } else if b[i] == COMMA && !quoted {
            r.push((start, i));
            proof {
                assert(done + cells_from(b@, e as int, start as int, i as int, quoted) =~= done.push(
                    (start as int, i as int),
                ) + cells_from(b@, e as int, i + 1, i + 1, false));
                done = done.push((start as int, i as int));
            }
            start = i + 1;
        }
        i += 1;
    }
    r.push((start, e));
    proof {
        assert(done + cells_from(b@, e as int, start as int, i as int, quoted) =~= done.push(
            (start as int, e as int),
        ));
        done = done.push((start as int, e as int));
    }
    r
}

/// The part `text[from..to]`, by byte offsets that start characters.
pub fn slice_text<'a>(text: &'a str, from: usize, to: usize) -> (r: &'a str)
    requires
        from <= to <= text.spec_bytes().len(),
        is_char_boundary(text.spec_bytes(), from as int),
        is_char_boundary(text.spec_bytes(), to as int),
    ensures
        r.spec_bytes() == text.spec_bytes().subrange(from as int, to as int),
{
    broadcast use vstd::utf8::group_utf8_lib;

    let ghost b = text.spec_bytes();
    let (_, rest) = text.split_at(from);
    proof {
        let t = rest.spec_bytes();
        let m = to - from;
        if to < b.len() {
            assert(!is_continuation_byte(b[to as int]));
            assert(t[m] == b[to as int]);
            assert(!is_continuation_byte(t[m]));
        }
        assert(is_char_boundary(t, m));
    }
    let (mid, _) = rest.split_at(to - from);
    assert(mid.spec_bytes() =~= b.subrange(from as int, to as int));
    mid
}

} // verus!
