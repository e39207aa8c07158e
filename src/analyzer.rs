use vstd::prelude::*;
use vstd::relations::{sorted_by, total_ordering};

use vstd::string::{StringExecFns, StringSliceAdditionalSpecFns};
use vstd::utf8::{decode_utf8, encode_utf8, valid_utf8};

use crate::error::{Error, Malformed};
use crate::decimal::{cell_nanos, parse_nanos};
use crate::parse::{
    cell_bytes, cell_inner, cell_text, cells, cells_from, line_problem, lines, lines_from,
    slice_text, split_cells, trim_return, unescape_from, COMMA, NEWLINE, QUOTE, RETURN,
};

verus! {

/// One execution of the operation.
pub struct Row {
    pub timestamp: String,
    /// How long the execution took, in nanoseconds.
    pub elapsed_nanos: i128,
    pub trace_id: String,
    pub trace_url: String,
}

/// A percentile written as the exact fraction `numerator / denominator`;
/// `Fraction { numerator: 99, denominator: 100 }` is the 99th percentile.
#[derive(Debug, Clone, Copy, PartialEq, Eq, Structural)]
pub struct Fraction {
    pub numerator: u64,
    pub denominator: u64,
}

impl Fraction {
    /// The fraction lies in `(0, 1]`.
    pub open spec fn valid(self) -> bool {
        0 < self.numerator <= self.denominator
    }

    pub fn is_valid(&self) -> (r: bool)
        ensures
            r == self.valid(),
    {
        0 < self.numerator && self.numerator <= self.denominator
    }
}

/// The rows of one log, read-only once loaded.
pub struct Analyzer {
    rows: Vec<Row>,
}

impl View for Analyzer {
    type V = Seq<Row>;

    closed spec fn view(&self) -> Seq<Row> {
        self.rows@
    }
}

/// Line `span` of `b` holds `row`: its texts and its elapsed time.
pub open spec fn row_of_line(b: Seq<u8>, span: (int, int), row: Row) -> bool {
    let c = cells(b, span);
    &&& row.timestamp@ == cell_text(b, c[0])
    &&& cell_nanos(b, cell_inner(b, c[1]).0, cell_inner(b, c[1]).1) == Some(row.elapsed_nanos)
    &&& row.trace_id@ == cell_text(b, c[2])
    &&& row.trace_url@ == cell_text(b, c[3])
}

/// Line `j` of the lines `spans` of `b` has no problem; line 0 is the
/// header.
pub open spec fn line_fine(b: Seq<u8>, spans: Seq<(int, int)>, j: int) -> bool {
    line_problem(b, spans[j], j == 0) is None
}

/// Line `k` of `b` is its first line with a problem.
pub open spec fn is_first_bad_line(b: Seq<u8>, k: int) -> bool {
    &&& 0 <= k < lines(b).len()
    &&& !line_fine(b, lines(b), k)
    &&& forall|j: int| 0 <= j < k ==> #[trigger] line_fine(b, lines(b), j)
}

/// Why the text `b` is no log: it has no line, or the first line with a
/// problem, counted from 1. `None` when it is a log.
pub open spec fn load_error(b: Seq<u8>) -> Option<Error> {
    if lines(b).len() == 0 {
        Some(Error::MalformedFile { line: 1, problem: Malformed::MissingHeader })
    } else if exists|k: int| is_first_bad_line(b, k) {
        let k = choose|k: int| is_first_bad_line(b, k);
        Some(Error::MalformedFile { line: (k + 1) as usize, problem: line_problem(b, lines(b)[k], k == 0)->Some_0 })
    } else {
        None
    }
}

/// The ascending order of elapsed times.
pub open spec fn ascending() -> spec_fn(i128, i128) -> bool {
    |a: i128, b: i128| a <= b
}

/// The elapsed times of the rows, in row order.
pub open spec fn elapsed_values(rows: Seq<Row>) -> Seq<i128> {
    rows.map_values(|r: Row| r.elapsed_nanos)
}

/// The elapsed times of the rows, in ascending order.
pub open spec fn sorted_elapsed(rows: Seq<Row>) -> Seq<i128> {
    elapsed_values(rows).sort_by(ascending())
}

/// Row `i` is the first row with the least elapsed time.
pub open spec fn is_fastest_row(rows: Seq<Row>, i: int) -> bool {
    &&& 0 <= i < rows.len()
    &&& forall|j: int| 0 <= j < rows.len() ==> rows[i].elapsed_nanos <= #[trigger] rows[j].elapsed_nanos
    &&& forall|j: int| 0 <= j < i ==> rows[i].elapsed_nanos < #[trigger] rows[j].elapsed_nanos
}

/// Row `i` is the first row with the greatest elapsed time.
pub open spec fn is_slowest_row(rows: Seq<Row>, i: int) -> bool {
    &&& 0 <= i < rows.len()
    &&& forall|j: int| 0 <= j < rows.len() ==> #[trigger] rows[j].elapsed_nanos <= rows[i].elapsed_nanos
    &&& forall|j: int| 0 <= j < i ==> #[trigger] rows[j].elapsed_nanos < rows[i].elapsed_nanos
}

/// Elapsed time and trace id of the fastest execution.
pub open spec fn fastest_result(rows: Seq<Row>) -> Result<(i128, Seq<char>), Error> {
    if rows.len() == 0 {
        Err(Error::EmptyDataset)
    } else {
        let i = choose|i: int| is_fastest_row(rows, i);
        Ok((rows[i].elapsed_nanos, rows[i].trace_id@))
    }
}

/// Elapsed time and trace id of the slowest execution.
pub open spec fn slowest_result(rows: Seq<Row>) -> Result<(i128, Seq<char>), Error> {
    if rows.len() == 0 {
        Err(Error::EmptyDataset)
    } else {
        let i = choose|i: int| is_slowest_row(rows, i);
        Ok((rows[i].elapsed_nanos, rows[i].trace_id@))
    }
}

/// The "higher" rank of fraction `p` among `n` sorted values:
/// `ceil(p * (n - 1))`, counted from 0.
pub open spec fn rank(p: Fraction, n: nat) -> int {
    (p.numerator * (n - 1) + p.denominator - 1) / (p.denominator as int)
}

/// The value at the "higher" rank of `p` among the sorted elapsed times.
pub open spec fn percentile_value(rows: Seq<Row>, p: Fraction) -> i128 {
    sorted_elapsed(rows)[rank(p, rows.len())]
}

pub open spec fn percentile_result(rows: Seq<Row>, p: Fraction) -> Result<i128, Error> {
    if rows.len() == 0 {
        Err(Error::EmptyDataset)
    } else if !p.valid() {
        Err(Error::InvalidPercentile { numerator: p.numerator, denominator: p.denominator })
    } else {
        Ok(percentile_value(rows, p))
    }
}

/// `ps[k]` is the first fraction of `ps` outside `(0, 1]`.
pub open spec fn is_first_invalid(ps: Seq<Fraction>, k: int) -> bool {
    &&& 0 <= k < ps.len()
    &&& !ps[k].valid()
    &&& forall|j: int| 0 <= j < k ==> (#[trigger] ps[j]).valid()
}

pub open spec fn percentiles_result(rows: Seq<Row>, ps: Seq<Fraction>) -> Result<Seq<i128>, Error> {
    if rows.len() == 0 {
        Err(Error::EmptyDataset)
    } else if exists|k: int| is_first_invalid(ps, k) {
        let k = choose|k: int| is_first_invalid(ps, k);
        Err(Error::InvalidPercentile { numerator: ps[k].numerator, denominator: ps[k].denominator })
    } else {
        Ok(Seq::new(ps.len(), |k: int| percentile_value(rows, ps[k])))
    }
}

/// Relies on `slice::sort_unstable`: afterwards the values are in ascending
/// order and are the same values as before.
#[verifier::external_body]
fn sort_ascending(v: &mut Vec<i128>)
    ensures
        sorted_by(final(v)@, ascending()),
        final(v)@.to_multiset() == old(v)@.to_multiset(),
{
    v.sort_unstable();
}

proof fn lemma_ascending_total()
    ensures
        total_ordering(ascending()),
{
}

/// A sorted copy of the values is the one sorted sequence of them.
proof fn lemma_sorted_is_sorted_elapsed(rows: Seq<Row>, s: Seq<i128>)
    requires
        sorted_by(s, ascending()),
        s.to_multiset() == elapsed_values(rows).to_multiset(),
    ensures
        s == sorted_elapsed(rows),
        s.len() == rows.len(),
{
    broadcast use vstd::seq_lib::group_to_multiset_ensures;

    lemma_ascending_total();
    elapsed_values(rows).lemma_sort_by_ensures(ascending());
    vstd::seq_lib::lemma_sorted_unique(s, sorted_elapsed(rows), ascending());
    assert(s.to_multiset().len() == s.len());
    assert(elapsed_values(rows).to_multiset().len() == elapsed_values(rows).len());
}

pub(crate) proof fn lemma_rank_bounds(p: Fraction, n: nat)
    requires
        p.valid(),
        n > 0,
    ensures
        0 <= rank(p, n) < n,
{
    let num = p.numerator as int;
    let den = p.denominator as int;
    let m = n - 1;
    assert(0 <= num * m <= den * m) by (nonlinear_arith)
        requires 0 < num <= den, m >= 0;
    assert((num * m + den - 1) / den <= m) by (nonlinear_arith)
        requires 0 <= num * m <= den * m, den > 0;
    assert((num * m + den - 1) / den >= 0) by (nonlinear_arith)
        requires 0 <= num * m, den > 0;
}

/// Computes `ceil(p * (n - 1))` without overflow.
fn rank_of(p: Fraction, n: usize) -> (r: usize)
    requires
        p.valid(),
        n > 0,
    ensures
        r as int == rank(p, n as nat),
        r < n,
{
    proof {
        lemma_rank_bounds(p, n as nat);
    }
    let num = p.numerator as u128;
    let den = p.denominator as u128;
    let m = (n - 1) as u128;
    assert(num * m <= 0xffff_ffff_ffff_ffffu128 * 0xffff_ffff_ffff_ffffu128) by (nonlinear_arith)
        requires num <= 0xffff_ffff_ffff_ffffu128, m <= 0xffff_ffff_ffff_ffffu128;
    let top: u128 = num * m + (den - 1);
    (top / den) as usize
}

/// The cell `c` of the line `b[start..e]` lies between commas or the ends.
pub open spec fn cell_delimited(b: Seq<u8>, e: int, start: int, c: (int, int)) -> bool {
    &&& start <= c.0 <= c.1 <= e
    &&& (c.0 == start || b[c.0 - 1] == COMMA)
    &&& (c.1 == e || b[c.1] == COMMA)
}

proof fn lemma_cells_delimited(b: Seq<u8>, e: int, start: int, i: int, quoted: bool)
    requires
        start <= i <= e,
    ensures
        forall|k: int|
            0 <= k < cells_from(b, e, start, i, quoted).len() ==> cell_delimited(
                b,
                e,
                start,
                #[trigger] cells_from(b, e, start, i, quoted)[k],
            ),
    decreases e - i,
{
    let all = cells_from(b, e, start, i, quoted);
    if i < e {
        if b[i] == QUOTE {
            lemma_cells_delimited(b, e, start, i + 1, !quoted);
            assert(all == cells_from(b, e, start, i + 1, !quoted));
        } else if b[i] == COMMA && !quoted {
            lemma_cells_delimited(b, e, i + 1, i + 1, false);
            let rest = cells_from(b, e, i + 1, i + 1, false);
            assert(all == seq![(start, i)] + rest);
            assert forall|k: int| 0 <= k < all.len() implies cell_delimited(b, e, start, #[trigger] all[k]) by {
                if k > 0 {
                    assert(all[k] == rest[k - 1]);
                    assert(cell_delimited(b, e, i + 1, rest[k - 1]));
                }
            }
        } else {
            lemma_cells_delimited(b, e, start, i + 1, quoted);
            assert(all == cells_from(b, e, start, i + 1, quoted));
        }
    } else {
        assert(all == seq![(start, e)]);
    }
}

/// UTF-8 encodes a joined text piece by piece.
proof fn lemma_encode_concat(x: Seq<char>, y: Seq<char>)
    ensures
        encode_utf8(x + y) == encode_utf8(x) + encode_utf8(y),
    decreases x.len(),
{
    if x.len() == 0 {
        assert(x + y =~= y);
        assert(encode_utf8(x) + encode_utf8(y) =~= encode_utf8(y));
    } else {
        lemma_encode_concat(x.drop_first(), y);
        assert((x + y).drop_first() =~= x.drop_first() + y);
        assert((x + y)[0] == x[0]);
        assert(encode_utf8(x + y) =~= encode_utf8(x) + encode_utf8(y));
    }
}

/// The text between the quotes at `a - 1` and `z`, with each `""` read as
/// one `"`.
fn unescape_text(text: &str, a: usize, z: usize) -> (r: String)
    requires
        1 <= a <= z < text.spec_bytes().len(),
        text.spec_bytes()[a - 1] == QUOTE,
        text.spec_bytes()[z as int] == QUOTE,
    ensures
        encode_utf8(r@) == unescape_from(text.spec_bytes(), a as int, z as int),
{
    broadcast use vstd::utf8::group_utf8_lib;

    let b = text.as_bytes();
    assert(valid_utf8(encode_utf8(text@)));
    let mut out = String::new();
    let mut seg = a;
    let mut i = a;
    while i < z
        invariant
            a <= seg <= i <= z < b@.len(),
            b@ == text.spec_bytes(),
            valid_utf8(b@),
            b@[a - 1] == QUOTE,
            b@[z as int] == QUOTE,
            b@[seg - 1] == QUOTE,
            encode_utf8(out@) + b@.subrange(seg as int, i as int) + unescape_from(b@, i as int, z as int)
                == unescape_from(b@, a as int, z as int),
        decreases z - i,
    {
        if b[i] == QUOTE && i + 1 < z && b[i + 1] == QUOTE {
            proof {
                crate::parse::lemma_boundary_near_ascii(b@, seg as int);
                crate::parse::lemma_boundary_near_ascii(b@, i + 1);
            }
            let piece = slice_text(text, seg, i + 1);
            let ghost before = out@;
            out.append(piece);
            proof {
                lemma_encode_concat(before, piece@);
                assert(b@.subrange(seg as int, i + 1) =~= b@.subrange(seg as int, i as int) + seq![QUOTE]);
                assert(encode_utf8(out@) + b@.subrange(i + 2, i + 2) + unescape_from(b@, i + 2, z as int)
                    =~= encode_utf8(before) + b@.subrange(seg as int, i as int) + unescape_from(b@, i as int, z as int));
            }
            seg = i + 2;
            i = i + 2;
        } else {
            assert(encode_utf8(out@) + b@.subrange(seg as int, i + 1) + unescape_from(b@, i + 1, z as int)
                =~= encode_utf8(out@) + b@.subrange(seg as int, i as int) + unescape_from(b@, i as int, z as int));
            i += 1;
        }
    }
    proof {
        crate::parse::lemma_boundary_near_ascii(b@, seg as int);
        crate::parse::lemma_boundary_near_ascii(b@, z as int);
    }
    let piece = slice_text(text, seg, z);
    let ghost before = out@;
    out.append(piece);
    proof {
        lemma_encode_concat(before, piece@);
        assert(encode_utf8(out@) =~= encode_utf8(before) + b@.subrange(seg as int, i as int) + unescape_from(b@, i as int, z as int));
    }
    out
}

/// Copies the cell `span` of `text` out as a `String`.
fn cell_string(text: &str, s: usize, e: usize, span: (usize, usize)) -> (r: String)
    requires
        s <= span.0 <= span.1 <= e <= text.spec_bytes().len(),
        s == 0 || text.spec_bytes()[s - 1] == NEWLINE,
        e == text.spec_bytes().len() || text.spec_bytes()[e as int] == NEWLINE
            || text.spec_bytes()[e as int] == RETURN,
        span.0 == s || text.spec_bytes()[span.0 - 1] == COMMA,
        span.1 == e || text.spec_bytes()[span.1 as int] == COMMA,
    ensures
        r@ == cell_text(text.spec_bytes(), (span.0 as int, span.1 as int)),
{
    broadcast use vstd::utf8::group_utf8_lib;

    let b = text.as_bytes();
    if span.1 - span.0 >= 2 && b[span.0] == QUOTE && b[span.1 - 1] == QUOTE {
        let r = unescape_text(text, span.0 + 1, span.1 - 1);
        assert(decode_utf8(encode_utf8(r@)) == r@);
        return r;
    }
    proof {
        crate::parse::lemma_boundary_near_ascii(text.spec_bytes(), span.0 as int);
        crate::parse::lemma_boundary_near_ascii(text.spec_bytes(), span.1 as int);
    }
    let part = slice_text(text, span.0, span.1);
    part.to_owned()
}

/// Checks the line `b[s..e]` and, for a data line, appends its row.
fn take_line(text: &str, b: &[u8], s: usize, e: usize, index: usize, rows: &mut Vec<Row>) -> (r: Result<(), Error>)
    requires
        b@ == text.spec_bytes(),
        s <= e <= b@.len(),
        s == 0 || b@[s - 1] == NEWLINE,
        e == b@.len() || b@[e as int] == NEWLINE || b@[e as int] == RETURN,
        index < usize::MAX,
    ensures
        match r {
            Ok(()) => {
                &&& line_problem(b@, (s as int, e as int), index == 0) is None
                &&& index == 0 ==> final(rows)@ == old(rows)@
                &&& index > 0 ==> final(rows)@.len() == old(rows)@.len() + 1
                    && final(rows)@.drop_last() == old(rows)@
                    && row_of_line(b@, (s as int, e as int), final(rows)@.last())
            },
            Err(er) => {
                &&& line_problem(b@, (s as int, e as int), index == 0) is Some
                &&& er == Error::MalformedFile {
                    line: (index + 1) as usize,
                    problem: line_problem(b@, (s as int, e as int), index == 0)->Some_0,
                }
            },
        },
{
    let c = split_cells(b, s, e);
    proof {
        lemma_cells_delimited(b@, e as int, s as int, s as int, false);
    }
    if c.len() != 4 {
        return Err(Error::MalformedFile {
            line: index + 1,
            problem: Malformed::ColumnCount { found: c.len() },
        });
    }
    if index == 0 {
        return Ok(());
    }
    let (from, to) = if c[1].1 - c[1].0 >= 2 && b[c[1].0] == QUOTE && b[c[1].1 - 1] == QUOTE {
        (c[1].0 + 1, c[1].1 - 1)
    } else {
        c[1]
    };
    let elapsed = parse_nanos(b, from, to);
    match elapsed {
        None => Err(Error::MalformedFile { line: index + 1, problem: Malformed::InvalidElapsed }),
        Some(elapsed_nanos) => {
            proof {
                let cs = cells(b@, (s as int, e as int));
                assert(cs[0] == cells_from(b@, e as int, s as int, s as int, false)[0]);
                assert(cs[2] == cells_from(b@, e as int, s as int, s as int, false)[2]);
                assert(cs[3] == cells_from(b@, e as int, s as int, s as int, false)[3]);
            }
            let timestamp = cell_string(text, s, e, c[0]);
            let trace_id = cell_string(text, s, e, c[2]);
            let trace_url = cell_string(text, s, e, c[3]);
            let row = Row { timestamp, elapsed_nanos, trace_id, trace_url };
            rows.push(row);
            assert(rows@.drop_last() =~= old(rows)@);
            Ok(())
        },
    }
}

proof fn lemma_first_bad_line_unique(b: Seq<u8>, k: int)
    requires
        is_first_bad_line(b, k),
    ensures
        (choose|j: int| is_first_bad_line(b, j)) == k,
{
    let j = choose|j: int| is_first_bad_line(b, j);
    assert(is_first_bad_line(b, j));
    if j < k {
        assert(line_fine(b, lines(b), j));
    } else if k < j {
        assert(line_fine(b, lines(b), k));
    }
}

/// A bad line right after the good lines `taken` is the error of the load.
proof fn lemma_first_bad_after(b: Seq<u8>, taken: Seq<(int, int)>, span: (int, int), rest: Seq<(int, int)>)
    requires
        lines(b) == taken + (seq![span] + rest),
        forall|k: int| 0 <= k < taken.len() ==> #[trigger] line_fine(b, taken, k),
        line_problem(b, span, taken.len() == 0) is Some,
    ensures
        load_error(b) == Some(Error::MalformedFile {
            line: (taken.len() + 1) as usize,
            problem: line_problem(b, span, taken.len() == 0)->Some_0,
        }),
{
    let n = taken.len() as int;
    assert(lines(b)[n] == span);
    assert forall|j: int| 0 <= j < n implies #[trigger] line_fine(b, lines(b), j) by {
        assert(lines(b)[j] == taken[j]);
        assert(line_fine(b, taken, j));
    }
    assert(is_first_bad_line(b, n));
    lemma_first_bad_line_unique(b, n);
}

/// A good line after the lines `taken` extends the lines and rows read.
proof fn lemma_good_line_taken(
    b: Seq<u8>,
    taken: Seq<(int, int)>,
    span: (int, int),
    before: Seq<Row>,
    after: Seq<Row>,
)
    requires
        forall|k: int| 0 <= k < taken.len() ==> #[trigger] line_fine(b, taken, k),
        line_problem(b, span, taken.len() == 0) is None,
        taken.len() == 0 ==> before.len() == 0 && after == before,
        taken.len() > 0 ==> before.len() + 1 == taken.len() && after.len() == before.len() + 1
            && after.drop_last() == before && row_of_line(b, span, after.last()),
        forall|k: int| 0 <= k < before.len() ==> row_of_line(b, taken[k + 1], #[trigger] before[k]),
    ensures
        forall|k: int| 0 <= k < taken.len() + 1 ==> #[trigger] line_fine(b, taken.push(span), k),
        after.len() == taken.len(),
        forall|k: int| 0 <= k < after.len() ==> row_of_line(b, taken.push(span)[k + 1], #[trigger] after[k]),
{
    assert forall|k: int| 0 <= k < taken.len() + 1 implies #[trigger] line_fine(b, taken.push(span), k) by {
        if k < taken.len() {
            assert(line_fine(b, taken, k));
        }
    }
    assert forall|k: int| 0 <= k < after.len() implies row_of_line(b, taken.push(span)[k + 1], #[trigger] after[k]) by {
        if k < before.len() {
            assert(after[k] == after.drop_last()[k]);
        }
    }
}

impl Analyzer {
    /// Loads a log from its CSV text: a header line, then one line per
    /// execution with the cells timestamp, elapsed seconds, trace id and
    /// trace URL. Lines end at `\n`, optionally after `\r`. A cell may be
    /// enclosed in double quotes, within which a comma does not end it and
    /// `""` stands for one `"`. Fails with
    /// `MalformedFile` at the first line that breaks the schema; a header
    /// alone gives a log without rows.
    pub fn from_csv(text: &str) -> (r: Result<Analyzer, Error>)
        ensures
            match r {
                Ok(a) => {
                    &&& load_error(text.spec_bytes()) is None
                    &&& a@.len() + 1 == lines(text.spec_bytes()).len()
                    &&& forall|k: int|
                        0 <= k < a@.len() ==> row_of_line(
                            text.spec_bytes(),
                            lines(text.spec_bytes())[k + 1],
                            #[trigger] a@[k],
                        )
                },
                Err(e) => load_error(text.spec_bytes()) == Some(e),
            },
    {
        let b = text.as_bytes();
        let n = b.len();
        let mut rows: Vec<Row> = Vec::new();
        let mut count: usize = 0;
        let mut start: usize = 0;
        let mut i: usize = 0;
        let ghost taken: Seq<(int, int)> = seq![];
        while i < n
            invariant
                b@ == text.spec_bytes(),
                n == b@.len(),
                start <= i <= n,
                start == 0 || b@[start - 1] == NEWLINE,
                count == taken.len(),
                count <= start,
                taken + lines_from(b@, start as int, i as int) == lines(b@),
                forall|k: int| 0 <= k < count ==> #[trigger] line_fine(b@, taken, k),
                count == 0 ==> rows@.len() == 0,
                count > 0 ==> rows@.len() + 1 == count,
                forall|k: int| 0 <= k < rows@.len() ==> row_of_line(b@, taken[k + 1], #[trigger] rows@[k]),
            decreases n - i,
        {
            if b[i] == NEWLINE {
                let e = if start < i && b[i - 1] == RETURN {
                    i - 1
                } else {
                    i
                };
                assert(e as int == trim_return(b@, start as int, i as int));
                let ghost span = (start as int, e as int);
                assert(lines_from(b@, start as int, i as int) == seq![span] + lines_from(
                    b@,
                    i + 1,
                    i + 1,
                ));
                let ghost before = rows@;
                match take_line(text, b, start, e, count, &mut rows) {
                    Err(er) => {
                        proof {
                            lemma_first_bad_after(b@, taken, span, lines_from(b@, i + 1, i + 1));
                        }
                        return Err(er);
                    },
                    Ok(()) => {},
                }
                proof {
                    assert(taken.push(span) + lines_from(b@, i + 1, i + 1) =~= lines(b@));
                    lemma_good_line_taken(b@, taken, span, before, rows@);
                    taken = taken.push(span);
                }
                count += 1;
                start = i + 1;
            }
            i += 1;
        }
        if start < n {
            let e = if b[n - 1] == RETURN {
                n - 1
            } else {
                n
            };
            let ghost span = (start as int, e as int);
            assert(lines_from(b@, start as int, i as int) == seq![span]);
            let ghost before = rows@;
            match take_line(text, b, start, e, count, &mut rows) {
                Err(er) => {
                    proof {
                        assert(seq![span] + Seq::<(int, int)>::empty() =~= seq![span]);
                        lemma_first_bad_after(b@, taken, span, Seq::empty());
                    }
                    return Err(er);
                },
                Ok(()) => {},
            }
            proof {
                assert(taken.push(span) =~= lines(b@));
                lemma_good_line_taken(b@, taken, span, before, rows@);
                taken = taken.push(span);
            }
            count += 1;
        } else {
            assert(taken =~= lines(b@));
        }
        if count == 0 {
            return Err(Error::MalformedFile { line: 1, problem: Malformed::MissingHeader });
        }
        proof {
            assert forall|k: int| !is_first_bad_line(b@, k) by {
                if 0 <= k < count {
                    assert(line_fine(b@, taken, k));
                }
            }
        }
        Ok(Analyzer { rows })
    }

    /// The elapsed times of all rows, in ascending order.
    fn sorted_values(&self) -> (r: Vec<i128>)
        ensures
            r@ == sorted_elapsed(self@),
            r@.len() == self@.len(),
    {
        let mut v: Vec<i128> = Vec::new();
        let mut i: usize = 0;
        while i < self.rows.len()
            invariant
                i <= self.rows@.len(),
                v@ == elapsed_values(self@).take(i as int),
            decreases self.rows@.len() - i,
        {
            v.push(self.rows[i].elapsed_nanos);
            i += 1;
            assert(v@ =~= elapsed_values(self@).take(i as int));
        }
        assert(v@ =~= elapsed_values(self@));
        sort_ascending(&mut v);
        proof {
            lemma_sorted_is_sorted_elapsed(self@, v@);
        }
        v
    }

    /// The elapsed time and trace id of the first row with the least
    /// elapsed time; `EmptyDataset` when there are no rows.
    pub fn fastest(&self) -> (r: Result<(i128, String), Error>)
        ensures
            r is Ok <==> self@.len() > 0,
            r matches Ok((v, t)) ==> fastest_result(self@) == Ok::<(i128, Seq<char>), Error>((v, t@)),
            r matches Err(e) ==> fastest_result(self@) == Err::<(i128, Seq<char>), Error>(e),
    {
        if self.rows.len() == 0 {
            return Err(Error::EmptyDataset);
        }
        let mut best: usize = 0;
        let mut i: usize = 1;
        while i < self.rows.len()
            invariant
                1 <= i <= self.rows@.len(),
                is_fastest_row(self@.take(i as int), best as int),
            decreases self.rows@.len() - i,
        {
            if self.rows[i].elapsed_nanos < self.rows[best].elapsed_nanos {
                best = i;
            }
            i += 1;
            assert(is_fastest_row(self@.take(i as int), best as int));
        }
        assert(self@.take(i as int) =~= self@);
        proof {
            lemma_fastest_row_unique(self@, best as int);
        }
        Ok((self.rows[best].elapsed_nanos, self.rows[best].trace_id.clone()))
    }

    /// The elapsed time and trace id of the first row with the greatest
    /// elapsed time; `EmptyDataset` when there are no rows.
    pub fn slowest(&self) -> (r: Result<(i128, String), Error>)
        ensures
            r is Ok <==> self@.len() > 0,
            r matches Ok((v, t)) ==> slowest_result(self@) == Ok::<(i128, Seq<char>), Error>((v, t@)),
            r matches Err(e) ==> slowest_result(self@) == Err::<(i128, Seq<char>), Error>(e),
    {
        if self.rows.len() == 0 {
            return Err(Error::EmptyDataset);
        }
        let mut best: usize = 0;
        let mut i: usize = 1;
        while i < self.rows.len()
            invariant
                1 <= i <= self.rows@.len(),
                is_slowest_row(self@.take(i as int), best as int),
            decreases self.rows@.len() - i,
        {
            if self.rows[i].elapsed_nanos > self.rows[best].elapsed_nanos {
                best = i;
            }
            i += 1;
            assert(is_slowest_row(self@.take(i as int), best as int));
        }
        assert(self@.take(i as int) =~= self@);
        proof {
            lemma_slowest_row_unique(self@, best as int);
        }
        Ok((self.rows[best].elapsed_nanos, self.rows[best].trace_id.clone()))
    }

    /// The `p` percentile of the elapsed times under the "higher" rule: the
    /// value at index `ceil(p * (n - 1))` of the ascending order.
    pub fn percentile(&self, p: Fraction) -> (r: Result<i128, Error>)
        ensures
            r == percentile_result(self@, p),
    {
        if self.rows.len() == 0 {
            return Err(Error::EmptyDataset);
        }
        if !p.is_valid() {
            return Err(Error::InvalidPercentile { numerator: p.numerator, denominator: p.denominator });
        }
        let sorted = self.sorted_values();
        let k = rank_of(p, self.rows.len());
        Ok(sorted[k])
    }

    /// Each of the percentiles `ps` in turn, from one sort of the elapsed
    /// times. `EmptyDataset` when there are no rows, else
    /// `InvalidPercentile` for the first fraction outside `(0, 1]`.
    pub fn percentiles(&self, ps: &[Fraction]) -> (r: Result<Vec<i128>, Error>)
        ensures
            r matches Ok(v) ==> percentiles_result(self@, ps@) == Ok::<Seq<i128>, Error>(v@),
            r matches Err(e) ==> percentiles_result(self@, ps@) == Err::<Seq<i128>, Error>(e),
    {
        if self.rows.len() == 0 {
            return Err(Error::EmptyDataset);
        }
        let mut k: usize = 0;
        while k < ps.len()
            invariant
                k <= ps@.len(),
                self@.len() > 0,
                forall|j: int| 0 <= j < k ==> (#[trigger] ps@[j]).valid(),
            decreases ps@.len() - k,
        {
            if !ps[k].is_valid() {
                assert(is_first_invalid(ps@, k as int));
                proof {
                    lemma_first_invalid_unique(ps@, k as int);
                }
                return Err(Error::InvalidPercentile {
                    numerator: ps[k].numerator,
                    denominator: ps[k].denominator,
                });
            }
            k += 1;
        }
        assert(!exists|k: int| is_first_invalid(ps@, k));
        let sorted = self.sorted_values();
        let mut out: Vec<i128> = Vec::new();
        let mut k: usize = 0;
        while k < ps.len()
            invariant
                k <= ps@.len(),
                self@.len() > 0,
                sorted@ == sorted_elapsed(self@),
                sorted@.len() == self@.len(),
                forall|j: int| 0 <= j < ps@.len() ==> (#[trigger] ps@[j]).valid(),
                out@.len() == k,
                forall|j: int| 0 <= j < k ==> out@[j] == percentile_value(self@, #[trigger] ps@[j]),
            decreases ps@.len() - k,
        {
            let i = rank_of(ps[k], self.rows.len());
            out.push(sorted[i]);
            k += 1;
        }
        assert(out@ =~= Seq::new(ps@.len(), |j: int| percentile_value(self@, ps@[j])));
        Ok(out)
    }
}

proof fn lemma_fastest_row_unique(rows: Seq<Row>, i: int)
    requires
        is_fastest_row(rows, i),
    ensures
        (choose|k: int| is_fastest_row(rows, k)) == i,
{
    let k = choose|k: int| is_fastest_row(rows, k);
    assert(is_fastest_row(rows, k));
    if k < i {
        assert(rows[i].elapsed_nanos < rows[k].elapsed_nanos);
    } else if i < k {
        assert(rows[k].elapsed_nanos < rows[i].elapsed_nanos);
    }
}

proof fn lemma_slowest_row_unique(rows: Seq<Row>, i: int)
    requires
        is_slowest_row(rows, i),
    ensures
        (choose|k: int| is_slowest_row(rows, k)) == i,
{
    let k = choose|k: int| is_slowest_row(rows, k);
    assert(is_slowest_row(rows, k));
    if k < i {
        assert(rows[k].elapsed_nanos < rows[i].elapsed_nanos);
    } else if i < k {
        assert(rows[i].elapsed_nanos < rows[k].elapsed_nanos);
    }
}

pub(crate) proof fn lemma_first_invalid_unique(ps: Seq<Fraction>, k: int)
    requires
        is_first_invalid(ps, k),
    ensures
        (choose|j: int| is_first_invalid(ps, j)) == k,
{
    let j = choose|j: int| is_first_invalid(ps, j);
    assert(is_first_invalid(ps, j));
    if j < k {
        assert(ps[j].valid());
    } else if k < j {
        assert(ps[k].valid());
    }
}

} // verus!
