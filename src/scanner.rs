//! The line scanner: walks the lines of a calendar text, tracks whether it
//! is inside a `VEVENT` block and collects each block's start, end and
//! summary into one record.

use vstd::prelude::*;

use crate::instant::{decode, decode_at, DecodeError, Instant};
use crate::text::{chars_of, string_of, trimmed_lines, lines_of, trim};

verus! {

/// The fields read from one `VEVENT` block; any of them may be missing.
#[derive(Debug)]
pub struct RawEventRecord {
    pub start: Option<Instant>,
    pub end: Option<Instant>,
    pub summary: Option<String>,
}

/// The mathematical value of a `RawEventRecord`.
pub struct RawEventModel {
    pub start: Option<Instant>,
    pub end: Option<Instant>,
    pub summary: Option<Seq<char>>,
}

impl View for RawEventRecord {
    type V = RawEventModel;

    open spec fn view(&self) -> RawEventModel {
        RawEventModel {
            start: self.start,
            end: self.end,
            summary: match self.summary {
                Some(s) => Some(s@),
                None => None,
            },
        }
    }
}

/// Why a calendar text could not be scanned. `line` counts from zero.
#[derive(Clone, Copy, Debug, PartialEq, Eq, Structural)]
pub enum ScanError {
    /// An `END:VEVENT` line with no open block.
    UnmatchedEnd { line: usize },
    /// A `DTSTART` or `DTEND` value that does not decode.
    BadTimestamp { line: usize, error: DecodeError },
}

/// The models of the records `v`.
pub open spec fn models(v: Seq<RawEventRecord>) -> Seq<RawEventModel> {
    v.map_values(|x: RawEventRecord| x@)
}

/// The model of a scan's outcome.
pub open spec fn result_model(r: &Result<Vec<RawEventRecord>, ScanError>) -> Result<
    Seq<RawEventModel>,
    ScanError,
> {
    match r {
        Ok(v) => Ok(models(v@)),
        Err(e) => Err(*e),
    }
}

pub open spec fn empty_record() -> RawEventModel {
    RawEventModel { start: None, end: None, summary: None }
}

/// The scanner between two lines: whether a block is open, the fields read
/// in it so far, and the records of the blocks already closed.
pub struct ScanModel {
    pub inside: bool,
    pub current: RawEventModel,
    pub records: Seq<RawEventModel>,
}

pub open spec fn begin_marker() -> Seq<char> {
    "BEGIN:VEVENT"@
}

pub open spec fn end_marker() -> Seq<char> {
    "END:VEVENT"@
}

pub open spec fn start_tag() -> Seq<char> {
    "DTSTART:"@
}

pub open spec fn end_tag() -> Seq<char> {
    "DTEND:"@
}

pub open spec fn summary_tag() -> Seq<char> {
    "SUMMARY:"@
}

pub open spec fn has_prefix(s: Seq<char>, p: Seq<char>) -> bool {
    p.len() <= s.len() && s.take(p.len() as int) == p
}

/// The scanner's move on the trimmed line `line`, number `k`.
pub open spec fn scan_step(st: ScanModel, line: Seq<char>, k: int) -> Result<ScanModel, ScanError> {
    if line == begin_marker() {
        Ok(ScanModel { inside: true, current: empty_record(), ..st })
    } else if line == end_marker() {
        if st.inside {
            Ok(ScanModel { inside: false, current: empty_record(), records: st.records.push(st.current) })
        } else {
            Err(ScanError::UnmatchedEnd { line: k as usize })
        }
    } else if !st.inside {
        Ok(st)
    } else if has_prefix(line, start_tag()) {
        match decode(line.skip(8)) {
            Ok(t) => Ok(ScanModel { current: RawEventModel { start: Some(t), ..st.current }, ..st }),
            Err(e) => Err(ScanError::BadTimestamp { line: k as usize, error: e }),
        }
    } else if has_prefix(line, end_tag()) {
        match decode(line.skip(6)) {
            Ok(t) => Ok(ScanModel { current: RawEventModel { end: Some(t), ..st.current }, ..st }),
            Err(e) => Err(ScanError::BadTimestamp { line: k as usize, error: e }),
        }
    } else if has_prefix(line, summary_tag()) {
        Ok(ScanModel { current: RawEventModel { summary: Some(line.skip(8)), ..st.current }, ..st })
    } else {
        Ok(st)
    }
}

/// The scanner after the first `n` lines of `lines`.
pub open spec fn scan_upto(lines: Seq<Seq<char>>, n: int) -> Result<ScanModel, ScanError>
    decreases n,
{
    if n <= 0 {
        Ok(ScanModel { inside: false, current: empty_record(), records: seq![] })
    } else {
        match scan_upto(lines, n - 1) {
            Ok(st) => scan_step(st, lines[n - 1], n - 1),
            Err(e) => Err(e),
        }
    }
}

/// The records of the trimmed lines `lines`, in the order their blocks close;
/// a block left open at the end yields none.
pub open spec fn scan_lines(lines: Seq<Seq<char>>) -> Result<Seq<RawEventModel>, ScanError> {
    match scan_upto(lines, lines.len() as int) {
        Ok(st) => Ok(st.records),
        Err(e) => Err(e),
    }
}

/// The trimmed lines of the text `t`.
pub open spec fn trimmed_lines_of(t: Seq<char>) -> Seq<Seq<char>> {
    lines_of(t).map_values(|l: Seq<char>| trim(l))
}

/// The records of the calendar text `t`.
pub open spec fn scan_text(t: Seq<char>) -> Result<Seq<RawEventModel>, ScanError> {
    scan_lines(trimmed_lines_of(t))
}

/// Once the scanner has failed, it stays failed with the same error.
proof fn lemma_scan_error_sticks(lines: Seq<Seq<char>>, j: int, n: int)
    requires
        0 <= j <= n,
        scan_upto(lines, j) is Err,
    ensures
        scan_upto(lines, n) == scan_upto(lines, j),
    decreases n - j,
{
    if n > j {
        lemma_scan_error_sticks(lines, j, n - 1);
    }
}

pub open spec fn record_wf(r: RawEventModel) -> bool {
    &&& (r.start matches Some(i) ==> i.wf())
    &&& (r.end matches Some(i) ==> i.wf())
}

/// Whether `s` starts with `p`.
fn starts_with(s: &[char], p: &[char]) -> (r: bool)
    ensures
        r == has_prefix(s@, p@),
{
    if p.len() > s.len() {
        return false;
    }
    let mut i: usize = 0;
    while i < p.len()
        invariant
            p@.len() <= s@.len(),
            i <= p@.len(),
            forall|k: int| 0 <= k < i ==> s@[k] == p@[k],
        decreases p@.len() - i,
    {
        if s[i] != p[i] {
            assert(s@.take(p@.len() as int)[i as int] != p@[i as int]);
            return false;
        }
        i = i + 1;
    }
    assert(s@.take(p@.len() as int) =~= p@);
    true
}

/// Whether `a` and `b` hold the same characters.
fn same_chars(a: &[char], b: &[char]) -> (r: bool)
    ensures
        r == (a@ == b@),
{
    if a.len() != b.len() {
        return false;
    }
    let r = starts_with(a, b);
    assert(a@.take(b@.len() as int) =~= a@);
    r
}

/// The characters `s[from..]`, as a string.
fn string_from(s: &[char], from: usize) -> (r: String)
    requires
        from <= s@.len(),
    ensures
        r@ == s@.skip(from as int),
{
    let mut v: Vec<char> = Vec::new();
    let mut i: usize = from;
    while i < s.len()
        invariant
            from <= i <= s@.len(),
            v@ =~= s@.subrange(from as int, i as int),
        decreases s@.len() - i,
    {
        v.push(s[i]);
        i = i + 1;
    }
    string_of(v.as_slice())
}

/// The scanner's state: outside any block, or inside one with the fields
/// read so far.
enum ScanState {
    Outside,
    Inside(RawEventRecord),
}

impl ScanState {
    spec fn model(&self, records: Seq<RawEventModel>) -> ScanModel {
        match self {
            ScanState::Outside => ScanModel { inside: false, current: empty_record(), records },
            ScanState::Inside(r) => ScanModel { inside: true, current: r@, records },
        }
    }
}

fn fresh_record() -> (r: RawEventRecord)
    ensures
        r@ == empty_record(),
{
    RawEventRecord { start: None, end: None, summary: None }
}

/// Scans the trimmed lines `lines` into one record per closed `VEVENT` block.
pub fn scan_trimmed_lines(lines: &Vec<Vec<char>>) -> (r: Result<Vec<RawEventRecord>, ScanError>)
    ensures
        result_model(&r) == scan_lines(lines@.map_values(|l: Vec<char>| l@)),
        r matches Ok(v) ==> forall|k: int| 0 <= k < v@.len() ==> record_wf(#[trigger] v@[k]@),
{
    let ghost ls = lines@.map_values(|l: Vec<char>| l@);
    let begin = chars_of("BEGIN:VEVENT");
    let end = chars_of("END:VEVENT");
    let start_prefix = chars_of("DTSTART:");
    let end_prefix = chars_of("DTEND:");
    let summary_prefix = chars_of("SUMMARY:");
    proof {
        reveal_strlit("DTSTART:");
        reveal_strlit("DTEND:");
        reveal_strlit("SUMMARY:");
    }
    let mut records: Vec<RawEventRecord> = Vec::new();
    let mut state = ScanState::Outside;
    assert(models(records@) =~= seq![]);
    let mut i: usize = 0;
    while i < lines.len()
        invariant
            i <= lines@.len(),
            ls == lines@.map_values(|l: Vec<char>| l@),
            begin@ == begin_marker(),
            end@ == end_marker(),
            start_prefix@ == start_tag(),
            end_prefix@ == end_tag(),
            summary_prefix@ == summary_tag(),
            start_tag().len() == 8,
            end_tag().len() == 6,
            summary_tag().len() == 8,
            scan_upto(ls, i as int) == Ok::<ScanModel, ScanError>(
                state.model(models(records@)),
            ),
            forall|k: int| 0 <= k < records@.len() ==> record_wf(#[trigger] records@[k]@),
            state matches ScanState::Inside(c) ==> record_wf(c@),
        decreases lines@.len() - i,
    {
        let line = &lines[i];
        assert(ls[i as int] == line@);
        proof {
            if i + 1 < ls.len() && scan_upto(ls, i + 1) is Err {
                lemma_scan_error_sticks(ls, i + 1, ls.len() as int);
            }
        }
        let ghost before = models(records@);
        if same_chars(line.as_slice(), begin.as_slice()) {
            state = ScanState::Inside(fresh_record());
        } else if same_chars(line.as_slice(), end.as_slice()) {
            match state {
                ScanState::Outside => {
                    return Err(ScanError::UnmatchedEnd { line: i });
                },
                ScanState::Inside(rec) => {
                    records.push(rec);
                    assert(models(records@) =~= before.push(rec@));
                    state = ScanState::Outside;
                },
            }
        } else {
            match state {
                ScanState::Outside => {},
                ScanState::Inside(mut rec) => {
                    if starts_with(line.as_slice(), start_prefix.as_slice()) {
                        match decode_at(line.as_slice(), 8) {
                            Ok(t) => {
                                rec.start = Some(t);
                            },
                            Err(e) => {
                                return Err(ScanError::BadTimestamp { line: i, error: e });
                            },
                        }
                    } else if starts_with(line.as_slice(), end_prefix.as_slice()) {
                        match decode_at(line.as_slice(), 6) {
                            Ok(t) => {
                                rec.end = Some(t);
                            },
                            Err(e) => {
                                return Err(ScanError::BadTimestamp { line: i, error: e });
                            },
                        }
                    } else if starts_with(line.as_slice(), summary_prefix.as_slice()) {
                        rec.summary = Some(string_from(line.as_slice(), 8));
                    }
                    state = ScanState::Inside(rec);
                },
            }
        }
        i = i + 1;
    }
    Ok(records)
}

/// Scans a calendar text into one record per closed `VEVENT` block, in the
/// order the blocks close. Fails on an `END:VEVENT` with no open block and on
/// a start or end timestamp that does not decode.
pub fn scan_events(text: &str) -> (r: Result<Vec<RawEventRecord>, ScanError>)
    ensures
        result_model(&r) == scan_text(text@),
        r matches Ok(v) ==> forall|k: int| 0 <= k < v@.len() ==> record_wf(#[trigger] v@[k]@),
{
    let chars = chars_of(text);
    let lines = trimmed_lines(chars.as_slice());
    assert(lines@.map_values(|l: Vec<char>| l@) =~= trimmed_lines_of(text@));
    scan_trimmed_lines(&lines)
}

/// The value after `tag` on the last line of `body` that starts with `tag`.
pub open spec fn last_value(body: Seq<Seq<char>>, tag: Seq<char>) -> Option<Seq<char>>
    decreases body.len(),
{
    if body.len() == 0 {
        None
    } else if has_prefix(body.last(), tag) {
        Some(body.last().skip(tag.len() as int))
    } else {
        last_value(body.drop_last(), tag)
    }
}

/// A timestamp value, decoded; `None` when absent or undecodable.
pub open spec fn decoded(v: Option<Seq<char>>) -> Option<Instant> {
    match v {
        Some(x) => match decode(x) {
            Ok(i) => Some(i),
            Err(_) => None,
        },
        None => None,
    }
}

/// The inside of a block that scans without error: no block markers, and
/// every start and end value decodes.
pub open spec fn clean_body(body: Seq<Seq<char>>) -> bool {
    forall|k: int|
        0 <= k < body.len() ==> {
            &&& #[trigger] body[k] != begin_marker()
            &&& body[k] != end_marker()
            &&& has_prefix(body[k], start_tag()) ==> decode(body[k].skip(8)) is Ok
            &&& has_prefix(body[k], end_tag()) ==> decode(body[k].skip(6)) is Ok
        }
}

/// The record that a block with the inside `body` yields.
pub open spec fn block_record(body: Seq<Seq<char>>) -> RawEventModel {
    RawEventModel {
        start: decoded(last_value(body, start_tag())),
        end: decoded(last_value(body, end_tag())),
        summary: last_value(body, summary_tag()),
    }
}

proof fn lemma_block_prefix(body: Seq<Seq<char>>, n: int)
    requires
        clean_body(body),
        0 <= n <= body.len(),
    ensures
        scan_upto(seq![begin_marker()] + body + seq![end_marker()], n + 1) == Ok::<
            ScanModel,
            ScanError,
        >(ScanModel { inside: true, current: block_record(body.take(n)), records: seq![] }),
    decreases n,
{
    reveal_strlit("BEGIN:VEVENT");
    reveal_strlit("END:VEVENT");
    reveal_strlit("DTSTART:");
    reveal_strlit("DTEND:");
    reveal_strlit("SUMMARY:");
    let lines = seq![begin_marker()] + body + seq![end_marker()];
    if n == 0 {
        assert(lines[0] == begin_marker());
        assert(scan_upto(lines, 0) == Ok::<ScanModel, ScanError>(
            ScanModel { inside: false, current: empty_record(), records: seq![] },
        ));
        assert(block_record(body.take(0)) == empty_record());
    } else {
        lemma_block_prefix(body, n - 1);
        let l = body[n - 1];
        assert(lines[n] == l);
        let t = body.take(n);
        assert(t.drop_last() =~= body.take(n - 1));
        assert(t.last() == l);
        if has_prefix(l, start_tag()) {
            assert(l[2] == start_tag().take(8)[2]);
            assert(!has_prefix(l, end_tag())) by {
                if has_prefix(l, end_tag()) {
                    assert(l[2] == end_tag().take(6)[2]);
                }
            }
            assert(!has_prefix(l, summary_tag())) by {
                if has_prefix(l, summary_tag()) {
                    assert(l[0] == summary_tag().take(8)[0]);
                    assert(l[0] == start_tag().take(8)[0]);
                }
            }
        } else if has_prefix(l, end_tag()) {
            assert(!has_prefix(l, summary_tag())) by {
                if has_prefix(l, summary_tag()) {
                    assert(l[0] == summary_tag().take(8)[0]);
                    assert(l[0] == end_tag().take(6)[0]);
                }
            }
        }
    }
}

/// Last write wins: a block whose inside scans cleanly yields exactly one
/// record, whose start, end and summary come from the last line of each
/// kind in the block.
pub proof fn lemma_last_write_wins(body: Seq<Seq<char>>)
    requires
        clean_body(body),
    ensures
        scan_lines(seq![begin_marker()] + body + seq![end_marker()]) == Ok::<
            Seq<RawEventModel>,
            ScanError,
        >(seq![block_record(body)]),
{
    reveal_strlit("BEGIN:VEVENT");
    reveal_strlit("END:VEVENT");
    let lines = seq![begin_marker()] + body + seq![end_marker()];
    lemma_block_prefix(body, body.len() as int);
    assert(body.take(body.len() as int) =~= body);
    assert(lines[body.len() + 1int] == end_marker());
    assert(lines.len() == body.len() + 2);
    assert(seq![].push(block_record(body)) =~= seq![block_record(body)]);
}

/// Without `BEGIN:VEVENT` lines the scanner stays outside every block, and
/// fails exactly where an `END:VEVENT` line stands.
proof fn lemma_scan_without_blocks(lines: Seq<Seq<char>>, n: int)
    requires
        0 <= n <= lines.len(),
        forall|k: int| 0 <= k < lines.len() ==> #[trigger] lines[k] != begin_marker(),
    ensures
        scan_upto(lines, n) matches Ok(st) ==> !st.inside && st.records == Seq::<RawEventModel>::empty(),
        (forall|k: int| 0 <= k < n ==> #[trigger] lines[k] != end_marker()) ==> scan_upto(lines, n) is Ok,
        scan_upto(lines, n) is Err ==> scan_upto(lines, n) matches Err(ScanError::UnmatchedEnd { .. }),
    decreases n,
{
    if n > 0 {
        lemma_scan_without_blocks(lines, n - 1);
        assert(lines[n - 1] != begin_marker());
    }
}

/// A text without `BEGIN:VEVENT` lines yields no records: an empty list, or
/// the error of an `END:VEVENT` line with no open block.
pub proof fn lemma_no_blocks_no_records(t: Seq<char>)
    requires
        forall|k: int| 0 <= k < trimmed_lines_of(t).len() ==> #[trigger] trimmed_lines_of(t)[k] != begin_marker(),
    ensures
        scan_text(t) matches Ok(rs) ==> rs.len() == 0,
        scan_text(t) is Err ==> scan_text(t) matches Err(ScanError::UnmatchedEnd { .. }),
        (forall|k: int| 0 <= k < trimmed_lines_of(t).len() ==> #[trigger] trimmed_lines_of(t)[k] != end_marker())
            ==> scan_text(t) is Ok,
{
    let lines = trimmed_lines_of(t);
    lemma_scan_without_blocks(lines, lines.len() as int);
}

} // verus!
