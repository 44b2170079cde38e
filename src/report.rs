//! The report: complete records become events, events before the cutoff are
//! dropped, the rest are sorted by start, end and summary and rendered one
//! tab-separated line each.

use vstd::prelude::*;

use crate::instant::{instant_text, Instant};
use crate::scanner::{
    begin_marker, block_record, clean_body, end_marker, lemma_last_write_wins,
    lemma_no_blocks_no_records, models, record_wf, scan_events, scan_lines, scan_text,
    trimmed_lines_of, RawEventModel, RawEventRecord, ScanError,
};
use crate::text::{chars_of, push_chars, string_of};

verus! {

/// An event with start, end and summary all present.
#[derive(Debug)]
pub struct ResolvedEvent {
    pub start: Instant,
    pub end: Instant,
    pub summary: String,
}

/// The mathematical value of a `ResolvedEvent`.
pub struct EventModel {
    pub start: Instant,
    pub end: Instant,
    pub summary: Seq<char>,
}

impl View for ResolvedEvent {
    type V = EventModel;

    open spec fn view(&self) -> EventModel {
        EventModel { start: self.start, end: self.end, summary: self.summary@ }
    }
}

/// The models of the events `v`.
pub open spec fn event_models(v: Seq<ResolvedEvent>) -> Seq<EventModel> {
    v.map_values(|x: ResolvedEvent| x@)
}

pub open spec fn event_wf(e: EventModel) -> bool {
    e.start.wf() && e.end.wf()
}

/// The complete records of `rs`, in order, as events.
pub open spec fn resolve(rs: Seq<RawEventModel>) -> Seq<EventModel>
    decreases rs.len(),
{
    if rs.len() == 0 {
        seq![]
    } else {
        let rest = resolve(rs.drop_last());
        let r = rs.last();
        match (r.start, r.end, r.summary) {
            (Some(start), Some(end), Some(summary)) => rest.push(EventModel { start, end, summary }),
            _ => rest,
        }
    }
}

/// The events of `s` that do not start before `cutoff`, in order.
pub open spec fn keep_from(s: Seq<EventModel>, cutoff: Instant) -> Seq<EventModel>
    decreases s.len(),
{
    if s.len() == 0 {
        seq![]
    } else {
        let rest = keep_from(s.drop_last(), cutoff);
        if s.last().start.precedes(cutoff) {
            rest
        } else {
            rest.push(s.last())
        }
    }
}

/// `a` comes before `b` in the order of code points, a proper prefix first.
pub open spec fn text_precedes(a: Seq<char>, b: Seq<char>) -> bool
    decreases a.len(),
{
    if a.len() == 0 {
        b.len() > 0
    } else if b.len() == 0 {
        false
    } else if a[0] != b[0] {
        (a[0] as u32) < (b[0] as u32)
    } else {
        text_precedes(a.drop_first(), b.drop_first())
    }
}

/// The report's order: by start, then end, then summary.
pub open spec fn event_precedes(a: EventModel, b: EventModel) -> bool {
    ||| a.start.precedes(b.start)
    ||| a.start == b.start && a.end.precedes(b.end)
    ||| a.start == b.start && a.end == b.end && text_precedes(a.summary, b.summary)
}

/// `s` with `e` placed before the first element that `e` precedes.
pub open spec fn insert_sorted(s: Seq<EventModel>, e: EventModel) -> Seq<EventModel>
    decreases s.len(),
{
    if s.len() == 0 {
        seq![e]
    } else if event_precedes(e, s[0]) {
        seq![e] + s
    } else {
        seq![s[0]] + insert_sorted(s.drop_first(), e)
    }
}

/// `s` sorted by insertion in the report's order.
pub open spec fn sort_events(s: Seq<EventModel>) -> Seq<EventModel>
    decreases s.len(),
{
    if s.len() == 0 {
        seq![]
    } else {
        insert_sorted(sort_events(s.drop_last()), s.last())
    }
}

/// The events of `s` at or after `cutoff`, in the report's order.
pub open spec fn select(s: Seq<EventModel>, cutoff: Instant) -> Seq<EventModel> {
    sort_events(keep_from(s, cutoff))
}

/// One line of the report: start, end and summary separated by tabs.
pub open spec fn event_line(e: EventModel) -> Seq<char> {
    instant_text(e.start) + seq!['\t'] + instant_text(e.end) + seq!['\t'] + e.summary + seq!['\n']
}

/// The lines of the events `s`, in order.
pub open spec fn render(s: Seq<EventModel>) -> Seq<char>
    decreases s.len(),
{
    if s.len() == 0 {
        seq![]
    } else {
        render(s.drop_last()) + event_line(s.last())
    }
}

/// The report of the calendar text `t` for the cutoff `cutoff`.
pub open spec fn report_of(t: Seq<char>, cutoff: Instant) -> Result<Seq<char>, ScanError> {
    match scan_text(t) {
        Ok(rs) => Ok(render(select(resolve(rs), cutoff))),
        Err(e) => Err(e),
    }
}

/// The cutoff of the report: 2022-01-10 00:00 at UTC+9.
pub fn default_cutoff() -> (r: Instant)
    ensures
        r == (Instant { year: 2022, month: 1, day: 10, hour: 0, minute: 0 }),
        r.wf(),
{
    Instant { year: 2022, month: 1, day: 10, hour: 0, minute: 0 }
}

/// Keeps the records whose start, end and summary are all present, in order.
pub fn resolve_events(records: Vec<RawEventRecord>) -> (r: Vec<ResolvedEvent>)
    ensures
        event_models(r@) == resolve(models(records@)),
        (forall|k: int| 0 <= k < records@.len() ==> record_wf(#[trigger] records@[k]@)) ==> forall|
            k: int,
        | 0 <= k < r@.len() ==> event_wf(#[trigger] r@[k]@),
{
    let ghost all = models(records@);
    let ghost all_wf = forall|k: int| 0 <= k < records@.len() ==> record_wf(#[trigger] records@[k]@);
    let mut rest = records;
    let mut out: Vec<ResolvedEvent> = Vec::new();
    let ghost mut i: int = 0;
    assert(all.take(0) =~= seq![]);
    assert(event_models(out@) =~= seq![]);
    while rest.len() > 0
        invariant
            0 <= i <= all.len(),
            models(rest@) == all.skip(i),
            rest@.len() == all.len() - i,
            event_models(out@) == resolve(all.take(i)),
            all_wf ==> forall|k: int| 0 <= k < all.len() ==> record_wf(#[trigger] all[k]),
            all_wf ==> forall|k: int| 0 <= k < out@.len() ==> event_wf(#[trigger] out@[k]@),
        decreases rest@.len(),
    {
        let ghost before = event_models(out@);
        let ghost old_rest = rest@;
        let rec = rest.remove(0);
        proof {
            assert(all.skip(i)[0] == rec@);
            assert forall|k: int| 0 <= k < rest@.len() implies #[trigger] models(rest@)[k] == all.skip(i + 1)[k] by {
                assert(rest@[k] == old_rest[k + 1]);
                assert(models(old_rest)[k + 1] == all.skip(i)[k + 1]);
            }
            assert(models(rest@) =~= all.skip(i + 1));
            assert(all.take(i + 1).drop_last() =~= all.take(i));
            assert(all.take(i + 1).last() == rec@);
        }
        match (rec.start, rec.end, rec.summary) {
            (Some(start), Some(end), Some(summary)) => {
                out.push(ResolvedEvent { start, end, summary });
                assert(event_models(out@) =~= before.push(EventModel { start, end, summary: summary@ }));
            },
            _ => {},
        }
        proof {
            i = i + 1;
        }
    }
    assert(all.take(i) =~= all);
    out
}

/// Whether `a` comes before `b` in the order of code points.
fn text_before(a: &[char], b: &[char]) -> (r: bool)
    ensures
        r == text_precedes(a@, b@),
{
    let mut i: usize = 0;
    assert(a@.skip(0) =~= a@);
    assert(b@.skip(0) =~= b@);
    while i < a.len() && i < b.len() && a[i] == b[i]
        invariant
            i <= a@.len(),
            i <= b@.len(),
            text_precedes(a@, b@) == text_precedes(a@.skip(i as int), b@.skip(i as int)),
        decreases a@.len() - i,
    {
        assert(a@.skip(i as int).drop_first() =~= a@.skip(i + 1));
        assert(b@.skip(i as int).drop_first() =~= b@.skip(i + 1));
        i = i + 1;
    }
    if i == a.len() {
        i < b.len()
    } else if i == b.len() {
        false
    } else {
        (a[i] as u32) < (b[i] as u32)
    }
}

/// Whether `a` comes before `b` in the report's order.
fn event_before(a: &ResolvedEvent, b: &ResolvedEvent) -> (r: bool)
    ensures
        r == event_precedes(a@, b@),
{
    if a.start.is_before(&b.start) {
        true
    } else if a.start != b.start {
        false
    } else if a.end.is_before(&b.end) {
        true
    } else if a.end != b.end {
        false
    } else {
        let x = chars_of(a.summary.as_str());
        let y = chars_of(b.summary.as_str());
        text_before(x.as_slice(), y.as_slice())
    }
}

proof fn lemma_insert_at(s: Seq<EventModel>, e: EventModel, pos: int)
    requires
        0 <= pos <= s.len(),
        forall|k: int| 0 <= k < pos ==> !event_precedes(e, #[trigger] s[k]),
        pos == s.len() || event_precedes(e, s[pos]),
    ensures
        insert_sorted(s, e) == s.insert(pos, e),
    decreases s.len(),
{
    if s.len() == 0 {
        assert(s.insert(pos, e) =~= seq![e]);
    } else if pos == 0 {
        assert(s.insert(pos, e) =~= seq![e] + s);
    } else {
        let t = s.drop_first();
        assert forall|k: int| 0 <= k < pos - 1 implies !event_precedes(e, #[trigger] t[k]) by {
            assert(t[k] == s[k + 1]);
        }
        lemma_insert_at(t, e, pos - 1);
        assert(s.insert(pos, e) =~= seq![s[0]] + t.insert(pos - 1, e));
    }
}

/// Keeps the events that do not start before `cutoff` and sorts them by
/// start, then end, then summary.
pub fn select_and_sort(events: Vec<ResolvedEvent>, cutoff: &Instant) -> (r: Vec<ResolvedEvent>)
    ensures
        event_models(r@) == select(event_models(events@), *cutoff),
        (forall|k: int| 0 <= k < events@.len() ==> event_wf(#[trigger] events@[k]@)) ==> forall|
            k: int,
        | 0 <= k < r@.len() ==> event_wf(#[trigger] r@[k]@),
{
    let ghost all = event_models(events@);
    let ghost all_wf = forall|k: int| 0 <= k < events@.len() ==> event_wf(#[trigger] events@[k]@);
    let mut rest = events;
    let mut out: Vec<ResolvedEvent> = Vec::new();
    let ghost mut i: int = 0;
    assert(all.take(0) =~= seq![]);
    assert(event_models(out@) =~= seq![]);
    while rest.len() > 0
        invariant
            0 <= i <= all.len(),
            event_models(rest@) == all.skip(i),
            rest@.len() == all.len() - i,
            event_models(out@) == sort_events(keep_from(all.take(i), *cutoff)),
            all_wf ==> forall|k: int| 0 <= k < all.len() ==> event_wf(#[trigger] all[k]),
            all_wf ==> forall|k: int| 0 <= k < out@.len() ==> event_wf(#[trigger] out@[k]@),
        decreases rest@.len(),
    {
        let ghost before = event_models(out@);
        let ghost old_rest = rest@;
        let e = rest.remove(0);
        proof {
            assert(all.skip(i)[0] == e@);
            assert forall|k: int| 0 <= k < rest@.len() implies #[trigger] event_models(rest@)[k] == all.skip(i + 1)[k] by {
                assert(rest@[k] == old_rest[k + 1]);
                assert(event_models(old_rest)[k + 1] == all.skip(i)[k + 1]);
            }
            assert(event_models(rest@) =~= all.skip(i + 1));
            assert(all.take(i + 1).drop_last() =~= all.take(i));
            assert(all.take(i + 1).last() == e@);
        }
        if !e.start.is_before(cutoff) {
            let mut pos: usize = 0;
            while pos < out.len() && !event_before(&e, &out[pos])
                invariant
                    pos <= out@.len(),
                    before == event_models(out@),
                    forall|k: int| 0 <= k < pos ==> !event_precedes(e@, #[trigger] before[k]),
                decreases out@.len() - pos,
            {
                pos = pos + 1;
            }
            proof {
                lemma_insert_at(before, e@, pos as int);
            }
            let ghost kept = keep_from(all.take(i), *cutoff);
            assert(kept.push(e@).drop_last() =~= kept);
            out.insert(pos, e);
            assert(event_models(out@) =~= before.insert(pos as int, e@));
        }
        proof {
            i = i + 1;
        }
    }
    assert(all.take(i) =~= all);
    out
}

/// Renders the events one line each: start and end as `YYYY/MM/DD HH:MM`
/// and the summary, separated by tabs, each line ending in a newline.
pub fn render_lines(events: &Vec<ResolvedEvent>) -> (r: String)
    requires
        forall|k: int| 0 <= k < events@.len() ==> event_wf(#[trigger] events@[k]@),
    ensures
        r@ == render(event_models(events@)),
{
    let ghost all = event_models(events@);
    let mut out: Vec<char> = Vec::new();
    let mut i: usize = 0;
    assert(all.take(0) =~= seq![]);
    while i < events.len()
        invariant
            i <= events@.len(),
            all == event_models(events@),
            forall|k: int| 0 <= k < events@.len() ==> event_wf(#[trigger] events@[k]@),
            out@ == render(all.take(i as int)),
        decreases events@.len() - i,
    {
        let e = &events[i];
        assert(event_wf(events@[i as int]@));
        let start = chars_of(e.start.render().as_str());
        let end = chars_of(e.end.render().as_str());
        let summary = chars_of(e.summary.as_str());
        push_chars(&mut out, start.as_slice());
        out.push('\t');
        push_chars(&mut out, end.as_slice());
        out.push('\t');
        push_chars(&mut out, summary.as_slice());
        out.push('\n');
        assert(all.take(i + 1).drop_last() =~= all.take(i as int));
        assert(all.take(i + 1).last() == e@);
        i = i + 1;
        assert(out@ =~= render(all.take(i as int)));
    }
    assert(all.take(i as int) =~= all);
    string_of(out.as_slice())
}

/// The model of a report's outcome.
pub open spec fn report_model(r: &Result<String, ScanError>) -> Result<Seq<char>, ScanError> {
    match r {
        Ok(s) => Ok(s@),
        Err(e) => Err(*e),
    }
}

/// The report of a calendar text: its complete events that do not start
/// before `cutoff`, sorted and rendered; or the first scanning error, with
/// no output at all.
pub fn build_report(text: &str, cutoff: &Instant) -> (r: Result<String, ScanError>)
    ensures
        report_model(&r) == report_of(text@, *cutoff),
{
    match scan_events(text) {
        Ok(records) => {
            let events = resolve_events(records);
            let selected = select_and_sort(events, cutoff);
            Ok(render_lines(&selected))
        },
        Err(e) => Err(e),
    }
}

/// `s` is in the report's order: no element precedes an earlier one.
pub open spec fn is_sorted(s: Seq<EventModel>) -> bool {
    forall|i: int, j: int| 0 <= i < j < s.len() ==> !event_precedes(#[trigger] s[j], #[trigger] s[i])
}

proof fn lemma_text_transitive(a: Seq<char>, b: Seq<char>, c: Seq<char>)
    requires
        text_precedes(a, b),
        text_precedes(b, c),
    ensures
        text_precedes(a, c),
    decreases a.len(),
{
    if a.len() > 0 && b.len() > 0 && c.len() > 0 && a[0] == b[0] && b[0] == c[0] {
        lemma_text_transitive(a.drop_first(), b.drop_first(), c.drop_first());
    }
}

proof fn lemma_text_irreflexive(a: Seq<char>)
    ensures
        !text_precedes(a, a),
    decreases a.len(),
{
    if a.len() > 0 {
        lemma_text_irreflexive(a.drop_first());
    }
}

proof fn lemma_event_transitive(a: EventModel, b: EventModel, c: EventModel)
    requires
        event_precedes(a, b),
        event_precedes(b, c),
    ensures
        event_precedes(a, c),
{
    if a.start == b.start && b.start == c.start && a.end == b.end && b.end == c.end {
        lemma_text_transitive(a.summary, b.summary, c.summary);
    }
}

/// Where `insert_sorted` puts `e`: before the first element that `e`
/// precedes.
proof fn lemma_insert_position(s: Seq<EventModel>, e: EventModel) -> (pos: int)
    ensures
        0 <= pos <= s.len(),
        insert_sorted(s, e) == s.insert(pos, e),
        forall|k: int| 0 <= k < pos ==> !event_precedes(e, #[trigger] s[k]),
        pos == s.len() || event_precedes(e, s[pos]),
    decreases s.len(),
{
    if s.len() == 0 {
        assert(s.insert(0, e) =~= seq![e]);
        0
    } else if event_precedes(e, s[0]) {
        assert(s.insert(0, e) =~= seq![e] + s);
        0
    } else {
        let t = s.drop_first();
        let p = lemma_insert_position(t, e);
        assert(s.insert(p + 1, e) =~= seq![s[0]] + t.insert(p, e));
        assert forall|k: int| 0 <= k < p + 1 implies !event_precedes(e, #[trigger] s[k]) by {
            if k > 0 {
                assert(s[k] == t[k - 1]);
            }
        }
        p + 1
    }
}

proof fn lemma_insert_sorted_keeps_order(s: Seq<EventModel>, e: EventModel)
    requires
        is_sorted(s),
    ensures
        is_sorted(insert_sorted(s, e)),
        insert_sorted(s, e).to_multiset() == s.to_multiset().insert(e),
{
    let pos = lemma_insert_position(s, e);
    let r = s.insert(pos, e);
    assert forall|i: int, j: int| 0 <= i < j < r.len() implies !event_precedes(
        #[trigger] r[j],
        #[trigger] r[i],
    ) by {
        if j < pos {
            assert(r[i] == s[i] && r[j] == s[j]);
        } else if j == pos {
            assert(r[i] == s[i]);
        } else if i > pos {
            assert(r[i] == s[i - 1] && r[j] == s[j - 1]);
        } else if i == pos {
            assert(r[j] == s[j - 1]);
            if event_precedes(s[j - 1], e) {
                if j - 1 > pos {
                    assert(!event_precedes(s[j - 1], s[pos]));
                }
                lemma_event_transitive(s[j - 1], e, s[pos]);
                lemma_text_irreflexive(s[pos].summary);
            }
        } else {
            assert(r[i] == s[i] && r[j] == s[j - 1]);
        }
    }
    vstd::seq_lib::to_multiset_insert(s, pos, e);
}

proof fn lemma_sort_events(s: Seq<EventModel>)
    ensures
        is_sorted(sort_events(s)),
        sort_events(s).to_multiset() == s.to_multiset(),
    decreases s.len(),
{
    broadcast use vstd::seq_lib::group_to_multiset_ensures;

    if s.len() > 0 {
        lemma_sort_events(s.drop_last());
        lemma_insert_sorted_keeps_order(sort_events(s.drop_last()), s.last());
        assert(s.drop_last().push(s.last()) =~= s);
    } else {
        assert(sort_events(s) =~= s);
    }
}

proof fn lemma_keep_from_counts(s: Seq<EventModel>, cutoff: Instant, e: EventModel)
    ensures
        keep_from(s, cutoff).to_multiset().count(e) == if e.start.precedes(cutoff) {
            0
        } else {
            s.to_multiset().count(e)
        },
    decreases s.len(),
{
    broadcast use vstd::seq_lib::group_to_multiset_ensures;

    if s.len() > 0 {
        lemma_keep_from_counts(s.drop_last(), cutoff, e);
        assert(s.drop_last().push(s.last()) =~= s);
    } else {
        assert(keep_from(s, cutoff).to_multiset() =~= s.to_multiset());
    }
}

/// The report's order: what `select` gives is sorted by start, then end,
/// then summary.
pub proof fn lemma_select_sorted(s: Seq<EventModel>, cutoff: Instant)
    ensures
        is_sorted(select(s, cutoff)),
{
    lemma_sort_events(keep_from(s, cutoff));
}

/// The cutoff: an event that starts before `cutoff` is not selected; one
/// that does not is selected as many times as it occurs.
pub proof fn lemma_select_threshold(s: Seq<EventModel>, cutoff: Instant, e: EventModel)
    ensures
        e.start.precedes(cutoff) ==> select(s, cutoff).to_multiset().count(e) == 0,
        !e.start.precedes(cutoff) ==> select(s, cutoff).to_multiset().count(e)
            == s.to_multiset().count(e),
{
    lemma_sort_events(keep_from(s, cutoff));
    lemma_keep_from_counts(s, cutoff, e);
}

/// A text without `BEGIN:VEVENT` lines renders to nothing: the report is
/// empty, or it fails on an `END:VEVENT` line with no open block.
pub proof fn lemma_no_blocks_empty_report(t: Seq<char>, cutoff: Instant)
    requires
        forall|k: int| 0 <= k < trimmed_lines_of(t).len() ==> #[trigger] trimmed_lines_of(t)[k] != begin_marker(),
    ensures
        report_of(t, cutoff) matches Ok(out) ==> out.len() == 0,
        report_of(t, cutoff) is Err ==> report_of(t, cutoff) matches Err(ScanError::UnmatchedEnd { .. }),
        (forall|k: int| 0 <= k < trimmed_lines_of(t).len() ==> #[trigger] trimmed_lines_of(t)[k] != end_marker())
            ==> report_of(t, cutoff) is Ok,
{
    lemma_no_blocks_no_records(t);
    if let Ok(rs) = scan_text(t) {
        assert(resolve(rs) =~= seq![]);
        assert(keep_from(resolve(rs), cutoff) =~= seq![]);
        assert(select(resolve(rs), cutoff) =~= seq![]);
    }
}

/// Last write wins, up to the event: a clean block with a start, an end and
/// a summary resolves to exactly one event, made of the last line of each
/// kind.
pub proof fn lemma_block_resolves(body: Seq<Seq<char>>)
    requires
        clean_body(body),
        block_record(body).start is Some,
        block_record(body).end is Some,
        block_record(body).summary is Some,
    ensures
        scan_lines(seq![begin_marker()] + body + seq![end_marker()]) matches Ok(rs) && resolve(rs)
            == seq![
            EventModel {
                start: block_record(body).start->0,
                end: block_record(body).end->0,
                summary: block_record(body).summary->0,
            },
        ],
{
    lemma_last_write_wins(body);
    let rs = seq![block_record(body)];
    assert(rs.drop_last() =~= seq![]);
    assert(resolve(rs.drop_last()) =~= seq![]);
    assert(rs.last() == block_record(body));
    assert(resolve(rs) =~= seq![].push(
        EventModel {
            start: block_record(body).start->0,
            end: block_record(body).end->0,
            summary: block_record(body).summary->0,
        },
    ));
}

} // verus!
