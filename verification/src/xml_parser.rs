//! The document parser: a three-tier fallback over the token stream.
//! Tier one matches the typed wrapped schema (a root element around one
//! `xmlResult` block), tier two the result block as the document root,
//! and tier three is the tolerant scan. The first tier that matches
//! wins; per-entry timestamp failures drop the entry, never the batch.

use vstd::prelude::*;
use vstd::string::StrSliceExecFns;
use crate::data_models::{
    CallRecord, CallRecordView, DataProduct, Lds101Results, LdsResultsView, ProcessedCallRecord,
    record_matches,
};
use crate::strutil::str_eq;
use crate::time::rfc3339_valid;
use crate::xml_events::{XmlEvent, XmlEventView, events_view, tokenize_xml, xml_events};
use crate::xml_scan::{parse_u32, parse_u32_spec, scan_events, scan_run};

verus! {

/// The text of a text event; nothing for the other events.
pub open spec fn ev_text_of(e: XmlEventView) -> Option<Seq<char>> {
    match e {
        XmlEventView::Text(t) => Some(t),
        _ => None,
    }
}

/// A strict field: `name` opened, optional text, `name` closed. Yields
/// the field's text (empty, for an empty element) and the next position.
pub open spec fn field_at(evs: Seq<XmlEventView>, i: int, name: Seq<char>) -> Option<
    (Seq<char>, int),
> {
    if i + 1 < evs.len() && evs[i] == XmlEventView::Open(name) && evs[i + 1]
        == XmlEventView::Close(name) {
        Some((Seq::<char>::empty(), i + 2))
    } else if i + 2 < evs.len() && evs[i] == XmlEventView::Open(name) && ev_text_of(evs[i + 1])
        is Some && evs[i + 2] == XmlEventView::Close(name) {
        Some((ev_text_of(evs[i + 1]).unwrap(), i + 3))
    } else {
        None
    }
}

/// A strict call entry: a `results` element holding exactly the five
/// fields in canonical order, with a well-formed `lengthOfCall`.
pub open spec fn record_at(evs: Seq<XmlEventView>, i: int) -> Option<(CallRecordView, int)> {
    if i < evs.len() && evs[i] == XmlEventView::Open("results"@) {
        match field_at(evs, i + 1, "messageDirection"@) {
            Some((dir, j1)) => match field_at(evs, j1, "remoteNumber"@) {
                Some((num, j2)) => match field_at(evs, j2, "startTime"@) {
                    Some((st, j3)) => match field_at(evs, j3, "endTime"@) {
                        Some((et, j4)) => match field_at(evs, j4, "lengthOfCall"@) {
                            Some((lt, j5)) => match parse_u32_spec(lt) {
                                Some(v) => if j5 < evs.len() && evs[j5] == XmlEventView::Close(
                                    "results"@,
                                ) {
                                    Some(
                                        (
                                            CallRecordView {
                                                message_direction: dir,
                                                remote_number: num,
                                                start_time: st,
                                                end_time: et,
                                                length_of_call: v,
                                            },
                                            j5 + 1,
                                        ),
                                    )
                                } else {
                                    None
                                },
                                None => None,
                            },
                            None => None,
                        },
                        None => None,
                    },
                    None => None,
                },
                None => None,
            },
            None => None,
        }
    } else {
        None
    }
}

/// As many strict call entries as stand in a row from position `i`.
pub open spec fn records_at(evs: Seq<XmlEventView>, i: int) -> (Seq<CallRecordView>, int)
    decreases evs.len() - i,
{
    match record_at(evs, i) {
        Some((r, j)) => if i < j <= evs.len() {
            let rest = records_at(evs, j);
            (seq![r] + rest.0, rest.1)
        } else {
            (Seq::<CallRecordView>::empty(), i)
        },
        None => (Seq::<CallRecordView>::empty(), i),
    }
}

/// The strict result block's contents from position `i`: the four
/// metadata fields in canonical order, then the call entries. Yields the
/// block and the position past its last entry.
pub open spec fn lds_at(evs: Seq<XmlEventView>, i: int) -> Option<(LdsResultsView, int)> {
    match field_at(evs, i, "targetType"@) {
        Some((tt, j1)) => match field_at(evs, j1, "targetValue"@) {
            Some((tv, j2)) => match field_at(evs, j2, "fromDate"@) {
                Some((fd, j3)) => match field_at(evs, j3, "toDate"@) {
                    Some((td, j4)) => {
                        let rest = records_at(evs, j4);
                        Some(
                            (
                                LdsResultsView {
                                    target_type: tt,
                                    target_value: tv,
                                    from_date: fd,
                                    to_date: td,
                                    results: rest.0,
                                },
                                rest.1,
                            ),
                        )
                    },
                    None => None,
                },
                None => None,
            },
            None => None,
        },
        None => None,
    }
}

/// Tier one: a root element of any name wrapping one `xmlResult` block,
/// which holds the result block's fields and entries, and nothing else.
pub open spec fn tier1_at(evs: Seq<XmlEventView>) -> Option<LdsResultsView> {
    if evs.len() >= 2 && evs[0] is Open && evs[1] == XmlEventView::Open("xmlResult"@) {
        let root = evs[0]->Open_0;
        match lds_at(evs, 2) {
            Some((l, k)) => if k + 2 == evs.len() && evs[k] == XmlEventView::Close("xmlResult"@)
                && evs[k + 1] == XmlEventView::Close(root) {
                Some(l)
            } else {
                None
            },
            None => None,
        }
    } else {
        None
    }
}

/// Tier two: the result block as the document root, under any root name.
pub open spec fn tier2_at(evs: Seq<XmlEventView>) -> Option<LdsResultsView> {
    if evs.len() >= 1 && evs[0] is Open {
        let root = evs[0]->Open_0;
        match lds_at(evs, 1) {
            Some((l, k)) => if k + 1 == evs.len() && evs[k] == XmlEventView::Close(root) {
                Some(l)
            } else {
                None
            },
            None => None,
        }
    } else {
        None
    }
}

/// What a token stream yields: the entries and target identifier of the
/// first tier that matches, falling back to the tolerant scan.
pub open spec fn doc_entries(evs: Seq<XmlEventView>) -> (Seq<CallRecordView>, Seq<char>) {
    match tier1_at(evs) {
        Some(l) => (l.results, l.target_value),
        None => match tier2_at(evs) {
            Some(l) => (l.results, l.target_value),
            None => (scan_run(evs).recs, scan_run(evs).target),
        },
    }
}

/// The entries whose two timestamps are both well-formed; the others are
/// dropped during normalization.
pub open spec fn kept(rs: Seq<CallRecordView>) -> Seq<CallRecordView>
    decreases rs.len(),
{
    if rs.len() == 0 {
        Seq::<CallRecordView>::empty()
    } else if rfc3339_valid(rs.last().start_time) && rfc3339_valid(rs.last().end_time) {
        kept(rs.drop_last()).push(rs.last())
    } else {
        kept(rs.drop_last())
    }
}

/// `ps` are exactly the canonical records of the raw entries `cs`, in
/// order, under the given target and source identifiers.
pub open spec fn processed_matches(
    ps: Seq<ProcessedCallRecord>,
    cs: Seq<CallRecordView>,
    target: Seq<char>,
    source: Seq<char>,
) -> bool {
    &&& ps.len() == cs.len()
    &&& forall|i: int| 0 <= i < ps.len() ==> record_matches(#[trigger] ps[i], cs[i], target, source)
}

} // verus!

verus! {

/// `e` opens an element of the given name.
fn ev_is_open(e: &XmlEvent, name: &str) -> (r: bool)
    ensures
        r == (e@ == XmlEventView::Open(name@)),
{
    match e {
        XmlEvent::Open(n) => str_eq(n.as_str(), name),
        _ => false,
    }
}

/// `e` closes an element of the given name.
fn ev_is_close(e: &XmlEvent, name: &str) -> (r: bool)
    ensures
        r == (e@ == XmlEventView::Close(name@)),
{
    match e {
        XmlEvent::Close(n) => str_eq(n.as_str(), name),
        _ => false,
    }
}

/// The text of a text event, copied out.
fn ev_get_text(e: &XmlEvent) -> (r: Option<String>)
    ensures
        match r {
            Some(t) => ev_text_of(e@) == Some(t@),
            None => ev_text_of(e@) is None,
        },
{
    match e {
        XmlEvent::Text(t) => Some(t.clone()),
        _ => None,
    }
}

/// Reads one strict field, as `field_at` states.
fn parse_field(events: &Vec<XmlEvent>, i: usize, name: &str) -> (r: Option<(String, usize)>)
    ensures
        match r {
            Some(p) => field_at(events_view(events@), i as int, name@) == Some((p.0@, p.1 as int))
                && i < p.1 <= events.len(),
            None => field_at(events_view(events@), i as int, name@) is None,
        },
{
    let n = events.len();
    if i >= n {
        return None;
    }
    if n - i > 1 && ev_is_open(&events[i], name) && ev_is_close(&events[i + 1], name) {
        return Some((String::new(), i + 2));
    }
    if n - i > 2 && ev_is_open(&events[i], name) {
        if let Some(t) = ev_get_text(&events[i + 1]) {
            if ev_is_close(&events[i + 2], name) {
                return Some((t, i + 3));
            }
        }
    }
    None
}

/// Reads one strict call entry, as `record_at` states.
fn parse_record(events: &Vec<XmlEvent>, i: usize) -> (r: Option<(CallRecord, usize)>)
    ensures
        match r {
            Some(p) => record_at(events_view(events@), i as int) == Some((p.0@, p.1 as int)) && i
                < p.1 <= events.len(),
            None => record_at(events_view(events@), i as int) is None,
        },
{
    let n = events.len();
    if !(i < n && ev_is_open(&events[i], "results")) {
        return None;
    }
    let f1 = match parse_field(events, i + 1, "messageDirection") {
        Some(p) => p,
        None => { return None; },
    };
    let f2 = match parse_field(events, f1.1, "remoteNumber") {
        Some(p) => p,
        None => { return None; },
    };
    let f3 = match parse_field(events, f2.1, "startTime") {
        Some(p) => p,
        None => { return None; },
    };
    let f4 = match parse_field(events, f3.1, "endTime") {
        Some(p) => p,
        None => { return None; },
    };
    let f5 = match parse_field(events, f4.1, "lengthOfCall") {
        Some(p) => p,
        None => { return None; },
    };
    let v = match parse_u32(f5.0.as_str()) {
        Some(v) => v,
        None => { return None; },
    };
    let j5 = f5.1;
    if j5 < n && ev_is_close(&events[j5], "results") {
        Some(
            (
                CallRecord {
                    message_direction: f1.0,
                    remote_number: f2.0,
                    start_time: f3.0,
                    end_time: f4.0,
                    length_of_call: v,
                },
                j5 + 1,
            ),
        )
    } else {
        None
    }
}

/// Reads a run of strict call entries, as `records_at` states.
fn parse_records(events: &Vec<XmlEvent>, i: usize) -> (r: (Vec<CallRecord>, usize))
    requires
        i <= events.len(),
    ensures
        records_at(events_view(events@), i as int).0 == r.0@.map_values(|c: CallRecord| c@),
        records_at(events_view(events@), i as int).1 == r.1 as int,
        i <= r.1 <= events.len(),
{
    let ghost evs = events_view(events@);
    let mut acc: Vec<CallRecord> = Vec::new();
    let mut j: usize = i;
    loop
        invariant_except_break
            i <= j <= events.len(),
            evs == events_view(events@),
            records_at(evs, i as int).0 =~= acc@.map_values(|c: CallRecord| c@) + records_at(
                evs,
                j as int,
            ).0,
            records_at(evs, i as int).1 == records_at(evs, j as int).1,
        ensures
            i <= j <= events.len(),
            records_at(evs, i as int).0 =~= acc@.map_values(|c: CallRecord| c@),
            records_at(evs, i as int).1 == j as int,
        decreases events.len() - j,
    {
        let ghost j0 = j as int;
        let ghost acc0 = acc@;
        match parse_record(events, j) {
            Some(p) => {
                acc.push(p.0);
                j = p.1;
                proof {
                    assert(records_at(evs, j0) == (
                        seq![p.0@] + records_at(evs, j as int).0,
                        records_at(evs, j as int).1,
                    ));
                    assert(acc@.map_values(|c: CallRecord| c@) =~= acc0.map_values(
                        |c: CallRecord| c@,
                    ).push(p.0@));
                    assert(acc0.map_values(|c: CallRecord| c@) + (seq![p.0@] + records_at(
                        evs,
                        j as int,
                    ).0) =~= acc@.map_values(|c: CallRecord| c@) + records_at(evs, j as int).0);
                }
            },
            None => {
                proof {
                    assert(records_at(evs, j as int).0 =~= Seq::<CallRecordView>::empty());
                    assert(acc@.map_values(|c: CallRecord| c@) + records_at(evs, j as int).0
                        =~= acc@.map_values(|c: CallRecord| c@));
                }
                break;
            },
        }
    }
    (acc, j)
}

/// Reads the strict result-block contents, as `lds_at` states.
fn parse_lds(events: &Vec<XmlEvent>, i: usize) -> (r: Option<(Lds101Results, usize)>)
    requires
        i <= events.len(),
    ensures
        match r {
            Some(p) => lds_at(events_view(events@), i as int) == Some((p.0@, p.1 as int)) && p.1
                <= events.len(),
            None => lds_at(events_view(events@), i as int) is None,
        },
{
    let f1 = match parse_field(events, i, "targetType") {
        Some(p) => p,
        None => { return None; },
    };
    let f2 = match parse_field(events, f1.1, "targetValue") {
        Some(p) => p,
        None => { return None; },
    };
    let f3 = match parse_field(events, f2.1, "fromDate") {
        Some(p) => p,
        None => { return None; },
    };
    let f4 = match parse_field(events, f3.1, "toDate") {
        Some(p) => p,
        None => { return None; },
    };
    let rs = parse_records(events, f4.1);
    Some(
        (
            Lds101Results {
                target_type: f1.0,
                target_value: f2.0,
                from_date: f3.0,
                to_date: f4.0,
                results: rs.0,
            },
            rs.1,
        ),
    )
}

/// Tier one, as `tier1_at` states.
fn parse_tier1(events: &Vec<XmlEvent>) -> (r: Option<DataProduct>)
    ensures
        match r {
            Some(dp) => tier1_at(events_view(events@)) == Some(dp@),
            None => tier1_at(events_view(events@)) is None,
        },
{
    let n = events.len();
    if n < 2 {
        return None;
    }
    let root: String = match &events[0] {
        XmlEvent::Open(rn) => rn.clone(),
        _ => { return None; },
    };
    if !ev_is_open(&events[1], "xmlResult") {
        return None;
    }
    let l = match parse_lds(events, 2) {
        Some(p) => p,
        None => { return None; },
    };
    let k = l.1;
    if n - k == 2 && ev_is_close(&events[k], "xmlResult") && ev_is_close(
        &events[k + 1],
        root.as_str(),
    ) {
        Some(DataProduct { xml_result: l.0 })
    } else {
        None
    }
}

/// Tier two, as `tier2_at` states.
fn parse_tier2(events: &Vec<XmlEvent>) -> (r: Option<Lds101Results>)
    ensures
        match r {
            Some(l) => tier2_at(events_view(events@)) == Some(l@),
            None => tier2_at(events_view(events@)) is None,
        },
{
    let n = events.len();
    if n < 1 {
        return None;
    }
    let root: String = match &events[0] {
        XmlEvent::Open(rn) => rn.clone(),
        _ => { return None; },
    };
    let l = match parse_lds(events, 1) {
        Some(p) => p,
        None => { return None; },
    };
    let k = l.1;
    if n - k == 1 && ev_is_close(&events[k], root.as_str()) {
        Some(l.0)
    } else {
        None
    }
}

/// The document parser's public face.
pub struct XmlParser;

impl XmlParser {
    /// Normalizes every entry of a result block, dropping the entries
    /// whose timestamps do not parse; one bad entry never aborts the
    /// batch.
    pub fn process_lds_results_with_source(lds: &Lds101Results, source_file: &str) -> (r: Vec<
        ProcessedCallRecord,
    >)
        ensures
            processed_matches(r@, kept(lds@.results), lds@.target_value, source_file@),
    {
        let mut out: Vec<ProcessedCallRecord> = Vec::new();
        let mut i: usize = 0;
        while i < lds.results.len()
            invariant
                i <= lds.results.len(),
                processed_matches(
                    out@,
                    kept(lds@.results.take(i as int)),
                    lds@.target_value,
                    source_file@,
                ),
            decreases lds.results.len() - i,
        {
            proof {
                assert(lds@.results.take(i + 1).drop_last() =~= lds@.results.take(i as int));
                assert(lds@.results.take(i + 1).last() == lds@.results[i as int]);
                assert(lds@.results[i as int] == lds.results@[i as int]@);
            }
            let ghost k0 = kept(lds@.results.take(i as int));
            match ProcessedCallRecord::from_call_record(
                &lds.results[i],
                lds.target_value.as_str(),
                source_file,
            ) {
                Ok(p) => {
                    out.push(p);
                    proof {
                        assert(kept(lds@.results.take(i + 1)) =~= k0.push(lds@.results[i as int]));
                    }
                },
                Err(_) => {},
            }
            i = i + 1;
        }
        proof {
            assert(lds@.results.take(lds.results@.len() as int) =~= lds@.results);
        }
        out
    }

    /// Parses a document and normalizes what it carries, trying the
    /// wrapped schema, then the bare result block, then the tolerant
    /// scan. Total: malformed input yields a best-effort, possibly
    /// empty, record sequence, never an error.
    pub fn parse_content_with_source(content: &str, source_file: &str) -> (r: Vec<
        ProcessedCallRecord,
    >)
        ensures
            processed_matches(
                r@,
                kept(doc_entries(xml_events(content@)).0),
                doc_entries(xml_events(content@)).1,
                source_file@,
            ),
    {
        let events = tokenize_xml(content);
        if let Some(dp) = parse_tier1(&events) {
            return Self::process_lds_results_with_source(&dp.xml_result, source_file);
        }
        if let Some(l) = parse_tier2(&events) {
            return Self::process_lds_results_with_source(&l, source_file);
        }
        let scanned = scan_events(&events);
        let lds = Lds101Results {
            target_type: String::new(),
            target_value: scanned.1,
            from_date: String::new(),
            to_date: String::new(),
            results: scanned.0,
        };
        Self::process_lds_results_with_source(&lds, source_file)
    }

    /// `parse_content_with_source` under the placeholder source name.
    pub fn parse_content(content: &str) -> (r: Vec<ProcessedCallRecord>)
        ensures
            processed_matches(
                r@,
                kept(doc_entries(xml_events(content@)).0),
                doc_entries(xml_events(content@)).1,
                "unknown"@,
            ),
    {
        Self::parse_content_with_source(content, "unknown")
    }
}

} // verus!

verus! {

/// The element names of the schema are pairwise distinct wherever the
/// tolerant scan's routing tells them apart.
proof fn lemma_names_distinct()
    ensures
        "xmlResult"@ != "results"@,
        "targetType"@ != "results"@,
        "targetValue"@ != "results"@,
        "fromDate"@ != "results"@,
        "toDate"@ != "results"@,
        "messageDirection"@ != "results"@,
        "remoteNumber"@ != "results"@,
        "startTime"@ != "results"@,
        "endTime"@ != "results"@,
        "lengthOfCall"@ != "results"@,
        "targetType"@ != "targetValue"@,
        "fromDate"@ != "targetValue"@,
        "toDate"@ != "targetValue"@,
        "remoteNumber"@ != "messageDirection"@,
        "startTime"@ != "messageDirection"@,
        "startTime"@ != "remoteNumber"@,
        "endTime"@ != "messageDirection"@,
        "endTime"@ != "remoteNumber"@,
        "endTime"@ != "startTime"@,
        "lengthOfCall"@ != "messageDirection"@,
        "lengthOfCall"@ != "remoteNumber"@,
        "lengthOfCall"@ != "startTime"@,
        "lengthOfCall"@ != "endTime"@,
{
    reveal_strlit("xmlResult");
    reveal_strlit("results");
    reveal_strlit("targetType");
    reveal_strlit("targetValue");
    reveal_strlit("fromDate");
    reveal_strlit("toDate");
    reveal_strlit("messageDirection");
    reveal_strlit("remoteNumber");
    reveal_strlit("startTime");
    reveal_strlit("endTime");
    reveal_strlit("lengthOfCall");
    assert("xmlResult"@.len() == 9);
    assert("results"@.len() == 7);
    assert("targetType"@.len() == 10);
    assert("targetValue"@.len() == 11);
    assert("fromDate"@.len() == 8);
    assert("toDate"@.len() == 6);
    assert("messageDirection"@.len() == 16);
    assert("remoteNumber"@.len() == 12);
    assert("startTime"@.len() == 9);
    assert("endTime"@.len() == 7);
    assert("lengthOfCall"@.len() == 12);
    assert("endTime"@ != "results"@) by {
        assert("endTime"@[0] == 'e');
        assert("results"@[0] == 'r');
    }
    assert("lengthOfCall"@ != "remoteNumber"@) by {
        assert("lengthOfCall"@[0] == 'l');
        assert("remoteNumber"@[0] == 'r');
    }
}

/// The effect of one strict field on the scan, outside any entry: the
/// field's name becomes the current element, and only a `targetValue`
/// text moves the target.
proof fn lemma_scan_field_outside(
    evs: Seq<XmlEventView>,
    i: int,
    name: Seq<char>,
    st: crate::xml_scan::ScanView,
)
    requires
        0 <= i,
        field_at(evs, i, name) is Some,
        st.cur is None,
        name != "results"@,
    ensures
        ({
            let f = field_at(evs, i, name).unwrap();
            let r = crate::xml_scan::scan_from(st, evs.subrange(i, f.1));
            &&& r.cur_elem == name
            &&& r.cur is None
            &&& r.recs == st.recs
            &&& r.target == if name == "targetValue"@ && f.1 == i + 3 {
                f.0
            } else {
                st.target
            }
        }),
{
    reveal_with_fuel(crate::xml_scan::scan_from, 4);
    let f = field_at(evs, i, name).unwrap();
    let seg = evs.subrange(i, f.1);
    assert(evs[i] == XmlEventView::Open(name));
    let st1 = crate::xml_scan::scan_step(st, evs[i]);
    assert(crate::xml_scan::scan_from(st, seq![evs[i]]) == st1) by {
        assert(seq![evs[i]].drop_last() =~= Seq::<XmlEventView>::empty());
        assert(seq![evs[i]].last() == evs[i]);
    }
    if f.1 == i + 2 {
        assert(evs[i + 1] == XmlEventView::Close(name));
        assert(seg =~= seq![evs[i], evs[i + 1]]);
        assert(seg.drop_last() =~= seq![evs[i]]);
        assert(seg.last() == evs[i + 1]);
        assert(crate::xml_scan::scan_from(st, seg) == crate::xml_scan::scan_step(st1, evs[i + 1]));
    } else {
        assert(f.1 == i + 3);
        assert(ev_text_of(evs[i + 1]) == Some(f.0));
        assert(evs[i + 1] == XmlEventView::Text(f.0));
        assert(evs[i + 2] == XmlEventView::Close(name));
        let st2 = crate::xml_scan::scan_step(st1, evs[i + 1]);
        assert(seg =~= seq![evs[i], evs[i + 1], evs[i + 2]]);
        assert(seg.drop_last() =~= seq![evs[i], evs[i + 1]]);
        assert(seq![evs[i], evs[i + 1]].drop_last() =~= seq![evs[i]]);
        assert(seq![evs[i], evs[i + 1]].last() == evs[i + 1]);
        assert(crate::xml_scan::scan_from(st, seq![evs[i], evs[i + 1]]) == st2);
        assert(seg.last() == evs[i + 2]);
        assert(crate::xml_scan::scan_from(st, seg) == crate::xml_scan::scan_step(st2, evs[i + 2]));
    }
}

/// The effect of one strict field on the scan, inside an entry: the text
/// is routed into the entry by the field's name.
proof fn lemma_scan_field_inside(
    evs: Seq<XmlEventView>,
    i: int,
    name: Seq<char>,
    st: crate::xml_scan::ScanView,
    rec: CallRecordView,
)
    requires
        0 <= i,
        field_at(evs, i, name) is Some,
        st.cur == Some(rec),
        name != "results"@,
    ensures
        ({
            let f = field_at(evs, i, name).unwrap();
            let r = crate::xml_scan::scan_from(st, evs.subrange(i, f.1));
            &&& r.cur_elem == name
            &&& r.recs == st.recs
            &&& r.target == st.target
            &&& r.cur == Some(
                if f.1 == i + 3 {
                    crate::xml_scan::route_text(rec, name, f.0)
                } else {
                    rec
                },
            )
        }),
{
    reveal_with_fuel(crate::xml_scan::scan_from, 4);
    let f = field_at(evs, i, name).unwrap();
    let seg = evs.subrange(i, f.1);
    assert(evs[i] == XmlEventView::Open(name));
    let st1 = crate::xml_scan::scan_step(st, evs[i]);
    assert(crate::xml_scan::scan_from(st, seq![evs[i]]) == st1) by {
        assert(seq![evs[i]].drop_last() =~= Seq::<XmlEventView>::empty());
        assert(seq![evs[i]].last() == evs[i]);
    }
    if f.1 == i + 2 {
        assert(evs[i + 1] == XmlEventView::Close(name));
        assert(seg =~= seq![evs[i], evs[i + 1]]);
        assert(seg.drop_last() =~= seq![evs[i]]);
        assert(seg.last() == evs[i + 1]);
        assert(crate::xml_scan::scan_from(st, seg) == crate::xml_scan::scan_step(st1, evs[i + 1]));
    } else {
        assert(f.1 == i + 3);
        assert(ev_text_of(evs[i + 1]) == Some(f.0));
        assert(evs[i + 1] == XmlEventView::Text(f.0));
        assert(evs[i + 2] == XmlEventView::Close(name));
        let st2 = crate::xml_scan::scan_step(st1, evs[i + 1]);
        assert(seg =~= seq![evs[i], evs[i + 1], evs[i + 2]]);
        assert(seg.drop_last() =~= seq![evs[i], evs[i + 1]]);
        assert(seq![evs[i], evs[i + 1]].drop_last() =~= seq![evs[i]]);
        assert(seq![evs[i], evs[i + 1]].last() == evs[i + 1]);
        assert(crate::xml_scan::scan_from(st, seq![evs[i], evs[i + 1]]) == st2);
        assert(seg.last() == evs[i + 2]);
        assert(crate::xml_scan::scan_from(st, seg) == crate::xml_scan::scan_step(st2, evs[i + 2]));
    }
}

} // verus!

verus! {

/// The effect of one strict call entry on the scan: outside an entry,
/// the segment emits exactly the entry `record_at` reads, and nothing
/// else changes but the current element name.
proof fn lemma_scan_record(evs: Seq<XmlEventView>, i: int, st: crate::xml_scan::ScanView)
    requires
        0 <= i,
        record_at(evs, i) is Some,
        st.cur is None,
    ensures
        ({
            let rj = record_at(evs, i).unwrap();
            let r = crate::xml_scan::scan_from(st, evs.subrange(i, rj.1));
            &&& r.cur is None
            &&& r.target == st.target
            &&& r.recs == st.recs.push(rj.0)
        }),
{
    reveal_with_fuel(crate::xml_scan::scan_from, 4);
    lemma_names_distinct();
    let rj = record_at(evs, i).unwrap();
    let rec = rj.0;
    let j = rj.1;
    let f1 = field_at(evs, i + 1, "messageDirection"@).unwrap();
    let f2 = field_at(evs, f1.1, "remoteNumber"@).unwrap();
    let f3 = field_at(evs, f2.1, "startTime"@).unwrap();
    let f4 = field_at(evs, f3.1, "endTime"@).unwrap();
    let f5 = field_at(evs, f4.1, "lengthOfCall"@).unwrap();
    let j5 = f5.1;
    assert(evs[i] == XmlEventView::Open("results"@));
    assert(evs[j5] == XmlEventView::Close("results"@));
    assert(j == j5 + 1);
    // Walk the segment: the opening tag starts a fresh entry, the five
    // fields fill it, and the closing tag emits it.
    let st0 = crate::xml_scan::scan_step(st, evs[i]);
    assert(st0.cur == Some(crate::xml_scan::empty_entry()));
    assert(crate::xml_scan::scan_from(st, evs.subrange(i, i + 1)) == st0) by {
        assert(evs.subrange(i, i + 1) =~= seq![evs[i]]);
        assert(seq![evs[i]].drop_last() =~= Seq::<XmlEventView>::empty());
    }
    lemma_scan_field_inside(evs, i + 1, "messageDirection"@, st0, crate::xml_scan::empty_entry());
    let st1 = crate::xml_scan::scan_from(st0, evs.subrange(i + 1, f1.1));
    let r1 = CallRecordView {
        message_direction: f1.0,
        ..crate::xml_scan::empty_entry()
    };
    assert(st1.cur == Some(r1));
    lemma_scan_field_inside(evs, f1.1, "remoteNumber"@, st1, r1);
    let st2 = crate::xml_scan::scan_from(st1, evs.subrange(f1.1, f2.1));
    let r2 = CallRecordView { remote_number: f2.0, ..r1 };
    assert(st2.cur == Some(r2));
    lemma_scan_field_inside(evs, f2.1, "startTime"@, st2, r2);
    let st3 = crate::xml_scan::scan_from(st2, evs.subrange(f2.1, f3.1));
    let r3 = CallRecordView { start_time: f3.0, ..r2 };
    assert(st3.cur == Some(r3));
    lemma_scan_field_inside(evs, f3.1, "endTime"@, st3, r3);
    let st4 = crate::xml_scan::scan_from(st3, evs.subrange(f3.1, f4.1));
    let r4 = CallRecordView { end_time: f4.0, ..r3 };
    assert(st4.cur == Some(r4));
    lemma_scan_field_inside(evs, f4.1, "lengthOfCall"@, st4, r4);
    let st5 = crate::xml_scan::scan_from(st4, evs.subrange(f4.1, j5));
    assert(f5.1 == f4.1 + 3) by {
        if f5.1 == f4.1 + 2 {
            assert(parse_u32_spec(Seq::<char>::empty()) is None);
        }
    }
    assert(st5.cur == Some(rec)) by {
        assert(crate::xml_scan::route_text(r4, "lengthOfCall"@, f5.0) == rec);
    }
    let st6 = crate::xml_scan::scan_step(st5, evs[j5]);
    assert(st6.cur is None);
    assert(st6.recs == st.recs.push(rec));
    assert(st6.target == st.target);
    // Stitch the pieces together.
    assert(crate::xml_scan::scan_from(st, evs.subrange(i, f1.1)) == st1) by {
        assert(evs.subrange(i, f1.1) =~= evs.subrange(i, i + 1) + evs.subrange(i + 1, f1.1));
        crate::xml_scan::lemma_scan_from_concat(
            st,
            evs.subrange(i, i + 1),
            evs.subrange(i + 1, f1.1),
        );
    }
    assert(crate::xml_scan::scan_from(st, evs.subrange(i, f2.1)) == st2) by {
        assert(evs.subrange(i, f2.1) =~= evs.subrange(i, f1.1) + evs.subrange(f1.1, f2.1));
        crate::xml_scan::lemma_scan_from_concat(
            st,
            evs.subrange(i, f1.1),
            evs.subrange(f1.1, f2.1),
        );
    }
    assert(crate::xml_scan::scan_from(st, evs.subrange(i, f3.1)) == st3) by {
        assert(evs.subrange(i, f3.1) =~= evs.subrange(i, f2.1) + evs.subrange(f2.1, f3.1));
        crate::xml_scan::lemma_scan_from_concat(
            st,
            evs.subrange(i, f2.1),
            evs.subrange(f2.1, f3.1),
        );
    }
    assert(crate::xml_scan::scan_from(st, evs.subrange(i, f4.1)) == st4) by {
        assert(evs.subrange(i, f4.1) =~= evs.subrange(i, f3.1) + evs.subrange(f3.1, f4.1));
        crate::xml_scan::lemma_scan_from_concat(
            st,
            evs.subrange(i, f3.1),
            evs.subrange(f3.1, f4.1),
        );
    }
    assert(crate::xml_scan::scan_from(st, evs.subrange(i, j5)) == st5) by {
        assert(evs.subrange(i, j5) =~= evs.subrange(i, f4.1) + evs.subrange(f4.1, j5));
        crate::xml_scan::lemma_scan_from_concat(st, evs.subrange(i, f4.1), evs.subrange(f4.1, j5));
    }
    assert(crate::xml_scan::scan_from(st, evs.subrange(i, j)) == st6) by {
        assert(evs.subrange(i, j) =~= evs.subrange(i, j5) + seq![evs[j5]]);
        crate::xml_scan::lemma_scan_from_concat(st, evs.subrange(i, j5), seq![evs[j5]]);
        assert(crate::xml_scan::scan_from(st5, seq![evs[j5]]) == st6) by {
            assert(seq![evs[j5]].drop_last() =~= Seq::<XmlEventView>::empty());
        }
    }
}

} // verus!

verus! {

/// The effect of a run of strict call entries on the scan: exactly the
/// entries `records_at` reads are emitted, in order.
proof fn lemma_scan_records(evs: Seq<XmlEventView>, i: int, st: crate::xml_scan::ScanView)
    requires
        0 <= i <= evs.len(),
        st.cur is None,
    ensures
        ({
            let rs = records_at(evs, i);
            let r = crate::xml_scan::scan_from(st, evs.subrange(i, rs.1));
            &&& i <= rs.1 <= evs.len()
            &&& r.cur is None
            &&& r.target == st.target
            &&& r.recs == st.recs + rs.0
        }),
    decreases evs.len() - i,
{
    let rs = records_at(evs, i);
    match record_at(evs, i) {
        Some((rec, j)) => {
            assert(i < j <= evs.len()) by {
                let f1 = field_at(evs, i + 1, "messageDirection"@).unwrap();
                let f2 = field_at(evs, f1.1, "remoteNumber"@).unwrap();
                let f3 = field_at(evs, f2.1, "startTime"@).unwrap();
                let f4 = field_at(evs, f3.1, "endTime"@).unwrap();
                let f5 = field_at(evs, f4.1, "lengthOfCall"@).unwrap();
            }
            lemma_scan_record(evs, i, st);
            let st1 = crate::xml_scan::scan_from(st, evs.subrange(i, j));
            lemma_scan_records(evs, j, st1);
            let rest = records_at(evs, j);
            assert(evs.subrange(i, rest.1) =~= evs.subrange(i, j) + evs.subrange(j, rest.1));
            crate::xml_scan::lemma_scan_from_concat(
                st,
                evs.subrange(i, j),
                evs.subrange(j, rest.1),
            );
            assert(st.recs.push(rec) + rest.0 =~= st.recs + (seq![rec] + rest.0));
        },
        None => {
            assert(evs.subrange(i, i) =~= Seq::<XmlEventView>::empty());
            assert(st.recs + Seq::<CallRecordView>::empty() =~= st.recs);
        },
    }
}

/// Tier fallback agrees with the tolerant scan: a document whose token
/// stream matches the full wrapped schema yields exactly the same
/// entries and target identifier when the tolerant scan reads it
/// instead, provided the wrapping root element is not itself named
/// `results` (a root of that name would open a spurious entry in the
/// scan).
pub proof fn lemma_tier1_matches_scan(evs: Seq<XmlEventView>)
    requires
        tier1_at(evs) is Some,
        evs[0] != XmlEventView::Open("results"@),
    ensures
        crate::xml_scan::scan_run(evs).recs == tier1_at(evs).unwrap().results,
        crate::xml_scan::scan_run(evs).target == tier1_at(evs).unwrap().target_value,
{
    reveal_with_fuel(crate::xml_scan::scan_from, 4);
    lemma_names_distinct();
    crate::xml_scan::lemma_scan_run_from(evs);
    let init = crate::xml_scan::scan_init();
    let l = tier1_at(evs).unwrap();
    let lk = lds_at(evs, 2).unwrap();
    let k = lk.1;
    let f1 = field_at(evs, 2, "targetType"@).unwrap();
    let f2 = field_at(evs, f1.1, "targetValue"@).unwrap();
    let f3 = field_at(evs, f2.1, "fromDate"@).unwrap();
    let f4 = field_at(evs, f3.1, "toDate"@).unwrap();
    let rs = records_at(evs, f4.1);
    assert(rs.1 == k);
    // The two opening tags leave the scan outside any entry.
    let st0 = crate::xml_scan::scan_step(init, evs[0]);
    assert(st0.cur is None && st0.target == init.target && st0.recs == init.recs);
    let st1 = crate::xml_scan::scan_step(st0, evs[1]);
    assert(st1.cur is None && st1.target == init.target && st1.recs == init.recs);
    assert(crate::xml_scan::scan_from(init, evs.subrange(0, 2)) == st1) by {
        assert(evs.subrange(0, 2) =~= seq![evs[0], evs[1]]);
        assert(seq![evs[0], evs[1]].drop_last() =~= seq![evs[0]]);
        assert(seq![evs[0]].drop_last() =~= Seq::<XmlEventView>::empty());
    }
    // The four metadata fields: only `targetValue` moves the target.
    lemma_scan_field_outside(evs, 2, "targetType"@, st1);
    let st2 = crate::xml_scan::scan_from(st1, evs.subrange(2, f1.1));
    lemma_scan_field_outside(evs, f1.1, "targetValue"@, st2);
    let st3 = crate::xml_scan::scan_from(st2, evs.subrange(f1.1, f2.1));
    assert(st3.target == l.target_value) by {
        if f2.1 == f1.1 + 2 {
            assert(l.target_value =~= Seq::<char>::empty());
            assert(st3.target =~= Seq::<char>::empty());
        }
    }
    lemma_scan_field_outside(evs, f2.1, "fromDate"@, st3);
    let st4 = crate::xml_scan::scan_from(st3, evs.subrange(f2.1, f3.1));
    lemma_scan_field_outside(evs, f3.1, "toDate"@, st4);
    let st5 = crate::xml_scan::scan_from(st4, evs.subrange(f3.1, f4.1));
    assert(st5.cur is None && st5.target == l.target_value && st5.recs == init.recs);
    // The entries themselves.
    lemma_scan_records(evs, f4.1, st5);
    let st6 = crate::xml_scan::scan_from(st5, evs.subrange(f4.1, k));
    assert(st6.cur is None && st6.target == l.target_value);
    assert(st6.recs =~= l.results);
    // The two closing tags change nothing outside an entry.
    let st7 = crate::xml_scan::scan_step(st6, evs[k]);
    let st8 = crate::xml_scan::scan_step(st7, evs[k + 1]);
    assert(st8.cur is None && st8.target == l.target_value && st8.recs == st6.recs);
    // Stitch the segments together.
    assert(crate::xml_scan::scan_from(init, evs.subrange(0, f1.1)) == st2) by {
        assert(evs.subrange(0, f1.1) =~= evs.subrange(0, 2) + evs.subrange(2, f1.1));
        crate::xml_scan::lemma_scan_from_concat(init, evs.subrange(0, 2), evs.subrange(2, f1.1));
    }
    assert(crate::xml_scan::scan_from(init, evs.subrange(0, f2.1)) == st3) by {
        assert(evs.subrange(0, f2.1) =~= evs.subrange(0, f1.1) + evs.subrange(f1.1, f2.1));
        crate::xml_scan::lemma_scan_from_concat(
            init,
            evs.subrange(0, f1.1),
            evs.subrange(f1.1, f2.1),
        );
    }
    assert(crate::xml_scan::scan_from(init, evs.subrange(0, f3.1)) == st4) by {
        assert(evs.subrange(0, f3.1) =~= evs.subrange(0, f2.1) + evs.subrange(f2.1, f3.1));
        crate::xml_scan::lemma_scan_from_concat(
            init,
            evs.subrange(0, f2.1),
            evs.subrange(f2.1, f3.1),
        );
    }
    assert(crate::xml_scan::scan_from(init, evs.subrange(0, f4.1)) == st5) by {
        assert(evs.subrange(0, f4.1) =~= evs.subrange(0, f3.1) + evs.subrange(f3.1, f4.1));
        crate::xml_scan::lemma_scan_from_concat(
            init,
            evs.subrange(0, f3.1),
            evs.subrange(f3.1, f4.1),
        );
    }
    assert(crate::xml_scan::scan_from(init, evs.subrange(0, k)) == st6) by {
        assert(evs.subrange(0, k) =~= evs.subrange(0, f4.1) + evs.subrange(f4.1, k));
        crate::xml_scan::lemma_scan_from_concat(
            init,
            evs.subrange(0, f4.1),
            evs.subrange(f4.1, k),
        );
    }
    assert(crate::xml_scan::scan_from(init, evs) == st8) by {
        assert(evs =~= evs.subrange(0, k) + seq![evs[k], evs[k + 1]]);
        crate::xml_scan::lemma_scan_from_concat(
            init,
            evs.subrange(0, k),
            seq![evs[k], evs[k + 1]],
        );
        assert(crate::xml_scan::scan_from(st6, seq![evs[k], evs[k + 1]]) == st8) by {
            assert(seq![evs[k], evs[k + 1]].drop_last() =~= seq![evs[k]]);
            assert(seq![evs[k]].drop_last() =~= Seq::<XmlEventView>::empty());
        }
    }
}

} // verus!

verus! {

/// The same, at the level of the tier-fallback pipeline: wherever the
/// wrapped schema matched, degrading the document to the tolerant scan
/// would have produced the very same entries and target identifier.
pub proof fn lemma_doc_entries_match_scan(evs: Seq<XmlEventView>)
    requires
        tier1_at(evs) is Some,
        evs[0] != XmlEventView::Open("results"@),
    ensures
        doc_entries(evs).0 == crate::xml_scan::scan_run(evs).recs,
        doc_entries(evs).1 == crate::xml_scan::scan_run(evs).target,
{
    lemma_tier1_matches_scan(evs);
}

} // verus!
