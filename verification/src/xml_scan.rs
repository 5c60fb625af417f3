//! The tolerant third parsing tier: a small state machine over the token
//! stream. It opens a fresh entry at every `results` element, routes text
//! into the entry's fields by the name of the element last opened,
//! captures a top-level `targetValue` as the target identifier, and emits
//! the entry when `results` closes. Unknown elements and ragged structure
//! are ignored, never rejected.

use vstd::prelude::*;
use vstd::string::StrSliceExecFns;
use vstd::string::StringExecFns;
use crate::data_models::{CallRecord, CallRecordView};
use crate::strutil::{is_digit, str_eq};
use crate::time::{digits_at, num_at};
use crate::xml_events::{XmlEvent, XmlEventView, events_view};

verus! {

/// The number a digit-only, in-range string names; nothing otherwise.
/// This is what a `lengthOfCall` text must parse as.
pub open spec fn parse_u32_spec(t: Seq<char>) -> Option<u32> {
    if t.len() > 0 && digits_at(t, 0, t.len() as int) && num_at(t, 0, t.len() as int) <= u32::MAX {
        Some(num_at(t, 0, t.len() as int) as u32)
    } else {
        None
    }
}

/// The value of a digit string never shrinks as digits are appended.
proof fn lemma_num_at_grows(s: Seq<char>, j: int, k: int)
    requires
        0 <= j <= k,
        digits_at(s, 0, k),
    ensures
        num_at(s, 0, j) <= num_at(s, 0, k),
        num_at(s, 0, k) >= 0,
    decreases k,
{
    if k > 0 {
        if j == k {
            lemma_num_at_grows(s, j - 1, k - 1);
        } else {
            lemma_num_at_grows(s, j, k - 1);
        }
    }
}

/// Parses a base-10 digit string into a `u32`, exactly as
/// `parse_u32_spec` states.
pub fn parse_u32(t: &str) -> (r: Option<u32>)
    ensures
        r == parse_u32_spec(t@),
{
    let n = t.unicode_len();
    if n == 0 {
        return None;
    }
    let mut acc: u64 = 0;
    let mut i: usize = 0;
    while i < n
        invariant
            n == t@.len(),
            i <= n,
            digits_at(t@, 0, i as int),
            acc == num_at(t@, 0, i as int),
            acc <= u32::MAX,
        decreases n - i,
    {
        let c = t.get_char(i);
        if !('0' <= c && c <= '9') {
            assert(!digits_at(t@, 0, n as int)) by {
                assert(!is_digit(t@[i as int]));
            }
            return None;
        }
        assert(num_at(t@, 0, i + 1) == num_at(t@, 0, i as int) * 10 + (c as int - '0' as int));
        acc = acc * 10 + (c as u32 as u64 - 48);
        let ghost ii = i as int;
        i = i + 1;
        assert forall|x: int| 0 <= x < i implies is_digit(#[trigger] t@[x]) by {
            if x == ii {
                assert(is_digit(t@[x]));
            }
        }
        if acc > 0xFFFF_FFFF {
            let mut k = i;
            while k < n
                invariant
                    n == t@.len(),
                    i <= k <= n,
                    forall|x: int| i <= x < k ==> is_digit(#[trigger] t@[x]),
                decreases n - k,
            {
                let c2 = t.get_char(k);
                if !('0' <= c2 && c2 <= '9') {
                    assert(!digits_at(t@, 0, n as int)) by {
                        assert(!is_digit(t@[k as int]));
                    }
                    return None;
                }
                k = k + 1;
            }
            proof {
                assert(digits_at(t@, 0, n as int));
                lemma_num_at_grows(t@, i as int, n as int);
            }
            return None;
        }
    }
    Some(acc as u32)
}

/// Where the tolerant scan stands after a prefix of the events.
pub struct ScanView {
    /// The name of the element last opened.
    pub cur_elem: Seq<char>,
    /// The entry under construction, if a `results` element is open.
    pub cur: Option<CallRecordView>,
    /// The last `targetValue` text seen outside an entry.
    pub target: Seq<char>,
    /// The entries emitted so far.
    pub recs: Seq<CallRecordView>,
}

/// The scan before any event.
pub open spec fn scan_init() -> ScanView {
    ScanView {
        cur_elem: Seq::<char>::empty(),
        cur: None,
        target: Seq::<char>::empty(),
        recs: Seq::<CallRecordView>::empty(),
    }
}

/// A fresh, all-empty entry.
pub open spec fn empty_entry() -> CallRecordView {
    CallRecordView {
        message_direction: Seq::<char>::empty(),
        remote_number: Seq::<char>::empty(),
        start_time: Seq::<char>::empty(),
        end_time: Seq::<char>::empty(),
        length_of_call: 0,
    }
}

/// Routes one text run into the entry under construction.
pub open spec fn route_text(rec: CallRecordView, elem: Seq<char>, t: Seq<char>) -> CallRecordView {
    if elem == "messageDirection"@ {
        CallRecordView { message_direction: t, ..rec }
    } else if elem == "remoteNumber"@ {
        CallRecordView { remote_number: t, ..rec }
    } else if elem == "startTime"@ {
        CallRecordView { start_time: t, ..rec }
    } else if elem == "endTime"@ {
        CallRecordView { end_time: t, ..rec }
    } else if elem == "lengthOfCall"@ {
        match parse_u32_spec(t) {
            Some(v) => CallRecordView { length_of_call: v, ..rec },
            None => rec,
        }
    } else {
        rec
    }
}

/// One step of the tolerant scan.
pub open spec fn scan_step(st: ScanView, ev: XmlEventView) -> ScanView {
    match ev {
        XmlEventView::Open(n) => ScanView {
            cur_elem: n,
            cur: if n == "results"@ {
                Some(empty_entry())
            } else {
                st.cur
            },
            ..st
        },
        XmlEventView::Text(t) => match st.cur {
            Some(rec) => ScanView { cur: Some(route_text(rec, st.cur_elem, t)), ..st },
            None => if st.cur_elem == "targetValue"@ {
                ScanView { target: t, ..st }
            } else {
                st
            },
        },
        XmlEventView::Close(n) => match st.cur {
            Some(rec) => if n == "results"@ {
                ScanView { cur: None, recs: st.recs.push(rec), ..st }
            } else {
                st
            },
            None => st,
        },
    }
}

/// The scan state after all of `evs`.
pub open spec fn scan_run(evs: Seq<XmlEventView>) -> ScanView
    decreases evs.len(),
{
    if evs.len() == 0 {
        scan_init()
    } else {
        scan_step(scan_run(evs.drop_last()), evs.last())
    }
}

/// Runs the tolerant scan over a token stream, as `scan_run` states:
/// returns the recovered entries and the target identifier.
pub fn scan_events(events: &Vec<XmlEvent>) -> (r: (Vec<CallRecord>, String))
    ensures
        r.0@.map_values(|c: CallRecord| c@) == scan_run(events_view(events@)).recs,
        r.1@ == scan_run(events_view(events@)).target,
{
    let ghost all = events_view(events@);
    let mut cur_elem = String::new();
    let mut cur: Option<CallRecord> = None;
    let mut target = String::new();
    let mut recs: Vec<CallRecord> = Vec::new();
    let mut i: usize = 0;
    while i < events.len()
        invariant
            i <= events.len(),
            all == events_view(events@),
            cur_elem@ == scan_run(all.take(i as int)).cur_elem,
            target@ == scan_run(all.take(i as int)).target,
            recs@.map_values(|c: CallRecord| c@) == scan_run(all.take(i as int)).recs,
            match (cur, scan_run(all.take(i as int)).cur) {
                (Some(c), Some(v)) => c@ == v,
                (None, None) => true,
                _ => false,
            },
        decreases events.len() - i,
    {
        let ghost st0 = scan_run(all.take(i as int));
        proof {
            assert(all.take(i + 1).drop_last() =~= all.take(i as int));
            assert(all.take(i + 1).last() == all[i as int]);
            assert(events@[i as int]@ == all[i as int]);
        }
        match &events[i] {
            XmlEvent::Open(n) => {
                cur_elem = n.clone();
                if str_eq(n.as_str(), "results") {
                    cur = Some(
                        CallRecord {
                            message_direction: String::new(),
                            remote_number: String::new(),
                            start_time: String::new(),
                            end_time: String::new(),
                            length_of_call: 0,
                        },
                    );
                }
            },
            XmlEvent::Text(t) => {
                let has_entry = cur.is_some();
                if has_entry {
                    if let Some(rec) = &mut cur {
                        if str_eq(cur_elem.as_str(), "messageDirection") {
                            rec.message_direction = t.clone();
                        } else if str_eq(cur_elem.as_str(), "remoteNumber") {
                            rec.remote_number = t.clone();
                        } else if str_eq(cur_elem.as_str(), "startTime") {
                            rec.start_time = t.clone();
                        } else if str_eq(cur_elem.as_str(), "endTime") {
                            rec.end_time = t.clone();
                        } else if str_eq(cur_elem.as_str(), "lengthOfCall") {
                            if let Some(v) = parse_u32(t.as_str()) {
                                rec.length_of_call = v;
                            }
                        }
                    }
                } else if str_eq(cur_elem.as_str(), "targetValue") {
                    target = t.clone();
                }
            },
            XmlEvent::Close(n) => {
                let closes_entry = cur.is_some() && str_eq(n.as_str(), "results");
                if closes_entry {
                    if let Some(rec) = cur {
                        recs.push(rec);
                    }
                    cur = None;
                }
            },
        }
        i = i + 1;
        proof {
            let st1 = scan_run(all.take(i as int));
            assert(st1 == scan_step(st0, all[i - 1]));
            assert(recs@.map_values(|c: CallRecord| c@) =~= st1.recs);
        }
    }
    proof {
        assert(all.take(events@.len() as int) =~= all);
    }
    (recs, target)
}

} // verus!

verus! {

/// The scan continued from an arbitrary state.
pub open spec fn scan_from(st: ScanView, evs: Seq<XmlEventView>) -> ScanView
    decreases evs.len(),
{
    if evs.len() == 0 {
        st
    } else {
        scan_step(scan_from(st, evs.drop_last()), evs.last())
    }
}

/// The whole scan is the continued scan from the initial state.
pub proof fn lemma_scan_run_from(evs: Seq<XmlEventView>)
    ensures
        scan_run(evs) == scan_from(scan_init(), evs),
    decreases evs.len(),
{
    if evs.len() > 0 {
        lemma_scan_run_from(evs.drop_last());
    }
}

/// The scan distributes over concatenation.
pub proof fn lemma_scan_from_concat(st: ScanView, a: Seq<XmlEventView>, b: Seq<XmlEventView>)
    ensures
        scan_from(st, a + b) == scan_from(scan_from(st, a), b),
    decreases b.len(),
{
    if b.len() == 0 {
        assert(a + b =~= a);
    } else {
        assert((a + b).drop_last() =~= a + b.drop_last());
        assert((a + b).last() == b.last());
        lemma_scan_from_concat(st, a, b.drop_last());
    }
}

} // verus!
