//! Aggregate statistics over a set of canonical records: direction split,
//! durations, per-number frequencies, per-day and per-hour histograms,
//! extreme calls, the covered time span, and cross-target correlation.

use vstd::prelude::*;
use vstd::string::StrSliceExecFns;
use crate::data_models::{Analytics, CommonContact, ProcessedCallRecord};
use crate::strutil::{str_eq, str_le, lex_le, lemma_lex_le_total, lemma_lex_le_trans};
use crate::time::{UtcTime, date_chars, two_digit_chars, push_two_digits, format_date};
use crate::strutil::{dec_of, append_u128, append_usize};
use vstd::string::StringExecFns;

verus! {

/// `c` is the letter `lo`, in either case.
pub open spec fn ci(c: char, lo: char, up: char) -> bool {
    c == lo || c == up
}

/// The direction label reads `incoming`, ignoring ASCII case. Any other
/// label counts as outgoing.
pub open spec fn is_incoming(dir: Seq<char>) -> bool {
    &&& dir.len() == 8
    &&& ci(dir[0], 'i', 'I')
    &&& ci(dir[1], 'n', 'N')
    &&& ci(dir[2], 'c', 'C')
    &&& ci(dir[3], 'o', 'O')
    &&& ci(dir[4], 'm', 'M')
    &&& ci(dir[5], 'i', 'I')
    &&& ci(dir[6], 'n', 'N')
    &&& ci(dir[7], 'g', 'G')
}

/// How many records are incoming calls.
pub open spec fn count_incoming(s: Seq<ProcessedCallRecord>) -> int
    decreases s.len(),
{
    if s.len() == 0 {
        0
    } else {
        count_incoming(s.drop_last()) + if is_incoming(s.last().message_direction@) {
            1int
        } else {
            0int
        }
    }
}

/// The summed call length, in seconds.
pub open spec fn sum_seconds(s: Seq<ProcessedCallRecord>) -> int
    decreases s.len(),
{
    if s.len() == 0 {
        0
    } else {
        sum_seconds(s.drop_last()) + s.last().length_of_call
    }
}

/// The distinct normalized numbers of a record set.
pub open spec fn numbers_of(s: Seq<ProcessedCallRecord>) -> Set<Seq<char>>
    decreases s.len(),
{
    if s.len() == 0 {
        Set::<Seq<char>>::empty()
    } else {
        numbers_of(s.drop_last()).insert(s.last().normalized_number@)
    }
}

/// The distinct non-empty target identifiers of a record set.
pub open spec fn targets_of(s: Seq<ProcessedCallRecord>) -> Set<Seq<char>>
    decreases s.len(),
{
    if s.len() == 0 {
        Set::<Seq<char>>::empty()
    } else if s.last().target_number@.len() > 0 {
        targets_of(s.drop_last()).insert(s.last().target_number@)
    } else {
        targets_of(s.drop_last())
    }
}

/// The distinct non-empty source identifiers of a record set.
pub open spec fn sources_of(s: Seq<ProcessedCallRecord>) -> Set<Seq<char>>
    decreases s.len(),
{
    if s.len() == 0 {
        Set::<Seq<char>>::empty()
    } else if s.last().source_file@.len() > 0 {
        sources_of(s.drop_last()).insert(s.last().source_file@)
    } else {
        sources_of(s.drop_last())
    }
}

/// How often a normalized number occurs.
pub open spec fn count_number(s: Seq<ProcessedCallRecord>, n: Seq<char>) -> int
    decreases s.len(),
{
    if s.len() == 0 {
        0
    } else {
        count_number(s.drop_last(), n) + if s.last().normalized_number@ == n {
            1int
        } else {
            0int
        }
    }
}

/// How many calls fall on the given date.
pub open spec fn count_day(s: Seq<ProcessedCallRecord>, d: Seq<char>) -> int
    decreases s.len(),
{
    if s.len() == 0 {
        0
    } else {
        count_day(s.drop_last(), d) + if s.last().date@ == d {
            1int
        } else {
            0int
        }
    }
}

/// How many calls fall on the given target identifier.
pub open spec fn count_target(s: Seq<ProcessedCallRecord>, t: Seq<char>) -> int
    decreases s.len(),
{
    if s.len() == 0 {
        0
    } else {
        count_target(s.drop_last(), t) + if s.last().target_number@ == t {
            1int
        } else {
            0int
        }
    }
}

/// How many calls start within the given hour of day.
pub open spec fn count_hour(s: Seq<ProcessedCallRecord>, h: int) -> int
    decreases s.len(),
{
    if s.len() == 0 {
        0
    } else {
        count_hour(s.drop_last(), h) + if s.last().start_time.hour == h {
            1int
        } else {
            0int
        }
    }
}

/// The records agree on every field.
pub open spec fn same_record(a: ProcessedCallRecord, b: ProcessedCallRecord) -> bool {
    &&& a.message_direction@ == b.message_direction@
    &&& a.remote_number@ == b.remote_number@
    &&& a.normalized_number@ == b.normalized_number@
    &&& a.target_number@ == b.target_number@
    &&& a.source_file@ == b.source_file@
    &&& a.start_time == b.start_time
    &&& a.end_time == b.end_time
    &&& a.length_of_call == b.length_of_call
    &&& a.date@ == b.date@
    &&& a.time@ == b.time@
    &&& a.date_time@ == b.date_time@
    &&& a.day_of_week@ == b.day_of_week@
}

/// Position `i` holds the longest call, first occurrence on ties.
pub open spec fn is_first_longest(s: Seq<ProcessedCallRecord>, i: int) -> bool {
    &&& 0 <= i < s.len()
    &&& forall|j: int| 0 <= j < s.len() ==> (#[trigger] s[j]).length_of_call <= s[i].length_of_call
    &&& forall|j: int| 0 <= j < i ==> (#[trigger] s[j]).length_of_call < s[i].length_of_call
}

/// Position `i` holds the shortest call of non-zero length, first
/// occurrence on ties; zero-length records are excluded entirely.
pub open spec fn is_first_shortest(s: Seq<ProcessedCallRecord>, i: int) -> bool {
    &&& 0 <= i < s.len()
    &&& s[i].length_of_call > 0
    &&& forall|j: int|
        0 <= j < s.len() && (#[trigger] s[j]).length_of_call > 0 ==> s[i].length_of_call
            <= s[j].length_of_call
    &&& forall|j: int| 0 <= j < i ==> (#[trigger] s[j]).length_of_call == 0 || s[i].length_of_call
        < s[j].length_of_call
}

/// Whether the direction label reads `incoming`, ignoring ASCII case.
pub fn is_incoming_x(dir: &str) -> (r: bool)
    ensures
        r == is_incoming(dir@),
{
    let n = dir.unicode_len();
    if n != 8 {
        return false;
    }
    let c0 = dir.get_char(0);
    let c1 = dir.get_char(1);
    let c2 = dir.get_char(2);
    let c3 = dir.get_char(3);
    let c4 = dir.get_char(4);
    let c5 = dir.get_char(5);
    let c6 = dir.get_char(6);
    let c7 = dir.get_char(7);
    (c0 == 'i' || c0 == 'I') && (c1 == 'n' || c1 == 'N') && (c2 == 'c' || c2 == 'C') && (c3 == 'o'
        || c3 == 'O') && (c4 == 'm' || c4 == 'M') && (c5 == 'i' || c5 == 'I') && (c6 == 'n' || c6
        == 'N') && (c7 == 'g' || c7 == 'G')
}

} // verus!

verus! {

/// Counts the incoming calls, as `count_incoming` states.
fn count_incoming_x(records: &Vec<ProcessedCallRecord>) -> (r: usize)
    ensures
        r == count_incoming(records@),
        r <= records@.len(),
{
    let mut c: usize = 0;
    let mut i: usize = 0;
    while i < records.len()
        invariant
            i <= records@.len(),
            c == count_incoming(records@.take(i as int)),
            c <= i,
        decreases records@.len() - i,
    {
        proof {
            assert(records@.take(i + 1).drop_last() =~= records@.take(i as int));
        }
        if is_incoming_x(records[i].message_direction.as_str()) {
            c = c + 1;
        }
        i = i + 1;
    }
    proof {
        assert(records@.take(records@.len() as int) =~= records@);
    }
    c
}

/// Sums the call lengths, as `sum_seconds` states.
fn sum_seconds_x(records: &Vec<ProcessedCallRecord>) -> (r: u128)
    ensures
        r == sum_seconds(records@),
        r <= records@.len() * 0xFFFF_FFFF,
{
    let mut acc: u128 = 0;
    let mut i: usize = 0;
    while i < records.len()
        invariant
            i <= records@.len(),
            acc == sum_seconds(records@.take(i as int)),
            acc <= i as u128 * 0xFFFF_FFFF,
        decreases records@.len() - i,
    {
        proof {
            assert(records@.take(i + 1).drop_last() =~= records@.take(i as int));
            assert((i + 1) as u128 * 0xFFFF_FFFF == i as u128 * 0xFFFF_FFFF + 0xFFFF_FFFF);
        }
        acc = acc + records[i].length_of_call as u128;
        i = i + 1;
    }
    proof {
        assert(records@.take(records@.len() as int) =~= records@);
    }
    acc
}

/// The position of the longest call, first occurrence on ties; nothing
/// for an empty set.
fn find_longest(records: &Vec<ProcessedCallRecord>) -> (r: Option<usize>)
    ensures
        match r {
            Some(i) => is_first_longest(records@, i as int),
            None => records@.len() == 0,
        },
{
    if records.len() == 0 {
        return None;
    }
    let mut best: usize = 0;
    let mut i: usize = 1;
    while i < records.len()
        invariant
            best < i <= records@.len(),
            forall|j: int|
                0 <= j < i ==> (#[trigger] records@[j]).length_of_call
                    <= records@[best as int].length_of_call,
            forall|j: int|
                0 <= j < best ==> (#[trigger] records@[j]).length_of_call
                    < records@[best as int].length_of_call,
        decreases records@.len() - i,
    {
        if records[i].length_of_call > records[best].length_of_call {
            best = i;
        }
        i = i + 1;
    }
    Some(best)
}

/// The position of the shortest call of non-zero length, first occurrence
/// on ties; nothing when every record has zero length.
fn find_shortest(records: &Vec<ProcessedCallRecord>) -> (r: Option<usize>)
    ensures
        match r {
            Some(i) => is_first_shortest(records@, i as int),
            None => forall|j: int|
                0 <= j < records@.len() ==> (#[trigger] records@[j]).length_of_call == 0,
        },
{
    let mut best: Option<usize> = None;
    let mut i: usize = 0;
    while i < records.len()
        invariant
            i <= records@.len(),
            match best {
                Some(b) => {
                    &&& b < i
                    &&& records@[b as int].length_of_call > 0
                    &&& forall|j: int|
                        0 <= j < i && (#[trigger] records@[j]).length_of_call > 0 ==> records@[
                            b as int
                        ].length_of_call <= records@[j].length_of_call
                    &&& forall|j: int|
                        0 <= j < b ==> (#[trigger] records@[j]).length_of_call == 0 || records@[
                            b as int
                        ].length_of_call < records@[j].length_of_call
                },
                None => forall|j: int|
                    0 <= j < i ==> (#[trigger] records@[j]).length_of_call == 0,
            },
        decreases records@.len() - i,
    {
        let better = match best {
            Some(b) => records[i].length_of_call > 0 && records[i].length_of_call
                < records[b].length_of_call,
            None => records[i].length_of_call > 0,
        };
        if better {
            best = Some(i);
        }
        i = i + 1;
    }
    best
}

/// Positions of the least and greatest start instants; nothing for an
/// empty set.
fn find_range(records: &Vec<ProcessedCallRecord>) -> (r: Option<(usize, usize)>)
    ensures
        match r {
            Some(p) => p.0 < records@.len() && p.1 < records@.len() && forall|j: int|
                0 <= j < records@.len() ==> records@[p.0 as int].start_time.epoch_seconds <= (
                #[trigger] records@[j]).start_time.epoch_seconds && records@[j].start_time.epoch_seconds
                    <= records@[p.1 as int].start_time.epoch_seconds,
            None => records@.len() == 0,
        },
{
    if records.len() == 0 {
        return None;
    }
    let mut lo: usize = 0;
    let mut hi: usize = 0;
    let mut i: usize = 1;
    while i < records.len()
        invariant
            lo < i,
            hi < i,
            i <= records@.len(),
            forall|j: int|
                0 <= j < i ==> records@[lo as int].start_time.epoch_seconds <= (
                #[trigger] records@[j]).start_time.epoch_seconds && records@[j].start_time.epoch_seconds
                    <= records@[hi as int].start_time.epoch_seconds,
        decreases records@.len() - i,
    {
        if records[i].start_time.epoch_seconds < records[lo].start_time.epoch_seconds {
            lo = i;
        }
        if records[i].start_time.epoch_seconds > records[hi].start_time.epoch_seconds {
            hi = i;
        }
        i = i + 1;
    }
    Some((lo, hi))
}

} // verus!

verus! {

/// The keys of an association vector.
pub open spec fn keys_of(ps: Seq<(String, usize)>) -> Seq<Seq<char>> {
    ps.map_values(|p: (String, usize)| p.0@)
}

/// The views of a vector of strings.
pub open spec fn strs_view(v: Seq<String>) -> Seq<Seq<char>> {
    v.map_values(|s: String| s@)
}

/// A number outside the distinct set occurs zero times.
proof fn lemma_count_number_zero(s: Seq<ProcessedCallRecord>, n: Seq<char>)
    requires
        !numbers_of(s).contains(n),
    ensures
        count_number(s, n) == 0,
    decreases s.len(),
{
    if s.len() > 0 {
        lemma_count_number_zero(s.drop_last(), n);
    }
}

proof fn lemma_count_number_le(s: Seq<ProcessedCallRecord>, n: Seq<char>)
    ensures
        0 <= count_number(s, n) <= s.len(),
    decreases s.len(),
{
    if s.len() > 0 {
        lemma_count_number_le(s.drop_last(), n);
    }
}

proof fn lemma_count_day_le(s: Seq<ProcessedCallRecord>, d: Seq<char>)
    ensures
        0 <= count_day(s, d) <= s.len(),
    decreases s.len(),
{
    if s.len() > 0 {
        lemma_count_day_le(s.drop_last(), d);
    }
}

proof fn lemma_count_hour_le(s: Seq<ProcessedCallRecord>, h: int)
    ensures
        0 <= count_hour(s, h) <= s.len(),
    decreases s.len(),
{
    if s.len() > 0 {
        lemma_count_hour_le(s.drop_last(), h);
    }
}

/// The sets built by the counting passes are finite.
proof fn lemma_sets_finite(s: Seq<ProcessedCallRecord>)
    ensures
        numbers_of(s).finite(),
        targets_of(s).finite(),
        sources_of(s).finite(),
    decreases s.len(),
{
    if s.len() > 0 {
        lemma_sets_finite(s.drop_last());
    }
}

/// Looks a key up in an association vector.
fn find_key(v: &Vec<(String, usize)>, key: &str) -> (r: Option<usize>)
    ensures
        match r {
            Some(ix) => ix < v@.len() && v@[ix as int].0@ == key@,
            None => forall|k: int| 0 <= k < v@.len() ==> (#[trigger] v@[k]).0@ != key@,
        },
{
    let mut i: usize = 0;
    while i < v.len()
        invariant
            i <= v@.len(),
            forall|k: int| 0 <= k < i ==> (#[trigger] v@[k]).0@ != key@,
        decreases v@.len() - i,
    {
        if str_eq(v[i].0.as_str(), key) {
            return Some(i);
        }
        i = i + 1;
    }
    None
}

/// Whether some entry of `v` reads `key`.
fn vec_has_str(v: &Vec<String>, key: &str) -> (r: bool)
    ensures
        r == strs_view(v@).contains(key@),
{
    let mut i: usize = 0;
    while i < v.len()
        invariant
            i <= v@.len(),
            forall|k: int| 0 <= k < i ==> (#[trigger] v@[k])@ != key@,
        decreases v@.len() - i,
    {
        if str_eq(v[i].as_str(), key) {
            proof {
                assert(strs_view(v@)[i as int] == key@);
            }
            return true;
        }
        i = i + 1;
    }
    proof {
        assert forall|k: int| 0 <= k < strs_view(v@).len() implies strs_view(v@)[k] != key@ by {
            assert(strs_view(v@)[k] == v@[k]@);
        }
    }
    false
}

/// Counts occurrences per normalized number: one entry per distinct
/// number, in order of first occurrence, with its exact count.
fn count_numbers(records: &Vec<ProcessedCallRecord>) -> (v: Vec<(String, usize)>)
    ensures
        keys_of(v@).no_duplicates(),
        forall|k: int|
            0 <= k < v@.len() ==> numbers_of(records@).contains((#[trigger] v@[k]).0@) && v@[k].1
                == count_number(records@, v@[k].0@),
        forall|n: Seq<char>| numbers_of(records@).contains(n) ==> keys_of(v@).contains(n),
        v@.len() == numbers_of(records@).len(),
{
    let mut v: Vec<(String, usize)> = Vec::new();
    let mut i: usize = 0;
    proof {
        lemma_sets_finite(records@.take(0));
    }
    while i < records.len()
        invariant
            i <= records@.len(),
            numbers_of(records@.take(i as int)).finite(),
            keys_of(v@).no_duplicates(),
            forall|k: int|
                0 <= k < v@.len() ==> numbers_of(records@.take(i as int)).contains(
                    (#[trigger] v@[k]).0@,
                ) && v@[k].1 == count_number(records@.take(i as int), v@[k].0@),
            forall|n: Seq<char>|
                numbers_of(records@.take(i as int)).contains(n) ==> keys_of(v@).contains(n),
            v@.len() == numbers_of(records@.take(i as int)).len(),
        decreases records@.len() - i,
    {
        let ghost pre = records@.take(i as int);
        let ghost post = records@.take(i + 1);
        proof {
            assert(post.drop_last() =~= pre);
            lemma_sets_finite(post);
        }
        let ghost v0 = v@;
        let key = &records[i].normalized_number;
        match find_key(&v, key.as_str()) {
            Some(ix) => {
                proof {
                    lemma_count_number_le(pre, key@);
                }
                let c = v[ix].1;
                let name = v.remove(ix);
                v.insert(ix, (name.0, c + 1));
                proof {
                    assert(v@ =~= v0.update(ix as int, (name.0, (c + 1) as usize)));
                    assert(keys_of(v@) =~= keys_of(v0));
                    assert(numbers_of(post) =~= numbers_of(pre));
                    assert forall|k: int|
                        0 <= k < v@.len() implies numbers_of(post).contains((#[trigger] v@[k]).0@)
                        && v@[k].1 == count_number(post, v@[k].0@) by {
                        if k != ix {
                            assert(v@[k] == v0[k]);
                            assert(v0[k].0@ != key@) by {
                                if v0[k].0@ == key@ {
                                    assert(keys_of(v0)[k] == keys_of(v0)[ix as int]);
                                }
                            }
                        }
                    }
                }
            },
            None => {
                v.push((key.clone(), 1));
                proof {
                    assert(!keys_of(v0).contains(key@)) by {
                        assert forall|k: int| 0 <= k < keys_of(v0).len() implies keys_of(v0)[k]
                            != key@ by {
                            assert(keys_of(v0)[k] == v0[k].0@);
                        }
                    }
                    assert(!numbers_of(pre).contains(key@));
                    lemma_count_number_le(pre, key@);
                    lemma_count_number_zero(pre, key@);
                    assert(keys_of(v@) =~= keys_of(v0).push(key@));
                    assert forall|k: int|
                        0 <= k < v@.len() implies numbers_of(post).contains((#[trigger] v@[k]).0@)
                        && v@[k].1 == count_number(post, v@[k].0@) by {
                        if k < v0.len() {
                            assert(v@[k] == v0[k]);
                            assert(v0[k].0@ != key@) by {
                                if v0[k].0@ == key@ {
                                    assert(keys_of(v0).contains(key@)) by {
                                        assert(keys_of(v0)[k] == key@);
                                    }
                                }
                            }
                            assert(count_number(post, v@[k].0@) == count_number(pre, v@[k].0@));
                        } else {
                            assert(v@[k].0@ == key@);
                            assert(count_number(post, key@) == 1);
                        }
                    }
                    assert forall|n: Seq<char>| numbers_of(post).contains(n) implies keys_of(
                        v@,
                    ).contains(n) by {
                        if n == key@ {
                            assert(keys_of(v@)[v@.len() - 1] == key@);
                        } else {
                            assert(numbers_of(pre).contains(n));
                            assert(keys_of(v0).contains(n));
                            let k = choose|k: int|
                                0 <= k < keys_of(v0).len() && keys_of(v0)[k] == n;
                            assert(keys_of(v@)[k] == n);
                        }
                    }
                    assert(keys_of(v@).no_duplicates());
                }
            },
        }
        i = i + 1;
    }
    proof {
        assert(records@.take(records@.len() as int) =~= records@);
    }
    v
}

} // verus!

verus! {

/// The distinct dates of a record set.
pub open spec fn days_of(s: Seq<ProcessedCallRecord>) -> Set<Seq<char>>
    decreases s.len(),
{
    if s.len() == 0 {
        Set::<Seq<char>>::empty()
    } else {
        days_of(s.drop_last()).insert(s.last().date@)
    }
}

/// A date outside the distinct set has zero calls.
proof fn lemma_count_day_zero(s: Seq<ProcessedCallRecord>, d: Seq<char>)
    requires
        !days_of(s).contains(d),
    ensures
        count_day(s, d) == 0,
    decreases s.len(),
{
    if s.len() > 0 {
        lemma_count_day_zero(s.drop_last(), d);
    }
}

proof fn lemma_days_finite(s: Seq<ProcessedCallRecord>)
    ensures
        days_of(s).finite(),
    decreases s.len(),
{
    if s.len() > 0 {
        lemma_days_finite(s.drop_last());
    }
}

/// Counts calls per date: one entry per distinct date, in order of first
/// occurrence, with its exact count.
fn count_days(records: &Vec<ProcessedCallRecord>) -> (v: Vec<(String, usize)>)
    ensures
        keys_of(v@).no_duplicates(),
        forall|k: int|
            0 <= k < v@.len() ==> days_of(records@).contains((#[trigger] v@[k]).0@) && v@[k].1
                == count_day(records@, v@[k].0@),
        forall|d: Seq<char>| days_of(records@).contains(d) ==> keys_of(v@).contains(d),
        v@.len() == days_of(records@).len(),
{
    let mut v: Vec<(String, usize)> = Vec::new();
    let mut i: usize = 0;
    proof {
        lemma_days_finite(records@.take(0));
    }
    while i < records.len()
        invariant
            i <= records@.len(),
            days_of(records@.take(i as int)).finite(),
            keys_of(v@).no_duplicates(),
            forall|k: int|
                0 <= k < v@.len() ==> days_of(records@.take(i as int)).contains(
                    (#[trigger] v@[k]).0@,
                ) && v@[k].1 == count_day(records@.take(i as int), v@[k].0@),
            forall|d: Seq<char>|
                days_of(records@.take(i as int)).contains(d) ==> keys_of(v@).contains(d),
            v@.len() == days_of(records@.take(i as int)).len(),
        decreases records@.len() - i,
    {
        let ghost pre = records@.take(i as int);
        let ghost post = records@.take(i + 1);
        proof {
            assert(post.drop_last() =~= pre);
            lemma_days_finite(post);
        }
        let ghost v0 = v@;
        let key = &records[i].date;
        match find_key(&v, key.as_str()) {
            Some(ix) => {
                proof {
                    lemma_count_day_le(pre, key@);
                }
                let c = v[ix].1;
                let name = v.remove(ix);
                v.insert(ix, (name.0, c + 1));
                proof {
                    assert(v@ =~= v0.update(ix as int, (name.0, (c + 1) as usize)));
                    assert(keys_of(v@) =~= keys_of(v0));
                    assert(days_of(post) =~= days_of(pre));
                    assert forall|k: int|
                        0 <= k < v@.len() implies days_of(post).contains((#[trigger] v@[k]).0@)
                        && v@[k].1 == count_day(post, v@[k].0@) by {
                        if k != ix {
                            assert(v@[k] == v0[k]);
                            assert(v0[k].0@ != key@) by {
                                if v0[k].0@ == key@ {
                                    assert(keys_of(v0)[k] == keys_of(v0)[ix as int]);
                                }
                            }
                        }
                    }
                }
            },
            None => {
                v.push((key.clone(), 1));
                proof {
                    assert(!keys_of(v0).contains(key@)) by {
                        assert forall|k: int| 0 <= k < keys_of(v0).len() implies keys_of(v0)[k]
                            != key@ by {
                            assert(keys_of(v0)[k] == v0[k].0@);
                        }
                    }
                    assert(!days_of(pre).contains(key@));
                    lemma_count_day_le(pre, key@);
                    lemma_count_day_zero(pre, key@);
                    assert(keys_of(v@) =~= keys_of(v0).push(key@));
                    assert forall|k: int|
                        0 <= k < v@.len() implies days_of(post).contains((#[trigger] v@[k]).0@)
                        && v@[k].1 == count_day(post, v@[k].0@) by {
                        if k < v0.len() {
                            assert(v@[k] == v0[k]);
                            assert(v0[k].0@ != key@) by {
                                if v0[k].0@ == key@ {
                                    assert(keys_of(v0).contains(key@)) by {
                                        assert(keys_of(v0)[k] == key@);
                                    }
                                }
                            }
                            assert(count_day(post, v@[k].0@) == count_day(pre, v@[k].0@));
                        } else {
                            assert(v@[k].0@ == key@);
                            assert(count_day(post, key@) == 1);
                        }
                    }
                    assert forall|d: Seq<char>| days_of(post).contains(d) implies keys_of(
                        v@,
                    ).contains(d) by {
                        if d == key@ {
                            assert(keys_of(v@)[v@.len() - 1] == key@);
                        } else {
                            assert(days_of(pre).contains(d));
                            assert(keys_of(v0).contains(d));
                            let k = choose|k: int|
                                0 <= k < keys_of(v0).len() && keys_of(v0)[k] == d;
                            assert(keys_of(v@)[k] == d);
                        }
                    }
                    assert(keys_of(v@).no_duplicates());
                }
            },
        }
        i = i + 1;
    }
    proof {
        assert(records@.take(records@.len() as int) =~= records@);
    }
    v
}

/// Counts calls per hour of day: exactly 24 entries, one per hour.
fn count_hours(records: &Vec<ProcessedCallRecord>) -> (v: Vec<usize>)
    requires
        forall|j: int| 0 <= j < records@.len() ==> (#[trigger] records@[j]).wf(),
    ensures
        v@.len() == 24,
        forall|h: int| 0 <= h < 24 ==> v@[h] == count_hour(records@, h),
{
    let mut v: Vec<usize> = Vec::new();
    let mut k: usize = 0;
    while k < 24
        invariant
            k <= 24,
            v@.len() == k,
            forall|h: int| 0 <= h < k ==> v@[h] == 0,
        decreases 24 - k,
    {
        v.push(0);
        k = k + 1;
    }
    proof {
        assert forall|h: int| 0 <= h < 24 implies v@[h] == count_hour(records@.take(0), h) by {}
    }
    let mut i: usize = 0;
    while i < records.len()
        invariant
            i <= records@.len(),
            v@.len() == 24,
            forall|j: int| 0 <= j < records@.len() ==> (#[trigger] records@[j]).wf(),
            forall|h: int| 0 <= h < 24 ==> v@[h] == count_hour(records@.take(i as int), h),
        decreases records@.len() - i,
    {
        let ghost pre = records@.take(i as int);
        let ghost post = records@.take(i + 1);
        let ghost v0 = v@;
        proof {
            assert(post.drop_last() =~= pre);
            assert(records@[i as int].start_time.inv());
            lemma_count_hour_le(pre, records@[i as int].start_time.hour as int);
        }
        let idx = records[i].start_time.hour as usize;
        let c = v[idx];
        v.remove(idx);
        v.insert(idx, c + 1);
        i = i + 1;
        proof {
            assert(v@ =~= v0.update(idx as int, (c + 1) as usize));
            assert forall|h: int| 0 <= h < 24 implies v@[h] == count_hour(post, h) by {
                if h != idx {
                    assert(v@[h] == v0[h]);
                }
            }
        }
    }
    proof {
        assert(records@.take(records@.len() as int) =~= records@);
    }
    v
}

} // verus!

verus! {

/// The distinct non-empty target identifiers, in order of first
/// occurrence.
fn distinct_targets(records: &Vec<ProcessedCallRecord>) -> (v: Vec<String>)
    ensures
        strs_view(v@).no_duplicates(),
        forall|k: int| 0 <= k < v@.len() ==> targets_of(records@).contains(strs_view(v@)[k]),
        forall|t: Seq<char>| targets_of(records@).contains(t) ==> strs_view(v@).contains(t),
        v@.len() == targets_of(records@).len(),
{
    let mut v: Vec<String> = Vec::new();
    let mut i: usize = 0;
    proof {
        lemma_sets_finite(records@.take(0));
    }
    while i < records.len()
        invariant
            i <= records@.len(),
            targets_of(records@.take(i as int)).finite(),
            strs_view(v@).no_duplicates(),
            forall|k: int|
                0 <= k < v@.len() ==> targets_of(records@.take(i as int)).contains(
                    strs_view(v@)[k],
                ),
            forall|t: Seq<char>|
                targets_of(records@.take(i as int)).contains(t) ==> strs_view(v@).contains(t),
            v@.len() == targets_of(records@.take(i as int)).len(),
        decreases records@.len() - i,
    {
        let ghost pre = records@.take(i as int);
        let ghost post = records@.take(i + 1);
        proof {
            assert(post.drop_last() =~= pre);
            lemma_sets_finite(post);
        }
        let ghost v0 = v@;
        let key = &records[i].target_number;
        if !key.as_str().is_empty() && !vec_has_str(&v, key.as_str()) {
            v.push(key.clone());
            proof {
                assert(strs_view(v@) =~= strs_view(v0).push(key@));
                assert(!targets_of(pre).contains(key@));
                assert forall|k: int| 0 <= k < v@.len() implies targets_of(post).contains(
                    strs_view(v@)[k],
                ) by {
                    if k < v0.len() {
                        assert(strs_view(v@)[k] == strs_view(v0)[k]);
                    } else {
                        assert(strs_view(v@)[k] == key@);
                    }
                }
                assert forall|t: Seq<char>| targets_of(post).contains(t) implies strs_view(
                    v@,
                ).contains(t) by {
                    if t == key@ {
                        assert(strs_view(v@)[v@.len() - 1] == key@);
                    } else {
                        assert(targets_of(pre).contains(t));
                        assert(strs_view(v0).contains(t));
                        let k = choose|k: int|
                            0 <= k < strs_view(v0).len() && strs_view(v0)[k] == t;
                        assert(strs_view(v@)[k] == t);
                    }
                }
                assert(strs_view(v@).no_duplicates());
            }
        } else {
            proof {
                if key@.len() > 0 {
                    assert(targets_of(post) =~= targets_of(pre).insert(key@));
                    assert(targets_of(pre).contains(key@));
                } else {
                    assert(targets_of(post) =~= targets_of(pre));
                }
                assert forall|t: Seq<char>| targets_of(post).contains(t) implies strs_view(
                    v@,
                ).contains(t) by {}
            }
        }
        i = i + 1;
    }
    proof {
        assert(records@.take(records@.len() as int) =~= records@);
    }
    v
}

/// The distinct non-empty source identifiers, in order of first
/// occurrence.
fn distinct_sources(records: &Vec<ProcessedCallRecord>) -> (v: Vec<String>)
    ensures
        strs_view(v@).no_duplicates(),
        forall|k: int| 0 <= k < v@.len() ==> sources_of(records@).contains(strs_view(v@)[k]),
        forall|t: Seq<char>| sources_of(records@).contains(t) ==> strs_view(v@).contains(t),
        v@.len() == sources_of(records@).len(),
{
    let mut v: Vec<String> = Vec::new();
    let mut i: usize = 0;
    proof {
        lemma_sets_finite(records@.take(0));
    }
    while i < records.len()
        invariant
            i <= records@.len(),
            sources_of(records@.take(i as int)).finite(),
            strs_view(v@).no_duplicates(),
            forall|k: int|
                0 <= k < v@.len() ==> sources_of(records@.take(i as int)).contains(
                    strs_view(v@)[k],
                ),
            forall|t: Seq<char>|
                sources_of(records@.take(i as int)).contains(t) ==> strs_view(v@).contains(t),
            v@.len() == sources_of(records@.take(i as int)).len(),
        decreases records@.len() - i,
    {
        let ghost pre = records@.take(i as int);
        let ghost post = records@.take(i + 1);
        proof {
            assert(post.drop_last() =~= pre);
            lemma_sets_finite(post);
        }
        let ghost v0 = v@;
        let key = &records[i].source_file;
        if !key.as_str().is_empty() && !vec_has_str(&v, key.as_str()) {
            v.push(key.clone());
            proof {
                assert(strs_view(v@) =~= strs_view(v0).push(key@));
                assert(!sources_of(pre).contains(key@));
                assert forall|k: int| 0 <= k < v@.len() implies sources_of(post).contains(
                    strs_view(v@)[k],
                ) by {
                    if k < v0.len() {
                        assert(strs_view(v@)[k] == strs_view(v0)[k]);
                    } else {
                        assert(strs_view(v@)[k] == key@);
                    }
                }
                assert forall|t: Seq<char>| sources_of(post).contains(t) implies strs_view(
                    v@,
                ).contains(t) by {
                    if t == key@ {
                        assert(strs_view(v@)[v@.len() - 1] == key@);
                    } else {
                        assert(sources_of(pre).contains(t));
                        assert(strs_view(v0).contains(t));
                        let k = choose|k: int|
                            0 <= k < strs_view(v0).len() && strs_view(v0)[k] == t;
                        assert(strs_view(v@)[k] == t);
                    }
                }
                assert(strs_view(v@).no_duplicates());
            }
        } else {
            proof {
                if key@.len() > 0 {
                    assert(sources_of(post) =~= sources_of(pre).insert(key@));
                    assert(sources_of(pre).contains(key@));
                } else {
                    assert(sources_of(post) =~= sources_of(pre));
                }
                assert forall|t: Seq<char>| sources_of(post).contains(t) implies strs_view(
                    v@,
                ).contains(t) by {}
            }
        }
        i = i + 1;
    }
    proof {
        assert(records@.take(records@.len() as int) =~= records@);
    }
    v
}

} // verus!

verus! {

/// The two orders the report needs on key/count pairs: by descending
/// count, or by ascending key.
pub open spec fn pair_le(by_count: bool, p: (String, usize), q: (String, usize)) -> bool {
    if by_count {
        p.1 >= q.1
    } else {
        lex_le(p.0@, q.0@)
    }
}

proof fn lemma_pair_le_total(by_count: bool, p: (String, usize), q: (String, usize))
    ensures
        pair_le(by_count, p, q) || pair_le(by_count, q, p),
{
    if !by_count {
        lemma_lex_le_total(p.0@, q.0@);
    }
}

proof fn lemma_pair_le_trans(by_count: bool, p: (String, usize), q: (String, usize), r: (
    String,
    usize,
))
    requires
        pair_le(by_count, p, q),
        pair_le(by_count, q, r),
    ensures
        pair_le(by_count, p, r),
{
    if !by_count {
        lemma_lex_le_trans(p.0@, q.0@, r.0@);
    }
}

/// Decides `pair_le`.
fn pair_le_x(by_count: bool, p: &(String, usize), q: &(String, usize)) -> (r: bool)
    ensures
        r == pair_le(by_count, *p, *q),
{
    if by_count {
        p.1 >= q.1
    } else {
        str_le(p.0.as_str(), q.0.as_str())
    }
}

/// Sorts key/count pairs by the chosen order; ties keep their relative
/// order (the earlier element is taken first).
fn sort_pairs(v: Vec<(String, usize)>, by_count: bool) -> (r: Vec<(String, usize)>)
    ensures
        r@.to_multiset() == v@.to_multiset(),
        r@.len() == v@.len(),
        forall|i: int, j: int|
            0 <= i < j < r@.len() ==> pair_le(by_count, #[trigger] r@[i], #[trigger] r@[j]),
{
    broadcast use vstd::seq_lib::group_to_multiset_ensures;

    let mut rest = v;
    let mut out: Vec<(String, usize)> = Vec::new();
    let ghost all = rest@.to_multiset();
    proof {
        assert(out@.to_multiset().add(rest@.to_multiset()) =~= all);
    }
    while rest.len() > 0
        invariant
            out@.len() + rest@.len() == all.len(),
            out@.to_multiset().add(rest@.to_multiset()) == all,
            forall|i: int, j: int|
                0 <= i < j < out@.len() ==> pair_le(by_count, #[trigger] out@[i], #[trigger] out@[j]),
            forall|i: int, k: int|
                0 <= i < out@.len() && 0 <= k < rest@.len() ==> pair_le(
                    by_count,
                    #[trigger] out@[i],
                    #[trigger] rest@[k],
                ),
        decreases rest@.len(),
    {
        let mut m: usize = 0;
        let mut k: usize = 1;
        proof {
            lemma_pair_le_total(by_count, rest@[0], rest@[0]);
        }
        while k < rest.len()
            invariant
                m < k <= rest@.len(),
                rest@.len() > 0,
                forall|j: int| 0 <= j < k ==> pair_le(by_count, rest@[m as int], #[trigger] rest@[j]),
            decreases rest@.len() - k,
        {
            if !pair_le_x(by_count, &rest[m], &rest[k]) {
                proof {
                    lemma_pair_le_total(by_count, rest@[m as int], rest@[k as int]);
                    assert forall|j: int| 0 <= j < k + 1 implies pair_le(
                        by_count,
                        rest@[k as int],
                        #[trigger] rest@[j],
                    ) by {
                        if j < k {
                            lemma_pair_le_trans(by_count, rest@[k as int], rest@[m as int], rest@[j]);
                        } else {
                            lemma_pair_le_total(by_count, rest@[k as int], rest@[k as int]);
                        }
                    }
                }
                m = k;
            }
            k = k + 1;
        }
        let ghost rest0 = rest@;
        let ghost out0 = out@;
        let x = rest.remove(m);
        out.push(x);
        proof {
            assert(rest@ =~= rest0.remove(m as int));
            assert(out@.to_multiset().add(rest@.to_multiset()) =~= all) by {
                assert(out@ == out0.push(rest0[m as int]));
                vstd::seq_lib::to_multiset_build(out0, rest0[m as int]);
                vstd::seq_lib::to_multiset_remove(rest0, m as int);
                assert(rest0.to_multiset().count(rest0[m as int]) > 0) by {
                    rest0.to_multiset_ensures();
                    assert(rest0.contains(rest0[m as int]));
                }
            }
            assert forall|i: int, j: int|
                0 <= i < j < out@.len() implies pair_le(
                by_count,
                #[trigger] out@[i],
                #[trigger] out@[j],
            ) by {
                if j == out@.len() - 1 {
                    assert(pair_le(by_count, out0[i], rest0[m as int]));
                }
            }
            assert forall|i: int, k2: int|
                0 <= i < out@.len() && 0 <= k2 < rest@.len() implies pair_le(
                by_count,
                #[trigger] out@[i],
                #[trigger] rest@[k2],
            ) by {
                let orig = if k2 < m as int {
                    k2
                } else {
                    k2 + 1
                };
                assert(rest@[k2] == rest0[orig]);
                if i == out@.len() - 1 {
                    assert(pair_le(by_count, rest0[m as int], rest0[orig]));
                } else {
                    assert(pair_le(by_count, out0[i], rest0[orig]));
                }
            }
        }
    }
    proof {
        assert(out@.to_multiset().add(rest@.to_multiset()) =~= out@.to_multiset());
        vstd::seq_lib::lemma_multiset_commutative(out@, rest@);
        assert((out@ + rest@).to_multiset().len() == all.len());
        assert(out@ + rest@ =~= out@);
    }
    out
}

} // verus!

verus! {

/// Some record pairs target `t` with normalized number `n`.
pub open spec fn num_under(s: Seq<ProcessedCallRecord>, t: Seq<char>, n: Seq<char>) -> bool {
    exists|i: int|
        0 <= i < s.len() && (#[trigger] s[i]).target_number@ == t && s[i].normalized_number@ == n
}

/// The non-empty target identifiers under which number `n` appears.
pub open spec fn contact_targets(s: Seq<ProcessedCallRecord>, n: Seq<char>) -> Set<Seq<char>> {
    targets_of(s).filter(|t: Seq<char>| num_under(s, t, n))
}

/// `c` correctly describes number `c.number` across the record set: the
/// target list holds exactly the targets the number appears under, without
/// repetition, and there are at least two of them.
pub open spec fn contact_ok(s: Seq<ProcessedCallRecord>, c: CommonContact) -> bool {
    &&& c.count == c.target_numbers@.len()
    &&& c.count >= 2
    &&& strs_view(c.target_numbers@).no_duplicates()
    &&& forall|k: int|
        0 <= k < c.target_numbers@.len() ==> contact_targets(s, c.number@).contains(
            #[trigger] strs_view(c.target_numbers@)[k],
        )
    &&& forall|t: Seq<char>|
        contact_targets(s, c.number@).contains(t) ==> strs_view(c.target_numbers@).contains(t)
}

/// Descending by how many targets share the number; ties ascending by the
/// number itself.
pub open spec fn contact_le(a: CommonContact, b: CommonContact) -> bool {
    a.count > b.count || (a.count == b.count && lex_le(a.number@, b.number@))
}

proof fn lemma_contact_le_total(a: CommonContact, b: CommonContact)
    ensures
        contact_le(a, b) || contact_le(b, a),
{
    lemma_lex_le_total(a.number@, b.number@);
}

proof fn lemma_contact_le_trans(a: CommonContact, b: CommonContact, c: CommonContact)
    requires
        contact_le(a, b),
        contact_le(b, c),
    ensures
        contact_le(a, c),
{
    if a.count == b.count && b.count == c.count {
        lemma_lex_le_trans(a.number@, b.number@, c.number@);
    }
}

/// Decides `contact_le`.
fn contact_le_x(a: &CommonContact, b: &CommonContact) -> (r: bool)
    ensures
        r == contact_le(*a, *b),
{
    a.count > b.count || (a.count == b.count && str_le(a.number.as_str(), b.number.as_str()))
}

/// The distinct normalized numbers, in order of first occurrence.
fn distinct_numbers(records: &Vec<ProcessedCallRecord>) -> (v: Vec<String>)
    ensures
        strs_view(v@).no_duplicates(),
        forall|k: int| 0 <= k < v@.len() ==> numbers_of(records@).contains(strs_view(v@)[k]),
        forall|n: Seq<char>| numbers_of(records@).contains(n) ==> strs_view(v@).contains(n),
{
    let mut v: Vec<String> = Vec::new();
    let mut i: usize = 0;
    while i < records.len()
        invariant
            i <= records@.len(),
            strs_view(v@).no_duplicates(),
            forall|k: int|
                0 <= k < v@.len() ==> numbers_of(records@.take(i as int)).contains(
                    strs_view(v@)[k],
                ),
            forall|n: Seq<char>|
                numbers_of(records@.take(i as int)).contains(n) ==> strs_view(v@).contains(n),
        decreases records@.len() - i,
    {
        let ghost pre = records@.take(i as int);
        let ghost post = records@.take(i + 1);
        proof {
            assert(post.drop_last() =~= pre);
        }
        let ghost v0 = v@;
        let key = &records[i].normalized_number;
        if !vec_has_str(&v, key.as_str()) {
            v.push(key.clone());
            proof {
                assert(strs_view(v@) =~= strs_view(v0).push(key@));
                assert forall|k: int| 0 <= k < v@.len() implies numbers_of(post).contains(
                    strs_view(v@)[k],
                ) by {
                    if k < v0.len() {
                        assert(strs_view(v@)[k] == strs_view(v0)[k]);
                    } else {
                        assert(strs_view(v@)[k] == key@);
                    }
                }
                assert forall|n: Seq<char>| numbers_of(post).contains(n) implies strs_view(
                    v@,
                ).contains(n) by {
                    if n == key@ {
                        assert(strs_view(v@)[v@.len() - 1] == key@);
                    } else {
                        assert(strs_view(v0).contains(n));
                        let k = choose|k: int|
                            0 <= k < strs_view(v0).len() && strs_view(v0)[k] == n;
                        assert(strs_view(v@)[k] == n);
                    }
                }
                assert(strs_view(v@).no_duplicates());
            }
        } else {
            proof {
                assert(numbers_of(post) =~= numbers_of(pre).insert(key@));
            }
        }
        i = i + 1;
    }
    proof {
        assert(records@.take(records@.len() as int) =~= records@);
    }
    v
}

/// Whether number `n` appears under target `t`.
fn target_has_number(records: &Vec<ProcessedCallRecord>, t: &str, n: &str) -> (r: bool)
    ensures
        r == num_under(records@, t@, n@),
{
    let mut i: usize = 0;
    while i < records.len()
        invariant
            i <= records@.len(),
            forall|j: int|
                0 <= j < i ==> !((#[trigger] records@[j]).target_number@ == t@ && records@[
                    j
                ].normalized_number@ == n@),
        decreases records@.len() - i,
    {
        if str_eq(records[i].target_number.as_str(), t) && str_eq(
            records[i].normalized_number.as_str(),
            n,
        ) {
            return true;
        }
        i = i + 1;
    }
    false
}

/// Sorts contacts by `contact_le`.
fn sort_contacts(v: Vec<CommonContact>) -> (r: Vec<CommonContact>)
    ensures
        r@.to_multiset() == v@.to_multiset(),
        r@.len() == v@.len(),
        forall|i: int, j: int|
            0 <= i < j < r@.len() ==> contact_le(#[trigger] r@[i], #[trigger] r@[j]),
{
    broadcast use vstd::seq_lib::group_to_multiset_ensures;

    let mut rest = v;
    let mut out: Vec<CommonContact> = Vec::new();
    let ghost all = rest@.to_multiset();
    proof {
        assert(out@.to_multiset().add(rest@.to_multiset()) =~= all);
    }
    while rest.len() > 0
        invariant
            out@.len() + rest@.len() == all.len(),
            out@.to_multiset().add(rest@.to_multiset()) == all,
            forall|i: int, j: int|
                0 <= i < j < out@.len() ==> contact_le(#[trigger] out@[i], #[trigger] out@[j]),
            forall|i: int, k: int|
                0 <= i < out@.len() && 0 <= k < rest@.len() ==> contact_le(
                    #[trigger] out@[i],
                    #[trigger] rest@[k],
                ),
        decreases rest@.len(),
    {
        proof {
            vstd::seq_lib::to_multiset_len(rest@);
            vstd::seq_lib::to_multiset_len(out@);
        }
        let mut m: usize = 0;
        let mut k: usize = 1;
        proof {
            lemma_contact_le_total(rest@[0], rest@[0]);
        }
        while k < rest.len()
            invariant
                m < k <= rest@.len(),
                rest@.len() > 0,
                forall|j: int| 0 <= j < k ==> contact_le(rest@[m as int], #[trigger] rest@[j]),
            decreases rest@.len() - k,
        {
            if !contact_le_x(&rest[m], &rest[k]) {
                proof {
                    lemma_contact_le_total(rest@[m as int], rest@[k as int]);
                    assert forall|j: int| 0 <= j < k + 1 implies contact_le(
                        rest@[k as int],
                        #[trigger] rest@[j],
                    ) by {
                        if j < k {
                            lemma_contact_le_trans(rest@[k as int], rest@[m as int], rest@[j]);
                        } else {
                            lemma_contact_le_total(rest@[k as int], rest@[k as int]);
                        }
                    }
                }
                m = k;
            }
            k = k + 1;
        }
        let ghost rest0 = rest@;
        let ghost out0 = out@;
        let x = rest.remove(m);
        out.push(x);
        proof {
            assert(rest@ =~= rest0.remove(m as int));
            assert(out@.to_multiset().add(rest@.to_multiset()) =~= all) by {
                assert(out@ == out0.push(rest0[m as int]));
                vstd::seq_lib::to_multiset_build(out0, rest0[m as int]);
                vstd::seq_lib::to_multiset_remove(rest0, m as int);
                assert(rest0.to_multiset().count(rest0[m as int]) > 0) by {
                    rest0.to_multiset_ensures();
                    assert(rest0.contains(rest0[m as int]));
                }
            }
            assert forall|i: int, j: int|
                0 <= i < j < out@.len() implies contact_le(#[trigger] out@[i], #[trigger] out@[j]) by {
                if j == out@.len() - 1 {
                    assert(contact_le(out0[i], rest0[m as int]));
                }
            }
            assert forall|i: int, k2: int|
                0 <= i < out@.len() && 0 <= k2 < rest@.len() implies contact_le(
                #[trigger] out@[i],
                #[trigger] rest@[k2],
            ) by {
                let orig = if k2 < m as int {
                    k2
                } else {
                    k2 + 1
                };
                assert(rest@[k2] == rest0[orig]);
                if i == out@.len() - 1 {
                    assert(contact_le(rest0[m as int], rest0[orig]));
                } else {
                    assert(contact_le(out0[i], rest0[orig]));
                }
            }
        }
    }
    proof {
        vstd::seq_lib::to_multiset_len(out@);
        vstd::seq_lib::to_multiset_len(rest@);
        vstd::seq_lib::lemma_multiset_commutative(out@, rest@);
        assert(out@ + rest@ =~= out@);
    }
    out
}

} // verus!

verus! {

/// The common-contact correlation: every normalized number that appears
/// under two or more distinct non-empty target identifiers, with exactly
/// those targets, sorted by descending target count and ascending number
/// on ties. Fewer than two distinct targets yield no contacts at all.
#[verifier::rlimit(100)]
pub fn find_common_contacts(records: &Vec<ProcessedCallRecord>) -> (r: Vec<CommonContact>)
    ensures
        targets_of(records@).len() <= 1 ==> r@.len() == 0,
        forall|k: int| 0 <= k < r@.len() ==> contact_ok(records@, #[trigger] r@[k]),
        forall|i: int, j: int| 0 <= i < j < r@.len() ==> r@[i].number@ != r@[j].number@,
        forall|i: int, j: int|
            0 <= i < j < r@.len() ==> contact_le(#[trigger] r@[i], #[trigger] r@[j]),
        forall|n: Seq<char>|
            #![trigger contact_targets(records@, n)]
            numbers_of(records@).contains(n) && contact_targets(records@, n).len() >= 2
                && targets_of(records@).len() >= 2 ==> exists|k: int|
                0 <= k < r@.len() && (#[trigger] r@[k]).number@ == n,
{
    broadcast use vstd::seq_lib::group_to_multiset_ensures;

    let targets = distinct_targets(records);
    if targets.len() <= 1 {
        return Vec::new();
    }
    let numbers = distinct_numbers(records);
    let mut cs: Vec<CommonContact> = Vec::new();
    let mut i: usize = 0;
    while i < numbers.len()
        invariant
            i <= numbers@.len(),
            targets@.len() >= 2,
            strs_view(numbers@).no_duplicates(),
            strs_view(targets@).no_duplicates(),
            forall|k: int|
                0 <= k < targets@.len() ==> targets_of(records@).contains(strs_view(targets@)[k]),
            forall|t: Seq<char>|
                targets_of(records@).contains(t) ==> strs_view(targets@).contains(t),
            forall|k: int| 0 <= k < cs@.len() ==> contact_ok(records@, #[trigger] cs@[k]),
            forall|k: int|
                0 <= k < cs@.len() ==> strs_view(numbers@).take(i as int).contains(
                    (#[trigger] cs@[k]).number@,
                ),
            forall|k1: int, k2: int|
                0 <= k1 < k2 < cs@.len() ==> cs@[k1].number@ != cs@[k2].number@,
            forall|n: Seq<char>|
                #![trigger contact_targets(records@, n)]
                strs_view(numbers@).take(i as int).contains(n) && contact_targets(
                    records@,
                    n,
                ).len() >= 2 ==> exists|k: int|
                    0 <= k < cs@.len() && (#[trigger] cs@[k]).number@ == n,
        decreases numbers@.len() - i,
    {
        let num = &numbers[i];
        let ghost ct = contact_targets(records@, num@);
        let mut tlist: Vec<String> = Vec::new();
        let mut j: usize = 0;
        while j < targets.len()
            invariant
                j <= targets@.len(),
                ct == contact_targets(records@, num@),
                num@ == numbers@[i as int]@,
                strs_view(targets@).no_duplicates(),
                forall|k: int|
                    0 <= k < targets@.len() ==> targets_of(records@).contains(
                        strs_view(targets@)[k],
                    ),
                strs_view(tlist@).no_duplicates(),
                forall|k: int| 0 <= k < tlist@.len() ==> ct.contains(#[trigger] strs_view(tlist@)[k]),
                forall|t: Seq<char>|
                    ct.contains(t) && strs_view(targets@).take(j as int).contains(t) ==> strs_view(
                        tlist@,
                    ).contains(t),
            decreases targets@.len() - j,
        {
            let ghost t0 = tlist@;
            let tj = &targets[j];
            let has = target_has_number(records, tj.as_str(), num.as_str());
            let already = if has {
                vec_has_str(&tlist, tj.as_str())
            } else {
                false
            };
            if has && !already {
                tlist.push(tj.clone());
                proof {
                    assert(strs_view(tlist@) =~= strs_view(t0).push(tj@));
                    assert(targets_of(records@).contains(strs_view(targets@)[j as int]));
                    assert(ct.contains(tj@));
                    assert forall|k: int| 0 <= k < tlist@.len() implies ct.contains(
                        #[trigger] strs_view(tlist@)[k],
                    ) by {
                        if k < t0.len() {
                            assert(strs_view(tlist@)[k] == strs_view(t0)[k]);
                        } else {
                            assert(strs_view(tlist@)[k] == tj@);
                        }
                    }
                    assert(strs_view(tlist@).no_duplicates());
                }
            }
            j = j + 1;
            proof {
                assert forall|t: Seq<char>|
                    ct.contains(t) && strs_view(targets@).take(j as int).contains(t) implies strs_view(
                    tlist@,
                ).contains(t) by {
                    let ghost tv = strs_view(targets@).take(j as int);
                    let idx = choose|idx: int| 0 <= idx < tv.len() && tv[idx] == t;
                    if idx < j - 1 {
                        assert(strs_view(targets@).take(j - 1).contains(t)) by {
                            assert(strs_view(targets@).take(j - 1)[idx] == t);
                        }
                        assert(strs_view(t0).contains(t));
                        let k = choose|k: int|
                            0 <= k < strs_view(t0).len() && strs_view(t0)[k] == t;
                        assert(strs_view(tlist@)[k] == t);
                    } else {
                        assert(t == strs_view(targets@)[j - 1]);
                        assert(t == tj@);
                        if has && !already {
                            assert(strs_view(tlist@)[tlist@.len() - 1] == tj@);
                        } else if has && already {
                            assert(strs_view(t0).contains(tj@));
                            let k = choose|k: int|
                                0 <= k < strs_view(t0).len() && strs_view(t0)[k] == tj@;
                            assert(strs_view(tlist@)[k] == tj@);
                        } else {
                            assert(!num_under(records@, tj@, num@));
                            assert(!ct.contains(tj@));
                        }
                    }
                }
            }
        }
        proof {
            assert(strs_view(targets@).take(targets@.len() as int) =~= strs_view(targets@));
            assert forall|t: Seq<char>| ct.contains(t) implies strs_view(tlist@).contains(t) by {
                assert(targets_of(records@).contains(t));
            }
            assert(strs_view(tlist@).to_set() =~= ct) by {
                assert forall|t: Seq<char>| strs_view(tlist@).to_set().contains(t) implies ct.contains(
                    t,
                ) by {
                    let k = choose|k: int|
                        0 <= k < strs_view(tlist@).len() && strs_view(tlist@)[k] == t;
                }
                assert forall|t: Seq<char>| ct.contains(t) implies strs_view(
                    tlist@,
                ).to_set().contains(t) by {
                    let k = choose|k: int|
                        0 <= k < strs_view(tlist@).len() && strs_view(tlist@)[k] == t;
                }
            }
            strs_view(tlist@).unique_seq_to_set();
            assert(ct.len() == tlist@.len());
        }
        let ghost cs0 = cs@;
        if tlist.len() >= 2 {
            let c = CommonContact { number: num.clone(), target_numbers: tlist, count: 0 };
            let n2 = c.target_numbers.len();
            let c = CommonContact { count: n2, ..c };
            cs.push(c);
            proof {
                assert(contact_ok(records@, c));
                assert forall|k: int| 0 <= k < cs@.len() implies strs_view(numbers@).take(
                    i + 1,
                ).contains((#[trigger] cs@[k]).number@) by {
                    if k < cs0.len() {
                        assert(cs@[k] == cs0[k]);
                        let idx = choose|idx: int|
                            0 <= idx < i && strs_view(numbers@).take(i as int)[idx] == cs0[k].number@;
                        assert(strs_view(numbers@).take(i + 1)[idx] == cs0[k].number@);
                    } else {
                        assert(strs_view(numbers@).take(i + 1)[i as int] == num@);
                    }
                }
                assert forall|k1: int, k2: int|
                    0 <= k1 < k2 < cs@.len() implies cs@[k1].number@ != cs@[k2].number@ by {
                    if k2 == cs@.len() - 1 {
                        let idx = choose|idx: int|
                            0 <= idx < i && strs_view(numbers@).take(i as int)[idx]
                                == cs0[k1].number@;
                        assert(strs_view(numbers@)[idx] == cs0[k1].number@);
                        assert(strs_view(numbers@)[i as int] == num@);
                    }
                }
            }
        }
        i = i + 1;
        proof {
            assert forall|n: Seq<char>|
                #![trigger contact_targets(records@, n)]
                strs_view(numbers@).take(i as int).contains(n) && contact_targets(
                    records@,
                    n,
                ).len() >= 2 implies exists|k: int|
                0 <= k < cs@.len() && (#[trigger] cs@[k]).number@ == n by {
                let idx = choose|idx: int|
                    0 <= idx < i && strs_view(numbers@).take(i as int)[idx] == n;
                if idx < i - 1 {
                    assert(strs_view(numbers@).take(i - 1).contains(n)) by {
                        assert(strs_view(numbers@).take(i - 1)[idx] == n);
                    }
                    let k = choose|k: int| 0 <= k < cs0.len() && (#[trigger] cs0[k]).number@ == n;
                    assert(cs@[k].number@ == n);
                } else {
                    assert(n == num@);
                    assert(cs@[cs@.len() - 1].number@ == num@);
                }
            }
        }
    }
    proof {
        assert(strs_view(numbers@).take(numbers@.len() as int) =~= strs_view(numbers@));
    }
    let sorted = sort_contacts(cs);
    proof {
        let sv = sorted@;
        let cv = cs@;
        assert forall|k: int| 0 <= k < sv.len() implies contact_ok(records@, #[trigger] sv[k]) by {
            assert(sv.to_multiset().count(sv[k]) > 0) by {
                assert(sv.contains(sv[k]));
            }
            assert(cv.contains(sv[k]));
            let a = choose|a: int| 0 <= a < cv.len() && cv[a] == sv[k];
        }
        assert forall|i2: int, j2: int|
            0 <= i2 < j2 < sv.len() implies sv[i2].number@ != sv[j2].number@ by {
            cv.lemma_multiset_has_no_duplicates();
            assert(cv.no_duplicates()) by {
                assert forall|a: int, b: int| 0 <= a < b < cv.len() implies cv[a] != cv[b] by {
                    assert(cv[a].number@ != cv[b].number@);
                }
            }
            cv.lemma_multiset_has_no_duplicates();
            sv.lemma_multiset_has_no_duplicates_conv();
            assert(sv[i2] != sv[j2]);
            assert(cv.contains(sv[i2])) by {
                assert(sv.contains(sv[i2]));
                assert(sv.to_multiset().count(sv[i2]) > 0);
                assert(cv.to_multiset().count(sv[i2]) > 0);
            }
            assert(cv.contains(sv[j2])) by {
                assert(sv.contains(sv[j2]));
                assert(sv.to_multiset().count(sv[j2]) > 0);
                assert(cv.to_multiset().count(sv[j2]) > 0);
            }
            let a = choose|a: int| 0 <= a < cv.len() && cv[a] == sv[i2];
            let b = choose|b: int| 0 <= b < cv.len() && cv[b] == sv[j2];
            assert(a != b);
        }
        assert forall|n: Seq<char>|
            #![trigger contact_targets(records@, n)]
            numbers_of(records@).contains(n) && contact_targets(records@, n).len() >= 2
                && targets_of(records@).len() >= 2 implies exists|k: int|
            0 <= k < sv.len() && (#[trigger] sv[k]).number@ == n by {
            let k = choose|k: int| 0 <= k < cv.len() && (#[trigger] cv[k]).number@ == n;
            assert(sv.contains(cv[k])) by {
                assert(cv.contains(cv[k]));
                assert(cv.to_multiset().count(cv[k]) > 0);
                assert(sv.to_multiset().count(cv[k]) > 0);
            }
            let k2 = choose|k2: int| 0 <= k2 < sv.len() && sv[k2] == cv[k];
            assert(sv[k2].number@ == n);
        }
    }
    sorted
}

} // verus!

verus! {

/// The ranked most-frequent list is faithful: at most ten entries, exact
/// counts, descending, distinct, and nothing left out that outranks the
/// last entry kept.
pub open spec fn freq_ok(ps: Seq<(String, usize)>, s: Seq<ProcessedCallRecord>) -> bool {
    &&& ps.len() == if numbers_of(s).len() < 10 {
        numbers_of(s).len() as int
    } else {
        10int
    }
    &&& keys_of(ps).no_duplicates()
    &&& forall|k: int|
        0 <= k < ps.len() ==> numbers_of(s).contains((#[trigger] ps[k]).0@) && ps[k].1
            == count_number(s, ps[k].0@)
    &&& forall|i: int, j: int|
        0 <= i < j < ps.len() ==> (#[trigger] ps[i]).1 >= (#[trigger] ps[j]).1
    &&& forall|n: Seq<char>|
        numbers_of(s).contains(n) && !keys_of(ps).contains(n) ==> ps.len() == 10 && count_number(
            s,
            n,
        ) <= ps[9].1
}

/// The per-day histogram is faithful: one entry per distinct date,
/// ascending by date, with exact counts.
pub open spec fn days_ok(ps: Seq<(String, usize)>, s: Seq<ProcessedCallRecord>) -> bool {
    &&& ps.len() == days_of(s).len()
    &&& keys_of(ps).no_duplicates()
    &&& forall|k: int|
        0 <= k < ps.len() ==> days_of(s).contains((#[trigger] ps[k]).0@) && ps[k].1 == count_day(
            s,
            ps[k].0@,
        )
    &&& forall|i: int, j: int|
        0 <= i < j < ps.len() ==> lex_le((#[trigger] ps[i]).0@, (#[trigger] ps[j]).0@)
    &&& forall|d: Seq<char>| days_of(s).contains(d) ==> keys_of(ps).contains(d)
}

/// The common-contact list is faithful, as `find_common_contacts`
/// guarantees it.
pub open spec fn contacts_ok(cs: Seq<CommonContact>, s: Seq<ProcessedCallRecord>) -> bool {
    &&& targets_of(s).len() <= 1 ==> cs.len() == 0
    &&& forall|k: int| 0 <= k < cs.len() ==> contact_ok(s, #[trigger] cs[k])
    &&& forall|i: int, j: int| 0 <= i < j < cs.len() ==> cs[i].number@ != cs[j].number@
    &&& forall|i: int, j: int|
        0 <= i < j < cs.len() ==> contact_le(#[trigger] cs[i], #[trigger] cs[j])
    &&& forall|n: Seq<char>|
        #![trigger contact_targets(s, n)]
        numbers_of(s).contains(n) && contact_targets(s, n).len() >= 2 && targets_of(s).len() >= 2
            ==> exists|k: int| 0 <= k < cs.len() && (#[trigger] cs[k]).number@ == n
}

/// The whole snapshot is faithful to the record set.
pub open spec fn analytics_matches(a: Analytics, s: Seq<ProcessedCallRecord>) -> bool {
    &&& a.total_calls == s.len()
    &&& a.incoming_calls == count_incoming(s)
    &&& a.incoming_calls + a.outgoing_calls == a.total_calls
    &&& a.total_duration_seconds == sum_seconds(s)
    &&& a.average_call_duration_centiseconds == if s.len() == 0 {
        0int
    } else {
        (sum_seconds(s) * 100) / (s.len() as int)
    }
    &&& a.unique_numbers == numbers_of(s).len()
    &&& freq_ok(a.most_frequent_numbers@, s)
    &&& days_ok(a.calls_by_day@, s)
    &&& a.calls_by_hour@.len() == 24
    &&& forall|h: int| 0 <= h < 24 ==> a.calls_by_hour@[h] == count_hour(s, h)
    &&& match a.longest_call {
        Some(c) => exists|i: int| is_first_longest(s, i) && same_record(c, #[trigger] s[i]),
        None => s.len() == 0,
    }
    &&& match a.shortest_call {
        Some(c) => exists|i: int| is_first_shortest(s, i) && same_record(c, #[trigger] s[i]),
        None => forall|j: int| 0 <= j < s.len() ==> (#[trigger] s[j]).length_of_call == 0,
    }
    &&& strs_view(a.target_numbers@).no_duplicates()
    &&& forall|k: int|
        0 <= k < a.target_numbers@.len() ==> targets_of(s).contains(
            #[trigger] strs_view(a.target_numbers@)[k],
        )
    &&& forall|t: Seq<char>| targets_of(s).contains(t) ==> strs_view(a.target_numbers@).contains(t)
    &&& a.target_numbers@.len() == targets_of(s).len()
    &&& strs_view(a.files_processed@).no_duplicates()
    &&& forall|k: int|
        0 <= k < a.files_processed@.len() ==> sources_of(s).contains(
            #[trigger] strs_view(a.files_processed@)[k],
        )
    &&& forall|t: Seq<char>| sources_of(s).contains(t) ==> strs_view(a.files_processed@).contains(t)
    &&& a.files_processed@.len() == sources_of(s).len()
    &&& contacts_ok(a.common_contacts@, s)
    &&& match a.date_range {
        Some(p) => (exists|i: int| 0 <= i < s.len() && (#[trigger] s[i]).start_time == p.0) && (
        exists|i: int| 0 <= i < s.len() && (#[trigger] s[i]).start_time == p.1) && forall|j: int|
            0 <= j < s.len() ==> p.0.epoch_seconds <= (#[trigger] s[j]).start_time.epoch_seconds
                <= p.1.epoch_seconds,
        None => s.len() == 0,
    }
}

/// Facts carried across a permutation of key/count pairs: length,
/// membership both ways, and distinctness of the keys.
proof fn lemma_pair_perm(a: Seq<(String, usize)>, b: Seq<(String, usize)>)
    requires
        a.to_multiset() == b.to_multiset(),
        keys_of(b).no_duplicates(),
    ensures
        a.len() == b.len(),
        forall|k: int| 0 <= k < a.len() ==> b.contains(#[trigger] a[k]),
        forall|k: int| 0 <= k < b.len() ==> a.contains(#[trigger] b[k]),
        keys_of(a).no_duplicates(),
        forall|n: Seq<char>| keys_of(b).contains(n) ==> keys_of(a).contains(n),
{
    broadcast use vstd::seq_lib::group_to_multiset_ensures;

    vstd::seq_lib::to_multiset_len(a);
    vstd::seq_lib::to_multiset_len(b);
    assert(b.no_duplicates()) by {
        assert forall|i: int, j: int| 0 <= i < j < b.len() implies b[i] != b[j] by {
            assert(keys_of(b)[i] != keys_of(b)[j]);
        }
    }
    b.lemma_multiset_has_no_duplicates();
    a.lemma_multiset_has_no_duplicates_conv();
    assert forall|k: int| 0 <= k < a.len() implies b.contains(#[trigger] a[k]) by {
        assert(a.contains(a[k]));
        assert(a.to_multiset().count(a[k]) > 0);
        assert(b.to_multiset().count(a[k]) > 0);
    }
    assert forall|k: int| 0 <= k < b.len() implies a.contains(#[trigger] b[k]) by {
        assert(b.contains(b[k]));
        assert(b.to_multiset().count(b[k]) > 0);
        assert(a.to_multiset().count(b[k]) > 0);
    }
    assert forall|i: int, j: int| 0 <= i < j < keys_of(a).len() implies keys_of(a)[i] != keys_of(
        a,
    )[j] by {
        assert(keys_of(a)[i] == a[i].0@);
        assert(keys_of(a)[j] == a[j].0@);
        if a[i].0@ == a[j].0@ {
            assert(b.contains(a[i]));
            assert(b.contains(a[j]));
            let bi = choose|bi: int| 0 <= bi < b.len() && b[bi] == a[i];
            let bj = choose|bj: int| 0 <= bj < b.len() && b[bj] == a[j];
            assert(keys_of(b)[bi] == a[i].0@);
            assert(keys_of(b)[bj] == a[j].0@);
            assert(bi == bj);
            assert(a[i] == a[j]);
            assert(a.no_duplicates());
        }
    }
    assert forall|n: Seq<char>| keys_of(b).contains(n) implies keys_of(a).contains(n) by {
        let k = choose|k: int| 0 <= k < keys_of(b).len() && keys_of(b)[k] == n;
        assert(b[k].0@ == n);
        assert(a.contains(b[k]));
        let k2 = choose|k2: int| 0 <= k2 < a.len() && a[k2] == b[k];
        assert(keys_of(a)[k2] == n);
    }
}

/// The analytics engine: a pure pass over an already-materialized record
/// set.
pub struct AnalyticsEngine;

impl AnalyticsEngine {
    /// Computes the full snapshot, as `analytics_matches` states. Total
    /// and deterministic; defined for the empty set, where every count is
    /// zero, every collection empty, and every extreme absent.
    #[verifier::rlimit(100)]
    pub fn generate_analytics(records: &Vec<ProcessedCallRecord>) -> (r: Analytics)
        requires
            forall|j: int| 0 <= j < records@.len() ==> (#[trigger] records@[j]).wf(),
        ensures
            analytics_matches(r, records@),
    {
        broadcast use vstd::seq_lib::group_to_multiset_ensures;

        let ghost s = records@;
        let total_calls = records.len();
        let incoming_calls = count_incoming_x(records);
        let outgoing_calls = total_calls - incoming_calls;
        let total_duration_seconds = sum_seconds_x(records);
        proof {
            assert(records@.len() * 0xFFFF_FFFF <= 0xFFFF_FFFF_FFFF_FFFF * 0xFFFF_FFFF)
                by (nonlinear_arith)
                requires
                    records@.len() <= 0xFFFF_FFFF_FFFF_FFFF,
            ;
        }
        let average_call_duration_centiseconds: u128 = if total_calls == 0 {
            0
        } else {
            (total_duration_seconds * 100) / (total_calls as u128)
        };
        let counts = count_numbers(records);
        let unique_numbers = counts.len();
        let full = sort_pairs(counts, true);
        proof {
            lemma_pair_perm(full@, counts@);
        }
        let ghost fullv = full@;
        let mut most_frequent_numbers = full;
        if most_frequent_numbers.len() > 10 {
            most_frequent_numbers.truncate(10);
        }
        proof {
            let ps = most_frequent_numbers@;
            assert(ps =~= if fullv.len() <= 10 {
                fullv
            } else {
                fullv.take(10)
            });
            assert forall|k: int| 0 <= k < ps.len() implies numbers_of(s).contains(
                (#[trigger] ps[k]).0@,
            ) && ps[k].1 == count_number(s, ps[k].0@) by {
                assert(ps[k] == fullv[k]);
                assert(counts@.contains(fullv[k]));
                let c = choose|c: int| 0 <= c < counts@.len() && counts@[c] == fullv[k];
            }
            assert forall|i: int, j: int| 0 <= i < j < keys_of(ps).len() implies keys_of(ps)[i]
                != keys_of(ps)[j] by {
                assert(keys_of(ps)[i] == keys_of(fullv)[i]);
                assert(keys_of(ps)[j] == keys_of(fullv)[j]);
            }
            assert forall|n: Seq<char>|
                numbers_of(s).contains(n) && !keys_of(ps).contains(n) implies ps.len() == 10
                && count_number(s, n) <= ps[9].1 by {
                assert(keys_of(counts@).contains(n));
                assert(keys_of(fullv).contains(n));
                let idx = choose|idx: int| 0 <= idx < keys_of(fullv).len() && keys_of(fullv)[idx] == n;
                assert(fullv[idx].0@ == n);
                if idx < ps.len() {
                    assert(keys_of(ps)[idx] == n);
                } else {
                    assert(ps.len() < fullv.len());
                    assert(ps.len() == 10);
                    assert(fullv[idx].1 <= fullv[9].1);
                    assert(counts@.contains(fullv[idx]));
                    let c = choose|c: int| 0 <= c < counts@.len() && counts@[c] == fullv[idx];
                    assert(count_number(s, n) == fullv[idx].1);
                    assert(ps[9] == fullv[9]);
                }
            }
            assert(freq_ok(ps, s));
        }
        let days = count_days(records);
        let calls_by_day = sort_pairs(days, false);
        proof {
            lemma_pair_perm(calls_by_day@, days@);
            let ps = calls_by_day@;
            assert forall|k: int| 0 <= k < ps.len() implies days_of(s).contains(
                (#[trigger] ps[k]).0@,
            ) && ps[k].1 == count_day(s, ps[k].0@) by {
                assert(days@.contains(ps[k]));
                let c = choose|c: int| 0 <= c < days@.len() && days@[c] == ps[k];
            }
            assert(days_ok(ps, s));
        }
        let calls_by_hour = count_hours(records);
        let longest_call = match find_longest(records) {
            Some(i) => Some(records[i].duplicate()),
            None => None,
        };
        let shortest_call = match find_shortest(records) {
            Some(i) => Some(records[i].duplicate()),
            None => None,
        };
        let target_numbers = distinct_targets(records);
        let files_processed = distinct_sources(records);
        let common_contacts = find_common_contacts(records);
        let date_range = match find_range(records) {
            Some(p) => Some((records[p.0].start_time, records[p.1].start_time)),
            None => None,
        };
        Analytics {
            total_calls,
            incoming_calls,
            outgoing_calls,
            total_duration_seconds,
            average_call_duration_centiseconds,
            unique_numbers,
            most_frequent_numbers,
            calls_by_day,
            calls_by_hour,
            longest_call,
            shortest_call,
            target_numbers,
            common_contacts,
            files_processed,
            date_range,
        }
    }
}

} // verus!

verus! {

/// `value/100`, rendered with exactly two decimal places.
pub open spec fn fixed2_chars(cm: int) -> Seq<char> {
    dec_of(cm / 100) + seq!['.'] + two_digit_chars(cm % 100)
}

/// Appends `cm / 100` with two decimal places.
fn append_fixed2(r: &mut String, cm: u128)
    ensures
        final(r)@ == old(r)@ + fixed2_chars(cm as int),
{
    append_u128(r, cm / 100);
    r.append(".");
    proof {
        vstd::arithmetic::div_mod::lemma_mod_division_less_than_divisor(cm as int, 100);
        vstd::arithmetic::div_mod::lemma_mod_bound(cm as int, 100);
    }
    push_two_digits(r, (cm % 100) as u64);
    proof {
        reveal_strlit(".");
        assert(final(r)@ =~= old(r)@ + fixed2_chars(cm as int));
    }
}

/// The ranked most-frequent lines from position `i` on.
pub open spec fn freq_lines(ps: Seq<(String, usize)>, i: int) -> Seq<char>
    decreases ps.len() - i,
{
    if i < 0 || i >= ps.len() {
        Seq::<char>::empty()
    } else {
        dec_of(i + 1) + ". "@ + ps[i].0@ + " ("@ + dec_of(ps[i].1 as int) + " calls)\n"@
            + freq_lines(ps, i + 1)
    }
}

/// The per-target lines from position `i` on.
pub open spec fn target_lines(ts: Seq<String>, s: Seq<ProcessedCallRecord>, i: int) -> Seq<char>
    decreases ts.len() - i,
{
    if i < 0 || i >= ts.len() {
        Seq::<char>::empty()
    } else {
        "- "@ + ts[i]@ + ": "@ + dec_of(count_target(s, ts[i]@)) + " calls\n"@ + target_lines(
            ts,
            s,
            i + 1,
        )
    }
}

/// The target identifiers joined by `, `, from position `k` on.
pub open spec fn join_from(ts: Seq<String>, k: int) -> Seq<char>
    decreases ts.len() - k,
{
    if k < 0 || k >= ts.len() {
        Seq::<char>::empty()
    } else {
        (if k > 0 {
            ", "@
        } else {
            Seq::<char>::empty()
        }) + ts[k]@ + join_from(ts, k + 1)
    }
}

/// The common-contact lines from position `i` on.
pub open spec fn contact_lines(cs: Seq<CommonContact>, i: int) -> Seq<char>
    decreases cs.len() - i,
{
    if i < 0 || i >= cs.len() {
        Seq::<char>::empty()
    } else {
        "- "@ + cs[i].number@ + ": appears in "@ + dec_of(cs[i].count as int)
            + " target numbers ("@ + join_from(cs[i].target_numbers@, 0) + ")\n"@ + contact_lines(
            cs,
            i + 1,
        )
    }
}

/// The per-day lines from position `i` on.
pub open spec fn day_lines(ps: Seq<(String, usize)>, i: int) -> Seq<char>
    decreases ps.len() - i,
{
    if i < 0 || i >= ps.len() {
        Seq::<char>::empty()
    } else {
        ps[i].0@ + ": "@ + dec_of(ps[i].1 as int) + " calls\n"@ + day_lines(ps, i + 1)
    }
}

/// The per-hour lines from hour `h` on; hours without calls are left out.
pub open spec fn hour_lines(hs: Seq<usize>, h: int) -> Seq<char>
    decreases 24 - h,
{
    if h < 0 || h >= 24 || h >= hs.len() {
        Seq::<char>::empty()
    } else {
        (if hs[h] > 0 {
            two_digit_chars(h) + ":00: "@ + dec_of(hs[h] as int) + " calls\n"@
        } else {
            Seq::<char>::empty()
        }) + hour_lines(hs, h + 1)
    }
}

/// The line the longest call gets, if one exists.
pub open spec fn longest_line(c: Option<ProcessedCallRecord>) -> Seq<char> {
    match c {
        Some(c) => "Longest Call: "@ + dec_of(c.length_of_call as int) + " seconds ("@
            + fixed2_chars(c.length_of_call * 100 / 60) + " minutes) to "@ + c.remote_number@
            + " on "@ + c.date@ + "\n"@,
        None => Seq::<char>::empty(),
    }
}

/// The line the shortest call gets, if one exists.
pub open spec fn shortest_line(c: Option<ProcessedCallRecord>) -> Seq<char> {
    match c {
        Some(c) => "Shortest Call: "@ + dec_of(c.length_of_call as int) + " seconds to "@
            + c.remote_number@ + " on "@ + c.date@ + "\n"@,
        None => Seq::<char>::empty(),
    }
}

/// The date-range line, if the set is non-empty.
pub open spec fn range_line(r: Option<(UtcTime, UtcTime)>) -> Seq<char> {
    match r {
        Some(p) => "Date Range: "@ + date_chars(p.0) + " to "@ + date_chars(p.1) + "\n"@,
        None => Seq::<char>::empty(),
    }
}

/// The fixed summary lines at the head of the report.
pub open spec fn summary_head_chars(a: Analytics) -> Seq<char> {
    "=== TELECOMMUNICATION DATA ANALYSIS ===\n\n"@ + "Total Calls: "@ + dec_of(a.total_calls as int)
        + "\n"@ + "Incoming Calls: "@ + dec_of(a.incoming_calls as int) + "\n"@
        + "Outgoing Calls: "@ + dec_of(a.outgoing_calls as int) + "\n"@
        + "Unique Phone Numbers: "@ + dec_of(a.unique_numbers as int) + "\n"@ + "Target Numbers: "@
        + dec_of(a.target_numbers@.len() as int) + "\n"@ + "Files Processed: "@ + dec_of(
        a.files_processed@.len() as int,
    ) + "\n"@ + "Total Duration: "@ + fixed2_chars(a.total_duration_seconds * 100 / 60)
        + " minutes\n"@ + "Average Call Duration: "@ + fixed2_chars(
        if a.total_calls == 0 {
            0int
        } else {
            a.total_duration_seconds * 100 / (60 * a.total_calls)
        },
    ) + " minutes\n"@
}

/// The common-contacts section, present only when contacts exist.
pub open spec fn contacts_part_chars(cs: Seq<CommonContact>) -> Seq<char> {
    if cs.len() > 0 {
        "\n=== COMMON CONTACTS ACROSS TARGET NUMBERS ===\n"@ + contact_lines(cs, 0)
    } else {
        Seq::<char>::empty()
    }
}

/// The whole text report over a snapshot and its record set.
pub open spec fn report_chars(a: Analytics, s: Seq<ProcessedCallRecord>) -> Seq<char> {
    summary_head_chars(a) + longest_line(a.longest_call) + shortest_line(a.shortest_call)
        + range_line(a.date_range) + "\n=== MOST FREQUENT NUMBERS ===\n"@ + freq_lines(
        a.most_frequent_numbers@,
        0,
    ) + "\n=== TARGET NUMBERS ===\n"@ + target_lines(a.target_numbers@, s, 0)
        + contacts_part_chars(a.common_contacts@) + "\n=== CALLS BY DAY ===\n"@ + day_lines(
        a.calls_by_day@,
        0,
    ) + "\n=== CALLS BY HOUR ===\n"@ + hour_lines(a.calls_by_hour@, 0)
}

/// Counts the calls of one target, as `count_target` states.
fn count_target_x(records: &Vec<ProcessedCallRecord>, t: &str) -> (r: usize)
    ensures
        r == count_target(records@, t@),
{
    let mut c: usize = 0;
    let mut i: usize = 0;
    while i < records.len()
        invariant
            i <= records@.len(),
            c == count_target(records@.take(i as int), t@),
            c <= i,
        decreases records@.len() - i,
    {
        proof {
            assert(records@.take(i + 1).drop_last() =~= records@.take(i as int));
        }
        if str_eq(records[i].target_number.as_str(), t) {
            c = c + 1;
        }
        i = i + 1;
    }
    proof {
        assert(records@.take(records@.len() as int) =~= records@);
    }
    c
}

} // verus!

verus! {

proof fn lemma_sum_seconds_le(s: Seq<ProcessedCallRecord>)
    ensures
        0 <= sum_seconds(s) <= s.len() * 0xFFFF_FFFF,
    decreases s.len(),
{
    if s.len() > 0 {
        lemma_sum_seconds_le(s.drop_last());
        assert(s.len() * 0xFFFF_FFFF == (s.len() - 1) * 0xFFFF_FFFF + 0xFFFF_FFFF)
            by (nonlinear_arith);
    }
}

/// Renders the ranked most-frequent list.
fn freq_section(ps: &Vec<(String, usize)>) -> (r: String)
    ensures
        r@ == freq_lines(ps@, 0),
{
    let mut r = String::new();
    let mut i: usize = 0;
    while i < ps.len()
        invariant
            i <= ps@.len(),
            r@ + freq_lines(ps@, i as int) == freq_lines(ps@, 0),
        decreases ps@.len() - i,
    {
        let ghost r0 = r@;
        append_usize(&mut r, i + 1);
        r.append(". ");
        r.append(ps[i].0.as_str());
        r.append(" (");
        append_usize(&mut r, ps[i].1);
        r.append(" calls)\n");
        proof {
            assert(r@ =~= r0 + (dec_of(i + 1) + ". "@ + ps@[i as int].0@ + " ("@ + dec_of(
                ps@[i as int].1 as int,
            ) + " calls)\n"@));
        }
        i = i + 1;
        proof {
            assert(r0 + (freq_lines(ps@, i - 1)) =~= freq_lines(ps@, 0));
            assert(r@ + freq_lines(ps@, i as int) =~= freq_lines(ps@, 0));
        }
    }
    r
}

/// Renders the per-target call counts.
fn target_section(ts: &Vec<String>, records: &Vec<ProcessedCallRecord>) -> (r: String)
    ensures
        r@ == target_lines(ts@, records@, 0),
{
    let mut r = String::new();
    let mut i: usize = 0;
    while i < ts.len()
        invariant
            i <= ts@.len(),
            r@ + target_lines(ts@, records@, i as int) == target_lines(ts@, records@, 0),
        decreases ts@.len() - i,
    {
        let ghost r0 = r@;
        r.append("- ");
        r.append(ts[i].as_str());
        r.append(": ");
        let c = count_target_x(records, ts[i].as_str());
        append_usize(&mut r, c);
        r.append(" calls\n");
        proof {
            assert(r@ =~= r0 + ("- "@ + ts@[i as int]@ + ": "@ + dec_of(
                count_target(records@, ts@[i as int]@),
            ) + " calls\n"@));
        }
        i = i + 1;
        proof {
            assert(r@ + target_lines(ts@, records@, i as int) =~= target_lines(ts@, records@, 0));
        }
    }
    r
}

/// Renders the target identifiers joined by `, `.
fn join_targets(ts: &Vec<String>) -> (r: String)
    ensures
        r@ == join_from(ts@, 0),
{
    let mut r = String::new();
    let mut i: usize = 0;
    while i < ts.len()
        invariant
            i <= ts@.len(),
            r@ + join_from(ts@, i as int) == join_from(ts@, 0),
        decreases ts@.len() - i,
    {
        let ghost r0 = r@;
        if i > 0 {
            r.append(", ");
        }
        r.append(ts[i].as_str());
        proof {
            if i > 0 {
                assert(r@ =~= r0 + (", "@ + ts@[i as int]@));
            } else {
                assert(r@ =~= r0 + (Seq::<char>::empty() + ts@[i as int]@));
            }
        }
        i = i + 1;
        proof {
            assert(r@ + join_from(ts@, i as int) =~= join_from(ts@, 0));
        }
    }
    r
}

/// Renders the common-contact list.
fn contacts_section(cs: &Vec<CommonContact>) -> (r: String)
    ensures
        r@ == contact_lines(cs@, 0),
{
    let mut r = String::new();
    let mut i: usize = 0;
    while i < cs.len()
        invariant
            i <= cs@.len(),
            r@ + contact_lines(cs@, i as int) == contact_lines(cs@, 0),
        decreases cs@.len() - i,
    {
        let ghost r0 = r@;
        r.append("- ");
        r.append(cs[i].number.as_str());
        r.append(": appears in ");
        append_usize(&mut r, cs[i].count);
        r.append(" target numbers (");
        let joined = join_targets(&cs[i].target_numbers);
        r.append(joined.as_str());
        r.append(")\n");
        proof {
            assert(r@ =~= r0 + ("- "@ + cs@[i as int].number@ + ": appears in "@ + dec_of(
                cs@[i as int].count as int,
            ) + " target numbers ("@ + join_from(cs@[i as int].target_numbers@, 0) + ")\n"@));
        }
        i = i + 1;
        proof {
            assert(r@ + contact_lines(cs@, i as int) =~= contact_lines(cs@, 0));
        }
    }
    r
}

/// Renders the per-day counts.
fn day_section(ps: &Vec<(String, usize)>) -> (r: String)
    ensures
        r@ == day_lines(ps@, 0),
{
    let mut r = String::new();
    let mut i: usize = 0;
    while i < ps.len()
        invariant
            i <= ps@.len(),
            r@ + day_lines(ps@, i as int) == day_lines(ps@, 0),
        decreases ps@.len() - i,
    {
        let ghost r0 = r@;
        r.append(ps[i].0.as_str());
        r.append(": ");
        append_usize(&mut r, ps[i].1);
        r.append(" calls\n");
        proof {
            assert(r@ =~= r0 + (ps@[i as int].0@ + ": "@ + dec_of(ps@[i as int].1 as int)
                + " calls\n"@));
        }
        i = i + 1;
        proof {
            assert(r@ + day_lines(ps@, i as int) =~= day_lines(ps@, 0));
        }
    }
    r
}

/// Renders the per-hour counts, leaving hours without calls out.
fn hour_section(hs: &Vec<usize>) -> (r: String)
    requires
        hs@.len() == 24,
    ensures
        r@ == hour_lines(hs@, 0),
{
    let mut r = String::new();
    let mut h: usize = 0;
    while h < 24
        invariant
            h <= 24,
            hs@.len() == 24,
            r@ + hour_lines(hs@, h as int) == hour_lines(hs@, 0),
        decreases 24 - h,
    {
        let ghost r0 = r@;
        if hs[h] > 0 {
            push_two_digits(&mut r, h as u64);
            r.append(":00: ");
            append_usize(&mut r, hs[h]);
            r.append(" calls\n");
            proof {
                assert(r@ =~= r0 + (two_digit_chars(h as int) + ":00: "@ + dec_of(
                    hs@[h as int] as int,
                ) + " calls\n"@));
            }
        }
        h = h + 1;
        proof {
            assert(r@ + hour_lines(hs@, h as int) =~= hour_lines(hs@, 0));
        }
    }
    r
}

/// Renders the fixed summary lines.
#[verifier::rlimit(100)]
fn summary_head(a: &Analytics) -> (r: String)
    requires
        a.total_duration_seconds <= 0xFFFF_FFFF_FFFF_FFFF * 0xFFFF_FFFF,
    ensures
        r@ == summary_head_chars(*a),
{
    let mut r = String::new();
    r.append("=== TELECOMMUNICATION DATA ANALYSIS ===\n\n");
    r.append("Total Calls: ");
    append_usize(&mut r, a.total_calls);
    r.append("\n");
    r.append("Incoming Calls: ");
    append_usize(&mut r, a.incoming_calls);
    r.append("\n");
    r.append("Outgoing Calls: ");
    append_usize(&mut r, a.outgoing_calls);
    r.append("\n");
    r.append("Unique Phone Numbers: ");
    append_usize(&mut r, a.unique_numbers);
    r.append("\n");
    r.append("Target Numbers: ");
    append_usize(&mut r, a.target_numbers.len());
    r.append("\n");
    r.append("Files Processed: ");
    append_usize(&mut r, a.files_processed.len());
    r.append("\n");
    r.append("Total Duration: ");
    append_fixed2(&mut r, a.total_duration_seconds * 100 / 60);
    r.append(" minutes\n");
    r.append("Average Call Duration: ");
    let avg_cm: u128 = if a.total_calls == 0 {
        0
    } else {
        a.total_duration_seconds * 100 / (60 * a.total_calls as u128)
    };
    append_fixed2(&mut r, avg_cm);
    r.append(" minutes\n");
    proof {
        assert(r@ =~= summary_head_chars(*a));
    }
    r
}

/// Renders the longest-call line, where one exists.
fn longest_part(c: &Option<ProcessedCallRecord>) -> (r: String)
    ensures
        r@ == longest_line(*c),
{
    let mut r = String::new();
    if let Some(c) = c {
        r.append("Longest Call: ");
        append_u128(&mut r, c.length_of_call as u128);
        r.append(" seconds (");
        append_fixed2(&mut r, c.length_of_call as u128 * 100 / 60);
        r.append(" minutes) to ");
        r.append(c.remote_number.as_str());
        r.append(" on ");
        r.append(c.date.as_str());
        r.append("\n");
    }
    proof {
        assert(r@ =~= longest_line(*c));
    }
    r
}

/// Renders the shortest-call line, where one exists.
fn shortest_part(c: &Option<ProcessedCallRecord>) -> (r: String)
    ensures
        r@ == shortest_line(*c),
{
    let mut r = String::new();
    if let Some(c) = c {
        r.append("Shortest Call: ");
        append_u128(&mut r, c.length_of_call as u128);
        r.append(" seconds to ");
        r.append(c.remote_number.as_str());
        r.append(" on ");
        r.append(c.date.as_str());
        r.append("\n");
    }
    proof {
        assert(r@ =~= shortest_line(*c));
    }
    r
}

/// Renders the date-range line, where one exists.
fn range_part(p: &Option<(UtcTime, UtcTime)>) -> (r: String)
    requires
        match *p {
            Some(q) => q.0.inv() && q.1.inv(),
            None => true,
        },
    ensures
        r@ == range_line(*p),
{
    let mut r = String::new();
    if let Some(p) = p {
        r.append("Date Range: ");
        let d0 = format_date(&p.0);
        r.append(d0.as_str());
        r.append(" to ");
        let d1 = format_date(&p.1);
        r.append(d1.as_str());
        r.append("\n");
    }
    proof {
        assert(r@ =~= range_line(*p));
    }
    r
}

/// Renders the common-contacts section, where contacts exist.
fn contacts_part(cs: &Vec<CommonContact>) -> (r: String)
    ensures
        r@ == contacts_part_chars(cs@),
{
    let mut r = String::new();
    if cs.len() > 0 {
        r.append("\n=== COMMON CONTACTS ACROSS TARGET NUMBERS ===\n");
        let body = contacts_section(cs);
        r.append(body.as_str());
    }
    proof {
        assert(r@ =~= contacts_part_chars(cs@));
    }
    r
}

impl AnalyticsEngine {
    /// Renders the fixed-section text report over a snapshot and its
    /// record set, exactly as `report_chars` states. A view only: it
    /// computes nothing new.
    #[verifier::rlimit(100)]
    pub fn generate_summary_report(analytics: &Analytics, records: &Vec<ProcessedCallRecord>) -> (r:
        String)
        requires
            analytics_matches(*analytics, records@),
            forall|j: int| 0 <= j < records@.len() ==> (#[trigger] records@[j]).wf(),
        ensures
            r@ == report_chars(*analytics, records@),
    {
        let a = analytics;
        proof {
            lemma_sum_seconds_le(records@);
            assert(records@.len() * 0xFFFF_FFFF <= 0xFFFF_FFFF_FFFF_FFFF * 0xFFFF_FFFF)
                by (nonlinear_arith)
                requires
                    records@.len() <= 0xFFFF_FFFF_FFFF_FFFF,
            ;
            if let Some(p) = a.date_range {
                let i = choose|i: int|
                    0 <= i < records@.len() && (#[trigger] records@[i]).start_time == p.0;
                let j = choose|j: int|
                    0 <= j < records@.len() && (#[trigger] records@[j]).start_time == p.1;
                assert(records@[i].wf());
                assert(records@[j].wf());
            }
        }
        let mut r = summary_head(a);
        let part = longest_part(&a.longest_call);
        r.append(part.as_str());
        let part = shortest_part(&a.shortest_call);
        r.append(part.as_str());
        let part = range_part(&a.date_range);
        r.append(part.as_str());
        r.append("\n=== MOST FREQUENT NUMBERS ===\n");
        let part = freq_section(&a.most_frequent_numbers);
        r.append(part.as_str());
        r.append("\n=== TARGET NUMBERS ===\n");
        let part = target_section(&a.target_numbers, records);
        r.append(part.as_str());
        let part = contacts_part(&a.common_contacts);
        r.append(part.as_str());
        r.append("\n=== CALLS BY DAY ===\n");
        let part = day_section(&a.calls_by_day);
        r.append(part.as_str());
        r.append("\n=== CALLS BY HOUR ===\n");
        let part = hour_section(&a.calls_by_hour);
        r.append(part.as_str());
        r
    }
}

} // verus!

verus! {

/// The direction split and the average are consistent for every record
/// set: incoming and outgoing calls partition the total, and the average
/// duration is the total duration divided by the total count, exact up to
/// the floor (the stored average `q` satisfies
/// `q * total <= 100 * duration < (q + 1) * total`).
pub proof fn lemma_direction_and_average(a: Analytics, s: Seq<ProcessedCallRecord>)
    requires
        analytics_matches(a, s),
        s.len() > 0,
    ensures
        a.incoming_calls + a.outgoing_calls == a.total_calls,
        a.average_call_duration_centiseconds * a.total_calls <= a.total_duration_seconds * 100,
        a.total_duration_seconds * 100 < (a.average_call_duration_centiseconds + 1) * a.total_calls,
{
    let sum = sum_seconds(s) * 100;
    let n = s.len() as int;
    let q = a.average_call_duration_centiseconds as int;
    lemma_sum_seconds_le(s);
    vstd::arithmetic::div_mod::lemma_fundamental_div_mod(sum, n);
    assert(q * n == n * q) by (nonlinear_arith);
    assert((q + 1) * n == n * q + n) by (nonlinear_arith);
}

/// The shortest call is absent exactly when every record has zero
/// length, even where a longest call is present.
pub proof fn lemma_shortest_absent(a: Analytics, s: Seq<ProcessedCallRecord>)
    requires
        analytics_matches(a, s),
        forall|j: int| 0 <= j < s.len() ==> (#[trigger] s[j]).length_of_call == 0,
    ensures
        a.shortest_call is None,
        s.len() > 0 ==> a.longest_call is Some,
{
    if a.shortest_call is Some {
        let i = choose|i: int|
            is_first_shortest(s, i) && same_record(a.shortest_call.unwrap(), #[trigger] s[i]);
        assert(s[i].length_of_call == 0);
    }
}

} // verus!
