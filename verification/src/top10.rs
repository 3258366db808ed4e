//! The best-times tables of a level.
use crate::endian::{
    get_i32, get_u32, i32_at, i32_bytes, le_bytes_u32, lemma_i32_at, lemma_le_lengths, lemma_u32_at,
    put_bytes, put_i32, put_u32, u32_at,
};
use crate::error::ElmaError;
use crate::layout::{concat, lemma_concat_fixed, lemma_concat_push, zeros};
use crate::text::{
    bytes_result, fits_field, lemma_pad_then_trim, pad_spec, string_null_pad, trim_spec, trim_string,
};
use vstd::prelude::*;
use vstd::slice::slice_subrange;

verus! {

/// Number of entries a best-times table holds.
pub const TOP10_ENTRIES: usize = 10;

/// Number of bytes of a name in a best-times table.
pub const TOP10_NAME_SIZE: usize = 15;

/// One entry of a best-times table.
#[derive(Debug, PartialEq, Eq)]
pub struct TimeEntry {
    /// Player and partner names.
    pub names: (String, String),
    /// Time, in hundredths of a second.
    pub time: i32,
}

/// What a `TimeEntry` holds.
pub struct TimeEntryView {
    pub names: (Seq<char>, Seq<char>),
    pub time: i32,
}

impl View for TimeEntry {
    type V = TimeEntryView;

    open spec fn view(&self) -> TimeEntryView {
        TimeEntryView { names: (self.names.0@, self.names.1@), time: self.time }
    }
}

impl Clone for TimeEntry {
    fn clone(&self) -> (r: Self)
        ensures
            r@ == self@,
    {
        TimeEntry { names: (self.names.0.clone(), self.names.1.clone()), time: self.time }
    }
}

impl TimeEntry {
    /// A new entry.
    pub fn new(names: (String, String), time: i32) -> (e: Self)
        ensures
            e@ == (TimeEntryView { names: (names.0@, names.1@), time }),
    {
        TimeEntry { names, time }
    }
}

/// The single-player and multi-player best-times lists.
#[derive(Clone, Debug, PartialEq, Eq)]
pub struct BestTimes {
    /// Single-player times.
    pub single: Vec<TimeEntry>,
    /// Multi-player times.
    pub multi: Vec<TimeEntry>,
}

/// What a `BestTimes` holds.
pub struct BestTimesView {
    pub single: Seq<TimeEntryView>,
    pub multi: Seq<TimeEntryView>,
}

/// The views of a sequence of entries.
pub open spec fn entries_view(s: Seq<TimeEntry>) -> Seq<TimeEntryView> {
    s.map_values(|e: TimeEntry| e@)
}

impl View for BestTimes {
    type V = BestTimesView;

    open spec fn view(&self) -> BestTimesView {
        BestTimesView { single: entries_view(self.single@), multi: entries_view(self.multi@) }
    }
}

impl Default for BestTimes {
    fn default() -> (r: Self)
        ensures
            r@.single.len() == 0,
            r@.multi.len() == 0,
    {
        BestTimes { single: Vec::new(), multi: Vec::new() }
    }
}

/// The spec value of an entry-list result.
pub open spec fn entries_result(r: Result<Vec<TimeEntry>, ElmaError>) -> Result<
    Seq<TimeEntryView>,
    ElmaError,
> {
    match r {
        Ok(v) => Ok(entries_view(v@)),
        Err(e) => Err(e),
    }
}

/// The field of the first name of entry `k` in a table.
pub open spec fn name1_field(b: Seq<u8>, k: int) -> Seq<u8> {
    b.subrange(44 + 15 * k, 59 + 15 * k)
}

/// The field of the second name of entry `k` in a table.
pub open spec fn name2_field(b: Seq<u8>, k: int) -> Seq<u8> {
    b.subrange(194 + 15 * k, 209 + 15 * k)
}

/// Entry `k` of a table, or `None` where one of its names is not UTF-8.
pub open spec fn entry_at(b: Seq<u8>, k: int) -> Option<TimeEntryView> {
    match trim_spec(name1_field(b, k)) {
        Some(n1) => match trim_spec(name2_field(b, k)) {
            Some(n2) => Some(TimeEntryView { names: (n1, n2), time: i32_at(b, 4 + 4 * k) }),
            None => None,
        },
        None => None,
    }
}

/// The first `n` entries of a table, or the error of the first bad one.
pub open spec fn entries_at(b: Seq<u8>, n: nat) -> Result<Seq<TimeEntryView>, ElmaError>
    decreases n,
{
    if n == 0 {
        Ok(Seq::empty())
    } else {
        match entries_at(b, (n - 1) as nat) {
            Ok(es) => match entry_at(b, n - 1) {
                Some(e) => Ok(es.push(e)),
                None => Err(ElmaError::InvalidUtf8),
            },
            Err(e) => Err(e),
        }
    }
}

/// The entries of a table: as many as its count says, at most ten.
pub open spec fn parse_table_spec(b: Seq<u8>) -> Result<Seq<TimeEntryView>, ElmaError> {
    let count = u32_at(b, 0);
    if count > 10 {
        Err(ElmaError::InvalidTop10Count(count))
    } else {
        entries_at(b, count as nat)
    }
}

/// Once an entry is bad, every longer list is the same error.
pub proof fn lemma_entries_err(b: Seq<u8>, n: nat, m: nat)
    requires
        entries_at(b, n) is Err,
        n <= m,
    ensures
        entries_at(b, m) == entries_at(b, n),
    decreases m,
{
    if m > n {
        lemma_entries_err(b, n, (m - 1) as nat);
    }
}

/// Reads a best-times table.
pub fn parse_top10(top10: &[u8]) -> (r: Result<Vec<TimeEntry>, ElmaError>)
    requires
        top10@.len() >= 344,
    ensures
        entries_result(r) == parse_table_spec(top10@),
{
    let times = match get_u32(top10, 0) {
        Some(v) => v,
        None => return Err(ElmaError::UnexpectedEof),
    };
    if times > 10 {
        return Err(ElmaError::InvalidTop10Count(times));
    }
    let mut list: Vec<TimeEntry> = Vec::new();
    let mut n: u32 = 0;
    assert(entries_view(list@) =~= Seq::<TimeEntryView>::empty());
    while n < times
        invariant
            n <= times <= 10,
            top10@.len() >= 344,
            times == u32_at(top10@, 0),
            entries_at(top10@, n as nat) == Ok::<Seq<TimeEntryView>, ElmaError>(
                entries_view(list@),
            ),
        decreases times - n,
    {
        let k = n as usize;
        let name_1 = match trim_string(slice_subrange(top10, 44 + 15 * k, 59 + 15 * k)) {
            Ok(s) => s,
            Err(e) => {
                proof {
                    lemma_entries_err(top10@, (n + 1) as nat, times as nat);
                }
                return Err(e);
            },
        };
        let name_2 = match trim_string(slice_subrange(top10, 194 + 15 * k, 209 + 15 * k)) {
            Ok(s) => s,
            Err(e) => {
                proof {
                    lemma_entries_err(top10@, (n + 1) as nat, times as nat);
                }
                return Err(e);
            },
        };
        let time = match get_i32(top10, 4 + 4 * k) {
            Some(t) => t,
            None => return Err(ElmaError::UnexpectedEof),
        };
        let ghost old_list = list@;
        list.push(TimeEntry { names: (name_1, name_2), time });
        proof {
            assert(entries_view(list@) =~= entries_view(old_list).push(
                TimeEntryView { names: (name_1@, name_2@), time },
            ));
        }
        n += 1;
    }
    Ok(list)
}

/// How many entries of a list a table shows.
pub open spec fn shown_count(len: nat) -> nat {
    if len < 10 {
        len
    } else {
        10
    }
}

/// The ten time fields of a table showing `shown`; unused ones are zero.
pub open spec fn times_chunks(shown: Seq<TimeEntryView>) -> Seq<Seq<u8>> {
    Seq::new(
        10,
        |j: int|
            i32_bytes(
                if j < shown.len() {
                    shown[j].time
                } else {
                    0i32
                },
            ),
    )
}

/// The fields of the first and of the second names of `es`, or the error of
/// the first name that does not fit.
pub open spec fn names_blocks(es: Seq<TimeEntryView>) -> Result<(Seq<u8>, Seq<u8>), ElmaError>
    decreases es.len(),
{
    if es.len() == 0 {
        Ok((Seq::empty(), Seq::empty()))
    } else {
        match names_blocks(es.drop_last()) {
            Ok((a, b)) => match pad_spec(es.last().names.0, 15) {
                Ok(x) => match pad_spec(es.last().names.1, 15) {
                    Ok(y) => Ok((a + x, b + y)),
                    Err(e) => Err(e),
                },
                Err(e) => Err(e),
            },
            Err(e) => Err(e),
        }
    }
}

/// The bytes of a table for the list `es`: the count of shown entries, ten
/// times, ten first names and ten second names.
pub open spec fn table_bytes(es: Seq<TimeEntryView>) -> Result<Seq<u8>, ElmaError> {
    let k = shown_count(es.len());
    let shown = es.take(k as int);
    match names_blocks(shown) {
        Ok((n1, n2)) => Ok(
            le_bytes_u32(k as u32) + concat(times_chunks(shown)) + n1 + zeros(
                (15 * (10 - k)) as nat,
            ) + n2 + zeros((15 * (10 - k)) as nat),
        ),
        Err(e) => Err(e),
    }
}

/// The bytes of both tables, single-player first.
pub open spec fn top10_bytes(bt: BestTimesView) -> Result<Seq<u8>, ElmaError> {
    match table_bytes(bt.single) {
        Ok(a) => match table_bytes(bt.multi) {
            Ok(b) => Ok(a + b),
            Err(e) => Err(e),
        },
        Err(e) => Err(e),
    }
}

/// Once a name does not fit, every longer list is the same error.
pub proof fn lemma_names_err(es: Seq<TimeEntryView>, i: int)
    requires
        0 <= i <= es.len(),
        names_blocks(es.take(i)) is Err,
    ensures
        names_blocks(es) == names_blocks(es.take(i)),
    decreases es.len(),
{
    if i == es.len() {
        assert(es.take(i) =~= es);
    } else {
        assert(es.drop_last().take(i) =~= es.take(i));
        lemma_names_err(es.drop_last(), i);
    }
}

/// Appends `n` zero bytes.
pub fn put_zeros(buf: &mut Vec<u8>, n: usize)
    ensures
        final(buf)@ == old(buf)@ + zeros(n as nat),
{
    let mut i: usize = 0;
    while i < n
        invariant
            i <= n,
            buf@ == old(buf)@ + zeros(i as nat),
        decreases n - i,
    {
        buf.push(0u8);
        i += 1;
        assert(buf@ =~= old(buf)@ + zeros(i as nat));
    }
}

/// Writes one best-times table.
fn write_table(entries: &Vec<TimeEntry>) -> (r: Result<Vec<u8>, ElmaError>)
    ensures
        bytes_result(r) == table_bytes(entries_view(entries@)),
{
    let n = entries.len();
    let k: usize = if n < 10 {
        n
    } else {
        10
    };
    let ghost shown = entries_view(entries@).take(k as int);
    let mut names_1: Vec<u8> = Vec::new();
    let mut names_2: Vec<u8> = Vec::new();
    let mut i: usize = 0;
    assert(shown.take(0) =~= Seq::<TimeEntryView>::empty());
    while i < k
        invariant
            i <= k <= 10,
            k <= entries.len(),
            k == shown_count(entries.len() as nat),
            shown == entries_view(entries@).take(k as int),
            names_blocks(shown.take(i as int)) == Ok::<(Seq<u8>, Seq<u8>), ElmaError>(
                (names_1@, names_2@),
            ),
        decreases k - i,
    {
        assert(shown.take(i + 1).drop_last() =~= shown.take(i as int));
        assert(shown.take(i + 1).last() == entries@[i as int]@);
        let a = match string_null_pad(entries[i].names.0.as_str(), 15) {
            Ok(a) => a,
            Err(e) => {
                proof {
                    lemma_names_err(shown, i + 1);
                    assert(shown.take(k as int) =~= shown);
                }
                return Err(e);
            },
        };
        let b = match string_null_pad(entries[i].names.1.as_str(), 15) {
            Ok(b) => b,
            Err(e) => {
                proof {
                    lemma_names_err(shown, i + 1);
                    assert(shown.take(k as int) =~= shown);
                }
                return Err(e);
            },
        };
        put_bytes(&mut names_1, a.as_slice());
        put_bytes(&mut names_2, b.as_slice());
        i += 1;
    }
    assert(shown.take(k as int) =~= shown);
    let mut out: Vec<u8> = Vec::new();
    put_u32(&mut out, k as u32);
    let ghost chunks = times_chunks(shown);
    let mut j: usize = 0;
    assert(chunks.take(0) =~= Seq::<Seq<u8>>::empty());
    while j < 10
        invariant
            j <= 10,
            k <= 10,
            k <= entries.len(),
            shown == entries_view(entries@).take(k as int),
            chunks == times_chunks(shown),
            out@ == le_bytes_u32(k as u32) + concat(chunks.take(j as int)),
        decreases 10 - j,
    {
        let t: i32 = if j < k {
            entries[j].time
        } else {
            0
        };
        put_i32(&mut out, t);
        proof {
            assert(chunks.take(j + 1) =~= chunks.take(j as int).push(i32_bytes(t)));
            lemma_concat_push(chunks.take(j as int), i32_bytes(t));
        }
        j += 1;
    }
    assert(chunks.take(10) =~= chunks);
    put_bytes(&mut out, names_1.as_slice());
    put_zeros(&mut out, 15 * (10 - k));
    put_bytes(&mut out, names_2.as_slice());
    put_zeros(&mut out, 15 * (10 - k));
    Ok(out)
}

/// Writes both best-times tables, single-player first, each list in the
/// order it has.
pub fn write_top10(best_times: &BestTimes) -> (r: Result<Vec<u8>, ElmaError>)
    ensures
        bytes_result(r) == top10_bytes(best_times@),
{
    let mut single = match write_table(&best_times.single) {
        Ok(b) => b,
        Err(e) => return Err(e),
    };
    let multi = match write_table(&best_times.multi) {
        Ok(b) => b,
        Err(e) => return Err(e),
    };
    put_bytes(&mut single, multi.as_slice());
    Ok(single)
}

/// Every name of the entries a table shows fits its field.
pub open spec fn names_fit(es: Seq<TimeEntryView>) -> bool {
    forall|j: int|
        0 <= j < shown_count(es.len()) ==> fits_field(#[trigger] es[j].names.0, 15) && fits_field(
            es[j].names.1,
            15,
        )
}

/// The name fields of entries whose names fit: fifteen bytes each, and each
/// reads back as its name.
proof fn lemma_names_blocks(es: Seq<TimeEntryView>)
    requires
        forall|j: int|
            0 <= j < es.len() ==> fits_field(#[trigger] es[j].names.0, 15) && fits_field(
                es[j].names.1,
                15,
            ),
    ensures
        names_blocks(es) matches Ok((a, b)) && a.len() == 15 * es.len() && b.len() == 15
            * es.len() && (forall|j: int|
            0 <= j < es.len() ==> trim_spec(#[trigger] a.subrange(15 * j, 15 * j + 15)) == Some(
                es[j].names.0,
            ) && trim_spec(b.subrange(15 * j, 15 * j + 15)) == Some(es[j].names.1)),
    decreases es.len(),
{
    if es.len() > 0 {
        let init = es.drop_last();
        lemma_names_blocks(init);
        let last = es.last();
        lemma_pad_then_trim(last.names.0, 15);
        lemma_pad_then_trim(last.names.1, 15);
        let (a0, b0) = names_blocks(init)->Ok_0;
        let x = pad_spec(last.names.0, 15)->Ok_0;
        let y = pad_spec(last.names.1, 15)->Ok_0;
        let a = a0 + x;
        let b = b0 + y;
        let n = init.len();
        assert forall|j: int| 0 <= j < es.len() implies trim_spec(
            #[trigger] a.subrange(15 * j, 15 * j + 15),
        ) == Some(es[j].names.0) && trim_spec(b.subrange(15 * j, 15 * j + 15)) == Some(
            es[j].names.1,
        ) by {
            if j < n {
                assert(a.subrange(15 * j, 15 * j + 15) =~= a0.subrange(15 * j, 15 * j + 15));
                assert(b.subrange(15 * j, 15 * j + 15) =~= b0.subrange(15 * j, 15 * j + 15));
                assert(init[j] == es[j]);
            } else {
                assert(a.subrange(15 * j, 15 * j + 15) =~= x);
                assert(b.subrange(15 * j, 15 * j + 15) =~= y);
            }
        }
    }
}

/// A list whose entries are all readable at their places reads back whole.
proof fn lemma_entries_all(b: Seq<u8>, es: Seq<TimeEntryView>, m: nat)
    requires
        m <= es.len(),
        forall|j: int| 0 <= j < m ==> entry_at(b, j) == Some(#[trigger] es[j]),
    ensures
        entries_at(b, m) == Ok::<Seq<TimeEntryView>, ElmaError>(es.take(m as int)),
    decreases m,
{
    if m == 0 {
        assert(es.take(0) =~= Seq::<TimeEntryView>::empty());
    } else {
        lemma_entries_all(b, es, (m - 1) as nat);
        assert(es.take(m as int) =~= es.take(m - 1).push(es[m - 1]));
    }
}

/// A table written for a list whose shown names fit reads back as the
/// shown entries: the first ten, in order.
pub proof fn lemma_table_roundtrip(es: Seq<TimeEntryView>)
    requires
        names_fit(es),
    ensures
        table_bytes(es) matches Ok(b) && b.len() == 344 && parse_table_spec(b) == Ok::<
            Seq<TimeEntryView>,
            ElmaError,
        >(es.take(shown_count(es.len()) as int)),
{
    let k = shown_count(es.len());
    let shown = es.take(k as int);
    assert forall|j: int| 0 <= j < shown.len() implies fits_field(
        #[trigger] shown[j].names.0,
        15,
    ) && fits_field(shown[j].names.1, 15) by {
        assert(shown[j] == es[j]);
        assert(fits_field(es[j].names.0, 15));
    }
    lemma_names_blocks(shown);
    let (n1, n2) = names_blocks(shown)->Ok_0;
    let chunks = times_chunks(shown);
    lemma_le_lengths();
    lemma_concat_fixed(chunks, 4);
    let u = le_bytes_u32(k as u32);
    let t = concat(chunks);
    let z = zeros((15 * (10 - k)) as nat);
    let b = u + t + n1 + z + n2 + z;
    assert(b.len() == 344);
    assert(b.subrange(0, 4) =~= u);
    lemma_u32_at(b, 0, k as u32);
    assert forall|j: int| 0 <= j < k implies entry_at(b, j) == Some(#[trigger] shown[j]) by {
        assert(b.subrange(4 + 4 * j, 8 + 4 * j) =~= t.subrange(4 * j, 4 * j + 4));
        assert(chunks[j] == i32_bytes(shown[j].time));
        lemma_i32_at(b, 4 + 4 * j, shown[j].time);
        assert(name1_field(b, j) =~= n1.subrange(15 * j, 15 * j + 15));
        assert(name2_field(b, j) =~= n2.subrange(15 * j, 15 * j + 15));
    }
    lemma_entries_all(b, shown, k);
    assert(shown.take(k as int) =~= shown);
}

/// `e` placed into `s` after every entry that is not slower than it.
pub open spec fn insert_by_time(s: Seq<TimeEntryView>, e: TimeEntryView) -> Seq<TimeEntryView>
    decreases s.len(),
{
    if s.len() == 0 {
        seq![e]
    } else if e.time < s[0].time {
        seq![e] + s
    } else {
        seq![s[0]] + insert_by_time(s.drop_first(), e)
    }
}

/// The entries ordered by time, fastest first; entries of equal time keep
/// their order.
pub open spec fn sort_by_time(s: Seq<TimeEntryView>) -> Seq<TimeEntryView>
    decreases s.len(),
{
    if s.len() == 0 {
        s
    } else {
        insert_by_time(sort_by_time(s.drop_last()), s.last())
    }
}

/// Every entry is at least as fast as each later one.
pub open spec fn ordered_by_time(s: Seq<TimeEntryView>) -> bool {
    forall|i: int, j: int| 0 <= i < j < s.len() ==> s[i].time <= s[j].time
}

/// Placing `e` at the first entry slower than it.
proof fn lemma_insert_at(s: Seq<TimeEntryView>, e: TimeEntryView, p: int)
    requires
        0 <= p <= s.len(),
        forall|j: int| 0 <= j < p ==> s[j].time <= e.time,
        p == s.len() || s[p].time > e.time,
    ensures
        insert_by_time(s, e) == s.insert(p, e),
    decreases p,
{
    if p == 0 {
        assert(s.insert(0, e) =~= seq![e] + s);
        if s.len() == 0 {
            assert(s.insert(0, e) =~= seq![e]);
        }
    } else {
        lemma_insert_at(s.drop_first(), e, p - 1);
        assert(s.insert(p, e) =~= seq![s[0]] + s.drop_first().insert(p - 1, e));
    }
}

/// Every entry of `insert_by_time(s, e)` is at least `t` where `e` and all
/// of `s` are.
proof fn lemma_insert_lower(s: Seq<TimeEntryView>, e: TimeEntryView, t: int)
    requires
        t <= e.time,
        forall|k: int| 0 <= k < s.len() ==> t <= #[trigger] s[k].time,
    ensures
        insert_by_time(s, e).len() == s.len() + 1,
        forall|k: int|
            0 <= k < insert_by_time(s, e).len() ==> t <= #[trigger] insert_by_time(s, e)[k].time,
    decreases s.len(),
{
    if s.len() > 0 && e.time >= s[0].time {
        lemma_insert_lower(s.drop_first(), e, t);
    }
}

/// Inserting into an ordered list keeps it ordered and adds just `e`.
proof fn lemma_insert_sorted(s: Seq<TimeEntryView>, e: TimeEntryView)
    requires
        ordered_by_time(s),
    ensures
        ordered_by_time(insert_by_time(s, e)),
        insert_by_time(s, e).to_multiset() == s.to_multiset().insert(e),
    decreases s.len(),
{
    broadcast use vstd::seq_lib::to_multiset_insert;

    if s.len() == 0 {
        assert(seq![e] =~= s.insert(0, e));
    } else if e.time < s[0].time {
        assert(seq![e] + s =~= s.insert(0, e));
    } else {
        let rest = s.drop_first();
        lemma_insert_sorted(rest, e);
        lemma_insert_lower(rest, e, s[0].time as int);
        let r = insert_by_time(rest, e);
        assert(seq![s[0]] + r =~= r.insert(0, s[0]));
        assert(s =~= rest.insert(0, s[0]));
        assert(s.to_multiset().insert(e) =~= rest.to_multiset().insert(e).insert(s[0]));
        let whole = seq![s[0]] + r;
        assert forall|i: int, j: int| 0 <= i < j < whole.len() implies whole[i].time
            <= whole[j].time by {
            if i > 0 {
                assert(whole[i] == r[i - 1]);
                assert(whole[j] == r[j - 1]);
            } else {
                assert(whole[j] == r[j - 1]);
            }
        }
    }
}

/// The best-times lists are written ordered by time: the order holds and
/// no entry is added or lost.
pub proof fn lemma_sort_by_time(s: Seq<TimeEntryView>)
    ensures
        ordered_by_time(sort_by_time(s)),
        sort_by_time(s).to_multiset() == s.to_multiset(),
    decreases s.len(),
{
    broadcast use vstd::seq_lib::to_multiset_build;

    if s.len() > 0 {
        lemma_sort_by_time(s.drop_last());
        lemma_insert_sorted(sort_by_time(s.drop_last()), s.last());
        assert(s =~= s.drop_last().push(s.last()));
    }
}

/// The entries ordered by time, fastest first, entries of equal time in the
/// order they had.
pub fn sorted_by_time(entries: &Vec<TimeEntry>) -> (r: Vec<TimeEntry>)
    ensures
        entries_view(r@) == sort_by_time(entries_view(entries@)),
{
    let mut out: Vec<TimeEntry> = Vec::new();
    let mut i: usize = 0;
    assert(entries_view(entries@).take(0) =~= Seq::<TimeEntryView>::empty());
    while i < entries.len()
        invariant
            i <= entries.len(),
            entries_view(out@) == sort_by_time(entries_view(entries@).take(i as int)),
        decreases entries.len() - i,
    {
        let e = entries[i].clone();
        let mut p: usize = 0;
        while p < out.len() && out[p].time <= e.time
            invariant
                p <= out.len(),
                forall|j: int| 0 <= j < p ==> out@[j].time <= e.time,
            decreases out.len() - p,
        {
            p += 1;
        }
        let ghost before = out@;
        let ghost ev = e@;
        proof {
            lemma_insert_at(entries_view(before), ev, p as int);
        }
        out.insert(p, e);
        proof {
            let whole = entries_view(entries@);
            assert(whole.take(i + 1).drop_last() =~= whole.take(i as int));
            assert(whole.take(i + 1).last() == ev);
            assert(entries_view(out@) =~= entries_view(before).insert(p as int, ev));
        }
        i += 1;
    }
    assert(entries_view(entries@).take(entries.len() as int) =~= entries_view(entries@));
    out
}

/// The entries of a list read from a table are the entries at their places.
proof fn lemma_entries_fields(b: Seq<u8>, n: nat)
    requires
        entries_at(b, n) is Ok,
    ensures
        entries_at(b, n)->Ok_0.len() == n,
        forall|k: int| 0 <= k < n ==> entry_at(b, k) == Some(#[trigger] entries_at(b, n)->Ok_0[k]),
    decreases n,
{
    if n > 0 {
        lemma_entries_fields(b, (n - 1) as nat);
        let es = entries_at(b, (n - 1) as nat)->Ok_0;
        assert forall|k: int| 0 <= k < n implies entry_at(b, k) == Some(
            #[trigger] entries_at(b, n)->Ok_0[k],
        ) by {
            if k < n - 1 {
                assert(entries_at(b, n)->Ok_0[k] == es[k]);
            }
        }
    }
}

/// A table is read as: at 0 the number of entries (at most ten); entry `k`
/// with its time at `4 + 4k`, its first name in the field of fifteen bytes at
/// `44 + 15k` and its second name in the field at `194 + 15k`.
pub proof fn lemma_table_fields(b: Seq<u8>)
    requires
        parse_table_spec(b) is Ok,
    ensures
        ({
            let es = parse_table_spec(b)->Ok_0;
            &&& es.len() == u32_at(b, 0)
            &&& es.len() <= 10
            &&& forall|k: int|
                0 <= k < es.len() ==> {
                    &&& (#[trigger] es[k]).time == i32_at(b, 4 + 4 * k)
                    &&& trim_spec(b.subrange(44 + 15 * k, 59 + 15 * k)) == Some(es[k].names.0)
                    &&& trim_spec(b.subrange(194 + 15 * k, 209 + 15 * k)) == Some(es[k].names.1)
                }
        }),
{
    lemma_entries_fields(b, u32_at(b, 0) as nat);
}

/// The name fields of entries whose names fit their fields: fifteen bytes
/// each, entry `j`'s at `15j`.
proof fn lemma_names_layout(es: Seq<TimeEntryView>)
    requires
        names_blocks(es) is Ok,
    ensures
        ({
            let (a, b) = names_blocks(es)->Ok_0;
            &&& a.len() == 15 * es.len()
            &&& b.len() == 15 * es.len()
            &&& forall|j: int|
                0 <= j < es.len() ==> {
                    &&& pad_spec((#[trigger] es[j]).names.0, 15) is Ok
                    &&& pad_spec(es[j].names.1, 15) is Ok
                    &&& a.subrange(15 * j, 15 * j + 15) == pad_spec(es[j].names.0, 15)->Ok_0
                    &&& b.subrange(15 * j, 15 * j + 15) == pad_spec(es[j].names.1, 15)->Ok_0
                }
        }),
    decreases es.len(),
{
    if es.len() > 0 {
        let init = es.drop_last();
        lemma_names_layout(init);
        let (a0, b0) = names_blocks(init)->Ok_0;
        let last = es.last();
        let x = pad_spec(last.names.0, 15)->Ok_0;
        let y = pad_spec(last.names.1, 15)->Ok_0;
        let (a, b) = names_blocks(es)->Ok_0;
        assert(a == a0 + x && b == b0 + y);
        let n = init.len() as int;
        assert forall|j: int| 0 <= j < es.len() implies {
            &&& pad_spec((#[trigger] es[j]).names.0, 15) is Ok
            &&& pad_spec(es[j].names.1, 15) is Ok
            &&& a.subrange(15 * j, 15 * j + 15) == pad_spec(es[j].names.0, 15)->Ok_0
            &&& b.subrange(15 * j, 15 * j + 15) == pad_spec(es[j].names.1, 15)->Ok_0
        } by {
            if j < n {
                assert(init[j] == es[j]);
                assert(a.subrange(15 * j, 15 * j + 15) =~= a0.subrange(15 * j, 15 * j + 15));
                assert(b.subrange(15 * j, 15 * j + 15) =~= b0.subrange(15 * j, 15 * j + 15));
            } else {
                assert(a.subrange(15 * j, 15 * j + 15) =~= x);
                assert(b.subrange(15 * j, 15 * j + 15) =~= y);
            }
        }
    }
}

/// A table is written as: 344 bytes; at 0 the number `k` of entries shown
/// (the first ten at most); for each shown entry `j`, its time at `4 + 4j`,
/// its first name in the field of fifteen bytes at `44 + 15j` and its second
/// name in the field at `194 + 15j`.
pub proof fn lemma_table_layout(es: Seq<TimeEntryView>)
    requires
        table_bytes(es) is Ok,
    ensures
        ({
            let b = table_bytes(es)->Ok_0;
            let k = shown_count(es.len());
            &&& b.len() == 344
            &&& u32_at(b, 0) == k
            &&& forall|j: int|
                0 <= j < k ==> {
                    &&& i32_at(b, 4 + 4 * j) == (#[trigger] es[j]).time
                    &&& b.subrange(44 + 15 * j, 59 + 15 * j) == pad_spec(es[j].names.0, 15)->Ok_0
                    &&& b.subrange(194 + 15 * j, 209 + 15 * j) == pad_spec(es[j].names.1, 15)->Ok_0
                }
        }),
{
    let k = shown_count(es.len());
    let shown = es.take(k as int);
    lemma_names_layout(shown);
    let (n1, n2) = names_blocks(shown)->Ok_0;
    let chunks = times_chunks(shown);
    lemma_le_lengths();
    lemma_concat_fixed(chunks, 4);
    let u = le_bytes_u32(k as u32);
    let t = concat(chunks);
    let z = zeros((15 * (10 - k)) as nat);
    let b = u + t + n1 + z + n2 + z;
    assert(b == table_bytes(es)->Ok_0);
    assert(b.len() == 344);
    assert(b.subrange(0, 4) =~= u);
    lemma_u32_at(b, 0, k as u32);
    assert forall|j: int| 0 <= j < k implies {
        &&& i32_at(b, 4 + 4 * j) == (#[trigger] es[j]).time
        &&& b.subrange(44 + 15 * j, 59 + 15 * j) == pad_spec(es[j].names.0, 15)->Ok_0
        &&& b.subrange(194 + 15 * j, 209 + 15 * j) == pad_spec(es[j].names.1, 15)->Ok_0
    } by {
        assert(shown[j] == es[j]);
        assert(b.subrange(4 + 4 * j, 8 + 4 * j) =~= t.subrange(4 * j, 4 * j + 4));
        assert(chunks[j] == i32_bytes(shown[j].time));
        lemma_i32_at(b, 4 + 4 * j, shown[j].time);
        assert(b.subrange(44 + 15 * j, 59 + 15 * j) =~= n1.subrange(15 * j, 15 * j + 15));
        assert(b.subrange(194 + 15 * j, 209 + 15 * j) =~= n2.subrange(15 * j, 15 * j + 15));
    }
}

} // verus!
