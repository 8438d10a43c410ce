//! The reference data: a gzip file that holds
//! `[{"vector": [...14 numbers...], "label": "legit" or "fraud"}, ...]`.

use vstd::prelude::*;
use crate::consts::DIM;

verus! {

/// The first position from `i` on whose byte satisfies `stop`, or the end.
pub open spec fn find(data: Seq<u8>, i: int, stop: spec_fn(u8) -> bool) -> int
    decreases data.len() - i,
{
    if i < data.len() && !stop(data[i]) {
        find(data, i + 1, stop)
    } else {
        i
    }
}

/// White space or a comma.
pub open spec fn is_blank(b: u8) -> bool {
    b == 0x20 || b == 0x0a || b == 0x0d || b == 0x09 || b == 0x2c
}

/// What may stand between two objects: white space, a comma or a brace.
pub open spec fn is_gap(b: u8) -> bool {
    is_blank(b) || b == 0x7b || b == 0x7d
}

/// The byte `b`.
pub open spec fn byte(b: u8) -> spec_fn(u8) -> bool {
    |x: u8| x == b
}

/// Anything but a blank.
pub open spec fn is_not_blank() -> spec_fn(u8) -> bool {
    |x: u8| !is_blank(x)
}

/// Anything but what may stand between two objects.
pub open spec fn is_not_gap() -> spec_fn(u8) -> bool {
    |x: u8| !is_gap(x)
}

/// What ends a number: a blank or a closing bracket.
pub open spec fn ends_number() -> spec_fn(u8) -> bool {
    |x: u8| is_blank(x) || x == 0x5d
}

/// The position behind the next byte `b`, if there is one.
pub open spec fn behind(data: Seq<u8>, i: int, b: u8) -> Option<int> {
    let p = find(data, i, byte(b));
    if p < data.len() {
        Some(p + 1)
    } else {
        None
    }
}

/// The next number from `i` on: from behind the blanks to the next blank or bracket.
pub open spec fn number_span(data: Seq<u8>, i: int) -> (int, int) {
    let start = find(data, i, is_not_blank());
    (start, find(data, start, ends_number()))
}

/// The next `k` numbers from `i` on.
pub open spec fn number_spans(data: Seq<u8>, i: int, k: nat) -> Seq<(int, int)>
    decreases k,
{
    if k == 0 {
        Seq::empty()
    } else {
        let before = number_spans(data, i, (k - 1) as nat);
        before.push(
            number_span(
                data,
                if k == 1 {
                    i
                } else {
                    before.last().1
                },
            ),
        )
    }
}

/// Where a record's numbers stand, and its label.
#[verifier::ext_equal]
pub struct Record {
    pub numbers: Seq<(int, int)>,
    pub fraud: bool,
}

/// None of the numbers is missing.
pub open spec fn all_present(numbers: Seq<(int, int)>) -> bool {
    forall|j: int| 0 <= j < numbers.len() ==> (#[trigger] numbers[j]).0 < numbers[j].1
}

/// The record from `i` on and the position behind it: a bracket, the numbers, a bracket, a colon
/// and a string. The string may be cut short, nothing else, and no number may be missing.
pub open spec fn record(data: Seq<u8>, i: int) -> Option<(Record, int)> {
    match behind(data, i, 0x5b) {
        None => None,
        Some(a) => {
            let numbers = number_spans(data, a, DIM as nat);
            if !all_present(numbers) {
                None
            } else {
                match behind(data, numbers.last().1, 0x5d) {
                    None => None,
                    Some(b) => match behind(data, b, 0x3a) {
                        None => None,
                        Some(c) => match behind(data, c, 0x22) {
                            None => None,
                            Some(d) => {
                                let e = find(data, d, byte(0x22));
                                Some(
                                    (
                                        Record {
                                            numbers,
                                            fraud: data.subrange(d, e) == fraud_label(),
                                        },
                                        if e < data.len() {
                                            e + 1
                                        } else {
                                            e
                                        },
                                    ),
                                )
                            },
                        },
                    },
                }
            }
        },
    }
}

/// The label of a fraud.
pub open spec fn fraud_label() -> Seq<u8> {
    seq![0x66u8, 0x72, 0x61, 0x75, 0x64]
}

/// Searching never goes back, passes over no byte that it looks for, and stops at the end.
pub proof fn find_moves_on(data: Seq<u8>, i: int, stop: spec_fn(u8) -> bool)
    ensures
        i <= find(data, i, stop),
        i <= data.len() ==> find(data, i, stop) <= data.len(),
        i <= data.len() && find(data, i, stop) < data.len() ==> stop(
            data[find(data, i, stop)],
        ),
        forall|j: int| 0 <= i <= j < find(data, i, stop) ==> !stop(#[trigger] data[j]),
    decreases data.len() - i,
{
    if i < data.len() && !stop(data[i]) {
        find_moves_on(data, i + 1, stop);
    }
}

proof fn spans_move_on(data: Seq<u8>, i: int, k: nat)
    requires
        0 <= i <= data.len(),
    ensures
        number_spans(data, i, k).len() == k,
        forall|j: int|
            0 <= j < k ==> i <= (#[trigger] number_spans(data, i, k)[j]).0 <= number_spans(
                data,
                i,
                k,
            )[j].1 <= data.len(),
    decreases k,
{
    if k > 0 {
        let before = number_spans(data, i, (k - 1) as nat);
        spans_move_on(data, i, (k - 1) as nat);
        let from = if k == 1 {
            i
        } else {
            before.last().1
        };
        if k > 1 {
            assert(before[k - 2].0 <= before[k - 2].1);
        }
        let start = find(data, from, is_not_blank());
        find_moves_on(data, from, is_not_blank());
        find_moves_on(data, start, ends_number());
        let all = number_spans(data, i, k);
        assert forall|j: int| 0 <= j < k implies i <= (#[trigger] all[j]).0 <= all[j].1
            <= data.len() by {
            if j < k - 1 {
                assert(all[j] == before[j]);
            }
        }
    }
}

/// A number that is missing is missing from every longer list.
pub proof fn a_missing_number_stays_missing(data: Seq<u8>, i: int, k: nat, m: nat)
    requires
        0 < k <= m,
        number_spans(data, i, k).len() == k,
        number_spans(data, i, k)[k - 1].0 >= number_spans(data, i, k)[k - 1].1,
    ensures
        number_spans(data, i, m).len() == m,
        number_spans(data, i, m)[k - 1] == number_spans(data, i, k)[k - 1],
        !all_present(number_spans(data, i, m)),
    decreases m,
{
    if k < m {
        a_missing_number_stays_missing(data, i, k, (m - 1) as nat);
        assert(number_spans(data, i, m)[k - 1] == number_spans(data, i, (m - 1) as nat)[k - 1]);
    }
}

/// A record ends behind its start.
pub proof fn record_moves_on(data: Seq<u8>, i: int)
    requires
        0 <= i <= data.len(),
    ensures
        record(data, i) matches Some((_, next)) ==> i < next <= data.len(),
{
    if let Some(a) = behind(data, i, 0x5b) {
        find_moves_on(data, i, byte(0x5b));
        let numbers = number_spans(data, a, DIM as nat);
        spans_move_on(data, a, DIM as nat);
        assert(a <= numbers[13].0 <= numbers[13].1 <= data.len());
        if let Some(b) = behind(data, numbers.last().1, 0x5d) {
            find_moves_on(data, numbers.last().1, byte(0x5d));
            if let Some(c) = behind(data, b, 0x3a) {
                find_moves_on(data, b, byte(0x3a));
                if let Some(d) = behind(data, c, 0x22) {
                    find_moves_on(data, c, byte(0x22));
                    find_moves_on(data, d, byte(0x22));
                }
            }
        }
    }
}

/// The records from `i` on, up to a closing bracket or the end. `None` if a record is cut short
/// or lacks a number.
pub open spec fn records(data: Seq<u8>, i: int) -> Option<Seq<Record>>
    decreases data.len() - i,
{
    let p = find(data, i, is_not_gap());
    if p < 0 || p >= data.len() || data[p] == 0x5d {
        Some(Seq::empty())
    } else {
        match record(data, p) {
            None => None,
            Some((r, next)) => {
                proof {
                    find_moves_on(data, i, is_not_gap());
                    record_moves_on(data, p);
                }
                match records(data, next) {
                    None => None,
                    Some(rest) => Some(seq![r] + rest),
                }
            },
        }
    }
}

/// The records of the reference data. Without an opening bracket there are none.
pub open spec fn all_records(data: Seq<u8>) -> Option<Seq<Record>> {
    match behind(data, 0, 0x5b) {
        None => Some(Seq::empty()),
        Some(i) => records(data, i),
    }
}

/// A record of the reference data: from where to where each number stands, and the label.
#[derive(Clone, Copy)]
pub struct Reference {
    pub numbers: [(usize, usize); 14],
    pub fraud: bool,
}

impl View for Reference {
    type V = Record;

    open spec fn view(&self) -> Record {
        Record {
            numbers: self.numbers@.map_values(|p: (usize, usize)| (p.0 as int, p.1 as int)),
            fraud: self.fraud,
        }
    }
}

fn blank(b: u8) -> (yes: bool)
    ensures
        yes == is_blank(b),
{
    b == 0x20 || b == 0x0a || b == 0x0d || b == 0x09 || b == 0x2c
}

fn find_byte(data: &[u8], i: usize, b: u8) -> (p: usize)
    requires
        i <= data.len(),
    ensures
        p == find(data@, i as int, byte(b)),
        i <= p <= data.len(),
{
    let mut p: usize = i;
    while p < data.len() && data[p] != b
        invariant
            i <= p <= data.len(),
            find(data@, p as int, byte(b)) == find(data@, i as int, byte(b)),
        decreases data.len() - p,
    {
        p += 1;
    }
    p
}

fn find_behind(data: &[u8], i: usize, b: u8) -> (r: Option<usize>)
    requires
        i <= data.len(),
    ensures
        r is Some <==> behind(data@, i as int, b) is Some,
        r matches Some(p) ==> behind(data@, i as int, b) == Some(p as int) && i < p <= data.len(),
{
    let p = find_byte(data, i, b);
    if p < data.len() {
        Some(p + 1)
    } else {
        None
    }
}

fn find_number(data: &[u8], i: usize) -> (r: (usize, usize))
    requires
        i <= data.len(),
    ensures
        (r.0 as int, r.1 as int) == number_span(data@, i as int),
        i <= r.0 <= r.1 <= data.len(),
{
    let mut start: usize = i;
    while start < data.len() && blank(data[start])
        invariant
            i <= start <= data.len(),
            find(data@, start as int, is_not_blank()) == find(data@, i as int, is_not_blank()),
        decreases data.len() - start,
    {
        start += 1;
    }
    let mut end: usize = start;
    while end < data.len() && !(blank(data[end]) || data[end] == 0x5d)
        invariant
            start <= end <= data.len(),
            find(data@, end as int, ends_number()) == find(data@, start as int, ends_number()),
        decreases data.len() - end,
    {
        end += 1;
    }
    (start, end)
}

fn skip_gap(data: &[u8], i: usize) -> (p: usize)
    requires
        i <= data.len(),
    ensures
        p == find(data@, i as int, is_not_gap()),
        i <= p <= data.len(),
{
    let mut p: usize = i;
    while p < data.len() && (blank(data[p]) || data[p] == 0x7b || data[p] == 0x7d)
        invariant
            i <= p <= data.len(),
            find(data@, p as int, is_not_gap()) == find(data@, i as int, is_not_gap()),
        decreases data.len() - p,
    {
        p += 1;
    }
    p
}

fn is_fraud_label(data: &[u8], d: usize, e: usize) -> (yes: bool)
    requires
        d <= e <= data.len(),
    ensures
        yes == (data@.subrange(d as int, e as int) == fraud_label()),
{
    let ghost s = data@.subrange(d as int, e as int);
    let ghost f = fraud_label();
    assert(f.len() == 5 && s.len() == e - d);
    if e - d != 5 {
        return false;
    }
    let yes = data[d] == 0x66 && data[d + 1] == 0x72 && data[d + 2] == 0x61 && data[d + 3] == 0x75
        && data[d + 4] == 0x64;
    proof {
        assert(s[0] == data@[d as int] && s[1] == data@[d + 1] && s[2] == data@[d + 2] && s[3]
            == data@[d + 3] && s[4] == data@[d + 4]);
        if yes {
            assert(s =~= f);
        } else {
            assert(s[0] != f[0] || s[1] != f[1] || s[2] != f[2] || s[3] != f[3] || s[4] != f[4]);
        }
    }
    yes
}

fn read_record(data: &[u8], i: usize) -> (r: Option<(Reference, usize)>)
    requires
        i <= data.len(),
    ensures
        r is Some <==> record(data@, i as int) is Some,
        r matches Some((x, next)) ==> record(data@, i as int) == Some((x@, next as int)) && i < next
            <= data.len(),
{
    let a = match find_behind(data, i, 0x5b) {
        Some(a) => a,
        None => {
            return None;
        },
    };
    let mut numbers: [(usize, usize); 14] = [(0usize, 0usize); 14];
    let mut at: usize = a;
    for k in 0..DIM
        invariant
            behind(data@, i as int, 0x5b) == Some(a as int),
            i < a <= at <= data.len(),
            at == if k == 0 {
                a as int
            } else {
                number_spans(data@, a as int, k as nat).last().1
            },
            number_spans(data@, a as int, k as nat).len() == k,
            forall|j: int|
                0 <= j < k ==> number_spans(data@, a as int, k as nat)[j] == (
                    (#[trigger] numbers[j]).0 as int,
                    numbers[j].1 as int,
                ),
            all_present(number_spans(data@, a as int, k as nat)),
    {
        let span = find_number(data, at);
        if span.0 == span.1 {
            proof {
                a_missing_number_stays_missing(data@, a as int, (k + 1) as nat, DIM as nat);
            }
            return None;
        }
        numbers[k] = span;
        at = span.1;
    }
    let ghost spans = number_spans(data@, a as int, DIM as nat);
    assert(spans =~= numbers@.map_values(|p: (usize, usize)| (p.0 as int, p.1 as int)));
    let b = match find_behind(data, at, 0x5d) {
        Some(b) => b,
        None => {
            return None;
        },
    };
    let c = match find_behind(data, b, 0x3a) {
        Some(c) => c,
        None => {
            return None;
        },
    };
    let d = match find_behind(data, c, 0x22) {
        Some(d) => d,
        None => {
            return None;
        },
    };
    let e = find_byte(data, d, 0x22);
    let fraud = is_fraud_label(data, d, e);
    let next: usize = if e < data.len() {
        e + 1
    } else {
        e
    };
    Some((Reference { numbers, fraud }, next))
}

/// Reads the reference data. `None` if a record is cut short or lacks a number.
pub fn parse_refs(data: &[u8]) -> (r: Option<Vec<Reference>>)
    ensures
        r is Some <==> all_records(data@) is Some,
        r matches Some(refs) ==> all_records(data@) == Some(
            refs@.map_values(|x: Reference| x@),
        ),
{
    let mut refs: Vec<Reference> = Vec::new();
    let first = match find_behind(data, 0, 0x5b) {
        Some(i) => i,
        None => {
            assert(refs@.map_values(|x: Reference| x@) =~= Seq::empty());
            return Some(refs);
        },
    };
    let mut i: usize = first;
    let ghost whole = records(data@, first as int);
    loop
        invariant
            first <= i <= data.len(),
            all_records(data@) == whole,
            whole is Some <==> records(data@, i as int) is Some,
            whole is Some ==> whole->0 =~= refs@.map_values(|x: Reference| x@) + records(
                data@,
                i as int,
            )->0,
        ensures
            whole is Some,
            whole->0 =~= refs@.map_values(|x: Reference| x@),
        decreases data.len() - i,
    {
        let p = skip_gap(data, i);
        if p >= data.len() || data[p] == 0x5d {
            break;
        }
        match read_record(data, p) {
            Some((x, next)) => {
                let ghost before = refs@;
                refs.push(x);
                i = next;
                assert(refs@.map_values(|x: Reference| x@) =~= before.map_values(
                    |x: Reference| x@,
                ).push(x@));
            },
            None => {
                return None;
            },
        }
    }
    Some(refs)
}

/// What the members of a gzip file hold, one behind the other; `None` if it is not such a file.
pub uninterp spec fn gunzipped(gz: Seq<u8>) -> Option<Seq<u8>>;

/// Reads `flate2::read::MultiGzDecoder` over the bytes to its end. Nothing is claimed of the
/// result but that it depends on the bytes alone: what was decompressed, or that decoding
/// failed.
#[verifier::external_body]
fn gunzip(gz: &[u8]) -> (r: Option<Vec<u8>>)
    ensures
        gunzipped(gz@) == match r {
            Some(data) => Some(data@),
            None => None,
        },
{
    let mut data: Vec<u8> = Vec::new();
    match std::io::Read::read_to_end(&mut flate2::read::MultiGzDecoder::new(gz), &mut data) {
        Ok(_) => Some(data),
        Err(_) => None,
    }
}

/// Why reference data cannot be read.
#[derive(Clone, Copy, Debug, PartialEq, Eq, Structural)]
pub enum ReferenceError {
    /// The file is not a gzip file.
    NotGzip,
    /// A record is cut short or lacks a number.
    BadRecord,
}

/// Decompresses and reads the reference data. Returns the decompressed bytes and the records in
/// them.
pub fn read_references(gz: &[u8]) -> (r: Result<(Vec<u8>, Vec<Reference>), ReferenceError>)
    ensures
        r matches Err(ReferenceError::NotGzip) <==> gunzipped(gz@) is None,
        r matches Err(ReferenceError::BadRecord) <==> gunzipped(gz@) is Some && all_records(
            gunzipped(gz@)->0,
        ) is None,
        r matches Ok((data, refs)) ==> gunzipped(gz@) == Some(data@) && all_records(data@) == Some(
            refs@.map_values(|x: Reference| x@),
        ),
{
    match gunzip(gz) {
        None => Err(ReferenceError::NotGzip),
        Some(data) => match parse_refs(data.as_slice()) {
            None => Err(ReferenceError::BadRecord),
            Some(refs) => Ok((data, refs)),
        },
    }
}

/// Which bytes are blanks, and which may stand between objects.
pub proof fn blanks_and_gaps(b: u8)
    ensures
        is_blank(b) <==> b == 32 || b == 10 || b == 13 || b == 9 || b == 44,
        is_gap(b) <==> b == 32 || b == 10 || b == 13 || b == 9 || b == 44 || b == 123 || b == 125,
        is_not_blank()(b) <==> !(b == 32 || b == 10 || b == 13 || b == 9 || b == 44),
        is_not_gap()(b) <==> !(b == 32 || b == 10 || b == 13 || b == 9 || b == 44 || b == 123 || b
            == 125),
        ends_number()(b) <==> b == 32 || b == 10 || b == 13 || b == 9 || b == 44 || b == 93,
        fraud_label().len() == 5,
        fraud_label()[0] == 102 && fraud_label()[1] == 114 && fraud_label()[2] == 97
            && fraud_label()[3] == 117 && fraud_label()[4] == 100,
{
}

/// The byte `b` stands at `p`, and nowhere from `i` up to there.
pub open spec fn is_next(data: Seq<u8>, i: int, b: u8, p: int) -> bool {
    0 <= i <= p < data.len() && data[p] == b && forall|j: int|
        i <= j < p ==> #[trigger] data[j] != b
}

/// The byte `b` does not stand anywhere from `i` on.
pub open spec fn is_gone(data: Seq<u8>, i: int, b: u8) -> bool {
    forall|j: int| i <= j < data.len() ==> #[trigger] data[j] != b
}

proof fn finds_next(data: Seq<u8>, i: int, b: u8, p: int)
    requires
        is_next(data, i, b, p),
    ensures
        find(data, i, byte(b)) == p,
        behind(data, i, b) == Some(p + 1),
    decreases p - i,
{
    if i < p {
        assert(data[i] != b);
        finds_next(data, i + 1, b, p);
    }
}

proof fn finds_nothing(data: Seq<u8>, i: int, b: u8)
    requires
        0 <= i <= data.len(),
        is_gone(data, i, b),
    ensures
        find(data, i, byte(b)) == data.len(),
        behind(data, i, b) is None,
    decreases data.len() - i,
{
    if i < data.len() {
        assert(data[i] != b);
        finds_nothing(data, i + 1, b);
    }
}

/// The next number: up to its first byte there are only blanks, in it there is no blank and no
/// closing bracket, and one of these follows it, or the end.
pub proof fn numbers_stand_between_blanks(data: Seq<u8>, i: int)
    requires
        0 <= i <= data.len(),
    ensures
        ({
            let (start, end) = number_span(data, i);
            &&& i <= start <= end <= data.len()
            &&& forall|j: int|
                i <= j < start ==> (#[trigger] data[j] == 32 || data[j] == 10 || data[j] == 13
                    || data[j] == 9 || data[j] == 44)
            &&& forall|j: int|
                start <= j < end ==> !(#[trigger] data[j] == 32 || data[j] == 10 || data[j] == 13
                    || data[j] == 9 || data[j] == 44 || data[j] == 93)
            &&& start < end || start == data.len() || data[start] == 93
            &&& end < data.len() ==> (data[end] == 32 || data[end] == 10 || data[end] == 13
                || data[end] == 9 || data[end] == 44 || data[end] == 93)
        }),
{
    let start = find(data, i, is_not_blank());
    let end = find(data, start, ends_number());
    find_moves_on(data, i, is_not_blank());
    find_moves_on(data, start, ends_number());
    assert forall|j: int| i <= j < start implies (#[trigger] data[j] == 32 || data[j] == 10
        || data[j] == 13 || data[j] == 9 || data[j] == 44) by {
        assert(!is_not_blank()(data[j]));
    }
    assert forall|j: int| start <= j < end implies !(#[trigger] data[j] == 32 || data[j] == 10
        || data[j] == 13 || data[j] == 9 || data[j] == 44 || data[j] == 93) by {
        assert(!ends_number()(data[j]));
    }
    if start < data.len() && start == end {
        assert(is_not_blank()(data[start]));
        assert(ends_number()(data[start]));
    }
    if end < data.len() {
        assert(ends_number()(data[end]));
    }
}

/// Numbers follow each other: each is the next one behind the number before it.
pub proof fn numbers_follow_each_other(data: Seq<u8>, i: int, k: nat)
    ensures
        number_spans(data, i, 0) == Seq::<(int, int)>::empty(),
        number_spans(data, i, 1) == seq![number_span(data, i)],
        k > 0 ==> number_spans(data, i, k + 1) == number_spans(data, i, k).push(
            number_span(data, number_spans(data, i, k).last().1),
        ),
{
    reveal_with_fuel(number_spans, 2);
    assert(number_spans(data, i, 1) =~= seq![number_span(data, i)]);
}

/// A record in full: a bracket, fourteen numbers behind it, the next closing bracket, the next
/// colon, the next quote, and the label from there to the quote behind it, or to the end.
pub proof fn records_in_full(data: Seq<u8>, i: int, a: int, b: int, c: int, d: int, e: int)
    requires
        is_next(data, i, 0x5b, a),
        forall|j: int|
            0 <= j < 14 ==> (#[trigger] number_spans(data, a + 1, 14)[j]).0 < number_spans(
                data,
                a + 1,
                14,
            )[j].1,
        is_next(data, number_spans(data, a + 1, 14)[13].1, 0x5d, b),
        is_next(data, b + 1, 0x3a, c),
        is_next(data, c + 1, 0x22, d),
        is_next(data, d + 1, 0x22, e) || (e == data.len() && is_gone(data, d + 1, 0x22)),
    ensures
        record(data, i) matches Some((r, next)) && r.numbers == number_spans(data, a + 1, 14)
            && r.numbers.len() == 14 && next == (if e < data.len() {
            e + 1
        } else {
            e
        }) && (r.fraud <==> data.subrange(d + 1, e) == seq![102u8, 114, 97, 117, 100]),
{
    let spans = number_spans(data, a + 1, 14);
    spans_move_on(data, a + 1, 14);
    assert(spans.last() == spans[13]);
    assert(fraud_label() =~= seq![102u8, 114, 97, 117, 100]);
    finds_next(data, i, 0x5b, a);
    finds_next(data, spans[13].1, 0x5d, b);
    finds_next(data, b + 1, 0x3a, c);
    finds_next(data, c + 1, 0x22, d);
    if e < data.len() {
        finds_next(data, d + 1, 0x22, e);
    } else {
        finds_nothing(data, d + 1, 0x22);
    }
}

/// When there is no record: a bracket, one of the fourteen numbers, the closing bracket, the
/// colon or the opening quote is missing.
pub proof fn records_are_refused(data: Seq<u8>, i: int, a: int, b: int, c: int)
    requires
        0 <= i <= data.len(),
    ensures
        is_gone(data, i, 0x5b) ==> record(data, i) is None,
        is_next(data, i, 0x5b, a) && (exists|j: int|
            0 <= j < 14 && (#[trigger] number_spans(data, a + 1, 14)[j]).0 >= number_spans(
                data,
                a + 1,
                14,
            )[j].1) ==> record(data, i) is None,
        is_next(data, i, 0x5b, a) && is_gone(data, number_spans(data, a + 1, 14)[13].1, 0x5d)
            ==> record(data, i) is None,
        is_next(data, i, 0x5b, a) && is_next(data, number_spans(data, a + 1, 14)[13].1, 0x5d, b)
            && is_gone(data, b + 1, 0x3a) ==> record(data, i) is None,
        is_next(data, i, 0x5b, a) && is_next(data, number_spans(data, a + 1, 14)[13].1, 0x5d, b)
            && is_next(data, b + 1, 0x3a, c) && is_gone(data, c + 1, 0x22) ==> record(data, i)
            is None,
{
    if is_gone(data, i, 0x5b) {
        finds_nothing(data, i, 0x5b);
    }
    if is_next(data, i, 0x5b, a) {
        finds_next(data, i, 0x5b, a);
        let spans = number_spans(data, a + 1, 14);
        spans_move_on(data, a + 1, 14);
        assert(spans.last() == spans[13]);
        let end = spans[13].1;
        if exists|j: int| 0 <= j < 14 && (#[trigger] spans[j]).0 >= spans[j].1 {
            let j = choose|j: int| 0 <= j < 14 && (#[trigger] spans[j]).0 >= spans[j].1;
            assert(!all_present(spans));
        }
        if is_gone(data, end, 0x5d) {
            finds_nothing(data, end, 0x5d);
        }
        if is_next(data, end, 0x5d, b) {
            finds_next(data, end, 0x5d, b);
            if is_gone(data, b + 1, 0x3a) {
                finds_nothing(data, b + 1, 0x3a);
            }
            if is_next(data, b + 1, 0x3a, c) {
                finds_next(data, b + 1, 0x3a, c);
                if is_gone(data, c + 1, 0x22) {
                    finds_nothing(data, c + 1, 0x22);
                }
            }
        }
    }
}

proof fn finds_past_gaps(data: Seq<u8>, i: int, p: int)
    requires
        0 <= i <= p <= data.len(),
        forall|j: int| i <= j < p ==> is_gap(#[trigger] data[j]),
        p == data.len() || !is_gap(data[p]),
    ensures
        find(data, i, is_not_gap()) == p,
    decreases p - i,
{
    if i < p {
        assert(is_gap(data[i]));
        finds_past_gaps(data, i + 1, p);
    }
}

/// Records go one by one: past what may stand between objects they end at a closing bracket or
/// at the end; anything else is a record and those behind it, and if one is refused, so are all.
pub proof fn records_go_one_by_one(data: Seq<u8>, i: int, p: int)
    requires
        0 <= i <= p <= data.len(),
        forall|j: int| i <= j < p ==> is_gap(#[trigger] data[j]),
        p == data.len() || !is_gap(data[p]),
    ensures
        p == data.len() ==> records(data, i) == Some(Seq::<Record>::empty()),
        p < data.len() && data[p] == 0x5d ==> records(data, i) == Some(Seq::<Record>::empty()),
        p < data.len() && data[p] != 0x5d ==> match record(data, p) {
            None => records(data, i) is None,
            Some((r, next)) => match records(data, next) {
                None => records(data, i) is None,
                Some(rest) => records(data, i) == Some(seq![r] + rest),
            },
        },
{
    finds_past_gaps(data, i, p);
    find_moves_on(data, i, is_not_gap());
    record_moves_on(data, p);
}

/// All records: those behind the first opening bracket, none if there is no bracket.
pub proof fn records_start_behind_a_bracket(data: Seq<u8>, p: int)
    ensures
        is_gone(data, 0, 0x5b) ==> all_records(data) == Some(Seq::<Record>::empty()),
        is_next(data, 0, 0x5b, p) ==> all_records(data) == records(data, p + 1),
{
    if is_gone(data, 0, 0x5b) {
        finds_nothing(data, 0, 0x5b);
    }
    if is_next(data, 0, 0x5b, p) {
        finds_next(data, 0, 0x5b, p);
    }
}

/// A reference is viewed field by field.
pub proof fn references_are_their_fields(x: Reference, j: int)
    requires
        0 <= j < 14,
    ensures
        x@.fraud == x.fraud,
        x@.numbers.len() == 14,
        x@.numbers[j].0 == x.numbers@[j].0,
        x@.numbers[j].1 == x.numbers@[j].1,
{
}

} // verus!
