//! The text of reference data, and the laws of reading it: records are read back as they
//! were written, whatever white space stands between the tokens; joined lists give joined
//! records; and a record that lacks a number is refused.

use vstd::prelude::*;
use crate::consts::DIM;
use crate::refs;
use crate::refs::Record;

verus! {

/// White space between tokens.
pub open spec fn is_space(b: u8) -> bool {
    b == 0x20 || b == 0x0a || b == 0x0d || b == 0x09
}

/// White space, or nothing.
pub open spec fn is_spacing(t: Seq<u8>) -> bool {
    forall|i: int| 0 <= i < t.len() ==> is_space(#[trigger] t[i])
}

/// White space and commas, or nothing.
pub open spec fn is_blanks(t: Seq<u8>) -> bool {
    forall|i: int| 0 <= i < t.len() ==> refs::is_blank(#[trigger] t[i])
}

/// What can separate two numbers, or two objects: a comma with white space around it, among
/// others.
pub open spec fn is_separator(t: Seq<u8>) -> bool {
    t.len() > 0 && is_blanks(t)
}

/// What can be written as a number: no blank and no closing bracket in it.
pub open spec fn is_token(t: Seq<u8>) -> bool {
    t.len() > 0 && forall|i: int|
        0 <= i < t.len() ==> !refs::is_blank(#[trigger] t[i]) && t[i] != 0x5d
}

/// The byte does not occur.
pub open spec fn lacks(t: Seq<u8>, b: u8) -> bool {
    forall|i: int| 0 <= i < t.len() ==> #[trigger] t[i] != b
}

/// A reference as it is written: the digits of its numbers and its label.
pub struct Written {
    pub numbers: Seq<Seq<u8>>,
    pub label: Seq<u8>,
}

/// How an object is spaced.
pub struct Spacing {
    /// In front of the object: white space, and a comma if an object comes before it.
    pub before: Seq<u8>,
    /// White space behind the opening brace, the first key, its colon, the opening bracket,
    /// the last number, the closing bracket, the comma, the second key, its colon, the label.
    pub gaps: Seq<Seq<u8>>,
    /// What stands between the numbers.
    pub separators: Seq<Seq<u8>>,
}

/// A reference as an object, with its spacing.
pub struct Object {
    pub written: Written,
    pub spacing: Spacing,
}

/// `"vector"`
pub open spec fn vector_key() -> Seq<u8> {
    seq![0x22u8, 0x76, 0x65, 0x63, 0x74, 0x6f, 0x72, 0x22]
}

/// `"label"`
pub open spec fn label_key() -> Seq<u8> {
    seq![0x22u8, 0x6c, 0x61, 0x62, 0x65, 0x6c, 0x22]
}

/// The first `k` numbers with a separator between each two and `gap` in front of the first.
pub open spec fn listed(
    numbers: Seq<Seq<u8>>,
    gap: Seq<u8>,
    separators: Seq<Seq<u8>>,
    k: nat,
) -> Seq<u8>
    decreases k,
{
    if k == 0 {
        gap
    } else if k == 1 {
        gap + numbers[0]
    } else {
        listed(numbers, gap, separators, (k - 1) as nat) + separators[k - 2] + numbers[k - 1]
    }
}

impl Object {
    /// An object with `n` numbers and a label. White space may stand between any two tokens.
    pub open spec fn has_numbers(self, n: nat) -> bool {
        &&& self.written.numbers.len() == n
        &&& forall|j: int| 0 <= j < n ==> is_token(#[trigger] self.written.numbers[j])
        &&& lacks(self.written.label, 0x22)
        &&& is_blanks(self.spacing.before)
        &&& self.spacing.gaps.len() == 10
        &&& forall|j: int| 0 <= j < 10 ==> is_spacing(#[trigger] self.spacing.gaps[j])
        &&& n <= self.spacing.separators.len() + 1
        &&& forall|j: int| 0 <= j < n - 1 ==> is_separator(#[trigger] self.spacing.separators[j])
    }

    /// A well-formed record.
    pub open spec fn is_record(self) -> bool {
        self.has_numbers(DIM as nat)
    }

    /// What is between the brackets.
    pub open spec fn inner(self) -> Seq<u8> {
        listed(
            self.written.numbers,
            self.spacing.gaps[3],
            self.spacing.separators,
            self.written.numbers.len(),
        ) + self.spacing.gaps[4]
    }

    /// The opening brace and what is behind it, up to the first key.
    pub open spec fn opening(self) -> Seq<u8> {
        seq![0x7bu8] + self.spacing.gaps[0]
    }

    /// From the first key up to the opening bracket.
    pub open spec fn to_list(self) -> Seq<u8> {
        vector_key() + self.spacing.gaps[1] + seq![0x3au8] + self.spacing.gaps[2]
    }

    /// From behind the closing bracket up to the colon of the second key.
    pub open spec fn to_label(self) -> Seq<u8> {
        self.spacing.gaps[5] + seq![0x2cu8] + self.spacing.gaps[6] + label_key()
            + self.spacing.gaps[7]
    }

    /// What is behind the label, up to and with the closing brace.
    pub open spec fn closing(self) -> Seq<u8> {
        self.spacing.gaps[9] + seq![0x7du8]
    }

    /// The object up to its closing bracket.
    pub open spec fn front(self) -> Seq<u8> {
        self.spacing.before + self.opening() + self.to_list() + seq![0x5bu8] + self.inner()
            + seq![0x5du8]
    }

    /// The object, with what is in front of it:
    /// `{"vector":[...],"label":"..."}` and white space between any two tokens.
    pub open spec fn text(self) -> Seq<u8> {
        self.front() + self.to_label() + seq![0x3au8] + self.spacing.gaps[8] + seq![0x22u8]
            + self.written.label + seq![0x22u8] + self.closing()
    }

    /// What the object says.
    pub open spec fn content(self) -> Content {
        Content {
            numbers: self.written.numbers,
            fraud: self.written.label == refs::fraud_label(),
        }
    }
}

/// What a record says: the text of its numbers, and whether it is a fraud.
#[verifier::ext_equal]
pub struct Content {
    pub numbers: Seq<Seq<u8>>,
    pub fraud: bool,
}

/// What a record of the data says.
pub open spec fn content(data: Seq<u8>, r: Record) -> Content {
    Content {
        numbers: r.numbers.map_values(|p: (int, int)| data.subrange(p.0, p.1)),
        fraud: r.fraud,
    }
}

/// What the records of the data say, in order; `None` if the data are refused.
pub open spec fn contents(data: Seq<u8>) -> Option<Seq<Content>> {
    match refs::all_records(data) {
        None => None,
        Some(rs) => Some(rs.map_values(|r: Record| content(data, r))),
    }
}

/// What objects say, in order.
pub open spec fn said(objects: Seq<Object>) -> Seq<Content> {
    objects.map_values(|o: Object| o.content())
}

/// Objects one behind the other.
pub open spec fn list(objects: Seq<Object>) -> Seq<u8>
    decreases objects.len(),
{
    if objects.len() == 0 {
        Seq::empty()
    } else {
        objects[0].text() + list(objects.drop_first())
    }
}

/// A text in brackets.
pub open spec fn array(text: Seq<u8>) -> Seq<u8> {
    seq![0x5bu8] + text + seq![0x5du8]
}

/// `t` stands in the data at `i`.
spec fn at(data: Seq<u8>, i: int, t: Seq<u8>) -> bool {
    0 <= i && i + t.len() <= data.len() && data.subrange(i, i + t.len()) == t
}

proof fn at_parts(data: Seq<u8>, i: int, t: Seq<u8>, u: Seq<u8>)
    requires
        at(data, i, t + u),
    ensures
        at(data, i, t),
        at(data, i + t.len(), u),
        i + t.len() + u.len() <= data.len(),
{
    let w = data.subrange(i, i + (t + u).len());
    assert(data.subrange(i, i + t.len()) =~= w.subrange(0, t.len() as int));
    assert(w.subrange(0, t.len() as int) =~= t);
    assert(data.subrange(i + t.len(), i + t.len() + u.len()) =~= w.subrange(
        t.len() as int,
        w.len() as int,
    ));
    assert(w.subrange(t.len() as int, w.len() as int) =~= u);
}

proof fn at_byte(data: Seq<u8>, i: int, t: Seq<u8>, j: int)
    requires
        at(data, i, t),
        0 <= j < t.len(),
    ensures
        data[i + j] == t[j],
{
    assert(data.subrange(i, i + t.len())[j] == t[j]);
}

proof fn finds(data: Seq<u8>, i: int, stop: spec_fn(u8) -> bool, p: int)
    requires
        0 <= i <= p < data.len(),
        forall|j: int| i <= j < p ==> !stop(#[trigger] data[j]),
        stop(data[p]),
    ensures
        refs::find(data, i, stop) == p,
    decreases p - i,
{
    if i < p {
        assert(!stop(data[i]));
        finds(data, i + 1, stop, p);
    }
}

/// Behind a text that lacks the byte comes the byte.
proof fn finds_behind(data: Seq<u8>, i: int, t: Seq<u8>, b: u8)
    requires
        at(data, i, t),
        lacks(t, b),
        i + t.len() < data.len(),
        data[i + t.len()] == b,
    ensures
        refs::find(data, i, refs::byte(b)) == i + t.len(),
        refs::behind(data, i, b) == Some(i + t.len() + 1),
{
    assert forall|j: int| i <= j < i + t.len() implies !refs::byte(b)(#[trigger] data[j]) by {
        at_byte(data, i, t, j - i);
    }
    finds(data, i, refs::byte(b), i + t.len());
}

proof fn finds_number(data: Seq<u8>, i: int, sep: Seq<u8>, t: Seq<u8>)
    requires
        is_blanks(sep),
        is_token(t),
        at(data, i, sep),
        at(data, i + sep.len(), t),
        i + sep.len() + t.len() < data.len(),
        refs::ends_number()(data[i + sep.len() + t.len()]),
    ensures
        refs::number_span(data, i) == (i + sep.len(), i + sep.len() + t.len()),
{
    let start = i + sep.len();
    let end = start + t.len();
    assert forall|j: int| i <= j < start implies !refs::is_not_blank()(#[trigger] data[j]) by {
        at_byte(data, i, sep, j - i);
    }
    assert forall|j: int| start <= j < end implies !refs::ends_number()(#[trigger] data[j]) by {
        at_byte(data, start, t, j - start);
    }
    at_byte(data, start, t, 0);
    finds(data, i, refs::is_not_blank(), start);
    finds(data, start, refs::ends_number(), end);
}

/// Where there are only blanks up to a bracket, the number is missing.
proof fn finds_no_number(data: Seq<u8>, i: int, gap: Seq<u8>)
    requires
        is_blanks(gap),
        at(data, i, gap),
        i + gap.len() < data.len(),
        data[i + gap.len()] == 0x5d,
    ensures
        refs::number_span(data, i) == (i + gap.len(), i + gap.len()),
{
    let p = i + gap.len();
    assert forall|j: int| i <= j < p implies !refs::is_not_blank()(#[trigger] data[j]) by {
        at_byte(data, i, gap, j - i);
    }
    finds(data, i, refs::is_not_blank(), p);
    finds(data, p, refs::ends_number(), p);
}

proof fn finds_numbers(
    data: Seq<u8>,
    a: int,
    numbers: Seq<Seq<u8>>,
    gap: Seq<u8>,
    separators: Seq<Seq<u8>>,
    k: nat,
)
    requires
        is_blanks(gap),
        forall|j: int| 0 <= j < k - 1 ==> is_separator(#[trigger] separators[j]),
        forall|j: int| 0 <= j < k ==> is_token(#[trigger] numbers[j]),
        at(data, a, listed(numbers, gap, separators, k)),
        a + listed(numbers, gap, separators, k).len() < data.len(),
        k > 0 ==> refs::ends_number()(data[a + listed(numbers, gap, separators, k).len()]),
    ensures
        refs::number_spans(data, a, k).len() == k,
        k > 0 ==> refs::number_spans(data, a, k).last().1 == a + listed(
            numbers,
            gap,
            separators,
            k,
        ).len(),
        forall|j: int|
            #![trigger refs::number_spans(data, a, k)[j]]
            0 <= j < k ==> {
                let s = refs::number_spans(data, a, k)[j];
                0 <= s.0 < s.1 <= data.len() && data.subrange(s.0, s.1) == numbers[j]
            },
    decreases k,
{
    if k == 1 {
        assert(is_token(numbers[0]));
        at_parts(data, a, gap, numbers[0]);
        assert(refs::number_spans(data, a, 0) =~= Seq::empty());
        finds_number(data, a, gap, numbers[0]);
    } else if k > 1 {
        let before = listed(numbers, gap, separators, (k - 1) as nat);
        let sep = separators[k - 2];
        let last = numbers[k - 1];
        let mid = a + before.len();
        assert(is_separator(sep) && is_token(last));
        at_parts(data, a, before + sep, last);
        at_parts(data, a, before, sep);
        at_byte(data, mid, sep, 0);
        finds_numbers(data, a, numbers, gap, separators, (k - 1) as nat);
        finds_number(data, mid, sep, last);
        let spans = refs::number_spans(data, a, k);
        let earlier = refs::number_spans(data, a, (k - 1) as nat);
        assert(spans == earlier.push(refs::number_span(data, mid)));
        assert forall|j: int| #![trigger spans[j]] 0 <= j < k implies {
            let s = spans[j];
            0 <= s.0 < s.1 <= data.len() && data.subrange(s.0, s.1) == numbers[j]
        } by {
            if j < k - 1 {
                assert(spans[j] == earlier[j]);
            }
        }
    }
}

proof fn spacing_lacks(o: Object, n: nat)
    requires
        o.has_numbers(n),
    ensures
        lacks(o.to_list(), 0x5b),
        lacks(o.to_label(), 0x3a),
        lacks(o.spacing.gaps[8], 0x22),
        is_blanks(o.spacing.gaps[3]),
        is_blanks(o.spacing.gaps[4]),
        forall|j: int| 0 <= j < o.opening().len() ==> refs::is_gap(#[trigger] o.opening()[j]),
        forall|j: int| 0 <= j < o.closing().len() ==> refs::is_gap(#[trigger] o.closing()[j]),
{
    let g = o.spacing.gaps;
    assert(is_spacing(g[0]) && is_spacing(g[1]) && is_spacing(g[2]) && is_spacing(g[3])
        && is_spacing(g[4]));
    assert(is_spacing(g[5]) && is_spacing(g[6]) && is_spacing(g[7]) && is_spacing(g[8])
        && is_spacing(g[9]));
}

/// The front of an object leads the reader to its numbers: from behind what came before up to
/// the first key there are only gaps, then comes the bracket, and the numbers stand up to the
/// closing one.
proof fn reads_front(data: Seq<u8>, start: int, gap: int, o: Object, n: nat) -> (r: (int, int))
    requires
        o.has_numbers(n),
        0 <= start <= gap,
        forall|j: int| start <= j < gap ==> refs::is_gap(#[trigger] data[j]),
        at(data, gap, o.front()),
    ensures
        ({
            let (p, a) = r;
            let numbers = listed(
                o.written.numbers,
                o.spacing.gaps[3],
                o.spacing.separators,
                n,
            );
            &&& start < p < a
            &&& refs::find(data, start, refs::is_not_gap()) == p
            &&& p < data.len() && data[p] == 0x22
            &&& refs::behind(data, p, 0x5b) == Some(a)
            &&& at(data, a, numbers)
            &&& at(data, a + numbers.len(), o.spacing.gaps[4])
            &&& a + o.inner().len() < data.len()
            &&& data[a + o.inner().len()] == 0x5d
            &&& a + o.inner().len() + 1 == gap + o.front().len()
        }),
{
    let before = o.spacing.before;
    let one = before + o.opening();
    let two = one + o.to_list();
    let three = two + seq![0x5bu8];
    let four = three + o.inner();
    let numbers = listed(o.written.numbers, o.spacing.gaps[3], o.spacing.separators, n);
    at_parts(data, gap, four, seq![0x5du8]);
    at_parts(data, gap, three, o.inner());
    at_parts(data, gap, two, seq![0x5bu8]);
    at_parts(data, gap, one, o.to_list());
    at_parts(data, gap, before, o.opening());
    let p = gap + one.len();
    let a = gap + three.len();
    at_parts(data, a, numbers, o.spacing.gaps[4]);
    at_byte(data, gap + four.len(), seq![0x5du8], 0);
    at_byte(data, gap + two.len(), seq![0x5bu8], 0);
    at_byte(data, p, o.to_list(), 0);
    assert(o.to_list()[0] == 0x22);
    spacing_lacks(o, n);
    assert forall|j: int| start <= j < p implies !refs::is_not_gap()(#[trigger] data[j]) by {
        if gap <= j < gap + before.len() {
            at_byte(data, gap, before, j - gap);
        } else if gap + before.len() <= j {
            at_byte(data, gap + before.len(), o.opening(), j - (gap + before.len()));
        }
    }
    finds(data, start, refs::is_not_gap(), p);
    finds_behind(data, p, o.to_list(), 0x5b);
    (p, a)
}

/// Reading on from an object: its record comes first.
proof fn reads_object(data: Seq<u8>, start: int, gap: int, o: Object) -> (next: int)
    requires
        o.is_record(),
        0 <= start <= gap,
        forall|j: int| start <= j < gap ==> refs::is_gap(#[trigger] data[j]),
        at(data, gap, o.text()),
    ensures
        start < next <= gap + o.text().len(),
        forall|j: int| next <= j < gap + o.text().len() ==> refs::is_gap(#[trigger] data[j]),
        refs::records(data, next) is None ==> refs::records(data, start) is None,
        refs::records(data, next) matches Some(rest) ==> refs::records(data, start) matches Some(rs)
            && rs.len() == rest.len() + 1 && content(data, rs[0]) == o.content()
            && rs.drop_first() == rest,
{
    let label = o.written.label;
    let front = o.front();
    let one = front + o.to_label();
    let two = one + seq![0x3au8];
    let three = two + o.spacing.gaps[8];
    let four = three + seq![0x22u8];
    let five = four + label;
    let six = five + seq![0x22u8];
    at_parts(data, gap, six, o.closing());
    at_parts(data, gap, five, seq![0x22u8]);
    at_parts(data, gap, four, label);
    at_parts(data, gap, three, seq![0x22u8]);
    at_parts(data, gap, two, o.spacing.gaps[8]);
    at_parts(data, gap, one, seq![0x3au8]);
    at_parts(data, gap, front, o.to_label());
    at_byte(data, gap + one.len(), seq![0x3au8], 0);
    at_byte(data, gap + three.len(), seq![0x22u8], 0);
    at_byte(data, gap + five.len(), seq![0x22u8], 0);
    spacing_lacks(o, DIM as nat);
    let (p, a) = reads_front(data, start, gap, o, DIM as nat);
    let numbers = listed(
        o.written.numbers,
        o.spacing.gaps[3],
        o.spacing.separators,
        DIM as nat,
    );
    let g = o.spacing.gaps[4];
    let b = a + numbers.len();
    if g.len() > 0 {
        at_byte(data, b, g, 0);
    }
    finds_numbers(
        data,
        a,
        o.written.numbers,
        o.spacing.gaps[3],
        o.spacing.separators,
        DIM as nat,
    );
    let spans = refs::number_spans(data, a, DIM as nat);
    assert(refs::all_present(spans));
    assert(lacks(g, 0x5d));
    finds_behind(data, b, g, 0x5d);
    finds_behind(data, gap + front.len(), o.to_label(), 0x3a);
    finds_behind(data, gap + two.len(), o.spacing.gaps[8], 0x22);
    finds_behind(data, gap + four.len(), label, 0x22);
    let d = gap + four.len();
    let next = gap + six.len();
    let r = Record { numbers: spans, fraud: data.subrange(d, d + label.len()) == refs::fraud_label() };
    assert(refs::record(data, p) == Some((r, next)));
    assert(content(data, r) == o.content()) by {
        let texts = spans.map_values(|s: (int, int)| data.subrange(s.0, s.1));
        assert forall|j: int| 0 <= j < DIM implies texts[j] == o.written.numbers[j] by {
            assert(data.subrange(spans[j].0, spans[j].1) == o.written.numbers[j]);
        }
        assert(texts =~= o.written.numbers);
    }
    assert forall|j: int| next <= j < gap + o.text().len() implies refs::is_gap(
        #[trigger] data[j],
    ) by {
        at_byte(data, next, o.closing(), j - next);
    }
    refs::find_moves_on(data, start, refs::is_not_gap());
    refs::record_moves_on(data, p);
    if let Some(rest) = refs::records(data, next) {
        let rs = seq![r] + rest;
        assert(refs::records(data, start) == Some(rs));
        assert(rs.drop_first() =~= rest);
    }
    next
}

/// The records read from `start` on say what the objects say.
spec fn read_from(data: Seq<u8>, start: int, objects: Seq<Object>) -> bool {
    refs::records(data, start) matches Some(rs) && rs.map_values(|r: Record| content(data, r))
        == said(objects)
}

proof fn reads_objects(
    data: Seq<u8>,
    start: int,
    gap: int,
    objects: Seq<Object>,
    tail: Seq<u8>,
)
    requires
        forall|j: int| 0 <= j < objects.len() ==> (#[trigger] objects[j]).is_record(),
        is_blanks(tail),
        0 <= start <= gap,
        forall|j: int| start <= j < gap ==> refs::is_gap(#[trigger] data[j]),
        at(data, gap, list(objects) + (tail + seq![0x5du8])),
    ensures
        read_from(data, start, objects),
    decreases objects.len(),
{
    let end = tail + seq![0x5du8];
    at_parts(data, gap, list(objects), end);
    if objects.len() == 0 {
        at_parts(data, gap, tail, seq![0x5du8]);
        let p = gap + tail.len();
        at_byte(data, p, seq![0x5du8], 0);
        assert forall|j: int| start <= j < p implies !refs::is_not_gap()(#[trigger] data[j]) by {
            if gap <= j {
                at_byte(data, gap, tail, j - gap);
            }
        }
        finds(data, start, refs::is_not_gap(), p);
        assert(refs::records(data, start)->0.map_values(|r: Record| content(data, r))
            =~= said(objects));
    } else {
        let o = objects[0];
        let rest = objects.drop_first();
        assert forall|j: int| 0 <= j < rest.len() implies (#[trigger] rest[j]).is_record() by {
            assert(rest[j] == objects[j + 1]);
        }
        assert(list(objects) + end =~= o.text() + (list(rest) + end));
        at_parts(data, gap, o.text(), list(rest) + end);
        let next = reads_object(data, start, gap, o);
        reads_objects(data, next, gap + o.text().len(), rest, tail);
        let rs = refs::records(data, start)->0;
        let later = refs::records(data, next)->0;
        let got = rs.map_values(|r: Record| content(data, r));
        let got_later = later.map_values(|r: Record| content(data, r));
        assert(got_later == said(rest));
        assert(got_later.len() == rest.len());
        assert forall|j: int| 0 <= j < got.len() implies got[j] == said(objects)[j] by {
            if j > 0 {
                assert(rs.drop_first()[j - 1] == rs[j]);
                assert(got_later[j - 1] == content(data, later[j - 1]));
                assert(said(rest)[j - 1] == rest[j - 1].content());
                assert(rest[j - 1] == objects[j]);
            } else {
                assert(got[0] == content(data, rs[0]));
            }
        }
        assert(got =~= said(objects));
    }
}

/// Reading gives back what was written: the records of an array of objects say what the
/// objects say, in order, number by number and label by label. This is so for any white space
/// between tokens, for anything without an opening bracket in front of the array, and for
/// anything behind it.
pub proof fn document_is_read_back(
    lead: Seq<u8>,
    objects: Seq<Object>,
    tail: Seq<u8>,
    post: Seq<u8>,
)
    requires
        lacks(lead, 0x5b),
        forall|j: int| 0 <= j < objects.len() ==> (#[trigger] objects[j]).is_record(),
        is_blanks(tail),
    ensures
        contents(lead + array(list(objects) + tail) + post) == Some(said(objects)),
{
    let data = lead + array(list(objects) + tail) + post;
    let body = list(objects) + (tail + seq![0x5du8]);
    assert(data =~= lead + (seq![0x5bu8] + (body + post)));
    assert(at(data, 0, data)) by {
        assert(data.subrange(0, data.len() as int) =~= data);
    }
    at_parts(data, 0, lead, seq![0x5bu8] + (body + post));
    let i = lead.len() as int;
    at_parts(data, i, seq![0x5bu8], body + post);
    at_parts(data, i + 1, body, post);
    at_byte(data, i, seq![0x5bu8], 0);
    finds_behind(data, 0, lead, 0x5b);
    reads_objects(data, i + 1, i + 1, objects, tail);
}

proof fn array_is_read_back(objects: Seq<Object>, tail: Seq<u8>)
    requires
        forall|j: int| 0 <= j < objects.len() ==> (#[trigger] objects[j]).is_record(),
        is_blanks(tail),
    ensures
        contents(array(list(objects) + tail)) == Some(said(objects)),
{
    let none = Seq::<u8>::empty();
    document_is_read_back(none, objects, tail, none);
    assert(none + array(list(objects) + tail) + none =~= array(list(objects) + tail));
}

/// White space changes nothing: the same references, spaced in another way, are read as the
/// same records.
pub proof fn spacing_changes_nothing(
    a: Seq<Object>,
    a_tail: Seq<u8>,
    b: Seq<Object>,
    b_tail: Seq<u8>,
)
    requires
        forall|j: int| 0 <= j < a.len() ==> (#[trigger] a[j]).is_record(),
        forall|j: int| 0 <= j < b.len() ==> (#[trigger] b[j]).is_record(),
        a.len() == b.len(),
        forall|j: int| 0 <= j < a.len() ==> (#[trigger] a[j]).written == b[j].written,
        is_blanks(a_tail),
        is_blanks(b_tail),
    ensures
        contents(array(list(a) + a_tail)) == contents(array(list(b) + b_tail)),
        contents(array(list(a) + a_tail)) is Some,
{
    array_is_read_back(a, a_tail);
    array_is_read_back(b, b_tail);
    assert(said(a) =~= said(b));
}

proof fn list_of_parts(a: Seq<Object>, b: Seq<Object>)
    ensures
        list(a + b) == list(a) + list(b),
    decreases a.len(),
{
    if a.len() == 0 {
        assert(a + b =~= b);
        assert(list(a) + list(b) =~= list(b));
    } else {
        let rest = a.drop_first();
        list_of_parts(rest, b);
        assert((a + b).drop_first() =~= rest + b);
        assert((a + b)[0] == a[0]);
        assert(a[0].text() + (list(rest) + list(b)) =~= a[0].text() + list(rest) + list(b));
    }
}

/// The object with more in front of it.
spec fn set_off(sep: Seq<u8>, o: Object) -> Object {
    Object {
        written: o.written,
        spacing: Spacing {
            before: sep + o.spacing.before,
            gaps: o.spacing.gaps,
            separators: o.spacing.separators,
        },
    }
}

proof fn set_off_text(sep: Seq<u8>, o: Object)
    requires
        is_blanks(sep),
        o.is_record(),
    ensures
        set_off(sep, o).is_record(),
        set_off(sep, o).text() == sep + o.text(),
        set_off(sep, o).content() == o.content(),
{
    let q = set_off(sep, o);
    assert(q.has_numbers(DIM as nat));
    let rest = o.opening() + (o.to_list() + (seq![0x5bu8] + (o.inner() + seq![0x5du8])));
    let behind = o.to_label() + (seq![0x3au8] + (o.spacing.gaps[8] + (seq![0x22u8] + (o.written.label
        + (seq![0x22u8] + o.closing())))));
    assert(o.front() =~= o.spacing.before + rest);
    assert(q.front() =~= (sep + o.spacing.before) + rest);
    assert(o.text() =~= o.front() + behind);
    assert(q.text() =~= q.front() + behind);
    assert(q.text() =~= sep + o.text());
}

/// Objects, set off from what comes before, are still the same objects.
proof fn set_off_list(sep: Seq<u8>, b: Seq<Object>) -> (moved: Seq<Object>)
    requires
        is_blanks(sep),
        b.len() > 0,
        forall|j: int| 0 <= j < b.len() ==> (#[trigger] b[j]).is_record(),
    ensures
        forall|j: int| 0 <= j < moved.len() ==> (#[trigger] moved[j]).is_record(),
        list(moved) == sep + list(b),
        said(moved) == said(b),
{
    let first = set_off(sep, b[0]);
    let rest = b.drop_first();
    let moved = seq![first] + rest;
    set_off_text(sep, b[0]);
    assert(moved.drop_first() =~= rest);
    assert(list(moved) =~= sep + list(b));
    assert forall|j: int| 0 <= j < moved.len() implies (#[trigger] moved[j]).is_record()
        && moved[j].content() == b[j].content() by {
        if j > 0 {
            assert(moved[j] == b[j]);
        }
    }
    assert(said(moved) =~= said(b));
    moved
}

/// Joined lists give joined records: none is lost, merged or repeated, and they keep their
/// order.
pub proof fn joined_lists_give_joined_records(
    a: Seq<Object>,
    a_tail: Seq<u8>,
    sep: Seq<u8>,
    b: Seq<Object>,
    b_tail: Seq<u8>,
)
    requires
        forall|j: int| 0 <= j < a.len() ==> (#[trigger] a[j]).is_record(),
        forall|j: int| 0 <= j < b.len() ==> (#[trigger] b[j]).is_record(),
        is_blanks(a_tail),
        is_separator(sep),
        is_blanks(b_tail),
    ensures
        contents(array(list(a) + a_tail)) matches Some(x) && contents(array(list(b) + b_tail))
            matches Some(y) && contents(
            array((list(a) + a_tail) + sep + (list(b) + b_tail)),
        ) == Some(x + y),
{
    let gap = a_tail + sep;
    let text = (list(a) + a_tail) + sep + (list(b) + b_tail);
    array_is_read_back(a, a_tail);
    array_is_read_back(b, b_tail);
    if b.len() == 0 {
        assert(list(a) + (gap + b_tail) =~= text);
        assert(said(a) + said(b) =~= said(a));
        array_is_read_back(a, gap + b_tail);
    } else {
        let moved = set_off_list(gap, b);
        list_of_parts(a, moved);
        assert(list(a + moved) + b_tail =~= text);
        assert(said(a + moved) =~= said(a) + said(moved));
        array_is_read_back(a + moved, b_tail);
    }
}

proof fn refuses_objects(data: Seq<u8>, start: int, gap: int, objects: Seq<Object>, short: Object)
    requires
        forall|j: int| 0 <= j < objects.len() ==> (#[trigger] objects[j]).is_record(),
        short.written.numbers.len() < DIM,
        short.has_numbers(short.written.numbers.len()),
        0 <= start <= gap,
        forall|j: int| start <= j < gap ==> refs::is_gap(#[trigger] data[j]),
        at(data, gap, list(objects) + short.front()),
    ensures
        refs::records(data, start) is None,
    decreases objects.len(),
{
    if objects.len() == 0 {
        assert(list(objects) + short.front() =~= short.front());
        let n = short.written.numbers.len();
        let (p, a) = reads_front(data, start, gap, short, n);
        let first = short.spacing.gaps[3];
        let last = short.spacing.gaps[4];
        let numbers = listed(short.written.numbers, first, short.spacing.separators, n);
        let b = a + numbers.len();
        spacing_lacks(short, n);
        if last.len() > 0 {
            at_byte(data, b, last, 0);
        }
        finds_numbers(data, a, short.written.numbers, first, short.spacing.separators, n);
        if n == 0 {
            let both = first + last;
            assert(at(data, a, both)) by {
                assert(data.subrange(a, a + both.len()) =~= data.subrange(a, b) + data.subrange(
                    b,
                    b + last.len(),
                ));
            }
            assert(is_blanks(both));
            finds_no_number(data, a, both);
        } else {
            finds_no_number(data, b, last);
        }
        let spans = refs::number_spans(data, a, n + 1);
        assert(spans.len() == n + 1);
        assert(spans[n as int].0 == spans[n as int].1);
        refs::a_missing_number_stays_missing(data, a, n + 1, DIM as nat);
        assert(refs::record(data, p) is None);
    } else {
        let o = objects[0];
        let rest = objects.drop_first();
        assert forall|j: int| 0 <= j < rest.len() implies (#[trigger] rest[j]).is_record() by {
            assert(rest[j] == objects[j + 1]);
        }
        assert(list(objects) + short.front() =~= o.text() + (list(rest) + short.front()));
        at_parts(data, gap, o.text(), list(rest) + short.front());
        let next = reads_object(data, start, gap, o);
        refuses_objects(data, next, gap + o.text().len(), rest, short);
    }
}

/// A record that lacks a number is refused, wherever it stands and whatever follows it.
pub proof fn short_vector_is_refused(
    lead: Seq<u8>,
    objects: Seq<Object>,
    short: Object,
    post: Seq<u8>,
)
    requires
        lacks(lead, 0x5b),
        forall|j: int| 0 <= j < objects.len() ==> (#[trigger] objects[j]).is_record(),
        short.written.numbers.len() < DIM,
        short.has_numbers(short.written.numbers.len()),
    ensures
        contents(lead + seq![0x5bu8] + list(objects) + short.text() + post) is None,
{
    let data = lead + seq![0x5bu8] + list(objects) + short.text() + post;
    let front = short.front();
    let back = short.to_label() + (seq![0x3au8] + (short.spacing.gaps[8] + (seq![0x22u8] + (
    short.written.label + (seq![0x22u8] + short.closing())))));
    assert(short.text() =~= front + back);
    let body = list(objects) + front;
    assert(data =~= lead + (seq![0x5bu8] + (body + (back + post))));
    assert(at(data, 0, data)) by {
        assert(data.subrange(0, data.len() as int) =~= data);
    }
    at_parts(data, 0, lead, seq![0x5bu8] + (body + (back + post)));
    let i = lead.len() as int;
    at_parts(data, i, seq![0x5bu8], body + (back + post));
    at_parts(data, i + 1, body, back + post);
    at_byte(data, i, seq![0x5bu8], 0);
    finds_behind(data, 0, lead, 0x5b);
    refuses_objects(data, i + 1, i + 1, objects, short);
}

} // verus!
