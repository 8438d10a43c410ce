//! Text of the configuration and of request headers.

use vstd::prelude::*;

verus! {

/// Compares two strings.
pub fn same(a: &str, b: &str) -> (r: bool)
    ensures
        r == (a@ == b@),
{
    let x = a.as_bytes();
    let y = b.as_bytes();
    proof {
        vstd::utf8::encode_utf8_decode_utf8(a@);
        vstd::utf8::encode_utf8_decode_utf8(b@);
    }
    if x.len() != y.len() {
        return false;
    }
    for i in 0..x.len()
        invariant
            x@ == vstd::utf8::encode_utf8(a@),
            y@ == vstd::utf8::encode_utf8(b@),
            x@.len() == y@.len(),
            forall|j: int| 0 <= j < i ==> x@[j] == y@[j],
    {
        if x[i] != y[i] {
            return false;
        }
    }
    assert(x@ =~= y@);
    true
}

/// The characters of a string.
pub fn chars_of(s: &str) -> (out: Vec<char>)
    ensures
        out@ == s@,
{
    let mut out: Vec<char> = Vec::new();
    for c in it: s.chars()
        invariant
            it.seq() == s@,
            out@ == s@.take(it.index() as int),
    {
        out.push(c);
    }
    assert(s@.take(s@.len() as int) =~= s@);
    out
}

/// A character that trimming removes: those with the Unicode property `White_Space`.
pub open spec fn is_space(c: char) -> bool {
    ||| 0x9 <= c as u32 <= 0xd
    ||| c as u32 == 0x20
    ||| c as u32 == 0x85
    ||| c as u32 == 0xa0
    ||| c as u32 == 0x1680
    ||| 0x2000 <= c as u32 <= 0x200a
    ||| c as u32 == 0x2028
    ||| c as u32 == 0x2029
    ||| c as u32 == 0x202f
    ||| c as u32 == 0x205f
    ||| c as u32 == 0x3000
}

fn space(c: char) -> (yes: bool)
    ensures
        yes == is_space(c),
{
    let u: u32 = c as u32;
    (0x9 <= u && u <= 0xd) || u == 0x20 || u == 0x85 || u == 0xa0 || u == 0x1680 || (0x2000 <= u && u
        <= 0x200a) || u == 0x2028 || u == 0x2029 || u == 0x202f || u == 0x205f || u == 0x3000
}

/// The text without white space at its end.
pub open spec fn trimmed_end(s: Seq<char>) -> Seq<char>
    decreases s.len(),
{
    if s.len() > 0 && is_space(s.last()) {
        trimmed_end(s.drop_last())
    } else {
        s
    }
}

/// The text without white space at its start.
pub open spec fn trimmed_start(s: Seq<char>) -> Seq<char>
    decreases s.len(),
{
    if s.len() > 0 && is_space(s.first()) {
        trimmed_start(s.drop_first())
    } else {
        s
    }
}

/// The text without white space at either end.
pub open spec fn trimmed(s: Seq<char>) -> Seq<char> {
    trimmed_start(trimmed_end(s))
}

/// Where the part of `s` from `start` to `end` stops once its trailing white space is gone.
pub fn end_of(s: &[char], start: usize, end: usize) -> (stop: usize)
    requires
        start <= end <= s.len(),
    ensures
        start <= stop <= end,
        s@.subrange(start as int, stop as int) == trimmed_end(
            s@.subrange(start as int, end as int),
        ),
{
    let mut stop: usize = end;
    while stop > start && space(s[stop - 1])
        invariant
            start <= stop <= end <= s.len(),
            trimmed_end(s@.subrange(start as int, stop as int)) == trimmed_end(
                s@.subrange(start as int, end as int),
            ),
        decreases stop,
    {
        assert(s@.subrange(start as int, stop as int).drop_last() =~= s@.subrange(
            start as int,
            stop - 1,
        ));
        stop -= 1;
    }
    stop
}

/// Where the part of `s` from `start` to `end` begins once its leading white space is gone.
pub fn start_of(s: &[char], start: usize, end: usize) -> (begin: usize)
    requires
        start <= end <= s.len(),
    ensures
        start <= begin <= end,
        s@.subrange(begin as int, end as int) == trimmed_start(
            s@.subrange(start as int, end as int),
        ),
{
    let mut begin: usize = start;
    while begin < end && space(s[begin])
        invariant
            start <= begin <= end <= s.len(),
            trimmed_start(s@.subrange(begin as int, end as int)) == trimmed_start(
                s@.subrange(start as int, end as int),
            ),
        decreases end - begin,
    {
        assert(s@.subrange(begin as int, end as int).drop_first() =~= s@.subrange(
            begin + 1,
            end as int,
        ));
        begin += 1;
    }
    begin
}

/// A decimal digit.
pub open spec fn is_digit(c: char) -> bool {
    '0' <= c <= '9'
}

/// The number that decimal digits denote, the most significant first.
pub open spec fn decimal_value(s: Seq<char>) -> nat
    decreases s.len(),
{
    if s.len() == 0 {
        0
    } else {
        10 * decimal_value(s.drop_last()) + (s.last() as nat - '0' as nat) as nat
    }
}

/// The text without a leading plus sign.
pub open spec fn unsigned_part(s: Seq<char>) -> Seq<char> {
    if s.len() > 0 && s[0] == '+' {
        s.drop_first()
    } else {
        s
    }
}

/// The number that a text denotes, if it denotes one that is no larger than `max`: a plus
/// sign or nothing, and then digits and nothing else.
pub open spec fn number(s: Seq<char>, max: nat) -> Option<nat> {
    let d = unsigned_part(s);
    if d.len() > 0 && (forall|i: int| 0 <= i < d.len() ==> is_digit(#[trigger] d[i]))
        && decimal_value(d) <= max {
        Some(decimal_value(d))
    } else {
        None
    }
}

proof fn value_grows(s: Seq<char>, i: int)
    requires
        0 <= i <= s.len(),
    ensures
        decimal_value(s.take(i)) <= decimal_value(s),
    decreases s.len(),
{
    if i < s.len() {
        value_grows(s.drop_last(), i);
        assert(s.drop_last().take(i) =~= s.take(i));
    } else {
        assert(s.take(i) =~= s);
    }
}

/// Reads a number that is no larger than `max`.
pub fn parse_number(s: &[char], max: u64) -> (r: Option<u64>)
    ensures
        r is Some <==> number(s@, max as nat) is Some,
        r matches Some(x) ==> number(s@, max as nat) == Some(x as nat),
{
    let from: usize = if s.len() > 0 && s[0] == '+' {
        1
    } else {
        0
    };
    let ghost d = unsigned_part(s@);
    assert(d =~= s@.skip(from as int));
    if from == s.len() {
        return None;
    }
    let mut value: u64 = 0;
    for i in from..s.len()
        invariant
            d == unsigned_part(s@),
            d == s@.skip(from as int),
            from <= s.len(),
            value == decimal_value(d.take(i - from)),
            value <= max,
            forall|j: int| 0 <= j < i - from ==> is_digit(#[trigger] d[j]),
    {
        let c = s[i];
        assert(d[i - from] == c);
        if !('0' <= c && c <= '9') {
            return None;
        }
        let digit: u64 = (c as u32 - '0' as u32) as u64;
        proof {
            assert(d.take(i - from + 1).drop_last() =~= d.take(i - from));
            value_grows(d, i - from + 1);
        }
        let next: u128 = 10 * (value as u128) + digit as u128;
        if next > max as u128 {
            return None;
        }
        value = next as u64;
    }
    assert(d.take(d.len() as int) =~= d);
    Some(value)
}

/// The pieces of a text between the separators. A text without a separator is one piece.
pub open spec fn split(s: Seq<char>, sep: char) -> Seq<Seq<char>>
    decreases s.len(),
{
    if s.len() == 0 {
        seq![Seq::empty()]
    } else {
        let p = split(s.drop_last(), sep);
        if s.last() == sep {
            p.push(Seq::empty())
        } else {
            p.update(p.len() - 1, p.last().push(s.last()))
        }
    }
}

/// Pieces put together again with a separator between them.
pub open spec fn joined(p: Seq<Seq<char>>, sep: char) -> Seq<char>
    decreases p.len(),
{
    if p.len() == 0 {
        Seq::empty()
    } else if p.len() == 1 {
        p[0]
    } else {
        joined(p.drop_last(), sep).push(sep) + p.last()
    }
}

/// Splitting loses nothing, and no piece holds a separator.
pub proof fn split_round_trip(s: Seq<char>, sep: char)
    ensures
        split(s, sep).len() > 0,
        joined(split(s, sep), sep) == s,
        forall|j: int| 0 <= j < split(s, sep).len() ==> !(#[trigger] split(s, sep)[j]).contains(sep),
    decreases s.len(),
{
    if s.len() > 0 {
        let p = split(s.drop_last(), sep);
        let q = split(s, sep);
        split_round_trip(s.drop_last(), sep);
        if s.last() == sep {
            assert(q.drop_last() =~= p);
            assert(joined(q, sep) =~= s.drop_last().push(sep));
            assert(s.drop_last().push(sep) =~= s);
        } else {
            let piece = p.last().push(s.last());
            assert(q.drop_last() =~= p.drop_last());
            assert(joined(q, sep) =~= joined(p, sep).push(s.last()));
            assert(s.drop_last().push(s.last()) =~= s);
            assert(!piece.contains(sep)) by {
                if piece.contains(sep) {
                    let i = choose|i: int| 0 <= i < piece.len() && piece[i] == sep;
                    assert(p.last()[i] == sep);
                }
            }
        }
        assert forall|j: int| 0 <= j < q.len() implies !(#[trigger] q[j]).contains(sep) by {
            if j < p.len() - 1 {
                assert(q[j] == p[j]);
            } else if j < p.len() && s.last() == sep {
                assert(q[j] == p[j]);
            }
        }
    } else {
        assert(joined(split(s, sep), sep) =~= s);
    }
}

/// Finds the pieces of a text, each from its first character to behind its last.
pub fn pieces(s: &[char], sep: char) -> (r: Vec<(usize, usize)>)
    ensures
        r.len() == split(s@, sep).len(),
        forall|j: int|
            #![trigger r[j]]
            0 <= j < r.len() ==> r[j].0 <= r[j].1 <= s.len() && s@.subrange(
                r[j].0 as int,
                r[j].1 as int,
            ) == split(s@, sep)[j],
{
    let mut r: Vec<(usize, usize)> = Vec::new();
    let mut from: usize = 0;
    assert(s@.take(0) =~= Seq::empty());
    for i in 0..s.len()
        invariant
            from <= i,
            r.len() + 1 == split(s@.take(i as int), sep).len(),
            forall|j: int|
                #![trigger r[j]]
                0 <= j < r.len() ==> r[j].0 <= r[j].1 <= i && s@.subrange(
                    r[j].0 as int,
                    r[j].1 as int,
                ) == split(s@.take(i as int), sep)[j],
            s@.subrange(from as int, i as int) == split(s@.take(i as int), sep).last(),
    {
        assert(s@.take(i + 1).drop_last() =~= s@.take(i as int));
        if s[i] == sep {
            r.push((from, i));
            from = i + 1;
            assert(s@.subrange(from as int, i + 1) =~= Seq::empty());
        } else {
            assert(s@.subrange(from as int, i + 1) =~= s@.subrange(from as int, i as int).push(
                s@[i as int],
            ));
        }
    }
    assert(s@.take(s@.len() as int) =~= s@);
    r.push((from, s.len()));
    r
}

/// Which characters are white space, by their code points.
pub proof fn spaces_by_code_point(c: char)
    ensures
        is_space(c) <==> (9 <= c as u32 <= 13 || c as u32 == 32 || c as u32 == 133 || c as u32 == 160
            || c as u32 == 5760 || 8192 <= c as u32 <= 8202 || c as u32 == 8232 || c as u32 == 8233
            || c as u32 == 8239 || c as u32 == 8287 || c as u32 == 12288),
{
}

proof fn trimmed_end_keeps(p: Seq<char>, b: Seq<char>)
    requires
        p.len() > 0,
        !is_space(p.last()),
    ensures
        trimmed_end(p + b) == p + trimmed_end(b),
    decreases b.len(),
{
    if b.len() == 0 {
        assert(p + b =~= p);
        assert(p + trimmed_end(b) =~= p);
    } else {
        assert((p + b).drop_last() =~= p + b.drop_last());
        assert((p + b).last() == b.last());
        if is_space(b.last()) {
            trimmed_end_keeps(p, b.drop_last());
        }
    }
}

proof fn trimmed_end_of_space(b: Seq<char>)
    requires
        forall|i: int| 0 <= i < b.len() ==> is_space(#[trigger] b[i]),
    ensures
        trimmed_end(b) == Seq::<char>::empty(),
    decreases b.len(),
{
    if b.len() > 0 {
        assert(is_space(b[b.len() - 1]));
        trimmed_end_of_space(b.drop_last());
    } else {
        assert(b =~= Seq::<char>::empty());
    }
}

proof fn trimmed_start_of_space(a: Seq<char>, m: Seq<char>)
    requires
        forall|i: int| 0 <= i < a.len() ==> is_space(#[trigger] a[i]),
        m.len() == 0 || !is_space(m[0]),
    ensures
        trimmed_start(a + m) == m,
    decreases a.len(),
{
    if a.len() > 0 {
        assert(is_space(a[0]));
        assert((a + m).first() == a[0]);
        assert((a + m).drop_first() =~= a.drop_first() + m);
        trimmed_start_of_space(a.drop_first(), m);
    } else {
        assert(a + m =~= m);
    }
}

/// Trimming takes away exactly the white space around a text, whatever stands inside.
pub proof fn trimming_takes_the_space_around(a: Seq<char>, m: Seq<char>, b: Seq<char>)
    requires
        forall|i: int| 0 <= i < a.len() ==> is_space(#[trigger] a[i]),
        forall|i: int| 0 <= i < b.len() ==> is_space(#[trigger] b[i]),
        m.len() == 0 || (!is_space(m[0]) && !is_space(m[m.len() - 1])),
    ensures
        trimmed(a + m + b) == m,
        trimmed_end(m + b) == m,
        trimmed_start(a + m) == m,
{
    trimmed_start_of_space(a, m);
    if m.len() == 0 {
        trimmed_end_of_space(a + m + b);
        trimmed_end_of_space(m + b);
        assert(m =~= Seq::<char>::empty());
        assert(trimmed(a + m + b) =~= m);
    } else {
        trimmed_end_of_space(b);
        trimmed_end_keeps(a + m, b);
        trimmed_end_keeps(m, b);
        assert(a + m + trimmed_end(b) =~= a + m);
        assert(m + trimmed_end(b) =~= m);
    }
}

/// Trimming the end changes nothing in front of the last character that stays.
pub proof fn trimming_the_end_keeps_the_front(p: Seq<char>, b: Seq<char>)
    requires
        p.len() > 0,
        !is_space(p.last()),
    ensures
        trimmed_end(p + b) == p + trimmed_end(b),
        trimmed(trimmed_end(b)) == trimmed(b),
{
    trimmed_end_keeps(p, b);
    trimmed_end_is_final(b);
}

proof fn trimmed_end_is_final(b: Seq<char>)
    ensures
        trimmed_end(trimmed_end(b)) == trimmed_end(b),
    decreases b.len(),
{
    if b.len() > 0 && is_space(b.last()) {
        trimmed_end_is_final(b.drop_last());
    }
}

/// One more digit makes ten times the number and the digit.
pub proof fn digits_are_worth_tens(s: Seq<char>, c: char)
    requires
        '0' <= c <= '9',
    ensures
        decimal_value(Seq::empty()) == 0,
        decimal_value(s.push(c)) == 10 * decimal_value(s) + (c as int - 48),
{
    assert(s.push(c).drop_last() =~= s);
}

/// A text is a number if it has digits and nothing else, with a plus sign in front or without,
/// and is no larger than allowed.
pub proof fn numbers_are_digits(s: Seq<char>, max: nat)
    ensures
        s.len() == 0 ==> number(s, max) is None,
        s.len() > 0 && (forall|i: int| 0 <= i < s.len() ==> '0' <= #[trigger] s[i] <= '9')
            ==> number(s, max) == (if decimal_value(s) <= max {
            Some(decimal_value(s))
        } else {
            None
        }),
        s.len() > 1 && s[0] == '+' && (forall|i: int|
            1 <= i < s.len() ==> '0' <= #[trigger] s[i] <= '9') ==> number(s, max) == (
        if decimal_value(s.skip(1)) <= max {
            Some(decimal_value(s.skip(1)))
        } else {
            None
        }),
        s.len() == 1 && s[0] == '+' ==> number(s, max) is None,
        (exists|i: int| 1 <= i < s.len() && !('0' <= #[trigger] s[i] <= '9')) ==> number(s, max)
            is None,
        s.len() > 0 && s[0] != '+' && !('0' <= s[0] <= '9') ==> number(s, max) is None,
{
    let d = unsigned_part(s);
    if s.len() > 0 && s[0] == '+' {
        assert(d =~= s.skip(1));
        assert forall|i: int| 1 <= i < s.len() implies #[trigger] s[i] == d[i - 1] by {}
        if exists|i: int| 1 <= i < s.len() && !('0' <= #[trigger] s[i] <= '9') {
            let i = choose|i: int| 1 <= i < s.len() && !('0' <= #[trigger] s[i] <= '9');
            assert(!is_digit(d[i - 1]));
        }
        if forall|i: int| 1 <= i < s.len() ==> '0' <= #[trigger] s[i] <= '9' {
            assert forall|i: int| 0 <= i < d.len() implies is_digit(#[trigger] d[i]) by {
                assert(d[i] == s[i + 1]);
            }
        }
    } else {
        if exists|i: int| 1 <= i < s.len() && !('0' <= #[trigger] s[i] <= '9') {
            let i = choose|i: int| 1 <= i < s.len() && !('0' <= #[trigger] s[i] <= '9');
            assert(!is_digit(d[i]));
        }
        if s.len() > 0 && !('0' <= s[0] <= '9') {
            assert(!is_digit(d[0]));
        }
    }
}

/// What one more character changes in the pieces: a separator starts a new piece, any other
/// character goes to the last one.
pub proof fn pieces_grow_at_the_end(s: Seq<char>, sep: char, c: char)
    ensures
        split(Seq::empty(), sep) == seq![Seq::<char>::empty()],
        split(s.push(sep), sep) == split(s, sep).push(Seq::empty()),
        c != sep ==> split(s.push(c), sep) == split(s, sep).drop_last().push(
            split(s, sep).last().push(c),
        ),
{
    split_round_trip(s, sep);
    assert(s.push(c).drop_last() =~= s);
    assert(s.push(sep).drop_last() =~= s);
    let p = split(s, sep);
    assert(p.update(p.len() - 1, p.last().push(c)) =~= p.drop_last().push(p.last().push(c)));
}

} // verus!
