//! From the payload of a request to the features that are compared.
//!
//! The numbers of a payload are in single precision and are held by their IEEE 754 bit
//! pattern. A feature is a [`Term`]: which numbers it is made of and how.

use vstd::prelude::*;
use crate::consts::{
    mcc_risk, AMOUNT_VS_AVG_RATIO, DIM, MAX_AMOUNT, MAX_INSTALLMENTS, MAX_KM,
    MAX_MERCHANT_AVG_AMOUNT, MAX_MINUTES, MAX_TX_COUNT_24H, PAD, SCALE,
};
use crate::consts;
use crate::index;
use crate::probe::INFINITE;
use crate::text;
use crate::timeutil;
use crate::timeutil::parse_iso;

verus! {

pub struct Transaction {
    pub amount: u32,
    pub installments: u32,
    pub requested_at: String,
}

pub struct Customer<'a> {
    pub avg_amount: u32,
    pub tx_count_24h: u32,
    pub known_merchants: Vec<&'a str>,
}

pub struct Merchant<'a> {
    pub id: &'a str,
    pub mcc: &'a str,
    pub avg_amount: u32,
}

pub struct Terminal {
    pub is_online: bool,
    pub card_present: bool,
    pub km_from_home: u32,
}

pub struct LastTx {
    pub timestamp: String,
    pub km_from_current: u32,
}

pub struct Request<'a> {
    pub transaction: Transaction,
    pub customer: Customer<'a>,
    pub merchant: Merchant<'a>,
    pub terminal: Terminal,
    pub last_transaction: Option<LastTx>,
}

/// How a feature is computed. The quotients are taken in single precision, from left to
/// right; a clamped one is moved to the nearest end of the range from 0 to 1 if it lies outside.
#[derive(Clone, Copy, Debug, PartialEq, Eq, Structural)]
pub enum Term {
    /// `value / limit`, clamped; the value by its bit pattern.
    Clamped { value: u32, limit: u32 },
    /// `value / other / limit`, clamped; the values by their bit patterns.
    ClampedRatio { value: u32, other: u32, limit: u32 },
    /// `seconds / 60 / limit`, clamped.
    Elapsed { seconds: i64, limit: u32 },
    /// `part / whole`.
    Share { part: u32, whole: u32 },
    /// The sentinel -1.
    Absent,
}

/// The number with this bit pattern is greater than zero.
pub open spec fn is_positive(bits: u32) -> bool {
    0 < bits <= INFINITE
}

/// When a text says something happened: seconds, hour and day of the week; all zero if the
/// text is too short to say it.
pub open spec fn moment(s: Seq<char>) -> (int, int, int) {
    let b = vstd::utf8::encode_utf8(s);
    if b.len() >= 19 {
        let at = timeutil::stamp(b);
        (timeutil::epoch_seconds(at), at.hour, timeutil::weekday(at))
    } else {
        (0, 0, 0)
    }
}

/// The seconds at which a text says something happened; `default` if it is too short.
pub open spec fn seconds_or(s: Seq<char>, default: int) -> int {
    let b = vstd::utf8::encode_utf8(s);
    if b.len() >= 19 {
        timeutil::epoch_seconds(timeutil::stamp(b))
    } else {
        default
    }
}

/// The merchant is one that the customer has bought from.
pub open spec fn is_known(c: Customer<'_>, id: Seq<char>) -> bool {
    exists|i: int| 0 <= i < c.known_merchants.len() && (#[trigger] c.known_merchants[i])@ == id
}

/// A yes or no as a feature.
pub open spec fn flag(yes: bool) -> Term {
    Term::Share {
        part: if yes {
            1
        } else {
            0
        },
        whole: 1,
    }
}

/// The features of a request.
pub open spec fn features(req: Request<'_>) -> Seq<Term> {
    let t = req.transaction;
    let c = req.customer;
    let m = req.merchant;
    let now = moment(t.requested_at@);
    seq![
        Term::Clamped { value: t.amount, limit: MAX_AMOUNT },
        Term::Clamped { value: t.installments, limit: MAX_INSTALLMENTS },
        if is_positive(c.avg_amount) {
            Term::ClampedRatio {
                value: t.amount,
                other: c.avg_amount,
                limit: AMOUNT_VS_AVG_RATIO,
            }
        } else {
            flag(true)
        },
        Term::Share { part: now.1 as u32, whole: 23 },
        Term::Share { part: now.2 as u32, whole: 6 },
        match req.last_transaction {
            Some(lt) => Term::Elapsed {
                seconds: (now.0 - seconds_or(lt.timestamp@, now.0)) as i64,
                limit: MAX_MINUTES,
            },
            None => Term::Absent,
        },
        match req.last_transaction {
            Some(lt) => Term::Clamped { value: lt.km_from_current, limit: MAX_KM },
            None => Term::Absent,
        },
        Term::Clamped { value: req.terminal.km_from_home, limit: MAX_KM },
        Term::Clamped { value: c.tx_count_24h, limit: MAX_TX_COUNT_24H },
        flag(req.terminal.is_online),
        flag(req.terminal.card_present),
        flag(!is_known(c, m.id@)),
        Term::Share { part: consts::risk_of(m.mcc@), whole: 100 },
        Term::Clamped { value: m.avg_amount, limit: MAX_MERCHANT_AVG_AMOUNT },
    ]
}

fn flag_term(yes: bool) -> (t: Term)
    ensures
        t == flag(yes),
{
    Term::Share {
        part: if yes {
            1
        } else {
            0
        },
        whole: 1,
    }
}

fn knows(c: &Customer<'_>, id: &str) -> (yes: bool)
    ensures
        yes == is_known(*c, id@),
{
    for i in 0..c.known_merchants.len()
        invariant
            forall|j: int| 0 <= j < i ==> (#[trigger] c.known_merchants[j])@ != id@,
    {
        if text::same(c.known_merchants[i], id) {
            return true;
        }
    }
    false
}

/// Lays out the fourteen features of a request.
pub fn vectorize(req: &Request<'_>) -> (terms: [Term; 14])
    ensures
        terms@ == features(*req),
{
    let t = &req.transaction;
    let c = &req.customer;
    let m = &req.merchant;
    let term = &req.terminal;
    let (req_epoch, hour, dow): (i64, u32, u32) = match parse_iso(t.requested_at.as_str()) {
        Some(x) => x,
        None => (0, 0, 0),
    };
    let (minutes_since, km_last): (Term, Term) = match &req.last_transaction {
        Some(lt) => {
            let last_epoch: i64 = match parse_iso(lt.timestamp.as_str()) {
                Some(x) => x.0,
                None => req_epoch,
            };
            (
                Term::Elapsed { seconds: req_epoch - last_epoch, limit: MAX_MINUTES },
                Term::Clamped { value: lt.km_from_current, limit: MAX_KM },
            )
        },
        None => (Term::Absent, Term::Absent),
    };
    let amount_vs_avg = if 0 < c.avg_amount && c.avg_amount <= INFINITE {
        Term::ClampedRatio { value: t.amount, other: c.avg_amount, limit: AMOUNT_VS_AVG_RATIO }
    } else {
        flag_term(true)
    };
    let terms = [
        Term::Clamped { value: t.amount, limit: MAX_AMOUNT },
        Term::Clamped { value: t.installments, limit: MAX_INSTALLMENTS },
        amount_vs_avg,
        Term::Share { part: hour, whole: 23 },
        Term::Share { part: dow, whole: 6 },
        minutes_since,
        km_last,
        Term::Clamped { value: term.km_from_home, limit: MAX_KM },
        Term::Clamped { value: c.tx_count_24h, limit: MAX_TX_COUNT_24H },
        flag_term(term.is_online),
        flag_term(term.card_present),
        flag_term(!knows(c, m.id)),
        Term::Share { part: mcc_risk(m.mcc), whole: 100 },
        Term::Clamped { value: m.avg_amount, limit: MAX_MERCHANT_AVG_AMOUNT },
    ];
    assert(terms@ =~= features(*req));
    terms
}

/// The number nearest to `x` that 16 bits can hold.
pub open spec fn saturated(x: int) -> i16 {
    if x < i16::MIN {
        i16::MIN
    } else if x > i16::MAX {
        i16::MAX
    } else {
        x as i16
    }
}

/// Quantises features that were scaled and rounded, and pads them with zeros.
pub fn quantize(scaled: &[i64; 14]) -> (row: [i16; 16])
    ensures
        forall|i: int| 0 <= i < DIM ==> #[trigger] row[i] == saturated(scaled[i] as int),
        forall|i: int| DIM <= i < PAD ==> #[trigger] row[i] == 0,
        forall|i: int|
            0 <= i < 14 && -32768 <= scaled[i] <= 32767 ==> #[trigger] row[i] == scaled[i],
        forall|i: int| 0 <= i < 14 && scaled[i] > 32767 ==> #[trigger] row[i] == 32767,
        forall|i: int| 0 <= i < 14 && scaled[i] < -32768 ==> #[trigger] row[i] == -32768,
{
    let mut row: [i16; 16] = [0i16; 16];
    for i in 0..DIM
        invariant
            forall|j: int| 0 <= j < i ==> #[trigger] row[j] == saturated(scaled[j] as int),
            forall|j: int| i <= j < PAD ==> #[trigger] row[j] == 0,
    {
        let x: i64 = scaled[i];
        row[i] = if x < i16::MIN as i64 {
            i16::MIN
        } else if x > i16::MAX as i64 {
            i16::MAX
        } else {
            x as i16
        };
    }
    row
}

/// The range of feature `i` once it is scaled: from 0 to 1, and where the last transaction
/// may be missing from -1.
pub open spec fn in_range(i: int, x: int) -> bool {
    if i == 5 || i == 6 {
        -SCALE <= x <= SCALE
    } else {
        0 <= x <= SCALE
    }
}

/// A row of quantised features, each in its range.
pub open spec fn is_feature_row(row: Seq<i16>) -> bool {
    &&& row.len() == PAD
    &&& forall|i: int| 0 <= i < DIM ==> in_range(i, #[trigger] row[i] as int)
    &&& forall|i: int| DIM <= i < PAD ==> #[trigger] row[i] == 0
}

/// Features in their ranges are quantised without loss, to a row of features.
pub proof fn quantized_in_range(scaled: Seq<i64>, row: Seq<i16>)
    requires
        row.len() == PAD,
        forall|i: int| 0 <= i < DIM ==> #[trigger] row[i] == saturated(scaled[i] as int),
        forall|i: int| DIM <= i < PAD ==> #[trigger] row[i] == 0,
        forall|i: int| 0 <= i < DIM ==> in_range(i, #[trigger] scaled[i] as int),
    ensures
        is_feature_row(row),
        forall|i: int| 0 <= i < DIM ==> #[trigger] row[i] == scaled[i],
{
    assert forall|i: int| 0 <= i < DIM implies in_range(i, #[trigger] row[i] as int) && row[i]
        == scaled[i] by {
        assert(in_range(i, scaled[i] as int));
    }
}

/// The largest sum of the first `n` squared differences of features.
spec fn largest_sum(n: nat) -> int
    decreases n,
{
    if n == 0 {
        0
    } else {
        largest_sum((n - 1) as nat) + if n == 6 || n == 7 {
            400_000_000int
        } else if n <= 14 {
            100_000_000
        } else {
            0
        }
    }
}

proof fn sum_is_bounded(a: Seq<i16>, b: Seq<i16>, n: nat)
    requires
        is_feature_row(a),
        is_feature_row(b),
        n <= PAD,
    ensures
        index::sq_sum(a, b, n) <= largest_sum(n),
    decreases n,
{
    if n > 0 {
        sum_is_bounded(a, b, (n - 1) as nat);
        let i = n - 1;
        let d = a[i] - b[i];
        if i < DIM {
            assert(in_range(i, a[i] as int));
            assert(in_range(i, b[i] as int));
        }
        if n == 6 || n == 7 {
            assert(d * d <= 400_000_000) by (nonlinear_arith)
                requires
                    -20_000 <= d <= 20_000,
            ;
        } else if n <= 14 {
            assert(d * d <= 100_000_000) by (nonlinear_arith)
                requires
                    -10_000 <= d <= 10_000,
            ;
        } else {
            assert(d * d == 0) by (nonlinear_arith)
                requires
                    d == 0,
            ;
        }
    }
}

/// The squared distance of two rows of features is at most 2,000,000,000, so 32 bits never
/// overflow.
pub proof fn feature_distance_fits(a: Seq<i16>, b: Seq<i16>)
    requires
        is_feature_row(a),
        is_feature_row(b),
    ensures
        index::sq_dist(a, b) <= 2_000_000_000,
        index::sq_dist(a, b) <= i32::MAX,
        index::wrap_i32(index::sq_dist(a, b)) == index::sq_dist(a, b),
{
    sum_is_bounded(a, b, PAD as nat);
    index::zero_distance_is_equality(a, b);
    reveal_with_fuel(largest_sum, 17);
}

/// The bit pattern without its sign.
pub open spec fn magnitude(bits: u32) -> int {
    bits as int % 0x8000_0000
}

/// The bit pattern is one of a number, be it infinite.
pub open spec fn is_number(bits: u32) -> bool {
    magnitude(bits) <= INFINITE
}

/// The quotient of two numbers is a number: they are not both zero and not both infinite.
pub open spec fn has_quotient(value: u32, other: u32) -> bool {
    &&& is_number(value) && is_number(other)
    &&& !(magnitude(value) == 0 && magnitude(other) == 0)
    &&& !(magnitude(value) == INFINITE && magnitude(other) == INFINITE)
}

/// A term whose value lies between 0 and 1: the quotients in it are numbers, and a share
/// is no more than the whole. A quotient that is a number, be it infinite, stays one when it is
/// divided by a limit above zero.
pub open spec fn is_unit(t: Term) -> bool {
    match t {
        Term::Clamped { value, limit } => is_number(value) && limit > 0,
        Term::ClampedRatio { value, other, limit } => has_quotient(value, other) && limit > 0,
        Term::Elapsed { seconds, limit } => limit > 0,
        Term::Share { part, whole } => part <= whole && whole > 0,
        Term::Absent => false,
    }
}

/// Everything in the payload that becomes a feature is a number, and the amount and the
/// customer's average are not both infinite.
pub open spec fn has_numbers(req: Request<'_>) -> bool {
    &&& is_number(req.transaction.amount)
    &&& is_number(req.transaction.installments)
    &&& is_number(req.customer.tx_count_24h)
    &&& is_number(req.merchant.avg_amount)
    &&& is_number(req.terminal.km_from_home)
    &&& req.last_transaction matches Some(lt) ==> is_number(lt.km_from_current)
    &&& !(magnitude(req.transaction.amount) == INFINITE && req.customer.avg_amount == INFINITE)
}

/// If the hour of a request is one and its numbers are numbers, every feature lies between 0
/// and 1, but for the two that tell of the last transaction: they are the sentinel exactly if
/// there is none.
pub proof fn features_are_units(req: Request<'_>)
    requires
        0 <= moment(req.transaction.requested_at@).1 < 24,
        has_numbers(req),
    ensures
        features(req).len() == DIM,
        forall|i: int|
            0 <= i < DIM && i != 5 && i != 6 ==> is_unit(#[trigger] features(req)[i]),
        features(req)[5] is Absent <==> req.last_transaction is None,
        features(req)[6] is Absent <==> req.last_transaction is None,
        req.last_transaction is Some ==> is_unit(features(req)[5]) && is_unit(features(req)[6]),
{
    let f = features(req);
    let now = moment(req.transaction.requested_at@);
    assert(0 <= now.2 < 7) by {
        days_of_the_week(req.transaction.requested_at@);
    }
    assert(consts::risk_of(req.merchant.mcc@) <= 100);
    assert(is_unit(f[2])) by {
        ratio_is_unit(req.transaction.amount, req.customer.avg_amount);
    }
    assert(is_unit(f[0]) && is_unit(f[1]) && is_unit(f[3]) && is_unit(f[4]));
    assert(is_unit(f[7]) && is_unit(f[8]) && is_unit(f[9]) && is_unit(f[10]));
    assert(is_unit(f[11]) && is_unit(f[12]) && is_unit(f[13]));
}

proof fn days_of_the_week(s: Seq<char>)
    ensures
        0 <= moment(s).2 < 7,
{
}

proof fn ratio_is_unit(amount: u32, avg: u32)
    requires
        is_number(amount),
        !(magnitude(amount) == INFINITE && avg == INFINITE),
    ensures
        is_positive(avg) ==> has_quotient(amount, avg),
{
}

proof fn zeros_add_nothing(a: Seq<i16>, b: Seq<i16>, n: nat)
    requires
        n > 0,
        a[n - 1] == 0,
        b[n - 1] == 0,
    ensures
        index::sq_sum(a, b, n) == index::sq_sum(a, b, (n - 1) as nat),
{
    let d = a[n - 1] - b[n - 1];
    assert(d * d == 0) by (nonlinear_arith)
        requires
            d == 0,
    ;
}

/// The zeros that pad rows add nothing to their distance.
pub proof fn padding_adds_nothing(a: Seq<i16>, b: Seq<i16>)
    requires
        a.len() == PAD,
        b.len() == PAD,
        forall|i: int| DIM <= i < PAD ==> #[trigger] a[i] == 0 && b[i] == 0,
    ensures
        index::sq_dist(a, b) == index::sq_sum(a, b, DIM as nat),
{
    assert(a[14] == 0 && b[14] == 0);
    assert(a[15] == 0 && b[15] == 0);
    zeros_add_nothing(a, b, 15);
    zeros_add_nothing(a, b, 16);
}

/// Each feature that is a quotient depends on a field of its own: two requests agree in the
/// feature exactly if they agree in the field.
pub proof fn each_quotient_has_its_field(a: Request<'_>, b: Request<'_>)
    ensures
        features(a)[0] == features(b)[0] <==> a.transaction.amount == b.transaction.amount,
        features(a)[1] == features(b)[1] <==> a.transaction.installments
            == b.transaction.installments,
        features(a)[7] == features(b)[7] <==> a.terminal.km_from_home == b.terminal.km_from_home,
        features(a)[8] == features(b)[8] <==> a.customer.tx_count_24h == b.customer.tx_count_24h,
        features(a)[13] == features(b)[13] <==> a.merchant.avg_amount == b.merchant.avg_amount,
{
    quotients_have_their_limits(a);
    quotients_have_their_limits(b);
}

/// Each yes or no has a field of its own too: two requests agree in the feature exactly if
/// they agree in the field, or in whether the merchant is known.
pub proof fn each_flag_has_its_field(a: Request<'_>, b: Request<'_>)
    ensures
        features(a)[9] == features(b)[9] <==> a.terminal.is_online == b.terminal.is_online,
        features(a)[10] == features(b)[10] <==> a.terminal.card_present == b.terminal.card_present,
        features(a)[11] == features(b)[11] <==> (is_known(a.customer, a.merchant.id@) <==> is_known(
            b.customer,
            b.merchant.id@,
        )),
{
    flags_tell_yes_or_no(a);
    flags_tell_yes_or_no(b);
}

/// What each feature that is a quotient of the payload is made of.
pub proof fn quotients_have_their_limits(req: Request<'_>)
    ensures
        features(req)[0] == (Term::Clamped { value: req.transaction.amount, limit: 10000 }),
        features(req)[1] == (Term::Clamped { value: req.transaction.installments, limit: 12 }),
        0 < req.customer.avg_amount <= 0x7f80_0000 ==> features(req)[2] == (Term::ClampedRatio {
            value: req.transaction.amount,
            other: req.customer.avg_amount,
            limit: 10,
        }),
        !(0 < req.customer.avg_amount <= 0x7f80_0000) ==> features(req)[2] == (Term::Share {
            part: 1,
            whole: 1,
        }),
        req.last_transaction matches Some(lt) ==> features(req)[6] == (Term::Clamped {
            value: lt.km_from_current,
            limit: 1000,
        }),
        features(req)[7] == (Term::Clamped { value: req.terminal.km_from_home, limit: 1000 }),
        features(req)[8] == (Term::Clamped { value: req.customer.tx_count_24h, limit: 20 }),
        features(req)[13] == (Term::Clamped { value: req.merchant.avg_amount, limit: 10000 }),
{
}

/// What each feature that is a yes or no says: 1 for yes and 0 for no. A merchant is unknown
/// unless its name stands in the list.
pub proof fn flags_tell_yes_or_no(req: Request<'_>)
    ensures
        req.terminal.is_online ==> features(req)[9] == (Term::Share { part: 1, whole: 1 }),
        !req.terminal.is_online ==> features(req)[9] == (Term::Share { part: 0, whole: 1 }),
        req.terminal.card_present ==> features(req)[10] == (Term::Share { part: 1, whole: 1 }),
        !req.terminal.card_present ==> features(req)[10] == (Term::Share { part: 0, whole: 1 }),
        (exists|i: int|
            0 <= i < req.customer.known_merchants@.len() && (
            #[trigger] req.customer.known_merchants@[i])@ == req.merchant.id@) ==> features(req)[11]
            == (Term::Share { part: 0, whole: 1 }),
        (forall|i: int|
            0 <= i < req.customer.known_merchants@.len() ==> (
            #[trigger] req.customer.known_merchants@[i])@ != req.merchant.id@) ==> features(req)[11]
            == (Term::Share { part: 1, whole: 1 }),
{
    let k = req.customer.known_merchants;
    if exists|i: int| 0 <= i < k@.len() && (#[trigger] k@[i])@ == req.merchant.id@ {
        let i = choose|i: int| 0 <= i < k@.len() && (#[trigger] k@[i])@ == req.merchant.id@;
        assert(k[i]@ == req.merchant.id@);
        assert(is_known(req.customer, req.merchant.id@));
    }
    if is_known(req.customer, req.merchant.id@) {
        let i = choose|i: int| 0 <= i < k.len() && (#[trigger] k[i])@ == req.merchant.id@;
        assert(k@[i]@ == req.merchant.id@);
    }
}

/// What the features of time say: the hour in 23rds, the day of the week in sixths, the seconds
/// from the last transaction to this one. A text too short for a timestamp counts as second,
/// hour and day 0 in the request, and as the moment of the request in the last transaction;
/// without a last transaction there is the sentinel.
pub proof fn times_are_told(req: Request<'_>)
    ensures
        ({
            let b = vstd::utf8::encode_utf8(req.transaction.requested_at@);
            let at = timeutil::stamp(b);
            let now = if b.len() >= 19 {
                timeutil::epoch_seconds(at)
            } else {
                0
            };
            &&& b.len() >= 19 ==> features(req)[3] == (Term::Share {
                part: at.hour as u32,
                whole: 23,
            }) && features(req)[4] == (Term::Share {
                part: timeutil::weekday(at) as u32,
                whole: 6,
            })
            &&& b.len() < 19 ==> features(req)[3] == (Term::Share { part: 0, whole: 23 })
                && features(req)[4] == (Term::Share { part: 0, whole: 6 })
            &&& match req.last_transaction {
                None => features(req)[5] is Absent && features(req)[6] is Absent,
                Some(lt) => {
                    let l = vstd::utf8::encode_utf8(lt.timestamp@);
                    features(req)[5] == (Term::Elapsed {
                        seconds: if l.len() >= 19 {
                            (now - timeutil::epoch_seconds(timeutil::stamp(l))) as i64
                        } else {
                            0
                        },
                        limit: 1440,
                    })
                },
            }
        }),
{
}

/// What a merchant's category is worth as a feature: its risk in hundredths.
pub proof fn risk_is_told(req: Request<'_>)
    ensures
        features(req)[12] == (Term::Share {
            part: consts::risk_of(req.merchant.mcc@),
            whole: 100,
        }),
{
}

/// A number that 16 bits can hold stays as it is; a larger one becomes the largest, a smaller
/// one the smallest.
pub proof fn saturation_moves_to_the_ends(x: int)
    ensures
        -32768 <= x <= 32767 ==> saturated(x) == x,
        x > 32767 ==> saturated(x) == 32767,
        x < -32768 ==> saturated(x) == -32768,
{
}

} // verus!
