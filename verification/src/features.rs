//! From a request to its features.
//!
//! A request's amounts and distances are quantities of a type `Q` that the
//! caller chooses; the features say how each coordinate of the query vector is
//! made from them.

use vstd::prelude::*;
use vstd::string::*;

use crate::calendar::{
    date_and_hour, day_number, day_of_week_spec, elapsed, elapsed_time_is_between_instants,
    elapsed_time_is_the_difference, has_instant, instant, parse_rfc3339_ymdh, seconds_between,
    shows, unix_seconds, weekday, weekday_is_one_of_seven, weekdays_of_all_dates,
    written_dates_read_back,
};
use crate::distance::DIM;
use crate::text::same_text;

verus! {

/// Amount at which the amount feature is full.
pub const MAX_AMOUNT: u32 = 10000;

/// Installments at which their feature is full.
pub const MAX_INSTALLMENTS: u32 = 12;

/// Ratio to the customer's average at which its feature is full.
pub const AMOUNT_VS_AVG_RATIO: u32 = 10;

/// Minutes since the last transaction at which their feature is full.
pub const MAX_MINUTES: u32 = 1440;

/// Kilometres at which a distance feature is full.
pub const MAX_KM: u32 = 1000;

/// Transactions in a day at which their feature is full.
pub const MAX_TX_COUNT_24H: u32 = 20;

/// Average merchant amount at which its feature is full.
pub const MAX_MERCHANT_AVG_AMOUNT: u32 = 10000;

/// A request to score a transaction.
pub struct FraudRequest<'a, Q> {
    pub id: &'a str,
    pub transaction: Transaction<'a, Q>,
    pub customer: Customer<'a, Q>,
    pub merchant: Merchant<'a, Q>,
    pub terminal: Terminal<Q>,
    pub last_transaction: Option<LastTransaction<'a, Q>>,
}

/// The transaction to score.
pub struct Transaction<'a, Q> {
    pub amount: Q,
    pub installments: u32,
    pub requested_at: &'a str,
}

/// Who pays.
pub struct Customer<'a, Q> {
    pub avg_amount: Q,
    pub tx_count_24h: u32,
    pub known_merchants: Vec<&'a str>,
}

/// Who is paid.
pub struct Merchant<'a, Q> {
    pub id: &'a str,
    pub mcc: &'a str,
    pub avg_amount: Q,
}

/// Where the payment is made.
pub struct Terminal<Q> {
    pub is_online: bool,
    pub card_present: bool,
    pub km_from_home: Q,
}

/// The customer's transaction before.
pub struct LastTransaction<'a, Q> {
    pub timestamp: &'a str,
    pub km_from_current: Q,
}

/// How a coordinate is made. Clamping is to the range from zero to one.
#[derive(Debug)]
pub enum Feature<Q> {
    /// `value / scale`, clamped.
    Quantity { value: Q, scale: u32 },
    /// `(value / base) / scale`, clamped.
    Ratio { value: Q, base: Q, scale: u32 },
    /// `count / scale`, clamped.
    Count { count: u32, scale: u32 },
    /// `(seconds / 60) / scale`, clamped.
    Minutes { seconds: u64, scale: u32 },
    /// `num / den`, as it is.
    Fraction { num: u32, den: u32 },
    /// Minus one: there is nothing to measure.
    Missing,
}

/// The risk of a merchant category, in hundredths.
pub open spec fn category_risk(mcc: Seq<char>) -> u32 {
    if mcc == "5411"@ {
        15
    } else if mcc == "5812"@ {
        30
    } else if mcc == "5912"@ {
        20
    } else if mcc == "5944"@ {
        45
    } else if mcc == "7801"@ {
        80
    } else if mcc == "7802"@ {
        75
    } else if mcc == "7995"@ {
        85
    } else if mcc == "4511"@ {
        35
    } else if mcc == "5311"@ {
        25
    } else {
        50
    }
}

/// The risk of a merchant category, in hundredths.
pub fn mcc_risk(mcc: &str) -> (risk: u32)
    ensures
        risk == category_risk(mcc@),
{
    if same_text(mcc, "5411") {
        15
    } else if same_text(mcc, "5812") {
        30
    } else if same_text(mcc, "5912") {
        20
    } else if same_text(mcc, "5944") {
        45
    } else if same_text(mcc, "7801") {
        80
    } else if same_text(mcc, "7802") {
        75
    } else if same_text(mcc, "7995") {
        85
    } else if same_text(mcc, "4511") {
        35
    } else if same_text(mcc, "5311") {
        25
    } else {
        50
    }
}

/// Year, month, day and hour of a request; those of the start of 1970 where the
/// timestamp cannot be read.
pub open spec fn request_date(requested_at: Seq<u8>) -> (u32, u32, u32, u32) {
    match date_and_hour(requested_at) {
        Some(date) => date,
        None => (1970, 1, 1, 0),
    }
}

/// The timestamp names one of the twelve months, or cannot be read.
pub open spec fn names_a_month(requested_at: Seq<u8>) -> bool {
    1 <= request_date(requested_at).1 <= 12
}

/// Year, month, day and hour of a request; those of the start of 1970 where the
/// timestamp cannot be read.
fn date_of_request(requested_at: &str) -> (date: (u32, u32, u32, u32))
    ensures
        date == request_date(requested_at.spec_bytes()),
{
    match parse_rfc3339_ymdh(requested_at) {
        Some(date) => date,
        None => (1970, 1, 1, 0),
    }
}

/// Whether the timestamp names one of the twelve months, or cannot be read.
pub fn has_calendar_month(requested_at: &str) -> (r: bool)
    ensures
        r == names_a_month(requested_at.spec_bytes()),
{
    let (_, mo, _, _) = date_of_request(requested_at);
    1 <= mo && mo <= 12
}

/// The customer has paid this merchant before.
pub open spec fn is_known(known: Seq<&str>, merchant: Seq<char>) -> bool {
    exists|i: int| 0 <= i < known.len() && (#[trigger] known[i])@ == merchant
}

/// Whether the customer has paid this merchant before.
fn knows_merchant(known: &Vec<&str>, merchant: &str) -> (r: bool)
    ensures
        r == is_known(known@, merchant@),
{
    for i in 0..known.len()
        invariant
            forall|j: int| 0 <= j < i ==> (#[trigger] known@[j])@ != merchant@,
    {
        if same_text(known[i], merchant) {
            assert(known@[i as int]@ == merchant@);
            return true;
        }
    }
    false
}

/// One or zero.
pub open spec fn flag<Q>(set: bool) -> Feature<Q> {
    Feature::Fraction {
        num: if set {
            1
        } else {
            0
        },
        den: 1,
    }
}

/// One or zero.
fn flag_feature<Q>(set: bool) -> (f: Feature<Q>)
    ensures
        f == flag::<Q>(set),
{
    Feature::Fraction {
        num: if set {
            1
        } else {
            0
        },
        den: 1,
    }
}

/// The seconds since the last transaction; zero where they cannot be told.
pub open spec fn seconds_since(now: Seq<u8>, prev: Seq<u8>) -> u64 {
    match elapsed(now, prev) {
        Some(seconds) => seconds,
        None => 0,
    }
}

/// The features of a request, in order. `has_average` says whether the
/// customer's average amount is positive.
pub open spec fn features<Q>(req: &FraudRequest<Q>, has_average: bool) -> Seq<Feature<Q>> {
    let now = req.transaction.requested_at.spec_bytes();
    let date = request_date(now);
    seq![
        Feature::Quantity { value: req.transaction.amount, scale: MAX_AMOUNT },
        Feature::Count { count: req.transaction.installments, scale: MAX_INSTALLMENTS },
        if has_average {
            Feature::Ratio {
                value: req.transaction.amount,
                base: req.customer.avg_amount,
                scale: AMOUNT_VS_AVG_RATIO,
            }
        } else {
            flag(true)
        },
        Feature::Fraction { num: date.3, den: 23 },
        Feature::Fraction {
            num: weekday(date.0 as int, date.1 as int, date.2 as int) as u32,
            den: 6,
        },
        match req.last_transaction {
            Some(last) => Feature::Minutes {
                seconds: seconds_since(now, last.timestamp.spec_bytes()),
                scale: MAX_MINUTES,
            },
            None => Feature::Missing,
        },
        match req.last_transaction {
            Some(last) => Feature::Quantity { value: last.km_from_current, scale: MAX_KM },
            None => Feature::Missing,
        },
        Feature::Quantity { value: req.terminal.km_from_home, scale: MAX_KM },
        Feature::Count { count: req.customer.tx_count_24h, scale: MAX_TX_COUNT_24H },
        flag(req.terminal.is_online),
        flag(req.terminal.card_present),
        flag(!is_known(req.customer.known_merchants@, req.merchant.id@)),
        Feature::Fraction { num: category_risk(req.merchant.mcc@), den: 100 },
        Feature::Quantity { value: req.merchant.avg_amount, scale: MAX_MERCHANT_AVG_AMOUNT },
    ]
}

/// The features of a request. `has_average` says whether the customer's average
/// amount is positive.
pub fn vectorize<'a, Q: Copy>(req: &FraudRequest<'a, Q>, has_average: bool) -> (v: [Feature<
    Q,
>; DIM])
    requires
        names_a_month(req.transaction.requested_at.spec_bytes()),
    ensures
        v@ == features(req, has_average),
{
    let (y, mo, da, ho) = date_of_request(req.transaction.requested_at);
    let (minutes, km) = match &req.last_transaction {
        Some(lt) => {
            let seconds: u64 = match seconds_between(
                req.transaction.requested_at,
                lt.timestamp,
            ) {
                Some(seconds) => seconds,
                None => 0,
            };
            (
                Feature::Minutes { seconds, scale: MAX_MINUTES },
                Feature::Quantity { value: lt.km_from_current, scale: MAX_KM },
            )
        },
        None => (Feature::Missing, Feature::Missing),
    };
    let known = knows_merchant(&req.customer.known_merchants, req.merchant.id);
    let v: [Feature<Q>; 14] = [
        Feature::Quantity { value: req.transaction.amount, scale: MAX_AMOUNT },
        Feature::Count { count: req.transaction.installments, scale: MAX_INSTALLMENTS },
        if has_average {
            Feature::Ratio {
                value: req.transaction.amount,
                base: req.customer.avg_amount,
                scale: AMOUNT_VS_AVG_RATIO,
            }
        } else {
            flag_feature(true)
        },
        Feature::Fraction { num: ho, den: 23 },
        Feature::Fraction { num: day_of_week_spec(y, mo, da), den: 6 },
        minutes,
        km,
        Feature::Quantity { value: req.terminal.km_from_home, scale: MAX_KM },
        Feature::Count { count: req.customer.tx_count_24h, scale: MAX_TX_COUNT_24H },
        flag_feature(req.terminal.is_online),
        flag_feature(req.terminal.card_present),
        flag_feature(!known),
        Feature::Fraction { num: mcc_risk(req.merchant.mcc), den: 100 },
        Feature::Quantity { value: req.merchant.avg_amount, scale: MAX_MERCHANT_AVG_AMOUNT },
    ];
    assert(v@ =~= features(req, has_average));
    v
}

/// There is a feature for every coordinate, and only the two that look at the
/// last transaction can be missing: both are, exactly where there is none.
pub proof fn only_a_last_transaction_can_be_missing<Q>(
    req: &FraudRequest<Q>,
    has_average: bool,
    lane: int,
)
    requires
        0 <= lane < DIM,
    ensures
        features(req, has_average).len() == DIM,
        features(req, has_average)[lane] is Missing <==> (lane == 5 || lane == 6)
            && req.last_transaction is None,
{
}

/// No scale and no denominator is zero, and a fraction is at most one wherever
/// the hour is one of the twenty-four of a day.
pub proof fn features_stay_in_range<Q>(req: &FraudRequest<Q>, has_average: bool, lane: int)
    requires
        0 <= lane < DIM,
    ensures
        match features(req, has_average)[lane] {
            Feature::Quantity { value, scale } => scale > 0,
            Feature::Ratio { value, base, scale } => scale > 0,
            Feature::Count { count, scale } => scale > 0,
            Feature::Minutes { seconds, scale } => scale > 0,
            Feature::Fraction { num, den } => den > 0 && (request_date(
                req.transaction.requested_at.spec_bytes(),
            ).3 <= 23 ==> num <= den),
            Feature::Missing => true,
        },
{
    let date = request_date(req.transaction.requested_at.spec_bytes());
    weekday_is_one_of_seven(date.0 as int, date.1 as int, date.2 as int);
}

/// The coordinates that stand for a single field are made from that field, with
/// or without a last transaction: the amount, the installments, the distance
/// from home, the day's transactions, the two flags of the terminal and the
/// merchant's average.
pub proof fn coordinates_come_from_their_fields<Q>(req: &FraudRequest<Q>, has_average: bool)
    ensures
        features(req, has_average).len() == 14,
        features(req, has_average)[0] == (Feature::Quantity {
            value: req.transaction.amount,
            scale: 10000,
        }),
        features(req, has_average)[1] == (Feature::<Q>::Count {
            count: req.transaction.installments,
            scale: 12,
        }),
        features(req, has_average)[7] == (Feature::Quantity {
            value: req.terminal.km_from_home,
            scale: 1000,
        }),
        features(req, has_average)[8] == (Feature::<Q>::Count {
            count: req.customer.tx_count_24h,
            scale: 20,
        }),
        features(req, has_average)[9] matches Feature::Fraction { num, den } && den == 1 && num
            == if req.terminal.is_online {
            1int
        } else {
            0
        },
        features(req, has_average)[10] matches Feature::Fraction { num, den } && den == 1 && num
            == if req.terminal.card_present {
            1int
        } else {
            0
        },
        features(req, has_average)[13] == (Feature::Quantity {
            value: req.merchant.avg_amount,
            scale: 10000,
        }),
{
}

/// The amount is set against the customer's average where there is one, and the
/// coordinate is full where there is none.
pub proof fn amounts_are_set_against_the_average<Q>(req: &FraudRequest<Q>, has_average: bool)
    ensures
        has_average ==> features(req, has_average)[2] == (Feature::Ratio {
            value: req.transaction.amount,
            base: req.customer.avg_amount,
            scale: 10,
        }),
        !has_average ==> (features(req, has_average)[2] matches Feature::Fraction { num, den }
            && num == den && den > 0),
{
}

/// The hour and the weekday are those of the timestamp written in the request:
/// hours out of 23, days of the week out of 6.
pub proof fn hour_and_weekday_are_those_written<Q>(
    req: &FraudRequest<Q>,
    has_average: bool,
    y: int,
    m: int,
    d: int,
    h: int,
)
    requires
        ({
            let b = req.transaction.requested_at.spec_bytes();
            &&& b.len() >= 20
            &&& 0 <= y <= 9999
            &&& shows(b, 0, y / 100)
            &&& shows(b, 2, y % 100)
            &&& b[4] == 45
            &&& shows(b, 5, m)
            &&& b[7] == 45
            &&& shows(b, 8, d)
            &&& b[10] == 84
            &&& shows(b, 11, h)
            &&& b[13] == 58
        }),
    ensures
        names_a_month(req.transaction.requested_at.spec_bytes()) <==> 1 <= m <= 12,
        features(req, has_average)[3] matches Feature::Fraction { num, den } && num == h && den
            == 23,
        1 <= m <= 12 ==> (features(req, has_average)[4] matches Feature::Fraction { num, den }
            && num == weekday(y, m, d) && den == 6),
        1 <= m <= 12 && (0 < y || 2 < m) ==> (features(req, has_average)[4] matches Feature::Fraction {
            num,
            den,
        } && num == (day_number(y, m, d) + 3) % 7),
{
    let b = req.transaction.requested_at.spec_bytes();
    written_dates_read_back(b, y, m, d, h);
    if 1 <= m <= 12 {
        weekday_is_one_of_seven(y, m, d);
        weekdays_of_all_dates(y, m, d);
    }
}

/// A timestamp that cannot be read stands for midnight of a Thursday.
pub proof fn unreadable_timestamps_stand_for_the_start_of_1970<Q>(
    req: &FraudRequest<Q>,
    has_average: bool,
)
    requires
        date_and_hour(req.transaction.requested_at.spec_bytes()) is None,
    ensures
        names_a_month(req.transaction.requested_at.spec_bytes()),
        features(req, has_average)[3] matches Feature::Fraction { num, den } && num == 0 && den
            == 23,
        features(req, has_average)[4] matches Feature::Fraction { num, den } && num == 3 && den
            == 6,
{
    weekdays_of_all_dates(1970, 1, 1);
}

/// The minutes since the last transaction are made from all the seconds between
/// the two timestamps, and count as none where one of them cannot be read or
/// the last transaction is the later one; its distance is made from its own
/// field.
pub proof fn minutes_are_those_since_the_last_transaction<Q>(
    req: &FraudRequest<Q>,
    has_average: bool,
)
    requires
        req.last_transaction is Some,
    ensures
        ({
            let now = req.transaction.requested_at.spec_bytes();
            let prev = req.last_transaction->0.timestamp.spec_bytes();
            &&& features(req, has_average)[5] matches Feature::Minutes { seconds, scale } && {
                &&& scale == 1440
                &&& instant(now) is Some && instant(prev) is Some && instant(prev)->0 <= instant(
                    now,
                )->0 ==> seconds == instant(now)->0 - instant(prev)->0
                &&& instant(now) is None || instant(prev) is None || instant(prev)->0 > instant(
                    now,
                )->0 ==> seconds == 0
                &&& has_instant(now) && has_instant(prev) && 0 <= unix_seconds(prev)
                    <= unix_seconds(now) ==> seconds == unix_seconds(now) - unix_seconds(prev)
            }
            &&& features(req, has_average)[6] == (Feature::Quantity {
                value: req.last_transaction->0.km_from_current,
                scale: 1000,
            })
        }),
{
    let now = req.transaction.requested_at.spec_bytes();
    let prev = req.last_transaction->0.timestamp.spec_bytes();
    elapsed_time_is_between_instants(now, prev);
    if has_instant(now) && has_instant(prev) && 0 <= unix_seconds(prev) <= unix_seconds(now) {
        elapsed_time_is_the_difference(now, prev);
    }
}

/// Time runs through: a last transaction that lies a number of seconds further
/// back counts so many seconds more.
pub proof fn earlier_transactions_count_more_seconds<Q>(
    a: &FraudRequest<Q>,
    b: &FraudRequest<Q>,
    has_average: bool,
)
    requires
        a.transaction.requested_at.spec_bytes() == b.transaction.requested_at.spec_bytes(),
        a.last_transaction is Some,
        b.last_transaction is Some,
        ({
            let now = a.transaction.requested_at.spec_bytes();
            let later = a.last_transaction->0.timestamp.spec_bytes();
            let earlier = b.last_transaction->0.timestamp.spec_bytes();
            &&& has_instant(now) && has_instant(later) && has_instant(earlier)
            &&& 0 <= unix_seconds(earlier) <= unix_seconds(later) <= unix_seconds(now)
        }),
    ensures
        features(b, has_average)[5] is Minutes,
        features(a, has_average)[5] is Minutes,
        features(b, has_average)[5]->seconds - features(a, has_average)[5]->seconds
            == unix_seconds(a.last_transaction->0.timestamp.spec_bytes()) - unix_seconds(
            b.last_transaction->0.timestamp.spec_bytes(),
        ),
{
    minutes_are_those_since_the_last_transaction(a, has_average);
    minutes_are_those_since_the_last_transaction(b, has_average);
}

/// A merchant is unknown exactly if it is none of those that the customer knows.
pub proof fn unknown_merchants_are_flagged<Q>(req: &FraudRequest<Q>, has_average: bool)
    ensures
        features(req, has_average)[11] matches Feature::Fraction { num, den } && {
            &&& den == 1
            &&& num == 0 || num == 1
            &&& num == 1 <==> forall|i: int|
                0 <= i < req.customer.known_merchants@.len() ==> (
                #[trigger] req.customer.known_merchants@[i])@ != req.merchant.id@
        },
{
}

/// The risk of the nine categories that have one of their own, in hundredths.
pub proof fn listed_categories_have_their_risk()
    ensures
        category_risk("5411"@) == 15,
        category_risk("5812"@) == 30,
        category_risk("5912"@) == 20,
        category_risk("5944"@) == 45,
        category_risk("7801"@) == 80,
        category_risk("7802"@) == 75,
        category_risk("7995"@) == 85,
        category_risk("4511"@) == 35,
        category_risk("5311"@) == 25,
{
    reveal_strlit("5411");
    reveal_strlit("5812");
    reveal_strlit("5912");
    reveal_strlit("5944");
    reveal_strlit("7801");
    reveal_strlit("7802");
    reveal_strlit("7995");
    reveal_strlit("4511");
    reveal_strlit("5311");
    assert("5812"@[1] != "5411"@[1]);
    assert("5912"@[1] != "5411"@[1] && "5912"@[1] != "5812"@[1]);
    assert("5944"@[1] != "5411"@[1] && "5944"@[1] != "5812"@[1] && "5944"@[2] != "5912"@[2]);
    assert("7801"@[0] != "5411"@[0] && "7801"@[0] != "5812"@[0] && "7801"@[0] != "5912"@[0]
        && "7801"@[0] != "5944"@[0]);
    assert("7802"@[0] != "5411"@[0] && "7802"@[3] != "7801"@[3] && "7802"@[0] != "5812"@[0]
        && "7802"@[0] != "5912"@[0] && "7802"@[0] != "5944"@[0]);
    assert("7995"@[0] != "5411"@[0] && "7995"@[1] != "7801"@[1] && "7995"@[1] != "7802"@[1]
        && "7995"@[0] != "5812"@[0] && "7995"@[0] != "5912"@[0] && "7995"@[0] != "5944"@[0]);
    assert("4511"@[0] != "5411"@[0] && "4511"@[0] != "5812"@[0] && "4511"@[0] != "5912"@[0]
        && "4511"@[0] != "5944"@[0] && "4511"@[0] != "7801"@[0] && "4511"@[0] != "7802"@[0]
        && "4511"@[0] != "7995"@[0]);
    assert("5311"@[1] != "5411"@[1] && "5311"@[1] != "5812"@[1] && "5311"@[1] != "5912"@[1]
        && "5311"@[1] != "5944"@[1] && "5311"@[0] != "7801"@[0] && "5311"@[0] != "7802"@[0]
        && "5311"@[0] != "7995"@[0] && "5311"@[0] != "4511"@[0]);
}

/// Every category without a risk of its own has the middle one, and the category
/// of a merchant gives its coordinate.
pub proof fn other_categories_have_the_middle_risk<Q>(
    req: &FraudRequest<Q>,
    has_average: bool,
    mcc: Seq<char>,
)
    ensures
        mcc != "5411"@ && mcc != "5812"@ && mcc != "5912"@ && mcc != "5944"@ && mcc != "7801"@
            && mcc != "7802"@ && mcc != "7995"@ && mcc != "4511"@ && mcc != "5311"@
            ==> category_risk(mcc) == 50,
        features(req, has_average)[12] matches Feature::Fraction { num, den } && num
            == category_risk(req.merchant.mcc@) && den == 100,
{
}

/// Requests that differ in their last transaction alone differ in its two
/// coordinates alone.
pub proof fn the_last_transaction_reaches_two_coordinates<Q>(
    a: &FraudRequest<Q>,
    b: &FraudRequest<Q>,
    has_average: bool,
    lane: int,
)
    requires
        a.transaction == b.transaction,
        a.customer == b.customer,
        a.merchant == b.merchant,
        a.terminal == b.terminal,
        0 <= lane < DIM,
        lane != 5,
        lane != 6,
    ensures
        features(a, has_average)[lane] == features(b, has_average)[lane],
{
}

/// Quantities are kept apart: requests that differ in an amount or a distance
/// differ in the coordinate that stands for it.
pub proof fn different_quantities_make_different_coordinates<Q>(
    a: &FraudRequest<Q>,
    b: &FraudRequest<Q>,
    has_average: bool,
)
    ensures
        a.transaction.amount != b.transaction.amount ==> features(a, has_average)[0] != features(
            b,
            has_average,
        )[0],
        a.transaction.installments != b.transaction.installments ==> features(a, has_average)[1]
            != features(b, has_average)[1],
        a.terminal.km_from_home != b.terminal.km_from_home ==> features(a, has_average)[7]
            != features(b, has_average)[7],
        a.customer.tx_count_24h != b.customer.tx_count_24h ==> features(a, has_average)[8]
            != features(b, has_average)[8],
        a.merchant.avg_amount != b.merchant.avg_amount ==> features(a, has_average)[13] != features(
            b,
            has_average,
        )[13],
        (a.last_transaction matches Some(x) && b.last_transaction matches Some(y)
            && x.km_from_current != y.km_from_current) ==> features(a, has_average)[6] != features(
            b,
            has_average,
        )[6],
{
}

} // verus!
