//! Sizes of a feature vector and the limits that normalise the payload.

use vstd::prelude::*;
use crate::text;

verus! {

/// Features of a transaction.
pub const DIM: usize = 14;

/// Length of a quantised row: the features and two zeros.
pub const PAD: usize = 16;

/// A feature of 1 as a quantised number. Features have four decimal places, so nothing
/// is lost.
pub const SCALE: i64 = 10000;

pub const MAX_AMOUNT: u32 = 10000;

pub const MAX_INSTALLMENTS: u32 = 12;

pub const AMOUNT_VS_AVG_RATIO: u32 = 10;

pub const MAX_MINUTES: u32 = 1440;

pub const MAX_KM: u32 = 1000;

pub const MAX_TX_COUNT_24H: u32 = 20;

pub const MAX_MERCHANT_AVG_AMOUNT: u32 = 10000;

/// The risk of a merchant category, in hundredths.
pub open spec fn risk_of(mcc: Seq<char>) -> u32 {
    if mcc == "5411"@ {
        15
    } else if mcc == "5812"@ {
        30
    } else if mcc == "5912"@ {
        20
    } else if mcc == "5944"@ {
        45
    } else if mcc == "7801"@ {
        80
    } else if mcc == "7802"@ {
        75
    } else if mcc == "7995"@ {
        85
    } else if mcc == "4511"@ {
        35
    } else if mcc == "5311"@ {
        25
    } else {
        50
    }
}

/// The risk of a merchant category, in hundredths; a half where the category is not known.
pub fn mcc_risk(mcc: &str) -> (hundredths: u32)
    ensures
        hundredths == risk_of(mcc@),
        hundredths <= 100,
{
    if text::same(mcc, "5411") {
        15
    } else if text::same(mcc, "5812") {
        30
    } else if text::same(mcc, "5912") {
        20
    } else if text::same(mcc, "5944") {
        45
    } else if text::same(mcc, "7801") {
        80
    } else if text::same(mcc, "7802") {
        75
    } else if text::same(mcc, "7995") {
        85
    } else if text::same(mcc, "4511") {
        35
    } else if text::same(mcc, "5311") {
        25
    } else {
        50
    }
}

/// The table of risks. A category that is not in it has a risk of a half.
pub proof fn risks_of_categories(mcc: Seq<char>)
    ensures
        mcc == seq!['5', '4', '1', '1'] ==> risk_of(mcc) == 15,
        mcc == seq!['5', '8', '1', '2'] ==> risk_of(mcc) == 30,
        mcc == seq!['5', '9', '1', '2'] ==> risk_of(mcc) == 20,
        mcc == seq!['5', '9', '4', '4'] ==> risk_of(mcc) == 45,
        mcc == seq!['7', '8', '0', '1'] ==> risk_of(mcc) == 80,
        mcc == seq!['7', '8', '0', '2'] ==> risk_of(mcc) == 75,
        mcc == seq!['7', '9', '9', '5'] ==> risk_of(mcc) == 85,
        mcc == seq!['4', '5', '1', '1'] ==> risk_of(mcc) == 35,
        mcc == seq!['5', '3', '1', '1'] ==> risk_of(mcc) == 25,
        risk_of(mcc) == 50 || mcc == seq!['5', '4', '1', '1'] || mcc == seq!['5', '8', '1', '2']
            || mcc == seq!['5', '9', '1', '2'] || mcc == seq!['5', '9', '4', '4'] || mcc
            == seq!['7', '8', '0', '1'] || mcc == seq!['7', '8', '0', '2'] || mcc == seq![
            '7',
            '9',
            '9',
            '5',
        ] || mcc == seq!['4', '5', '1', '1'] || mcc == seq!['5', '3', '1', '1'],
{
    reveal_strlit("5411");
    reveal_strlit("5812");
    reveal_strlit("5912");
    reveal_strlit("5944");
    reveal_strlit("7801");
    reveal_strlit("7802");
    reveal_strlit("7995");
    reveal_strlit("4511");
    reveal_strlit("5311");
    assert("5411"@ =~= seq!['5', '4', '1', '1']);
    assert("5812"@ =~= seq!['5', '8', '1', '2']);
    assert("5912"@ =~= seq!['5', '9', '1', '2']);
    assert("5944"@ =~= seq!['5', '9', '4', '4']);
    assert("7801"@ =~= seq!['7', '8', '0', '1']);
    assert("7802"@ =~= seq!['7', '8', '0', '2']);
    assert("7995"@ =~= seq!['7', '9', '9', '5']);
    assert("4511"@ =~= seq!['4', '5', '1', '1']);
    assert("5311"@ =~= seq!['5', '3', '1', '1']);
    assert("5411"@[1] == '4' && "5812"@[1] == '8' && "5912"@[1] == '9' && "5912"@[2] == '1');
    assert("5944"@[2] == '4' && "7801"@[3] == '1' && "7802"@[3] == '2' && "7995"@[1] == '9');
    assert("4511"@[0] == '4' && "5311"@[1] == '3' && "7801"@[0] == '7' && "5812"@[0] == '5');
    assert("7801"@[1] == '8' && "7802"@[1] == '8' && "5944"@[1] == '9' && "5411"@[0] == '5');
    assert("7802"@[0] == '7' && "7995"@[0] == '7' && "5912"@[0] == '5' && "5944"@[0] == '5');
    assert("5311"@[0] == '5');
}

} // verus!
