//! Human-readable explanations of the fraud factors.
//!
//! Amounts are written in dollars with two decimals; money statistics (kept in hundredths of
//! a cent) and z-scores or ratios (kept in thousandths) are rounded half up to two decimals.

use vstd::prelude::*;

use super::card_statistics::FraudFactor;
use crate::data::country::country_text;
use crate::data::merchant_category::category_name;
use crate::data::timestamp::{time_text, Timestamp, DISPLAY_TIMESTAMP_FORMAT};
use crate::text::{decimal, push_decimal, push_decimal_wide, push_str, push_two_decimals, two_decimals};

verus! {

/// Hundredths of a cent, or thousandths, rounded half up to hundredths.
pub open spec fn to_hundredths(v: nat, per_hundredth: nat) -> nat {
    (v + per_hundredth / 2) / per_hundredth
}

/// An instant as shown to people.
pub open spec fn shown_time(t: Timestamp) -> Seq<char> {
    time_text(t, DISPLAY_TIMESTAMP_FORMAT@)
}

/// A whole number of seconds, with its sign.
pub open spec fn signed_decimal(v: int) -> Seq<char> {
    if v < 0 {
        seq!['-'] + decimal((-v) as nat)
    } else {
        decimal(v as nat)
    }
}

/// The description of a card testing burst.
pub open spec fn burst_text(count: usize, start: Timestamp, end: Timestamp, max_amount: u32, max_gap: i64) -> Seq<char> {
    decimal(count as nat) + " rapid small online transactions (<= "@ + two_decimals(max_amount as nat)
        + ") between "@ + shown_time(start) + " and "@ + shown_time(end) + " with max gap "@
        + signed_decimal(max_gap as int) + "s"@
}

/// The explanation given for a factor.
pub open spec fn reason_text(f: FraudFactor) -> Seq<char> {
    match f {
        FraudFactor::ForeignCountryTrip { country, primary_country, trip_start, trip_end, likely_vacation, .. } => {
            "cardholder country "@ + country_text(country) + " differs from primary "@ + country_text(
                primary_country,
            ) + " ("@ + (if likely_vacation {
                "likely vacation"@
            } else {
                "short foreign trip"@
            }) + ") between "@ + shown_time(trip_start) + " and "@ + shown_time(trip_end)
        },
        FraudFactor::CardTestingBurst { transaction_count, burst_start, burst_end, max_amount, max_gap } => burst_text(
            transaction_count,
            burst_start,
            burst_end,
            max_amount,
            max_gap,
        ),
        FraudFactor::InactiveCardTestingBurst { transaction_count, burst_start, burst_end, max_amount, max_gap } => {
            "resolved by human review: "@ + burst_text(transaction_count, burst_start, burst_end, max_amount, max_gap)
        },
        FraudFactor::RiskyMerchantCategory { category } => {
            "merchant category "@ + category_name(category) + " is a known higher-risk category"@
        },
        FraudFactor::CategoryPriceDeviation { category, amount, average_amount, std_deviation, z_score, .. } => {
            "amount "@ + two_decimals(amount as nat) + " is "@ + two_decimals(to_hundredths(z_score as nat, 10))
                + " standard deviations above the "@ + category_name(category) + " average "@ + two_decimals(
                to_hundredths(average_amount as nat, 100),
            ) + " (std dev "@ + two_decimals(to_hundredths(std_deviation as nat, 100)) + ")"@
        },
        FraudFactor::CardAmountDeviation { card_id, amount, average_amount, std_deviation, z_score, .. } => {
            "amount "@ + two_decimals(amount as nat) + " is "@ + two_decimals(to_hundredths(z_score as nat, 10))
                + " standard deviations above the average "@ + two_decimals(to_hundredths(average_amount as nat, 100))
                + " of card "@ + decimal(card_id as nat) + " (std dev "@ + two_decimals(
                to_hundredths(std_deviation as nat, 100),
            ) + ")"@
        },
        FraudFactor::MerchantRing { merchant_name, amount, merchant_median, ratio, outlier_count, distinct_card_count } => {
            "amount "@ + two_decimals(amount as nat) + " is "@ + two_decimals(to_hundredths(ratio as nat, 10))
                + " times the median "@ + two_decimals(to_hundredths(merchant_median as nat, 100))
                + " of merchant "@ + merchant_name@ + ", one of "@ + decimal(outlier_count as nat) + " outliers from "@
                + decimal(distinct_card_count as nat) + " cards"@
        },
        FraudFactor::FraudulentIdentityLink { matched_confirmed_count, matched_likely_count, .. } => {
            "device or IP address shared with "@ + decimal(matched_confirmed_count as nat) + " confirmed and "@
                + decimal(matched_likely_count as nat) + " likely fraudulent transactions"@
        },
    }
}

fn push_signed(out: &mut String, v: i64)
    ensures
        final(out)@ == old(out)@ + signed_decimal(v as int),
{
    if v < 0 {
        push_str(out, "-");
        proof {
            reveal_strlit("-");
        }
        let magnitude: u64 = if v == i64::MIN {
            0x8000_0000_0000_0000
        } else {
            (-v) as u64
        };
        push_decimal(out, magnitude);
        assert(out@ =~= old(out)@ + signed_decimal(v as int));
    } else {
        push_decimal(out, v as u64);
    }
}

fn push_burst(out: &mut String, count: usize, start: Timestamp, end: Timestamp, max_amount: u32, max_gap: i64)
    ensures
        final(out)@ == old(out)@ + burst_text(count, start, end, max_amount, max_gap),
{
    push_decimal(out, count as u64);
    push_str(out, " rapid small online transactions (<= ");
    push_two_decimals(out, max_amount as u128);
    push_str(out, ") between ");
    start.push_display_text(out);
    push_str(out, " and ");
    end.push_display_text(out);
    push_str(out, " with max gap ");
    push_signed(out, max_gap);
    push_str(out, "s");
    assert(out@ =~= old(out)@ + burst_text(count, start, end, max_amount, max_gap));
}

/// Money in hundredths of a cent, in dollars rounded half up to the cent.
fn push_money(out: &mut String, v: u128)
    ensures
        final(out)@ == old(out)@ + two_decimals(to_hundredths(v as nat, 100)),
{
    let cents = v / 100 + if v % 100 >= 50 {
        1
    } else {
        0
    };
    assert(cents == (v + 50) / 100);
    push_two_decimals(out, cents);
}

/// A number of thousandths rounded half up to two decimals.
fn push_thousandths(out: &mut String, v: u64)
    ensures
        final(out)@ == old(out)@ + two_decimals(to_hundredths(v as nat, 10)),
{
    push_two_decimals(out, (v as u128 + 5) / 10);
}

impl FraudFactor {
    /// The explanation of the factor (see [`reason_text`]).
    pub fn reason(&self) -> (r: String)
        ensures
            r@ == reason_text(*self),
    {
        let mut out = String::new();
        match self {
            FraudFactor::ForeignCountryTrip { country, primary_country, trip_start, trip_end, likely_vacation, .. } => {
                push_str(&mut out, "cardholder country ");
                country.push_alpha2(&mut out);
                push_str(&mut out, " differs from primary ");
                primary_country.push_alpha2(&mut out);
                push_str(&mut out, " (");
                if *likely_vacation {
                    push_str(&mut out, "likely vacation");
                } else {
                    push_str(&mut out, "short foreign trip");
                }
                push_str(&mut out, ") between ");
                trip_start.push_display_text(&mut out);
                push_str(&mut out, " and ");
                trip_end.push_display_text(&mut out);
            },
            FraudFactor::CardTestingBurst { transaction_count, burst_start, burst_end, max_amount, max_gap } => {
                push_burst(&mut out, *transaction_count, *burst_start, *burst_end, *max_amount, *max_gap);
            },
            FraudFactor::InactiveCardTestingBurst { transaction_count, burst_start, burst_end, max_amount, max_gap } => {
                push_str(&mut out, "resolved by human review: ");
                push_burst(&mut out, *transaction_count, *burst_start, *burst_end, *max_amount, *max_gap);
            },
            FraudFactor::RiskyMerchantCategory { category } => {
                push_str(&mut out, "merchant category ");
                push_str(&mut out, category.debug_name());
                push_str(&mut out, " is a known higher-risk category");
            },
            FraudFactor::CategoryPriceDeviation { category, amount, average_amount, std_deviation, z_score, .. } => {
                push_str(&mut out, "amount ");
                push_two_decimals(&mut out, *amount as u128);
                push_str(&mut out, " is ");
                push_thousandths(&mut out, *z_score);
                push_str(&mut out, " standard deviations above the ");
                push_str(&mut out, category.debug_name());
                push_str(&mut out, " average ");
                push_money(&mut out, *average_amount);
                push_str(&mut out, " (std dev ");
                push_money(&mut out, *std_deviation);
                push_str(&mut out, ")");
            },
            FraudFactor::CardAmountDeviation { card_id, amount, average_amount, std_deviation, z_score, .. } => {
                push_str(&mut out, "amount ");
                push_two_decimals(&mut out, *amount as u128);
                push_str(&mut out, " is ");
                push_thousandths(&mut out, *z_score);
                push_str(&mut out, " standard deviations above the average ");
                push_money(&mut out, *average_amount);
                push_str(&mut out, " of card ");
                push_decimal(&mut out, *card_id);
                push_str(&mut out, " (std dev ");
                push_money(&mut out, *std_deviation);
                push_str(&mut out, ")");
            },
            FraudFactor::MerchantRing { merchant_name, amount, merchant_median, ratio, outlier_count, distinct_card_count } => {
                push_str(&mut out, "amount ");
                push_two_decimals(&mut out, *amount as u128);
                push_str(&mut out, " is ");
                push_thousandths(&mut out, *ratio);
                push_str(&mut out, " times the median ");
                push_money(&mut out, *merchant_median as u128);
                push_str(&mut out, " of merchant ");
                push_str(&mut out, merchant_name.as_str());
                push_str(&mut out, ", one of ");
                push_decimal(&mut out, *outlier_count as u64);
                push_str(&mut out, " outliers from ");
                push_decimal(&mut out, *distinct_card_count as u64);
                push_str(&mut out, " cards");
            },
            FraudFactor::FraudulentIdentityLink { matched_confirmed_count, matched_likely_count, .. } => {
                push_str(&mut out, "device or IP address shared with ");
                push_decimal(&mut out, *matched_confirmed_count as u64);
                push_str(&mut out, " confirmed and ");
                push_decimal(&mut out, *matched_likely_count as u64);
                push_str(&mut out, " likely fraudulent transactions");
            },
        }
        assert(out@ =~= reason_text(*self));
        out
    }
}

} // verus!
