//! One card payment, with what the detector and the analyst concluded about it.

use vstd::prelude::*;

use super::card_id::CardId;
use super::channel::Channel;
use super::country::Country;
use super::human_review_status::HumanReviewStatus;
use super::ip_address::IpAddress;
use super::merchant_category::MerchantCategory;
use super::timestamp::Timestamp;
use super::transaction_id::TransactionId;
use crate::process::card_statistics::FraudFactor;

verus! {

#[derive(Debug)]
pub struct Transaction {
    pub transaction_id: TransactionId,
    pub timestamp: Timestamp,
    pub card_id: CardId,
    /// The amount in cents.
    pub amount: u32,
    pub merchant_name: String,
    pub merchant_category: MerchantCategory,
    pub channel: Channel,
    pub cardholder_country: Country,
    pub merchant_country: Country,
    pub device_id: Option<String>,
    pub ip_address: Option<IpAddress>,
    pub fraud_factors: Vec<FraudFactor>,
    pub human_review_status: HumanReviewStatus,
}

/// Two records describe the same payment: every field read from the CSV is equal.
pub open spec fn same_payment(a: Transaction, b: Transaction) -> bool {
    &&& a.transaction_id == b.transaction_id
    &&& a.timestamp == b.timestamp
    &&& a.card_id == b.card_id
    &&& a.amount == b.amount
    &&& a.merchant_name == b.merchant_name
    &&& a.merchant_category == b.merchant_category
    &&& a.channel == b.channel
    &&& a.cardholder_country == b.cardholder_country
    &&& a.merchant_country == b.merchant_country
    &&& a.device_id == b.device_id
    &&& a.ip_address == b.ip_address
}

/// `items` holds the payments of `old_items`, whatever the analysis fields now say.
pub open spec fn mirrors(items: Seq<Transaction>, old_items: Seq<Transaction>) -> bool {
    &&& items.len() == old_items.len()
    &&& forall|i: int| 0 <= i < old_items.len() ==> same_payment(#[trigger] items[i], old_items[i])
}

/// Transaction `i` of `b` is that of `a`: the same payment, status and factors.
pub open spec fn same_analysis_at(a: Seq<Transaction>, b: Seq<Transaction>, i: int) -> bool {
    &&& same_payment(b[i], a[i])
    &&& b[i].human_review_status == a[i].human_review_status
    &&& b[i].fraud_factors@ == a[i].fraud_factors@
}

/// `b` holds the transactions of `a` exactly as they were: payments, statuses and factors.
pub open spec fn unchanged_analysis(a: Seq<Transaction>, b: Seq<Transaction>) -> bool {
    &&& b.len() == a.len()
    &&& forall|i: int| 0 <= i < a.len() ==> #[trigger] same_analysis_at(a, b, i)
}

/// `b` holds the payments and factors of `a`, whatever the review statuses say.
pub open spec fn same_payments_and_factors(a: Seq<Transaction>, b: Seq<Transaction>) -> bool {
    &&& mirrors(b, a)
    &&& forall|i: int| 0 <= i < a.len() ==> (#[trigger] b[i]).fraud_factors@ == a[i].fraud_factors@
}

} // verus!
