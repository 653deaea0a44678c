pub mod card_testing_burst;
pub mod foreign_country_trip;
pub mod merchant_category_risk;
pub mod card_amount_deviation;
pub mod merchant_ring;
pub mod fraudulent_identity_link;
