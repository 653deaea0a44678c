pub mod command;
pub mod session;
pub mod card_filter;
pub mod progression;
pub mod table;
pub mod country_label;
pub mod csv_state;
pub mod export_name;
pub mod trip_window;
