//! The channel through which a payment was made.

use vstd::prelude::*;

use crate::error::{CsvErrorView, ParseCsvError};
use crate::text::range_equals;

verus! {

#[derive(Debug, Clone, Copy, PartialEq, Eq, Structural)]
pub enum Channel {
    Online,
    InPerson,
    Atm,
}

/// The CSV spelling of each channel.
pub open spec fn channel_text(c: Channel) -> Seq<char> {
    match c {
        Channel::Online => "online"@,
        Channel::InPerson => "in_person"@,
        Channel::Atm => "atm"@,
    }
}

/// The channel a CSV value names, if any.
pub open spec fn channel_from_text(s: Seq<char>) -> Option<Channel> {
    if s == "online"@ {
        Some(Channel::Online)
    } else if s == "in_person"@ {
        Some(Channel::InPerson)
    } else if s == "atm"@ {
        Some(Channel::Atm)
    } else {
        None
    }
}

impl Channel {
    /// Reads a channel from its CSV spelling.
    pub fn parse(value: &str) -> (r: Result<Channel, ParseCsvError>)
        ensures
            match r {
                Ok(c) => channel_from_text(value@) == Some(c),
                Err(e) => channel_from_text(value@) is None && e@ == (CsvErrorView::InvalidEnumValue {
                    field: "channel"@,
                    value: value@,
                }),
            },
    {
        let v = crate::text::to_chars(value);
        assert(v@.subrange(0, v@.len() as int) =~= value@);
        if range_equals(&v, 0, v.len(), "online") {
            Ok(Channel::Online)
        } else if range_equals(&v, 0, v.len(), "in_person") {
            Ok(Channel::InPerson)
        } else if range_equals(&v, 0, v.len(), "atm") {
            Ok(Channel::Atm)
        } else {
            Err(ParseCsvError::InvalidEnumValue { field: "channel", value: value.to_owned() })
        }
    }
}

/// Reading back the spelling of a channel gives that channel.
pub proof fn lemma_channel_text_round_trip(c: Channel)
    ensures
        channel_from_text(channel_text(c)) == Some(c),
{
    reveal_strlit("online");
    reveal_strlit("in_person");
    reveal_strlit("atm");
    assert("online"@.len() == 6 && "in_person"@.len() == 9 && "atm"@.len() == 3);
}

impl core::str::FromStr for Channel {
    type Err = ParseCsvError;

    fn from_str(value: &str) -> (r: Result<Channel, ParseCsvError>)
        ensures
            match r {
                Ok(c) => channel_from_text(value@) == Some(c),
                Err(e) => channel_from_text(value@) is None && e@ == (CsvErrorView::InvalidEnumValue {
                    field: "channel"@,
                    value: value@,
                }),
            },
    {
        Channel::parse(value)
    }
}

/// The name `{:?}` writes for a channel.
pub open spec fn channel_name(c: Channel) -> Seq<char> {
    match c {
        Channel::Online => "Online"@,
        Channel::InPerson => "InPerson"@,
        Channel::Atm => "Atm"@,
    }
}

impl Channel {
    /// The name `{:?}` writes for the channel.
    pub fn debug_name(self) -> (r: &'static str)
        ensures
            r@ == channel_name(self),
    {
        match self {
            Channel::Online => "Online",
            Channel::InPerson => "InPerson",
            Channel::Atm => "Atm",
        }
    }
}

} // verus!
