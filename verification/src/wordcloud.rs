//! The word-cloud command's domain: mask names, the command's help text,
//! and the selection of the frequency table a cloud is generated from.

use vstd::prelude::*;

use crate::assoc::{get_val, has_key};
use crate::state::{store_channel, store_has_channel, Store, StoryKey};
use crate::stats::spec_filtered_freqs;
use crate::strutil::str_eq;

verus! {

/// A shape mask a word cloud can be drawn in.
#[derive(Debug, PartialEq, Eq, Structural, Clone, Copy)]
pub enum MaskName {
    Bunny,
    D20,
    Shield,
    Wolf,
    Horse,
}

/// The name of each mask.
pub open spec fn spec_mask_name(m: MaskName) -> Seq<char> {
    match m {
        MaskName::Bunny => "bunny"@,
        MaskName::D20 => "d20"@,
        MaskName::Shield => "shield"@,
        MaskName::Wolf => "wolf"@,
        MaskName::Horse => "horse"@,
    }
}

impl MaskName {
    /// The mask's name.
    pub fn to_str(&self) -> (r: &'static str)
        ensures
            r@ == spec_mask_name(*self),
    {
        match self {
            Self::Bunny => "bunny",
            Self::D20 => "d20",
            Self::Shield => "shield",
            Self::Wolf => "wolf",
            Self::Horse => "horse",
        }
    }

    /// Parses a mask from its name; any other text is refused, naming the
    /// offending input.
    pub fn from_str(s: &str) -> (r: Result<Self, String>)
        ensures
            match r {
                Ok(m) => spec_mask_name(m) == s@,
                Err(e) => {
                    &&& s@ != "bunny"@ && s@ != "d20"@ && s@ != "shield"@ && s@ != "wolf"@ && s@
                        != "horse"@
                    &&& e@ == "Invalid mask name "@ + s@
                },
            },
    {
        if str_eq(s, "bunny") {
            Ok(Self::Bunny)
        } else if str_eq(s, "d20") {
            Ok(Self::D20)
        } else if str_eq(s, "shield") {
            Ok(Self::Shield)
        } else if str_eq(s, "wolf") {
            Ok(Self::Wolf)
        } else if str_eq(s, "horse") {
            Ok(Self::Horse)
        } else {
            Err(String::from_str("Invalid mask name ").concat(s))
        }
    }

    /// Every mask, in declaration order.
    pub fn variants() -> (r: Vec<MaskName>)
        ensures
            r@ == seq![MaskName::Bunny, MaskName::D20, MaskName::Shield, MaskName::Wolf,
                MaskName::Horse],
    {
        let mut v: Vec<MaskName> = Vec::new();
        v.push(Self::Bunny);
        v.push(Self::D20);
        v.push(Self::Shield);
        v.push(Self::Wolf);
        v.push(Self::Horse);
        proof {
            assert(v@ =~= seq![MaskName::Bunny, MaskName::D20, MaskName::Shield, MaskName::Wolf,
                MaskName::Horse]);
        }
        v
    }
}

/// The word-cloud command's help text; its tail after "Available masks: "
/// lists every mask's name.
pub fn wordcloud_description() -> (r: &'static str)
    ensures
        r@ == (
        "Generate a wordcloud from the given channel's general stats. If a user is given (via @mention) the wordcloud if for just that user's stats. Available masks: bunny|d20|shield|wolf|horse"
        )@,
{
    "Generate a wordcloud from the given channel's general stats. If a user is given (via @mention) the wordcloud if for just that user's stats. Available masks: bunny|d20|shield|wolf|horse"
}

/// Why no frequency table could be selected for a word cloud.
#[derive(Debug, PartialEq, Eq, Structural, Clone, Copy)]
pub enum WordcloudError {
    /// The channel has no committed statistics.
    ChannelNotInitialised,
    /// The requested author has no statistics in this channel.
    UserNotFound,
}

/// Selects the stop-word-filtered frequency table a word cloud is generated
/// from: one author's statistics when a user is named, the channel-wide
/// statistics otherwise.
pub fn wordcloud_frequencies(store: &Store, story_key: &StoryKey, user: Option<u64>) -> (r: Result<
    Vec<(String, u64)>,
    WordcloudError,
>)
    ensures
        match r {
            Ok(freqs) => {
                &&& store_has_channel(store@.data, *story_key)
                &&& match user {
                    Some(uid) => has_key(
                        store_channel(store@.data, *story_key).author_stats,
                        uid,
                    ) && freqs.deep_view() == spec_filtered_freqs(
                        get_val(store_channel(store@.data, *story_key).author_stats, uid).freqs,
                    ),
                    None => freqs.deep_view() == spec_filtered_freqs(
                        store_channel(store@.data, *story_key).general_stats.freqs,
                    ),
                }
            },
            Err(WordcloudError::ChannelNotInitialised) => !store_has_channel(
                store@.data,
                *story_key,
            ),
            Err(WordcloudError::UserNotFound) => {
                &&& store_has_channel(store@.data, *story_key)
                &&& user matches Some(uid) && !has_key(
                    store_channel(store@.data, *story_key).author_stats,
                    uid,
                )
            },
        },
{
    let channel_data = match store.get_channel_data(story_key) {
        Some(cd) => cd,
        None => {
            return Err(WordcloudError::ChannelNotInitialised);
        },
    };
    match user {
        Some(user_id) => match channel_data.get_user(user_id) {
            Some(stats) => Ok(stats.filtered_word_frequencies()),
            None => Err(WordcloudError::UserNotFound),
        },
        None => Ok(channel_data.general_stats.filtered_word_frequencies()),
    }
}

} // verus!
