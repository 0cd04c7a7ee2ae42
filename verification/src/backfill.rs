//! Backfill controller: rebuilds a channel's statistics from pages of
//! historical messages, fetched backward in time. The watermark is the
//! oldest timestamp seen so far; the cursor is the identifier of that
//! message, the exclusive upper bound for the next page. Tracking the
//! timestamp (not merely the lowest identifier) keeps pagination correct
//! when identifier order and timestamp order disagree.

use vstd::prelude::*;

use crate::message::{Message, MessageV};
use crate::state::{cd_can_update, cd_empty, cd_update, cd_wf, spec_commit, store_wf, ChannelData,
    ChannelDataV, Store, StoryKey};

verus! {

/// Page size requested from the history source.
pub const BACKFILL_PAGE_LIMIT: u64 = 100;

/// One in-progress backfill.
pub struct Backfill {
    key: StoryKey,
    data: ChannelData,
    cursor: u64,
    oldest_seen: i64,
}

#[verifier::ext_equal]
pub struct BackfillV {
    pub key: StoryKey,
    pub data: ChannelDataV,
    pub cursor: u64,
    pub oldest_seen: i64,
}

impl View for Backfill {
    type V = BackfillV;

    closed spec fn view(&self) -> BackfillV {
        BackfillV {
            key: self.key,
            data: self.data@,
            cursor: self.cursor,
            oldest_seen: self.oldest_seen,
        }
    }
}

/// One message folded into a backfill: the statistics absorb it, and a
/// strictly older timestamp moves the watermark and the cursor.
pub open spec fn bf_step(b: BackfillV, m: MessageV) -> BackfillV {
    BackfillV {
        key: b.key,
        data: cd_update(b.data, m),
        cursor: if m.timestamp < b.oldest_seen {
            m.id
        } else {
            b.cursor
        },
        oldest_seen: if m.timestamp < b.oldest_seen {
            m.timestamp
        } else {
            b.oldest_seen
        },
    }
}

impl Backfill {
    /// Starts a backfill for `key`: empty statistics, paging strictly before
    /// `newest_id`, watermark seeded with the current time `now`.
    pub fn new(key: StoryKey, newest_id: u64, now: i64) -> (r: Self)
        ensures
            r@ == (BackfillV { key, data: cd_empty(), cursor: newest_id, oldest_seen: now }),
            cd_wf(r@.data),
    {
        let r = Backfill {
            key,
            data: ChannelData::default(),
            cursor: newest_id,
            oldest_seen: now,
        };
        proof {
            assert(r@ =~= (BackfillV {
                key,
                data: cd_empty(),
                cursor: newest_id,
                oldest_seen: now,
            }));
        }
        r
    }

    /// The key being backfilled.
    pub fn key(&self) -> (r: StoryKey)
        ensures
            r == self@.key,
    {
        self.key
    }

    /// The identifier to page strictly before next.
    pub fn cursor(&self) -> (r: u64)
        ensures
            r == self@.cursor,
    {
        self.cursor
    }

    /// True when folding `message` cannot overflow any counter.
    pub fn can_fold(&self, message: &Message) -> (r: bool)
        ensures
            r == cd_can_update(self@.data, message@),
    {
        self.data.can_update(message)
    }

    /// Folds one historical message into the working statistics and advances
    /// the watermark when the message is older than everything seen so far.
    pub fn fold_message(&mut self, message: &Message)
        requires
            cd_can_update(old(self)@.data, message@),
        ensures
            final(self)@ == bf_step(old(self)@, message@),
            cd_wf(old(self)@.data) ==> cd_wf(final(self)@.data),
    {
        if message.timestamp < self.oldest_seen {
            self.oldest_seen = message.timestamp;
            self.cursor = message.id;
        }
        self.data.update(message);
        proof {
            assert(self@ =~= bf_step(old(self)@, message@));
        }
    }

    /// Commits the rebuilt statistics into the store and clears the
    /// in-progress marker.
    pub fn commit(self, store: &mut Store)
        ensures
            final(store)@ == spec_commit(old(store)@, self@.key, self@.data),
            store_wf(old(store)@) && cd_wf(self@.data) ==> store_wf(final(store)@),
    {
        let Backfill { key, data, cursor: _, oldest_seen: _ } = self;
        store.insert_channel_data_maybe_create_server_data(&key, data);
    }
}

} // verus!
