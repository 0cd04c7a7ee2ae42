//! The aggregation store: a keyed registry of channel statistics, the
//! initialization-in-progress set, and the replay queue that keeps live
//! updates consistent during startup catch-up.

use vstd::prelude::*;

use crate::assoc::{find_key, get_val, has_key, keys_of, keys_unique, lemma_find_key,
    lemma_put_val_unique, put_val, set_val};
use crate::message::{Message, MessageV};
use crate::snapshot::{cd_ok, data_ok, dec_authors, dec_cd, dec_channels, dec_data, dec_sd,
    dec_servers, dec_u64_at, enc_authors, enc_cd, enc_channels, enc_data, enc_sd, enc_servers,
    enc_u64, enc_u64_into, lemma_snapshot_roundtrip, sd_ok, ws_ok};
use crate::sorting::{dedup_adjacent, dedup_ids, reverse_pairs, sort_by_count_asc, sort_ids, sort_ids_asc, sort_pairs_by_count};
use crate::stats::{lemma_update_idempotent, lemma_ws_update_wf, ws_can_update, ws_empty,
    ws_update, ws_wf, WordStats, WordStatsV};

verus! {

/// Identifies one tracked unit: (server identifier, channel identifier).
pub type StoryKey = (u64, u64);

/// Errors of the initialization protocol: the recoverable "already in
/// progress" and "already initialized" conditions.
#[derive(Debug, PartialEq, Eq, Structural, Clone, Copy)]
pub enum InitError {
    /// The key is currently being backfilled.
    AlreadyInitialising,
    /// The key already has committed channel data.
    AlreadyInitialised,
}

/// Statistics of one (server, channel): per-author aggregates plus one
/// channel-wide aggregate.
pub struct ChannelData {
    /// Author identifier -> that author's statistics, keys unique.
    pub author_stats: Vec<(u64, WordStats)>,
    /// The channel-wide aggregate.
    pub general_stats: WordStats,
}

#[verifier::ext_equal]
pub struct ChannelDataV {
    pub author_stats: Seq<(u64, WordStatsV)>,
    pub general_stats: WordStatsV,
}

/// The model of an author table.
pub open spec fn authors_view(s: Seq<(u64, WordStats)>) -> Seq<(u64, WordStatsV)> {
    Seq::new(s.len(), |i: int| (s[i].0, s[i].1@))
}

impl View for ChannelData {
    type V = ChannelDataV;

    open spec fn view(&self) -> ChannelDataV {
        ChannelDataV {
            author_stats: authors_view(self.author_stats@),
            general_stats: self.general_stats@,
        }
    }
}

pub open spec fn cd_empty() -> ChannelDataV {
    ChannelDataV { author_stats: Seq::empty(), general_stats: ws_empty() }
}

/// Internal invariant of channel data: author keys unique, every aggregate
/// well formed.
pub open spec fn cd_wf(cd: ChannelDataV) -> bool {
    &&& keys_unique(cd.author_stats)
    &&& ws_wf(cd.general_stats)
    &&& forall|i: int| 0 <= i < cd.author_stats.len() ==> ws_wf(#[trigger] cd.author_stats[i].1)
}

/// No counter overflows when `m` is folded into `cd`.
pub open spec fn cd_can_update(cd: ChannelDataV, m: MessageV) -> bool {
    &&& ws_can_update(cd.general_stats, m)
    &&& if has_key(cd.author_stats, m.author_id) {
        ws_can_update(get_val(cd.author_stats, m.author_id), m)
    } else {
        ws_can_update(ws_empty(), m)
    }
}

/// `m` folded into the channel-wide aggregate and into its author's
/// aggregate, created on first sight.
pub open spec fn cd_update(cd: ChannelDataV, m: MessageV) -> ChannelDataV {
    ChannelDataV {
        general_stats: ws_update(cd.general_stats, m),
        author_stats: if has_key(cd.author_stats, m.author_id) {
            set_val(
                cd.author_stats,
                m.author_id,
                ws_update(get_val(cd.author_stats, m.author_id), m),
            )
        } else {
            cd.author_stats.push((m.author_id, ws_update(ws_empty(), m)))
        },
    }
}

/// Law (dedup across paths): a message delivered more than once — say once
/// via backfill and once via replay — is folded exactly once; the second
/// fold changes neither the channel-wide nor the author's counters.
pub proof fn lemma_cd_update_idempotent(cd: ChannelDataV, m: MessageV)
    ensures
        cd_update(cd_update(cd, m), m) == cd_update(cd, m),
{
    lemma_update_idempotent(cd.general_stats, m);
    let c1 = cd_update(cd, m);
    let aid = m.author_id;
    lemma_find_key(cd.author_stats, aid);
    lemma_find_key(c1.author_stats, aid);
    if has_key(cd.author_stats, aid) {
        let fk = find_key(cd.author_stats, aid);
        let ws1 = ws_update(get_val(cd.author_stats, aid), m);
        lemma_update_idempotent(get_val(cd.author_stats, aid), m);
        assert(c1.author_stats[fk] == (aid, ws1));
        assert forall|l: int| 0 <= l < fk implies (#[trigger] c1.author_stats[l]).0 != aid by {
            assert(c1.author_stats[l] == cd.author_stats[l]);
        }
        assert(find_key(c1.author_stats, aid) == fk);
        assert(get_val(c1.author_stats, aid) == ws1);
        assert(ws_update(ws1, m) == ws1);
        assert(set_val(c1.author_stats, aid, ws1) =~= c1.author_stats);
        assert(cd_update(c1, m) =~= c1);
    } else {
        let ws1 = ws_update(ws_empty(), m);
        lemma_update_idempotent(ws_empty(), m);
        let fk1 = find_key(c1.author_stats, aid);
        assert(c1.author_stats[cd.author_stats.len() as int] == (aid, ws1));
        assert forall|l: int| 0 <= l < cd.author_stats.len() implies (
        #[trigger] c1.author_stats[l]).0 != aid by {
            assert(c1.author_stats[l] == cd.author_stats[l]);
        }
        assert(fk1 == cd.author_stats.len());
        assert(get_val(c1.author_stats, aid) == ws1);
        assert(ws_update(ws1, m) == ws1);
        assert(set_val(c1.author_stats, aid, ws1) =~= c1.author_stats);
        assert(cd_update(c1, m) =~= c1);
    }
}

/// Folding a message preserves the channel invariant.
pub proof fn lemma_cd_update_wf(cd: ChannelDataV, m: MessageV)
    requires
        cd_wf(cd),
    ensures
        cd_wf(cd_update(cd, m)),
{
    lemma_ws_update_wf(cd.general_stats, m);
    lemma_find_key(cd.author_stats, m.author_id);
    let after = cd_update(cd, m);
    if has_key(cd.author_stats, m.author_id) {
        lemma_ws_update_wf(get_val(cd.author_stats, m.author_id), m);
        lemma_put_val_unique(
            cd.author_stats,
            m.author_id,
            ws_update(get_val(cd.author_stats, m.author_id), m),
        );
        assert(after.author_stats == put_val(
            cd.author_stats,
            m.author_id,
            ws_update(get_val(cd.author_stats, m.author_id), m),
        ));
        assert forall|i: int| 0 <= i < after.author_stats.len() implies ws_wf(
            #[trigger] after.author_stats[i].1,
        ) by {
            if i != find_key(cd.author_stats, m.author_id) {
                assert(after.author_stats[i] == cd.author_stats[i]);
            }
        }
    } else {
        lemma_ws_update_wf(ws_empty(), m);
        lemma_put_val_unique(cd.author_stats, m.author_id, ws_update(ws_empty(), m));
        assert(after.author_stats == put_val(cd.author_stats, m.author_id, ws_update(
            ws_empty(),
            m,
        )));
        assert forall|i: int| 0 <= i < after.author_stats.len() implies ws_wf(
            #[trigger] after.author_stats[i].1,
        ) by {
            if i < cd.author_stats.len() {
                assert(after.author_stats[i] == cd.author_stats[i]);
            }
        }
    }
}

/// Finds the first entry keyed `k` in an identifier-keyed vector.
pub(crate) fn find_id_key<T>(v: &Vec<(u64, T)>, k: u64) -> (r: Option<usize>)
    ensures
        match r {
            Some(i) => {
                &&& i < v@.len()
                &&& v@[i as int].0 == k
                &&& forall|j: int| 0 <= j < i ==> v@[j].0 != k
            },
            None => forall|j: int| 0 <= j < v@.len() ==> v@[j].0 != k,
        },
{
    let mut i: usize = 0;
    while i < v.len()
        invariant
            i <= v.len(),
            forall|j: int| 0 <= j < i ==> v@[j].0 != k,
        decreases v.len() - i,
    {
        let p = &v[i];
        if p.0 == k {
            return Some(i);
        }
        i = i + 1;
    }
    None
}

impl Default for ChannelData {
    /// Empty channel data: no authors, empty channel-wide aggregate.
    fn default() -> (r: Self)
        ensures
            r@ == cd_empty(),
            cd_wf(r@),
    {
        let r = ChannelData { author_stats: Vec::new(), general_stats: WordStats::default() };
        proof {
            assert(r@ =~= cd_empty());
        }
        r
    }
}

impl ChannelData {
    /// True when folding `message` cannot overflow any counter here.
    pub fn can_update(&self, message: &Message) -> (r: bool)
        ensures
            r == cd_can_update(self@, message@),
    {
        if !self.general_stats.can_absorb(message) {
            return false;
        }
        match find_id_key(&self.author_stats, message.author_id) {
            Some(i) => {
                proof {
                    lemma_find_key(self@.author_stats, message@.author_id);
                    assert(self@.author_stats[i as int] == (
                        self.author_stats@[i as int].0,
                        self.author_stats@[i as int].1@,
                    ));
                    assert(find_key(self@.author_stats, message@.author_id) == i);
                }
                let p = &self.author_stats[i];
                p.1.can_absorb(message)
            },
            None => {
                proof {
                    lemma_find_key(self@.author_stats, message@.author_id);
                    assert forall|j: int| 0 <= j < self@.author_stats.len() implies (
                    #[trigger] self@.author_stats[j]).0 != message@.author_id by {
                        assert(self@.author_stats[j].0 == self.author_stats@[j].0);
                    }
                    assert(!has_key(self@.author_stats, message@.author_id));
                }
                let e = WordStats::default();
                e.can_absorb(message)
            },
        }
    }

    /// Folds one message into the channel-wide aggregate and the author's.
    pub fn update(&mut self, message: &Message)
        requires
            cd_can_update(old(self)@, message@),
        ensures
            final(self)@ == cd_update(old(self)@, message@),
            cd_wf(old(self)@) ==> cd_wf(final(self)@),
    {
        proof {
            if cd_wf(old(self)@) {
                lemma_cd_update_wf(old(self)@, message@);
            }
            lemma_find_key(old(self)@.author_stats, message@.author_id);
        }
        self.general_stats.update(message);
        match find_id_key(&self.author_stats, message.author_id) {
            Some(i) => {
                proof {
                    assert(self@.author_stats[i as int] == (
                        self.author_stats@[i as int].0,
                        self.author_stats@[i as int].1@,
                    ));
                    assert(find_key(old(self)@.author_stats, message@.author_id) == i);
                }
                let ghost pre = self@.author_stats;
                let (aid, mut word_stats) = self.author_stats.remove(i);
                word_stats.update(message);
                self.author_stats.insert(i, (aid, word_stats));
                proof {
                    assert(self@.author_stats =~= set_val(
                        pre,
                        message@.author_id,
                        ws_update(get_val(pre, message@.author_id), message@),
                    ));
                    assert(self@ =~= cd_update(old(self)@, message@));
                }
            },
            None => {
                proof {
                    assert forall|j: int| 0 <= j < old(self)@.author_stats.len() implies (
                    #[trigger] old(self)@.author_stats[j]).0 != message@.author_id by {
                        assert(old(self)@.author_stats[j].0 == old(self).author_stats@[j].0);
                    }
                    assert(!has_key(old(self)@.author_stats, message@.author_id));
                }
                let word_stats = WordStats::new_from_message(message);
                self.author_stats.push((message.author_id, word_stats));
                proof {
                    assert(self@.author_stats =~= old(self)@.author_stats.push(
                        (message@.author_id, ws_update(ws_empty(), message@)),
                    ));
                    assert(self@ =~= cd_update(old(self)@, message@));
                }
            },
        }
    }

    /// The statistics recorded for one author, if any.
    pub fn get_user(&self, user_id: u64) -> (r: Option<&WordStats>)
        ensures
            match r {
                Some(ws) => has_key(self@.author_stats, user_id) && ws@ == get_val(
                    self@.author_stats,
                    user_id,
                ),
                None => !has_key(self@.author_stats, user_id),
            },
{
        proof {
            lemma_find_key(self@.author_stats, user_id);
        }
        match find_id_key(&self.author_stats, user_id) {
            Some(i) => {
                proof {
                    assert(self@.author_stats[i as int] == (
                        self.author_stats@[i as int].0,
                        self.author_stats@[i as int].1@,
                    ));
                    assert(find_key(self@.author_stats, user_id) == i);
                }
                let p = &self.author_stats[i];
                Some(&p.1)
            },
            None => {
                proof {
                    assert forall|j: int| 0 <= j < self@.author_stats.len() implies (
                    #[trigger] self@.author_stats[j]).0 != user_id by {
                        assert(self@.author_stats[j].0 == self.author_stats@[j].0);
                    }
                }
                None
            },
        }
    }
}

/// The channels tracked under one server.
pub struct ServerData {
    channels: Vec<(u64, ChannelData)>,
}

#[verifier::ext_equal]
pub struct ServerDataV {
    pub channels: Seq<(u64, ChannelDataV)>,
}

/// The model of a channel table.
pub open spec fn channels_view(s: Seq<(u64, ChannelData)>) -> Seq<(u64, ChannelDataV)> {
    Seq::new(s.len(), |i: int| (s[i].0, s[i].1@))
}

impl View for ServerData {
    type V = ServerDataV;

    closed spec fn view(&self) -> ServerDataV {
        ServerDataV { channels: channels_view(self.channels@) }
    }
}

pub open spec fn sd_empty() -> ServerDataV {
    ServerDataV { channels: Seq::empty() }
}

/// Internal invariant of server data: channel keys unique, channel data
/// well formed.
pub open spec fn sd_wf(sd: ServerDataV) -> bool {
    &&& keys_unique(sd.channels)
    &&& forall|i: int| 0 <= i < sd.channels.len() ==> cd_wf(#[trigger] sd.channels[i].1)
}

/// (channel id, last message id) for each channel that has folded at least
/// one message in.
pub open spec fn with_last(channels: Seq<(u64, ChannelDataV)>) -> Seq<(u64, u64)>
    decreases channels.len(),
{
    if channels.len() == 0 {
        Seq::empty()
    } else {
        let rest = with_last(channels.drop_last());
        match channels.last().1.general_stats.last {
            None => rest,
            Some((mid, ts)) => rest.push((channels.last().0, mid)),
        }
    }
}

/// (channel id, word count) of the given author in each channel that has
/// recorded them.
pub open spec fn user_counts(channels: Seq<(u64, ChannelDataV)>, user_id: u64) -> Seq<(u64, u64)>
    decreases channels.len(),
{
    if channels.len() == 0 {
        Seq::empty()
    } else {
        let rest = user_counts(channels.drop_last(), user_id);
        if has_key(channels.last().1.author_stats, user_id) {
            rest.push(
                (channels.last().0, get_val(channels.last().1.author_stats, user_id).word_count),
            )
        } else {
            rest
        }
    }
}

/// The author's channels ranked by descending word count.
pub open spec fn user_channel_ranking(
    channels: Seq<(u64, ChannelDataV)>,
    user_id: u64,
) -> Seq<(u64, u64)> {
    sort_by_count_asc(user_counts(channels, user_id)).reverse()
}

impl ServerData {
    /// A server with no tracked channels.
    pub fn new() -> (r: Self)
        ensures
            r@ == sd_empty(),
            sd_wf(r@),
    {
        let r = Self { channels: Vec::new() };
        proof {
            assert(r@ =~= sd_empty());
        }
        r
    }

    /// All tracked channel identifiers, in insertion order.
    pub fn get_all_channel_ids(&self) -> (r: Vec<u64>)
        ensures
            r@ == keys_of(self@.channels),
    {
        let mut out: Vec<u64> = Vec::new();
        let mut i: usize = 0;
        while i < self.channels.len()
            invariant
                i <= self.channels.len(),
                self@.channels.len() == self.channels@.len(),
                out@ == keys_of(self@.channels).take(i as int),
            decreases self.channels.len() - i,
        {
            let p = &self.channels[i];
            out.push(p.0);
            proof {
                assert(out@ =~= keys_of(self@.channels).take(i as int + 1));
            }
            i = i + 1;
        }
        proof {
            assert(keys_of(self@.channels).take(self@.channels.len() as int) =~= keys_of(
                self@.channels,
            ));
        }
        out
    }

    /// Each channel that has any message folded in, with the identifier of
    /// its most recent message.
    pub fn channel_ids_with_last_message(&self) -> (r: Vec<(u64, u64)>)
        ensures
            r@ == with_last(self@.channels),
    {
        let mut out: Vec<(u64, u64)> = Vec::new();
        let mut i: usize = 0;
        proof {
            assert(self@.channels.take(0) =~= Seq::<(u64, ChannelDataV)>::empty());
        }
        while i < self.channels.len()
            invariant
                i <= self.channels.len(),
                self@.channels.len() == self.channels@.len(),
                out@ == with_last(self@.channels.take(i as int)),
            decreases self.channels.len() - i,
        {
            let p = &self.channels[i];
            proof {
                assert(self@.channels[i as int] == (p.0, p.1@));
                assert(self@.channels.take(i as int + 1).drop_last() =~= self@.channels.take(
                    i as int,
                ));
                assert(self@.channels.take(i as int + 1).last() == self@.channels[i as int]);
            }
            match p.1.general_stats.last_message() {
                Some(mid) => {
                    out.push((p.0, mid));
                },
                None => {},
            }
            i = i + 1;
        }
        proof {
            assert(self@.channels.take(self@.channels.len() as int) =~= self@.channels);
        }
        out
    }

    /// Inserts channel data, replacing any previous entry for the key.
    pub fn insert(&mut self, channel_id: u64, channel_data: ChannelData)
        ensures
            final(self)@.channels == put_val(old(self)@.channels, channel_id, channel_data@),
            sd_wf(old(self)@) && cd_wf(channel_data@) ==> sd_wf(final(self)@),
    {
        proof {
            lemma_find_key(old(self)@.channels, channel_id);
            if sd_wf(old(self)@) && cd_wf(channel_data@) {
                lemma_put_val_unique(old(self)@.channels, channel_id, channel_data@);
            }
        }
        let ghost pre = self@.channels;
        match find_id_key(&self.channels, channel_id) {
            Some(i) => {
                proof {
                    assert(self@.channels[i as int] == (
                        self.channels@[i as int].0,
                        self.channels@[i as int].1@,
                    ));
                    assert(find_key(pre, channel_id) == i);
                }
                let (cid, _old_data) = self.channels.remove(i);
                self.channels.insert(i, (cid, channel_data));
                proof {
                    assert(self@.channels =~= put_val(pre, channel_id, self.channels@[i as int].1@));
                }
            },
            None => {
                proof {
                    assert forall|j: int| 0 <= j < pre.len() implies (#[trigger] pre[j]).0
                        != channel_id by {
                        assert(pre[j].0 == self.channels@[j].0);
                    }
                    assert(!has_key(pre, channel_id));
                }
                self.channels.push((channel_id, channel_data));
                proof {
                    assert(self@.channels =~= pre.push(
                        (channel_id, self.channels@[self.channels@.len() - 1].1@),
                    ));
                }
            },
        }
        proof {
            if sd_wf(old(self)@) && cd_wf(channel_data@) {
                assert forall|i: int| 0 <= i < final(self)@.channels.len() implies cd_wf(
                    #[trigger] final(self)@.channels[i].1,
                ) by {
                    if has_key(pre, channel_id) {
                        if i != find_key(pre, channel_id) {
                            assert(final(self)@.channels[i] == pre[i]);
                        }
                    } else {
                        if i < pre.len() {
                            assert(final(self)@.channels[i] == pre[i]);
                        }
                    }
                }
            }
        }
    }

    /// The statistics of one channel under this server, if tracked.
    pub fn get_channel(&self, channel_id: u64) -> (r: Option<&ChannelData>)
        ensures
            match r {
                Some(cd) => has_key(self@.channels, channel_id) && cd@ == get_val(
                    self@.channels,
                    channel_id,
                ),
                None => !has_key(self@.channels, channel_id),
            },
    {
        proof {
            lemma_find_key(self@.channels, channel_id);
        }
        match find_id_key(&self.channels, channel_id) {
            Some(i) => {
                proof {
                    assert(self@.channels[i as int] == (
                        self.channels@[i as int].0,
                        self.channels@[i as int].1@,
                    ));
                    assert(find_key(self@.channels, channel_id) == i);
                }
                let p = &self.channels[i];
                Some(&p.1)
            },
            None => {
                proof {
                    assert forall|j: int| 0 <= j < self@.channels.len() implies (
                    #[trigger] self@.channels[j]).0 != channel_id by {
                        assert(self@.channels[j].0 == self.channels@[j].0);
                    }
                }
                None
            },
        }
    }

    /// Folds a message into the channel's statistics when it is tracked.
    fn update_channel(&mut self, channel_id: u64, message: &Message) -> (r: bool)
        requires
            has_key(old(self)@.channels, channel_id) ==> cd_can_update(
                get_val(old(self)@.channels, channel_id),
                message@,
            ),
        ensures
            r == has_key(old(self)@.channels, channel_id),
            final(self)@.channels == (if has_key(old(self)@.channels, channel_id) {
                set_val(
                    old(self)@.channels,
                    channel_id,
                    cd_update(get_val(old(self)@.channels, channel_id), message@),
                )
            } else {
                old(self)@.channels
            }),
            sd_wf(old(self)@) ==> sd_wf(final(self)@),
    {
        proof {
            lemma_find_key(old(self)@.channels, channel_id);
        }
        match find_id_key(&self.channels, channel_id) {
            Some(i) => {
                proof {
                    assert(self@.channels[i as int] == (
                        self.channels@[i as int].0,
                        self.channels@[i as int].1@,
                    ));
                    assert(find_key(old(self)@.channels, channel_id) == i);
                }
                let ghost pre = self@;
                let (cid, mut cd) = self.channels.remove(i);
                cd.update(message);
                self.channels.insert(i, (cid, cd));
                proof {
                    assert(self@.channels =~= set_val(
                        pre.channels,
                        channel_id,
                        cd_update(get_val(pre.channels, channel_id), message@),
                    ));
                    if sd_wf(pre) {
                        lemma_cd_update_wf(get_val(pre.channels, channel_id), message@);
                        lemma_put_val_unique(
                            pre.channels,
                            channel_id,
                            cd_update(get_val(pre.channels, channel_id), message@),
                        );
                        assert forall|l: int| 0 <= l < self@.channels.len() implies cd_wf(
                            #[trigger] self@.channels[l].1,
                        ) by {
                            if l != i {
                                assert(self@.channels[l] == pre.channels[l]);
                            }
                        }
                    }
                }
                true
            },
            None => {
                proof {
                    assert forall|j: int| 0 <= j < old(self)@.channels.len() implies (
                    #[trigger] old(self)@.channels[j]).0 != channel_id by {
                        assert(old(self)@.channels[j].0 == old(self).channels@[j].0);
                    }
                    assert(!has_key(old(self)@.channels, channel_id));
                }
                false
            },
        }
    }

    /// The author's channels, sorted by descending word count.
    pub fn channel_ids_by_wordcount_for_user(&self, user_id: u64) -> (r: Vec<(u64, u64)>)
        ensures
            r@ == user_channel_ranking(self@.channels, user_id),
    {
        let mut counts: Vec<(u64, u64)> = Vec::new();
        let mut i: usize = 0;
        proof {
            assert(self@.channels.take(0) =~= Seq::<(u64, ChannelDataV)>::empty());
        }
        while i < self.channels.len()
            invariant
                i <= self.channels.len(),
                self@.channels.len() == self.channels@.len(),
                counts@ == user_counts(self@.channels.take(i as int), user_id),
            decreases self.channels.len() - i,
        {
            let p = &self.channels[i];
            proof {
                assert(self@.channels[i as int] == (p.0, p.1@));
                assert(self@.channels.take(i as int + 1).drop_last() =~= self@.channels.take(
                    i as int,
                ));
                assert(self@.channels.take(i as int + 1).last() == self@.channels[i as int]);
            }
            match p.1.get_user(user_id) {
                Some(stats) => {
                    let wc = stats.word_count();
                    counts.push((p.0, wc));
                    proof {
                        assert(wc == get_val(p.1@.author_stats, user_id).word_count);
                    }
                },
                None => {},
            }
            i = i + 1;
        }
        proof {
            assert(self@.channels.take(self@.channels.len() as int) =~= self@.channels);
        }
        let sorted = sort_pairs_by_count(counts);
        reverse_pairs(sorted)
    }
}

/// Marker naming the store's slot in a host's shared-state map.
pub struct StoreData;

/// The process-wide root: server table, initialization markers, replay flag
/// and queue.
pub struct Store {
    /// True from boot until `finish_replay` has drained the queue.
    replay_needed: bool,
    /// Messages accepted while `replay_needed`, in arrival order.
    queued_messages_until_replay: Vec<(StoryKey, Message)>,
    /// Keys currently being backfilled.
    pub initialising_channels: Vec<StoryKey>,
    /// Server identifier -> that server's channel tables, keys unique.
    pub data: Vec<(u64, ServerData)>,
}

#[verifier::ext_equal]
pub struct StoreV {
    pub replay_needed: bool,
    pub queued: Seq<(StoryKey, MessageV)>,
    pub initialising: Seq<StoryKey>,
    pub data: Seq<(u64, ServerDataV)>,
}

/// The model of a server table.
pub open spec fn servers_view(s: Seq<(u64, ServerData)>) -> Seq<(u64, ServerDataV)> {
    Seq::new(s.len(), |i: int| (s[i].0, s[i].1@))
}

/// The model of the replay queue.
pub open spec fn queue_view(s: Seq<(StoryKey, Message)>) -> Seq<(StoryKey, MessageV)> {
    Seq::new(s.len(), |i: int| (s[i].0, s[i].1@))
}

impl View for Store {
    type V = StoreV;

    closed spec fn view(&self) -> StoreV {
        StoreV {
            replay_needed: self.replay_needed,
            queued: queue_view(self.queued_messages_until_replay@),
            initialising: self.initialising_channels@,
            data: servers_view(self.data@),
        }
    }
}

pub open spec fn store_empty() -> StoreV {
    StoreV {
        replay_needed: true,
        queued: Seq::empty(),
        initialising: Seq::empty(),
        data: Seq::empty(),
    }
}

/// Internal invariant of the aggregate tree: unique keys at every level,
/// well-formed statistics.
pub open spec fn data_wf(data: Seq<(u64, ServerDataV)>) -> bool {
    &&& keys_unique(data)
    &&& forall|i: int| 0 <= i < data.len() ==> sd_wf(#[trigger] data[i].1)
}

/// Internal invariant of the whole store.
pub open spec fn store_wf(s: StoreV) -> bool {
    &&& data_wf(s.data)
    &&& forall|i: int, j: int| 0 <= i < j < s.initialising.len() ==> s.initialising[i]
        != s.initialising[j]
}

/// True when `key` has committed channel data.
pub open spec fn store_has_channel(data: Seq<(u64, ServerDataV)>, key: StoryKey) -> bool {
    has_key(data, key.0) && has_key(get_val(data, key.0).channels, key.1)
}

/// The channel data at `key`; meaningful under `store_has_channel`.
pub open spec fn store_channel(data: Seq<(u64, ServerDataV)>, key: StoryKey) -> ChannelDataV {
    get_val(get_val(data, key.0).channels, key.1)
}

/// No counter overflows when `m` is folded at `key` (vacuous when the key is
/// not tracked: the fold is then dropped).
pub open spec fn store_can_fold(data: Seq<(u64, ServerDataV)>, key: StoryKey, m: MessageV) -> bool {
    store_has_channel(data, key) ==> cd_can_update(store_channel(data, key), m)
}

/// `m` folded into the channel at `key`; the tree is unchanged when the key
/// is not tracked.
pub open spec fn store_fold(data: Seq<(u64, ServerDataV)>, key: StoryKey, m: MessageV) -> Seq<
    (u64, ServerDataV),
> {
    if store_has_channel(data, key) {
        let sd = get_val(data, key.0);
        set_val(
            data,
            key.0,
            ServerDataV {
                channels: set_val(sd.channels, key.1, cd_update(get_val(sd.channels, key.1), m)),
            },
        )
    } else {
        data
    }
}

/// Channel data committed at `key`, the server entry created when absent.
pub open spec fn store_put_channel(
    data: Seq<(u64, ServerDataV)>,
    key: StoryKey,
    cd: ChannelDataV,
) -> Seq<(u64, ServerDataV)> {
    if has_key(data, key.0) {
        set_val(
            data,
            key.0,
            ServerDataV { channels: put_val(get_val(data, key.0).channels, key.1, cd) },
        )
    } else {
        data.push((key.0, ServerDataV { channels: seq![(key.1, cd)] }))
    }
}

/// The queued entries folded in FIFO order; entries for untracked keys are
/// dropped.
pub open spec fn apply_queued(
    data: Seq<(u64, ServerDataV)>,
    q: Seq<(StoryKey, MessageV)>,
) -> Seq<(u64, ServerDataV)>
    decreases q.len(),
{
    if q.len() == 0 {
        data
    } else {
        apply_queued(store_fold(data, q[0].0, q[0].1), q.drop_first())
    }
}

/// No counter overflows anywhere while the queue is folded in order.
pub open spec fn queued_fits(data: Seq<(u64, ServerDataV)>, q: Seq<(StoryKey, MessageV)>) -> bool
    decreases q.len(),
{
    q.len() == 0 || (store_can_fold(data, q[0].0, q[0].1) && queued_fits(
        store_fold(data, q[0].0, q[0].1),
        q.drop_first(),
    ))
}

proof fn lemma_apply_queued_take(
    data: Seq<(u64, ServerDataV)>,
    q: Seq<(StoryKey, MessageV)>,
    i: int,
)
    requires
        0 <= i < q.len(),
    ensures
        apply_queued(data, q.take(i + 1)) == store_fold(
            apply_queued(data, q.take(i)),
            q[i].0,
            q[i].1,
        ),
    decreases i,
{
    if i == 0 {
        let q1 = q.take(1);
        assert(q1.len() == 1);
        assert(q1[0] == q[0]);
        assert(q1.drop_first() =~= Seq::<(StoryKey, MessageV)>::empty());
        assert(apply_queued(data, q1) == apply_queued(store_fold(data, q1[0].0, q1[0].1),
            q1.drop_first()));
        assert(q.take(0) =~= Seq::<(StoryKey, MessageV)>::empty());
        assert(apply_queued(data, q.take(0)) == data);
    } else {
        let d = q.drop_first();
        assert(q.take(i + 1).len() > 0);
        assert(q.take(i + 1)[0] == q[0]);
        assert(q.take(i + 1).drop_first() =~= d.take(i));
        assert(apply_queued(data, q.take(i + 1)) == apply_queued(
            store_fold(data, q[0].0, q[0].1),
            d.take(i),
        ));
        assert(q.take(i).len() > 0);
        assert(q.take(i)[0] == q[0]);
        assert(q.take(i).drop_first() =~= d.take(i - 1));
        assert(apply_queued(data, q.take(i)) == apply_queued(
            store_fold(data, q[0].0, q[0].1),
            d.take(i - 1),
        ));
        lemma_apply_queued_take(store_fold(data, q[0].0, q[0].1), d, i - 1);
        assert(d[i - 1] == q[i]);
    }
}

/// Law: a drained queue folds left to right — splitting the queue anywhere
/// and draining the parts in order gives the same tree.
pub proof fn lemma_apply_queued_append(
    data: Seq<(u64, ServerDataV)>,
    q1: Seq<(StoryKey, MessageV)>,
    q2: Seq<(StoryKey, MessageV)>,
)
    ensures
        apply_queued(data, q1 + q2) == apply_queued(apply_queued(data, q1), q2),
    decreases q1.len(),
{
    if q1.len() == 0 {
        assert(q1 + q2 =~= q2);
    } else {
        assert((q1 + q2).len() > 0);
        assert((q1 + q2)[0] == q1[0]);
        assert((q1 + q2).drop_first() =~= q1.drop_first() + q2);
        lemma_apply_queued_append(store_fold(data, q1[0].0, q1[0].1), q1.drop_first(), q2);
    }
}

/// `s` with the first occurrence of `k` removed.
pub open spec fn remove_first(s: Seq<StoryKey>, k: StoryKey) -> Seq<StoryKey>
    decreases s.len(),
{
    if s.len() == 0 {
        s
    } else if s[0] == k {
        s.drop_first()
    } else {
        seq![s[0]] + remove_first(s.drop_first(), k)
    }
}

proof fn lemma_remove_first_at(s: Seq<StoryKey>, k: StoryKey, i: int)
    requires
        0 <= i < s.len(),
        s[i] == k,
        forall|l: int| 0 <= l < i ==> s[l] != k,
    ensures
        remove_first(s, k) == s.remove(i),
    decreases i,
{
    if i == 0 {
        assert(s.drop_first() =~= s.remove(0));
    } else {
        lemma_remove_first_at(s.drop_first(), k, i - 1);
        assert(seq![s[0]] + s.drop_first().remove(i - 1) =~= s.remove(i));
    }
}

proof fn lemma_remove_first_absent(s: Seq<StoryKey>, k: StoryKey)
    requires
        forall|l: int| 0 <= l < s.len() ==> s[l] != k,
    ensures
        remove_first(s, k) == s,
    decreases s.len(),
{
    if s.len() > 0 {
        lemma_remove_first_absent(s.drop_first(), k);
        assert(seq![s[0]] + s.drop_first() =~= s);
    }
}

/// What `begin_initialization` does: refused for a committed or in-progress
/// key, otherwise the key is marked in progress.
pub open spec fn spec_begin(s: StoreV, k: StoryKey) -> (StoreV, Result<(), InitError>) {
    if store_has_channel(s.data, k) {
        (s, Err(InitError::AlreadyInitialised))
    } else if s.initialising.contains(k) {
        (s, Err(InitError::AlreadyInitialising))
    } else {
        (StoreV { initialising: s.initialising.push(k), ..s }, Ok(()))
    }
}

/// What `insert_channel_data_maybe_create_server_data` does: the data is
/// committed and the in-progress marker cleared.
pub open spec fn spec_commit(s: StoreV, k: StoryKey, cd: ChannelDataV) -> StoreV {
    StoreV {
        data: store_put_channel(s.data, k, cd),
        initialising: remove_first(s.initialising, k),
        ..s
    }
}

/// What a direct fold does to the store.
pub open spec fn spec_fold(s: StoreV, k: StoryKey, m: MessageV) -> StoreV {
    StoreV { data: store_fold(s.data, k, m), ..s }
}

/// What `process_message` does: queued verbatim while replay is pending,
/// folded directly once the store is live.
pub open spec fn spec_process(s: StoreV, k: StoryKey, m: MessageV) -> StoreV {
    if s.replay_needed {
        StoreV { queued: s.queued.push((k, m)), ..s }
    } else {
        spec_fold(s, k, m)
    }
}

/// What `finish_replay` does: the queue folded in FIFO order, then cleared,
/// and the store made live.
pub open spec fn spec_finish(s: StoreV) -> StoreV {
    StoreV {
        data: apply_queued(s.data, s.queued),
        queued: Seq::empty(),
        replay_needed: false,
        ..s
    }
}

/// A run of messages accepted while the replay is pending, in order.
pub open spec fn spec_process_all(s: StoreV, entries: Seq<(StoryKey, MessageV)>) -> StoreV
    decreases entries.len(),
{
    if entries.len() == 0 {
        s
    } else {
        spec_process_all(spec_process(s, entries[0].0, entries[0].1), entries.drop_first())
    }
}

/// Law (replay gating): while the replay is pending, accepted messages touch
/// no aggregate — they only extend the queue, in arrival order — and
/// `finish_replay` then folds the whole queue in FIFO order, exactly once.
pub proof fn lemma_replay_gating(s: StoreV, entries: Seq<(StoryKey, MessageV)>)
    requires
        s.replay_needed,
    ensures
        spec_process_all(s, entries).data == s.data,
        spec_process_all(s, entries).replay_needed,
        spec_process_all(s, entries).queued == s.queued + entries,
        spec_finish(spec_process_all(s, entries)).data == apply_queued(s.data, s.queued + entries),
    decreases entries.len(),
{
    if entries.len() == 0 {
        assert(s.queued + entries =~= s.queued);
    } else {
        let s1 = spec_process(s, entries[0].0, entries[0].1);
        lemma_replay_gating(s1, entries.drop_first());
        assert(s1.queued + entries.drop_first() =~= s.queued + entries);
    }
}

/// Law (initialization mutual exclusion): of two competing
/// `begin_initialization` attempts for the same fresh key, the first
/// succeeds and the second is refused as already in progress.
pub proof fn lemma_begin_initialization_exclusive(s: StoreV, k: StoryKey)
    requires
        !store_has_channel(s.data, k),
        !s.initialising.contains(k),
    ensures
        spec_begin(s, k).1 == Ok::<(), InitError>(()),
        spec_begin(spec_begin(s, k).0, k).1 == Err::<(), InitError>(
            InitError::AlreadyInitialising,
        ),
{
    let s1 = spec_begin(s, k).0;
    assert(s1.initialising[s.initialising.len() as int] == k);
    assert(s1.initialising.contains(k));
}

/// Folding one message preserves the tree invariant.
pub proof fn lemma_store_fold_wf(data: Seq<(u64, ServerDataV)>, key: StoryKey, m: MessageV)
    requires
        data_wf(data),
    ensures
        data_wf(store_fold(data, key, m)),
{
    if store_has_channel(data, key) {
        let sd = get_val(data, key.0);
        lemma_find_key(data, key.0);
        lemma_find_key(sd.channels, key.1);
        lemma_cd_update_wf(get_val(sd.channels, key.1), m);
        let cd1 = cd_update(get_val(sd.channels, key.1), m);
        let sd1 = ServerDataV { channels: set_val(sd.channels, key.1, cd1) };
        lemma_put_val_unique(sd.channels, key.1, cd1);
        assert(sd_wf(sd1)) by {
            assert forall|l: int| 0 <= l < sd1.channels.len() implies cd_wf(
                #[trigger] sd1.channels[l].1,
            ) by {
                if l != find_key(sd.channels, key.1) {
                    assert(sd1.channels[l] == sd.channels[l]);
                }
            }
        }
        lemma_put_val_unique(data, key.0, sd1);
        let after = store_fold(data, key, m);
        assert forall|l: int| 0 <= l < after.len() implies sd_wf(#[trigger] after[l].1) by {
            if l != find_key(data, key.0) {
                assert(after[l] == data[l]);
            }
        }
    }
}

/// Committing channel data preserves the tree invariant.
pub proof fn lemma_store_put_wf(data: Seq<(u64, ServerDataV)>, key: StoryKey, cd: ChannelDataV)
    requires
        data_wf(data),
        cd_wf(cd),
    ensures
        data_wf(store_put_channel(data, key, cd)),
{
    let after = store_put_channel(data, key, cd);
    lemma_find_key(data, key.0);
    if has_key(data, key.0) {
        let sd = get_val(data, key.0);
        let sd1 = ServerDataV { channels: put_val(sd.channels, key.1, cd) };
        lemma_find_key(sd.channels, key.1);
        lemma_put_val_unique(sd.channels, key.1, cd);
        assert(sd_wf(sd1)) by {
            assert forall|l: int| 0 <= l < sd1.channels.len() implies cd_wf(
                #[trigger] sd1.channels[l].1,
            ) by {
                if has_key(sd.channels, key.1) {
                    if l != find_key(sd.channels, key.1) {
                        assert(sd1.channels[l] == sd.channels[l]);
                    }
                } else {
                    if l < sd.channels.len() {
                        assert(sd1.channels[l] == sd.channels[l]);
                    }
                }
            }
        }
        lemma_put_val_unique(data, key.0, sd1);
        assert forall|l: int| 0 <= l < after.len() implies sd_wf(#[trigger] after[l].1) by {
            if l != find_key(data, key.0) {
                assert(after[l] == data[l]);
            }
        }
    } else {
        let sd1 = ServerDataV { channels: seq![(key.1, cd)] };
        assert(sd_wf(sd1));
        lemma_put_val_unique(data, key.0, sd1);
        assert(after == put_val(data, key.0, sd1));
        assert forall|l: int| 0 <= l < after.len() implies sd_wf(#[trigger] after[l].1) by {
            if l < data.len() {
                assert(after[l] == data[l]);
            }
        }
    }
}

/// Compares two story keys.
pub fn key_eq(a: &StoryKey, b: &StoryKey) -> (r: bool)
    ensures
        r == (*a == *b),
{
    a.0 == b.0 && a.1 == b.1
}

/// First occurrence of `k` in a key list.
fn find_story_key(v: &Vec<StoryKey>, k: &StoryKey) -> (r: Option<usize>)
    ensures
        match r {
            Some(i) => {
                &&& i < v@.len()
                &&& v@[i as int] == *k
                &&& forall|j: int| 0 <= j < i ==> v@[j] != *k
            },
            None => forall|j: int| 0 <= j < v@.len() ==> v@[j] != *k,
        },
{
    let mut i: usize = 0;
    while i < v.len()
        invariant
            i <= v.len(),
            forall|j: int| 0 <= j < i ==> v@[j] != *k,
        decreases v.len() - i,
    {
        if key_eq(&v[i], k) {
            return Some(i);
        }
        i = i + 1;
    }
    None
}

impl Default for Store {
    /// A store with no data that still owes one replay pass.
    fn default() -> (r: Self)
        ensures
            r@ == store_empty(),
            store_wf(r@),
    {
        Store::new()
    }
}

impl Store {
    /// A store with no data; `replay_needed` starts true and is cleared
    /// exactly once, by `finish_replay`.
    pub fn new() -> (r: Self)
        ensures
            r@ == store_empty(),
            store_wf(r@),
    {
        let r = Store {
            replay_needed: true,
            queued_messages_until_replay: Vec::new(),
            initialising_channels: Vec::new(),
            data: Vec::new(),
        };
        proof {
            assert(r@ =~= store_empty());
        }
        r
    }

    /// True while the one-time startup replay is still owed.
    pub fn replay_needed(&self) -> (r: bool)
        ensures
            r == self@.replay_needed,
    {
        self.replay_needed
    }

    /// The server's data, if any channel under it was ever committed.
    pub fn get_server_data(&self, server_id: u64) -> (r: Option<&ServerData>)
        ensures
            match r {
                Some(sd) => has_key(self@.data, server_id) && sd@ == get_val(
                    self@.data,
                    server_id,
                ),
                None => !has_key(self@.data, server_id),
            },
    {
        proof {
            lemma_find_key(self@.data, server_id);
        }
        match find_id_key(&self.data, server_id) {
            Some(i) => {
                proof {
                    assert(self@.data[i as int] == (self.data@[i as int].0, self.data@[i as int].1@));
                    assert(find_key(self@.data, server_id) == i);
                }
                let p = &self.data[i];
                Some(&p.1)
            },
            None => {
                proof {
                    assert forall|j: int| 0 <= j < self@.data.len() implies (
                    #[trigger] self@.data[j]).0 != server_id by {
                        assert(self@.data[j].0 == self.data@[j].0);
                    }
                }
                None
            },
        }
    }

    /// The channel data at `story_key`, if committed.
    pub fn get_channel_data(&self, story_key: &StoryKey) -> (r: Option<&ChannelData>)
        ensures
            match r {
                Some(cd) => store_has_channel(self@.data, *story_key) && cd@ == store_channel(
                    self@.data,
                    *story_key,
                ),
                None => !store_has_channel(self@.data, *story_key),
            },
    {
        match self.get_server_data(story_key.0) {
            Some(sd) => sd.get_channel(story_key.1),
            None => None,
        }
    }

    /// Pure read: does `story_key` have committed channel data?
    pub fn channel_data_exists(&self, story_key: &StoryKey) -> (r: bool)
        ensures
            r == store_has_channel(self@.data, *story_key),
    {
        match self.get_channel_data(story_key) {
            Some(_) => true,
            None => false,
        }
    }

    /// Pure read: is `story_key` currently being backfilled?
    pub fn is_initialising(&self, story_key: &StoryKey) -> (r: bool)
        ensures
            r == self@.initialising.contains(*story_key),
    {
        match find_story_key(&self.initialising_channels, story_key) {
            Some(_) => true,
            None => {
                proof {
                    assert(!self@.initialising.contains(*story_key));
                }
                false
            },
        }
    }

    /// Marks `story_key` as being backfilled; refused when it is already
    /// being backfilled or already has data. Exactly one of two competing
    /// calls for the same key can succeed.
    pub fn begin_initialization(&mut self, story_key: &StoryKey) -> (r: Result<(), InitError>)
        ensures
            (final(self)@, r) == spec_begin(old(self)@, *story_key),
            store_wf(old(self)@) ==> store_wf(final(self)@),
    {
        if self.channel_data_exists(story_key) {
            Err(InitError::AlreadyInitialised)
        } else if self.is_initialising(story_key) {
            Err(InitError::AlreadyInitialising)
        } else {
            let ghost pre = self@;
            self.initialising_channels.push(*story_key);
            proof {
                assert(self@ =~= (StoreV { initialising: pre.initialising.push(*story_key), ..pre }));
                if store_wf(pre) {
                    let after = self@.initialising;
                    assert forall|i: int, j: int| 0 <= i < j < after.len() implies after[i]
                        != after[j] by {
                        if j == after.len() - 1 {
                            assert(!pre.initialising.contains(*story_key));
                            assert(pre.initialising[i] == after[i]);
                        }
                    }
                }
            }
            Ok(())
        }
    }

    /// Rolls the in-progress marker back after a failed backfill attempt, so
    /// that initialization can be retried.
    pub fn abort_initialization(&mut self, story_key: &StoryKey)
        ensures
            final(self)@ == (StoreV {
                initialising: remove_first(old(self)@.initialising, *story_key),
                ..old(self)@
            }),
            store_wf(old(self)@) ==> store_wf(final(self)@),
    {
        let ghost pre = self@;
        match find_story_key(&self.initialising_channels, story_key) {
            Some(i) => {
                self.initialising_channels.remove(i);
                proof {
                    lemma_remove_first_at(pre.initialising, *story_key, i as int);
                    assert(self@ =~= (StoreV {
                        initialising: remove_first(pre.initialising, *story_key),
                        ..pre
                    }));
                    if store_wf(pre) {
                        let after = self@.initialising;
                        assert forall|l: int, j: int| 0 <= l < j < after.len() implies after[l]
                            != after[j] by {
                            let li = if l < i as int { l } else { l + 1 };
                            let ji = if j < i as int { j } else { j + 1 };
                            assert(after[l] == pre.initialising[li]);
                            assert(after[j] == pre.initialising[ji]);
                        }
                    }
                }
            },
            None => {
                proof {
                    lemma_remove_first_absent(pre.initialising, *story_key);
                    assert(self@ =~= (StoreV {
                        initialising: remove_first(pre.initialising, *story_key),
                        ..pre
                    }));
                }
            },
        }
    }

    /// Commits channel data for `story_key`, creating the server entry when
    /// absent, and clears the in-progress marker.
    pub fn insert_channel_data_maybe_create_server_data(
        &mut self,
        story_key: &StoryKey,
        channel_data: ChannelData,
    )
        ensures
            final(self)@ == spec_commit(old(self)@, *story_key, channel_data@),
            store_wf(old(self)@) && cd_wf(channel_data@) ==> store_wf(final(self)@),
    {
        let ghost pre = self@;
        let ghost cdv = channel_data@;
        proof {
            lemma_find_key(pre.data, story_key.0);
            if store_wf(pre) && cd_wf(cdv) {
                lemma_store_put_wf(pre.data, *story_key, cdv);
            }
        }
        match find_id_key(&self.data, story_key.0) {
            Some(i) => {
                proof {
                    assert(self@.data[i as int] == (self.data@[i as int].0, self.data@[i as int].1@));
                    assert(find_key(pre.data, story_key.0) == i);
                }
                let (sid, mut sd) = self.data.remove(i);
                sd.insert(story_key.1, channel_data);
                self.data.insert(i, (sid, sd));
                proof {
                    assert(self@.data =~= store_put_channel(pre.data, *story_key, cdv));
                }
            },
            None => {
                proof {
                    assert forall|j: int| 0 <= j < pre.data.len() implies (
                    #[trigger] pre.data[j]).0 != story_key.0 by {
                        assert(pre.data[j].0 == self.data@[j].0);
                    }
                    assert(!has_key(pre.data, story_key.0));
                }
                let mut sd = ServerData::new();
                sd.insert(story_key.1, channel_data);
                self.data.push((story_key.0, sd));
                proof {
                    assert(sd@.channels =~= seq![(story_key.1, cdv)]);
                    assert(self@.data =~= store_put_channel(pre.data, *story_key, cdv));
                }
            },
        }
        self.abort_initialization(story_key);
        proof {
            assert(self@ =~= spec_commit(pre, *story_key, cdv));
        }
    }

    /// Folds `message` into the channel at `story_key` right now; the update
    /// for an untracked key is silently dropped.
    pub fn fold_message(&mut self, story_key: &StoryKey, message: &Message) -> (r: bool)
        requires
            store_can_fold(old(self)@.data, *story_key, message@),
        ensures
            r == store_has_channel(old(self)@.data, *story_key),
            final(self)@ == spec_fold(old(self)@, *story_key, message@),
            store_wf(old(self)@) ==> store_wf(final(self)@),
    {
        let ghost pre = self@;
        proof {
            lemma_find_key(pre.data, story_key.0);
            if store_wf(pre) {
                lemma_store_fold_wf(pre.data, *story_key, message@);
            }
        }
        match find_id_key(&self.data, story_key.0) {
            Some(i) => {
                proof {
                    assert(self@.data[i as int] == (self.data@[i as int].0, self.data@[i as int].1@));
                    assert(find_key(pre.data, story_key.0) == i);
                }
                let (sid, mut sd) = self.data.remove(i);
                let hit = sd.update_channel(story_key.1, message);
                self.data.insert(i, (sid, sd));
                proof {
                    if hit {
                        assert(self@.data =~= store_fold(pre.data, *story_key, message@));
                    } else {
                        assert(!store_has_channel(pre.data, *story_key));
                        assert(self@.data =~= pre.data);
                    }
                    assert(self@ =~= spec_fold(pre, *story_key, message@));
                }
                hit
            },
            None => {
                proof {
                    assert forall|j: int| 0 <= j < pre.data.len() implies (
                    #[trigger] pre.data[j]).0 != story_key.0 by {
                        assert(pre.data[j].0 == self.data@[j].0);
                    }
                    assert(!has_key(pre.data, story_key.0));
                    assert(!store_has_channel(pre.data, *story_key));
                    assert(self@ =~= spec_fold(pre, *story_key, message@));
                }
                false
            },
        }
    }

    /// True when folding `message` at `story_key` right now cannot overflow
    /// any counter.
    pub fn can_fold(&self, story_key: &StoryKey, message: &Message) -> (r: bool)
        ensures
            r == store_can_fold(self@.data, *story_key, message@),
    {
        match self.get_channel_data(story_key) {
            Some(cd) => cd.can_update(message),
            None => true,
        }
    }

    /// True when `process_message` can accept `message` for `story_key`: a
    /// pending replay queues anything; a live store must be able to fold it.
    pub fn can_process(&self, story_key: &StoryKey, message: &Message) -> (r: bool)
        ensures
            r == (self@.replay_needed || store_can_fold(self@.data, *story_key, message@)),
    {
        if self.replay_needed {
            true
        } else {
            self.can_fold(story_key, message)
        }
    }

    /// True when draining the whole replay queue cannot overflow any counter,
    /// decided by a dry run on a scratch copy of the tree rebuilt through the
    /// snapshot codec.
    pub fn replay_fits(&self) -> (r: bool)
        ensures
            r == queued_fits(self@.data, self@.queued),
    {
        let bytes = self.snapshot();
        proof {
            lemma_store_snapshot_restore(self@);
        }
        let mut scratch = match Store::restore(&bytes) {
            Ok(s) => s,
            Err(_) => {
                proof {
                    assert(false);
                }
                unreached()
            },
        };
        let ghost q = self@.queued;
        let mut j: usize = 0;
        proof {
            assert(q.take(0) =~= Seq::<(StoryKey, MessageV)>::empty());
            assert(q.skip(0) =~= q);
        }
        while j < self.queued_messages_until_replay.len()
            invariant
                j <= self.queued_messages_until_replay.len(),
                q == self@.queued,
                q.len() == self.queued_messages_until_replay@.len(),
                scratch@.data == apply_queued(self@.data, q.take(j as int)),
                queued_fits(self@.data, q) == queued_fits(scratch@.data, q.skip(j as int)),
            decreases self.queued_messages_until_replay.len() - j,
        {
            let p = &self.queued_messages_until_replay[j];
            proof {
                assert(q[j as int] == (p.0, p.1@));
                assert(q.skip(j as int).len() > 0);
                assert(q.skip(j as int)[0] == q[j as int]);
                assert(q.skip(j as int).drop_first() =~= q.skip(j as int + 1));
            }
            if !scratch.can_fold(&p.0, &p.1) {
                return false;
            }
            proof {
                lemma_apply_queued_take(self@.data, q, j as int);
            }
            scratch.fold_message(&p.0, &p.1);
            j = j + 1;
        }
        proof {
            assert(q.skip(q.len() as int) =~= Seq::<(StoryKey, MessageV)>::empty());
        }
        true
    }

    /// Drains the replay queue in FIFO order, folding each entry through the
    /// same per-channel path as a live fold (entries for untracked keys are
    /// dropped), then marks the store live.
    pub fn finish_replay(&mut self)
        requires
            queued_fits(old(self)@.data, old(self)@.queued),
        ensures
            final(self)@ == spec_finish(old(self)@),
            store_wf(old(self)@) ==> store_wf(final(self)@),
    {
        let ghost pre = self@;
        let mut queue: Vec<(StoryKey, Message)> = Vec::new();
        core::mem::swap(&mut queue, &mut self.queued_messages_until_replay);
        proof {
            assert(queue_view(queue@) =~= pre.queued);
            assert(self@.queued =~= Seq::<(StoryKey, MessageV)>::empty());
            assert(pre.queued.take(0) =~= Seq::<(StoryKey, MessageV)>::empty());
            assert(pre.queued.skip(0) =~= pre.queued);
        }
        let mut j: usize = 0;
        while j < queue.len()
            invariant
                j <= queue.len(),
                queue_view(queue@) == pre.queued,
                queue@.len() == pre.queued.len(),
                self@.replay_needed == pre.replay_needed,
                self@.initialising == pre.initialising,
                self@.queued == Seq::<(StoryKey, MessageV)>::empty(),
                self@.data == apply_queued(pre.data, pre.queued.take(j as int)),
                queued_fits(self@.data, pre.queued.skip(j as int)),
                store_wf(pre) ==> data_wf(self@.data),
            decreases queue.len() - j,
        {
            let p = &queue[j];
            let ghost cur = self@;
            proof {
                assert(pre.queued[j as int] == (p.0, p.1@));
                assert(pre.queued.skip(j as int).len() > 0);
                assert(pre.queued.skip(j as int)[0] == pre.queued[j as int]);
                assert(pre.queued.skip(j as int).drop_first() =~= pre.queued.skip(j as int + 1));
                lemma_apply_queued_take(pre.data, pre.queued, j as int);
                if store_wf(pre) {
                    lemma_store_fold_wf(cur.data, p.0, p.1@);
                }
            }
            self.fold_message(&p.0, &p.1);
            j = j + 1;
        }
        proof {
            assert(pre.queued.take(pre.queued.len() as int) =~= pre.queued);
        }
        self.replay_needed = false;
        proof {
            assert(self@ =~= spec_finish(pre));
            if store_wf(pre) {
                assert(store_wf(self@));
            }
        }
    }

    /// Accepts one live message: queued verbatim while the startup replay is
    /// pending (whether or not the key is tracked), folded directly once the
    /// store is live.
    pub fn process_message(&mut self, story_key: &StoryKey, message: Message)
        requires
            !old(self)@.replay_needed ==> store_can_fold(old(self)@.data, *story_key, message@),
        ensures
            final(self)@ == spec_process(old(self)@, *story_key, message@),
            store_wf(old(self)@) ==> store_wf(final(self)@),
    {
        let ghost pre = self@;
        if self.replay_needed {
            self.queued_messages_until_replay.push((*story_key, message));
            proof {
                assert(self@.queued =~= pre.queued.push((*story_key, message@)));
                assert(self@ =~= spec_process(pre, *story_key, message@));
            }
        } else {
            self.fold_message(story_key, &message);
        }
    }

    /// All tracked channel identifiers of one server; empty when the server
    /// is unknown.
    pub fn get_all_channels_in_server(&self, target_server_id: u64) -> (r: Vec<u64>)
        ensures
            r@ == (if has_key(self@.data, target_server_id) {
                keys_of(get_val(self@.data, target_server_id).channels)
            } else {
                Seq::<u64>::empty()
            }),
    {
        match self.get_server_data(target_server_id) {
            Some(server) => server.get_all_channel_ids(),
            None => Vec::new(),
        }
    }

    /// The server identifiers with any tracked channel, ascending, without
    /// duplicates.
    pub fn get_unique_server_ids(&self) -> (r: Vec<u64>)
        ensures
            r@ == dedup_adjacent(sort_ids_asc(keys_of(self@.data))),
    {
        let mut guild_ids: Vec<u64> = Vec::new();
        let mut i: usize = 0;
        while i < self.data.len()
            invariant
                i <= self.data.len(),
                self@.data.len() == self.data@.len(),
                guild_ids@ == keys_of(self@.data).take(i as int),
            decreases self.data.len() - i,
        {
            let p = &self.data[i];
            guild_ids.push(p.0);
            proof {
                assert(guild_ids@ =~= keys_of(self@.data).take(i as int + 1));
            }
            i = i + 1;
        }
        proof {
            assert(keys_of(self@.data).take(self@.data.len() as int) =~= keys_of(self@.data));
        }
        let sorted = sort_ids(guild_ids);
        dedup_ids(&sorted)
    }

    /// Every tracked key that has folded at least one message in, with the
    /// identifier of its most recent message.
    pub fn story_keys_with_last_message(&self) -> (r: Vec<(StoryKey, u64)>)
        ensures
            r@ == story_keys_spec(self@.data),
    {
        let mut out: Vec<(StoryKey, u64)> = Vec::new();
        let mut i: usize = 0;
        proof {
            assert(self@.data.take(0) =~= Seq::<(u64, ServerDataV)>::empty());
        }
        while i < self.data.len()
            invariant
                i <= self.data.len(),
                self@.data.len() == self.data@.len(),
                out@ == story_keys_spec(self@.data.take(i as int)),
            decreases self.data.len() - i,
        {
            let p = &self.data[i];
            let ghost sid = p.0;
            let ghost chs = p.1@.channels;
            proof {
                assert(self@.data[i as int] == (p.0, p.1@));
                assert(self@.data.take(i as int + 1).drop_last() =~= self@.data.take(i as int));
                assert(self@.data.take(i as int + 1).last() == self@.data[i as int]);
            }
            let pairs = p.1.channel_ids_with_last_message();
            let mut j: usize = 0;
            while j < pairs.len()
                invariant
                    j <= pairs.len(),
                    sid == p.0,
                    chs == p.1@.channels,
                    pairs@ == with_last(chs),
                    out@ == story_keys_spec(self@.data.take(i as int)) + server_story_keys(
                        sid,
                        chs,
                    ).take(j as int),
                decreases pairs.len() - j,
            {
                let q = &pairs[j];
                out.push(((p.0, q.0), q.1));
                proof {
                    assert(server_story_keys(sid, chs)[j as int] == ((sid, q.0), q.1));
                    assert(out@ =~= story_keys_spec(self@.data.take(i as int)) + server_story_keys(
                        sid,
                        chs,
                    ).take(j as int + 1));
                }
                j = j + 1;
            }
            proof {
                assert(server_story_keys(sid, chs).take(server_story_keys(sid, chs).len() as int)
                    =~= server_story_keys(sid, chs));
                assert(out@ == story_keys_spec(self@.data.take(i as int + 1)));
            }
            i = i + 1;
        }
        proof {
            assert(self@.data.take(self@.data.len() as int) =~= self@.data);
        }
        out
    }
}

/// Errors of `Store::restore`: the snapshot bytes are corrupt.
#[derive(Debug, PartialEq, Eq, Structural, Clone, Copy)]
pub enum SnapshotError {
    /// The bytes do not decode as an aggregate tree.
    Malformed,
    /// Bytes remain after a complete tree.
    TrailingData,
}

impl ChannelData {
    /// Appends this channel's snapshot encoding.
    pub fn encode_into(&self, out: &mut Vec<u8>)
        ensures
            final(out)@ == old(out)@ + enc_cd(self@),
            cd_ok(self@),
    {
        let ghost pre = out@;
        let ghost authors = self@.author_stats;
        enc_u64_into(out, self.author_stats.len() as u64);
        proof {
            assert(authors.len() == self.author_stats@.len());
            assert(authors.skip(0) =~= authors);
            assert(out@ + enc_authors(authors.skip(0)) =~= pre + enc_u64(authors.len() as u64)
                + enc_authors(authors));
        }
        let mut i: usize = 0;
        while i < self.author_stats.len()
            invariant
                i <= self.author_stats.len(),
                authors == self@.author_stats,
                authors.len() == self.author_stats@.len(),
                out@ + enc_authors(authors.skip(i as int)) == pre + enc_u64(authors.len() as u64)
                    + enc_authors(authors),
                forall|j: int| 0 <= j < i ==> ws_ok((#[trigger] authors[j]).1),
            decreases self.author_stats.len() - i,
        {
            let ghost o0 = out@;
            let pa = &self.author_stats[i];
            proof {
                assert(authors[i as int] == (pa.0, pa.1@));
            }
            enc_u64_into(out, pa.0);
            pa.1.encode_into(out);
            proof {
                assert(authors.skip(i as int)[0] == authors[i as int]);
                assert(authors.skip(i as int).drop_first() =~= authors.skip(i as int + 1));
                assert(out@ + enc_authors(authors.skip(i as int + 1)) =~= o0 + enc_authors(
                    authors.skip(i as int),
                ));
            }
            i = i + 1;
        }
        proof {
            assert(authors.skip(authors.len() as int) =~= Seq::<(u64, WordStatsV)>::empty());
            assert(out@ + enc_authors(Seq::<(u64, WordStatsV)>::empty()) =~= out@);
        }
        self.general_stats.encode_into(out);
        proof {
            assert(out@ =~= pre + enc_cd(self@));
        }
    }

    /// Decodes one channel's statistics at `pos`.
    pub fn decode_at(bytes: &Vec<u8>, pos: usize) -> (r: Option<(ChannelData, usize)>)
        requires
            pos <= bytes@.len(),
        ensures
            match r {
                Some((cd, p2)) => pos <= p2 <= bytes@.len() && dec_cd(bytes@.skip(pos as int))
                    == Some((cd@, bytes@.skip(p2 as int))),
                None => dec_cd(bytes@.skip(pos as int)) is None,
            },
    {
        let (n, p1) = match dec_u64_at(bytes, pos) {
            Some(v) => v,
            None => {
                return None;
            },
        };
        let (author_stats, p2) = match dec_authors_at(bytes, p1, n) {
            Some(v) => v,
            None => {
                return None;
            },
        };
        let (general_stats, p3) = match WordStats::decode_at(bytes, p2) {
            Some(v) => v,
            None => {
                return None;
            },
        };
        Some((ChannelData { author_stats, general_stats }, p3))
    }
}

/// Decodes `n` (author id, statistics) entries.
fn dec_authors_at(bytes: &Vec<u8>, pos: usize, n: u64) -> (r: Option<
    (Vec<(u64, WordStats)>, usize),
>)
    requires
        pos <= bytes@.len(),
    ensures
        match r {
            Some((v, p2)) => pos <= p2 <= bytes@.len() && dec_authors(
                bytes@.skip(pos as int),
                n as nat,
            ) == Some((authors_view(v@), bytes@.skip(p2 as int))),
            None => dec_authors(bytes@.skip(pos as int), n as nat) is None,
        },
{
    let mut acc: Vec<(u64, WordStats)> = Vec::new();
    let mut p = pos;
    let mut k: u64 = 0;
    proof {
        assert(authors_view(acc@) + Seq::<(u64, WordStatsV)>::empty() =~= authors_view(acc@));
        assert(authors_view(acc@) =~= Seq::<(u64, WordStatsV)>::empty());
    }
    while k < n
        invariant
            k <= n,
            pos <= p <= bytes@.len(),
            dec_authors(bytes@.skip(pos as int), n as nat) == (match dec_authors(
                bytes@.skip(p as int),
                (n - k) as nat,
            ) {
                Some((s2, r2)) => Some::<(Seq<(u64, WordStatsV)>, Seq<u8>)>(
                    (authors_view(acc@) + s2, r2),
                ),
                None => None::<(Seq<(u64, WordStatsV)>, Seq<u8>)>,
            }),
        decreases n - k,
    {
        let (id, p1) = match dec_u64_at(bytes, p) {
            Some(v) => v,
            None => {
                return None;
            },
        };
        let (w, p2) = match WordStats::decode_at(bytes, p1) {
            Some(v) => v,
            None => {
                return None;
            },
        };
        proof {
            let ghost rest_opt = dec_authors(bytes@.skip(p2 as int), (n - k - 1) as nat);
            match rest_opt {
                Some((s3, r3)) => {
                    assert(authors_view(acc@.push((id, w))) =~= authors_view(acc@).push((id, w@)));
                    assert(authors_view(acc@) + (seq![(id, w@)] + s3) =~= authors_view(acc@).push(
                        (id, w@),
                    ) + s3);
                },
                None => {},
            }
        }
        acc.push((id, w));
        p = p2;
        k = k + 1;
    }
    proof {
        assert(authors_view(acc@) + Seq::<(u64, WordStatsV)>::empty() =~= authors_view(acc@));
    }
    Some((acc, p))
}

impl ServerData {
    /// Appends this server's snapshot encoding.
    pub fn encode_into(&self, out: &mut Vec<u8>)
        ensures
            final(out)@ == old(out)@ + enc_sd(self@),
            sd_ok(self@),
    {
        let ghost pre = out@;
        let ghost chs = self@.channels;
        enc_u64_into(out, self.channels.len() as u64);
        proof {
            assert(chs.len() == self.channels@.len());
            assert(chs.skip(0) =~= chs);
            assert(out@ + enc_channels(chs.skip(0)) =~= pre + enc_u64(chs.len() as u64)
                + enc_channels(chs));
        }
        let mut i: usize = 0;
        while i < self.channels.len()
            invariant
                i <= self.channels.len(),
                chs == self@.channels,
                chs.len() == self.channels@.len(),
                out@ + enc_channels(chs.skip(i as int)) == pre + enc_u64(chs.len() as u64)
                    + enc_channels(chs),
                forall|j: int| 0 <= j < i ==> cd_ok((#[trigger] chs[j]).1),
            decreases self.channels.len() - i,
        {
            let ghost o0 = out@;
            let pc = &self.channels[i];
            proof {
                assert(chs[i as int] == (pc.0, pc.1@));
            }
            enc_u64_into(out, pc.0);
            pc.1.encode_into(out);
            proof {
                assert(chs.skip(i as int)[0] == chs[i as int]);
                assert(chs.skip(i as int).drop_first() =~= chs.skip(i as int + 1));
                assert(out@ + enc_channels(chs.skip(i as int + 1)) =~= o0 + enc_channels(
                    chs.skip(i as int),
                ));
            }
            i = i + 1;
        }
        proof {
            assert(chs.skip(chs.len() as int) =~= Seq::<(u64, ChannelDataV)>::empty());
            assert(out@ + enc_channels(Seq::<(u64, ChannelDataV)>::empty()) =~= out@);
            assert(out@ =~= pre + enc_sd(self@));
        }
    }

    /// Decodes one server's channel tables at `pos`.
    pub fn decode_at(bytes: &Vec<u8>, pos: usize) -> (r: Option<(ServerData, usize)>)
        requires
            pos <= bytes@.len(),
        ensures
            match r {
                Some((sd, p2)) => pos <= p2 <= bytes@.len() && dec_sd(bytes@.skip(pos as int))
                    == Some((sd@, bytes@.skip(p2 as int))),
                None => dec_sd(bytes@.skip(pos as int)) is None,
            },
    {
        let (n, p1) = match dec_u64_at(bytes, pos) {
            Some(v) => v,
            None => {
                return None;
            },
        };
        let (channels, p2) = match dec_channels_at(bytes, p1, n) {
            Some(v) => v,
            None => {
                return None;
            },
        };
        let sd = ServerData { channels };
        proof {
            assert(sd@ =~= (ServerDataV { channels: channels_view(sd.channels@) }));
        }
        Some((sd, p2))
    }
}

/// Decodes `n` (channel id, channel data) entries.
fn dec_channels_at(bytes: &Vec<u8>, pos: usize, n: u64) -> (r: Option<
    (Vec<(u64, ChannelData)>, usize),
>)
    requires
        pos <= bytes@.len(),
    ensures
        match r {
            Some((v, p2)) => pos <= p2 <= bytes@.len() && dec_channels(
                bytes@.skip(pos as int),
                n as nat,
            ) == Some((channels_view(v@), bytes@.skip(p2 as int))),
            None => dec_channels(bytes@.skip(pos as int), n as nat) is None,
        },
{
    let mut acc: Vec<(u64, ChannelData)> = Vec::new();
    let mut p = pos;
    let mut k: u64 = 0;
    proof {
        assert(channels_view(acc@) =~= Seq::<(u64, ChannelDataV)>::empty());
    }
    while k < n
        invariant
            k <= n,
            pos <= p <= bytes@.len(),
            dec_channels(bytes@.skip(pos as int), n as nat) == (match dec_channels(
                bytes@.skip(p as int),
                (n - k) as nat,
            ) {
                Some((s2, r2)) => Some::<(Seq<(u64, ChannelDataV)>, Seq<u8>)>(
                    (channels_view(acc@) + s2, r2),
                ),
                None => None::<(Seq<(u64, ChannelDataV)>, Seq<u8>)>,
            }),
        decreases n - k,
    {
        let (id, p1) = match dec_u64_at(bytes, p) {
            Some(v) => v,
            None => {
                return None;
            },
        };
        let (cd, p2) = match ChannelData::decode_at(bytes, p1) {
            Some(v) => v,
            None => {
                return None;
            },
        };
        proof {
            let ghost rest_opt = dec_channels(bytes@.skip(p2 as int), (n - k - 1) as nat);
            match rest_opt {
                Some((s3, r3)) => {
                    assert(channels_view(acc@.push((id, cd))) =~= channels_view(acc@).push(
                        (id, cd@),
                    ));
                    assert(channels_view(acc@) + (seq![(id, cd@)] + s3) =~= channels_view(
                        acc@,
                    ).push((id, cd@)) + s3);
                },
                None => {},
            }
        }
        acc.push((id, cd));
        p = p2;
        k = k + 1;
    }
    proof {
        assert(channels_view(acc@) + Seq::<(u64, ChannelDataV)>::empty() =~= channels_view(acc@));
    }
    Some((acc, p))
}

/// Decodes `n` (server id, server data) entries.
fn dec_servers_at(bytes: &Vec<u8>, pos: usize, n: u64) -> (r: Option<
    (Vec<(u64, ServerData)>, usize),
>)
    requires
        pos <= bytes@.len(),
    ensures
        match r {
            Some((v, p2)) => pos <= p2 <= bytes@.len() && dec_servers(
                bytes@.skip(pos as int),
                n as nat,
            ) == Some((servers_view(v@), bytes@.skip(p2 as int))),
            None => dec_servers(bytes@.skip(pos as int), n as nat) is None,
        },
{
    let mut acc: Vec<(u64, ServerData)> = Vec::new();
    let mut p = pos;
    let mut k: u64 = 0;
    proof {
        assert(servers_view(acc@) =~= Seq::<(u64, ServerDataV)>::empty());
    }
    while k < n
        invariant
            k <= n,
            pos <= p <= bytes@.len(),
            dec_servers(bytes@.skip(pos as int), n as nat) == (match dec_servers(
                bytes@.skip(p as int),
                (n - k) as nat,
            ) {
                Some((s2, r2)) => Some::<(Seq<(u64, ServerDataV)>, Seq<u8>)>(
                    (servers_view(acc@) + s2, r2),
                ),
                None => None::<(Seq<(u64, ServerDataV)>, Seq<u8>)>,
            }),
        decreases n - k,
    {
        let (id, p1) = match dec_u64_at(bytes, p) {
            Some(v) => v,
            None => {
                return None;
            },
        };
        let (sd, p2) = match ServerData::decode_at(bytes, p1) {
            Some(v) => v,
            None => {
                return None;
            },
        };
        proof {
            let ghost rest_opt = dec_servers(bytes@.skip(p2 as int), (n - k - 1) as nat);
            match rest_opt {
                Some((s3, r3)) => {
                    assert(servers_view(acc@.push((id, sd))) =~= servers_view(acc@).push(
                        (id, sd@),
                    ));
                    assert(servers_view(acc@) + (seq![(id, sd@)] + s3) =~= servers_view(acc@).push(
                        (id, sd@),
                    ) + s3);
                },
                None => {},
            }
        }
        acc.push((id, sd));
        p = p2;
        k = k + 1;
    }
    proof {
        assert(servers_view(acc@) + Seq::<(u64, ServerDataV)>::empty() =~= servers_view(acc@));
    }
    Some((acc, p))
}

impl Store {
    /// Serializes the aggregate tree (and only it: the replay queue and the
    /// in-progress set are startup/runtime state) to snapshot bytes.
    pub fn snapshot(&self) -> (r: Vec<u8>)
        ensures
            r@ == enc_data(self@.data),
            data_ok(self@.data),
    {
        let ghost data = self@.data;
        let mut out: Vec<u8> = Vec::new();
        enc_u64_into(&mut out, self.data.len() as u64);
        let ghost pre = out@;
        proof {
            assert(data.len() == self.data@.len());
            assert(data.skip(0) =~= data);
            assert(out@ + enc_servers(data.skip(0)) =~= pre + enc_servers(data));
        }
        let mut i: usize = 0;
        while i < self.data.len()
            invariant
                i <= self.data.len(),
                data == self@.data,
                data.len() == self.data@.len(),
                out@ + enc_servers(data.skip(i as int)) == pre + enc_servers(data),
                forall|j: int| 0 <= j < i ==> sd_ok((#[trigger] data[j]).1),
            decreases self.data.len() - i,
        {
            let ghost o0 = out@;
            let ps = &self.data[i];
            proof {
                assert(data[i as int] == (ps.0, ps.1@));
            }
            enc_u64_into(&mut out, ps.0);
            ps.1.encode_into(&mut out);
            proof {
                assert(data.skip(i as int)[0] == data[i as int]);
                assert(data.skip(i as int).drop_first() =~= data.skip(i as int + 1));
                assert(out@ + enc_servers(data.skip(i as int + 1)) =~= o0 + enc_servers(
                    data.skip(i as int),
                ));
            }
            i = i + 1;
        }
        proof {
            assert(data.skip(data.len() as int) =~= Seq::<(u64, ServerDataV)>::empty());
            assert(out@ + enc_servers(Seq::<(u64, ServerDataV)>::empty()) =~= out@);
            assert(out@ =~= enc_data(data));
        }
        out
    }

    /// Rebuilds a store from snapshot bytes. The replay queue and in-progress
    /// set start empty and one replay pass is owed, exactly as at a fresh
    /// boot. Corrupt bytes are refused.
    pub fn restore(bytes: &Vec<u8>) -> (r: Result<Store, SnapshotError>)
        ensures
            match r {
                Ok(store) => {
                    &&& dec_data(bytes@) == Some((store@.data, Seq::<u8>::empty()))
                    &&& store@.replay_needed
                    &&& store@.queued == Seq::<(StoryKey, MessageV)>::empty()
                    &&& store@.initialising == Seq::<StoryKey>::empty()
                },
                Err(SnapshotError::Malformed) => dec_data(bytes@) is None,
                Err(SnapshotError::TrailingData) => match dec_data(bytes@) {
                    Some((d, rest)) => rest.len() > 0,
                    None => false,
                },
            },
    {
        proof {
            assert(bytes@.skip(0) =~= bytes@);
        }
        let (n, p1) = match dec_u64_at(bytes, 0) {
            Some(v) => v,
            None => {
                return Err(SnapshotError::Malformed);
            },
        };
        let (data, p2) = match dec_servers_at(bytes, p1, n) {
            Some(v) => v,
            None => {
                return Err(SnapshotError::Malformed);
            },
        };
        if p2 != bytes.len() {
            proof {
                assert(bytes@.skip(p2 as int).len() > 0);
            }
            return Err(SnapshotError::TrailingData);
        }
        let store = Store {
            replay_needed: true,
            queued_messages_until_replay: Vec::new(),
            initialising_channels: Vec::new(),
            data,
        };
        proof {
            assert(bytes@.skip(p2 as int) =~= Seq::<u8>::empty());
            assert(store@.queued =~= Seq::<(StoryKey, MessageV)>::empty());
        }
        Ok(store)
    }
}

/// Law (snapshot round trip): a store rebuilt from its own snapshot carries
/// exactly the same aggregate tree — frequency tables, counts, recency
/// markers and dedup sets included.
pub proof fn lemma_store_snapshot_restore(s: StoreV)
    requires
        data_ok(s.data),
    ensures
        dec_data(enc_data(s.data)) == Some((s.data, Seq::<u8>::empty())),
{
    lemma_snapshot_roundtrip(s.data, Seq::<u8>::empty());
}

/// The keys of one server's channels that have a recency marker, paired with
/// the marker, as story keys.
pub open spec fn server_story_keys(sid: u64, channels: Seq<(u64, ChannelDataV)>) -> Seq<
    (StoryKey, u64),
> {
    Seq::new(with_last(channels).len(), |i: int| ((sid, with_last(channels)[i].0),
        with_last(channels)[i].1))
}

/// Every (story key, last message id) pair in the tree, servers in table
/// order.
pub open spec fn story_keys_spec(data: Seq<(u64, ServerDataV)>) -> Seq<(StoryKey, u64)>
    decreases data.len(),
{
    if data.len() == 0 {
        Seq::empty()
    } else {
        story_keys_spec(data.drop_last()) + server_story_keys(
            data.last().0,
            data.last().1.channels,
        )
    }
}

} // verus!
