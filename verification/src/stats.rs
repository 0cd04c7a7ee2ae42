//! Per-entity word statistics: a running token count, a word-frequency
//! table ordered by first appearance, the most recent message by timestamp,
//! and the set of message identifiers already folded in.

use vstd::prelude::*;

use crate::assoc::{find_key, get_val, has_key, keys_unique, lemma_find_key, lemma_put_val_unique,
    put_val, set_val};
use crate::language_parsing::{spec_tokenise, tokenise};
use crate::message::{Message, MessageV};
use crate::snapshot::{dec_freqs_at, dec_ids_at, dec_last_at, dec_u64_at, dec_ws, enc_freqs,
    enc_i64_into, enc_ids, enc_last, enc_str_into, enc_u64, enc_u64_into, enc_ws, ws_ok};
use crate::sorting::{insert_by_count, reverse_pairs, sort_by_count_asc, sort_pairs_by_count};
use crate::stopwords::{is_stop_word, spec_is_stop_word};
use crate::strutil::{lower_of, lowercase, str_eq};

verus! {

/// One frequency table per tracked entity.
pub struct WordStats {
    /// Running total of tokens seen.
    pub word_count: u64,
    /// Lowercased word -> occurrence count, keys unique, in first-seen order.
    pub word_frequencies: Vec<(String, u64)>,
    /// Identifier and timestamp of the most recent message by timestamp.
    last_message: Option<(u64, i64)>,
    /// Message identifiers already folded in.
    included_messages: Vec<u64>,
}

/// Mathematical model of a [`WordStats`].
#[verifier::ext_equal]
pub struct WordStatsV {
    pub word_count: u64,
    pub freqs: Seq<(Seq<char>, u64)>,
    pub last: Option<(u64, i64)>,
    pub included: Seq<u64>,
}

impl View for WordStats {
    type V = WordStatsV;

    closed spec fn view(&self) -> WordStatsV {
        WordStatsV {
            word_count: self.word_count,
            freqs: self.word_frequencies.deep_view(),
            last: self.last_message,
            included: self.included_messages@,
        }
    }
}

pub open spec fn ws_empty() -> WordStatsV {
    WordStatsV { word_count: 0, freqs: Seq::empty(), last: None, included: Seq::empty() }
}

/// Internal invariant: frequency keys unique, dedup identifiers unique.
pub open spec fn ws_wf(w: WordStatsV) -> bool {
    &&& keys_unique(w.freqs)
    &&& forall|i: int, j: int| 0 <= i < j < w.included.len() ==> w.included[i] != w.included[j]
}

/// The lowercased tokens of a message body.
pub open spec fn message_tokens(content: Seq<char>) -> Seq<Seq<char>> {
    spec_tokenise(content).map_values(|t: Seq<char>| lower_of(t))
}

/// One occurrence of `w` added to the table: the first matching entry is
/// incremented, or a fresh entry with count 1 is appended.
pub open spec fn bump_word(freqs: Seq<(Seq<char>, u64)>, w: Seq<char>) -> Seq<(Seq<char>, u64)> {
    if has_key(freqs, w) {
        set_val(freqs, w, (get_val(freqs, w) + 1) as u64)
    } else {
        freqs.push((w, 1u64))
    }
}

pub open spec fn fold_words(freqs: Seq<(Seq<char>, u64)>, ws: Seq<Seq<char>>) -> Seq<
    (Seq<char>, u64),
>
    decreases ws.len(),
{
    if ws.len() == 0 {
        freqs
    } else {
        fold_words(bump_word(freqs, ws[0]), ws.drop_first())
    }
}

/// No counter overflows when `m` is folded into `w`: either the message is
/// already included (a no-op), or every affected count stays within `u64`.
pub open spec fn ws_can_update(w: WordStatsV, m: MessageV) -> bool {
    w.included.contains(m.id) || {
        let t = spec_tokenise(m.content).len();
        &&& w.word_count + t <= u64::MAX
        &&& forall|i: int| 0 <= i < w.freqs.len() ==> w.freqs[i].1 + t <= u64::MAX
    }
}

/// The statistics after folding `m` into `w`: a no-op when the identifier is
/// already included; otherwise the token count, frequency table, dedup set
/// and (for a strictly newer timestamp) the recency marker advance.
pub open spec fn ws_update(w: WordStatsV, m: MessageV) -> WordStatsV {
    if w.included.contains(m.id) {
        w
    } else {
        WordStatsV {
            word_count: (w.word_count + message_tokens(m.content).len()) as u64,
            freqs: fold_words(w.freqs, message_tokens(m.content)),
            last: match w.last {
                None => Some((m.id, m.timestamp)),
                Some((lid, lts)) => if m.timestamp > lts {
                    Some((m.id, m.timestamp))
                } else {
                    w.last
                },
            },
            included: w.included.push(m.id),
        }
    }
}

proof fn lemma_fold_words_take(freqs: Seq<(Seq<char>, u64)>, ws: Seq<Seq<char>>, i: int)
    requires
        0 <= i < ws.len(),
    ensures
        fold_words(freqs, ws.take(i + 1)) == bump_word(fold_words(freqs, ws.take(i)), ws[i]),
    decreases i,
{
    if i == 0 {
        let w1 = ws.take(1);
        assert(w1.len() == 1);
        assert(w1[0] == ws[0]);
        assert(w1.drop_first() =~= Seq::<Seq<char>>::empty());
        assert(fold_words(freqs, w1) == fold_words(bump_word(freqs, w1[0]), w1.drop_first()));
        assert(fold_words(bump_word(freqs, w1[0]), w1.drop_first()) == bump_word(
            freqs,
            ws[0],
        ));
        assert(ws.take(0) =~= Seq::<Seq<char>>::empty());
        assert(fold_words(freqs, ws.take(0)) == freqs);
    } else {
        let d = ws.drop_first();
        assert(ws.take(i + 1).len() > 0);
        assert(ws.take(i + 1)[0] == ws[0]);
        assert(ws.take(i + 1).drop_first() =~= d.take(i));
        assert(fold_words(freqs, ws.take(i + 1)) == fold_words(
            bump_word(freqs, ws[0]),
            d.take(i),
        ));
        assert(ws.take(i).len() > 0);
        assert(ws.take(i)[0] == ws[0]);
        assert(ws.take(i).drop_first() =~= d.take(i - 1));
        assert(fold_words(freqs, ws.take(i)) == fold_words(
            bump_word(freqs, ws[0]),
            d.take(i - 1),
        ));
        lemma_fold_words_take(bump_word(freqs, ws[0]), d, i - 1);
        assert(d[i - 1] == ws[i]);
    }
}

/// Bridges an element of the executable table to its deep view.
proof fn lemma_freqs_dv(v: &Vec<(String, u64)>, i: int)
    requires
        0 <= i < v@.len(),
    ensures
        v.deep_view().len() == v@.len(),
        v.deep_view()[i] == (v@[i].0@, v@[i].1),
{
}

proof fn lemma_fold_words_unique(freqs: Seq<(Seq<char>, u64)>, ws: Seq<Seq<char>>)
    requires
        keys_unique(freqs),
    ensures
        keys_unique(fold_words(freqs, ws)),
    decreases ws.len(),
{
    if ws.len() > 0 {
        let w = ws[0];
        lemma_find_key(freqs, w);
        if has_key(freqs, w) {
            lemma_put_val_unique(freqs, w, (get_val(freqs, w) + 1) as u64);
            assert(bump_word(freqs, w) == put_val(freqs, w, (get_val(freqs, w) + 1) as u64));
        } else {
            lemma_put_val_unique(freqs, w, 1u64);
            assert(bump_word(freqs, w) == put_val(freqs, w, 1u64));
        }
        lemma_fold_words_unique(bump_word(freqs, w), ws.drop_first());
    }
}

/// Folding a message preserves the internal invariant.
pub proof fn lemma_ws_update_wf(w: WordStatsV, m: MessageV)
    requires
        ws_wf(w),
    ensures
        ws_wf(ws_update(w, m)),
{
    if !w.included.contains(m.id) {
        lemma_fold_words_unique(w.freqs, message_tokens(m.content));
        let inc = w.included.push(m.id);
        assert forall|i: int, j: int| 0 <= i < j < inc.len() implies inc[i] != inc[j] by {
            if j < w.included.len() {
            } else {
                assert(inc[j] == m.id);
                assert(w.included[i] == inc[i]);
                assert(w.included.contains(m.id) == false);
            }
        }
    }
}

/// The deep view of a frequency table: each word as its character sequence.
pub open spec fn dv_pairs(s: Seq<(String, u64)>) -> Seq<(Seq<char>, u64)> {
    Seq::new(s.len(), |i: int| (s[i].0@, s[i].1))
}

proof fn lemma_dv_insert(x: (String, u64), s: Seq<(String, u64)>)
    ensures
        dv_pairs(insert_by_count(x, s)) == insert_by_count((x.0@, x.1), dv_pairs(s)),
    decreases s.len(),
{
    let xv = (x.0@, x.1);
    if s.len() == 0 {
        assert(dv_pairs(insert_by_count(x, s)) =~= insert_by_count(xv, dv_pairs(s)));
    } else if x.1 < s[0].1 {
        assert(xv.1 < dv_pairs(s)[0].1);
        assert(dv_pairs(seq![x] + s) =~= seq![xv] + dv_pairs(s));
    } else {
        lemma_dv_insert(x, s.drop_first());
        assert(dv_pairs(s.drop_first()) =~= dv_pairs(s).drop_first());
        assert(!(xv.1 < dv_pairs(s)[0].1));
        assert(dv_pairs(seq![s[0]] + insert_by_count(x, s.drop_first())) =~= seq![dv_pairs(s)[0]]
            + dv_pairs(insert_by_count(x, s.drop_first())));
    }
}

proof fn lemma_dv_sort(s: Seq<(String, u64)>)
    ensures
        dv_pairs(sort_by_count_asc(s)) == sort_by_count_asc(dv_pairs(s)),
    decreases s.len(),
{
    if s.len() == 0 {
        assert(dv_pairs(sort_by_count_asc(s)) =~= sort_by_count_asc(dv_pairs(s)));
    } else {
        lemma_dv_sort(s.drop_last());
        lemma_dv_insert(s.last(), sort_by_count_asc(s.drop_last()));
        assert(dv_pairs(s.drop_last()) =~= dv_pairs(s).drop_last());
        assert(dv_pairs(s).last() == (s.last().0@, s.last().1));
    }
}

/// Non-stop words of `s`, in order.
pub open spec fn filter_stop(s: Seq<(Seq<char>, u64)>) -> Seq<Seq<char>>
    decreases s.len(),
{
    if s.len() == 0 {
        Seq::empty()
    } else {
        let rest = filter_stop(s.drop_last());
        if spec_is_stop_word(s.last().0) {
            rest
        } else {
            rest.push(s.last().0)
        }
    }
}

/// Non-stop entries of `s`, whole pairs, in order.
pub open spec fn spec_filtered_freqs(s: Seq<(Seq<char>, u64)>) -> Seq<(Seq<char>, u64)>
    decreases s.len(),
{
    if s.len() == 0 {
        Seq::empty()
    } else {
        let rest = spec_filtered_freqs(s.drop_last());
        if spec_is_stop_word(s.last().0) {
            rest
        } else {
            rest.push(s.last())
        }
    }
}

/// The words joined by a comma and a space.
pub open spec fn join_words(ws: Seq<Seq<char>>) -> Seq<char>
    decreases ws.len(),
{
    if ws.len() == 0 {
        Seq::empty()
    } else if ws.len() == 1 {
        ws[0]
    } else {
        join_words(ws.drop_last()) + ", "@ + ws.last()
    }
}

/// All non-stop words, best frequency first, ties in reverse first-seen
/// order (a stable ascending sort, reversed).
pub open spec fn ranked_words(freqs: Seq<(Seq<char>, u64)>) -> Seq<Seq<char>> {
    filter_stop(sort_by_count_asc(freqs).reverse())
}

/// Up to `n` ranked words, joined by ", ".
pub open spec fn spec_top_words(freqs: Seq<(Seq<char>, u64)>, n: int) -> Seq<char> {
    let kept = ranked_words(freqs);
    let cnt = if kept.len() as int <= n {
        kept.len() as int
    } else {
        n
    };
    join_words(kept.take(cnt))
}

/// Within the counters' range, the running token count never decreases.
pub proof fn lemma_word_count_monotonic(w: WordStatsV, m: MessageV)
    requires
        ws_can_update(w, m),
    ensures
        ws_update(w, m).word_count >= w.word_count,
{
}

/// After a fresh message is folded in, the recency marker's timestamp is at
/// least the message's, and no older than it was before.
pub proof fn lemma_last_message_dominates(w: WordStatsV, m: MessageV)
    requires
        !w.included.contains(m.id),
    ensures
        ws_update(w, m).last matches Some((id, ts)) && ts >= m.timestamp,
        match (w.last, ws_update(w, m).last) {
            (Some((lid, lts)), Some((id, ts))) => ts >= lts,
            _ => true,
        },
{
}

/// Law: folding a message a second time changes nothing — `update` is
/// idempotent per message identifier.
pub proof fn lemma_update_idempotent(w: WordStatsV, m: MessageV)
    ensures
        ws_update(ws_update(w, m), m) == ws_update(w, m),
{
    if !w.included.contains(m.id) {
        let w1 = ws_update(w, m);
        assert(w1.included[w.included.len() as int] == m.id);
        assert(w1.included.contains(m.id));
    }
}

/// Law: whichever order two fresh messages with timestamps `t1 < t2` are
/// folded in, the recency marker afterwards names the one with `t2` —
/// provided no already-recorded timestamp reaches `t2`.
pub proof fn lemma_update_ordering(w: WordStatsV, m1: MessageV, m2: MessageV)
    requires
        m1.id != m2.id,
        !w.included.contains(m1.id),
        !w.included.contains(m2.id),
        m1.timestamp < m2.timestamp,
        match w.last {
            None => true,
            Some((lid, lts)) => lts < m2.timestamp,
        },
    ensures
        ws_update(ws_update(w, m1), m2).last == Some((m2.id, m2.timestamp)),
        ws_update(ws_update(w, m2), m1).last == Some((m2.id, m2.timestamp)),
{
    let w1 = ws_update(w, m1);
    assert(!w1.included.contains(m2.id)) by {
        assert(forall|i: int| 0 <= i < w1.included.len() ==> w1.included[i] != m2.id);
    }
    let w2 = ws_update(w, m2);
    assert(!w2.included.contains(m1.id)) by {
        assert(forall|i: int| 0 <= i < w2.included.len() ==> w2.included[i] != m1.id);
    }
}

/// Linear membership test over the dedup set.
fn contains_id(v: &Vec<u64>, id: u64) -> (r: bool)
    ensures
        r == v@.contains(id),
{
    let mut i: usize = 0;
    while i < v.len()
        invariant
            i <= v.len(),
            forall|j: int| 0 <= j < i ==> v@[j] != id,
        decreases v.len() - i,
    {
        if v[i] == id {
            return true;
        }
        i = i + 1;
    }
    assert(!v@.contains(id));
    false
}

/// Index of the first entry for word `k`, by linear search.
fn find_word(v: &Vec<(String, u64)>, k: &str) -> (r: Option<usize>)
    ensures
        match r {
            Some(i) => {
                &&& i == find_key(v.deep_view(), k@)
                &&& i < v.len()
                &&& v.deep_view()[i as int].0 == k@
            },
            None => find_key(v.deep_view(), k@) == -1,
        },
{
    let mut i: usize = 0;
    while i < v.len()
        invariant
            i <= v.len(),
            forall|j: int| 0 <= j < i ==> v.deep_view()[j].0 != k@,
        decreases v.len() - i,
    {
        let pair: &(String, u64) = &v[i];
        proof {
            lemma_freqs_dv(v, i as int);
        }
        if str_eq(pair.0.as_str(), k) {
            proof {
                lemma_find_key(v.deep_view(), k@);
            }
            return Some(i);
        }
        i = i + 1;
    }
    proof {
        lemma_find_key(v.deep_view(), k@);
    }
    None
}

impl Default for WordStats {
    /// An empty aggregate: no tokens, no words, no recency, no identifiers.
    fn default() -> (r: Self)
        ensures
            r@ == ws_empty(),
    {
        let r = WordStats {
            word_count: 0,
            word_frequencies: Vec::new(),
            last_message: None,
            included_messages: Vec::new(),
        };
        proof {
            assert(r@ =~= ws_empty());
        }
        r
    }
}

impl WordStats {
    /// Statistics of a single message.
    pub fn new_from_message(message: &Message) -> (r: Self)
        requires
            ws_can_update(ws_empty(), message@),
        ensures
            r@ == ws_update(ws_empty(), message@),
            ws_wf(r@),
    {
        let mut t = Self::default();
        t.update(message);
        t
    }

    /// True when folding `message` cannot overflow any counter.
    pub fn can_absorb(&self, message: &Message) -> (r: bool)
        ensures
            r == ws_can_update(self@, message@),
    {
        if contains_id(&self.included_messages, message.id) {
            return true;
        }
        let words = tokenise(message.content.as_str());
        let t = words.len() as u64;
        proof {
            assert(words.deep_view().len() == words@.len());
            assert(t == spec_tokenise(message@.content).len());
        }
        if self.word_count > u64::MAX - t {
            return false;
        }
        let mut i: usize = 0;
        while i < self.word_frequencies.len()
            invariant
                i <= self.word_frequencies.len(),
                t == spec_tokenise(message@.content).len(),
                self.word_count + t <= u64::MAX,
                !self@.included.contains(message@.id),
                forall|j: int| 0 <= j < i ==> self@.freqs[j].1 + t <= u64::MAX,
            decreases self.word_frequencies.len() - i,
        {
            let pair: &(String, u64) = &self.word_frequencies[i];
            let c = pair.1;
            proof {
                lemma_freqs_dv(&self.word_frequencies, i as int);
                assert(self@.freqs[i as int].1 == c);
            }
            if c > u64::MAX - t {
                return false;
            }
            i = i + 1;
        }
        proof {
            assert(self@.freqs.len() == self.word_frequencies@.len());
        }
        true
    }

    /// Folds one message into the aggregate; a no-op when its identifier
    /// has been folded in before.
    pub fn update(&mut self, message: &Message)
        requires
            ws_can_update(old(self)@, message@),
        ensures
            final(self)@ == ws_update(old(self)@, message@),
            ws_wf(old(self)@) ==> ws_wf(final(self)@),
    {
        proof {
            if ws_wf(old(self)@) {
                lemma_ws_update_wf(old(self)@, message@);
            }
        }
        if !contains_id(&self.included_messages, message.id) {
            let words = tokenise(message.content.as_str());
            let ghost toks = message_tokens(message@.content);
            let ghost freqs0 = self.word_frequencies.deep_view();
            proof {
                assert(words.deep_view().len() == words@.len());
                assert(toks.len() == spec_tokenise(message@.content).len());
                assert(toks.len() == words@.len());
            }
            self.word_count = self.word_count + (words.len() as u64);
            let ghost wc1 = self.word_count;
            let ghost last0 = self.last_message;
            let ghost inc0 = self.included_messages@;
            let mut k: usize = 0;
            proof {
                assert(toks.take(0) =~= Seq::<Seq<char>>::empty());
            }
            while k < words.len()
                invariant
                    k <= words.len(),
                    words.deep_view() == spec_tokenise(message@.content),
                    toks == message_tokens(message@.content),
                    toks.len() == words@.len(),
                    toks.len() <= u64::MAX,
                    self.word_count == wc1,
                    self.last_message == last0,
                    self.included_messages@ == inc0,
                    self.word_frequencies.deep_view() == fold_words(freqs0, toks.take(k as int)),
                    forall|j: int| 0 <= j < self.word_frequencies.deep_view().len()
                        ==> self.word_frequencies.deep_view()[j].1 + (toks.len() - k) <= u64::MAX,
                decreases words.len() - k,
            {
                let w = lowercase(words[k]);
                proof {
                    assert(words.deep_view()[k as int] == words@[k as int]@);
                    assert(w@ == toks[k as int]);
                }
                let ghost cur_freqs = self.word_frequencies.deep_view();
                match find_word(&self.word_frequencies, w.as_str()) {
                    Some(i) => {
                        proof {
                            lemma_freqs_dv(&self.word_frequencies, i as int);
                        }
                        let e = &mut self.word_frequencies[i];
                        e.1 = e.1 + 1;
                        proof {
                            lemma_find_key(cur_freqs, w@);
                            assert(self.word_frequencies.deep_view() =~= set_val(
                                cur_freqs,
                                w@,
                                (get_val(cur_freqs, w@) + 1) as u64,
                            ));
                            assert(self.word_frequencies.deep_view() == bump_word(
                                cur_freqs,
                                toks[k as int],
                            ));
                        }
                    },
                    None => {
                        self.word_frequencies.push((w, 1));
                        proof {
                            assert(self.word_frequencies.deep_view() =~= cur_freqs.push(
                                (w@, 1u64),
                            ));
                            assert(self.word_frequencies.deep_view() == bump_word(
                                cur_freqs,
                                toks[k as int],
                            ));
                        }
                    },
                }
                proof {
                    lemma_fold_words_take(freqs0, toks, k as int);
                    assert(self.word_frequencies.deep_view() == fold_words(
                        freqs0,
                        toks.take(k as int + 1),
                    ));
                }
                k = k + 1;
            }
            proof {
                assert(toks.take(toks.len() as int) =~= toks);
            }
            self.included_messages.push(message.id);
            let should_update_last_message = match self.last_message {
                None => true,
                Some((_, last_message_time)) => message.timestamp > last_message_time,
            };
            if should_update_last_message {
                self.last_message = Some((message.id, message.timestamp));
            }
            proof {
                assert(self@ =~= ws_update(old(self)@, message@));
            }
        }
    }

    /// Ranks non-stop words by descending frequency (ties in reverse
    /// first-seen order) and joins the best `n` with a comma.
    pub fn top_words(&self, n: usize) -> (r: String)
        ensures
            r@ == spec_top_words(self@.freqs, n as int),
    {
        let mut pairs: Vec<(String, u64)> = Vec::new();
        let mut i: usize = 0;
        proof {
            assert(pairs@ =~= self.word_frequencies@.take(0));
        }
        while i < self.word_frequencies.len()
            invariant
                i <= self.word_frequencies.len(),
                pairs@ == self.word_frequencies@.take(i as int),
            decreases self.word_frequencies.len() - i,
        {
            let p = &self.word_frequencies[i];
            pairs.push((p.0.clone(), p.1));
            proof {
                assert(pairs@ =~= self.word_frequencies@.take(i as int + 1));
            }
            i = i + 1;
        }
        proof {
            assert(self.word_frequencies@.take(self.word_frequencies@.len() as int)
                =~= self.word_frequencies@);
        }
        let sorted = sort_pairs_by_count(pairs);
        let desc = reverse_pairs(sorted);
        proof {
            lemma_dv_sort(self.word_frequencies@);
            assert(dv_pairs(self.word_frequencies@) =~= self@.freqs);
            assert(dv_pairs(desc@) =~= dv_pairs(sorted@).reverse());
            assert(dv_pairs(desc@) == sort_by_count_asc(self@.freqs).reverse());
        }
        let ghost dd = dv_pairs(desc@);
        let mut result = String::new();
        let mut taken: usize = 0;
        let mut k: usize = 0;
        proof {
            assert(dd.take(0) =~= Seq::<(Seq<char>, u64)>::empty());
            assert(filter_stop(dd.take(0)) =~= Seq::<Seq<char>>::empty());
            assert(filter_stop(dd.take(0)).take(0) =~= Seq::<Seq<char>>::empty());
        }
        while k < desc.len()
            invariant
                k <= desc.len(),
                taken <= n,
                dd == dv_pairs(desc@),
                dd.len() == desc@.len(),
                taken as int == (if filter_stop(dd.take(k as int)).len() as int <= n as int {
                    filter_stop(dd.take(k as int)).len() as int
                } else {
                    n as int
                }),
                result@ == join_words(filter_stop(dd.take(k as int)).take(taken as int)),
            decreases desc.len() - k,
        {
            let p = &desc[k];
            let ghost kept = filter_stop(dd.take(k as int));
            proof {
                assert(dd[k as int] == (p.0@, p.1));
                assert(dd.take(k as int + 1).drop_last() =~= dd.take(k as int));
                assert(dd.take(k as int + 1).last() == dd[k as int]);
            }
            if taken < n && !is_stop_word(p.0.as_str()) {
                let ghost kept1 = filter_stop(dd.take(k as int + 1));
                proof {
                    assert(kept1 == kept.push(p.0@));
                    assert(kept.len() == taken as int);
                    assert(kept.take(taken as int) =~= kept);
                    assert(kept1.take(taken as int + 1) =~= kept1);
                    assert(kept1.drop_last() =~= kept);
                }
                if taken > 0 {
                    result.append(", ");
                    result.append(p.0.as_str());
                    proof {
                        assert(kept1.len() >= 2);
                        assert(result@ == join_words(kept) + ", "@ + p.0@);
                        assert(result@ == join_words(kept1));
                    }
                } else {
                    result.append(p.0.as_str());
                    proof {
                        assert(kept1.len() == 1);
                        assert(kept1[0] == p.0@);
                        assert(result@ =~= join_words(kept1));
                    }
                }
                taken = taken + 1;
            } else {
                proof {
                    if taken < n {
                        assert(spec_is_stop_word(dd.take(k as int + 1).last().0));
                        assert(filter_stop(dd.take(k as int + 1)) == kept);
                    } else {
                        let kept1 = filter_stop(dd.take(k as int + 1));
                        if !spec_is_stop_word(dd[k as int].0) {
                            assert(kept1 == kept.push(p.0@));
                            assert(kept1.take(taken as int) =~= kept.take(taken as int));
                        } else {
                            assert(kept1 == kept);
                        }
                    }
                }
            }
            k = k + 1;
        }
        proof {
            assert(dd.take(dd.len() as int) =~= dd);
            assert(filter_stop(dd) == ranked_words(self@.freqs));
        }
        result
    }

    /// The frequency table with stop words removed, for external consumers
    /// that need raw counts.
    pub fn filtered_word_frequencies(&self) -> (r: Vec<(String, u64)>)
        ensures
            r.deep_view() == spec_filtered_freqs(self@.freqs),
    {
        let mut out: Vec<(String, u64)> = Vec::new();
        let mut i: usize = 0;
        proof {
            assert(self@.freqs.take(0) =~= Seq::<(Seq<char>, u64)>::empty());
            assert(out.deep_view() =~= spec_filtered_freqs(self@.freqs.take(0)));
        }
        while i < self.word_frequencies.len()
            invariant
                i <= self.word_frequencies.len(),
                self@.freqs.len() == self.word_frequencies@.len(),
                out.deep_view() == spec_filtered_freqs(self@.freqs.take(i as int)),
            decreases self.word_frequencies.len() - i,
        {
            let p = &self.word_frequencies[i];
            proof {
                lemma_freqs_dv(&self.word_frequencies, i as int);
                assert(self@.freqs.take(i as int + 1).drop_last() =~= self@.freqs.take(i as int));
                assert(self@.freqs.take(i as int + 1).last() == self@.freqs[i as int]);
            }
            if !is_stop_word(p.0.as_str()) {
                let ghost pre = out.deep_view();
                out.push((p.0.clone(), p.1));
                proof {
                    assert(out.deep_view() =~= pre.push((p.0@, p.1)));
                }
            }
            i = i + 1;
        }
        proof {
            assert(self@.freqs.take(self@.freqs.len() as int) =~= self@.freqs);
        }
        out
    }

    /// The running token count, tied to the model.
    pub fn word_count(&self) -> (r: u64)
        ensures
            r == self@.word_count,
    {
        self.word_count
    }

    /// Appends this aggregate's snapshot encoding.
    pub fn encode_into(&self, out: &mut Vec<u8>)
        ensures
            final(out)@ == old(out)@ + enc_ws(self@),
            ws_ok(self@),
    {
        let ghost pre = out@;
        let ghost freqs = self@.freqs;
        enc_u64_into(out, self.word_count);
        enc_u64_into(out, self.word_frequencies.len() as u64);
        proof {
            assert(freqs.len() == self.word_frequencies@.len());
            assert(freqs.skip(0) =~= freqs);
            assert(out@ + enc_freqs(freqs.skip(0)) =~= pre + enc_u64(self@.word_count) + enc_u64(
                freqs.len() as u64,
            ) + enc_freqs(freqs));
        }
        let mut i: usize = 0;
        while i < self.word_frequencies.len()
            invariant
                i <= self.word_frequencies.len(),
                freqs == self@.freqs,
                freqs.len() == self.word_frequencies@.len(),
                out@ + enc_freqs(freqs.skip(i as int)) == pre + enc_u64(self@.word_count)
                    + enc_u64(freqs.len() as u64) + enc_freqs(freqs),
                forall|j: int| 0 <= j < i ==> crate::snapshot::str_ok((#[trigger] freqs[j]).0),
            decreases self.word_frequencies.len() - i,
        {
            let ghost o0 = out@;
            let pfreq = &self.word_frequencies[i];
            proof {
                lemma_freqs_dv(&self.word_frequencies, i as int);
            }
            enc_str_into(out, pfreq.0.as_str());
            enc_u64_into(out, pfreq.1);
            proof {
                assert(crate::snapshot::str_ok(freqs[i as int].0));
                assert(freqs.skip(i as int)[0] == freqs[i as int]);
                assert(freqs.skip(i as int).drop_first() =~= freqs.skip(i as int + 1));
                assert(out@ + enc_freqs(freqs.skip(i as int + 1)) =~= o0 + enc_freqs(
                    freqs.skip(i as int),
                ));
            }
            i = i + 1;
        }
        proof {
            assert(freqs.skip(freqs.len() as int) =~= Seq::<(Seq<char>, u64)>::empty());
            assert(out@ + enc_freqs(Seq::<(Seq<char>, u64)>::empty()) =~= out@);
        }
        let ghost o1 = out@;
        match self.last_message {
            None => {
                out.push(0u8);
                proof {
                    assert(out@ =~= o1 + enc_last(self@.last));
                }
            },
            Some((id, ts)) => {
                out.push(1u8);
                proof {
                    assert(out@ =~= o1 + seq![1u8]);
                }
                enc_u64_into(out, id);
                enc_i64_into(out, ts);
                proof {
                    assert(out@ =~= o1 + enc_last(self@.last));
                }
            },
        }
        let ghost inc = self@.included;
        enc_u64_into(out, self.included_messages.len() as u64);
        let ghost o2 = out@;
        proof {
            assert(inc.skip(0) =~= inc);
            assert(out@ + enc_ids(inc.skip(0)) =~= o2 + enc_ids(inc));
        }
        let mut i: usize = 0;
        while i < self.included_messages.len()
            invariant
                i <= self.included_messages.len(),
                inc == self@.included,
                inc.len() == self.included_messages@.len(),
                out@ + enc_ids(inc.skip(i as int)) == o2 + enc_ids(inc),
            decreases self.included_messages.len() - i,
        {
            let ghost o0 = out@;
            let x = self.included_messages[i];
            enc_u64_into(out, x);
            proof {
                assert(inc.skip(i as int)[0] == inc[i as int]);
                assert(inc.skip(i as int).drop_first() =~= inc.skip(i as int + 1));
                assert(out@ + enc_ids(inc.skip(i as int + 1)) =~= o0 + enc_ids(inc.skip(i as int)));
            }
            i = i + 1;
        }
        proof {
            assert(inc.skip(inc.len() as int) =~= Seq::<u64>::empty());
            assert(out@ + enc_ids(Seq::<u64>::empty()) =~= out@);
            assert(out@ =~= pre + enc_ws(self@));
        }
    }

    /// Decodes one aggregate at `pos`, mirroring the snapshot decoder.
    pub fn decode_at(bytes: &Vec<u8>, pos: usize) -> (r: Option<(WordStats, usize)>)
        requires
            pos <= bytes@.len(),
        ensures
            match r {
                Some((w, p2)) => pos <= p2 <= bytes@.len() && dec_ws(bytes@.skip(pos as int))
                    == Some((w@, bytes@.skip(p2 as int))),
                None => dec_ws(bytes@.skip(pos as int)) is None,
            },
    {
        let (wc, p1) = match dec_u64_at(bytes, pos) {
            Some(v) => v,
            None => {
                return None;
            },
        };
        let (n1, p2) = match dec_u64_at(bytes, p1) {
            Some(v) => v,
            None => {
                return None;
            },
        };
        let (freqs, p3) = match dec_freqs_at(bytes, p2, n1) {
            Some(v) => v,
            None => {
                return None;
            },
        };
        let (last, p4) = match dec_last_at(bytes, p3) {
            Some(v) => v,
            None => {
                return None;
            },
        };
        let (n2, p5) = match dec_u64_at(bytes, p4) {
            Some(v) => v,
            None => {
                return None;
            },
        };
        let (inc, p6) = match dec_ids_at(bytes, p5, n2) {
            Some(v) => v,
            None => {
                return None;
            },
        };
        let w = WordStats {
            word_count: wc,
            word_frequencies: freqs,
            last_message: last,
            included_messages: inc,
        };
        proof {
            assert(w@.freqs =~= dv_pairs(w.word_frequencies@));
        }
        Some((w, p6))
    }

    /// The identifier of the most recent message by timestamp, if any.
    pub fn last_message(&self) -> (r: Option<u64>)
        ensures
            r == match self@.last {
                None => None::<u64>,
                Some((id, ts)) => Some(id),
            },
    {
        match self.last_message {
            None => None,
            Some((mid, _date)) => Some(mid),
        }
    }
}

} // verus!
