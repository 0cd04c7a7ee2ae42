//! Binary snapshot codec for the store's aggregate tree. Everything is
//! little-endian and length-prefixed: a list is its element count as a
//! `u64` followed by its elements, a string is its character count followed
//! by one `u32` code point per character, a timestamp is an `i64` carried in
//! a `u64`. Decoders consume from the front of the byte sequence; the round
//! trip is proved exact.

use vstd::prelude::*;

use vstd::bytes::{lemma_auto_spec_u32_to_from_le_bytes, lemma_auto_spec_u64_to_from_le_bytes,
    spec_u32_to_le_bytes, spec_u32_from_le_bytes, spec_u64_to_le_bytes, spec_u64_from_le_bytes,
    u32_from_le_bytes, u32_to_le_bytes, u64_from_le_bytes, u64_to_le_bytes};
use vstd::slice::slice_subrange;
use vstd::utf8::{char_is_scalar, char_u32_cast, is_scalar};

use crate::state::{ChannelDataV, ServerDataV};
use crate::stats::WordStatsV;
use crate::stats::dv_pairs;
use crate::strutil::push_char;

verus! {

// Machine limits on what a tree must satisfy to be encodable: every length
// fits in the `u64` that prefixes it. Trees held in memory satisfy them.

pub open spec fn str_ok(s: Seq<char>) -> bool {
    s.len() <= u64::MAX
}

pub open spec fn ws_ok(w: WordStatsV) -> bool {
    &&& w.freqs.len() <= u64::MAX
    &&& w.included.len() <= u64::MAX
    &&& forall|i: int| 0 <= i < w.freqs.len() ==> str_ok((#[trigger] w.freqs[i]).0)
}

pub open spec fn cd_ok(cd: ChannelDataV) -> bool {
    &&& cd.author_stats.len() <= u64::MAX
    &&& ws_ok(cd.general_stats)
    &&& forall|i: int| 0 <= i < cd.author_stats.len() ==> ws_ok((#[trigger] cd.author_stats[i]).1)
}

pub open spec fn sd_ok(sd: ServerDataV) -> bool {
    &&& sd.channels.len() <= u64::MAX
    &&& forall|i: int| 0 <= i < sd.channels.len() ==> cd_ok((#[trigger] sd.channels[i]).1)
}

pub open spec fn data_ok(data: Seq<(u64, ServerDataV)>) -> bool {
    &&& data.len() <= u64::MAX
    &&& forall|i: int| 0 <= i < data.len() ==> sd_ok((#[trigger] data[i]).1)
}

// Encoders.

pub open spec fn enc_u64(x: u64) -> Seq<u8> {
    spec_u64_to_le_bytes(x)
}

pub open spec fn enc_u32(x: u32) -> Seq<u8> {
    spec_u32_to_le_bytes(x)
}

pub open spec fn enc_i64(x: i64) -> Seq<u8> {
    enc_u64(x as u64)
}

pub open spec fn enc_chars(s: Seq<char>) -> Seq<u8>
    decreases s.len(),
{
    if s.len() == 0 {
        Seq::empty()
    } else {
        enc_u32(s[0] as u32) + enc_chars(s.drop_first())
    }
}

pub open spec fn enc_str(s: Seq<char>) -> Seq<u8> {
    enc_u64(s.len() as u64) + enc_chars(s)
}

pub open spec fn enc_ids(s: Seq<u64>) -> Seq<u8>
    decreases s.len(),
{
    if s.len() == 0 {
        Seq::empty()
    } else {
        enc_u64(s[0]) + enc_ids(s.drop_first())
    }
}

pub open spec fn enc_freqs(s: Seq<(Seq<char>, u64)>) -> Seq<u8>
    decreases s.len(),
{
    if s.len() == 0 {
        Seq::empty()
    } else {
        enc_str(s[0].0) + enc_u64(s[0].1) + enc_freqs(s.drop_first())
    }
}

pub open spec fn enc_last(l: Option<(u64, i64)>) -> Seq<u8> {
    match l {
        None => seq![0u8],
        Some((id, ts)) => seq![1u8] + enc_u64(id) + enc_i64(ts),
    }
}

pub open spec fn enc_ws(w: WordStatsV) -> Seq<u8> {
    enc_u64(w.word_count) + enc_u64(w.freqs.len() as u64) + enc_freqs(w.freqs) + enc_last(w.last)
        + enc_u64(w.included.len() as u64) + enc_ids(w.included)
}

pub open spec fn enc_authors(s: Seq<(u64, WordStatsV)>) -> Seq<u8>
    decreases s.len(),
{
    if s.len() == 0 {
        Seq::empty()
    } else {
        enc_u64(s[0].0) + enc_ws(s[0].1) + enc_authors(s.drop_first())
    }
}

pub open spec fn enc_cd(cd: ChannelDataV) -> Seq<u8> {
    enc_u64(cd.author_stats.len() as u64) + enc_authors(cd.author_stats) + enc_ws(cd.general_stats)
}

pub open spec fn enc_channels(s: Seq<(u64, ChannelDataV)>) -> Seq<u8>
    decreases s.len(),
{
    if s.len() == 0 {
        Seq::empty()
    } else {
        enc_u64(s[0].0) + enc_cd(s[0].1) + enc_channels(s.drop_first())
    }
}

pub open spec fn enc_sd(sd: ServerDataV) -> Seq<u8> {
    enc_u64(sd.channels.len() as u64) + enc_channels(sd.channels)
}

pub open spec fn enc_servers(s: Seq<(u64, ServerDataV)>) -> Seq<u8>
    decreases s.len(),
{
    if s.len() == 0 {
        Seq::empty()
    } else {
        enc_u64(s[0].0) + enc_sd(s[0].1) + enc_servers(s.drop_first())
    }
}

pub open spec fn enc_data(data: Seq<(u64, ServerDataV)>) -> Seq<u8> {
    enc_u64(data.len() as u64) + enc_servers(data)
}

// Decoders: each takes the remaining bytes and yields the value and what
// follows it, or nothing when the bytes are malformed or exhausted.

pub open spec fn dec_u64(b: Seq<u8>) -> Option<(u64, Seq<u8>)> {
    if b.len() >= 8 {
        Some((spec_u64_from_le_bytes(b.take(8)), b.skip(8)))
    } else {
        None
    }
}

pub open spec fn dec_u32(b: Seq<u8>) -> Option<(u32, Seq<u8>)> {
    if b.len() >= 4 {
        Some((spec_u32_from_le_bytes(b.take(4)), b.skip(4)))
    } else {
        None
    }
}

pub open spec fn dec_u8(b: Seq<u8>) -> Option<(u8, Seq<u8>)> {
    if b.len() >= 1 {
        Some((b[0], b.skip(1)))
    } else {
        None
    }
}

pub open spec fn dec_i64(b: Seq<u8>) -> Option<(i64, Seq<u8>)> {
    match dec_u64(b) {
        None => None,
        Some((x, r)) => Some((x as i64, r)),
    }
}

pub open spec fn dec_char(b: Seq<u8>) -> Option<(char, Seq<u8>)> {
    match dec_u32(b) {
        None => None,
        Some((u, r)) => if is_scalar(u) {
            Some((u as char, r))
        } else {
            None
        },
    }
}

pub open spec fn dec_chars(b: Seq<u8>, n: nat) -> Option<(Seq<char>, Seq<u8>)>
    decreases n,
{
    if n == 0 {
        Some((Seq::empty(), b))
    } else {
        match dec_char(b) {
            None => None,
            Some((c, r)) => match dec_chars(r, (n - 1) as nat) {
                None => None,
                Some((s, r2)) => Some((seq![c] + s, r2)),
            },
        }
    }
}

pub open spec fn dec_str(b: Seq<u8>) -> Option<(Seq<char>, Seq<u8>)> {
    match dec_u64(b) {
        None => None,
        Some((n, r)) => dec_chars(r, n as nat),
    }
}

pub open spec fn dec_ids(b: Seq<u8>, n: nat) -> Option<(Seq<u64>, Seq<u8>)>
    decreases n,
{
    if n == 0 {
        Some((Seq::empty(), b))
    } else {
        match dec_u64(b) {
            None => None,
            Some((x, r)) => match dec_ids(r, (n - 1) as nat) {
                None => None,
                Some((s, r2)) => Some((seq![x] + s, r2)),
            },
        }
    }
}

pub open spec fn dec_freqs(b: Seq<u8>, n: nat) -> Option<(Seq<(Seq<char>, u64)>, Seq<u8>)>
    decreases n,
{
    if n == 0 {
        Some((Seq::empty(), b))
    } else {
        match dec_str(b) {
            None => None,
            Some((w, r)) => match dec_u64(r) {
                None => None,
                Some((c, r2)) => match dec_freqs(r2, (n - 1) as nat) {
                    None => None,
                    Some((s, r3)) => Some((seq![(w, c)] + s, r3)),
                },
            },
        }
    }
}

pub open spec fn dec_last(b: Seq<u8>) -> Option<(Option<(u64, i64)>, Seq<u8>)> {
    match dec_u8(b) {
        None => None,
        Some((tag, r)) => if tag == 0 {
            Some((None, r))
        } else if tag == 1 {
            match dec_u64(r) {
                None => None,
                Some((id, r2)) => match dec_i64(r2) {
                    None => None,
                    Some((ts, r3)) => Some((Some((id, ts)), r3)),
                },
            }
        } else {
            None
        },
    }
}

pub open spec fn dec_ws(b: Seq<u8>) -> Option<(WordStatsV, Seq<u8>)> {
    match dec_u64(b) {
        None => None,
        Some((wc, r)) => match dec_u64(r) {
            None => None,
            Some((n1, r2)) => match dec_freqs(r2, n1 as nat) {
                None => None,
                Some((freqs, r3)) => match dec_last(r3) {
                    None => None,
                    Some((last, r4)) => match dec_u64(r4) {
                        None => None,
                        Some((n2, r5)) => match dec_ids(r5, n2 as nat) {
                            None => None,
                            Some((inc, r6)) => Some(
                                (WordStatsV { word_count: wc, freqs, last, included: inc }, r6),
                            ),
                        },
                    },
                },
            },
        },
    }
}

pub open spec fn dec_authors(b: Seq<u8>, n: nat) -> Option<(Seq<(u64, WordStatsV)>, Seq<u8>)>
    decreases n,
{
    if n == 0 {
        Some((Seq::empty(), b))
    } else {
        match dec_u64(b) {
            None => None,
            Some((id, r)) => match dec_ws(r) {
                None => None,
                Some((w, r2)) => match dec_authors(r2, (n - 1) as nat) {
                    None => None,
                    Some((s, r3)) => Some((seq![(id, w)] + s, r3)),
                },
            },
        }
    }
}

pub open spec fn dec_cd(b: Seq<u8>) -> Option<(ChannelDataV, Seq<u8>)> {
    match dec_u64(b) {
        None => None,
        Some((n, r)) => match dec_authors(r, n as nat) {
            None => None,
            Some((authors, r2)) => match dec_ws(r2) {
                None => None,
                Some((general, r3)) => Some(
                    (ChannelDataV { author_stats: authors, general_stats: general }, r3),
                ),
            },
        },
    }
}

pub open spec fn dec_channels(b: Seq<u8>, n: nat) -> Option<(Seq<(u64, ChannelDataV)>, Seq<u8>)>
    decreases n,
{
    if n == 0 {
        Some((Seq::empty(), b))
    } else {
        match dec_u64(b) {
            None => None,
            Some((id, r)) => match dec_cd(r) {
                None => None,
                Some((cd, r2)) => match dec_channels(r2, (n - 1) as nat) {
                    None => None,
                    Some((s, r3)) => Some((seq![(id, cd)] + s, r3)),
                },
            },
        }
    }
}

pub open spec fn dec_sd(b: Seq<u8>) -> Option<(ServerDataV, Seq<u8>)> {
    match dec_u64(b) {
        None => None,
        Some((n, r)) => match dec_channels(r, n as nat) {
            None => None,
            Some((channels, r2)) => Some((ServerDataV { channels }, r2)),
        },
    }
}

pub open spec fn dec_servers(b: Seq<u8>, n: nat) -> Option<(Seq<(u64, ServerDataV)>, Seq<u8>)>
    decreases n,
{
    if n == 0 {
        Some((Seq::empty(), b))
    } else {
        match dec_u64(b) {
            None => None,
            Some((id, r)) => match dec_sd(r) {
                None => None,
                Some((sd, r2)) => match dec_servers(r2, (n - 1) as nat) {
                    None => None,
                    Some((s, r3)) => Some((seq![(id, sd)] + s, r3)),
                },
            },
        }
    }
}

pub open spec fn dec_data(b: Seq<u8>) -> Option<(Seq<(u64, ServerDataV)>, Seq<u8>)> {
    match dec_u64(b) {
        None => None,
        Some((n, r)) => dec_servers(r, n as nat),
    }
}

// Round-trip lemmas: decoding an encoding, whatever follows it, yields the
// encoded value and exactly what followed.

proof fn lemma_rt_u64(x: u64, rest: Seq<u8>)
    ensures
        enc_u64(x).len() == 8,
        dec_u64(enc_u64(x) + rest) == Some((x, rest)),
{
    lemma_auto_spec_u64_to_from_le_bytes();
    let b = enc_u64(x) + rest;
    assert(b.take(8) =~= enc_u64(x));
    assert(b.skip(8) =~= rest);
}

proof fn lemma_rt_u32(x: u32, rest: Seq<u8>)
    ensures
        enc_u32(x).len() == 4,
        dec_u32(enc_u32(x) + rest) == Some((x, rest)),
{
    lemma_auto_spec_u32_to_from_le_bytes();
    let b = enc_u32(x) + rest;
    assert(b.take(4) =~= enc_u32(x));
    assert(b.skip(4) =~= rest);
}

proof fn lemma_rt_i64(x: i64, rest: Seq<u8>)
    ensures
        dec_i64(enc_i64(x) + rest) == Some((x, rest)),
{
    lemma_rt_u64(x as u64, rest);
    assert((x as u64) as i64 == x) by (bit_vector);
}

proof fn lemma_rt_char(c: char, rest: Seq<u8>)
    ensures
        dec_char(enc_u32(c as u32) + rest) == Some((c, rest)),
{
    lemma_rt_u32(c as u32, rest);
    char_is_scalar(c);
    char_u32_cast(c, c as u32);
}

proof fn lemma_rt_chars(s: Seq<char>, rest: Seq<u8>)
    ensures
        dec_chars(enc_chars(s) + rest, s.len()) == Some((s, rest)),
    decreases s.len(),
{
    if s.len() == 0 {
        assert(enc_chars(s) + rest =~= rest);
        assert(dec_chars(rest, 0) == Some((Seq::<char>::empty(), rest)));
        assert(s =~= Seq::<char>::empty());
    } else {
        let tail = enc_chars(s.drop_first()) + rest;
        assert(enc_chars(s) + rest =~= enc_u32(s[0] as u32) + tail);
        lemma_rt_char(s[0], tail);
        lemma_rt_chars(s.drop_first(), rest);
        assert(seq![s[0]] + s.drop_first() =~= s);
    }
}

proof fn lemma_rt_str(s: Seq<char>, rest: Seq<u8>)
    requires
        str_ok(s),
    ensures
        dec_str(enc_str(s) + rest) == Some((s, rest)),
{
    let tail = enc_chars(s) + rest;
    assert(enc_str(s) + rest =~= enc_u64(s.len() as u64) + tail);
    lemma_rt_u64(s.len() as u64, tail);
    assert((s.len() as u64) as nat == s.len());
    lemma_rt_chars(s, rest);
}

proof fn lemma_rt_ids(s: Seq<u64>, rest: Seq<u8>)
    ensures
        dec_ids(enc_ids(s) + rest, s.len()) == Some((s, rest)),
    decreases s.len(),
{
    if s.len() == 0 {
        assert(enc_ids(s) + rest =~= rest);
        assert(s =~= Seq::<u64>::empty());
    } else {
        let tail = enc_ids(s.drop_first()) + rest;
        assert(enc_ids(s) + rest =~= enc_u64(s[0]) + tail);
        lemma_rt_u64(s[0], tail);
        lemma_rt_ids(s.drop_first(), rest);
        assert(seq![s[0]] + s.drop_first() =~= s);
    }
}

proof fn lemma_rt_freqs(s: Seq<(Seq<char>, u64)>, rest: Seq<u8>)
    requires
        forall|i: int| 0 <= i < s.len() ==> str_ok((#[trigger] s[i]).0),
    ensures
        dec_freqs(enc_freqs(s) + rest, s.len()) == Some((s, rest)),
    decreases s.len(),
{
    if s.len() == 0 {
        assert(enc_freqs(s) + rest =~= rest);
        assert(s =~= Seq::<(Seq<char>, u64)>::empty());
    } else {
        let t2 = enc_freqs(s.drop_first()) + rest;
        let t1 = enc_u64(s[0].1) + t2;
        assert(enc_freqs(s) + rest =~= enc_str(s[0].0) + t1);
        lemma_rt_str(s[0].0, t1);
        lemma_rt_u64(s[0].1, t2);
        lemma_rt_freqs(s.drop_first(), rest);
        assert(seq![(s[0].0, s[0].1)] + s.drop_first() =~= s);
    }
}

proof fn lemma_rt_last(l: Option<(u64, i64)>, rest: Seq<u8>)
    ensures
        dec_last(enc_last(l) + rest) == Some((l, rest)),
{
    match l {
        None => {
            let b = enc_last(l) + rest;
            assert(b[0] == 0u8);
            assert(b.skip(1) =~= rest);
        },
        Some((id, ts)) => {
            let t2 = enc_i64(ts) + rest;
            let t1 = enc_u64(id) + t2;
            let b = enc_last(l) + rest;
            assert(b[0] == 1u8);
            assert(b.skip(1) =~= t1);
            lemma_rt_u64(id, t2);
            lemma_rt_i64(ts, rest);
        },
    }
}

proof fn lemma_rt_ws(w: WordStatsV, rest: Seq<u8>)
    requires
        ws_ok(w),
    ensures
        dec_ws(enc_ws(w) + rest) == Some((w, rest)),
{
    let t5 = enc_ids(w.included) + rest;
    let t4 = enc_u64(w.included.len() as u64) + t5;
    let t3 = enc_last(w.last) + t4;
    let t2 = enc_freqs(w.freqs) + t3;
    let t1 = enc_u64(w.freqs.len() as u64) + t2;
    assert(enc_ws(w) + rest =~= enc_u64(w.word_count) + t1);
    lemma_rt_u64(w.word_count, t1);
    lemma_rt_u64(w.freqs.len() as u64, t2);
    assert((w.freqs.len() as u64) as nat == w.freqs.len());
    lemma_rt_freqs(w.freqs, t3);
    lemma_rt_last(w.last, t4);
    lemma_rt_u64(w.included.len() as u64, t5);
    assert((w.included.len() as u64) as nat == w.included.len());
    lemma_rt_ids(w.included, rest);
}

proof fn lemma_rt_authors(s: Seq<(u64, WordStatsV)>, rest: Seq<u8>)
    requires
        forall|i: int| 0 <= i < s.len() ==> ws_ok((#[trigger] s[i]).1),
    ensures
        dec_authors(enc_authors(s) + rest, s.len()) == Some((s, rest)),
    decreases s.len(),
{
    if s.len() == 0 {
        assert(enc_authors(s) + rest =~= rest);
        assert(s =~= Seq::<(u64, WordStatsV)>::empty());
    } else {
        let t2 = enc_authors(s.drop_first()) + rest;
        let t1 = enc_ws(s[0].1) + t2;
        assert(enc_authors(s) + rest =~= enc_u64(s[0].0) + t1);
        lemma_rt_u64(s[0].0, t1);
        lemma_rt_ws(s[0].1, t2);
        lemma_rt_authors(s.drop_first(), rest);
        assert(seq![(s[0].0, s[0].1)] + s.drop_first() =~= s);
    }
}

proof fn lemma_rt_cd(cd: ChannelDataV, rest: Seq<u8>)
    requires
        cd_ok(cd),
    ensures
        dec_cd(enc_cd(cd) + rest) == Some((cd, rest)),
{
    let t2 = enc_ws(cd.general_stats) + rest;
    let t1 = enc_authors(cd.author_stats) + t2;
    assert(enc_cd(cd) + rest =~= enc_u64(cd.author_stats.len() as u64) + t1);
    lemma_rt_u64(cd.author_stats.len() as u64, t1);
    assert((cd.author_stats.len() as u64) as nat == cd.author_stats.len());
    lemma_rt_authors(cd.author_stats, t2);
    lemma_rt_ws(cd.general_stats, rest);
}

proof fn lemma_rt_channels(s: Seq<(u64, ChannelDataV)>, rest: Seq<u8>)
    requires
        forall|i: int| 0 <= i < s.len() ==> cd_ok((#[trigger] s[i]).1),
    ensures
        dec_channels(enc_channels(s) + rest, s.len()) == Some((s, rest)),
    decreases s.len(),
{
    if s.len() == 0 {
        assert(enc_channels(s) + rest =~= rest);
        assert(s =~= Seq::<(u64, ChannelDataV)>::empty());
    } else {
        let t2 = enc_channels(s.drop_first()) + rest;
        let t1 = enc_cd(s[0].1) + t2;
        assert(enc_channels(s) + rest =~= enc_u64(s[0].0) + t1);
        lemma_rt_u64(s[0].0, t1);
        lemma_rt_cd(s[0].1, t2);
        lemma_rt_channels(s.drop_first(), rest);
        assert(seq![(s[0].0, s[0].1)] + s.drop_first() =~= s);
    }
}

proof fn lemma_rt_sd(sd: ServerDataV, rest: Seq<u8>)
    requires
        sd_ok(sd),
    ensures
        dec_sd(enc_sd(sd) + rest) == Some((sd, rest)),
{
    let t1 = enc_channels(sd.channels) + rest;
    assert(enc_sd(sd) + rest =~= enc_u64(sd.channels.len() as u64) + t1);
    lemma_rt_u64(sd.channels.len() as u64, t1);
    assert((sd.channels.len() as u64) as nat == sd.channels.len());
    lemma_rt_channels(sd.channels, rest);
    assert(ServerDataV { channels: sd.channels } =~= sd);
}

proof fn lemma_rt_servers(s: Seq<(u64, ServerDataV)>, rest: Seq<u8>)
    requires
        forall|i: int| 0 <= i < s.len() ==> sd_ok((#[trigger] s[i]).1),
    ensures
        dec_servers(enc_servers(s) + rest, s.len()) == Some((s, rest)),
    decreases s.len(),
{
    if s.len() == 0 {
        assert(enc_servers(s) + rest =~= rest);
        assert(s =~= Seq::<(u64, ServerDataV)>::empty());
    } else {
        let t2 = enc_servers(s.drop_first()) + rest;
        let t1 = enc_sd(s[0].1) + t2;
        assert(enc_servers(s) + rest =~= enc_u64(s[0].0) + t1);
        lemma_rt_u64(s[0].0, t1);
        lemma_rt_sd(s[0].1, t2);
        lemma_rt_servers(s.drop_first(), rest);
        assert(seq![(s[0].0, s[0].1)] + s.drop_first() =~= s);
    }
}

// Executable encoders, appending to a byte vector.

pub fn enc_u64_into(out: &mut Vec<u8>, x: u64)
    ensures
        final(out)@ == old(out)@ + enc_u64(x),
{
    let mut b = u64_to_le_bytes(x);
    out.append(&mut b);
}

pub fn enc_u32_into(out: &mut Vec<u8>, x: u32)
    ensures
        final(out)@ == old(out)@ + enc_u32(x),
{
    let mut b = u32_to_le_bytes(x);
    out.append(&mut b);
}

pub fn enc_i64_into(out: &mut Vec<u8>, x: i64)
    ensures
        final(out)@ == old(out)@ + enc_i64(x),
{
    enc_u64_into(out, x as u64);
}

pub fn enc_str_into(out: &mut Vec<u8>, s: &str)
    ensures
        final(out)@ == old(out)@ + enc_str(s@),
        str_ok(s@),
{
    let len = s.unicode_len();
    enc_u64_into(out, len as u64);
    let ghost pre = out@;
    let mut i: usize = 0;
    proof {
        assert(s@.skip(0) =~= s@);
    }
    while i < len
        invariant
            i <= len,
            len == s@.len(),
            out@ + enc_chars(s@.skip(i as int)) == pre + enc_chars(s@),
        decreases len - i,
    {
        let c = s.get_char(i);
        enc_u32_into(out, c as u32);
        proof {
            assert(s@.skip(i as int)[0] == s@[i as int]);
            assert(s@.skip(i as int).drop_first() =~= s@.skip(i as int + 1));
            assert(out@ + enc_chars(s@.skip(i as int + 1)) =~= pre + enc_chars(s@));
        }
        i = i + 1;
    }
    proof {
        assert(s@.skip(len as int) =~= Seq::<char>::empty());
        assert(out@ + enc_chars(Seq::<char>::empty()) =~= out@);
        assert(final(out)@ =~= old(out)@ + enc_str(s@));
    }
}

// Executable decoders, reading at a position in a byte vector. Success and
// failure mirror the specification decoders on the remaining bytes exactly.

/// Relies on `char::from_u32`: `Some` exactly for Unicode scalar values, and
/// then the code point is preserved.
#[verifier::external_body]
fn char_from_u32(u: u32) -> (r: Option<char>)
    ensures
        r == (if is_scalar(u) {
            Some(u as char)
        } else {
            None::<char>
        }),
{
    char::from_u32(u)
}

pub fn dec_u64_at(bytes: &Vec<u8>, pos: usize) -> (r: Option<(u64, usize)>)
    requires
        pos <= bytes@.len(),
    ensures
        match r {
            Some((x, p2)) => pos <= p2 <= bytes@.len() && dec_u64(bytes@.skip(pos as int))
                == Some((x, bytes@.skip(p2 as int))),
            None => dec_u64(bytes@.skip(pos as int)) is None,
        },
{
    if bytes.len() - pos >= 8 {
        let s = slice_subrange(bytes.as_slice(), pos, pos + 8);
        let x = u64_from_le_bytes(s);
        proof {
            assert(bytes@.skip(pos as int).take(8) =~= bytes@.subrange(pos as int, pos as int + 8));
            assert(bytes@.skip(pos as int).skip(8) =~= bytes@.skip(pos as int + 8));
        }
        Some((x, pos + 8))
    } else {
        None
    }
}

pub fn dec_u32_at(bytes: &Vec<u8>, pos: usize) -> (r: Option<(u32, usize)>)
    requires
        pos <= bytes@.len(),
    ensures
        match r {
            Some((x, p2)) => pos <= p2 <= bytes@.len() && dec_u32(bytes@.skip(pos as int))
                == Some((x, bytes@.skip(p2 as int))),
            None => dec_u32(bytes@.skip(pos as int)) is None,
        },
{
    if bytes.len() - pos >= 4 {
        let s = slice_subrange(bytes.as_slice(), pos, pos + 4);
        let x = u32_from_le_bytes(s);
        proof {
            assert(bytes@.skip(pos as int).take(4) =~= bytes@.subrange(pos as int, pos as int + 4));
            assert(bytes@.skip(pos as int).skip(4) =~= bytes@.skip(pos as int + 4));
        }
        Some((x, pos + 4))
    } else {
        None
    }
}

pub fn dec_u8_at(bytes: &Vec<u8>, pos: usize) -> (r: Option<(u8, usize)>)
    requires
        pos <= bytes@.len(),
    ensures
        match r {
            Some((x, p2)) => pos <= p2 <= bytes@.len() && dec_u8(bytes@.skip(pos as int))
                == Some((x, bytes@.skip(p2 as int))),
            None => dec_u8(bytes@.skip(pos as int)) is None,
        },
{
    if bytes.len() - pos >= 1 {
        let x = bytes[pos];
        proof {
            assert(bytes@.skip(pos as int)[0] == bytes@[pos as int]);
            assert(bytes@.skip(pos as int).skip(1) =~= bytes@.skip(pos as int + 1));
        }
        Some((x, pos + 1))
    } else {
        None
    }
}

pub fn dec_i64_at(bytes: &Vec<u8>, pos: usize) -> (r: Option<(i64, usize)>)
    requires
        pos <= bytes@.len(),
    ensures
        match r {
            Some((x, p2)) => pos <= p2 <= bytes@.len() && dec_i64(bytes@.skip(pos as int))
                == Some((x, bytes@.skip(p2 as int))),
            None => dec_i64(bytes@.skip(pos as int)) is None,
        },
{
    match dec_u64_at(bytes, pos) {
        Some((x, p2)) => Some((x as i64, p2)),
        None => None,
    }
}

pub fn dec_char_at(bytes: &Vec<u8>, pos: usize) -> (r: Option<(char, usize)>)
    requires
        pos <= bytes@.len(),
    ensures
        match r {
            Some((c, p2)) => pos <= p2 <= bytes@.len() && dec_char(bytes@.skip(pos as int))
                == Some((c, bytes@.skip(p2 as int))),
            None => dec_char(bytes@.skip(pos as int)) is None,
        },
{
    match dec_u32_at(bytes, pos) {
        Some((u, p2)) => match char_from_u32(u) {
            Some(c) => Some((c, p2)),
            None => None,
        },
        None => None,
    }
}

pub fn dec_str_at(bytes: &Vec<u8>, pos: usize) -> (r: Option<(String, usize)>)
    requires
        pos <= bytes@.len(),
    ensures
        match r {
            Some((s, p2)) => pos <= p2 <= bytes@.len() && dec_str(bytes@.skip(pos as int))
                == Some((s@, bytes@.skip(p2 as int))),
            None => dec_str(bytes@.skip(pos as int)) is None,
        },
{
    let (n, start) = match dec_u64_at(bytes, pos) {
        Some(v) => v,
        None => {
            return None;
        },
    };
    let mut acc = String::new();
    let mut p = start;
    let mut k: u64 = 0;
    proof {
        assert(acc@ + Seq::<char>::empty() =~= Seq::<char>::empty());
    }
    while k < n
        invariant
            k <= n,
            pos <= start <= p <= bytes@.len(),
            dec_u64(bytes@.skip(pos as int)) == Some::<(u64, Seq<u8>)>(
                (n, bytes@.skip(start as int)),
            ),
            dec_chars(bytes@.skip(start as int), n as nat) == (match dec_chars(
                bytes@.skip(p as int),
                (n - k) as nat,
            ) {
                Some((s2, r2)) => Some::<(Seq<char>, Seq<u8>)>((acc@ + s2, r2)),
                None => None::<(Seq<char>, Seq<u8>)>,
            }),
        decreases n - k,
    {
        match dec_char_at(bytes, p) {
            Some((c, p2)) => {
                proof {
                    let ghost rest_opt = dec_chars(bytes@.skip(p2 as int), (n - k - 1) as nat);
                    match rest_opt {
                        Some((s3, r3)) => {
                            assert(acc@ + (seq![c] + s3) =~= acc@.push(c) + s3);
                        },
                        None => {},
                    }
                }
                push_char(&mut acc, c);
                p = p2;
                k = k + 1;
            },
            None => {
                return None;
            },
        }
    }
    proof {
        assert(dec_chars(bytes@.skip(p as int), 0) == Some(
            (Seq::<char>::empty(), bytes@.skip(p as int)),
        ));
        assert(acc@ + Seq::<char>::empty() =~= acc@);
    }
    Some((acc, p))
}

/// Decodes `n` (word, count) entries.
pub fn dec_freqs_at(bytes: &Vec<u8>, pos: usize, n: u64) -> (r: Option<(Vec<(String, u64)>, usize)>)
    requires
        pos <= bytes@.len(),
    ensures
        match r {
            Some((v, p2)) => pos <= p2 <= bytes@.len() && dec_freqs(bytes@.skip(pos as int), n as nat)
                == Some((dv_pairs(v@), bytes@.skip(p2 as int))),
            None => dec_freqs(bytes@.skip(pos as int), n as nat) is None,
        },
{
    let mut acc: Vec<(String, u64)> = Vec::new();
    let mut p = pos;
    let mut k: u64 = 0;
    proof {
        assert(dv_pairs(acc@) =~= Seq::<(Seq<char>, u64)>::empty());
        assert(dv_pairs(acc@) + Seq::<(Seq<char>, u64)>::empty() =~= dv_pairs(acc@));
    }
    while k < n
        invariant
            k <= n,
            pos <= p <= bytes@.len(),
            dec_freqs(bytes@.skip(pos as int), n as nat) == (match dec_freqs(
                bytes@.skip(p as int),
                (n - k) as nat,
            ) {
                Some((s2, r2)) => Some::<(Seq<(Seq<char>, u64)>, Seq<u8>)>(
                    (dv_pairs(acc@) + s2, r2),
                ),
                None => None::<(Seq<(Seq<char>, u64)>, Seq<u8>)>,
            }),
        decreases n - k,
    {
        let (w, p1) = match dec_str_at(bytes, p) {
            Some(v) => v,
            None => {
                return None;
            },
        };
        let (c, p2) = match dec_u64_at(bytes, p1) {
            Some(v) => v,
            None => {
                return None;
            },
        };
        proof {
            let ghost rest_opt = dec_freqs(bytes@.skip(p2 as int), (n - k - 1) as nat);
            match rest_opt {
                Some((s3, r3)) => {
                    assert(dv_pairs(acc@.push((w, c))) =~= dv_pairs(acc@).push((w@, c)));
                    assert(dv_pairs(acc@) + (seq![(w@, c)] + s3) =~= dv_pairs(acc@).push((w@, c))
                        + s3);
                },
                None => {},
            }
        }
        acc.push((w, c));
        p = p2;
        k = k + 1;
    }
    proof {
        assert(dv_pairs(acc@) + Seq::<(Seq<char>, u64)>::empty() =~= dv_pairs(acc@));
    }
    Some((acc, p))
}

/// Decodes `n` identifiers.
pub fn dec_ids_at(bytes: &Vec<u8>, pos: usize, n: u64) -> (r: Option<(Vec<u64>, usize)>)
    requires
        pos <= bytes@.len(),
    ensures
        match r {
            Some((v, p2)) => pos <= p2 <= bytes@.len() && dec_ids(bytes@.skip(pos as int), n as nat)
                == Some((v@, bytes@.skip(p2 as int))),
            None => dec_ids(bytes@.skip(pos as int), n as nat) is None,
        },
{
    let mut acc: Vec<u64> = Vec::new();
    let mut p = pos;
    let mut k: u64 = 0;
    proof {
        assert(acc@ + Seq::<u64>::empty() =~= acc@);
    }
    while k < n
        invariant
            k <= n,
            pos <= p <= bytes@.len(),
            dec_ids(bytes@.skip(pos as int), n as nat) == (match dec_ids(
                bytes@.skip(p as int),
                (n - k) as nat,
            ) {
                Some((s2, r2)) => Some::<(Seq<u64>, Seq<u8>)>((acc@ + s2, r2)),
                None => None::<(Seq<u64>, Seq<u8>)>,
            }),
        decreases n - k,
    {
        let (x, p1) = match dec_u64_at(bytes, p) {
            Some(v) => v,
            None => {
                return None;
            },
        };
        proof {
            let ghost rest_opt = dec_ids(bytes@.skip(p1 as int), (n - k - 1) as nat);
            match rest_opt {
                Some((s3, r3)) => {
                    assert(acc@ + (seq![x] + s3) =~= acc@.push(x) + s3);
                },
                None => {},
            }
        }
        acc.push(x);
        p = p1;
        k = k + 1;
    }
    proof {
        assert(acc@ + Seq::<u64>::empty() =~= acc@);
    }
    Some((acc, p))
}

/// Decodes a recency marker.
pub fn dec_last_at(bytes: &Vec<u8>, pos: usize) -> (r: Option<(Option<(u64, i64)>, usize)>)
    requires
        pos <= bytes@.len(),
    ensures
        match r {
            Some((l, p2)) => pos <= p2 <= bytes@.len() && dec_last(bytes@.skip(pos as int))
                == Some((l, bytes@.skip(p2 as int))),
            None => dec_last(bytes@.skip(pos as int)) is None,
        },
{
    let (tag, p1) = match dec_u8_at(bytes, pos) {
        Some(v) => v,
        None => {
            return None;
        },
    };
    if tag == 0 {
        Some((None, p1))
    } else if tag == 1 {
        let (id, p2) = match dec_u64_at(bytes, p1) {
            Some(v) => v,
            None => {
                return None;
            },
        };
        let (ts, p3) = match dec_i64_at(bytes, p2) {
            Some(v) => v,
            None => {
                return None;
            },
        };
        Some((Some((id, ts)), p3))
    } else {
        None
    }
}

/// Law (snapshot round trip): decoding an encoded aggregate tree yields
/// exactly the tree, with no bytes left over — every frequency table, count,
/// recency marker and dedup set comes back unchanged.
pub proof fn lemma_snapshot_roundtrip(data: Seq<(u64, ServerDataV)>, rest: Seq<u8>)
    requires
        data_ok(data),
    ensures
        dec_data(enc_data(data) + rest) == Some((data, rest)),
        dec_data(enc_data(data)) == Some((data, Seq::<u8>::empty())),
{
    let t1 = enc_servers(data) + rest;
    assert(enc_data(data) + rest =~= enc_u64(data.len() as u64) + t1);
    lemma_rt_u64(data.len() as u64, t1);
    assert((data.len() as u64) as nat == data.len());
    lemma_rt_servers(data, rest);

    let t2 = enc_servers(data) + Seq::<u8>::empty();
    assert(t2 =~= enc_servers(data));
    assert(enc_data(data) =~= enc_u64(data.len() as u64) + t2);
    lemma_rt_u64(data.len() as u64, t2);
    lemma_rt_servers(data, Seq::<u8>::empty());
}

} // verus!
