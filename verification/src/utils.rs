//! General helpers: stripping a delimiter character from the ends of a
//! string slice, iterating a keyed table in a caller-chosen order with an
//! optional cap, and ASCII transliteration of arbitrary text.

use vstd::prelude::*;

use crate::assoc::{get_val, has_key, lemma_find_key};
use crate::state::find_id_key;
use crate::strutil::str_eq;

verus! {

/// One `c` removed from the front of `s` (if present), then one `c` removed
/// from the back of what remains (if present).
pub open spec fn spec_strip_leading_trailing(s: Seq<char>, c: char) -> Seq<char> {
    let t = if s.len() > 0 && s[0] == c {
        s.subrange(1, s.len() as int)
    } else {
        s
    };
    if t.len() > 0 && t[t.len() - 1] == c {
        t.subrange(0, t.len() - 1)
    } else {
        t
    }
}

/// Strips at most one `c` from each end of `s`.
pub fn strip_leading_trailing<'a>(s: &'a str, c: char) -> (r: &'a str)
    ensures
        r@ == spec_strip_leading_trailing(s@, c),
{
    let len = s.unicode_len();
    let start: usize = if len > 0 && s.get_char(0) == c {
        1
    } else {
        0
    };
    let end: usize = if len > start && s.get_char(len - 1) == c {
        len - 1
    } else {
        len
    };
    let r = s.substring_char(start, end);
    proof {
        assert(r@ =~= spec_strip_leading_trailing(s@, c));
    }
    r
}

/// Walks the entries of a keyed table in the order of `sorted_keys`, up to a
/// caller-given cap.
pub struct SortedHashMap<'a, V> {
    map: &'a Vec<(u64, V)>,
    sorted_keys: Vec<u64>,
    limit: usize,
    i: usize,
    /// True when the cap cut the walk short.
    pub is_truncated: bool,
}

/// Mathematical model of a [`SortedHashMap`].
#[verifier::ext_equal]
#[verifier::reject_recursive_types(V)]
pub struct SortedHashMapV<V> {
    pub entries: Seq<(u64, V)>,
    pub sorted_keys: Seq<u64>,
    pub limit: int,
    pub pos: int,
    pub truncated: bool,
}

impl<'a, V> View for SortedHashMap<'a, V> {
    type V = SortedHashMapV<V>;

    closed spec fn view(&self) -> SortedHashMapV<V> {
        SortedHashMapV {
            entries: self.map@,
            sorted_keys: self.sorted_keys@,
            limit: self.limit as int,
            pos: self.i as int,
            truncated: self.is_truncated,
        }
    }
}

/// Internal invariant: every listed key has an entry, and the cap and the
/// position stay within the key list.
pub open spec fn shm_wf<V>(v: SortedHashMapV<V>) -> bool {
    &&& v.sorted_keys.len() <= v.entries.len()
    &&& 0 <= v.limit <= v.sorted_keys.len()
    &&& 0 <= v.pos
    &&& v.truncated == (v.limit < v.sorted_keys.len())
    &&& forall|j: int| 0 <= j < v.sorted_keys.len() ==> has_key(
        v.entries,
        #[trigger] v.sorted_keys[j],
    )
}

impl<'a, V> SortedHashMap<'a, V> {
    /// A walk over `map` in the order of `sorted_keys`, capped at `limit`
    /// entries when one is given. The keys index the map, so they must not
    /// outnumber it and each must be present.
    pub fn new(map: &'a Vec<(u64, V)>, sorted_keys: Vec<u64>, limit: Option<usize>) -> (r: Self)
        requires
            sorted_keys@.len() <= map@.len(),
            forall|j: int| 0 <= j < sorted_keys@.len() ==> has_key(
                map@,
                #[trigger] sorted_keys@[j],
            ),
        ensures
            r@.entries == map@,
            r@.sorted_keys == sorted_keys@,
            r@.pos == 0,
            r@.limit == (match limit {
                None => sorted_keys@.len() as int,
                Some(lim) => if lim < sorted_keys@.len() {
                    lim as int
                } else {
                    sorted_keys@.len() as int
                },
            }),
            r@.truncated == (r@.limit < sorted_keys@.len()),
            shm_wf(r@),
    {
        let n = sorted_keys.len();
        let limit = match limit {
            None => n,
            Some(lim) => if lim < n {
                lim
            } else {
                n
            },
        };
        let is_truncated = limit < n;
        Self { map, sorted_keys, limit, i: 0, is_truncated }
    }

    /// True when the cap cut the walk short.
    pub fn is_truncated(&self) -> (r: bool)
        ensures
            r == self@.truncated,
    {
        self.is_truncated
    }

    /// How many entries the walk yields at most.
    pub fn limit(&self) -> (r: usize)
        ensures
            r == self@.limit,
    {
        self.limit
    }

    /// The next entry of the walk, or nothing once the cap is reached.
    pub fn next(&mut self) -> (r: Option<(u64, &'a V)>)
        requires
            shm_wf(old(self)@),
        ensures
            shm_wf(final(self)@),
            final(self)@.entries == old(self)@.entries,
            final(self)@.sorted_keys == old(self)@.sorted_keys,
            final(self)@.limit == old(self)@.limit,
            final(self)@.truncated == old(self)@.truncated,
            old(self)@.pos >= old(self)@.limit ==> r is None && final(self)@.pos == old(
                self,
            )@.pos,
            old(self)@.pos < old(self)@.limit ==> {
                &&& final(self)@.pos == old(self)@.pos + 1
                &&& match r {
                    Some((k, v)) => k == old(self)@.sorted_keys[old(self)@.pos] && *v == get_val(
                        old(self)@.entries,
                        k,
                    ),
                    None => false,
                }
            },
    {
        if self.i >= self.limit {
            None
        } else {
            let key = self.sorted_keys[self.i];
            proof {
                lemma_find_key(self.map@, key);
            }
            match find_id_key(self.map, key) {
                Some(idx) => {
                    self.i = self.i + 1;
                    let p = &self.map[idx];
                    Some((key, &p.1))
                },
                None => {
                    proof {
                        assert(false);
                    }
                    unreached()
                },
            }
        }
    }
}

/// What `unidecode::unidecode_char` returns for a character: its ASCII
/// transliteration, a pure function of the character alone.
pub uninterp spec fn unidecode_char_of(c: char) -> Seq<char>;

/// Relies on `unidecode::unidecode_char`: a deterministic ASCII
/// transliteration of one character, read from a fixed table.
#[verifier::external_body]
fn unidecode_char(c: char) -> (r: String)
    ensures
        r@ == unidecode_char_of(c),
{
    unidecode::unidecode_char(c).to_owned()
}

/// A handful of small-capital letters that the transliteration data does not
/// know, mapped to their plain forms; everything else passes through.
pub open spec fn spec_extra_char_map(c: char) -> char {
    match c {
        '\u{1d00}' => 'a',
        '\u{299}' => 'b',
        '\u{1d04}' => 'c',
        '\u{1d05}' => 'd',
        '\u{1d07}' => 'e',
        '\u{a730}' => 'f',
        '\u{493}' => 'f',
        '\u{262}' => 'g',
        '\u{29c}' => 'h',
        '\u{26a}' => 'i',
        '\u{1d0a}' => 'j',
        '\u{1d0b}' => 'k',
        '\u{29f}' => 'l',
        '\u{1d0d}' => 'm',
        '\u{274}' => 'n',
        '\u{1d0f}' => 'o',
        '\u{1d18}' => 'p',
        '\u{1eb}' => 'q',
        '\u{280}' => 'r',
        '\u{1d1b}' => 't',
        '\u{1d1c}' => 'u',
        '\u{1d20}' => 'v',
        '\u{1d21}' => 'w',
        '\u{28f}' => 'y',
        '\u{1d22}' => 'z',
        _ => c,
    }
}

/// Maps small-capital letters the transliteration misses to plain ones.
pub fn extra_char_map(c: char) -> (r: char)
    ensures
        r == spec_extra_char_map(c),
{
    match c {
        '\u{1d00}' => 'a',
        '\u{299}' => 'b',
        '\u{1d04}' => 'c',
        '\u{1d05}' => 'd',
        '\u{1d07}' => 'e',
        '\u{a730}' => 'f',
        '\u{493}' => 'f',
        '\u{262}' => 'g',
        '\u{29c}' => 'h',
        '\u{26a}' => 'i',
        '\u{1d0a}' => 'j',
        '\u{1d0b}' => 'k',
        '\u{29f}' => 'l',
        '\u{1d0d}' => 'm',
        '\u{274}' => 'n',
        '\u{1d0f}' => 'o',
        '\u{1d18}' => 'p',
        '\u{1eb}' => 'q',
        '\u{280}' => 'r',
        '\u{1d1b}' => 't',
        '\u{1d1c}' => 'u',
        '\u{1d20}' => 'v',
        '\u{1d21}' => 'w',
        '\u{28f}' => 'y',
        '\u{1d22}' => 'z',
        _ => c,
    }
}

/// The ASCII transliteration of `s`, character by character after the extra
/// mapping, or nothing when any character transliterates to the unknown
/// marker `"[?]"`.
pub open spec fn spec_unidecode(s: Seq<char>) -> Option<Seq<char>>
    decreases s.len(),
{
    if s.len() == 0 {
        Some(Seq::empty())
    } else {
        let d = unidecode_char_of(spec_extra_char_map(s[0]));
        if d == "[?]"@ {
            None
        } else {
            match spec_unidecode(s.drop_first()) {
                None => None,
                Some(rest) => Some(d + rest),
            }
        }
    }
}

/// Transliterates `s` to ASCII, refusing text with unknown characters.
pub fn unidecode(input: &str) -> (r: Option<String>)
    ensures
        match r {
            Some(out) => spec_unidecode(input@) == Some(out@),
            None => spec_unidecode(input@) is None,
        },
{
    let len = input.unicode_len();
    let mut out = String::new();
    let mut i: usize = 0;
    proof {
        assert(input@.skip(0) =~= input@);
    }
    while i < len
        invariant
            i <= len,
            len == input@.len(),
            spec_unidecode(input@) == (match spec_unidecode(input@.skip(i as int)) {
                Some(rest) => Some::<Seq<char>>(out@ + rest),
                None => None::<Seq<char>>,
            }),
        decreases len - i,
    {
        let c = input.get_char(i);
        let mapped = extra_char_map(c);
        let decoded = unidecode_char(mapped);
        proof {
            assert(input@.skip(i as int)[0] == input@[i as int]);
            assert(input@.skip(i as int).drop_first() =~= input@.skip(i as int + 1));
        }
        if str_eq(decoded.as_str(), "[?]") {
            return None;
        }
        proof {
            let ghost rest_opt = spec_unidecode(input@.skip(i as int + 1));
            match rest_opt {
                Some(rest) => {
                    assert(out@ + (decoded@ + rest) =~= (out@ + decoded@) + rest);
                },
                None => {},
            }
        }
        out.append(decoded.as_str());
        i = i + 1;
    }
    proof {
        assert(input@.skip(len as int) =~= Seq::<char>::empty());
        assert(spec_unidecode(Seq::<char>::empty()) == Some(Seq::<char>::empty()));
        assert(out@ + Seq::<char>::empty() =~= out@);
    }
    Some(out)
}

} // verus!
