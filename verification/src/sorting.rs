//! Stable insertion sorts and helpers for the ranking queries: pairs sorted
//! ascending by count (ties keep first-seen order), sequence reversal, and
//! adjacent deduplication of sorted identifiers.

use vstd::prelude::*;

verus! {

/// `x` inserted before the first entry with a strictly larger count, so
/// equal counts keep their existing order.
pub open spec fn insert_by_count<T>(x: (T, u64), s: Seq<(T, u64)>) -> Seq<(T, u64)>
    decreases s.len(),
{
    if s.len() == 0 {
        seq![x]
    } else if x.1 < s[0].1 {
        seq![x] + s
    } else {
        seq![s[0]] + insert_by_count(x, s.drop_first())
    }
}

/// Stable sort of pairs by ascending count.
pub open spec fn sort_by_count_asc<T>(s: Seq<(T, u64)>) -> Seq<(T, u64)>
    decreases s.len(),
{
    if s.len() == 0 {
        Seq::empty()
    } else {
        insert_by_count(s.last(), sort_by_count_asc(s.drop_last()))
    }
}

/// Inserting at the first position whose count exceeds `x`'s is exactly
/// `insert_by_count`.
proof fn lemma_insert_by_count_at<T>(x: (T, u64), s: Seq<(T, u64)>, j: int)
    requires
        0 <= j <= s.len(),
        forall|l: int| 0 <= l < j ==> s[l].1 <= x.1,
        j < s.len() ==> s[j].1 > x.1,
    ensures
        insert_by_count(x, s) == s.insert(j, x),
    decreases s.len(),
{
    if s.len() == 0 {
        assert(insert_by_count(x, s) =~= s.insert(0, x));
    } else if j == 0 {
        assert(x.1 < s[0].1);
        assert(seq![x] + s =~= s.insert(0, x));
    } else {
        assert(s[0].1 <= x.1);
        lemma_insert_by_count_at(x, s.drop_first(), j - 1);
        assert(seq![s[0]] + s.drop_first().insert(j - 1, x) =~= s.insert(j, x));
    }
}

/// Sorts pairs by ascending count with a stable insertion sort.
pub fn sort_pairs_by_count<T>(v: Vec<(T, u64)>) -> (r: Vec<(T, u64)>)
    ensures
        r@ == sort_by_count_asc(v@),
{
    let ghost orig = v@;
    let mut input = v;
    let mut out: Vec<(T, u64)> = Vec::new();
    let ghost mut i: int = 0;
    proof {
        assert(orig.take(0) =~= Seq::<(T, u64)>::empty());
        assert(input@ =~= orig.skip(0));
    }
    while input.len() > 0
        invariant
            0 <= i <= orig.len(),
            input@.len() == orig.len() - i,
            input@ == orig.skip(i),
            out@ == sort_by_count_asc(orig.take(i)),
        decreases input.len(),
    {
        let x = input.remove(0);
        proof {
            assert(x == orig[i]);
            assert(input@ =~= orig.skip(i + 1));
        }
        let mut j: usize = 0;
        while j < out.len() && out[j].1 <= x.1
            invariant
                j <= out.len(),
                forall|l: int| 0 <= l < j ==> out@[l].1 <= x.1,
            decreases out.len() - j,
        {
            j = j + 1;
        }
        let ghost pre = out@;
        out.insert(j, x);
        proof {
            lemma_insert_by_count_at(x, pre, j as int);
            assert(orig.take(i + 1).drop_last() =~= orig.take(i));
            assert(orig.take(i + 1).last() == orig[i]);
            assert(out@ == sort_by_count_asc(orig.take(i + 1)));
            i = i + 1;
        }
    }
    proof {
        assert(orig.take(orig.len() as int) =~= orig);
    }
    out
}

/// Reverses a vector of pairs.
pub fn reverse_pairs<T>(v: Vec<(T, u64)>) -> (r: Vec<(T, u64)>)
    ensures
        r@ == v@.reverse(),
{
    let ghost orig = v@;
    let mut input = v;
    let mut out: Vec<(T, u64)> = Vec::new();
    let ghost mut n: int = v@.len() as int;
    proof {
        assert(input@ =~= orig.take(orig.len() as int));
        assert(out@ =~= orig.skip(orig.len() as int).reverse());
    }
    while input.len() > 0
        invariant
            0 <= n <= orig.len(),
            input@.len() == n,
            input@ == orig.take(n),
            out@ == orig.skip(n).reverse(),
        decreases input.len(),
    {
        let x = match input.pop() {
            Some(y) => y,
            None => {
                proof {
                    assert(false);
                }
                unreached()
            },
        };
        out.push(x);
        proof {
            assert(x == orig[n - 1]);
            assert(input@ =~= orig.take(n - 1));
            assert(out@ =~= orig.skip(n - 1).reverse());
            n = n - 1;
        }
    }
    proof {
        assert(orig.skip(0) =~= orig);
    }
    out
}

/// `x` inserted into a sorted sequence of identifiers, before the first
/// strictly larger one.
pub open spec fn insert_id(x: u64, s: Seq<u64>) -> Seq<u64>
    decreases s.len(),
{
    if s.len() == 0 {
        seq![x]
    } else if x < s[0] {
        seq![x] + s
    } else {
        seq![s[0]] + insert_id(x, s.drop_first())
    }
}

/// Insertion sort of identifiers, ascending.
pub open spec fn sort_ids_asc(s: Seq<u64>) -> Seq<u64>
    decreases s.len(),
{
    if s.len() == 0 {
        Seq::empty()
    } else {
        insert_id(s.last(), sort_ids_asc(s.drop_last()))
    }
}

proof fn lemma_insert_id_at(x: u64, s: Seq<u64>, j: int)
    requires
        0 <= j <= s.len(),
        forall|l: int| 0 <= l < j ==> s[l] <= x,
        j < s.len() ==> s[j] > x,
    ensures
        insert_id(x, s) == s.insert(j, x),
    decreases s.len(),
{
    if s.len() == 0 {
        assert(insert_id(x, s) =~= s.insert(0, x));
    } else if j == 0 {
        assert(seq![x] + s =~= s.insert(0, x));
    } else {
        lemma_insert_id_at(x, s.drop_first(), j - 1);
        assert(seq![s[0]] + s.drop_first().insert(j - 1, x) =~= s.insert(j, x));
    }
}

/// Sorts identifiers ascending.
pub fn sort_ids(v: Vec<u64>) -> (r: Vec<u64>)
    ensures
        r@ == sort_ids_asc(v@),
{
    let ghost orig = v@;
    let mut input = v;
    let mut out: Vec<u64> = Vec::new();
    let ghost mut i: int = 0;
    proof {
        assert(orig.take(0) =~= Seq::<u64>::empty());
        assert(input@ =~= orig.skip(0));
    }
    while input.len() > 0
        invariant
            0 <= i <= orig.len(),
            input@.len() == orig.len() - i,
            input@ == orig.skip(i),
            out@ == sort_ids_asc(orig.take(i)),
        decreases input.len(),
    {
        let x = input.remove(0);
        proof {
            assert(x == orig[i]);
            assert(input@ =~= orig.skip(i + 1));
        }
        let mut j: usize = 0;
        while j < out.len() && out[j] <= x
            invariant
                j <= out.len(),
                forall|l: int| 0 <= l < j ==> out@[l] <= x,
            decreases out.len() - j,
        {
            j = j + 1;
        }
        let ghost pre = out@;
        out.insert(j, x);
        proof {
            lemma_insert_id_at(x, pre, j as int);
            assert(orig.take(i + 1).drop_last() =~= orig.take(i));
            assert(orig.take(i + 1).last() == orig[i]);
            assert(out@ == sort_ids_asc(orig.take(i + 1)));
            i = i + 1;
        }
    }
    proof {
        assert(orig.take(orig.len() as int) =~= orig);
    }
    out
}

/// Adjacent duplicates removed: each element equal to its predecessor is
/// dropped.
pub open spec fn dedup_adjacent(s: Seq<u64>) -> Seq<u64>
    decreases s.len(),
{
    if s.len() == 0 {
        Seq::empty()
    } else if s.len() == 1 {
        s
    } else if s.last() == s[s.len() - 2] {
        dedup_adjacent(s.drop_last())
    } else {
        dedup_adjacent(s.drop_last()).push(s.last())
    }
}

/// Removes adjacent duplicates.
pub fn dedup_ids(v: &Vec<u64>) -> (r: Vec<u64>)
    ensures
        r@ == dedup_adjacent(v@),
{
    let mut out: Vec<u64> = Vec::new();
    let mut i: usize = 0;
    proof {
        assert(v@.take(0) =~= Seq::<u64>::empty());
    }
    while i < v.len()
        invariant
            i <= v.len(),
            out@ == dedup_adjacent(v@.take(i as int)),
        decreases v.len() - i,
    {
        proof {
            assert(v@.take(i as int + 1).drop_last() =~= v@.take(i as int));
            assert(v@.take(i as int + 1).last() == v@[i as int]);
        }
        if i == 0 || v[i] != v[i - 1] {
            out.push(v[i]);
        }
        i = i + 1;
    }
    proof {
        assert(v@.take(v@.len() as int) =~= v@);
    }
    out
}

} // verus!
