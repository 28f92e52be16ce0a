//! Tallies of names (block, structure or entity types): a table of distinct
//! names with a count each, counts saturating at `u64::MAX`.
use vstd::prelude::*;

use crate::text::{chars_lt, lemma_seq_lt_total, seq_lt};

verus! {

/// Number of times `x` occurs in `s`.
pub open spec fn occ<A>(s: Seq<A>, x: A) -> nat
    decreases s.len(),
{
    if s.len() == 0 {
        0
    } else {
        occ(s.drop_last(), x) + if s.last() == x {
            1nat
        } else {
            0nat
        }
    }
}

/// Occurrences in a concatenation add up.
pub proof fn lemma_occ_concat<A>(a: Seq<A>, b: Seq<A>, x: A)
    ensures
        occ(a + b, x) == occ(a, x) + occ(b, x),
    decreases b.len(),
{
    if b.len() == 0 {
        assert(a + b == a);
    } else {
        lemma_occ_concat(a, b.drop_last(), x);
        assert((a + b).drop_last() == a + b.drop_last());
    }
}

/// Occurrences in a sequence of one repeated value.
pub proof fn lemma_occ_repeat<A>(n: nat, v: A, x: A)
    ensures
        occ(Seq::new(n, |i: int| v), x) == if v == x {
            n
        } else {
            0
        },
    decreases n,
{
    if n > 0 {
        let s = Seq::new(n, |i: int| v);
        assert(s.drop_last() == Seq::new((n - 1) as nat, |i: int| v));
        lemma_occ_repeat((n - 1) as nat, v, x);
    }
}

/// The count recorded for `n` (0 when `n` has no entry).
pub open spec fn tally(c: Seq<(String, u64)>, n: Seq<char>) -> int
    decreases c.len(),
{
    if c.len() == 0 {
        0
    } else if c[0].0@ == n {
        c[0].1 as int
    } else {
        tally(c.drop_first(), n)
    }
}

/// Every name has at most one entry.
pub open spec fn keys_distinct(c: Seq<(String, u64)>) -> bool {
    forall|i: int, j: int| 0 <= i < j < c.len() ==> c[i].0@ != c[j].0@
}

/// `x` capped at `u64::MAX`.
pub open spec fn sat(x: int) -> int {
    if x > u64::MAX {
        u64::MAX as int
    } else {
        x
    }
}

/// The count of an entry's name is that entry's count.
pub proof fn lemma_tally_at(c: Seq<(String, u64)>, i: int)
    requires
        keys_distinct(c),
        0 <= i < c.len(),
    ensures
        tally(c, c[i].0@) == c[i].1 as int,
    decreases c.len(),
{
    if i > 0 {
        assert(keys_distinct(c.drop_first()));
        lemma_tally_at(c.drop_first(), i - 1);
    }
}

/// A name without an entry counts 0.
pub proof fn lemma_tally_absent(c: Seq<(String, u64)>, n: Seq<char>)
    requires
        forall|i: int| 0 <= i < c.len() ==> c[i].0@ != n,
    ensures
        tally(c, n) == 0,
    decreases c.len(),
{
    if c.len() > 0 {
        lemma_tally_absent(c.drop_first(), n);
    }
}

/// Every name's count is a `u64`.
pub proof fn lemma_tally_bounds(c: Seq<(String, u64)>, n: Seq<char>)
    ensures
        0 <= tally(c, n) <= u64::MAX,
    decreases c.len(),
{
    if c.len() > 0 {
        lemma_tally_bounds(c.drop_first(), n);
    }
}

/// Characterises a tally by its entries.
pub proof fn lemma_tally_cases(c: Seq<(String, u64)>, n: Seq<char>)
    requires
        keys_distinct(c),
    ensures
        (exists|i: int| 0 <= i < c.len() && c[i].0@ == n) || tally(c, n) == 0,
        forall|i: int| 0 <= i < c.len() && c[i].0@ == n ==> tally(c, n) == c[i].1 as int,
{
    if !(exists|i: int| 0 <= i < c.len() && c[i].0@ == n) {
        lemma_tally_absent(c, n);
    }
    assert forall|i: int| 0 <= i < c.len() && c[i].0@ == n implies tally(c, n) == c[i].1 as int by {
        lemma_tally_at(c, i);
    }
}

/// Whether `n` has an entry.
pub open spec fn has_key(c: Seq<(String, u64)>, n: Seq<char>) -> bool {
    exists|i: int| 0 <= i < c.len() && c[i].0@ == n
}

/// Adds `k` to the count of `name` (capped at `u64::MAX`), giving `name`
/// an entry if it had none.
pub fn add_count(c: &mut Vec<(String, u64)>, name: &String, k: u64)
    requires
        keys_distinct(old(c)@),
    ensures
        keys_distinct(final(c)@),
        forall|n: Seq<char>|
            #![trigger has_key(final(c)@, n)]
            has_key(final(c)@, n) == (has_key(old(c)@, n) || n == name@),
        forall|n: Seq<char>|
            #![trigger tally(final(c)@, n)]
            tally(final(c)@, n) == if n == name@ {
                sat(tally(old(c)@, n) + k)
            } else {
                tally(old(c)@, n)
            },
{
    let mut i: usize = 0;
    while i < c.len()
        invariant
            i <= c.len(),
            c@ == old(c)@,
            keys_distinct(old(c)@),
            forall|j: int| 0 <= j < i ==> c@[j].0@ != name@,
        decreases c.len() - i,
    {
        if c[i].0 == *name {
            let old_count = c[i].1;
            let new_count = old_count.saturating_add(k);
            let ghost before = c@;
            let entry = (c[i].0.clone(), new_count);
            c.set(i, entry);
            proof {
                assert(keys_distinct(c@)) by {
                    assert forall|a: int, b: int| 0 <= a < b < c@.len() implies c@[a].0@
                        != c@[b].0@ by {
                        assert(c@[a].0@ == before[a].0@);
                        assert(c@[b].0@ == before[b].0@);
                    }
                }
                assert forall|n: Seq<char>| #![trigger has_key(c@, n)] has_key(c@, n) == (has_key(
                    before,
                    n,
                ) || n == name@) by {
                    if has_key(c@, n) {
                        let j = choose|j: int| 0 <= j < c@.len() && c@[j].0@ == n;
                        assert(before[j].0@ == n);
                    }
                    if has_key(before, n) {
                        let j = choose|j: int| 0 <= j < before.len() && before[j].0@ == n;
                        assert(c@[j].0@ == before[j].0@);
                    }
                    if n == name@ {
                        assert(c@[i as int].0@ == n);
                    }
                }
                assert forall|n: Seq<char>| #![trigger tally(c@, n)] tally(c@, n) == if n == name@ {
                    sat(tally(before, n) + k)
                } else {
                    tally(before, n)
                } by {
                    lemma_tally_cases(before, n);
                    lemma_tally_cases(c@, n);
                    if n == name@ {
                        lemma_tally_at(before, i as int);
                        lemma_tally_at(c@, i as int);
                    } else {
                        if exists|j: int| 0 <= j < before.len() && before[j].0@ == n {
                            let j = choose|j: int| 0 <= j < before.len() && before[j].0@ == n;
                            assert(c@[j].0@ == n);
                        } else {
                            assert forall|j: int| 0 <= j < c@.len() implies c@[j].0@ != n by {
                                assert(c@[j].0@ == before[j].0@);
                            }
                            lemma_tally_absent(c@, n);
                        }
                    }
                }
            }
            return;
        }
        i = i + 1;
    }
    let ghost before = c@;
    c.push((name.clone(), if k > u64::MAX { u64::MAX } else { k }));
    proof {
        assert(keys_distinct(c@));
        assert forall|n: Seq<char>| #![trigger has_key(c@, n)] has_key(c@, n) == (has_key(
            before,
            n,
        ) || n == name@) by {
            if has_key(c@, n) {
                let j = choose|j: int| 0 <= j < c@.len() && c@[j].0@ == n;
                if j < before.len() {
                    assert(before[j].0@ == n);
                }
            }
            if has_key(before, n) {
                let j = choose|j: int| 0 <= j < before.len() && before[j].0@ == n;
                assert(c@[j].0@ == before[j].0@);
            }
            if n == name@ {
                assert(c@[before.len() as int].0@ == n);
            }
        }
        assert forall|n: Seq<char>| #![trigger tally(c@, n)] tally(c@, n) == if n == name@ {
            sat(tally(before, n) + k)
        } else {
            tally(before, n)
        } by {
            lemma_tally_cases(before, n);
            lemma_tally_cases(c@, n);
            if n == name@ {
                lemma_tally_absent(before, n);
                lemma_tally_at(c@, before.len() as int);
            } else {
                if exists|j: int| 0 <= j < before.len() && before[j].0@ == n {
                    let j = choose|j: int| 0 <= j < before.len() && before[j].0@ == n;
                    assert(c@[j].0@ == n);
                } else {
                    lemma_tally_absent(c@, n);
                }
            }
        }
    }
}

/// `new` is `old` with every name of `s` counted once more per
/// occurrence: each count grows by the number of occurrences (capped at
/// `u64::MAX`), and exactly the names that occur gain an entry.
pub open spec fn counted(old: Seq<(String, u64)>, new: Seq<(String, u64)>, s: Seq<Seq<char>>) -> bool {
    &&& keys_distinct(new)
    &&& forall|n: Seq<char>| #[trigger] tally(new, n) == sat(tally(old, n) + occ(s, n))
    &&& forall|n: Seq<char>| #[trigger] has_key(new, n) == (has_key(old, n) || occ(s, n) > 0)
}

/// Capping twice is capping once.
pub proof fn lemma_sat_add(a: int, b: int)
    requires
        a >= 0,
        b >= 0,
    ensures
        sat(sat(a) + b) == sat(a + b),
        sat(a + sat(b)) == sat(a + b),
{
}

/// Counting `a` and then `b` is counting `a + b`.
pub proof fn lemma_counted_concat(
    c0: Seq<(String, u64)>,
    c1: Seq<(String, u64)>,
    c2: Seq<(String, u64)>,
    a: Seq<Seq<char>>,
    b: Seq<Seq<char>>,
)
    requires
        counted(c0, c1, a),
        counted(c1, c2, b),
    ensures
        counted(c0, c2, a + b),
{
    assert forall|n: Seq<char>| #[trigger] tally(c2, n) == sat(tally(c0, n) + occ(a + b, n)) by {
        lemma_occ_concat(a, b, n);
        lemma_tally_bounds(c0, n);
        assert(tally(c1, n) == sat(tally(c0, n) + occ(a, n)));
        lemma_sat_add(tally(c0, n) + occ(a, n), occ(b, n) as int);
    }
    assert forall|n: Seq<char>| #[trigger] has_key(c2, n) == (has_key(c0, n) || occ(a + b, n) > 0) by {
        lemma_occ_concat(a, b, n);
        assert(has_key(c1, n) == (has_key(c0, n) || occ(a, n) > 0));
    }
}

/// A table that counted nothing.
pub proof fn lemma_counted_empty(c: Seq<(String, u64)>)
    requires
        keys_distinct(c),
    ensures
        counted(c, c, Seq::empty()),
{
    assert forall|n: Seq<char>| #[trigger] tally(c, n) == sat(tally(c, n) + occ(Seq::<Seq<char>>::empty(), n)) by {
        lemma_tally_bounds(c, n);
    }
}

/// Adds every count of `src` into `dst`.
pub fn merge_counts(dst: &mut Vec<(String, u64)>, src: &Vec<(String, u64)>)
    requires
        keys_distinct(old(dst)@),
        keys_distinct(src@),
    ensures
        keys_distinct(final(dst)@),
        forall|n: Seq<char>|
            #[trigger] tally(final(dst)@, n) == sat(tally(old(dst)@, n) + tally(src@, n)),
        forall|n: Seq<char>|
            #[trigger] has_key(final(dst)@, n) == (has_key(old(dst)@, n) || has_key(src@, n)),
{
    let mut i: usize = 0;
    proof {
        assert forall|n: Seq<char>|
            #[trigger] tally(dst@, n) == sat(tally(old(dst)@, n) + tally(src@.take(0), n)) by {
            lemma_tally_bounds(dst@, n);
            assert(src@.take(0).len() == 0);
        }
        assert forall|n: Seq<char>|
            #[trigger] has_key(dst@, n) == (has_key(old(dst)@, n) || has_key(src@.take(0), n)) by {
            assert(src@.take(0).len() == 0);
        }
    }
    while i < src.len()
        invariant
            i <= src.len(),
            keys_distinct(src@),
            keys_distinct(dst@),
            forall|n: Seq<char>|
                #[trigger] tally(dst@, n) == sat(tally(old(dst)@, n) + tally(src@.take(i as int), n)),
            forall|n: Seq<char>|
                #[trigger] has_key(dst@, n) == (has_key(old(dst)@, n) || has_key(src@.take(i as int), n)),
        decreases src.len() - i,
    {
        let ghost before = dst@;
        let ghost pre = src@.take(i as int);
        let ghost post = src@.take(i + 1);
        add_count(dst, &src[i].0, src[i].1);
        proof {
            assert(post == pre.push(src@[i as int]));
            assert(keys_distinct(post));
            assert forall|j: int| 0 <= j < pre.len() implies pre[j].0@ != src@[i as int].0@ by {
                assert(pre[j] == src@[j]);
            }
            assert forall|n: Seq<char>|
                #[trigger] tally(dst@, n) == sat(tally(old(dst)@, n) + tally(post, n)) by {
                lemma_tally_bounds(old(dst)@, n);
                lemma_tally_bounds(pre, n);
                lemma_tally_cases(post, n);
                lemma_tally_cases(pre, n);
                if n == src@[i as int].0@ {
                    lemma_tally_absent(pre, n);
                    lemma_tally_at(post, i as int);
                    lemma_sat_add(tally(old(dst)@, n), src@[i as int].1 as int);
                } else {
                    if exists|j: int| 0 <= j < post.len() && post[j].0@ == n {
                        let j = choose|j: int| 0 <= j < post.len() && post[j].0@ == n;
                        assert(pre[j].0@ == n);
                    }
                }
            }
            assert forall|n: Seq<char>|
                #[trigger] has_key(dst@, n) == (has_key(old(dst)@, n) || has_key(post, n)) by {
                if has_key(post, n) && n != src@[i as int].0@ {
                    let j = choose|j: int| 0 <= j < post.len() && post[j].0@ == n;
                    assert(pre[j].0@ == n);
                }
                if has_key(pre, n) {
                    let j = choose|j: int| 0 <= j < pre.len() && pre[j].0@ == n;
                    assert(post[j].0@ == n);
                }
                if n == src@[i as int].0@ {
                    assert(post[i as int].0@ == n);
                }
            }
        }
        i = i + 1;
    }
    assert(src@.take(src.len() as int) == src@);
}

/// Counting one more occurrence of `x`.
pub proof fn lemma_counted_push(
    c0: Seq<(String, u64)>,
    c1: Seq<(String, u64)>,
    c2: Seq<(String, u64)>,
    a: Seq<Seq<char>>,
    x: Seq<char>,
)
    requires
        counted(c0, c1, a),
        keys_distinct(c2),
        forall|n: Seq<char>|
            #[trigger] tally(c2, n) == if n == x {
                sat(tally(c1, n) + 1)
            } else {
                tally(c1, n)
            },
        forall|n: Seq<char>| #[trigger] has_key(c2, n) == (has_key(c1, n) || n == x),
    ensures
        counted(c0, c2, a.push(x)),
{
    assert forall|n: Seq<char>| #[trigger] tally(c2, n) == sat(tally(c0, n) + occ(a.push(x), n)) by {
        assert(a.push(x).drop_last() == a);
        lemma_tally_bounds(c0, n);
        assert(tally(c1, n) == sat(tally(c0, n) + occ(a, n)));
        lemma_sat_add(tally(c0, n) + occ(a, n), 1);
    }
    assert forall|n: Seq<char>| #[trigger] has_key(c2, n) == (has_key(c0, n) || occ(a.push(x), n) > 0) by {
        assert(a.push(x).drop_last() == a);
        assert(has_key(c1, n) == (has_key(c0, n) || occ(a, n) > 0));
    }
}

/// Merging a table that counted `s` from nothing counts `s`.
pub proof fn lemma_merge_counted(
    c0: Seq<(String, u64)>,
    c1: Seq<(String, u64)>,
    local: Seq<(String, u64)>,
    s: Seq<Seq<char>>,
)
    requires
        counted(Seq::empty(), local, s),
        keys_distinct(c1),
        forall|n: Seq<char>| #[trigger] tally(c1, n) == sat(tally(c0, n) + tally(local, n)),
        forall|n: Seq<char>| #[trigger] has_key(c1, n) == (has_key(c0, n) || has_key(local, n)),
    ensures
        counted(c0, c1, s),
{
    assert forall|n: Seq<char>| #[trigger] tally(c1, n) == sat(tally(c0, n) + occ(s, n)) by {
        lemma_tally_bounds(c0, n);
        assert(tally(local, n) == sat(tally(Seq::<(String, u64)>::empty(), n) + occ(s, n)));
        lemma_sat_add(tally(c0, n), occ(s, n) as int);
    }
    assert forall|n: Seq<char>| #[trigger] has_key(c1, n) == (has_key(c0, n) || occ(s, n) > 0) by {
        assert(has_key(local, n) == (has_key(Seq::<(String, u64)>::empty(), n) || occ(s, n) > 0));
    }
}

/// The order of tallies: higher count first, then name.
pub open spec fn stat_before(a: (String, u64), b: (String, u64)) -> bool {
    a.1 > b.1 || (a.1 == b.1 && seq_lt(a.0@, b.0@))
}

/// Every entry comes before the next one.
pub open spec fn stats_sorted(s: Seq<(String, u64)>) -> bool {
    forall|i: int| 0 <= i < s.len() - 1 ==> #[trigger] stat_before(s[i], s[i + 1])
}

/// Whether `a` comes before `b`.
fn stat_before_exec(a: &(String, u64), b: &(String, u64)) -> (r: bool)
    ensures
        r == stat_before(*a, *b),
{
    if a.1 != b.1 {
        a.1 > b.1
    } else {
        let x = crate::text::chars_of(a.0.as_str());
        let y = crate::text::chars_of(b.0.as_str());
        chars_lt(x.as_slice(), y.as_slice())
    }
}

/// The same counts, most common first (ties by name).
pub fn sort_stats(v: Vec<(String, u64)>) -> (r: Vec<(String, u64)>)
    requires
        keys_distinct(v@),
    ensures
        keys_distinct(r@),
        stats_sorted(r@),
        r@.len() == v@.len(),
        forall|n: Seq<char>| #[trigger] tally(r@, n) == tally(v@, n),
        forall|n: Seq<char>| #[trigger] has_key(r@, n) == has_key(v@, n),
{
    let mut out: Vec<(String, u64)> = Vec::new();
    let mut rest = v;
    let ghost orig = rest@;
    let mut k: usize = 0;
    while k < rest.len()
        invariant
            k <= rest.len(),
            rest@ == orig,
            keys_distinct(orig),
            keys_distinct(out@),
            stats_sorted(out@),
            out@.len() == k,
            forall|n: Seq<char>| #[trigger] tally(out@, n) == tally(orig.take(k as int), n),
            forall|n: Seq<char>| #[trigger] has_key(out@, n) == has_key(orig.take(k as int), n),
        decreases rest.len() - k,
    {
        let x = (rest[k].0.clone(), rest[k].1);
        let ghost xv = orig[k as int];
        assert(x.0@ == xv.0@ && x.1 == xv.1);
        let mut p: usize = 0;
        while p < out.len()
            invariant
                p <= out.len(),
                x.0@ == xv.0@ && x.1 == xv.1,
                forall|j: int| 0 <= j < p ==> !#[trigger] stat_before(xv, out@[j]),
            ensures
                p <= out.len(),
                forall|j: int| 0 <= j < p ==> !#[trigger] stat_before(xv, out@[j]),
                p == out.len() || stat_before(xv, out@[p as int]),
            decreases out.len() - p,
        {
            if stat_before_exec(&x, &out[p]) {
                assert(stat_before(xv, out@[p as int]));
                break;
            }
            p = p + 1;
        }
        let ghost before = out@;
        proof {
            assert(orig.take(k + 1) == orig.take(k as int).push(xv));
            assert(!has_key(before, xv.0@)) by {
                if has_key(before, xv.0@) {
                    let j = choose|j: int| 0 <= j < before.len() && before[j].0@ == xv.0@;
                    assert(has_key(orig.take(k as int), xv.0@));
                    let i = choose|i: int| 0 <= i < k && orig.take(k as int)[i].0@ == xv.0@;
                    assert(orig[i].0@ == orig[k as int].0@);
                }
            }
        }
        out.insert(p, x);
        proof {
            let s = out@;
            assert(s == before.insert(p as int, xv));
            assert forall|a: int, b: int| 0 <= a < b < s.len() implies s[a].0@ != s[b].0@ by {
                if a == p {
                    assert(s[b] == before[b - 1]);
                } else if b == p {
                    if a < p {
                        assert(s[a] == before[a]);
                    }
                } else {
                    let aa = if a < p { a } else { a - 1 };
                    let bb = if b < p { b } else { b - 1 };
                    assert(s[a] == before[aa]);
                    assert(s[b] == before[bb]);
                }
            }
            assert forall|i: int| 0 <= i < s.len() - 1 implies #[trigger] stat_before(s[i], s[i + 1]) by {
                if i + 1 < p {
                    assert(s[i] == before[i] && s[i + 1] == before[i + 1]);
                    assert(stat_before(before[i], before[i + 1]));
                } else if i + 1 == p {
                    assert(s[i] == before[i]);
                    assert(s[i + 1] == xv);
                    assert(!stat_before(xv, before[i]));
                    if before[i].0@ == xv.0@ {
                        assert(has_key(before, xv.0@));
                    }
                    lemma_seq_lt_total(before[i].0@, xv.0@);
                } else if i == p {
                    assert(s[i] == xv);
                    assert(s[i + 1] == before[i]);
                } else {
                    assert(s[i] == before[i - 1] && s[i + 1] == before[i]);
                    assert(stat_before(before[i - 1], before[(i - 1) + 1]));
                }
            }
            let post = orig.take(k + 1);
            assert forall|n: Seq<char>| #[trigger] tally(s, n) == tally(post, n) by {
                lemma_tally_cases(s, n);
                lemma_tally_cases(before, n);
                lemma_tally_cases(post, n);
                lemma_tally_cases(orig.take(k as int), n);
                assert(keys_distinct(post));
                if n == xv.0@ {
                    lemma_tally_at(s, p as int);
                    lemma_tally_at(post, k as int);
                } else {
                    if exists|j: int| 0 <= j < s.len() && s[j].0@ == n {
                        let j = choose|j: int| 0 <= j < s.len() && s[j].0@ == n;
                        let jj = if j < p { j } else { j - 1 };
                        assert(before[jj] == s[j]);
                        lemma_tally_at(before, jj);
                        lemma_tally_at(s, j);
                    } else {
                        assert forall|j: int| 0 <= j < before.len() implies before[j].0@ != n by {
                            let jj = if j < p { j } else { j + 1 };
                            assert(s[jj] == before[j]);
                        }
                        lemma_tally_absent(before, n);
                        lemma_tally_absent(s, n);
                    }
                    if exists|j: int| 0 <= j < post.len() && post[j].0@ == n {
                        let j = choose|j: int| 0 <= j < post.len() && post[j].0@ == n;
                        assert(orig.take(k as int)[j] == post[j]);
                        lemma_tally_at(orig.take(k as int), j);
                        lemma_tally_at(post, j);
                    } else {
                        lemma_tally_absent(post, n);
                        lemma_tally_absent(orig.take(k as int), n);
                    }
                }
            }
            assert forall|n: Seq<char>| #[trigger] has_key(s, n) == has_key(post, n) by {
                if has_key(s, n) {
                    let j = choose|j: int| 0 <= j < s.len() && s[j].0@ == n;
                    if j != p {
                        let jj = if j < p { j } else { j - 1 };
                        assert(before[jj] == s[j]);
                        assert(has_key(before, n));
                        let i = choose|i: int| 0 <= i < k && orig.take(k as int)[i].0@ == n;
                        assert(post[i] == orig.take(k as int)[i]);
                    } else {
                        assert(post[k as int] == xv);
                    }
                }
                if has_key(post, n) {
                    let j = choose|j: int| 0 <= j < post.len() && post[j].0@ == n;
                    if j < k {
                        assert(orig.take(k as int)[j] == post[j]);
                        assert(has_key(before, n));
                        let i = choose|i: int| 0 <= i < before.len() && before[i].0@ == n;
                        let ii = if i < p { i } else { i + 1 };
                        assert(s[ii] == before[i]);
                    } else {
                        assert(s[p as int] == xv);
                    }
                }
            }
        }
        k = k + 1;
    }
    assert(orig.take(orig.len() as int) == orig);
    out
}

} // verus!
