//! Properties of world data: a block's identity does not depend on the
//! order its properties are stored in; a region or chunk compared with
//! itself shows no difference; and swapping the two sides of an entity
//! comparison swaps what appeared with what disappeared.
use vstd::prelude::*;

use crate::text::{
    has_prefix, has_suffix, lemma_first_index_of_unique, lemma_signed_decimal_value, signed_decimal,
    lemma_seq_lt_asymmetric, lemma_seq_lt_irreflexive, lemma_seq_lt_total,
    lemma_seq_lt_transitive,
};
use crate::world::chunk::{
    block_change, chunk_changes, entry_identity, has_uuid, insert_pair, last_with, missing_from,
    names_missing_from, pair_lt, prop_pairs, section_changes, sort_pairs, BlockDiffV, PropPair,
    SectionV,
};
use crate::world::nbt::{lookup, Nbt};
use vstd::relations::{sorted_by, total_ordering};
use crate::world::region::{region_coords, region_changes, slot_change, slot_xz, anvil_slot};
use crate::world::types::Presence;

verus! {

// ---------------------------------------------------------------------------
// Property order
// ---------------------------------------------------------------------------

/// `p` is `q` or sorts before it.
pub open spec fn pair_le(p: PropPair, q: PropPair) -> bool {
    p == q || pair_lt(p, q)
}

/// The order of property pairs is transitive.
proof fn lemma_pair_lt_transitive(p: PropPair, q: PropPair, r: PropPair)
    ensures
        pair_lt(p, q) && pair_lt(q, r) ==> pair_lt(p, r),
{
    lemma_seq_lt_transitive(p.0, q.0, r.0);
    lemma_seq_lt_transitive(p.1, q.1, r.1);
}

/// Two different property pairs are ordered exactly one way.
proof fn lemma_pair_lt_total(p: PropPair, q: PropPair)
    ensures
        p != q ==> pair_lt(p, q) || pair_lt(q, p),
        pair_lt(p, q) ==> !pair_lt(q, p),
        !pair_lt(p, p),
{
    lemma_seq_lt_total(p.0, q.0);
    lemma_seq_lt_total(p.1, q.1);
    lemma_seq_lt_asymmetric(p.0, q.0);
    lemma_seq_lt_asymmetric(p.1, q.1);
    lemma_seq_lt_irreflexive(p.0);
    lemma_seq_lt_irreflexive(p.1);
    lemma_seq_lt_irreflexive(q.0);
    if p != q && p.0 == q.0 {
        assert(p.1 != q.1);
    }
}

/// `pair_le` is a total order.
proof fn lemma_pair_le_total_order()
    ensures
        total_ordering(|p: PropPair, q: PropPair| pair_le(p, q)),
{
    let le = |p: PropPair, q: PropPair| pair_le(p, q);
    assert forall|p: PropPair| #[trigger] le(p, p) by {}
    assert forall|p: PropPair, q: PropPair| #[trigger] le(p, q) && #[trigger] le(q, p) implies p == q by {
        lemma_pair_lt_total(p, q);
    }
    assert forall|p: PropPair, q: PropPair, r: PropPair| #[trigger] le(p, q) && #[trigger] le(q, r) implies le(
        p,
        r,
    ) by {
        lemma_pair_lt_transitive(p, q, r);
    }
    assert forall|p: PropPair, q: PropPair| #[trigger] le(p, q) || #[trigger] le(q, p) by {
        lemma_pair_lt_total(p, q);
    }
}

/// Inserting a pair adds it to the multiset of pairs, and every element
/// of the result is that pair or one of the others.
proof fn lemma_insert_pair_elements(x: PropPair, s: Seq<PropPair>)
    ensures
        insert_pair(x, s).to_multiset() =~= s.to_multiset().insert(x),
        forall|k: int|
            0 <= k < insert_pair(x, s).len() ==> #[trigger] insert_pair(x, s)[k] == x || s.contains(
                insert_pair(x, s)[k],
            ),
        insert_pair(x, s).len() == s.len() + 1,
    decreases s.len(),
{
    broadcast use vstd::seq_lib::group_to_multiset_ensures;
    broadcast use vstd::multiset::group_multiset_axioms;

    if s.len() == 0 {
        assert(seq![x] =~= Seq::<PropPair>::empty().push(x));
        assert(Seq::<PropPair>::empty().to_multiset() =~= vstd::multiset::Multiset::empty());
    } else if pair_lt(x, s[0]) {
        vstd::seq_lib::lemma_multiset_commutative(seq![x], s);
        assert(seq![x] =~= Seq::<PropPair>::empty().push(x));
        assert(Seq::<PropPair>::empty().to_multiset() =~= vstd::multiset::Multiset::empty());
        assert forall|k: int| 0 <= k < insert_pair(x, s).len() implies #[trigger] insert_pair(x, s)[k] == x
            || s.contains(insert_pair(x, s)[k]) by {
            if k > 0 {
                assert(insert_pair(x, s)[k] == s[k - 1]);
            }
        }
    } else {
        let t = s.drop_first();
        lemma_insert_pair_elements(x, t);
        let it = insert_pair(x, t);
        vstd::seq_lib::lemma_multiset_commutative(seq![s[0]], it);
        vstd::seq_lib::lemma_multiset_commutative(seq![s[0]], t);
        assert(s =~= seq![s[0]] + t);
        assert forall|k: int| 0 <= k < insert_pair(x, s).len() implies #[trigger] insert_pair(x, s)[k] == x
            || s.contains(insert_pair(x, s)[k]) by {
            if k == 0 {
                assert(s[0] == insert_pair(x, s)[k]);
            } else {
                assert(insert_pair(x, s)[k] == it[k - 1]);
                if t.contains(it[k - 1]) {
                    let j = choose|j: int| 0 <= j < t.len() && t[j] == it[k - 1];
                    assert(s[j + 1] == it[k - 1]);
                }
            }
        }
    }
}

/// Inserting a pair into sorted pairs keeps them sorted.
proof fn lemma_insert_pair_sorted(x: PropPair, s: Seq<PropPair>)
    requires
        sorted_by(s, |p: PropPair, q: PropPair| pair_le(p, q)),
    ensures
        sorted_by(insert_pair(x, s), |p: PropPair, q: PropPair| pair_le(p, q)),
    decreases s.len(),
{
    lemma_pair_le_total_order();
    let le = |p: PropPair, q: PropPair| pair_le(p, q);
    lemma_insert_pair_elements(x, s);
    if s.len() == 0 {
    } else if pair_lt(x, s[0]) {
        let r = insert_pair(x, s);
        assert forall|i: int, j: int| 0 <= i < j < r.len() implies #[trigger] le(r[i], r[j]) by {
            if i == 0 {
                assert(le(s[0], s[j - 1]));
                lemma_pair_lt_transitive(x, s[0], s[j - 1]);
            } else {
                assert(le(s[i - 1], s[j - 1]));
            }
        }
    } else {
        let t = s.drop_first();
        assert(sorted_by(t, le)) by {
            assert forall|i: int, j: int| 0 <= i < j < t.len() implies #[trigger] le(t[i], t[j]) by {
                assert(le(s[i + 1], s[j + 1]));
            }
        }
        lemma_insert_pair_sorted(x, t);
        lemma_insert_pair_elements(x, t);
        let it = insert_pair(x, t);
        let r = insert_pair(x, s);
        lemma_pair_lt_total(x, s[0]);
        assert forall|i: int, j: int| 0 <= i < j < r.len() implies #[trigger] le(r[i], r[j]) by {
            if i == 0 {
                assert(r[j] == it[j - 1]);
                if it[j - 1] == x {
                } else {
                    let m = choose|m: int| 0 <= m < t.len() && t[m] == it[j - 1];
                    assert(le(s[0], s[m + 1]));
                }
            } else {
                assert(r[i] == it[i - 1] && r[j] == it[j - 1]);
                assert(le(it[i - 1], it[j - 1]));
            }
        }
    }
}

/// Sorting keeps the pairs and puts them in order.
proof fn lemma_sort_pairs(s: Seq<PropPair>)
    ensures
        sort_pairs(s).to_multiset() == s.to_multiset(),
        sorted_by(sort_pairs(s), |p: PropPair, q: PropPair| pair_le(p, q)),
    decreases s.len(),
{
    broadcast use vstd::seq_lib::group_to_multiset_ensures;

    if s.len() > 0 {
        lemma_sort_pairs(s.drop_last());
        lemma_insert_pair_elements(s.last(), sort_pairs(s.drop_last()));
        lemma_insert_pair_sorted(s.last(), sort_pairs(s.drop_last()));
        assert(s.drop_last().push(s.last()) =~= s);
    }
}

/// Sorting property pairs gives the same result for the same pairs in any
/// order.
pub proof fn lemma_sort_pairs_ignores_order(a: Seq<PropPair>, b: Seq<PropPair>)
    requires
        a.to_multiset() == b.to_multiset(),
    ensures
        sort_pairs(a) == sort_pairs(b),
{
    lemma_sort_pairs(a);
    lemma_sort_pairs(b);
    lemma_pair_le_total_order();
    vstd::seq_lib::lemma_sorted_unique(
        sort_pairs(a),
        sort_pairs(b),
        |p: PropPair, q: PropPair| pair_le(p, q),
    );
}

/// Whether two palette entries have the same name and `Properties`
/// compounds holding the same (key, value) pairs, in any order.
pub open spec fn same_name_and_properties(e: Nbt, f: Nbt) -> bool {
    match (e, f) {
        (Nbt::Compound(es), Nbt::Compound(fs)) => {
            &&& lookup(es@, "Name"@) == lookup(fs@, "Name"@)
            &&& match (lookup(es@, "Properties"@), lookup(fs@, "Properties"@)) {
                (Some(Nbt::Compound(p)), Some(Nbt::Compound(q))) => prop_pairs(p@).to_multiset()
                    == prop_pairs(q@).to_multiset(),
                _ => false,
            }
        },
        _ => false,
    }
}

/// A block's identity does not depend on the order in which its
/// properties are stored: two palette entries with the same name whose
/// `Properties` hold the same (key, value) pairs, in any order, have the
/// same identity.
pub proof fn lemma_identity_ignores_property_order(e: Nbt, f: Nbt)
    requires
        same_name_and_properties(e, f),
    ensures
        entry_identity(e) == entry_identity(f),
{
    match (e, f) {
        (Nbt::Compound(es), Nbt::Compound(fs)) => match (
            lookup(es@, "Properties"@),
            lookup(fs@, "Properties"@),
        ) {
            (Some(Nbt::Compound(p)), Some(Nbt::Compound(q))) => {
                lemma_sort_pairs_ignores_order(prop_pairs(p@), prop_pairs(q@));
            },
            _ => {},
        },
        _ => {},
    }
}

// ---------------------------------------------------------------------------
// Comparing with itself
// ---------------------------------------------------------------------------

/// A section compared with itself has no changed block.
proof fn lemma_section_unchanged(f: Seq<Seq<char>>, cx: int, cz: int, y: int, m: int)
    ensures
        section_changes(f, f, cx, cz, y, m) == Seq::<BlockDiffV>::empty(),
    decreases m,
{
    if m > 0 {
        lemma_section_unchanged(f, cx, cz, y, m - 1);
    }
}

/// A chunk compared with itself has no changed block.
pub proof fn lemma_chunk_unchanged(f: Seq<SectionV>, cx: int, cz: int, m: int)
    requires
        m <= f.len(),
    ensures
        chunk_changes(f, f, cx, cz, m) == Seq::<BlockDiffV>::empty(),
    decreases m,
{
    if m > 0 {
        lemma_chunk_unchanged(f, cx, cz, m - 1);
        let sec = f[m - 1];
        if last_with(f, sec.0) == Some(m - 1) {
            lemma_section_unchanged(sec.1, cx, cz, sec.0 as int, 4096);
            assert(Seq::<BlockDiffV>::empty() + Seq::<BlockDiffV>::empty() == Seq::<BlockDiffV>::empty());
        }
    }
}

/// A region compared with itself has no changed chunk, when its slots can
/// be read.
pub proof fn lemma_region_unchanged(b: Seq<u8>, rx: int, rz: int, k: int)
    ensures
        region_changes(b, b, rx, rz, k) matches Some(d) ==> d.len() == 0,
    decreases k,
{
    if k > 0 {
        lemma_region_unchanged(b, rx, rz, k - 1);
        let (x, z) = slot_xz(k - 1);
        match anvil_slot(b, x, z) {
            Some(a) => {
                assert(slot_change(a, a) is None);
            },
            None => {},
        }
    }
}

/// Every entity of `a` is found in `b`.
proof fn lemma_missing_none(a: Seq<(Seq<char>, Seq<char>)>, b: Seq<(Seq<char>, Seq<char>)>, p: Presence)
    requires
        forall|i: int| 0 <= i < a.len() ==> has_uuid(b, #[trigger] a[i].0),
    ensures
        missing_from(a, b, p).len() == 0,
    decreases a.len(),
{
    if a.len() > 0 {
        lemma_missing_none(a.drop_last(), b, p);
        assert(has_uuid(b, a[a.len() - 1].0));
    }
}

/// A chunk's entities compared with themselves show nothing appearing or
/// disappearing.
pub proof fn lemma_entities_unchanged(k: Seq<(Seq<char>, Seq<char>)>)
    ensures
        missing_from(k, k, Presence::Removed) + missing_from(k, k, Presence::Added) == Seq::<
            (Seq<char>, Seq<char>, Presence),
        >::empty(),
{
    assert forall|i: int| 0 <= i < k.len() implies has_uuid(k, #[trigger] k[i].0) by {
        assert(k[i].0 == k[i].0);
    }
    lemma_missing_none(k, k, Presence::Removed);
    lemma_missing_none(k, k, Presence::Added);
    assert(missing_from(k, k, Presence::Removed) + missing_from(k, k, Presence::Added) =~= Seq::<
        (Seq<char>, Seq<char>, Presence),
    >::empty());
}

/// Every structure of `a` is found in `b`.
proof fn lemma_names_missing_none(a: Seq<Seq<char>>, b: Seq<Seq<char>>, p: Presence)
    requires
        forall|i: int| 0 <= i < a.len() ==> b.contains(#[trigger] a[i]),
    ensures
        names_missing_from(a, b, p).len() == 0,
    decreases a.len(),
{
    if a.len() > 0 {
        lemma_names_missing_none(a.drop_last(), b, p);
        assert(b.contains(a[a.len() - 1]));
    }
}

/// A chunk's structures compared with themselves show nothing starting or
/// stopping.
pub proof fn lemma_structures_unchanged(s: Seq<Seq<char>>)
    ensures
        names_missing_from(s, s, Presence::Removed) + names_missing_from(s, s, Presence::Added)
            == Seq::<(Seq<char>, Presence)>::empty(),
{
    assert forall|i: int| 0 <= i < s.len() implies s.contains(#[trigger] s[i]) by {
        assert(s[i] == s[i]);
    }
    lemma_names_missing_none(s, s, Presence::Removed);
    lemma_names_missing_none(s, s, Presence::Added);
    assert(names_missing_from(s, s, Presence::Removed) + names_missing_from(s, s, Presence::Added)
        =~= Seq::<(Seq<char>, Presence)>::empty());
}

// ---------------------------------------------------------------------------
// Swapping sides
// ---------------------------------------------------------------------------

/// The presence with its meaning reversed.
pub open spec fn flipped(p: Presence) -> Presence {
    match p {
        Presence::Added => Presence::Removed,
        Presence::Removed => Presence::Added,
    }
}

/// The same keys, marked with the reversed presence.
proof fn lemma_missing_flip(a: Seq<(Seq<char>, Seq<char>)>, b: Seq<(Seq<char>, Seq<char>)>, p: Presence)
    ensures
        missing_from(a, b, flipped(p)) == missing_from(a, b, p).map_values(
            |d: (Seq<char>, Seq<char>, Presence)| (d.0, d.1, flipped(d.2)),
        ),
    decreases a.len(),
{
    if a.len() > 0 {
        lemma_missing_flip(a.drop_last(), b, p);
        let prev = missing_from(a.drop_last(), b, p);
        let last = a.last();
        if !has_uuid(b, last.0) {
            assert(prev.push((last.1, last.0, p)).map_values(
                |d: (Seq<char>, Seq<char>, Presence)| (d.0, d.1, flipped(d.2)),
            ) =~= prev.map_values(|d: (Seq<char>, Seq<char>, Presence)| (d.0, d.1, flipped(d.2))).push(
                (last.1, last.0, flipped(p)),
            ));
        }
    }
}

/// Comparing entities the other way round reports the same entities with
/// "appeared" and "disappeared" exchanged: what was removed going from `f`
/// to `t` is added going from `t` to `f`, and the other way round.
pub proof fn lemma_entities_swap(f: Seq<(Seq<char>, Seq<char>)>, t: Seq<(Seq<char>, Seq<char>)>)
    ensures
        missing_from(t, f, Presence::Removed) == missing_from(t, f, Presence::Added).map_values(
            |d: (Seq<char>, Seq<char>, Presence)| (d.0, d.1, flipped(d.2)),
        ),
        missing_from(f, t, Presence::Added) == missing_from(f, t, Presence::Removed).map_values(
            |d: (Seq<char>, Seq<char>, Presence)| (d.0, d.1, flipped(d.2)),
        ),
{
    lemma_missing_flip(t, f, Presence::Added);
    lemma_missing_flip(f, t, Presence::Removed);
}

// ---------------------------------------------------------------------------
// Region file names
// ---------------------------------------------------------------------------

/// The name of the region file at (`x`, `z`): `r.<x>.<z>.mca`, each
/// coordinate in decimal.
pub open spec fn region_file_name(x: int, z: int) -> Seq<char> {
    "r."@ + signed_decimal(x) + "."@ + signed_decimal(z) + ".mca"@
}

/// The name of any region file reads back as its coordinates: for every
/// `x` and `z`, `r.<x>.<z>.mca` gives (`x`, `z`).
pub proof fn lemma_region_name_round_trip(x: i32, z: i32)
    ensures
        region_coords(region_file_name(x as int, z as int)) == Some((x as int, z as int)),
{
    reveal_strlit("r.");
    reveal_strlit(".");
    reveal_strlit(".mca");
    let sx = signed_decimal(x as int);
    let sz = signed_decimal(z as int);
    lemma_signed_decimal_value(x as int);
    lemma_signed_decimal_value(z as int);
    let f = region_file_name(x as int, z as int);
    let m = sx + "."@ + sz;
    assert(f == "r."@ + m + ".mca"@);
    assert(f.take(2) == "r."@);
    assert(f.skip(f.len() - 4) == ".mca"@);
    assert(has_prefix(f, "r."@));
    assert(has_suffix(f, ".mca"@));
    assert(f.subrange(2, f.len() - 4) == m);
    assert forall|j: int| 0 <= j < sx.len() implies m[j] != '.' by {
        assert(m[j] == sx[j]);
    }
    assert(m[sx.len() as int] == '.');
    lemma_first_index_of_unique(m, '.', sx.len() as int);
    assert(m.take(sx.len() as int) == sx);
    assert(m.skip(sx.len() as int + 1) == sz);
}

// ---------------------------------------------------------------------------
// Block positions
// ---------------------------------------------------------------------------

/// Two sections' blocks that differ only at index `k`.
pub open spec fn differ_only_at(f: Seq<Seq<char>>, t: Seq<Seq<char>>, k: int) -> bool {
    &&& f.len() == 4096
    &&& t.len() == 4096
    &&& f[k] != t[k]
    &&& forall|j: int| 0 <= j < 4096 && j != k ==> #[trigger] f[j] == t[j]
}

proof fn lemma_one_change_in_section(
    f: Seq<Seq<char>>,
    t: Seq<Seq<char>>,
    cx: int,
    cz: int,
    y: int,
    k: int,
    m: int,
)
    requires
        0 <= k < 4096,
        0 <= m <= 4096,
        differ_only_at(f, t, k),
    ensures
        section_changes(f, t, cx, cz, y, m) == (if m <= k {
            Seq::<BlockDiffV>::empty()
        } else {
            seq![block_change(cx, cz, y, k, f[k], t[k])]
        }),
    decreases m,
{
    if m > 0 {
        lemma_one_change_in_section(f, t, cx, cz, y, k, m - 1);
        if m - 1 == k {
            assert(Seq::<BlockDiffV>::empty().push(block_change(cx, cz, y, k, f[k], t[k])) == seq![
                block_change(cx, cz, y, k, f[k], t[k]),
            ]);
        } else {
            assert(f[m - 1] == t[m - 1]);
        }
    }
}

/// A chunk whose only section `Y` differs in exactly one block, at local
/// position (`lx`, `ly`, `lz`) (section index `ly * 256 + lz * 16 + lx`),
/// shows exactly one changed block, at world position
/// (`cx * 16 + lx`, `Y * 16 + ly`, `cz * 16 + lz`), from the old identity
/// to the new.
pub proof fn lemma_one_changed_block_position(
    f: Seq<Seq<char>>,
    t: Seq<Seq<char>>,
    y: i8,
    cx: int,
    cz: int,
    lx: int,
    ly: int,
    lz: int,
)
    requires
        0 <= lx < 16,
        0 <= ly < 16,
        0 <= lz < 16,
        differ_only_at(f, t, ly * 256 + lz * 16 + lx),
    ensures
        chunk_changes(seq![(y, f)], seq![(y, t)], cx, cz, 1) == seq![
            (cx * 16 + lx, y * 16 + ly, cz * 16 + lz, f[ly * 256 + lz * 16 + lx], t[ly * 256 + lz * 16 + lx]),
        ],
{
    let k = ly * 256 + lz * 16 + lx;
    let from = seq![(y, f)];
    let to = seq![(y, t)];
    assert(last_with(from, y) == Some(0int));
    assert(last_with(to, y) == Some(0int));
    lemma_one_change_in_section(f, t, cx, cz, y as int, k, 4096);
    assert(k % 16 == lx && k / 256 == ly && (k % 256) / 16 == lz) by (nonlinear_arith)
        requires
            k == ly * 256 + lz * 16 + lx,
            0 <= lx < 16,
            0 <= ly < 16,
            0 <= lz < 16,
    ;
    assert(block_change(cx, cz, y as int, k, f[k], t[k]) == (cx * 16 + lx, y * 16 + ly, cz * 16 + lz, f[k], t[k]));
    assert(chunk_changes(from, to, cx, cz, 0) == Seq::<BlockDiffV>::empty());
    assert(Seq::<BlockDiffV>::empty() + section_changes(f, t, cx, cz, y as int, 4096) == section_changes(
        f,
        t,
        cx,
        cz,
        y as int,
        4096,
    ));
}

} // verus!
