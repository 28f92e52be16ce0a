//! Chunk NBT: block-state palettes and their bit-packed indices, per-block
//! identities, tallies of blocks, structures and entities, and the
//! differences between two versions of one chunk.
use vstd::prelude::*;

use crate::text::{chars_lt, seq_lt, str_equals, append_chars, append_str, chars_of, string_lit, string_of};
use crate::world::nbt::{as_list, as_string, debug_chars, debug_text, get, lookup, nbt_accepts, nbt_error_text, nbt_parse, nbt_view, parse_nbt, Nbt, NbtEntry};
use crate::world::counts::{add_count, counted, lemma_counted_concat, lemma_counted_empty, lemma_counted_push, lemma_merge_counted, merge_counts, has_key, keys_distinct, lemma_occ_repeat, lemma_sat_add, lemma_tally_bounds, occ, sat, tally};
use crate::world::types::{BlockDiff, EntityDiff, Presence, StructureDiff, WorldError};

verus! {

/// Blocks in one 16×16×16 section.
pub const BLOCKS_PER_SECTION: usize = 4096;

// ---------------------------------------------------------------------------
// Bit packing
// ---------------------------------------------------------------------------

/// Number of binary digits of `x` (0 for 0).
pub open spec fn bit_len(x: nat) -> nat
    decreases x,
{
    if x == 0 {
        0
    } else {
        1 + bit_len(x / 2)
    }
}

/// Bits needed to tell `n` values apart: `ceil(log2(n))`, 0 for `n <= 1`.
pub open spec fn bits_for(n: nat) -> nat {
    if n <= 1 {
        0
    } else {
        bit_len((n - 1) as nat)
    }
}

/// `2^k`.
pub open spec fn pow2(k: nat) -> nat
    decreases k,
{
    if k == 0 {
        1
    } else {
        2 * pow2((k - 1) as nat)
    }
}

proof fn lemma_bit_len_bound(x: nat, k: nat)
    requires
        x < pow2(k),
    ensures
        bit_len(x) <= k,
    decreases k,
{
    if k > 0 && x > 0 {
        lemma_bit_len_bound(x / 2, (k - 1) as nat);
    }
}

proof fn lemma_usize_bit_len(x: usize)
    ensures
        bit_len(x as nat) <= 64,
{
    lemma_shift_pow2(64);
    lemma_bit_len_bound(x as nat, 64);
}

/// Smallest number of bits needed to represent `n` distinct values
/// (`ceil(log2(n))`), e.g. 18 values need 5 bits.
pub fn bits_needed(n: usize) -> (b: usize)
    ensures
        b == bits_for(n as nat),
        b <= 64,
{
    if n <= 1 {
        return 0;
    }
    let mut x: usize = n - 1;
    let mut b: usize = 0;
    proof {
        lemma_usize_bit_len((n - 1) as usize);
    }
    while x > 0
        invariant
            b + bit_len(x as nat) == bits_for(n as nat),
            bits_for(n as nat) <= 64,
            n > 1,
        decreases x,
    {
        x = x / 2;
        b = b + 1;
    }
    b
}

/// Bits per packed index for a palette of `n` entries: at least 4.
pub open spec fn bits_per_block(n: nat) -> nat {
    if bits_for(n) < 4 {
        4
    } else {
        bits_for(n)
    }
}

/// The mask of the low `bits` bits (all 64 bits for 64).
pub open spec fn low_mask(bits: nat) -> u64 {
    if bits >= 64 {
        u64::MAX
    } else {
        ((1u64 << (bits as u64)) - 1) as u64
    }
}

/// The `j`-th packed index in `data`, `bits` bits each, `64 / bits` per
/// long (an index never straddles two longs), lowest bits first.
pub open spec fn packed_entry(data: Seq<i64>, bits: nat, j: int) -> int {
    let per_long = 64nat / bits;
    (((data[j / per_long as int] as u64) >> (((j % per_long as int) * bits) as u64)) & low_mask(
        bits,
    )) as int
}

/// `data` with its `j`-th packed index (`bits` bits each, `64 / bits` per
/// long) set to `t`: in the long that holds it, that index's bits become
/// `t` and every other bit is kept; every other long is kept.
pub open spec fn packed_write(data: Seq<i64>, bits: nat, j: int, t: u64) -> Seq<i64> {
    let per_long = 64nat / bits;
    let sh = ((j % per_long as int) * bits) as u64;
    let x = data[j / per_long as int] as u64;
    data.update(j / per_long as int, ((x & !(low_mask(bits) << sh)) | (t << sh)) as i64)
}

/// Bits per index, indices per long and the mask, for a palette of `n`.
fn packing(n: usize) -> (r: (usize, usize, u64))
    ensures
        r.0 == bits_per_block(n as nat),
        4 <= r.0 <= 64,
        r.1 == 64usize / r.0,
        1 <= r.1 <= 16,
        r.2 == low_mask(r.0 as nat),
{
    let b = bits_needed(n);
    let bits: usize = if b < 4 {
        4
    } else {
        b
    };
    let mask: u64 = if bits >= 64 {
        u64::MAX
    } else {
        let sh = bits as u64;
        assert(1u64 << sh >= 1) by (bit_vector)
            requires
                sh < 64,
        ;
        (1u64 << sh) - 1
    };
    assert(1 <= 64usize / bits <= 16) by (nonlinear_arith)
        requires
            4 <= bits <= 64,
    ;
    (bits, 64 / bits, mask)
}

/// The index at position `i` of one packed long.
fn unpack(long: i64, i: usize, bits: usize, mask: u64) -> (r: u64)
    requires
        4 <= bits <= 64,
        i < 64usize / bits,
    ensures
        r == ((long as u64) >> ((i * bits) as u64)) & mask,
{
    proof {
        assert(i * bits < 64) by (nonlinear_arith)
            requires
                i < 64usize / bits,
                4 <= bits <= 64,
        ;
    }
    ((long as u64) >> ((i * bits) as u64)) & mask
}

// ---------------------------------------------------------------------------
// Palette entries: block names and full identities
// ---------------------------------------------------------------------------


/// A property as a (key, value text) pair.
pub type PropPair = (Seq<char>, Seq<char>);

/// The order of `(String, String)` tuples: by key, then by value.
pub open spec fn pair_lt(p: PropPair, q: PropPair) -> bool {
    seq_lt(p.0, q.0) || (p.0 == q.0 && seq_lt(p.1, q.1))
}

/// `x` inserted before the first element it sorts strictly before.
pub open spec fn insert_pair(x: PropPair, s: Seq<PropPair>) -> Seq<PropPair>
    decreases s.len(),
{
    if s.len() == 0 {
        seq![x]
    } else if pair_lt(x, s[0]) {
        seq![x] + s
    } else {
        seq![s[0]] + insert_pair(x, s.drop_first())
    }
}

/// `s` sorted by `pair_lt` (insertion sort).
pub open spec fn sort_pairs(s: Seq<PropPair>) -> Seq<PropPair>
    decreases s.len(),
{
    if s.len() == 0 {
        s
    } else {
        insert_pair(s.last(), sort_pairs(s.drop_last()))
    }
}

proof fn lemma_insert_pair_at(x: PropPair, s: Seq<PropPair>, i: int)
    requires
        0 <= i <= s.len(),
        forall|j: int| 0 <= j < i ==> !pair_lt(x, #[trigger] s[j]),
        i == s.len() || pair_lt(x, s[i]),
    ensures
        insert_pair(x, s) == s.take(i).push(x) + s.skip(i),
    decreases i,
{
    if i == 0 {
        assert(s.skip(0) == s);
        assert(s.take(0).push(x) == seq![x]);
        if s.len() == 0 {
            assert(seq![x] + s == seq![x]);
        }
    } else {
        let t = s.drop_first();
        assert forall|j: int| 0 <= j < i - 1 implies !pair_lt(x, #[trigger] t[j]) by {
            assert(t[j] == s[j + 1]);
        }
        lemma_insert_pair_at(x, t, i - 1);
        assert(seq![s[0]] + (t.take(i - 1).push(x) + t.skip(i - 1)) == s.take(i).push(x) + s.skip(i));
    }
}

/// The text a property value is rendered as: a string as it is, any
/// other value as its debug text (`debug_text`: `Byte(1)`,
/// `List([Int(1)])`, ...).
pub open spec fn prop_text(v: Nbt) -> Seq<char> {
    match v {
        Nbt::String(s) => s@,
        _ => debug_text(v),
    }
}

/// The text of a property value.
fn prop_text_chars(v: &Nbt) -> (r: Vec<char>)
    ensures
        r@ == prop_text(*v),
{
    match v {
        Nbt::String(s) => chars_of(s.as_str()),
        _ => debug_chars(v),
    }
}

/// The (key, value text) pairs of a `Properties` compound, in entry order.
pub open spec fn prop_pairs(ps: Seq<NbtEntry>) -> Seq<PropPair> {
    ps.map_values(|e: NbtEntry| (e.key@, prop_text(e.value)))
}

/// `key=value`.
pub open spec fn pair_text(p: PropPair) -> Seq<char> {
    p.0 + "="@ + p.1
}

/// The pairs rendered as `k=v`, separated by commas.
pub open spec fn join_pairs(p: Seq<PropPair>) -> Seq<char>
    decreases p.len(),
{
    if p.len() == 0 {
        Seq::empty()
    } else if p.len() == 1 {
        pair_text(p[0])
    } else {
        join_pairs(p.drop_last()) + ","@ + pair_text(p.last())
    }
}

/// The key of a palette entry's block name.
pub open spec fn name_key() -> Seq<char> {
    "Name"@
}

/// A palette entry's bare block name.
pub open spec fn entry_name(e: Nbt) -> Option<Seq<char>> {
    match e {
        Nbt::Compound(es) => as_string(lookup(es@, name_key())),
        _ => None,
    }
}

/// A palette entry's full identity: its name, then, if it has a
/// `Properties` compound, its properties sorted by key (then value) as
/// `[k=v,k=v]`.
pub open spec fn entry_identity(e: Nbt) -> Option<Seq<char>> {
    match e {
        Nbt::Compound(es) => match as_string(lookup(es@, name_key())) {
            None => None,
            Some(n) => match lookup(es@, "Properties"@) {
                Some(Nbt::Compound(ps)) => Some(
                    n + "["@ + join_pairs(sort_pairs(prop_pairs(ps@))) + "]"@,
                ),
                _ => Some(n),
            },
        },
        _ => None,
    }
}

/// The pairs of `v`, as values.
pub open spec fn pairs_view(v: Seq<(Vec<char>, Vec<char>)>) -> Seq<PropPair> {
    v.map_values(|p: (Vec<char>, Vec<char>)| (p.0@, p.1@))
}

/// Inserts `x` into the sorted `s`, before the first element it sorts
/// strictly before.
fn insert_sorted(s: &mut Vec<(Vec<char>, Vec<char>)>, x: (Vec<char>, Vec<char>))
    ensures
        pairs_view(final(s)@) == insert_pair((x.0@, x.1@), pairs_view(old(s)@)),
{
    let ghost xv = (x.0@, x.1@);
    let ghost sv = pairs_view(s@);
    let mut i: usize = 0;
    while i < s.len()
        invariant
            i <= s.len(),
            s@ == old(s)@,
            sv == pairs_view(s@),
            xv == (x.0@, x.1@),
            forall|j: int| 0 <= j < i ==> !pair_lt(xv, #[trigger] sv[j]),
        ensures
            i <= s.len(),
            forall|j: int| 0 <= j < i ==> !pair_lt(xv, #[trigger] sv[j]),
            i == s.len() || pair_lt(xv, sv[i as int]),
        decreases s.len() - i,
    {
        assert(sv[i as int] == (s@[i as int].0@, s@[i as int].1@));
        let lt = chars_lt(x.0.as_slice(), s[i].0.as_slice()) || (chars_equal_vec(&x.0, &s[i].0)
            && chars_lt(x.1.as_slice(), s[i].1.as_slice()));
        if lt {
            break;
        }
        i = i + 1;
    }
    proof {
        lemma_insert_pair_at(xv, sv, i as int);
    }
    s.insert(i, x);
    proof {
        assert(pairs_view(s@) == sv.take(i as int).push(xv) + sv.skip(i as int));
    }
}

fn chars_equal_vec(a: &Vec<char>, b: &Vec<char>) -> (r: bool)
    ensures
        r == (a@ == b@),
{
    crate::text::chars_equal(a.as_slice(), b.as_slice())
}

/// A shape error carrying `msg`.
fn shape(msg: &str) -> (e: WorldError)
    ensures
        e == WorldError::Shape(e->Shape_0),
        e->Shape_0@ == msg@,
{
    WorldError::Shape(string_lit(msg))
}

/// The pairs rendered as `k=v`, separated by commas.
fn join_pair_chars(p: &Vec<(Vec<char>, Vec<char>)>) -> (r: Vec<char>)
    ensures
        r@ == join_pairs(pairs_view(p@)),
{
    let ghost pv = pairs_view(p@);
    let mut r: Vec<char> = Vec::new();
    let mut i: usize = 0;
    while i < p.len()
        invariant
            i <= p.len(),
            pv == pairs_view(p@),
            r@ == join_pairs(pv.take(i as int)),
        decreases p.len() - i,
    {
        let ghost before = r@;
        if i > 0 {
            append_str(&mut r, ",");
        }
        append_chars(&mut r, p[i].0.as_slice());
        append_str(&mut r, "=");
        append_chars(&mut r, p[i].1.as_slice());
        proof {
            let t = pv.take(i + 1);
            assert(t.drop_last() == pv.take(i as int));
            assert(t.last() == (p@[i as int].0@, p@[i as int].1@));
            if i == 0 {
                assert(pv.take(0).len() == 0);
            }
        }
        i = i + 1;
    }
    assert(pv.take(p.len() as int) == pv);
    r
}

/// The (key, value text) pairs of a `Properties` compound, sorted.
fn sorted_prop_pairs(ps: &Vec<NbtEntry>) -> (r: Vec<(Vec<char>, Vec<char>)>)
    ensures
        pairs_view(r@) == sort_pairs(prop_pairs(ps@)),
{
    let mut r: Vec<(Vec<char>, Vec<char>)> = Vec::new();
    let mut k: usize = 0;
    while k < ps.len()
        invariant
            k <= ps.len(),
            pairs_view(r@) == sort_pairs(prop_pairs(ps@.take(k as int))),
        decreases ps.len() - k,
    {
        let key = chars_of(ps[k].key.as_str());
        let val = prop_text_chars(&ps[k].value);
        let ghost prefix = prop_pairs(ps@.take(k + 1));
        proof {
            assert(prefix.drop_last() == prop_pairs(ps@.take(k as int)));
            assert(prefix.last() == (key@, val@));
        }
        insert_sorted(&mut r, (key, val));
        k = k + 1;
    }
    assert(ps@.take(ps.len() as int) == ps@);
    r
}

/// A palette entry's full identity: its block name plus, if present, its
/// properties in a stable key order, as `name[k=v,k=v]` — two entries can
/// share a name but differ in properties (a lit and an unlit furnace).
pub fn block_identity(entry: &Nbt) -> (r: Result<String, WorldError>)
    ensures
        match r {
            Ok(s) => entry_identity(*entry) == Some(s@),
            Err(e) => {
                &&& entry_identity(*entry) is None
                &&& e is Shape
                &&& e->Shape_0@ == if entry is Compound {
                    "palette entry missing Name"@
                } else {
                    "palette entry is not a compound"@
                }
            },
        },
{
    match entry {
        Nbt::Compound(es) => match get(es, "Name") {
            Some(Nbt::String(name)) => match get(es, "Properties") {
                Some(Nbt::Compound(ps)) => {
                    let sorted = sorted_prop_pairs(ps);
                    let joined = join_pair_chars(&sorted);
                    let mut out = chars_of(name.as_str());
                    append_str(&mut out, "[");
                    append_chars(&mut out, joined.as_slice());
                    append_str(&mut out, "]");
                    Ok(string_of(out.as_slice()))
                },
                _ => Ok(name.clone()),
            },
            _ => Err(shape("palette entry missing Name")),
        },
        _ => Err(shape("palette entry is not a compound")),
    }
}

/// A palette entry's bare block name, ignoring its properties.
pub fn block_name(entry: &Nbt) -> (r: Result<String, WorldError>)
    ensures
        match r {
            Ok(s) => entry_name(*entry) == Some(s@),
            Err(e) => {
                &&& entry_name(*entry) is None
                &&& e is Shape
                &&& e->Shape_0@ == if entry is Compound {
                    "palette entry missing Name"@
                } else {
                    "palette entry is not a compound"@
                }
            },
        },
{
    match entry {
        Nbt::Compound(es) => match get(es, "Name") {
            Some(Nbt::String(name)) => Ok(name.clone()),
            _ => Err(shape("palette entry missing Name")),
        },
        _ => Err(shape("palette entry is not a compound")),
    }
}

// ---------------------------------------------------------------------------
// Sections
// ---------------------------------------------------------------------------

/// The name of the block filling a section with no block states.
pub open spec fn air() -> Seq<char> {
    "minecraft:air"@
}

/// The views of a vector of strings.
pub open spec fn strings_view(v: Seq<String>) -> Seq<Seq<char>> {
    v.map_values(|s: String| s@)
}

/// What a palette entry is known by: its bare name when counting, its full
/// identity when diffing.
pub open spec fn entry_key(e: Nbt, by_name: bool) -> Option<Seq<char>> {
    if by_name {
        entry_name(e)
    } else {
        entry_identity(e)
    }
}

/// The keys of every palette entry, or `None` if any entry has none.
pub open spec fn palette_keys(pal: Seq<Nbt>, by_name: bool) -> Option<Seq<Seq<char>>> {
    if forall|i: int| 0 <= i < pal.len() ==> (#[trigger] entry_key(pal[i], by_name)) is Some {
        Some(pal.map_values(|e: Nbt| entry_key(e, by_name)->0))
    } else {
        None
    }
}

/// The 4096 palette indices packed in `data` for a palette of `n`
/// entries, or `None` when `data` holds fewer than 4096 indices or one of
/// them is not below `n`.
pub open spec fn section_indices(n: nat, data: Seq<i64>) -> Option<Seq<int>> {
    let bits = bits_per_block(n);
    if data.len() * (64nat / bits) < 4096 {
        None
    } else if exists|j: int| 0 <= j < 4096 && packed_entry(data, bits, j) >= n {
        None
    } else {
        Some(Seq::new(4096, |j: int| packed_entry(data, bits, j)))
    }
}

/// A section of 4096 copies of `x`.
pub open spec fn uniform(x: Seq<char>) -> Seq<Seq<char>> {
    Seq::new(4096, |j: int| x)
}

/// The 4096 blocks of a section's `block_states`, in layout order
/// (`index = y*256 + z*16 + x`), each by its key; `None` when the
/// `block_states` are malformed. A palette of one entry (or none) fills
/// the section without reading any indices.
pub open spec fn section_blocks(bs: Seq<NbtEntry>, by_name: bool) -> Option<Seq<Seq<char>>> {
    match as_list(lookup(bs, "palette"@)) {
        None => None,
        Some(pal) => match palette_keys(pal, by_name) {
            None => None,
            Some(ids) => if ids.len() <= 1 {
                Some(uniform(if ids.len() == 1 { ids[0] } else { air() }))
            } else {
                match lookup(bs, "data"@) {
                    Some(Nbt::LongArray(d)) => match section_indices(ids.len(), d@) {
                        None => None,
                        Some(ix) => Some(ix.map_values(|k: int| ids[k])),
                    },
                    _ => None,
                }
            },
        },
    }
}

/// The keys of every palette entry, in order.
fn palette_strings(pal: &Vec<Nbt>, by_name: bool) -> (r: Result<Vec<String>, WorldError>)
    ensures
        match r {
            Ok(v) => palette_keys(pal@, by_name) == Some(strings_view(v@)),
            Err(e) => palette_keys(pal@, by_name) is None && e is Shape,
        },
{
    let mut out: Vec<String> = Vec::new();
    let mut i: usize = 0;
    while i < pal.len()
        invariant
            i <= pal.len(),
            out@.len() == i,
            forall|j: int| 0 <= j < i ==> entry_key(pal@[j], by_name) == Some(#[trigger] out@[j]@),
        decreases pal.len() - i,
    {
        let k = if by_name {
            block_name(&pal[i])
        } else {
            block_identity(&pal[i])
        };
        match k {
            Ok(s) => out.push(s),
            Err(e) => {
                assert(entry_key(pal@[i as int], by_name) is None);
                return Err(e);
            },
        }
        i = i + 1;
    }
    proof {
        assert forall|j: int| 0 <= j < pal@.len() implies (#[trigger] entry_key(
            pal@[j],
            by_name,
        )) is Some by {
            assert(entry_key(pal@[j], by_name) == Some(out@[j]@));
        }
        assert(pal@.map_values(|e: Nbt| entry_key(e, by_name)->0) == strings_view(out@));
    }
    Ok(out)
}

/// The 4096 palette indices packed in `data`, for a palette of `n`.
fn unpack_indices(n: usize, data: &Vec<i64>) -> (r: Result<Vec<usize>, WorldError>)
    ensures
        match r {
            Ok(v) => section_indices(n as nat, data@) == Some(v@.map_values(|k: usize| k as int)),
            Err(e) => section_indices(n as nat, data@) is None && e is Shape,
        },
{
    let (bits, per_long, mask) = packing(n);
    let ghost bitsn = bits as nat;
    let mut out: Vec<usize> = Vec::new();
    let mut k: usize = 0;
    while k < BLOCKS_PER_SECTION
        invariant
            k <= 4096,
            out@.len() == k,
            bits == bits_per_block(n as nat),
            per_long == 64usize / bits,
            4 <= bits <= 64,
            1 <= per_long <= 16,
            mask == low_mask(bits as nat),
            k > 0 ==> (k - 1) / (per_long as int) < data@.len(),
            forall|j: int|
                0 <= j < k ==> (#[trigger] out@[j]) as int == packed_entry(data@, bits as nat, j)
                    && out@[j] < n,
        decreases 4096 - k,
    {
        let li = k / per_long;
        let i = k % per_long;
        if li >= data.len() {
            proof {
                assert(data@.len() * per_long <= k) by (nonlinear_arith)
                    requires
                        li == k / per_long,
                        li >= data@.len(),
                        per_long >= 1,
                ;
            }
            return Err(shape("block_states.data holds fewer than 4096 indices"));
        }
        let idx = unpack(data[li], i, bits, mask);
        assert(idx as int == packed_entry(data@, bits as nat, k as int));
        if idx >= n as u64 {
            return Err(shape("palette index out of range"));
        }
        out.push(idx as usize);
        k = k + 1;
    }
    proof {
        assert(data@.len() * per_long >= 4096) by (nonlinear_arith)
            requires
                4095int / (per_long as int) < data@.len(),
                per_long >= 1,
        {
            assert(4095int < (4095int / (per_long as int) + 1) * per_long);
        }
        assert(out@.map_values(|k: usize| k as int) =~= Seq::new(
            4096,
            |j: int| packed_entry(data@, bits as nat, j),
        ));
        assert(64nat / bitsn == per_long as nat);
        assert(!(exists|j: int| 0 <= j < 4096 && packed_entry(data@, bitsn, j) >= n)) by {
            if exists|j: int| 0 <= j < 4096 && packed_entry(data@, bitsn, j) >= n {
                let j = choose|j: int| 0 <= j < 4096 && packed_entry(data@, bitsn, j) >= n;
                assert(out@[j] < n);
            }
        }
    }
    Ok(out)
}

/// A section filled with `x`.
fn uniform_section(x: &String) -> (r: Vec<String>)
    ensures
        strings_view(r@) == uniform(x@),
{
    let mut r: Vec<String> = Vec::new();
    let mut k: usize = 0;
    while k < BLOCKS_PER_SECTION
        invariant
            k <= 4096,
            r@.len() == k,
            forall|j: int| 0 <= j < k ==> (#[trigger] r@[j])@ == x@,
        decreases 4096 - k,
    {
        r.push(x.clone());
        k = k + 1;
    }
    assert(strings_view(r@) =~= uniform(x@));
    r
}

/// The name that fills a section whose palette has at most one entry.
fn fill_name(ids: &Vec<String>) -> (r: String)
    requires
        ids.len() <= 1,
    ensures
        r@ == if ids.len() == 1 {
            ids@[0]@
        } else {
            air()
        },
{
    if ids.len() == 1 {
        ids[0].clone()
    } else {
        string_lit("minecraft:air")
    }
}

/// Decodes one section's `block_states` (palette plus bit-packed indices)
/// into the 4096 block identities it holds, in layout order
/// (`index = y*256 + z*16 + x`).
pub fn decode_section_blocks(block_states: &Vec<NbtEntry>) -> (r: Result<Vec<String>, WorldError>)
    ensures
        match r {
            Ok(v) => section_blocks(block_states@, false) == Some(strings_view(v@)),
            Err(e) => section_blocks(block_states@, false) is None && e is Shape,
        },
{
    let pal = match get(block_states, "palette") {
        Some(Nbt::List(pal)) => pal,
        _ => {
            return Err(shape("block_states.palette missing or not a list"));
        },
    };
    let ids = match palette_strings(pal, false) {
        Ok(ids) => ids,
        Err(e) => {
            return Err(e);
        },
    };
    if ids.len() <= 1 {
        let x = fill_name(&ids);
        return Ok(uniform_section(&x));
    }
    let data = match get(block_states, "data") {
        Some(Nbt::LongArray(d)) => d,
        _ => {
            return Err(shape("block_states.data missing for a multi-entry palette"));
        },
    };
    let ix = match unpack_indices(ids.len(), data) {
        Ok(ix) => ix,
        Err(e) => {
            return Err(e);
        },
    };
    let ghost idv = strings_view(ids@);
    let ghost ixv = ix@.map_values(|k: usize| k as int);
    let mut out: Vec<String> = Vec::new();
    let mut k: usize = 0;
    while k < ix.len()
        invariant
            k <= ix.len(),
            ix.len() == 4096,
            out@.len() == k,
            idv == strings_view(ids@),
            ixv == ix@.map_values(|k: usize| k as int),
            section_indices(ids.len() as nat, data@) == Some(ixv),
            forall|j: int| 0 <= j < k ==> (#[trigger] out@[j])@ == idv[ixv[j]],
        decreases ix.len() - k,
    {
        assert(ixv[k as int] == packed_entry(data@, bits_per_block(ids.len() as nat), k as int));
        out.push(ids[ix[k]].clone());
        k = k + 1;
    }
    assert(strings_view(out@) =~= ixv.map_values(|k: int| idv[k]));
    Ok(out)
}

// ---------------------------------------------------------------------------
// Counting
// ---------------------------------------------------------------------------

/// The number of indices in `ix` that point at a palette slot below `m`
/// whose name is `n`.
pub open spec fn slot_sum(names: Seq<Seq<char>>, ix: Seq<int>, n: Seq<char>, m: int) -> nat
    decreases m,
{
    if m <= 0 {
        0
    } else {
        slot_sum(names, ix, n, m - 1) + if names[m - 1] == n {
            occ(ix, m - 1)
        } else {
            0
        }
    }
}

proof fn lemma_occ_push<A>(s: Seq<A>, x: A, y: A)
    ensures
        occ(s.push(x), y) == occ(s, y) + if x == y {
            1nat
        } else {
            0nat
        },
{
    assert(s.push(x).drop_last() == s);
}

proof fn lemma_slot_sum_push(names: Seq<Seq<char>>, ix: Seq<int>, k: int, n: Seq<char>, m: int)
    ensures
        slot_sum(names, ix.push(k), n, m) == slot_sum(names, ix, n, m) + if 0 <= k < m
            && names[k] == n {
            1nat
        } else {
            0nat
        },
    decreases m,
{
    if m > 0 {
        lemma_slot_sum_push(names, ix, k, n, m - 1);
        lemma_occ_push(ix, k, m - 1);
    }
}

proof fn lemma_slot_sum_zero(names: Seq<Seq<char>>, n: Seq<char>, m: int)
    ensures
        slot_sum(names, Seq::empty(), n, m) == 0,
    decreases m,
{
    if m > 0 {
        lemma_slot_sum_zero(names, n, m - 1);
    }
}

proof fn lemma_slot_sum_total(names: Seq<Seq<char>>, ix: Seq<int>, n: Seq<char>)
    requires
        forall|j: int| 0 <= j < ix.len() ==> 0 <= #[trigger] ix[j] < names.len(),
    ensures
        slot_sum(names, ix, n, names.len() as int) == occ(ix.map_values(|k: int| names[k]), n),
    decreases ix.len(),
{
    if ix.len() == 0 {
        lemma_slot_sum_zero(names, n, names.len() as int);
        assert(ix =~= Seq::empty());
        assert(ix.map_values(|k: int| names[k]) =~= Seq::empty());
    } else {
        let p = ix.drop_last();
        let k = ix.last();
        assert(0 <= ix[ix.len() - 1] < names.len());
        assert(p.push(k) == ix);
        lemma_slot_sum_total(names, p, n);
        lemma_slot_sum_push(names, p, k, n, names.len() as int);
        assert(ix.map_values(|k: int| names[k]) == p.map_values(|k: int| names[k]).push(names[k]));
        lemma_occ_push(p.map_values(|k: int| names[k]), names[k], n);
    }
}

proof fn lemma_uniform_counted(old: Seq<(String, u64)>, new: Seq<(String, u64)>, x: Seq<char>)
    requires
        keys_distinct(new),
        forall|n: Seq<char>|
            #[trigger] tally(new, n) == if n == x {
                sat(tally(old, n) + 4096)
            } else {
                tally(old, n)
            },
        forall|n: Seq<char>| #[trigger] has_key(new, n) == (has_key(old, n) || n == x),
    ensures
        counted(old, new, uniform(x)),
{
    assert(uniform(x) == Seq::new(4096, |i: int| x));
    assert forall|n: Seq<char>| #[trigger] tally(new, n) == sat(tally(old, n) + occ(uniform(x), n)) by {
        lemma_occ_repeat(4096, x, n);
        lemma_tally_bounds(old, n);
    }
    assert forall|n: Seq<char>| #[trigger] has_key(new, n) == (has_key(old, n) || occ(uniform(x), n) > 0) by {
        lemma_occ_repeat(4096, x, n);
    }
}

/// Tallies one section's blocks by bare name into `counts`, without
/// materializing the 4096 names: each packed index bumps a per-slot
/// counter, and the slot counters are then added by name. On an error
/// `counts` is left as it was.
pub fn count_section_blocks(block_states: &Vec<NbtEntry>, counts: &mut Vec<(String, u64)>) -> (r:
    Result<(), WorldError>)
    requires
        keys_distinct(old(counts)@),
    ensures
        match r {
            Ok(()) => section_blocks(block_states@, true) matches Some(s) && counted(
                old(counts)@,
                final(counts)@,
                s,
            ),
            Err(e) => {
                &&& section_blocks(block_states@, true) is None
                &&& e is Shape
                &&& final(counts)@ == old(counts)@
            },
        },
{
    let pal = match get(block_states, "palette") {
        Some(Nbt::List(pal)) => pal,
        _ => {
            return Err(shape("block_states.palette missing or not a list"));
        },
    };
    let names = match palette_strings(pal, true) {
        Ok(names) => names,
        Err(e) => {
            return Err(e);
        },
    };
    if names.len() <= 1 {
        let x = fill_name(&names);
        let ghost before = counts@;
        add_count(counts, &x, 4096);
        proof {
            lemma_uniform_counted(before, counts@, x@);
        }
        return Ok(());
    }
    let data = match get(block_states, "data") {
        Some(Nbt::LongArray(d)) => d,
        _ => {
            return Err(shape("block_states.data missing for a multi-entry palette"));
        },
    };
    let ix = match unpack_indices(names.len(), data) {
        Ok(ix) => ix,
        Err(e) => {
            return Err(e);
        },
    };
    let ghost idv = strings_view(names@);
    let ghost ixv = ix@.map_values(|k: usize| k as int);
    let mut per_index: Vec<u64> = Vec::new();
    while per_index.len() < names.len()
        invariant
            per_index.len() <= names.len(),
            forall|i: int| 0 <= i < per_index.len() ==> per_index@[i] == 0,
        decreases names.len() - per_index.len(),
    {
        per_index.push(0);
    }
    proof {
        assert forall|j: int| 0 <= j < ix.len() implies (#[trigger] ix@[j]) < names.len() by {
            assert(ixv[j] == packed_entry(data@, bits_per_block(names.len() as nat), j));
        }
        assert forall|i: int| 0 <= i < per_index.len() implies (#[trigger] per_index@[i]) == occ(
            ixv.take(0),
            i,
        ) by {
            assert(ixv.take(0).len() == 0);
        }
    }
    let mut k: usize = 0;
    while k < ix.len()
        invariant
            k <= ix.len(),
            ix.len() == 4096,
            per_index.len() == names.len(),
            ixv == ix@.map_values(|k: usize| k as int),
            forall|j: int| 0 <= j < ix.len() ==> (#[trigger] ix@[j]) < names.len(),
            forall|i: int|
                0 <= i < per_index.len() ==> (#[trigger] per_index@[i]) == occ(ixv.take(k as int), i)
                    && per_index@[i] <= k,
        decreases ix.len() - k,
    {
        let slot = ix[k];
        proof {
            assert(ixv.take(k + 1) == ixv.take(k as int).push(slot as int));
            assert forall|i: int| 0 <= i < per_index.len() implies occ(ixv.take(k + 1), i) == occ(
                ixv.take(k as int),
                i,
            ) + if slot as int == i {
                1nat
            } else {
                0nat
            } by {
                lemma_occ_push(ixv.take(k as int), slot as int, i);
            }
        }
        let c = per_index[slot];
        per_index.set(slot, c + 1);
        k = k + 1;
    }
    assert(ixv.take(4096) == ixv);
    let ghost before = counts@;
    let mut i: usize = 0;
    proof {
        assert forall|n: Seq<char>| #[trigger] tally(counts@, n) == sat(
            tally(before, n) + slot_sum(idv, ixv, n, 0),
        ) by {
            lemma_tally_bounds(before, n);
        }
    }
    while i < names.len()
        invariant
            i <= names.len(),
            per_index.len() == names.len(),
            idv == strings_view(names@),
            forall|i: int| 0 <= i < per_index.len() ==> (#[trigger] per_index@[i]) == occ(ixv, i),
            keys_distinct(counts@),
            forall|n: Seq<char>|
                #[trigger] tally(counts@, n) == sat(tally(before, n) + slot_sum(idv, ixv, n, i as int)),
            forall|n: Seq<char>|
                #[trigger] has_key(counts@, n) == (has_key(before, n) || slot_sum(idv, ixv, n, i as int)
                    > 0),
        decreases names.len() - i,
    {
        let ghost mid = counts@;
        if per_index[i] > 0 {
            add_count(counts, &names[i], per_index[i]);
        }
        proof {
            assert forall|n: Seq<char>| #[trigger] tally(counts@, n) == sat(
                tally(before, n) + slot_sum(idv, ixv, n, i + 1),
            ) by {
                lemma_tally_bounds(before, n);
                if per_index@[i as int] > 0 && n == idv[i as int] {
                    lemma_sat_add(tally(before, n) + slot_sum(idv, ixv, n, i as int), per_index@[i as int] as int);
                }
            }
            assert forall|n: Seq<char>| #[trigger] has_key(counts@, n) == (has_key(before, n)
                || slot_sum(idv, ixv, n, i + 1) > 0) by {
                assert(has_key(mid, n) == (has_key(before, n) || slot_sum(idv, ixv, n, i as int) > 0));
            }
        }
        i = i + 1;
    }
    proof {
        assert forall|j: int| 0 <= j < ixv.len() implies 0 <= #[trigger] ixv[j] < idv.len() by {
            assert(ix@[j] < names.len());
        }
        assert forall|n: Seq<char>| #[trigger] tally(counts@, n) == sat(
            tally(before, n) + occ(ixv.map_values(|k: int| idv[k]), n),
        ) by {
            lemma_slot_sum_total(idv, ixv, n);
        }
        assert forall|n: Seq<char>| #[trigger] has_key(counts@, n) == (has_key(before, n) || occ(
            ixv.map_values(|k: int| idv[k]),
            n,
        ) > 0) by {
            lemma_slot_sum_total(idv, ixv, n);
        }
    }
    Ok(())
}

// ---------------------------------------------------------------------------
// Whole chunks
// ---------------------------------------------------------------------------

/// The entries of a compound root.
pub open spec fn root_entries(root: Nbt) -> Option<Seq<NbtEntry>> {
    match root {
        Nbt::Compound(es) => Some(es@),
        _ => None,
    }
}

/// One decoded section: its `Y` and its 4096 block identities.
pub type SectionV = (i8, Seq<Seq<char>>);

/// How one element of `sections` decodes: `None` on a malformed
/// `block_states`, `Some(None)` when it is skipped (not a compound, or no
/// byte `Y`), otherwise its `Y` and blocks (all air without
/// `block_states`).
pub open spec fn decode_section(sec: Nbt) -> Option<Option<SectionV>> {
    match sec {
        Nbt::Compound(es) => match lookup(es@, "Y"@) {
            Some(Nbt::Byte(y)) => match lookup(es@, "block_states"@) {
                Some(Nbt::Compound(bs)) => match section_blocks(bs@, false) {
                    None => None,
                    Some(b) => Some(Some((y, b))),
                },
                _ => Some(Some((y, uniform(air())))),
            },
            _ => Some(None),
        },
        _ => Some(None),
    }
}

/// The decoded sections of a `sections` list, in list order, or `None`
/// if any of them is malformed.
pub open spec fn decode_sections(secs: Seq<Nbt>) -> Option<Seq<SectionV>>
    decreases secs.len(),
{
    if secs.len() == 0 {
        Some(Seq::empty())
    } else {
        match (decode_sections(secs.drop_last()), decode_section(secs.last())) {
            (Some(a), Some(Some(x))) => Some(a.push(x)),
            (Some(a), Some(None)) => Some(a),
            _ => None,
        }
    }
}

proof fn lemma_decode_sections_prefix_none(secs: Seq<Nbt>, k: int)
    requires
        0 <= k <= secs.len(),
        decode_sections(secs.take(k)) is None,
    ensures
        decode_sections(secs) is None,
    decreases secs.len() - k,
{
    if k < secs.len() {
        assert(secs.take(k + 1).drop_last() == secs.take(k));
        lemma_decode_sections_prefix_none(secs, k + 1);
    } else {
        assert(secs.take(k) == secs);
    }
}

proof fn lemma_decode_sections_full(secs: Seq<Nbt>)
    ensures
        decode_sections(secs) matches Some(d) ==> forall|j: int|
            0 <= j < d.len() ==> (#[trigger] d[j]).1.len() == 4096,
    decreases secs.len(),
{
    if secs.len() > 0 {
        lemma_decode_sections_full(secs.drop_last());
        if let Some(Some(x)) = decode_section(secs.last()) {
            if let Nbt::Compound(es) = secs.last() {
                if let Some(Nbt::Compound(bs)) = lookup(es@, "block_states"@) {
                    if let Some(b) = section_blocks(bs@, false) {
                        lemma_section_blocks_full(bs@, false);
                    }
                }
            }
        }
    }
}

proof fn lemma_section_blocks_full(bs: Seq<NbtEntry>, by_name: bool)
    ensures
        section_blocks(bs, by_name) matches Some(b) ==> b.len() == 4096,
{
}

/// The decoded sections of a parsed chunk: `Err(true)` when the root is
/// not a compound or has no `sections` list, `Err(false)` when a section
/// is malformed.
pub open spec fn chunk_sections(root: Nbt) -> Result<Seq<SectionV>, bool> {
    match root_entries(root) {
        None => Err(true),
        Some(es) => match as_list(lookup(es, "sections"@)) {
            None => Err(true),
            Some(secs) => match decode_sections(secs) {
                None => Err(false),
                Some(d) => Ok(d),
            },
        },
    }
}

/// The view of decoded sections.
pub open spec fn sections_view(v: Seq<(i8, Vec<String>)>) -> Seq<SectionV> {
    v.map_values(|p: (i8, Vec<String>)| (p.0, strings_view(p.1@)))
}

/// Decodes every section of a parsed chunk's block data, each with its
/// `Y`, in list order. A section with no `block_states` decodes as pure
/// air.
pub fn decode_chunk_sections(root: &Nbt) -> (r: Result<Vec<(i8, Vec<String>)>, WorldError>)
    ensures
        match r {
            Ok(v) => chunk_sections(*root) == Ok::<Seq<SectionV>, bool>(sections_view(v@)),
            Err(e) => chunk_sections(*root) is Err && e is Shape,
        },
{
    let es = match root {
        Nbt::Compound(es) => es,
        _ => {
            return Err(shape("chunk root is not a compound"));
        },
    };
    let secs = match get(es, "sections") {
        Some(Nbt::List(secs)) => secs,
        _ => {
            return Err(shape("chunk has no \"sections\" list"));
        },
    };
    let mut out: Vec<(i8, Vec<String>)> = Vec::new();
    let mut i: usize = 0;
    while i < secs.len()
        invariant
            i <= secs.len(),
            decode_sections(secs@.take(i as int)) == Some(sections_view(out@)),
            as_list(lookup(root_entries(*root)->0, "sections"@)) == Some(secs@),
            root_entries(*root) is Some,
        decreases secs.len() - i,
    {
        proof {
            assert(secs@.take(i + 1).drop_last() == secs@.take(i as int));
            assert(secs@.take(i + 1).last() == secs@[i as int]);
        }
        if let Nbt::Compound(sec) = &secs[i] {
            if let Some(Nbt::Byte(y)) = get(sec, "Y") {
                let blocks = match get(sec, "block_states") {
                    Some(Nbt::Compound(bs)) => match decode_section_blocks(bs) {
                        Ok(b) => b,
                        Err(e) => {
                            proof {
                                assert(decode_section(secs@[i as int]) is None);
                                assert(decode_sections(secs@.take(i + 1)) is None);
                                lemma_decode_sections_prefix_none(secs@, i + 1);
                            }
                            return Err(e);
                        },
                    },
                    _ => {
                        let a = string_lit("minecraft:air");
                        uniform_section(&a)
                    },
                };
                let ghost before = out@;
                out.push((*y, blocks));
                proof {
                    assert(sections_view(out@) == sections_view(before).push(
                        (*y, strings_view(blocks@)),
                    ));
                }
            }
        }
        i = i + 1;
    }
    assert(secs@.take(secs.len() as int) == secs@);
    Ok(out)
}

/// Index of the last section with `Y == y`.
pub open spec fn last_with(s: Seq<SectionV>, y: i8) -> Option<int>
    decreases s.len(),
{
    if s.len() == 0 {
        None
    } else if s.last().0 == y {
        Some(s.len() - 1)
    } else {
        last_with(s.drop_last(), y)
    }
}

/// One changed block: absolute x, y, z, then old and new identity.
pub type BlockDiffV = (int, int, int, Seq<char>, Seq<char>);

/// The change at local index `k` of section `y` of chunk (`cx`, `cz`).
pub open spec fn block_change(cx: int, cz: int, y: int, k: int, f: Seq<char>, t: Seq<char>) -> BlockDiffV {
    (cx * 16 + k % 16, y * 16 + k / 256, cz * 16 + (k % 256) / 16, f, t)
}

/// The changes among the first `m` blocks of a section, in index order.
pub open spec fn section_changes(
    f: Seq<Seq<char>>,
    t: Seq<Seq<char>>,
    cx: int,
    cz: int,
    y: int,
    m: int,
) -> Seq<BlockDiffV>
    decreases m,
{
    if m <= 0 {
        Seq::empty()
    } else {
        let prev = section_changes(f, t, cx, cz, y, m - 1);
        if f[m - 1] != t[m - 1] {
            prev.push(block_change(cx, cz, y, m - 1, f[m - 1], t[m - 1]))
        } else {
            prev
        }
    }
}

/// The changes between two decoded chunks: for each `from` section that
/// is the last with its `Y` and whose `Y` the `to` side also has (its
/// last section with that `Y`), the blocks that differ, in index order;
/// sections are taken in `from` order.
pub open spec fn chunk_changes(from: Seq<SectionV>, to: Seq<SectionV>, cx: int, cz: int, m: int) -> Seq<BlockDiffV>
    decreases m,
{
    if m <= 0 {
        Seq::empty()
    } else {
        let prev = chunk_changes(from, to, cx, cz, m - 1);
        let sec = from[m - 1];
        if last_with(from, sec.0) == Some(m - 1) {
            match last_with(to, sec.0) {
                Some(j) => prev + section_changes(sec.1, to[j].1, cx, cz, sec.0 as int, 4096),
                None => prev,
            }
        } else {
            prev
        }
    }
}

/// The view of a block difference.
pub open spec fn block_diff_view(d: BlockDiff) -> BlockDiffV {
    (d.x as int, d.y as int, d.z as int, d.from@, d.to@)
}

/// Chunk coordinates whose blocks have `i32` world coordinates.
pub open spec fn chunk_coord_ok(c: i32) -> bool {
    -134217728 <= c <= 134217727
}

fn last_index_with(s: &Vec<(i8, Vec<String>)>, y: i8) -> (r: Option<usize>)
    ensures
        match r {
            Some(i) => last_with(sections_view(s@), y) == Some(i as int) && i < s.len(),
            None => last_with(sections_view(s@), y) is None,
        },
{
    let ghost sv = sections_view(s@);
    let mut i: usize = s.len();
    assert(sv.take(s.len() as int) == sv);
    while i > 0
        invariant
            i <= s.len(),
            sv == sections_view(s@),
            last_with(sv, y) == last_with(sv.take(i as int), y),
        decreases i,
    {
        proof {
            assert(sv.take(i as int).drop_last() == sv.take(i - 1));
        }
        if s[i - 1].0 == y {
            return Some(i - 1);
        }
        i = i - 1;
    }
    None
}

/// Appends the blocks that differ between `f` and `t` (section `y`).
fn push_section_changes(
    out: &mut Vec<BlockDiff>,
    f: &Vec<String>,
    t: &Vec<String>,
    cx: i32,
    cz: i32,
    y: i8,
)
    requires
        f.len() == 4096,
        t.len() == 4096,
        chunk_coord_ok(cx),
        chunk_coord_ok(cz),
    ensures
        final(out)@.map_values(|d: BlockDiff| block_diff_view(d)) == old(out)@.map_values(
            |d: BlockDiff| block_diff_view(d),
        ) + section_changes(strings_view(f@), strings_view(t@), cx as int, cz as int, y as int, 4096),
{
    let ghost fv = strings_view(f@);
    let ghost tv = strings_view(t@);
    let ghost base = old(out)@.map_values(|d: BlockDiff| block_diff_view(d));
    let mut k: usize = 0;
    while k < 4096
        invariant
            k <= 4096,
            f.len() == 4096,
            t.len() == 4096,
            fv == strings_view(f@),
            tv == strings_view(t@),
            chunk_coord_ok(cx),
            chunk_coord_ok(cz),
            out@.map_values(|d: BlockDiff| block_diff_view(d)) == base + section_changes(
                fv,
                tv,
                cx as int,
                cz as int,
                y as int,
                k as int,
            ),
        decreases 4096 - k,
    {
        let ghost before = out@;
        if !str_equals(f[k].as_str(), t[k].as_str()) {
            let d = BlockDiff {
                x: cx * 16 + (k % 16) as i32,
                y: (y as i32) * 16 + (k / 256) as i32,
                z: cz * 16 + ((k % 256) / 16) as i32,
                from: f[k].clone(),
                to: t[k].clone(),
            };
            out.push(d);
            proof {
                assert(out@.map_values(|d: BlockDiff| block_diff_view(d)) == before.map_values(
                    |d: BlockDiff| block_diff_view(d),
                ).push(block_diff_view(d)));
            }
        }
        k = k + 1;
    }
}

/// The sections of a successful decode each hold 4096 blocks.
proof fn lemma_decoded_full(root: Nbt, v: Seq<(i8, Vec<String>)>)
    requires
        chunk_sections(root) == Ok::<Seq<SectionV>, bool>(sections_view(v)),
    ensures
        forall|j: int| 0 <= j < v.len() ==> (#[trigger] v[j]).1.len() == 4096,
{
    lemma_decode_sections_full(as_list(lookup(root_entries(root)->0, "sections"@))->0);
    assert forall|j: int| 0 <= j < v.len() implies (#[trigger] v[j]).1.len() == 4096 by {
        assert(sections_view(v)[j].1.len() == 4096);
    }
}

/// The blocks that differ between two decoded chunks (see
/// `chunk_changes`).
fn diff_sections(fs: &Vec<(i8, Vec<String>)>, ts: &Vec<(i8, Vec<String>)>, chunk_x: i32, chunk_z: i32) -> (r:
    Vec<BlockDiff>)
    requires
        chunk_coord_ok(chunk_x),
        chunk_coord_ok(chunk_z),
        forall|j: int| 0 <= j < fs.len() ==> (#[trigger] fs@[j]).1.len() == 4096,
        forall|j: int| 0 <= j < ts.len() ==> (#[trigger] ts@[j]).1.len() == 4096,
    ensures
        r@.map_values(|d: BlockDiff| block_diff_view(d)) == chunk_changes(
            sections_view(fs@),
            sections_view(ts@),
            chunk_x as int,
            chunk_z as int,
            fs.len() as int,
        ),
{
    let ghost fv = sections_view(fs@);
    let ghost tv = sections_view(ts@);
    let mut out: Vec<BlockDiff> = Vec::new();
    let mut i: usize = 0;
    while i < fs.len()
        invariant
            i <= fs.len(),
            fv == sections_view(fs@),
            tv == sections_view(ts@),
            forall|j: int| 0 <= j < fs.len() ==> (#[trigger] fs@[j]).1.len() == 4096,
            forall|j: int| 0 <= j < ts.len() ==> (#[trigger] ts@[j]).1.len() == 4096,
            chunk_coord_ok(chunk_x),
            chunk_coord_ok(chunk_z),
            out@.map_values(|d: BlockDiff| block_diff_view(d)) == chunk_changes(
                fv,
                tv,
                chunk_x as int,
                chunk_z as int,
                i as int,
            ),
        decreases fs.len() - i,
    {
        let y = fs[i].0;
        if let Some(li) = last_index_with(fs, y) {
            if li == i {
                if let Some(tj) = last_index_with(ts, y) {
                    push_section_changes(&mut out, &fs[i].1, &ts[tj].1, chunk_x, chunk_z, y);
                }
            }
        }
        i = i + 1;
    }
    out
}

/// Diffs two parsed versions of the same chunk's block data, block by
/// block, at absolute world positions. Sections present on only one side
/// are skipped; only sections present on both sides are compared.
pub fn diff_parsed_chunk_blocks(from: &Nbt, to: &Nbt, chunk_x: i32, chunk_z: i32) -> (r: Result<
    Vec<BlockDiff>,
    WorldError,
>)
    requires
        chunk_coord_ok(chunk_x),
        chunk_coord_ok(chunk_z),
    ensures
        match r {
            Ok(v) => chunk_sections(*from) matches Ok(f) && chunk_sections(*to) matches Ok(t)
                && v@.map_values(|d: BlockDiff| block_diff_view(d)) == chunk_changes(
                f,
                t,
                chunk_x as int,
                chunk_z as int,
                f.len() as int,
            ),
            Err(e) => (chunk_sections(*from) is Err || chunk_sections(*to) is Err) && e is Shape,
        },
{
    let fs = match decode_chunk_sections(from) {
        Ok(v) => v,
        Err(e) => {
            return Err(e);
        },
    };
    let ts = match decode_chunk_sections(to) {
        Ok(v) => v,
        Err(e) => {
            return Err(e);
        },
    };
    proof {
        lemma_decoded_full(*from, fs@);
        lemma_decoded_full(*to, ts@);
    }
    Ok(diff_sections(&fs, &ts, chunk_x, chunk_z))
}

// ---------------------------------------------------------------------------
// From raw chunk bytes
// ---------------------------------------------------------------------------

/// Whether `root` is what the bytes parse to, up to the order of each
/// compound's entries.
pub open spec fn parses_to(bytes: Seq<u8>, root: Nbt) -> bool {
    nbt_parse(bytes) == Some(nbt_view(root))
}

/// `d` is the block difference of two parses of the chunk bytes `fb` and
/// `tb` (what holds of every parse, whatever order it gives entries).
pub open spec fn blocks_diff_of(fb: Seq<u8>, tb: Seq<u8>, cx: int, cz: int, d: Seq<BlockDiffV>) -> bool {
    exists|f: Nbt, t: Nbt|
        #![trigger chunk_sections(f), chunk_sections(t)]
        {
            &&& parses_to(fb, f)
            &&& parses_to(tb, t)
            &&& chunk_sections(f) matches Ok(fs) && chunk_sections(t) matches Ok(ts) && d
                == chunk_changes(fs, ts, cx, cz, fs.len() as int)
        }
}

/// The sections of a parse of `fb` cannot be decoded, or those of a parse
/// of `tb` cannot.
pub open spec fn blocks_undecodable(fb: Seq<u8>, tb: Seq<u8>) -> bool {
    exists|f: Nbt|
        #![trigger chunk_sections(f)]
        parses_to(fb, f) && (chunk_sections(f) is Err || exists|t: Nbt|
            #![trigger chunk_sections(t)]
            parses_to(tb, t) && chunk_sections(t) is Err)
}

/// `d` is the entity difference of two parses of the chunk bytes.
pub open spec fn entities_diff_of(fb: Seq<u8>, tb: Seq<u8>, d: Seq<(Seq<char>, Seq<char>, Presence)>) -> bool {
    exists|f: Nbt, t: Nbt|
        #![trigger chunk_entity_keys(f), chunk_entity_keys(t)]
        {
            &&& parses_to(fb, f)
            &&& parses_to(tb, t)
            &&& chunk_entity_keys(f) matches Some(fk) && chunk_entity_keys(t) matches Some(tk) && d
                == missing_from(fk, tk, Presence::Removed) + missing_from(tk, fk, Presence::Added)
        }
}

/// A parse of `fb`, or of `tb`, is not a compound.
pub open spec fn entities_undecodable(fb: Seq<u8>, tb: Seq<u8>) -> bool {
    exists|f: Nbt|
        #![trigger chunk_entity_keys(f)]
        parses_to(fb, f) && (chunk_entity_keys(f) is None || exists|t: Nbt|
            #![trigger chunk_entity_keys(t)]
            parses_to(tb, t) && chunk_entity_keys(t) is None)
}

/// `d` is the structure difference of two parses of the chunk bytes.
pub open spec fn structures_diff_of(fb: Seq<u8>, tb: Seq<u8>, d: Seq<(Seq<char>, Presence)>) -> bool {
    exists|f: Nbt, t: Nbt|
        #![trigger chunk_structure_starts(f), chunk_structure_starts(t)]
        {
            &&& parses_to(fb, f)
            &&& parses_to(tb, t)
            &&& chunk_structure_starts(f) matches Some(fk) && chunk_structure_starts(t) matches Some(tk)
                && d == names_missing_from(fk, tk, Presence::Removed) + names_missing_from(
                tk,
                fk,
                Presence::Added,
            )
        }
}

/// A parse of `fb`, or of `tb`, is not a compound.
pub open spec fn structures_undecodable(fb: Seq<u8>, tb: Seq<u8>) -> bool {
    exists|f: Nbt|
        #![trigger chunk_structure_starts(f)]
        parses_to(fb, f) && (chunk_structure_starts(f) is None || exists|t: Nbt|
            #![trigger chunk_structure_starts(t)]
            parses_to(tb, t) && chunk_structure_starts(t) is None)
}

/// Parses a chunk's raw NBT; a parse failure becomes `WorldError::Nbt`.
pub fn parse_chunk(bytes: &[u8]) -> (r: Result<Nbt, WorldError>)
    ensures
        r is Ok <==> nbt_accepts(bytes@),
        r matches Ok(v) ==> parses_to(bytes@, v),
        r matches Err(e) ==> e is Nbt,
{
    match parse_nbt(bytes) {
        Ok(v) => Ok(v),
        Err(e) => Err(WorldError::Nbt(nbt_error_text(&e))),
    }
}

/// Diffs two versions (raw NBT) of the same chunk's block data, block by
/// block. `chunk_x`/`chunk_z` are the chunk's absolute coordinates, used
/// to turn each local position into an absolute world position. The
/// `from` side is parsed and decoded before the `to` side is read.
pub fn diff_chunk_blocks(from_nbt: &[u8], to_nbt: &[u8], chunk_x: i32, chunk_z: i32) -> (r: Result<
    Vec<BlockDiff>,
    WorldError,
>)
    requires
        chunk_coord_ok(chunk_x),
        chunk_coord_ok(chunk_z),
    ensures
        !nbt_accepts(from_nbt@) ==> r matches Err(WorldError::Nbt(_)),
        r matches Err(WorldError::Nbt(_)) ==> !nbt_accepts(from_nbt@) || !nbt_accepts(to_nbt@),
        nbt_accepts(from_nbt@) && !nbt_accepts(to_nbt@) ==> r is Err,
        r matches Ok(v) ==> blocks_diff_of(
            from_nbt@,
            to_nbt@,
            chunk_x as int,
            chunk_z as int,
            v@.map_values(|d: BlockDiff| block_diff_view(d)),
        ),
        r matches Err(WorldError::Shape(_)) ==> blocks_undecodable(from_nbt@, to_nbt@),
        r matches Err(e) ==> e is Nbt || e is Shape,
{
    let from = match parse_chunk(from_nbt) {
        Ok(v) => v,
        Err(e) => {
            return Err(e);
        },
    };
    let fs = match decode_chunk_sections(&from) {
        Ok(v) => v,
        Err(e) => {
            return Err(e);
        },
    };
    let to = match parse_chunk(to_nbt) {
        Ok(v) => v,
        Err(e) => {
            return Err(e);
        },
    };
    let ts = match decode_chunk_sections(&to) {
        Ok(v) => v,
        Err(e) => {
            return Err(e);
        },
    };
    proof {
        lemma_decoded_full(from, fs@);
        lemma_decoded_full(to, ts@);
    }
    let d = diff_sections(&fs, &ts, chunk_x, chunk_z);
    assert(chunk_sections(from) matches Ok(f) && chunk_sections(to) matches Ok(t));
    Ok(d)
}

/// The bare block names of one element of `sections` (each of its 4096
/// blocks; none when it is not a compound; all air without
/// `block_states`), or `None` when it is malformed.
pub open spec fn section_names(sec: Nbt) -> Option<Seq<Seq<char>>> {
    match sec {
        Nbt::Compound(es) => match lookup(es@, "block_states"@) {
            Some(Nbt::Compound(bs)) => section_blocks(bs@, true),
            _ => Some(uniform(air())),
        },
        _ => Some(Seq::empty()),
    }
}

/// The bare names of every block of a `sections` list, section after
/// section.
pub open spec fn block_names(secs: Seq<Nbt>) -> Option<Seq<Seq<char>>>
    decreases secs.len(),
{
    if secs.len() == 0 {
        Some(Seq::empty())
    } else {
        match (block_names(secs.drop_last()), section_names(secs.last())) {
            (Some(a), Some(b)) => Some(a + b),
            _ => None,
        }
    }
}

/// The bare names of every block of a parsed chunk: `Err(true)` when the
/// root is not a compound or has no `sections` list, `Err(false)` when a
/// section is malformed.
pub open spec fn chunk_block_names(root: Nbt) -> Result<Seq<Seq<char>>, bool> {
    match root_entries(root) {
        None => Err(true),
        Some(es) => match as_list(lookup(es, "sections"@)) {
            None => Err(true),
            Some(secs) => match block_names(secs) {
                None => Err(false),
                Some(d) => Ok(d),
            },
        },
    }
}

proof fn lemma_block_names_prefix_none(secs: Seq<Nbt>, k: int)
    requires
        0 <= k <= secs.len(),
        block_names(secs.take(k)) is None,
    ensures
        block_names(secs) is None,
    decreases secs.len() - k,
{
    if k < secs.len() {
        assert(secs.take(k + 1).drop_last() == secs.take(k));
        lemma_block_names_prefix_none(secs, k + 1);
    } else {
        assert(secs.take(k) == secs);
    }
}

/// What a failed tally of a parsed chunk leaves in the counts: nothing
/// when the root is not a compound or has no `sections` list; otherwise
/// the blocks of the sections before the first malformed one.
pub open spec fn counted_until_failure(root: Nbt, before: Seq<(String, u64)>, after: Seq<(String, u64)>) -> bool {
    match root_entries(root) {
        None => after == before,
        Some(es) => match as_list(lookup(es, "sections"@)) {
            None => after == before,
            Some(secs) => exists|i: int|
                0 <= i < secs.len() && #[trigger] block_names(secs.take(i)) is Some && section_names(secs[i]) is None
                    && counted(before, after, block_names(secs.take(i))->0),
        },
    }
}

/// Tallies every block of a parsed chunk by bare name into `counts`,
/// section after section; a malformed section stops it, with the sections
/// before it already tallied.
pub fn count_parsed_chunk_blocks(root: &Nbt, counts: &mut Vec<(String, u64)>) -> (r: Result<
    (),
    WorldError,
>)
    requires
        keys_distinct(old(counts)@),
    ensures
        match r {
            Ok(()) => chunk_block_names(*root) matches Ok(s) && counted(
                old(counts)@,
                final(counts)@,
                s,
            ),
            Err(e) => chunk_block_names(*root) is Err && e is Shape && keys_distinct(final(counts)@)
                && counted_until_failure(*root, old(counts)@, final(counts)@),
        },
{
    let es = match root {
        Nbt::Compound(es) => es,
        _ => {
            return Err(shape("chunk root is not a compound"));
        },
    };
    let secs = match get(es, "sections") {
        Some(Nbt::List(secs)) => secs,
        _ => {
            return Err(shape("chunk has no \"sections\" list"));
        },
    };
    let mut local: Vec<(String, u64)> = Vec::new();
    let mut i: usize = 0;
    proof {
        lemma_counted_empty(local@);
        assert(secs@.take(0).len() == 0);
    }
    while i < secs.len()
        invariant
            i <= secs.len(),
            block_names(secs@.take(i as int)) matches Some(a) && counted(Seq::empty(), local@, a),
            as_list(lookup(root_entries(*root)->0, "sections"@)) == Some(secs@),
            root_entries(*root) is Some,
            counts@ == old(counts)@,
            keys_distinct(counts@),
        decreases secs.len() - i,
    {
        let ghost a = block_names(secs@.take(i as int))->0;
        let ghost mid = local@;
        proof {
            assert(secs@.take(i + 1).drop_last() == secs@.take(i as int));
            assert(secs@.take(i + 1).last() == secs@[i as int]);
        }
        if let Nbt::Compound(sec) = &secs[i] {
            match get(sec, "block_states") {
                Some(Nbt::Compound(bs)) => {
                    match count_section_blocks(bs, &mut local) {
                        Ok(()) => {
                            proof {
                                let b = section_blocks(bs@, true)->0;
                                lemma_counted_concat(Seq::empty(), mid, local@, a, b);
                            }
                        },
                        Err(e) => {
                            proof {
                                assert(block_names(secs@.take(i + 1)) is None);
                                lemma_block_names_prefix_none(secs@, i + 1);
                                assert(section_names(secs@[i as int]) is None);
                            }
                            let ghost before = counts@;
                            merge_counts(counts, &local);
                            proof {
                                lemma_merge_counted(before, counts@, local@, a);
                                assert(block_names(secs@.take(i as int)) is Some && section_names(secs@[i as int]) is None
                                    && counted(before, counts@, block_names(secs@.take(i as int))->0));
                            }
                            return Err(e);
                        },
                    }
                },
                _ => {
                    let x = string_lit("minecraft:air");
                    add_count(&mut local, &x, 4096);
                    proof {
                        lemma_uniform_counted(mid, local@, x@);
                        lemma_counted_concat(Seq::empty(), mid, local@, a, uniform(air()));
                    }
                },
            }
        } else {
            proof {
                assert(a + Seq::<Seq<char>>::empty() == a);
            }
        }
        i = i + 1;
    }
    assert(secs@.take(secs.len() as int) == secs@);
    let ghost before = counts@;
    merge_counts(counts, &local);
    proof {
        lemma_merge_counted(before, counts@, local@, block_names(secs@)->0);
    }
    Ok(())
}

/// The structure types recorded as starting in a parsed chunk (the keys
/// of `structures.starts`, none when either is missing), or `None` when
/// the root is not a compound.
pub open spec fn chunk_structure_starts(root: Nbt) -> Option<Seq<Seq<char>>> {
    match root_entries(root) {
        None => None,
        Some(es) => match lookup(es, "structures"@) {
            Some(Nbt::Compound(st)) => match lookup(st@, "starts"@) {
                Some(Nbt::Compound(starts)) => Some(starts@.map_values(|e: NbtEntry| e.key@)),
                _ => Some(Seq::empty()),
            },
            _ => Some(Seq::empty()),
        },
    }
}

/// Tallies the structures that start in a parsed chunk by type into
/// `counts`: each structure instance is recorded once, in the chunk where
/// it started. Missing `structures` or `starts` count as none.
pub fn count_parsed_chunk_structures(root: &Nbt, counts: &mut Vec<(String, u64)>) -> (r: Result<
    (),
    WorldError,
>)
    requires
        keys_distinct(old(counts)@),
    ensures
        match r {
            Ok(()) => chunk_structure_starts(*root) matches Some(s) && counted(
                old(counts)@,
                final(counts)@,
                s,
            ),
            Err(e) => chunk_structure_starts(*root) is None && e is Shape && final(counts)@ == old(
                counts,
            )@,
        },
{
    let es = match root {
        Nbt::Compound(es) => es,
        _ => {
            return Err(shape("chunk root is not a compound"));
        },
    };
    proof {
        lemma_counted_empty(counts@);
    }
    let st = match get(es, "structures") {
        Some(Nbt::Compound(st)) => st,
        _ => {
            return Ok(());
        },
    };
    let starts = match get(st, "starts") {
        Some(Nbt::Compound(starts)) => starts,
        _ => {
            return Ok(());
        },
    };
    let ghost keys = starts@.map_values(|e: NbtEntry| e.key@);
    let ghost before = counts@;
    let mut i: usize = 0;
    proof {
        assert(keys.take(0) == Seq::<Seq<char>>::empty());
    }
    while i < starts.len()
        invariant
            i <= starts.len(),
            keys == starts@.map_values(|e: NbtEntry| e.key@),
            counted(before, counts@, keys.take(i as int)),
        decreases starts.len() - i,
    {
        let ghost mid = counts@;
        add_count(counts, &starts[i].key, 1);
        proof {
            assert(keys.take(i + 1) == keys.take(i as int).push(starts@[i as int].key@));
            lemma_counted_push(before, mid, counts@, keys.take(i as int), starts@[i as int].key@);
        }
        i = i + 1;
    }
    assert(keys.take(starts.len() as int) == keys);
    Ok(())
}

/// The `id` of each entity compound that has a string `id`, in order.
pub open spec fn entity_ids(ents: Seq<Nbt>) -> Seq<Seq<char>>
    decreases ents.len(),
{
    if ents.len() == 0 {
        Seq::empty()
    } else {
        let prev = entity_ids(ents.drop_last());
        match ents.last() {
            Nbt::Compound(e) => match as_string(lookup(e@, "id"@)) {
                Some(id) => prev.push(id),
                None => prev,
            },
            _ => prev,
        }
    }
}

/// The entity ids of a parsed `entities/` chunk (none when it has no
/// `Entities` list), or `None` when the root is not a compound.
pub open spec fn chunk_entity_ids(root: Nbt) -> Option<Seq<Seq<char>>> {
    match root_entries(root) {
        None => None,
        Some(es) => match as_list(lookup(es, "Entities"@)) {
            Some(ents) => Some(entity_ids(ents)),
            None => Some(Seq::empty()),
        },
    }
}

/// Tallies the entities of a parsed `entities/` chunk by `id` into
/// `counts`. A missing `Entities` list counts as no entities.
pub fn count_parsed_chunk_entities(root: &Nbt, counts: &mut Vec<(String, u64)>) -> (r: Result<
    (),
    WorldError,
>)
    requires
        keys_distinct(old(counts)@),
    ensures
        match r {
            Ok(()) => chunk_entity_ids(*root) matches Some(s) && counted(
                old(counts)@,
                final(counts)@,
                s,
            ),
            Err(e) => chunk_entity_ids(*root) is None && e is Shape && final(counts)@ == old(
                counts,
            )@,
        },
{
    let es = match root {
        Nbt::Compound(es) => es,
        _ => {
            return Err(shape("chunk root is not a compound"));
        },
    };
    proof {
        lemma_counted_empty(counts@);
    }
    let ents = match get(es, "Entities") {
        Some(Nbt::List(ents)) => ents,
        _ => {
            return Ok(());
        },
    };
    let ghost before = counts@;
    let mut i: usize = 0;
    proof {
        assert(ents@.take(0).len() == 0);
    }
    while i < ents.len()
        invariant
            i <= ents.len(),
            counted(before, counts@, entity_ids(ents@.take(i as int))),
        decreases ents.len() - i,
    {
        let ghost mid = counts@;
        let ghost prefix = entity_ids(ents@.take(i as int));
        proof {
            assert(ents@.take(i + 1).drop_last() == ents@.take(i as int));
            assert(ents@.take(i + 1).last() == ents@[i as int]);
        }
        if let Nbt::Compound(e) = &ents[i] {
            if let Some(Nbt::String(id)) = get(e, "id") {
                add_count(counts, id, 1);
                proof {
                    lemma_counted_push(before, mid, counts@, prefix, id@);
                }
            }
        }
        i = i + 1;
    }
    assert(ents@.take(ents.len() as int) == ents@);
    Ok(())
}

/// Tallies every block of a chunk (raw NBT) by bare name into `counts`.
/// Bytes that are not NBT leave `counts` as it was; a malformed section
/// stops it with the sections before it already tallied.
pub fn count_chunk_blocks(nbt_bytes: &[u8], counts: &mut Vec<(String, u64)>) -> (r: Result<
    (),
    WorldError,
>)
    requires
        keys_distinct(old(counts)@),
    ensures
        keys_distinct(final(counts)@),
        r matches Err(WorldError::Nbt(_)) ==> final(counts)@ == old(counts)@,
        !nbt_accepts(nbt_bytes@) <==> r matches Err(WorldError::Nbt(_)),
        nbt_accepts(nbt_bytes@) ==> exists|root: Nbt|
            parses_to(nbt_bytes@, root) && match r {
                Ok(()) => #[trigger] chunk_block_names(root) matches Ok(s) && counted(
                    old(counts)@,
                    final(counts)@,
                    s,
                ),
                Err(e) => chunk_block_names(root) is Err && e is Shape && counted_until_failure(
                    root,
                    old(counts)@,
                    final(counts)@,
                ),
            },
{
    let root = match parse_chunk(nbt_bytes) {
        Ok(v) => v,
        Err(e) => {
            return Err(e);
        },
    };
    let r = count_parsed_chunk_blocks(&root, counts);
    assert(match r {
        Ok(()) => chunk_block_names(root) matches Ok(s) && counted(old(counts)@, counts@, s),
        Err(e) => chunk_block_names(root) is Err && e is Shape && counted_until_failure(root, old(counts)@, counts@),
    });
    r
}

/// Tallies the structures that start in a `region/` chunk (raw NBT) by
/// type into `counts`. On an error `counts` is left as it was.
pub fn count_chunk_structures(nbt_bytes: &[u8], counts: &mut Vec<(String, u64)>) -> (r: Result<
    (),
    WorldError,
>)
    requires
        keys_distinct(old(counts)@),
    ensures
        keys_distinct(final(counts)@),
        r is Err ==> final(counts)@ == old(counts)@,
        !nbt_accepts(nbt_bytes@) <==> r matches Err(WorldError::Nbt(_)),
        nbt_accepts(nbt_bytes@) ==> exists|root: Nbt|
            parses_to(nbt_bytes@, root) && match r {
                Ok(()) => #[trigger] chunk_structure_starts(root) matches Some(s) && counted(
                    old(counts)@,
                    final(counts)@,
                    s,
                ),
                Err(e) => chunk_structure_starts(root) is None && e is Shape,
            },
{
    let root = match parse_chunk(nbt_bytes) {
        Ok(v) => v,
        Err(e) => {
            return Err(e);
        },
    };
    let r = count_parsed_chunk_structures(&root, counts);
    assert(match r {
        Ok(()) => chunk_structure_starts(root) matches Some(s) && counted(old(counts)@, counts@, s),
        Err(e) => chunk_structure_starts(root) is None && e is Shape,
    });
    r
}

/// Tallies the entities of an `entities/` chunk (raw NBT) by `id` into
/// `counts`. On an error `counts` is left as it was.
pub fn count_chunk_entities(nbt_bytes: &[u8], counts: &mut Vec<(String, u64)>) -> (r: Result<
    (),
    WorldError,
>)
    requires
        keys_distinct(old(counts)@),
    ensures
        keys_distinct(final(counts)@),
        r is Err ==> final(counts)@ == old(counts)@,
        !nbt_accepts(nbt_bytes@) <==> r matches Err(WorldError::Nbt(_)),
        nbt_accepts(nbt_bytes@) ==> exists|root: Nbt|
            parses_to(nbt_bytes@, root) && match r {
                Ok(()) => #[trigger] chunk_entity_ids(root) matches Some(s) && counted(
                    old(counts)@,
                    final(counts)@,
                    s,
                ),
                Err(e) => chunk_entity_ids(root) is None && e is Shape,
            },
{
    let root = match parse_chunk(nbt_bytes) {
        Ok(v) => v,
        Err(e) => {
            return Err(e);
        },
    };
    let r = count_parsed_chunk_entities(&root, counts);
    assert(match r {
        Ok(()) => chunk_entity_ids(root) matches Some(s) && counted(old(counts)@, counts@, s),
        Err(e) => chunk_entity_ids(root) is None && e is Shape,
    });
    r
}

// ---------------------------------------------------------------------------
// Entity and structure differences
// ---------------------------------------------------------------------------

/// The lowercase hex digit of `d` (below 16).
pub open spec fn hex_char(d: nat) -> char {
    if d < 10 {
        (('0' as u32) + d) as char
    } else {
        (('a' as u32) + (d - 10)) as char
    }
}

/// The last `n` hex digits of `x`, most significant first.
pub open spec fn hex_digits(x: nat, n: nat) -> Seq<char>
    decreases n,
{
    if n == 0 {
        Seq::empty()
    } else {
        hex_digits(x / 16, (n - 1) as nat).push(hex_char(x % 16))
    }
}

fn hex_char_exec(d: u32) -> (c: char)
    requires
        d < 16,
    ensures
        c == hex_char(d as nat),
{
    let digits: [char; 16] = ['0', '1', '2', '3', '4', '5', '6', '7', '8', '9', 'a', 'b', 'c', 'd', 'e', 'f'];
    let c = digits[d as usize];
    assert(c == hex_char(d as nat)) by {
        assert(digits@ == seq!['0', '1', '2', '3', '4', '5', '6', '7', '8', '9', 'a', 'b', 'c', 'd', 'e', 'f']);
    }
    c
}

/// Appends the last `n` hex digits of `x`.
fn push_hex(out: &mut Vec<char>, x: u32, n: usize)
    requires
        n <= 8,
    ensures
        final(out)@ == old(out)@ + hex_digits(x as nat, n as nat),
    decreases n,
{
    if n > 0 {
        push_hex(out, x / 16, n - 1);
        out.push(hex_char_exec(x % 16));
    }
}

/// A UUID stored as four ints, as text: `8-4-4-4-12` lowercase hex digits
/// of the ints' 128 bits, most significant int first.
pub open spec fn uuid_text(a: Seq<i32>) -> Seq<char> {
    let w0 = (a[0] as u32) as nat;
    let w1 = (a[1] as u32) as nat;
    let w2 = (a[2] as u32) as nat;
    let w3 = (a[3] as u32) as nat;
    hex_digits(w0, 8) + "-"@ + hex_digits(w1 / 65536, 4) + "-"@ + hex_digits(w1 % 65536, 4) + "-"@
        + hex_digits(w2 / 65536, 4) + "-"@ + hex_digits(w2 % 65536, 4) + hex_digits(w3, 8)
}

fn uuid_text_exec(a: &Vec<i32>) -> (r: Vec<char>)
    requires
        a.len() == 4,
    ensures
        r@ == uuid_text(a@),
{
    let w0 = a[0] as u32;
    let w1 = a[1] as u32;
    let w2 = a[2] as u32;
    let w3 = a[3] as u32;
    let mut r: Vec<char> = Vec::new();
    push_hex(&mut r, w0, 8);
    r.push('-');
    push_hex(&mut r, w1 / 65536, 4);
    r.push('-');
    push_hex(&mut r, w1 % 65536, 4);
    r.push('-');
    push_hex(&mut r, w2 / 65536, 4);
    r.push('-');
    push_hex(&mut r, w2 % 65536, 4);
    push_hex(&mut r, w3, 8);
    proof {
        reveal_strlit("-");
    }
    r
}

/// An entity as (UUID text, id), when it is a compound with a four-int
/// `UUID`; its id is empty when it has no string `id`.
pub open spec fn entity_key(e: Nbt) -> Option<(Seq<char>, Seq<char>)> {
    match e {
        Nbt::Compound(es) => match lookup(es@, "UUID"@) {
            Some(Nbt::IntArray(a)) => if a@.len() == 4 {
                Some(
                    (
                        uuid_text(a@),
                        match as_string(lookup(es@, "id"@)) {
                            Some(id) => id,
                            None => Seq::empty(),
                        },
                    ),
                )
            } else {
                None
            },
            _ => None,
        },
        _ => None,
    }
}

/// The keys of the entities that have one, in order.
pub open spec fn entity_keys(ents: Seq<Nbt>) -> Seq<(Seq<char>, Seq<char>)>
    decreases ents.len(),
{
    if ents.len() == 0 {
        Seq::empty()
    } else {
        let prev = entity_keys(ents.drop_last());
        match entity_key(ents.last()) {
            Some(k) => prev.push(k),
            None => prev,
        }
    }
}

/// The entity keys of a parsed `entities/` chunk (none without an
/// `Entities` list), or `None` when the root is not a compound.
pub open spec fn chunk_entity_keys(root: Nbt) -> Option<Seq<(Seq<char>, Seq<char>)>> {
    match root_entries(root) {
        None => None,
        Some(es) => match as_list(lookup(es, "Entities"@)) {
            Some(ents) => Some(entity_keys(ents)),
            None => Some(Seq::empty()),
        },
    }
}

/// Whether some key in `ks` has UUID `u`.
pub open spec fn has_uuid(ks: Seq<(Seq<char>, Seq<char>)>, u: Seq<char>) -> bool {
    exists|i: int| 0 <= i < ks.len() && ks[i].0 == u
}

/// The keys of `a` whose UUID `b` lacks, in order, each marked with `p`.
pub open spec fn missing_from(
    a: Seq<(Seq<char>, Seq<char>)>,
    b: Seq<(Seq<char>, Seq<char>)>,
    p: Presence,
) -> Seq<(Seq<char>, Seq<char>, Presence)>
    decreases a.len(),
{
    if a.len() == 0 {
        Seq::empty()
    } else {
        let prev = missing_from(a.drop_last(), b, p);
        if has_uuid(b, a.last().0) {
            prev
        } else {
            prev.push((a.last().1, a.last().0, p))
        }
    }
}

/// The view of an entity difference: (id, UUID, presence).
pub open spec fn entity_diff_view(d: EntityDiff) -> (Seq<char>, Seq<char>, Presence) {
    (d.id@, d.uuid@, d.presence)
}

/// The (UUID, id) keys of an `Entities` list.
fn entity_key_list(ents: &Vec<Nbt>) -> (r: Vec<(Vec<char>, String)>)
    ensures
        r@.map_values(|k: (Vec<char>, String)| (k.0@, k.1@)) == entity_keys(ents@),
{
    let mut r: Vec<(Vec<char>, String)> = Vec::new();
    let mut i: usize = 0;
    while i < ents.len()
        invariant
            i <= ents.len(),
            r@.map_values(|k: (Vec<char>, String)| (k.0@, k.1@)) == entity_keys(ents@.take(i as int)),
        decreases ents.len() - i,
    {
        proof {
            assert(ents@.take(i + 1).drop_last() == ents@.take(i as int));
            assert(ents@.take(i + 1).last() == ents@[i as int]);
        }
        let ghost before = r@;
        if let Nbt::Compound(es) = &ents[i] {
            if let Some(Nbt::IntArray(a)) = get(es, "UUID") {
                if a.len() == 4 {
                    let u = uuid_text_exec(a);
                    let id = match get(es, "id") {
                        Some(Nbt::String(id)) => id.clone(),
                        _ => String::new(),
                    };
                    r.push((u, id));
                    proof {
                        assert(r@.map_values(|k: (Vec<char>, String)| (k.0@, k.1@)) == before.map_values(
                            |k: (Vec<char>, String)| (k.0@, k.1@),
                        ).push((uuid_text(a@), id@)));
                    }
                }
            }
        }
        i = i + 1;
    }
    assert(ents@.take(ents.len() as int) == ents@);
    r
}

/// Whether some key in `ks` has UUID `u`.
fn find_uuid(ks: &Vec<(Vec<char>, String)>, u: &Vec<char>) -> (r: bool)
    ensures
        r == has_uuid(ks@.map_values(|k: (Vec<char>, String)| (k.0@, k.1@)), u@),
{
    let ghost kv = ks@.map_values(|k: (Vec<char>, String)| (k.0@, k.1@));
    let mut i: usize = 0;
    while i < ks.len()
        invariant
            i <= ks.len(),
            kv == ks@.map_values(|k: (Vec<char>, String)| (k.0@, k.1@)),
            forall|j: int| 0 <= j < i ==> kv[j].0 != u@,
        decreases ks.len() - i,
    {
        if crate::text::chars_equal(ks[i].0.as_slice(), u.as_slice()) {
            assert(kv[i as int].0 == u@);
            return true;
        }
        i = i + 1;
    }
    false
}

/// Appends, in order, the keys of `a` whose UUID `b` lacks, marked `p`.
fn push_missing(
    out: &mut Vec<EntityDiff>,
    a: &Vec<(Vec<char>, String)>,
    b: &Vec<(Vec<char>, String)>,
    p: Presence,
)
    ensures
        final(out)@.map_values(|d: EntityDiff| entity_diff_view(d)) == old(out)@.map_values(
            |d: EntityDiff| entity_diff_view(d),
        ) + missing_from(
            a@.map_values(|k: (Vec<char>, String)| (k.0@, k.1@)),
            b@.map_values(|k: (Vec<char>, String)| (k.0@, k.1@)),
            p,
        ),
{
    let ghost av = a@.map_values(|k: (Vec<char>, String)| (k.0@, k.1@));
    let ghost bv = b@.map_values(|k: (Vec<char>, String)| (k.0@, k.1@));
    let ghost base = old(out)@.map_values(|d: EntityDiff| entity_diff_view(d));
    let mut i: usize = 0;
    while i < a.len()
        invariant
            i <= a.len(),
            av == a@.map_values(|k: (Vec<char>, String)| (k.0@, k.1@)),
            bv == b@.map_values(|k: (Vec<char>, String)| (k.0@, k.1@)),
            out@.map_values(|d: EntityDiff| entity_diff_view(d)) == base + missing_from(
                av.take(i as int),
                bv,
                p,
            ),
        decreases a.len() - i,
    {
        proof {
            assert(av.take(i + 1).drop_last() == av.take(i as int));
            assert(av.take(i + 1).last() == av[i as int]);
        }
        let ghost before = out@;
        if !find_uuid(b, &a[i].0) {
            let d = EntityDiff { id: a[i].1.clone(), uuid: string_of(a[i].0.as_slice()), presence: p };
            out.push(d);
            proof {
                assert(out@.map_values(|d: EntityDiff| entity_diff_view(d)) == before.map_values(
                    |d: EntityDiff| entity_diff_view(d),
                ).push(entity_diff_view(d)));
            }
        }
        i = i + 1;
    }
    assert(av.take(a.len() as int) == av);
}

/// The entity keys of a parsed chunk.
fn chunk_entity_key_list(root: &Nbt) -> (r: Result<Vec<(Vec<char>, String)>, WorldError>)
    ensures
        match r {
            Ok(v) => chunk_entity_keys(*root) == Some(
                v@.map_values(|k: (Vec<char>, String)| (k.0@, k.1@)),
            ),
            Err(e) => chunk_entity_keys(*root) is None && e is Shape,
        },
{
    let es = match root {
        Nbt::Compound(es) => es,
        _ => {
            return Err(shape("chunk root is not a compound"));
        },
    };
    match get(es, "Entities") {
        Some(Nbt::List(ents)) => Ok(entity_key_list(ents)),
        _ => {
            let v: Vec<(Vec<char>, String)> = Vec::new();
            assert(v@.map_values(|k: (Vec<char>, String)| (k.0@, k.1@)) == Seq::<
                (Seq<char>, Seq<char>),
            >::empty());
            Ok(v)
        },
    }
}

/// The entities (by UUID) that left or entered a chunk between two
/// parsed versions: first those that left, in `from` order, then those
/// that arrived, in `to` order. Entities without a four-int `UUID` are
/// not compared.
pub fn diff_parsed_chunk_entities(from: &Nbt, to: &Nbt) -> (r: Result<Vec<EntityDiff>, WorldError>)
    ensures
        match r {
            Ok(v) => chunk_entity_keys(*from) matches Some(f) && chunk_entity_keys(*to) matches Some(t)
                && v@.map_values(|d: EntityDiff| entity_diff_view(d)) == missing_from(
                f,
                t,
                Presence::Removed,
            ) + missing_from(t, f, Presence::Added),
            Err(e) => (chunk_entity_keys(*from) is None || chunk_entity_keys(*to) is None) && e is Shape,
        },
{
    let f = match chunk_entity_key_list(from) {
        Ok(v) => v,
        Err(e) => {
            return Err(e);
        },
    };
    let t = match chunk_entity_key_list(to) {
        Ok(v) => v,
        Err(e) => {
            return Err(e);
        },
    };
    let mut out: Vec<EntityDiff> = Vec::new();
    push_missing(&mut out, &f, &t, Presence::Removed);
    push_missing(&mut out, &t, &f, Presence::Added);
    Ok(out)
}

/// The names of `a` that `b` lacks, in order, each marked with `p`.
pub open spec fn names_missing_from(a: Seq<Seq<char>>, b: Seq<Seq<char>>, p: Presence) -> Seq<
    (Seq<char>, Presence),
>
    decreases a.len(),
{
    if a.len() == 0 {
        Seq::empty()
    } else {
        let prev = names_missing_from(a.drop_last(), b, p);
        if b.contains(a.last()) {
            prev
        } else {
            prev.push((a.last(), p))
        }
    }
}

/// The view of a structure difference: (id, presence).
pub open spec fn structure_diff_view(d: StructureDiff) -> (Seq<char>, Presence) {
    (d.id@, d.presence)
}

/// The keys of the structure starts of a parsed chunk.
fn structure_start_list(root: &Nbt) -> (r: Result<Vec<String>, WorldError>)
    ensures
        match r {
            Ok(v) => chunk_structure_starts(*root) == Some(strings_view(v@)),
            Err(e) => chunk_structure_starts(*root) is None && e is Shape,
        },
{
    let es = match root {
        Nbt::Compound(es) => es,
        _ => {
            return Err(shape("chunk root is not a compound"));
        },
    };
    let mut out: Vec<String> = Vec::new();
    if let Some(Nbt::Compound(st)) = get(es, "structures") {
        if let Some(Nbt::Compound(starts)) = get(st, "starts") {
            let mut i: usize = 0;
            while i < starts.len()
                invariant
                    i <= starts.len(),
                    strings_view(out@) == starts@.take(i as int).map_values(|e: NbtEntry| e.key@),
                decreases starts.len() - i,
            {
                let ghost before = out@;
                out.push(starts[i].key.clone());
                proof {
                    assert(strings_view(out@) == strings_view(before).push(starts@[i as int].key@));
                    assert(starts@.take(i + 1).map_values(|e: NbtEntry| e.key@) == starts@.take(
                        i as int,
                    ).map_values(|e: NbtEntry| e.key@).push(starts@[i as int].key@));
                }
                i = i + 1;
            }
            assert(starts@.take(starts.len() as int) == starts@);
            return Ok(out);
        }
    }
    assert(strings_view(out@) == Seq::<Seq<char>>::empty());
    Ok(out)
}

/// Whether `v` holds a string equal to `x`.
fn contains_string(v: &Vec<String>, x: &String) -> (r: bool)
    ensures
        r == strings_view(v@).contains(x@),
{
    let mut i: usize = 0;
    while i < v.len()
        invariant
            i <= v.len(),
            forall|j: int| 0 <= j < i ==> v@[j]@ != x@,
        decreases v.len() - i,
    {
        if str_equals(v[i].as_str(), x.as_str()) {
            assert(strings_view(v@)[i as int] == x@);
            return true;
        }
        i = i + 1;
    }
    proof {
        if strings_view(v@).contains(x@) {
            let j = choose|j: int| 0 <= j < v@.len() && strings_view(v@)[j] == x@;
            assert(v@[j]@ == x@);
        }
    }
    false
}

/// Appends, in order, the names of `a` that `b` lacks, marked `p`.
fn push_missing_names(out: &mut Vec<StructureDiff>, a: &Vec<String>, b: &Vec<String>, p: Presence)
    ensures
        final(out)@.map_values(|d: StructureDiff| structure_diff_view(d)) == old(out)@.map_values(
            |d: StructureDiff| structure_diff_view(d),
        ) + names_missing_from(strings_view(a@), strings_view(b@), p),
{
    let ghost av = strings_view(a@);
    let ghost base = old(out)@.map_values(|d: StructureDiff| structure_diff_view(d));
    let mut i: usize = 0;
    while i < a.len()
        invariant
            i <= a.len(),
            av == strings_view(a@),
            out@.map_values(|d: StructureDiff| structure_diff_view(d)) == base + names_missing_from(
                av.take(i as int),
                strings_view(b@),
                p,
            ),
        decreases a.len() - i,
    {
        proof {
            assert(av.take(i + 1).drop_last() == av.take(i as int));
            assert(av.take(i + 1).last() == av[i as int]);
        }
        let ghost before = out@;
        if !contains_string(b, &a[i]) {
            let d = StructureDiff { id: a[i].clone(), presence: p };
            out.push(d);
            proof {
                assert(out@.map_values(|d: StructureDiff| structure_diff_view(d)) == before.map_values(
                    |d: StructureDiff| structure_diff_view(d),
                ).push(structure_diff_view(d)));
            }
        }
        i = i + 1;
    }
    assert(av.take(a.len() as int) == av);
}

/// The structure types that stopped or started being recorded as starting
/// in a chunk between two parsed versions: first those that stopped, in
/// `from` order, then those that started, in `to` order.
pub fn diff_parsed_chunk_structures(from: &Nbt, to: &Nbt) -> (r: Result<Vec<StructureDiff>, WorldError>)
    ensures
        match r {
            Ok(v) => chunk_structure_starts(*from) matches Some(f) && chunk_structure_starts(*to) matches Some(t)
                && v@.map_values(|d: StructureDiff| structure_diff_view(d)) == names_missing_from(
                f,
                t,
                Presence::Removed,
            ) + names_missing_from(t, f, Presence::Added),
            Err(e) => (chunk_structure_starts(*from) is None || chunk_structure_starts(*to) is None)
                && e is Shape,
        },
{
    let f = match structure_start_list(from) {
        Ok(v) => v,
        Err(e) => {
            return Err(e);
        },
    };
    let t = match structure_start_list(to) {
        Ok(v) => v,
        Err(e) => {
            return Err(e);
        },
    };
    let mut out: Vec<StructureDiff> = Vec::new();
    push_missing_names(&mut out, &f, &t, Presence::Removed);
    push_missing_names(&mut out, &t, &f, Presence::Added);
    Ok(out)
}

/// The entities (by UUID) that left or entered a chunk between two
/// versions (raw NBT of an `entities/` chunk): first those that left,
/// then those that arrived.
pub fn diff_chunk_entities(from_nbt: &[u8], to_nbt: &[u8]) -> (r: Result<Vec<EntityDiff>, WorldError>)
    ensures
        !nbt_accepts(from_nbt@) ==> r matches Err(WorldError::Nbt(_)),
        r matches Err(WorldError::Nbt(_)) ==> !nbt_accepts(from_nbt@) || !nbt_accepts(to_nbt@),
        nbt_accepts(from_nbt@) && !nbt_accepts(to_nbt@) ==> r is Err,
        r matches Ok(v) ==> entities_diff_of(
            from_nbt@,
            to_nbt@,
            v@.map_values(|d: EntityDiff| entity_diff_view(d)),
        ),
        r matches Err(WorldError::Shape(_)) ==> entities_undecodable(from_nbt@, to_nbt@),
        r matches Err(e) ==> e is Nbt || e is Shape,
{
    let from = match parse_chunk(from_nbt) {
        Ok(v) => v,
        Err(e) => {
            return Err(e);
        },
    };
    let f = match chunk_entity_key_list(&from) {
        Ok(v) => v,
        Err(e) => {
            return Err(e);
        },
    };
    let to = match parse_chunk(to_nbt) {
        Ok(v) => v,
        Err(e) => {
            return Err(e);
        },
    };
    let t = match chunk_entity_key_list(&to) {
        Ok(v) => v,
        Err(e) => {
            return Err(e);
        },
    };
    let mut out: Vec<EntityDiff> = Vec::new();
    push_missing(&mut out, &f, &t, Presence::Removed);
    push_missing(&mut out, &t, &f, Presence::Added);
    assert(chunk_entity_keys(from) matches Some(fk) && chunk_entity_keys(to) matches Some(tk));
    Ok(out)
}

/// The structure types that stopped or started being recorded as starting
/// in a chunk between two versions (raw NBT of a `region/` chunk): first
/// those that stopped, then those that started.
pub fn diff_chunk_structures(from_nbt: &[u8], to_nbt: &[u8]) -> (r: Result<Vec<StructureDiff>, WorldError>)
    ensures
        !nbt_accepts(from_nbt@) ==> r matches Err(WorldError::Nbt(_)),
        r matches Err(WorldError::Nbt(_)) ==> !nbt_accepts(from_nbt@) || !nbt_accepts(to_nbt@),
        nbt_accepts(from_nbt@) && !nbt_accepts(to_nbt@) ==> r is Err,
        r matches Ok(v) ==> structures_diff_of(
            from_nbt@,
            to_nbt@,
            v@.map_values(|d: StructureDiff| structure_diff_view(d)),
        ),
        r matches Err(WorldError::Shape(_)) ==> structures_undecodable(from_nbt@, to_nbt@),
        r matches Err(e) ==> e is Nbt || e is Shape,
{
    let from = match parse_chunk(from_nbt) {
        Ok(v) => v,
        Err(e) => {
            return Err(e);
        },
    };
    let f = match structure_start_list(&from) {
        Ok(v) => v,
        Err(e) => {
            return Err(e);
        },
    };
    let to = match parse_chunk(to_nbt) {
        Ok(v) => v,
        Err(e) => {
            return Err(e);
        },
    };
    let t = match structure_start_list(&to) {
        Ok(v) => v,
        Err(e) => {
            return Err(e);
        },
    };
    let mut out: Vec<StructureDiff> = Vec::new();
    push_missing_names(&mut out, &f, &t, Presence::Removed);
    push_missing_names(&mut out, &t, &f, Presence::Added);
    assert(chunk_structure_starts(from) matches Some(fk) && chunk_structure_starts(to) matches Some(tk));
    Ok(out)
}

// ---------------------------------------------------------------------------
// Rewriting one packed index
// ---------------------------------------------------------------------------

proof fn lemma_field_write_same(x: u64, t: u64, m: u64, b: u64, sh: u64)
    by (bit_vector)
    requires
        1 <= b < 64,
        m == (1u64 << b) - 1,
        sh + b <= 64,
        t <= m,
    ensures
        (((x & !(m << sh)) | (t << sh)) >> sh) & m == t,
{
}

proof fn lemma_field_write_other(x: u64, t: u64, m: u64, b: u64, s1: u64, s2: u64)
    by (bit_vector)
    requires
        1 <= b < 64,
        m == (1u64 << b) - 1,
        s1 + b <= 64,
        s2 + b <= 64,
        s1 + b <= s2 || s2 + b <= s1,
        t <= m,
    ensures
        (((x & !(m << s1)) | (t << s1)) >> s2) & m == (x >> s2) & m,
{
}

proof fn lemma_field_write_whole(x: u64, t: u64)
    by (bit_vector)
    ensures
        (((x & !(0xffff_ffff_ffff_ffffu64 << 0u64)) | (t << 0u64)) >> 0u64) & 0xffff_ffff_ffff_ffffu64
            == t,
{
}

/// Rewrites the packed index at position `local_index` of a section's
/// `data` (palette of `palette_len` entries) to `target`, returning the
/// index it held. Every other packed index keeps its value.
pub fn set_packed_index(data: &mut Vec<i64>, palette_len: usize, local_index: usize, target: usize) -> (before:
    u64)
    requires
        target < palette_len,
        local_index / (64usize / bits_per_block(palette_len as nat) as usize) < old(data).len(),
    ensures
        final(data).len() == old(data).len(),
        final(data)@ == packed_write(old(data)@, bits_per_block(palette_len as nat), local_index as int, target as u64),
        before as int == packed_entry(old(data)@, bits_per_block(palette_len as nat), local_index as int),
        packed_entry(final(data)@, bits_per_block(palette_len as nat), local_index as int) == target,
        forall|j: int|
            0 <= j < final(data).len() * (64nat / bits_per_block(palette_len as nat)) && j != local_index
                ==> #[trigger] packed_entry(final(data)@, bits_per_block(palette_len as nat), j)
                == packed_entry(old(data)@, bits_per_block(palette_len as nat), j),
{
    let (bits, per_long, mask) = packing(palette_len);
    let li = local_index / per_long;
    let i = local_index % per_long;
    proof {
        assert(i * bits + bits <= 64) by (nonlinear_arith)
            requires
                i < per_long,
                per_long == 64usize / bits,
                4 <= bits <= 64,
        ;
    }
    let sh: u64 = (i * bits) as u64;
    let ghost old_data = data@;
    let x = data[li] as u64;
    let before = (x >> sh) & mask;
    let t = target as u64;
    proof {
        // `target` fits the field: a palette of `n` entries has indices below 2^bits.
        lemma_target_fits(palette_len, target, bits, mask);
    }
    let new_long = ((x & !(mask << sh)) | (t << sh)) as i64;
    data.set(li, new_long);
    proof {
        let bn = bits as nat;
        let pl = 64nat / bn;
        assert(pl == per_long as nat);
        let y = (x & !(mask << sh)) | (t << sh);
        assert(((y as i64) as u64) == y) by (bit_vector);
        assert(li as int == local_index as int / (pl as int));
        assert(sh == (((local_index as int % (pl as int)) * bn) as u64));
        assert(data@ == packed_write(old_data, bn, local_index as int, target as u64));
        assert(data@[li as int] as u64 == y);
        if bits < 64 {
            let bb = bits as u64;
            assert((1u64 << bb) >= 1) by (bit_vector)
                requires
                    bb < 64,
            ;
            assert(mask == (1u64 << bb) - 1);
            lemma_field_write_same(x, t, mask, bits as u64, sh);
        } else {
            assert(sh == 0);
            lemma_field_write_whole(x, t);
        }
        assert forall|j: int|
            0 <= j < data.len() * (64nat / bn) && j != local_index implies #[trigger] packed_entry(
            data@,
            bn,
            j,
        ) == packed_entry(old_data, bn, j) by {
            let lj = j / (per_long as int);
            let ij = j % (per_long as int);
            assert(0 <= lj < data.len()) by (nonlinear_arith)
                requires
                    0 <= j < data.len() * per_long,
                    lj == j / (per_long as int),
                    per_long >= 1,
            ;
            if lj != li {
                assert(data@[lj] == old_data[lj]);
            } else if bits == 64 {
                assert(per_long == 1) by (nonlinear_arith)
                    requires
                        per_long == 64usize / bits,
                        bits == 64,
                ;
                assert(ij == 0 && i == 0) by (nonlinear_arith)
                    requires
                        ij == j % (per_long as int),
                        i == local_index % per_long,
                        per_long == 1,
                ;
                assert(j == local_index) by (nonlinear_arith)
                    requires
                        lj == j / (per_long as int),
                        li == local_index / per_long,
                        lj == li,
                        per_long == 1,
                ;
            } else {
                let bb = bits as u64;
                assert((1u64 << bb) >= 1) by (bit_vector)
                    requires
                        bb < 64,
                ;
                assert(mask == (1u64 << bb) - 1);
                assert(ij != i) by {
                    vstd::arithmetic::div_mod::lemma_fundamental_div_mod(j, per_long as int);
                    vstd::arithmetic::div_mod::lemma_fundamental_div_mod(local_index as int, per_long as int);
                }
                let s2: u64 = (ij * (bits as int)) as u64;
                assert(ij * bits + bits <= 64) by (nonlinear_arith)
                    requires
                        0 <= ij < per_long,
                        per_long == 64usize / bits,
                        4 <= bits <= 64,
                ;
                assert(sh + bits <= s2 || s2 + bits <= sh) by (nonlinear_arith)
                    requires
                        sh == i * bits,
                        s2 == ij * bits,
                        ij != i,
                        bits >= 1,
                ;
                lemma_field_write_other(x, t, mask, bits as u64, sh, s2);
            }
        }
    }
    before
}

/// A palette index below `n` fits in the field width chosen for `n`.
proof fn lemma_target_fits(n: usize, target: usize, bits: usize, mask: u64)
    requires
        target < n,
        bits == bits_per_block(n as nat),
        4 <= bits <= 64,
        mask == low_mask(bits as nat),
    ensures
        target as u64 <= mask,
{
    lemma_pow2_mask(bits as nat);
    if n > 1 {
        lemma_bits_cover((n - 1) as nat);
        lemma_pow2_mono(bit_len((n - 1) as nat), bits as nat);
    }
}

proof fn lemma_pow2_mono(a: nat, b: nat)
    requires
        a <= b,
    ensures
        pow2(a) <= pow2(b),
    decreases b,
{
    if a < b {
        lemma_pow2_mono(a, (b - 1) as nat);
    }
}

/// `x < 2^bit_len(x)`.
proof fn lemma_bits_cover(x: nat)
    ensures
        x < pow2(bit_len(x)),
    decreases x,
{
    if x > 0 {
        lemma_bits_cover(x / 2);
    }
}

/// The mask of `bits` bits is `2^bits - 1`.
proof fn lemma_pow2_mask(bits: nat)
    requires
        4 <= bits <= 64,
    ensures
        low_mask(bits) as int == pow2(bits) - 1,
{
    lemma_shift_pow2(bits);
    if bits < 64 {
        let bb = bits as u64;
        assert((1u64 << bb) >= 1) by (bit_vector)
            requires
                bb < 64,
        ;
    }
}

proof fn lemma_shift_pow2(bits: nat)
    requires
        bits <= 64,
    ensures
        bits < 64 ==> (1u64 << (bits as u64)) as int == pow2(bits),
        bits == 64 ==> pow2(bits) == 0x1_0000_0000_0000_0000,
{
    if bits < 64 {
        lemma_shl_pow2(bits as u64);
    } else {
        lemma_shl_pow2(63);
        assert(1u64 << 63u64 == 0x8000_0000_0000_0000u64) by (bit_vector);
        assert(pow2(64) == 2 * pow2(63));
    }
}

proof fn lemma_shl_pow2(b: u64)
    requires
        b < 64,
    ensures
        (1u64 << b) as int == pow2(b as nat),
    decreases b,
{
    if b == 0 {
        assert(1u64 << 0u64 == 1u64) by (bit_vector);
    } else {
        lemma_shl_pow2((b - 1) as u64);
        let c = (b - 1) as u64;
        assert(1u64 << b == 2 * (1u64 << c)) by (bit_vector)
            requires
                c < 63,
                b == c + 1,
        ;
    }
}

} // verus!
