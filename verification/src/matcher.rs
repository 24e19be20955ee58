//! Pairing the blocks of two documents by what they describe.
//!
//! A block of the earlier document is paired with the block of the later
//! document that has the same descriptor and stands at the same place among
//! the blocks with that descriptor: the first with the first, the second with
//! the second. Blocks of the later document that are left over take no part.

use std::collections::HashMap;
use vstd::prelude::*;
use crate::block::block_views;
use crate::block::Block;
use crate::block::BlockView;
use crate::block::DescriptorView;
use crate::error::Error;

verus! {

/// The descriptors of a sequence of blocks.
pub open spec fn descriptors(blocks: Seq<BlockView>) -> Seq<DescriptorView> {
    blocks.map_values(|b: BlockView| b.descriptor)
}

/// How often `d` occurs in `s`.
pub open spec fn occurrences(s: Seq<DescriptorView>, d: DescriptorView) -> nat
    decreases s.len(),
{
    if s.len() == 0 {
        0
    } else {
        occurrences(s.drop_last(), d) + if s.last() == d {
            1nat
        } else {
            0nat
        }
    }
}

/// How many blocks before block `i` have the descriptor of block `i`.
pub open spec fn rank(blocks: Seq<BlockView>, i: int) -> nat {
    occurrences(descriptors(blocks).take(i), blocks[i].descriptor)
}

/// Block `j` of `modified` is the partner of block `i` of `original`: both
/// have the same descriptor, and as many blocks with that descriptor precede
/// the one as the other.
pub open spec fn pairs_with(
    original: Seq<BlockView>,
    modified: Seq<BlockView>,
    i: int,
    j: int,
) -> bool {
    &&& 0 <= i < original.len()
    &&& 0 <= j < modified.len()
    &&& modified[j].descriptor == original[i].descriptor
    &&& rank(modified, j) == rank(original, i)
}

/// Block `i` of `original` has a partner in `modified`.
pub open spec fn has_partner(original: Seq<BlockView>, modified: Seq<BlockView>, i: int) -> bool {
    exists|j: int| pairs_with(original, modified, i, j)
}

/// The index in `modified` of the partner of block `i` of `original`.
pub open spec fn partner(original: Seq<BlockView>, modified: Seq<BlockView>, i: int) -> int {
    choose|j: int| pairs_with(original, modified, i, j)
}

/// The identifier of the partner of block `i` of `original`.
pub open spec fn partner_id(original: Seq<BlockView>, modified: Seq<BlockView>, i: int) -> u64 {
    modified[partner(original, modified, i)].id
}

/// Blocks `k` and `i` of `original` cannot both get a mapping: they have the
/// same identifier, or their partners have.
pub open spec fn clash_between(
    original: Seq<BlockView>,
    modified: Seq<BlockView>,
    k: int,
    i: int,
) -> bool {
    ||| original[k].id == original[i].id
    ||| partner_id(original, modified, k) == partner_id(original, modified, i)
}

/// Block `i` of `original` cannot get a mapping of its own: it clashes with
/// a block before it.
pub open spec fn clashes(original: Seq<BlockView>, modified: Seq<BlockView>, i: int) -> bool {
    exists|k: int| 0 <= k < i && #[trigger] clash_between(original, modified, k, i)
}

/// Each of the first `n` blocks of `original` has a partner and does not
/// clash with a block before it.
pub open spec fn all_paired(original: Seq<BlockView>, modified: Seq<BlockView>, n: int) -> bool {
    forall|i: int|
        0 <= i < n ==> #[trigger] has_partner(original, modified, i) && !clashes(
            original,
            modified,
            i,
        )
}

/// The identifier mapping that the first `n` pairs give: from the identifier
/// of each partner to the identifier of the block of `original`.
pub open spec fn id_mapping(original: Seq<BlockView>, modified: Seq<BlockView>, n: int) -> Map<
    u64,
    u64,
>
    decreases n,
{
    if n <= 0 {
        Map::empty()
    } else {
        id_mapping(original, modified, n - 1).insert(
            partner_id(original, modified, n - 1),
            original[n - 1].id,
        )
    }
}

/// Counting one element further adds one where that element is `d`.
pub proof fn lemma_occurrences_step(s: Seq<DescriptorView>, d: DescriptorView, k: int)
    requires
        0 <= k < s.len(),
    ensures
        occurrences(s.take(k + 1), d) == occurrences(s.take(k), d) + if s[k] == d {
            1nat
        } else {
            0nat
        },
{
    assert(s.take(k + 1).drop_last() =~= s.take(k));
}

/// A longer prefix holds `d` at least as often as a shorter one.
pub proof fn lemma_occurrences_grow(s: Seq<DescriptorView>, d: DescriptorView, a: int, b: int)
    requires
        0 <= a <= b <= s.len(),
    ensures
        occurrences(s.take(a), d) <= occurrences(s.take(b), d),
    decreases b - a,
{
    if a < b {
        lemma_occurrences_grow(s, d, a, b - 1);
        lemma_occurrences_step(s, d, b - 1);
    }
}

/// A block has at most one partner.
pub proof fn lemma_partner_unique(
    original: Seq<BlockView>,
    modified: Seq<BlockView>,
    i: int,
    j1: int,
    j2: int,
)
    requires
        pairs_with(original, modified, i, j1),
        pairs_with(original, modified, i, j2),
    ensures
        j1 == j2,
{
    let s = descriptors(modified);
    let d = original[i].descriptor;
    if j1 < j2 {
        lemma_occurrences_step(s, d, j1);
        lemma_occurrences_grow(s, d, j1 + 1, j2);
    } else if j2 < j1 {
        lemma_occurrences_step(s, d, j2);
        lemma_occurrences_grow(s, d, j2 + 1, j1);
    }
}

/// The partner of a block is the one index that pairs with it.
pub proof fn lemma_partner_is(
    original: Seq<BlockView>,
    modified: Seq<BlockView>,
    i: int,
    j: int,
)
    requires
        pairs_with(original, modified, i, j),
    ensures
        has_partner(original, modified, i),
        partner(original, modified, i) == j,
{
    lemma_partner_unique(original, modified, i, j, partner(original, modified, i));
}

/// Where the first `n` blocks are paired, the mapping takes the identifier of
/// each partner to the identifier of its block, and holds no other key.
pub proof fn lemma_mapping_entries(original: Seq<BlockView>, modified: Seq<BlockView>, n: int)
    requires
        0 <= n <= original.len(),
        all_paired(original, modified, n),
    ensures
        forall|i: int|
            0 <= i < n ==> {
                &&& id_mapping(original, modified, n).contains_key(
                    #[trigger] partner_id(original, modified, i),
                )
                &&& id_mapping(original, modified, n)[partner_id(original, modified, i)]
                    == original[i].id
            },
        forall|key: u64| #[trigger]
            id_mapping(original, modified, n).contains_key(key) ==> exists|i: int|
                0 <= i < n && key == #[trigger] partner_id(original, modified, i),
    decreases n,
{
    if n > 0 {
        lemma_mapping_entries(original, modified, n - 1);
        let before = id_mapping(original, modified, n - 1);
        let last = partner_id(original, modified, n - 1);
        assert(has_partner(original, modified, n - 1));
        assert forall|i: int| 0 <= i < n implies {
            &&& id_mapping(original, modified, n).contains_key(
                #[trigger] partner_id(original, modified, i),
            )
            &&& id_mapping(original, modified, n)[partner_id(original, modified, i)]
                == original[i].id
        } by {
            if i < n - 1 {
                assert(!clash_between(original, modified, i, n - 1));
                assert(before.contains_key(partner_id(original, modified, i)));
            }
        }
        assert forall|key: u64| #[trigger]
            id_mapping(original, modified, n).contains_key(key) implies exists|i: int|
            0 <= i < n && key == #[trigger] partner_id(original, modified, i) by {
            if key == last {
                assert(key == partner_id(original, modified, n - 1));
            } else {
                assert(before.contains_key(key));
                let i = choose|i: int|
                    0 <= i < n - 1 && key == #[trigger] partner_id(original, modified, i);
                assert(0 <= i < n && key == partner_id(original, modified, i));
            }
        }
    }
}

fn count_before(blocks: &Vec<Block>, i: usize) -> (r: usize)
    requires
        i < blocks.len(),
    ensures
        r == rank(block_views(blocks@), i as int),
{
    let ghost s = descriptors(block_views(blocks@));
    let ghost d = blocks[i as int]@.descriptor;
    let mut r: usize = 0;
    let mut k: usize = 0;
    while k < i
        invariant
            k <= i < blocks.len(),
            r <= k,
            s == descriptors(block_views(blocks@)),
            d == blocks[i as int]@.descriptor,
            r == occurrences(s.take(k as int), d),
        decreases i - k,
    {
        proof {
            lemma_occurrences_step(s, d, k as int);
        }
        if blocks[k].descriptor.same_as(&blocks[i].descriptor) {
            r += 1;
        }
        k += 1;
    }
    r
}

fn find_partner(original: &Vec<Block>, modified: &Vec<Block>, i: usize) -> (r: Option<usize>)
    requires
        i < original.len(),
    ensures
        match r {
            Some(j) => pairs_with(
                block_views(original@),
                block_views(modified@),
                i as int,
                j as int,
            ),
            None => !has_partner(block_views(original@), block_views(modified@), i as int),
        },
{
    let wanted = count_before(original, i);
    let ghost o = block_views(original@);
    let ghost m = block_views(modified@);
    let ghost s = descriptors(m);
    let ghost d = o[i as int].descriptor;
    let mut seen: usize = 0;
    let mut j: usize = 0;
    while j < modified.len()
        invariant
            j <= modified.len(),
            i < original.len(),
            o == block_views(original@),
            m == block_views(modified@),
            s == descriptors(m),
            d == o[i as int].descriptor,
            wanted == rank(o, i as int),
            seen <= j,
            seen == occurrences(s.take(j as int), d),
            forall|q: int| 0 <= q < j ==> !pairs_with(o, m, i as int, q),
        decreases modified.len() - j,
    {
        proof {
            lemma_occurrences_step(s, d, j as int);
        }
        if modified[j].descriptor.same_as(&original[i].descriptor) {
            if seen == wanted {
                return Some(j);
            }
            seen += 1;
        }
        j += 1;
    }
    None
}

fn clashes_with_earlier(
    original: &Vec<Block>,
    modified: &Vec<Block>,
    picks: &Vec<usize>,
    i: usize,
    j: usize,
) -> (r: bool)
    requires
        i < original.len(),
        j < modified.len(),
        picks.len() == i,
        has_partner(block_views(original@), block_views(modified@), i as int),
        partner(block_views(original@), block_views(modified@), i as int) == j,
        forall|q: int|
            0 <= q < i ==> (#[trigger] picks@[q]) < modified.len() && picks@[q] == partner(
                block_views(original@),
                block_views(modified@),
                q,
            ),
    ensures
        r == clashes(block_views(original@), block_views(modified@), i as int),
{
    let ghost o = block_views(original@);
    let ghost m = block_views(modified@);
    let mut k: usize = 0;
    while k < i
        invariant
            k <= i < original.len(),
            j < modified.len(),
            picks.len() == i,
            o == block_views(original@),
            m == block_views(modified@),
            partner(o, m, i as int) == j,
            forall|q: int|
                0 <= q < i ==> (#[trigger] picks@[q]) < modified.len() && picks@[q] == partner(
                    o,
                    m,
                    q,
                ),
            forall|q: int| 0 <= q < k ==> !#[trigger] clash_between(o, m, q, i as int),
        decreases i - k,
    {
        if original[k].id == original[i].id || modified[picks[k]].id == modified[j].id {
            assert(clash_between(o, m, k as int, i as int));
            return true;
        }
        k += 1;
    }
    false
}

/// Pairs each block of `original` with its partner among `modified` and
/// builds the identifier mapping.
///
/// On success returns, in the order of `original`, a copy of each block's
/// partner, and the mapping from the identifier of each partner to the
/// identifier of the block of `original`; no two keys of it are mapped to the
/// same identifier. Fails at the first block, in order, that has no partner
/// (`UnmatchedDescriptor`) or that cannot get a mapping of its own
/// (`DuplicateTargetId`), with the position of that block.
pub fn match_blocks(original: &Vec<Block>, modified: &Vec<Block>) -> (r: Result<
    (Vec<Block>, HashMap<u64, u64>),
    Error,
>)
    ensures
        match r {
            Ok(found) => {
                let o = block_views(original@);
                let m = block_views(modified@);
                &&& all_paired(o, m, o.len() as int)
                &&& found.0@.len() == o.len()
                &&& forall|i: int|
                    0 <= i < o.len() ==> (#[trigger] found.0@[i])@ == m[partner(o, m, i)]
                &&& forall|i: int|
                    0 <= i < o.len() ==> (#[trigger] found.0@[i])@.descriptor == o[i].descriptor
                &&& found.1@ == id_mapping(o, m, o.len() as int)
                &&& found.1@.is_injective()
            },
            Err(Error::UnmatchedDescriptor(i)) => {
                let o = block_views(original@);
                let m = block_views(modified@);
                &&& i < o.len()
                &&& all_paired(o, m, i as int)
                &&& !has_partner(o, m, i as int)
            },
            Err(Error::DuplicateTargetId(i)) => {
                let o = block_views(original@);
                let m = block_views(modified@);
                &&& i < o.len()
                &&& all_paired(o, m, i as int)
                &&& has_partner(o, m, i as int)
                &&& clashes(o, m, i as int)
            },
            Err(_) => false,
        },
{
    let ghost o = block_views(original@);
    let ghost m = block_views(modified@);
    let mut blocks: Vec<Block> = Vec::new();
    let mut mapping: HashMap<u64, u64> = HashMap::new();
    let mut picks: Vec<usize> = Vec::new();
    let mut i: usize = 0;
    while i < original.len()
        invariant
            i <= original.len(),
            o == block_views(original@),
            m == block_views(modified@),
            all_paired(o, m, i as int),
            blocks@.len() == i,
            picks@.len() == i,
            forall|k: int|
                0 <= k < i ==> (#[trigger] picks@[k]) < modified.len() && picks@[k] == partner(
                    o,
                    m,
                    k,
                ),
            forall|k: int| 0 <= k < i ==> (#[trigger] blocks@[k])@ == m[partner(o, m, k)],
            mapping@ == id_mapping(o, m, i as int),
        decreases original.len() - i,
    {
        let j = match find_partner(original, modified, i) {
            Some(j) => j,
            None => {
                return Err(Error::UnmatchedDescriptor(i));
            },
        };
        proof {
            lemma_partner_is(o, m, i as int, j as int);
        }
        if clashes_with_earlier(original, modified, &picks, i, j) {
            return Err(Error::DuplicateTargetId(i));
        }
        blocks.push(modified[j].clone());
        mapping.insert(modified[j].id, original[i].id);
        picks.push(j);
        assert(all_paired(o, m, i + 1));
        i += 1;
    }
    proof {
        lemma_mapping_is_one_to_one(o, m, o.len() as int);
        assert forall|k: int| 0 <= k < o.len() implies (#[trigger] blocks@[k])@.descriptor
            == o[k].descriptor by {
            assert(has_partner(o, m, k));
            assert(pairs_with(o, m, k, partner(o, m, k)));
        }
    }
    Ok((blocks, mapping))
}

/// No two blocks have the same identifier.
pub open spec fn distinct_ids(blocks: Seq<BlockView>) -> bool {
    forall|a: int, b: int|
        0 <= a < b < blocks.len() ==> (#[trigger] blocks[a]).id != (#[trigger] blocks[b]).id
}

/// The identifiers of the blocks.
pub open spec fn ids(blocks: Seq<BlockView>) -> Set<u64> {
    Set::new(|id: u64| exists|i: int| 0 <= i < blocks.len() && (#[trigger] blocks[i]).id == id)
}

/// `occurrences` counts as the multiset of the sequence does.
pub proof fn lemma_occurrences_is_count(s: Seq<DescriptorView>, d: DescriptorView)
    ensures
        occurrences(s, d) == s.to_multiset().count(d),
    decreases s.len(),
{
    if s.len() == 0 {
        s.to_multiset_ensures();
    } else {
        let t = s.drop_last();
        lemma_occurrences_is_count(t, d);
        t.to_multiset_ensures();
        assert(t.push(s.last()) =~= s);
    }
}

/// Where `d` occurs more than `r` times, one of its occurrences has exactly
/// `r` others before it.
pub proof fn lemma_occurrence_exists(s: Seq<DescriptorView>, d: DescriptorView, r: nat)
    requires
        r < occurrences(s, d),
    ensures
        exists|j: int| 0 <= j < s.len() && s[j] == d && #[trigger] occurrences(s.take(j), d) == r,
    decreases s.len(),
{
    let t = s.drop_last();
    if s.last() != d || occurrences(t, d) != r {
        lemma_occurrence_exists(t, d, r);
        let j = choose|j: int|
            0 <= j < t.len() && t[j] == d && #[trigger] occurrences(t.take(j), d) == r;
        assert(t.take(j) =~= s.take(j));
    }
}

/// No block is the partner of two blocks.
pub proof fn lemma_partner_injective(
    original: Seq<BlockView>,
    modified: Seq<BlockView>,
    i1: int,
    i2: int,
)
    requires
        has_partner(original, modified, i1),
        has_partner(original, modified, i2),
        partner(original, modified, i1) == partner(original, modified, i2),
    ensures
        i1 == i2,
{
    let j = partner(original, modified, i1);
    lemma_partner_unique(modified, original, j, i1, i2);
}

/// Where every descriptor occurs in `modified` at least as often as in
/// `original`, every block of `original` has a partner.
pub proof fn lemma_enough_descriptors(original: Seq<BlockView>, modified: Seq<BlockView>)
    requires
        forall|d: DescriptorView|
            descriptors(original).to_multiset().count(d) <= descriptors(
                modified,
            ).to_multiset().count(d),
    ensures
        forall|i: int| 0 <= i < original.len() ==> has_partner(original, modified, i),
{
    let so = descriptors(original);
    let sm = descriptors(modified);
    assert forall|i: int| 0 <= i < original.len() implies has_partner(original, modified, i) by {
        let d = original[i].descriptor;
        let r = rank(original, i);
        lemma_occurrences_step(so, d, i);
        lemma_occurrences_grow(so, d, i + 1, so.len() as int);
        assert(so.take(so.len() as int) =~= so);
        lemma_occurrences_is_count(so, d);
        lemma_occurrences_is_count(sm, d);
        lemma_occurrence_exists(sm, d, r);
        let j = choose|j: int|
            0 <= j < sm.len() && sm[j] == d && #[trigger] occurrences(sm.take(j), d) == r;
        assert(pairs_with(original, modified, i, j));
    }
}

/// Where the first `n` blocks are paired, the identifier mapping is one to
/// one: no two keys are mapped to the same identifier. Its keys are the
/// identifiers of the partners, its values those of the first `n` blocks.
pub proof fn lemma_mapping_is_one_to_one(
    original: Seq<BlockView>,
    modified: Seq<BlockView>,
    n: int,
)
    requires
        0 <= n <= original.len(),
        all_paired(original, modified, n),
    ensures
        id_mapping(original, modified, n).is_injective(),
        id_mapping(original, modified, n).dom() == Set::new(
            |id: u64|
                exists|i: int| 0 <= i < n && id == #[trigger] partner_id(original, modified, i),
        ),
        id_mapping(original, modified, n).values() == ids(original.take(n)),
{
    let mapping = id_mapping(original, modified, n);
    lemma_mapping_entries(original, modified, n);
    assert forall|x: u64, y: u64|
        x != y && mapping.dom().contains(x) && mapping.dom().contains(
            y,
        ) implies #[trigger] mapping[x] != #[trigger] mapping[y] by {
        let i = choose|i: int| 0 <= i < n && x == #[trigger] partner_id(original, modified, i);
        let k = choose|k: int| 0 <= k < n && y == #[trigger] partner_id(original, modified, k);
        if i < k {
            assert(has_partner(original, modified, k));
            assert(!clash_between(original, modified, i, k));
        } else {
            assert(has_partner(original, modified, i));
            assert(!clash_between(original, modified, k, i));
        }
    }
    assert forall|v: u64| mapping.values().contains(v) == ids(original.take(n)).contains(v) by {
        if mapping.values().contains(v) {
            let key = choose|key: u64| mapping.dom().contains(key) && mapping[key] == v;
            let i = choose|i: int|
                0 <= i < n && key == #[trigger] partner_id(original, modified, i);
            assert(original.take(n)[i].id == v);
        }
        if ids(original.take(n)).contains(v) {
            let i = choose|i: int|
                0 <= i < original.take(n).len() && (#[trigger] original.take(n)[i]).id == v;
            assert(mapping[partner_id(original, modified, i)] == v);
        }
    }
}

/// Where no identifier occurs twice in either document, no block clashes
/// with another.
pub proof fn lemma_distinct_ids_never_clash(
    original: Seq<BlockView>,
    modified: Seq<BlockView>,
    n: int,
)
    requires
        0 <= n <= original.len(),
        distinct_ids(original),
        distinct_ids(modified),
        forall|i: int| 0 <= i < n ==> has_partner(original, modified, i),
    ensures
        all_paired(original, modified, n),
{
    assert forall|i: int| 0 <= i < n implies #[trigger] has_partner(original, modified, i)
        && !clashes(original, modified, i) by {
        assert forall|k: int| 0 <= k < i implies !#[trigger] clash_between(
            original,
            modified,
            k,
            i,
        ) by {
            let jk = partner(original, modified, k);
            let ji = partner(original, modified, i);
            assert(has_partner(original, modified, k));
            assert(has_partner(original, modified, i));
            if jk == ji {
                lemma_partner_injective(original, modified, k, i);
            }
        }
    }
}

/// Two documents that hold the same descriptors, each as often in the one as
/// in the other, and in which no identifier occurs twice, are paired block by
/// block, and their identifier mapping is a one-to-one correspondence between
/// the identifiers of the one and those of the other.
pub proof fn lemma_same_descriptors_give_bijection(
    original: Seq<BlockView>,
    modified: Seq<BlockView>,
)
    requires
        descriptors(original).to_multiset() == descriptors(modified).to_multiset(),
        distinct_ids(original),
        distinct_ids(modified),
    ensures
        all_paired(original, modified, original.len() as int),
        id_mapping(original, modified, original.len() as int).is_injective(),
        id_mapping(original, modified, original.len() as int).dom() == ids(modified),
        id_mapping(original, modified, original.len() as int).values() == ids(original),
{
    let n = original.len() as int;
    let mapping = id_mapping(original, modified, n);
    lemma_enough_descriptors(original, modified);
    lemma_enough_descriptors(modified, original);
    lemma_distinct_ids_never_clash(original, modified, n);
    lemma_mapping_is_one_to_one(original, modified, n);
    assert(original.take(n) =~= original);
    assert forall|id: u64| mapping.dom().contains(id) == ids(modified).contains(id) by {
        if mapping.dom().contains(id) {
            let i = choose|i: int|
                0 <= i < n && id == #[trigger] partner_id(original, modified, i);
            assert(has_partner(original, modified, i));
        }
        if ids(modified).contains(id) {
            let j = choose|j: int| 0 <= j < modified.len() && (#[trigger] modified[j]).id == id;
            assert(has_partner(modified, original, j));
            let i = partner(modified, original, j);
            lemma_partner_is(original, modified, i, j);
            assert(id == partner_id(original, modified, i));
        }
    }
}

} // verus!
