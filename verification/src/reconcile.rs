//! Reconciling two documents: the later document with the identifiers of the
//! earlier one.

use std::collections::HashMap;
use vstd::prelude::*;
use crate::block::Block;
use crate::block::BlockView;
use crate::document::PrefabFile;
use crate::error::Error;
use crate::matcher::all_paired;
use crate::matcher::clashes;
use crate::matcher::has_partner;
use crate::matcher::id_mapping;
use crate::matcher::lemma_mapping_entries;
use crate::matcher::match_blocks;
use crate::matcher::partner;
use crate::matcher::partner_id;
use crate::rewrite::replace_ids;
use crate::rewrite::rewrite;
use crate::round_trip::lemma_reconciled_block_id;

verus! {

/// The identifier that `id` becomes: what the mapping gives for it, or `id`
/// itself where it is no key.
pub open spec fn mapped_id(mapping: Map<u64, u64>, id: u64) -> u64 {
    if mapping.contains_key(id) {
        mapping[id]
    } else {
        id
    }
}

/// A block after reconciling: its body rewritten through the mapping, its
/// identifier replaced by the one it becomes, its descriptor as it was.
pub open spec fn reconciled(b: BlockView, mapping: Map<u64, u64>) -> BlockView {
    BlockView {
        body: rewrite(b.body, mapping),
        id: mapped_id(mapping, b.id),
        descriptor: b.descriptor,
    }
}

/// Reconciles one block; see `reconciled`. A block whose body gave its
/// identifier before gives its new identifier after.
pub fn reconcile_block(block: &Block, mapping: &HashMap<u64, u64>) -> (r: Block)
    ensures
        r@ == reconciled(block@, mapping@),
        block@.carries_its_id() ==> r@.carries_its_id(),
{
    let id = match mapping.get(&block.id) {
        Some(target) => *target,
        None => block.id,
    };
    proof {
        if block@.carries_its_id() {
            lemma_reconciled_block_id(block@, mapping@);
        }
    }
    Block {
        body: replace_ids(block.body.as_str(), mapping),
        id,
        descriptor: block.descriptor.clone(),
    }
}

/// Gives the blocks of `modified` the identifiers that their partners have in
/// `original`.
///
/// The result has the header of `modified` and, for each block of `original`
/// and in that order, the partner of that block, reconciled through the
/// identifier mapping of the two documents; so it has the identifiers of
/// `original`. Blocks of `modified` without a partner are left out.
/// A block whose body gave its identifier before gives its new identifier
/// after.
///
/// Fails with `HeaderMismatch` where the headers differ, and else as
/// `match_blocks` does.
pub fn reconcile(original: &PrefabFile, modified: &PrefabFile) -> (r: Result<PrefabFile, Error>)
    ensures
        match r {
            Ok(doc) => {
                let o = original@.blocks;
                let m = modified@.blocks;
                &&& original@.header == modified@.header
                &&& all_paired(o, m, o.len() as int)
                &&& doc@.header == modified@.header
                &&& doc@.blocks.len() == o.len()
                &&& forall|i: int|
                    0 <= i < o.len() ==> #[trigger] doc@.blocks[i] == reconciled(
                        m[partner(o, m, i)],
                        id_mapping(o, m, o.len() as int),
                    )
                &&& forall|i: int| 0 <= i < o.len() ==> (#[trigger] doc@.blocks[i]).id == o[i].id
                &&& forall|i: int|
                    0 <= i < o.len() ==> (#[trigger] doc@.blocks[i]).descriptor
                        == o[i].descriptor
                &&& forall|i: int|
                    0 <= i < o.len() && m[partner(o, m, i)].carries_its_id() ==> (
                    #[trigger] doc@.blocks[i]).carries_its_id()
            },
            Err(Error::HeaderMismatch) => original@.header != modified@.header,
            Err(Error::UnmatchedDescriptor(i)) => {
                let o = original@.blocks;
                let m = modified@.blocks;
                &&& original@.header == modified@.header
                &&& i < o.len()
                &&& all_paired(o, m, i as int)
                &&& !has_partner(o, m, i as int)
            },
            Err(Error::DuplicateTargetId(i)) => {
                let o = original@.blocks;
                let m = modified@.blocks;
                &&& original@.header == modified@.header
                &&& i < o.len()
                &&& all_paired(o, m, i as int)
                &&& has_partner(o, m, i as int)
                &&& clashes(o, m, i as int)
            },
            Err(Error::StructuralParse) => false,
        },
{
    if !(original.header == modified.header) {
        return Err(Error::HeaderMismatch);
    }
    let (partners, mapping) = match match_blocks(&original.blocks, &modified.blocks) {
        Ok(found) => found,
        Err(e) => {
            return Err(e);
        },
    };
    let ghost o = original@.blocks;
    let ghost m = modified@.blocks;
    let mut blocks: Vec<Block> = Vec::new();
    let mut i: usize = 0;
    while i < partners.len()
        invariant
            i <= partners.len(),
            blocks@.len() == i,
            forall|k: int|
                0 <= k < i ==> (#[trigger] blocks@[k])@ == reconciled(partners@[k]@, mapping@),
            forall|k: int|
                0 <= k < i && partners@[k]@.carries_its_id() ==> (
                #[trigger] blocks@[k])@.carries_its_id(),
        decreases partners.len() - i,
    {
        blocks.push(reconcile_block(&partners[i], &mapping));
        i += 1;
    }
    let doc = PrefabFile { header: modified.header.clone(), blocks };
    proof {
        lemma_mapping_entries(o, m, o.len() as int);
        assert forall|k: int| 0 <= k < o.len() implies #[trigger] doc@.blocks[k] == reconciled(
            m[partner(o, m, k)],
            id_mapping(o, m, o.len() as int),
        ) && doc@.blocks[k].id == o[k].id && doc@.blocks[k].descriptor == o[k].descriptor && (
        partners@[k]@.carries_its_id() ==> doc@.blocks[k].carries_its_id()) by {
            assert(mapping@.contains_key(partner_id(o, m, k)));
        }
    }
    Ok(doc)
}

} // verus!
