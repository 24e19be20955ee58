//! Whole documents: reading one from a text and writing it back.

use std::collections::HashMap;
use vstd::prelude::*;
use vstd::string::StringExecFns;
use crate::block::block_views;
use crate::block::collect_game_objects;
use crate::block::collect_names;
use crate::block::describe;
use crate::block::names_view;
use crate::block::parse_block;
use crate::block::Block;
use crate::block::BlockView;
use crate::error::Error;
use crate::split::lemma_segments_concat;
use crate::split::segments;
use crate::split::split_yaml;
use crate::text::text_views;

verus! {

/// A document: its header and its blocks, in order.
#[derive(Debug, Eq, PartialEq)]
pub struct PrefabFile {
    /// The text before the first block.
    pub header: String,
    /// The record blocks.
    pub blocks: Vec<Block>,
}

/// The mathematical value of a `PrefabFile`.
pub struct PrefabFileView {
    pub header: Seq<char>,
    pub blocks: Seq<BlockView>,
}

impl View for PrefabFile {
    type V = PrefabFileView;

    open spec fn view(&self) -> PrefabFileView {
        PrefabFileView { header: self.header@, blocks: block_views(self.blocks@) }
    }
}

/// The bodies of a sequence of blocks.
pub open spec fn bodies(blocks: Seq<BlockView>) -> Seq<Seq<char>> {
    blocks.map_values(|b: BlockView| b.body)
}

/// The text of a document: its header followed by the bodies of its blocks.
pub open spec fn render(doc: PrefabFileView) -> Seq<char> {
    doc.header + bodies(doc.blocks).flatten()
}

/// The blocks that the texts are, with `names` as the table of owners; `None`
/// where one of them is malformed.
pub open spec fn describe_all(texts: Seq<Seq<char>>, names: Map<u64, Seq<char>>) -> Option<
    Seq<BlockView>,
> {
    if forall|i: int| 0 <= i < texts.len() ==> (#[trigger] describe(texts[i], names)) is Some {
        Some(texts.map_values(|t: Seq<char>| describe(t, names).unwrap()))
    } else {
        None
    }
}

/// The document that a text is; `None` where the text is empty, does not end
/// with a line feed, or holds a malformed block. The first segment of the
/// text is the header, the others are the blocks; the table of owners holds
/// the containers among the blocks.
pub open spec fn parse_document(s: Seq<char>) -> Option<PrefabFileView> {
    if s.len() == 0 || s.last() != '\n' {
        None
    } else {
        let header = segments(s, 0).first();
        let texts = segments(s, 0).drop_first();
        match collect_names(texts, Map::empty()) {
            None => None,
            Some(names) => match describe_all(texts, names) {
                None => None,
                Some(blocks) => Some(PrefabFileView { header, blocks }),
            },
        }
    }
}

/// Splits a document into its header and the texts of its blocks.
///
/// Fails where the text is empty or does not end with a line feed.
pub fn split_document(file: &str) -> (r: Result<(String, Vec<String>), Error>)
    ensures
        match r {
            Ok(parts) => {
                &&& file@.len() > 0
                &&& file@.last() == '\n'
                &&& parts.0@ == segments(file@, 0).first()
                &&& text_views(parts.1@) == segments(file@, 0).drop_first()
            },
            Err(e) => e == Error::StructuralParse && (file@.len() == 0 || file@.last() != '\n'),
        },
{
    let mut iter = split_yaml(file);
    let header = match iter.next() {
        None => {
            return Err(Error::StructuralParse);
        },
        Some(Err(e)) => {
            return Err(e);
        },
        Some(Ok(header)) => header,
    };
    let mut texts: Vec<String> = Vec::new();
    loop
        invariant
            iter.text() == file@,
            0 < iter.position() <= file@.len(),
            file@[iter.position() - 1] == '\n',
            segments(file@, 0).first() == header@,
            segments(file@, 0).drop_first() == text_views(texts@) + segments(
                file@,
                iter.position(),
            ),
        ensures
            file@.len() > 0,
            file@.last() == '\n',
            segments(file@, 0).first() == header@,
            segments(file@, 0).drop_first() == text_views(texts@),
        decreases file@.len() - iter.position(),
    {
        match iter.next() {
            None => {
                break ;
            },
            Some(Err(e)) => {
                return Err(e);
            },
            Some(Ok(segment)) => {
                texts.push(segment);
            },
        }
    }
    Ok((header, texts))
}

/// Reads each of the block texts, with `names` as the table of owners.
///
/// Fails where one of the blocks is malformed or has an owner that is not in
/// `names`.
pub fn parse_blocks(texts: &Vec<String>, names: &HashMap<u64, String>) -> (r: Result<
    Vec<Block>,
    Error,
>)
    ensures
        match r {
            Ok(blocks) => describe_all(text_views(texts@), names_view(names@)) == Some(
                block_views(blocks@),
            ),
            Err(e) => e == Error::StructuralParse && describe_all(
                text_views(texts@),
                names_view(names@),
            ) is None,
        },
{
    let mut blocks: Vec<Block> = Vec::new();
    let mut i: usize = 0;
    while i < texts.len()
        invariant
            i <= texts.len(),
            blocks@.len() == i,
            forall|j: int|
                0 <= j < i ==> describe(#[trigger] text_views(texts@)[j], names_view(names@))
                    == Some(blocks@[j]@),
        decreases texts.len() - i,
    {
        match parse_block(texts[i].as_str(), names) {
            Err(e) => {
                assert(describe(text_views(texts@)[i as int], names_view(names@)) is None);
                return Err(e);
            },
            Ok(block) => {
                blocks.push(block);
            },
        }
        i += 1;
    }
    Ok(blocks)
}

/// Reads a document.
///
/// On success the document, written back, is the text, and the body of each
/// block gives the identifier of the block.
///
/// Fails where the text is empty or does not end with a line feed, and where
/// a block is malformed or belongs to a container that the document lacks.
pub fn parse_yaml(file: &str) -> (r: Result<PrefabFile, Error>)
    ensures
        match r {
            Ok(doc) => {
                &&& parse_document(file@) == Some(doc@)
                &&& render(doc@) == file@
                &&& forall|i: int|
                    0 <= i < doc@.blocks.len() ==> (#[trigger] doc@.blocks[i]).carries_its_id()
            },
            Err(e) => e == Error::StructuralParse && parse_document(file@) is None,
        },
{
    let (header, texts) = match split_document(file) {
        Ok(parts) => parts,
        Err(e) => {
            return Err(e);
        },
    };
    let mut names: HashMap<u64, String> = HashMap::new();
    assert(names_view(names@) =~= Map::<u64, Seq<char>>::empty());
    match collect_game_objects(&texts, &mut names) {
        Err(e) => {
            return Err(e);
        },
        Ok(_) => {},
    }
    let blocks = match parse_blocks(&texts, &names) {
        Ok(blocks) => blocks,
        Err(e) => {
            return Err(e);
        },
    };
    let doc = PrefabFile { header, blocks };
    proof {
        lemma_parse_then_render(file@);
    }
    Ok(doc)
}

/// Writes a document: the header, then the body of each block.
pub fn dump_yaml(file: &PrefabFile) -> (r: String)
    ensures
        r@ == render(file@),
{
    let mut out = file.header.clone();
    let mut i: usize = 0;
    while i < file.blocks.len()
        invariant
            i <= file.blocks.len(),
            out@ == file.header@ + bodies(file@.blocks).take(i as int).flatten(),
        decreases file.blocks.len() - i,
    {
        out.append(file.blocks[i].body.as_str());
        proof {
            let all = bodies(file@.blocks);
            assert(all.take(i + 1) =~= all.take(i as int).push(file.blocks[i as int].body@));
            all.take(i as int).lemma_flatten_push(file.blocks[i as int].body@);
        }
        i += 1;
    }
    assert(bodies(file@.blocks).take(file.blocks.len() as int) =~= bodies(file@.blocks));
    out
}

/// A document that was read from a text is written back as that text.
pub proof fn lemma_parse_then_render(s: Seq<char>)
    requires
        parse_document(s) is Some,
    ensures
        render(parse_document(s).unwrap()) == s,
{
    let doc = parse_document(s).unwrap();
    let segs = segments(s, 0);
    let texts = segs.drop_first();
    assert(bodies(doc.blocks) =~= texts) by {}
    lemma_segments_concat(s, 0);
}

} // verus!
