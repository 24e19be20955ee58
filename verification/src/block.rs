//! Record blocks: what a block describes, and how its text is read.
//!
//! The first line of a block ends with `&` and the block's identifier. The
//! second line gives the block's kind. A block whose second line begins with
//! `GameObject:` is a container and is described by its name; any other block
//! is described by its second line and by the name of the container that owns
//! it.

use std::collections::HashMap;
use vstd::prelude::*;
use vstd::slice::slice_subrange;
use crate::error::Error;
use crate::number::parse_u64;
use crate::number::unsigned_value;
use crate::text::find;
use crate::text::find_char;
use crate::text::from_chars;
use crate::text::line_views;
use crate::text::lines;
use crate::text::lines_to_chars;
use crate::text::rfind;
use crate::text::rfind_char;
use crate::text::split_lines;
use crate::text::starts_with;
use crate::text::text_views;
use crate::text::to_chars;
use crate::text::trim;
use crate::text::trimmed;

verus! {

/// What a block describes, whatever its identifier.
#[derive(Debug, Hash, Eq, PartialEq)]
pub enum BlockDescriptor {
    /// A container, with its name.
    GameObject(String),
    /// Any other record, with its second line and the name of its owner.
    Others(String, String),
}

/// The mathematical value of a `BlockDescriptor`.
pub enum DescriptorView {
    GameObject(Seq<char>),
    Others(Seq<char>, Seq<char>),
}

impl View for BlockDescriptor {
    type V = DescriptorView;

    open spec fn view(&self) -> DescriptorView {
        match self {
            BlockDescriptor::GameObject(name) => DescriptorView::GameObject(name@),
            BlockDescriptor::Others(kind, owner) => DescriptorView::Others(kind@, owner@),
        }
    }
}

impl Clone for BlockDescriptor {
    fn clone(&self) -> (r: Self)
        ensures
            r@ == self@,
    {
        match self {
            BlockDescriptor::GameObject(name) => BlockDescriptor::GameObject(name.clone()),
            BlockDescriptor::Others(kind, owner) => BlockDescriptor::Others(
                kind.clone(),
                owner.clone(),
            ),
        }
    }
}

impl BlockDescriptor {
    /// Whether two descriptors describe the same thing.
    pub fn same_as(&self, other: &BlockDescriptor) -> (r: bool)
        ensures
            r == (self@ == other@),
    {
        match (self, other) {
            (BlockDescriptor::GameObject(a), BlockDescriptor::GameObject(b)) => *a == *b,
            (BlockDescriptor::Others(a, b), BlockDescriptor::Others(c, d)) => *a == *c && *b == *d,
            _ => false,
        }
    }
}

/// One record of a document.
#[derive(Debug, Eq, PartialEq)]
pub struct Block {
    /// The text of the record, from its `---` line to the line feed that ends it.
    pub body: String,
    /// The identifier of the record.
    pub id: u64,
    /// What the record describes.
    pub descriptor: BlockDescriptor,
}

/// The mathematical value of a `Block`.
pub struct BlockView {
    pub body: Seq<char>,
    pub id: u64,
    pub descriptor: DescriptorView,
}

impl View for Block {
    type V = BlockView;

    open spec fn view(&self) -> BlockView {
        BlockView { body: self.body@, id: self.id, descriptor: self.descriptor@ }
    }
}

impl Clone for Block {
    fn clone(&self) -> (r: Self)
        ensures
            r@ == self@,
    {
        Block { body: self.body.clone(), id: self.id, descriptor: self.descriptor.clone() }
    }
}

/// The values of a sequence of blocks.
pub open spec fn block_views(blocks: Seq<Block>) -> Seq<BlockView> {
    blocks.map_values(|b: Block| b@)
}

/// The names that a table of owners holds.
pub open spec fn names_view(names: Map<u64, String>) -> Map<u64, Seq<char>> {
    names.map_values(|name: String| name@)
}

/// How the second line of a container begins.
pub open spec fn container_tag() -> Seq<char> {
    "GameObject:"@
}

/// How the line begins that holds a container's name.
pub open spec fn name_key() -> Seq<char> {
    "  m_Name:"@
}

/// How the line begins that refers to a record's owner.
pub open spec fn owner_key() -> Seq<char> {
    "  m_GameObject:"@
}

/// The identifier that a block's first line gives: the unsigned number that
/// follows the last `&`, white space around it set aside.
pub open spec fn header_id(line: Seq<char>) -> Option<u64> {
    let k = rfind_char(line, '&');
    if k < 0 {
        None
    } else {
        unsigned_value(trimmed(line.skip(k + 1)))
    }
}

/// The index of the first line that begins with `key`, or `ls.len()` when
/// there is none.
pub open spec fn find_line(ls: Seq<Seq<char>>, key: Seq<char>) -> int
    decreases ls.len(),
{
    if ls.len() == 0 || key.is_prefix_of(ls[0]) {
        0
    } else {
        1 + find_line(ls.skip(1), key)
    }
}

/// `find_line` points at a line with the prefix that no such line precedes, or
/// past the end.
pub proof fn lemma_find_line(ls: Seq<Seq<char>>, key: Seq<char>)
    ensures
        0 <= find_line(ls, key) <= ls.len(),
        find_line(ls, key) < ls.len() ==> key.is_prefix_of(ls[find_line(ls, key)]),
        forall|j: int| 0 <= j < find_line(ls, key) ==> !key.is_prefix_of(#[trigger] ls[j]),
    decreases ls.len(),
{
    if ls.len() > 0 && !key.is_prefix_of(ls[0]) {
        let t = ls.skip(1);
        lemma_find_line(t, key);
        assert forall|j: int| 0 <= j < find_line(ls, key) implies !key.is_prefix_of(
            #[trigger] ls[j],
        ) by {
            if j > 0 {
                assert(t[j - 1] == ls[j]);
            }
        }
    }
}

/// Any index with the properties of `lemma_find_line` is `find_line`.
pub proof fn lemma_find_line_is(ls: Seq<Seq<char>>, key: Seq<char>, k: int)
    requires
        0 <= k <= ls.len(),
        k < ls.len() ==> key.is_prefix_of(ls[k]),
        forall|j: int| 0 <= j < k ==> !key.is_prefix_of(#[trigger] ls[j]),
    ensures
        find_line(ls, key) == k,
{
    lemma_find_line(ls, key);
}

/// What follows the first colon on the first line that begins with `key`.
pub open spec fn field_value(ls: Seq<Seq<char>>, key: Seq<char>) -> Option<Seq<char>> {
    let i = find_line(ls, key);
    if 0 <= i < ls.len() && find_char(ls[i], ':') < ls[i].len() {
        Some(ls[i].skip(find_char(ls[i], ':') + 1))
    } else {
        None
    }
}

/// The name of a container: the value of its name field, white space around
/// it set aside.
pub open spec fn entity_name(ls: Seq<Seq<char>>) -> Option<Seq<char>> {
    match field_value(ls, name_key()) {
        Some(v) => Some(trimmed(v)),
        None => None,
    }
}

/// The identifier of a record's owner: the unsigned number between the first
/// colon and the next closing brace in the value of its owner field.
pub open spec fn owner_id(ls: Seq<Seq<char>>) -> Option<u64> {
    match field_value(ls, owner_key()) {
        None => None,
        Some(v) => {
            let c = find_char(v, ':');
            if c < v.len() {
                let w = v.skip(c + 1);
                let b = find_char(w, '}');
                if b < w.len() {
                    unsigned_value(trimmed(w.take(b)))
                } else {
                    None
                }
            } else {
                None
            }
        },
    }
}

/// Whether the lines are those of a container.
pub open spec fn is_container(ls: Seq<Seq<char>>) -> bool {
    ls.len() >= 2 && container_tag().is_prefix_of(ls[1])
}

/// What the lines of a block tell of a container: `None` where they are
/// malformed, `Some(None)` where they are those of another record, else the
/// container's identifier and name.
pub open spec fn game_object(ls: Seq<Seq<char>>) -> Option<Option<(u64, Seq<char>)>> {
    if ls.len() < 2 {
        None
    } else if !is_container(ls) {
        Some(None)
    } else {
        match (header_id(ls[0]), entity_name(ls)) {
            (Some(id), Some(name)) => Some(Some((id, name))),
            _ => None,
        }
    }
}

/// The table of owners after the containers among `blocks` were entered into
/// `names`, in order; `None` where a block is malformed.
pub open spec fn collect_names(blocks: Seq<Seq<char>>, names: Map<u64, Seq<char>>) -> Option<
    Map<u64, Seq<char>>,
>
    decreases blocks.len(),
{
    if blocks.len() == 0 {
        Some(names)
    } else {
        match collect_names(blocks.drop_last(), names) {
            None => None,
            Some(m) => match game_object(lines(blocks.last())) {
                None => None,
                Some(None) => Some(m),
                Some(Some(entry)) => Some(m.insert(entry.0, entry.1)),
            },
        }
    }
}

/// The identifier and the descriptor that the lines of a block give, with
/// `names` as the table of owners; `None` where the lines are malformed or the
/// owner is not in the table.
pub open spec fn describe_lines(ls: Seq<Seq<char>>, names: Map<u64, Seq<char>>) -> Option<
    (u64, DescriptorView),
> {
    if ls.len() < 2 {
        None
    } else {
        match header_id(ls[0]) {
            None => None,
            Some(id) => if is_container(ls) {
                match entity_name(ls) {
                    Some(name) => Some((id, DescriptorView::GameObject(name))),
                    None => None,
                }
            } else {
                match owner_id(ls) {
                    Some(owner) => if names.contains_key(owner) {
                        Some((id, DescriptorView::Others(ls[1], names[owner])))
                    } else {
                        None
                    },
                    None => None,
                }
            },
        }
    }
}

/// The block that a text is, with `names` as the table of owners.
pub open spec fn describe(text: Seq<char>, names: Map<u64, Seq<char>>) -> Option<BlockView> {
    match describe_lines(lines(text), names) {
        Some((id, descriptor)) => Some(BlockView { body: text, id, descriptor }),
        None => None,
    }
}

/// The identifier that the text of a block gives on its first line.
pub open spec fn block_id(text: Seq<char>) -> Option<u64> {
    if lines(text).len() == 0 {
        None
    } else {
        header_id(lines(text)[0])
    }
}

impl BlockView {
    /// The body of the block gives the identifier of the block.
    pub open spec fn carries_its_id(self) -> bool {
        block_id(self.body) == Some(self.id)
    }
}

/// Reads the identifier from the first line of a block; see `header_id`.
pub fn read_header_id(line: &[char]) -> (r: Option<u64>)
    ensures
        r == header_id(line@),
{
    match rfind(line, '&') {
        None => None,
        Some(k) => {
            let n = line.len();
            let rest = slice_subrange(line, k + 1, n);
            parse_u64(trim(rest))
        },
    }
}

fn locate_line(lines: &Vec<Vec<char>>, key: &[char]) -> (r: usize)
    ensures
        r == find_line(line_views(lines@), key@),
        r <= lines.len(),
{
    let mut i: usize = 0;
    while i < lines.len() && !starts_with(lines[i].as_slice(), key)
        invariant
            i <= lines.len(),
            forall|j: int| 0 <= j < i ==> !key@.is_prefix_of(#[trigger] line_views(lines@)[j]),
        decreases lines.len() - i,
    {
        i += 1;
    }
    proof {
        lemma_find_line_is(line_views(lines@), key@, i as int);
    }
    i
}

fn read_field<'a>(lines: &'a Vec<Vec<char>>, key: &[char]) -> (r: Option<&'a [char]>)
    ensures
        match r {
            Some(v) => field_value(line_views(lines@), key@) == Some(v@),
            None => field_value(line_views(lines@), key@) is None,
        },
{
    let i = locate_line(lines, key);
    if i >= lines.len() {
        return None;
    }
    let line = lines[i].as_slice();
    let c = find(line, ':');
    if c >= line.len() {
        return None;
    }
    let v = slice_subrange(line, c + 1, line.len());
    Some(v)
}

fn read_entity_name(lines: &Vec<Vec<char>>) -> (r: Option<String>)
    ensures
        match r {
            Some(name) => entity_name(line_views(lines@)) == Some(name@),
            None => entity_name(line_views(lines@)) is None,
        },
{
    let key = to_chars("  m_Name:");
    match read_field(lines, key.as_slice()) {
        Some(v) => Some(from_chars(trim(v))),
        None => None,
    }
}

fn read_owner_id(lines: &Vec<Vec<char>>) -> (r: Option<u64>)
    ensures
        r == owner_id(line_views(lines@)),
{
    let key = to_chars("  m_GameObject:");
    match read_field(lines, key.as_slice()) {
        None => None,
        Some(v) => {
            let c = find(v, ':');
            if c >= v.len() {
                return None;
            }
            let w = slice_subrange(v, c + 1, v.len());
            let b = find(w, '}');
            if b >= w.len() {
                return None;
            }
            let number = slice_subrange(w, 0, b);
            parse_u64(trim(number))
        },
    }
}

fn has_container_tag(lines: &Vec<Vec<char>>) -> (r: bool)
    requires
        lines.len() >= 2,
    ensures
        r == is_container(line_views(lines@)),
{
    let tag = to_chars("GameObject:");
    starts_with(lines[1].as_slice(), tag.as_slice())
}

/// Reads what the lines of a block tell of a container; see `game_object`.
pub fn container_entry(lines: &Vec<Vec<char>>) -> (r: Result<Option<(u64, String)>, Error>)
    ensures
        match r {
            Ok(Some(entry)) => game_object(line_views(lines@)) == Some(Some((entry.0, entry.1@))),
            Ok(None) => game_object(line_views(lines@)) == Some(None::<(u64, Seq<char>)>),
            Err(e) => e == Error::StructuralParse && game_object(line_views(lines@)) is None,
        },
{
    if lines.len() < 2 {
        return Err(Error::StructuralParse);
    }
    if !has_container_tag(lines) {
        return Ok(None);
    }
    match (read_header_id(lines[0].as_slice()), read_entity_name(lines)) {
        (Some(id), Some(name)) => Ok(Some((id, name))),
        _ => Err(Error::StructuralParse),
    }
}

/// Tells whether the lines of a block are those of a container, and if so
/// gives its identifier and its name.
///
/// Fails where there are fewer than two lines, or where the lines are those
/// of a container whose identifier or name cannot be read.
pub fn find_game_object(lines: &Vec<String>) -> (r: Result<Option<(u64, String)>, Error>)
    ensures
        match r {
            Ok(Some(entry)) => game_object(text_views(lines@)) == Some(Some((entry.0, entry.1@))),
            Ok(None) => game_object(text_views(lines@)) == Some(None::<(u64, Seq<char>)>),
            Err(e) => e == Error::StructuralParse && game_object(text_views(lines@)) is None,
        },
{
    let chars = lines_to_chars(lines);
    container_entry(&chars)
}

/// Enters the containers among the block texts of `body` into `objects`, each
/// under its identifier with its name, in order; a later container replaces
/// an earlier one with the same identifier.
///
/// Fails at the first block whose lines `find_game_object` rejects; `objects`
/// then holds the containers before that block.
pub fn collect_game_objects(body: &Vec<String>, objects: &mut HashMap<u64, String>) -> (r: Result<
    (),
    Error,
>)
    ensures
        match r {
            Ok(_) => collect_names(text_views(body@), names_view(old(objects)@)) == Some(
                names_view(final(objects)@),
            ),
            Err(e) => {
                &&& e == Error::StructuralParse
                &&& collect_names(text_views(body@), names_view(old(objects)@)) is None
                &&& exists|n: int|
                    0 <= n < body.len() && game_object(lines(text_views(body@)[n])) is None
                        && collect_names(
                        #[trigger] text_views(body@).take(n),
                        names_view(old(objects)@),
                    ) == Some(names_view(final(objects)@))
            },
        },
{
    let ghost texts = text_views(body@);
    let ghost start = names_view(old(objects)@);
    let mut i: usize = 0;
    while i < body.len()
        invariant
            i <= body.len(),
            texts == text_views(body@),
            start == names_view(old(objects)@),
            collect_names(texts.take(i as int), start) == Some(names_view(objects@)),
        decreases body.len() - i,
    {
        let chars = to_chars(body[i].as_str());
        let block_lines = split_lines(chars.as_slice());
        proof {
            assert(texts.take(i + 1).drop_last() =~= texts.take(i as int));
        }
        match container_entry(&block_lines) {
            Err(e) => {
                proof {
                    lemma_collect_names_failed(texts, start, i + 1);
                }
                return Err(e);
            },
            Ok(None) => {},
            Ok(Some(entry)) => {
                objects.insert(entry.0, entry.1);
            },
        }
        i += 1;
    }
    assert(texts.take(body.len() as int) =~= texts);
    Ok(())
}

/// Once a prefix of the blocks is malformed, so is every longer prefix.
pub proof fn lemma_collect_names_failed(blocks: Seq<Seq<char>>, names: Map<u64, Seq<char>>, n: int)
    requires
        0 <= n <= blocks.len(),
        collect_names(blocks.take(n), names) is None,
    ensures
        collect_names(blocks, names) is None,
    decreases blocks.len(),
{
    if n == blocks.len() {
        assert(blocks.take(n) =~= blocks);
    } else {
        assert(blocks.drop_last().take(n) =~= blocks.take(n));
        lemma_collect_names_failed(blocks.drop_last(), names, n);
    }
}

/// Reads the identifier and the descriptor from the lines of a block; see
/// `describe_lines`.
pub fn read_block(lines: &Vec<Vec<char>>, object_names: &HashMap<u64, String>) -> (r: Result<
    (u64, BlockDescriptor),
    Error,
>)
    ensures
        match r {
            Ok(found) => describe_lines(line_views(lines@), names_view(object_names@)) == Some(
                (found.0, found.1@),
            ),
            Err(e) => e == Error::StructuralParse && describe_lines(
                line_views(lines@),
                names_view(object_names@),
            ) is None,
        },
{
    if lines.len() < 2 {
        return Err(Error::StructuralParse);
    }
    let id = match read_header_id(lines[0].as_slice()) {
        Some(id) => id,
        None => {
            return Err(Error::StructuralParse);
        },
    };
    if has_container_tag(lines) {
        match read_entity_name(lines) {
            Some(name) => Ok((id, BlockDescriptor::GameObject(name))),
            None => Err(Error::StructuralParse),
        }
    } else {
        let owner = match read_owner_id(lines) {
            Some(owner) => owner,
            None => {
                return Err(Error::StructuralParse);
            },
        };
        match object_names.get(&owner) {
            Some(name) => Ok(
                (id, BlockDescriptor::Others(from_chars(lines[1].as_slice()), name.clone())),
            ),
            None => Err(Error::StructuralParse),
        }
    }
}

/// Reads one block: its identifier from the first line, and what it
/// describes, for which `object_names` gives the names of the containers.
///
/// Fails where the block has fewer than two lines, where its identifier, its
/// name or its owner cannot be read, or where its owner is not in
/// `object_names`.
pub fn parse_block(block: &str, object_names: &HashMap<u64, String>) -> (r: Result<Block, Error>)
    ensures
        match r {
            Ok(b) => describe(block@, names_view(object_names@)) == Some(b@)
                && b@.carries_its_id(),
            Err(e) => e == Error::StructuralParse && describe(block@, names_view(object_names@))
                is None,
        },
{
    let chars = to_chars(block);
    let block_lines = split_lines(chars.as_slice());
    match read_block(&block_lines, object_names) {
        Ok(found) => Ok(Block { body: block.to_owned(), id: found.0, descriptor: found.1 }),
        Err(e) => Err(e),
    }
}

} // verus!
