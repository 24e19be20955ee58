//! The identifier on a block's first line follows the mapping when the block
//! is rewritten.

use vstd::prelude::*;
use crate::block::block_id;
use crate::block::header_id;
use crate::block::BlockView;
use crate::number::lemma_decimal_round_trip;
use crate::number::parse_digits;
use crate::number::unsigned_value;
use crate::reconcile::mapped_id;
use crate::reconcile::reconciled;
use crate::rewrite::lemma_rewrite_all_digits;
use crate::rewrite::lemma_rewrite_concat;
use crate::rewrite::lemma_rewrite_first;
use crate::rewrite::lemma_rewrite_keeps_absent;
use crate::rewrite::lemma_rewrite_last;
use crate::rewrite::rewrite;
use crate::rewrite::rewrite_run;
use crate::text::find_char;
use crate::text::is_digit;
use crate::text::is_space;
use crate::text::lemma_find_char;
use crate::text::lemma_find_char_is;
use crate::text::lemma_rfind_char;
use crate::text::lemma_rfind_char_is;
use crate::text::lines;
use crate::text::rfind_char;
use crate::text::strip_cr;
use crate::text::trim_end;
use crate::text::trim_start;
use crate::text::trimmed;

verus! {

/// A text of one character that is no digit is rewritten as itself.
pub proof fn lemma_rewrite_one(c: char, mapping: Map<u64, u64>)
    requires
        !is_digit(c),
    ensures
        rewrite(seq![c], mapping) == seq![c],
{
    let one = seq![c];
    lemma_rewrite_first(one, mapping);
}

/// A text with the character `c`, no digit, at index `k` is rewritten as the
/// text before `c`, then `c`, then the text after `c`, each by itself.
pub proof fn lemma_rewrite_at(s: Seq<char>, k: int, mapping: Map<u64, u64>)
    requires
        0 <= k < s.len(),
        !is_digit(s[k]),
    ensures
        rewrite(s, mapping) == rewrite(s.take(k), mapping).push(s[k]) + rewrite(
            s.skip(k + 1),
            mapping,
        ),
{
    let a = s.take(k);
    let one = seq![s[k]];
    let b = s.skip(k + 1);
    assert(s =~= a + (one + b));
    lemma_rewrite_concat(a, one + b, mapping);
    lemma_rewrite_concat(one, b, mapping);
    lemma_rewrite_one(s[k], mapping);
}

/// Leading white space is set aside before or after rewriting, with the same
/// result.
pub proof fn lemma_trim_start_rewrite(s: Seq<char>, mapping: Map<u64, u64>)
    ensures
        trim_start(rewrite(s, mapping)) == rewrite(trim_start(s), mapping),
    decreases s.len(),
{
    if s.len() > 0 {
        lemma_rewrite_first(s, mapping);
        let r = rewrite(s, mapping);
        if is_space(s.first()) {
            assert(r.drop_first() =~= rewrite(s.skip(1), mapping));
            lemma_trim_start_rewrite(s.skip(1), mapping);
        }
    }
}

/// Trailing white space is set aside before or after rewriting, with the same
/// result.
pub proof fn lemma_trim_end_rewrite(s: Seq<char>, mapping: Map<u64, u64>)
    ensures
        trim_end(rewrite(s, mapping)) == rewrite(trim_end(s), mapping),
    decreases s.len(),
{
    if s.len() > 0 {
        lemma_rewrite_last(s, mapping);
        let r = rewrite(s, mapping);
        if is_space(s.last()) {
            assert(r.drop_last() =~= rewrite(s.drop_last(), mapping));
            lemma_trim_end_rewrite(s.drop_last(), mapping);
        }
    }
}

/// White space at both ends is set aside before or after rewriting, with the
/// same result.
pub proof fn lemma_trimmed_rewrite(s: Seq<char>, mapping: Map<u64, u64>)
    ensures
        trimmed(rewrite(s, mapping)) == rewrite(trimmed(s), mapping),
{
    lemma_trim_start_rewrite(s, mapping);
    lemma_trim_end_rewrite(trim_start(s), mapping);
}

/// What stands for a run of digits writes the identifier that the run's value
/// becomes.
pub proof fn lemma_rewrite_run_value(run: Seq<char>, mapping: Map<u64, u64>)
    requires
        parse_digits(run) is Some,
    ensures
        parse_digits(rewrite_run(run, mapping)) == Some(
            mapped_id(mapping, parse_digits(run).unwrap()),
        ),
{
    let v = parse_digits(run).unwrap();
    if mapping.contains_key(v) {
        lemma_decimal_round_trip(mapping[v] as nat);
    }
}

/// A number is rewritten as the number that its value becomes.
pub proof fn lemma_unsigned_value_rewrite(s: Seq<char>, mapping: Map<u64, u64>)
    requires
        unsigned_value(s) is Some,
    ensures
        unsigned_value(rewrite(s, mapping)) == Some(
            mapped_id(mapping, unsigned_value(s).unwrap()),
        ),
{
    lemma_rewrite_first(s, mapping);
    let r = rewrite(s, mapping);
    if s[0] == '+' {
        let run = s.skip(1);
        lemma_rewrite_all_digits(run, mapping);
        lemma_rewrite_run_value(run, mapping);
        assert(r.skip(1) =~= rewrite_run(run, mapping));
    } else {
        lemma_rewrite_all_digits(s, mapping);
        lemma_rewrite_run_value(s, mapping);
    }
}

/// The identifier on a first line follows the mapping when the line is
/// rewritten.
pub proof fn lemma_header_id_rewrite(line: Seq<char>, mapping: Map<u64, u64>)
    requires
        header_id(line) is Some,
    ensures
        header_id(rewrite(line, mapping)) == Some(
            mapped_id(mapping, header_id(line).unwrap()),
        ),
{
    let k = rfind_char(line, '&');
    lemma_rfind_char(line, '&');
    let a = rewrite(line.take(k), mapping);
    let tail = line.skip(k + 1);
    let b = rewrite(tail, mapping);
    let r = rewrite(line, mapping);
    lemma_rewrite_at(line, k, mapping);
    lemma_rewrite_keeps_absent(tail, mapping, '&');
    lemma_rfind_char_is(r, '&', a.len() as int);
    assert(r.skip(a.len() as int + 1) =~= b);
    lemma_trimmed_rewrite(tail, mapping);
    lemma_unsigned_value_rewrite(trimmed(tail), mapping);
}

/// A carriage return at the end of a line is set aside before or after
/// rewriting, with the same result.
pub proof fn lemma_strip_cr_rewrite(line: Seq<char>, mapping: Map<u64, u64>)
    ensures
        strip_cr(rewrite(line, mapping)) == rewrite(strip_cr(line), mapping),
{
    if line.len() > 0 {
        lemma_rewrite_last(line, mapping);
    }
}

/// The first line of a rewritten text is the first line of the text,
/// rewritten.
pub proof fn lemma_first_line_rewrite(text: Seq<char>, mapping: Map<u64, u64>)
    requires
        text.len() > 0,
    ensures
        lines(text).len() > 0,
        lines(rewrite(text, mapping)).len() > 0,
        lines(rewrite(text, mapping))[0] == rewrite(lines(text)[0], mapping),
{
    let n = find_char(text, '\n');
    let r = rewrite(text, mapping);
    lemma_find_char(text, '\n');
    lemma_rewrite_first(text, mapping);
    if n == text.len() {
        lemma_rewrite_keeps_absent(text, mapping, '\n');
        lemma_find_char_is(r, '\n', r.len() as int);
    } else {
        let line = text.take(n);
        let a = rewrite(line, mapping);
        lemma_rewrite_at(text, n, mapping);
        lemma_rewrite_keeps_absent(line, mapping, '\n');
        lemma_find_char_is(r, '\n', a.len() as int);
        lemma_strip_cr_rewrite(line, mapping);
    }
}

/// The identifier that a block gives on its first line follows the mapping
/// when the block is rewritten: a block with identifier `id` is rewritten as a
/// block with the identifier that `id` is mapped to, or with `id` where it is
/// no key.
pub proof fn lemma_block_id_rewrite(text: Seq<char>, mapping: Map<u64, u64>)
    requires
        block_id(text) is Some,
    ensures
        block_id(rewrite(text, mapping)) == Some(mapped_id(mapping, block_id(text).unwrap())),
{
    lemma_first_line_rewrite(text, mapping);
    lemma_header_id_rewrite(lines(text)[0], mapping);
}

/// A block whose body gives its identifier still does so after reconciling:
/// the body then gives the new identifier.
pub proof fn lemma_reconciled_block_id(b: BlockView, mapping: Map<u64, u64>)
    requires
        b.carries_its_id(),
    ensures
        reconciled(b, mapping).carries_its_id(),
{
    lemma_block_id_rewrite(b.body, mapping);
}

} // verus!
