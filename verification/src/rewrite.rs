//! Rewriting the numbers in a text through an identifier mapping.

use std::collections::HashMap;
use vstd::prelude::*;
use vstd::slice::slice_subrange;
use crate::number::all_digits;
use crate::number::decimal;
use crate::number::lemma_decimal_round_trip;
use crate::number::parse_digits;
use crate::number::push_decimal;
use crate::number::to_digits;
use crate::text::from_chars;
use crate::text::is_digit;
use crate::text::to_chars;

verus! {

/// The number of digits with which `s` begins.
pub open spec fn digit_run(s: Seq<char>) -> nat
    decreases s.len(),
{
    if s.len() > 0 && is_digit(s[0]) {
        1 + digit_run(s.skip(1))
    } else {
        0
    }
}

/// `digit_run` covers digits only and stops at the end or before a character
/// that is no digit.
pub proof fn lemma_digit_run(s: Seq<char>)
    ensures
        digit_run(s) <= s.len(),
        all_digits(s.take(digit_run(s) as int)),
        digit_run(s) < s.len() ==> !is_digit(s[digit_run(s) as int]),
    decreases s.len(),
{
    if s.len() > 0 && is_digit(s[0]) {
        let t = s.skip(1);
        lemma_digit_run(t);
        let n = digit_run(s) as int;
        assert forall|i: int| 0 <= i < s.take(n).len() implies is_digit(#[trigger] s.take(n)[i]) by {
            if i > 0 {
                assert(is_digit(t.take(n - 1)[i - 1]));
            }
        }
    }
}

/// Any length with the properties of `lemma_digit_run` is `digit_run`.
pub proof fn lemma_digit_run_is(s: Seq<char>, k: int)
    requires
        0 <= k <= s.len(),
        forall|j: int| 0 <= j < k ==> is_digit(s[j]),
        k < s.len() ==> !is_digit(s[k]),
    ensures
        digit_run(s) == k,
{
    lemma_digit_run(s);
    let r = digit_run(s) as int;
    if r > k {
        assert(is_digit(s.take(r)[k]));
    }
}

/// What stands for a run of digits after rewriting: the decimal text of the
/// identifier that the run's value is mapped to, or the run itself where its
/// value is no key of the mapping or does not fit in 64 bits.
pub open spec fn rewrite_run(run: Seq<char>, mapping: Map<u64, u64>) -> Seq<char> {
    match parse_digits(run) {
        Some(v) => if mapping.contains_key(v) {
            decimal(mapping[v] as nat)
        } else {
            run
        },
        None => run,
    }
}

/// The text `s` with every maximal run of digits rewritten by `rewrite_run`,
/// and every other character, a minus sign before a run included, as it is.
pub open spec fn rewrite(s: Seq<char>, mapping: Map<u64, u64>) -> Seq<char>
    decreases s.len(),
    via rewrite_decreases
{
    if s.len() == 0 {
        s
    } else {
        let n = digit_run(s) as int;
        if n == 0 {
            seq![s[0]] + rewrite(s.skip(1), mapping)
        } else {
            rewrite_run(s.take(n), mapping) + rewrite(s.skip(n), mapping)
        }
    }
}

#[via_fn]
proof fn rewrite_decreases(s: Seq<char>, mapping: Map<u64, u64>) {
    lemma_digit_run(s);
}

/// Rewrites the characters of `s`; see `rewrite`.
pub fn rewrite_chars(s: &[char], mapping: &HashMap<u64, u64>) -> (r: Vec<char>)
    ensures
        r@ == rewrite(s@, mapping@),
{
    let n = s.len();
    let mut out: Vec<char> = Vec::new();
    let mut i: usize = 0;
    assert(s@.skip(0) =~= s@);
    while i < n
        invariant
            i <= n,
            n == s@.len(),
            rewrite(s@, mapping@) == out@ + rewrite(s@.skip(i as int), mapping@),
        decreases n - i,
    {
        let ghost rest = s@.skip(i as int);
        if !is_digit(s[i]) {
            out.push(s[i]);
            proof {
                assert(rest.skip(1) =~= s@.skip(i + 1));
            }
            i += 1;
        } else {
            let mut j: usize = i + 1;
            while j < n && is_digit(s[j])
                invariant
                    i < j <= n,
                    n == s@.len(),
                    forall|k: int| i <= k < j ==> is_digit(s@[k]),
                decreases n - j,
            {
                j += 1;
            }
            let run = slice_subrange(s, i, j);
            proof {
                lemma_digit_run_is(rest, j - i);
                assert(run@ =~= rest.take(j - i));
                assert(rest.skip(j - i) =~= s@.skip(j as int));
            }
            match to_digits(run) {
                Some(v) => match mapping.get(&v) {
                    Some(target) => {
                        push_decimal(&mut out, *target);
                    },
                    None => {
                        out.extend_from_slice(run);
                    },
                },
                None => {
                    out.extend_from_slice(run);
                },
            }
            i = j;
        }
    }
    out
}

/// The text of `block` in which every number that is a key of `id_mapping` is
/// replaced by the decimal text of the identifier it is mapped to.
///
/// So the characters that are no digits stay, all of them and in their order,
/// and with an empty mapping the text stays as it is.
pub fn replace_ids(block: &str, id_mapping: &HashMap<u64, u64>) -> (r: String)
    ensures
        r@ == rewrite(block@, id_mapping@),
        other_characters(r@) == other_characters(block@),
        id_mapping@ == Map::<u64, u64>::empty() ==> r@ == block@,
{
    let chars = to_chars(block);
    let out = rewrite_chars(chars.as_slice(), id_mapping);
    proof {
        lemma_rewrite_keeps_other_characters(block@, id_mapping@);
        lemma_rewrite_empty_mapping(block@);
    }
    from_chars(out.as_slice())
}

/// Two texts are rewritten one after the other where no run of digits reaches
/// from the first into the second.
pub proof fn lemma_rewrite_concat(a: Seq<char>, b: Seq<char>, mapping: Map<u64, u64>)
    requires
        a.len() == 0 || b.len() == 0 || !is_digit(a.last()) || !is_digit(b[0]),
    ensures
        rewrite(a + b, mapping) == rewrite(a, mapping) + rewrite(b, mapping),
    decreases a.len(),
{
    let s = a + b;
    if a.len() > 0 && b.len() > 0 {
        lemma_digit_run(a);
        let n = digit_run(a) as int;
        if n == 0 {
            assert(s.skip(1) =~= a.skip(1) + b);
            lemma_rewrite_concat(a.skip(1), b, mapping);
        } else {
            assert forall|j: int| 0 <= j < n implies is_digit(s[j]) by {
                assert(is_digit(a.take(n)[j]));
            }
            assert(!is_digit(s[n])) by {
                if n == a.len() {
                    assert(is_digit(a.take(n)[n - 1]));
                }
            }
            lemma_digit_run_is(s, n);
            assert(s.take(n) =~= a.take(n));
            assert(s.skip(n) =~= a.skip(n) + b);
            lemma_rewrite_concat(a.skip(n), b, mapping);
        }
    }
}

/// A text that is one run of digits is rewritten as that run.
pub proof fn lemma_rewrite_all_digits(run: Seq<char>, mapping: Map<u64, u64>)
    requires
        run.len() > 0,
        all_digits(run),
    ensures
        rewrite(run, mapping) == rewrite_run(run, mapping),
{
    lemma_digit_run_is(run, run.len() as int);
    assert(run.take(run.len() as int) =~= run);
    assert(run.skip(run.len() as int) =~= Seq::<char>::empty());
    assert(rewrite(Seq::<char>::empty(), mapping) =~= Seq::<char>::empty());
}

/// What stands for a run of digits is a run of digits.
pub proof fn lemma_rewrite_run_digits(run: Seq<char>, mapping: Map<u64, u64>)
    requires
        run.len() > 0,
        all_digits(run),
    ensures
        rewrite_run(run, mapping).len() > 0,
        all_digits(rewrite_run(run, mapping)),
{
    match parse_digits(run) {
        Some(v) => {
            if mapping.contains_key(v) {
                lemma_decimal_round_trip(mapping[v] as nat);
            }
        },
        None => {},
    }
}

/// Every maximal run of digits is rewritten where it stands, by itself: the
/// text before it and the text after it are rewritten as if they stood alone.
pub proof fn lemma_rewrite_around_run(
    a: Seq<char>,
    run: Seq<char>,
    b: Seq<char>,
    mapping: Map<u64, u64>,
)
    requires
        run.len() > 0,
        all_digits(run),
        a.len() == 0 || !is_digit(a.last()),
        b.len() == 0 || !is_digit(b[0]),
    ensures
        rewrite(a + run + b, mapping) == rewrite(a, mapping) + rewrite_run(run, mapping) + rewrite(
            b,
            mapping,
        ),
{
    assert(a + run + b =~= a + (run + b));
    lemma_rewrite_concat(a, run + b, mapping);
    lemma_rewrite_concat(run, b, mapping);
    lemma_rewrite_all_digits(run, mapping);
}

/// A run of digits whose value is no key of the mapping stays as it is.
pub proof fn lemma_run_without_key(run: Seq<char>, mapping: Map<u64, u64>)
    requires
        parse_digits(run) is Some ==> !mapping.contains_key(parse_digits(run).unwrap()),
    ensures
        rewrite_run(run, mapping) == run,
{
}

/// Rewriting through the empty mapping changes nothing.
pub proof fn lemma_rewrite_empty_mapping(s: Seq<char>)
    ensures
        rewrite(s, Map::empty()) == s,
    decreases s.len(),
{
    if s.len() > 0 {
        lemma_digit_run(s);
        let n = digit_run(s) as int;
        if n == 0 {
            lemma_rewrite_empty_mapping(s.skip(1));
        } else {
            lemma_rewrite_empty_mapping(s.skip(n));
        }
    }
}

/// The characters of `s` that are no digits, in order.
pub open spec fn other_characters(s: Seq<char>) -> Seq<char> {
    s.filter(|c: char| !is_digit(c))
}

proof fn lemma_other_characters_concat(a: Seq<char>, b: Seq<char>)
    ensures
        other_characters(a + b) == other_characters(a) + other_characters(b),
{
    Seq::filter_distributes_over_add(a, b, |c: char| !is_digit(c));
}

proof fn lemma_other_characters_of_digits(d: Seq<char>)
    requires
        all_digits(d),
    ensures
        other_characters(d) == Seq::<char>::empty(),
    decreases d.len(),
{
    reveal(Seq::filter);
    if d.len() > 0 {
        lemma_other_characters_of_digits(d.drop_last());
    }
}

/// Rewriting keeps the characters that are no digits: all of them, no other,
/// and in their order.
pub proof fn lemma_rewrite_keeps_other_characters(s: Seq<char>, mapping: Map<u64, u64>)
    ensures
        other_characters(rewrite(s, mapping)) == other_characters(s),
    decreases s.len(),
{
    if s.len() > 0 {
        lemma_digit_run(s);
        let n = digit_run(s) as int;
        if n == 0 {
            let head = seq![s[0]];
            lemma_rewrite_keeps_other_characters(s.skip(1), mapping);
            lemma_other_characters_concat(head, rewrite(s.skip(1), mapping));
            lemma_other_characters_concat(head, s.skip(1));
            assert(head + s.skip(1) =~= s);
        } else {
            let run = s.take(n);
            lemma_rewrite_keeps_other_characters(s.skip(n), mapping);
            lemma_rewrite_run_digits(run, mapping);
            lemma_other_characters_of_digits(run);
            lemma_other_characters_of_digits(rewrite_run(run, mapping));
            lemma_other_characters_concat(rewrite_run(run, mapping), rewrite(s.skip(n), mapping));
            lemma_other_characters_concat(run, s.skip(n));
            assert(run + s.skip(n) =~= s);
        }
    }
}

/// A rewritten text begins as the text does: with a digit, or with the same
/// character.
pub proof fn lemma_rewrite_first(s: Seq<char>, mapping: Map<u64, u64>)
    requires
        s.len() > 0,
    ensures
        rewrite(s, mapping).len() > 0,
        is_digit(s[0]) ==> is_digit(rewrite(s, mapping)[0]),
        !is_digit(s[0]) ==> rewrite(s, mapping) == seq![s[0]] + rewrite(s.skip(1), mapping),
{
    lemma_digit_run(s);
    let n = digit_run(s) as int;
    if n > 0 {
        lemma_rewrite_run_digits(s.take(n), mapping);
    }
}

/// A rewritten text ends as the text does: with a digit, or with the same
/// character.
pub proof fn lemma_rewrite_last(s: Seq<char>, mapping: Map<u64, u64>)
    requires
        s.len() > 0,
    ensures
        rewrite(s, mapping).len() > 0,
        is_digit(s.last()) ==> is_digit(rewrite(s, mapping).last()),
        !is_digit(s.last()) ==> rewrite(s, mapping) == rewrite(s.drop_last(), mapping).push(
            s.last(),
        ),
    decreases s.len(),
{
    lemma_rewrite_first(s, mapping);
    if !is_digit(s.last()) {
        let one = seq![s.last()];
        assert(s =~= s.drop_last() + one);
        lemma_rewrite_concat(s.drop_last(), one, mapping);
        assert(one.skip(1) =~= Seq::<char>::empty());
        assert(rewrite(Seq::<char>::empty(), mapping) =~= Seq::<char>::empty());
    } else {
        lemma_digit_run(s);
        let n = digit_run(s) as int;
        if n == 0 {
            lemma_rewrite_last(s.skip(1), mapping);
        } else if n == s.len() {
            lemma_rewrite_run_digits(s.take(n), mapping);
            assert(s.skip(n) =~= Seq::<char>::empty());
            assert(rewrite(Seq::<char>::empty(), mapping) =~= Seq::<char>::empty());
        } else {
            lemma_rewrite_last(s.skip(n), mapping);
        }
    }
}

/// Rewriting brings in no character that is no digit.
pub proof fn lemma_rewrite_keeps_absent(s: Seq<char>, mapping: Map<u64, u64>, c: char)
    requires
        !is_digit(c),
        forall|i: int| 0 <= i < s.len() ==> s[i] != c,
    ensures
        forall|i: int| 0 <= i < rewrite(s, mapping).len() ==> rewrite(s, mapping)[i] != c,
    decreases s.len(),
{
    if s.len() > 0 {
        lemma_digit_run(s);
        let n = digit_run(s) as int;
        if n == 0 {
            let rest = s.skip(1);
            assert forall|i: int| 0 <= i < rest.len() implies rest[i] != c by {
                assert(rest[i] == s[i + 1]);
            }
            lemma_rewrite_keeps_absent(rest, mapping, c);
            let tail = rewrite(rest, mapping);
            assert forall|i: int| 0 <= i < rewrite(s, mapping).len() implies rewrite(
                s,
                mapping,
            )[i] != c by {
                if i > 0 {
                    assert(rewrite(s, mapping)[i] == tail[i - 1]);
                }
            }
        } else {
            let rest = s.skip(n);
            let out = rewrite_run(s.take(n), mapping);
            assert forall|i: int| 0 <= i < rest.len() implies rest[i] != c by {
                assert(rest[i] == s[i + n]);
            }
            lemma_rewrite_keeps_absent(rest, mapping, c);
            lemma_rewrite_run_digits(s.take(n), mapping);
            assert forall|i: int| 0 <= i < rewrite(s, mapping).len() implies rewrite(
                s,
                mapping,
            )[i] != c by {
                if i < out.len() {
                    assert(is_digit(out[i]));
                } else {
                    assert(rewrite(s, mapping)[i] == rewrite(rest, mapping)[i - out.len()]);
                }
            }
        }
    }
}

} // verus!
