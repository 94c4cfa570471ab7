//! Counting the lines of a text, part by part, and folding the partial counts
//! into one map.

use crate::frequency::{count_keys, keys_added, FrequencyMap};
use crate::partition::{
    can_partition, checked_split, part_bytes, part_end, partition, partition_fault, PartitionError,
};
use crate::text::{
    ends_lines, lemma_lines_concat, lemma_lines_len_concat, lines, runs_on, split_lines, trim,
};
use vstd::multiset::*;
use vstd::prelude::*;
use vstd::seq_lib::*;
use vstd::string::*;
use vstd::utf8::*;

verus! {

/// The key of each line of `text`: the line without the whitespace around it.
pub open spec fn keys_of(text: Seq<char>) -> Seq<Seq<char>> {
    lines(text).map_values(|line: Seq<char>| trim(line))
}

/// How often each key occurs among the lines of `text`.
pub open spec fn line_tally(text: Seq<char>) -> Multiset<Seq<char>> {
    keys_of(text).to_multiset()
}

/// The keys of `text`, each where it first occurs.
pub open spec fn first_keys(text: Seq<char>) -> Seq<Seq<char>> {
    keys_added(Seq::empty(), keys_of(text))
}

/// The sum of the tallies of `parts`, each part counted by itself.
pub open spec fn merged_tally(parts: Seq<Seq<char>>) -> Multiset<Seq<char>>
    decreases parts.len(),
{
    if parts.len() == 0 {
        Multiset::empty()
    } else {
        merged_tally(parts.drop_last()).add(line_tally(parts.last()))
    }
}

/// The order of the keys after the tallies of `parts` were folded in one by one.
pub open spec fn merged_keys(parts: Seq<Seq<char>>) -> Seq<Seq<char>>
    decreases parts.len(),
{
    if parts.len() == 0 {
        Seq::empty()
    } else {
        keys_added(merged_keys(parts.drop_last()), first_keys(parts.last()))
    }
}

/// Counts the lines of `block` by key.
pub fn count_lines(block: &str) -> (counts: FrequencyMap)
    ensures
        counts@ == line_tally(block@),
        counts.keys() == first_keys(block@),
{
    broadcast use group_multiset_axioms;

    let rows = split_lines(block);
    let ghost keys = keys_of(block@);
    let mut counts = FrequencyMap::new();
    let mut i: usize = 0;
    proof {
        assert(keys.take(0) =~= Seq::<Seq<char>>::empty());
        keys.take(0).to_multiset_ensures();
        assert(keys.take(0).to_multiset() =~= Multiset::<Seq<char>>::empty());
    }
    while i < rows.len()
        invariant
            i <= rows.len(),
            rows.deep_view() == lines(block@),
            keys == keys_of(block@),
            counts@ == keys.take(i as int).to_multiset(),
            counts.keys() == keys_added(Seq::empty(), keys.take(i as int)),
        decreases rows.len() - i,
    {
        proof {
            let seen = keys.take(i as int);
            let next = keys.take(i + 1);
            seen.to_multiset_ensures();
            assert(rows.deep_view()[i as int] == rows[i as int]@);
            assert(next =~= seen.push(trim(rows[i as int]@)));
            assert(next.drop_last() =~= seen);
            assert(seq![trim(rows[i as int]@)].drop_last() =~= Seq::<Seq<char>>::empty());
            reveal_with_fuel(keys_added, 2);
        }
        count_keys(rows[i].as_str(), &mut counts);
        i += 1;
    }
    assert(keys.take(i as int) =~= keys);
    counts
}

/// A text has at most as many lines as characters.
pub proof fn lemma_lines_len(text: Seq<char>)
    ensures
        lines(text).len() <= text.len(),
    decreases text.len(),
{
    if text.len() > 0 {
        let end = crate::text::line_end(text);
        if 0 <= end < text.len() {
            lemma_lines_len(text.skip(end + 1));
        }
    }
}

/// A text has at most as many characters as bytes.
proof fn lemma_chars_len(text: Seq<char>)
    ensures
        text.len() <= encode_utf8(text).len(),
    decreases text.len(),
{
    if text.len() > 0 {
        lemma_chars_len(text.drop_first());
    }
}

/// The tally of `parts` counts no more lines than `parts` hold characters.
proof fn lemma_merged_tally_len(parts: Seq<Seq<char>>)
    ensures
        merged_tally(parts).len() <= parts.flatten().len(),
    decreases parts.len(),
{
    broadcast use group_multiset_axioms;

    if parts.len() == 0 {
    } else {
        let init = parts.drop_last();
        lemma_merged_tally_len(init);
        lemma_lines_len(parts.last());
        keys_of(parts.last()).to_multiset_ensures();
        init.lemma_flatten_push(parts.last());
        assert(init.push(parts.last()) =~= parts);
    }
}

/// The first parts of a text hold no more characters than all of them.
proof fn lemma_flatten_take_len(parts: Seq<Seq<char>>, k: int)
    requires
        0 <= k <= parts.len(),
    ensures
        parts.take(k).flatten().len() <= parts.flatten().len(),
    decreases parts.len() - k,
{
    if k == parts.len() {
        assert(parts.take(k) =~= parts);
    } else {
        lemma_flatten_take_len(parts, k + 1);
        parts.take(k).lemma_flatten_push(parts[k]);
        assert(parts.take(k + 1) =~= parts.take(k).push(parts[k]));
    }
}

/// Whether every part but the last ends where a line ends, so that no line is cut
/// in two.
pub open spec fn line_aligned(parts: Seq<Seq<char>>) -> bool {
    forall|i: int| 0 <= i < parts.len() - 1 ==> ends_lines(#[trigger] parts[i])
}

/// Where `a` ends with a line feed or is empty, counting `a` followed by `b`
/// gives the sum of what counting `a` and counting `b` give.
pub proof fn lemma_tally_concat(a: Seq<char>, b: Seq<char>)
    requires
        ends_lines(a),
    ensures
        keys_of(a + b) == keys_of(a) + keys_of(b),
        line_tally(a + b) == line_tally(a).add(line_tally(b)),
{
    lemma_lines_concat(a, b);
    assert(keys_of(a + b) =~= keys_of(a) + keys_of(b));
    lemma_multiset_commutative(keys_of(a), keys_of(b));
}

/// Counting a block that ends with a line feed twice and adding the counts up
/// gives what counting the block followed by itself gives.
pub proof fn lemma_count_twice(block: Seq<char>)
    requires
        ends_lines(block),
    ensures
        line_tally(block + block) == line_tally(block).add(line_tally(block)),
{
    lemma_tally_concat(block, block);
}

/// Parts that each end where a line ends do so when joined.
proof fn lemma_flatten_ends_lines(parts: Seq<Seq<char>>)
    requires
        forall|i: int| 0 <= i < parts.len() ==> ends_lines(#[trigger] parts[i]),
    ensures
        ends_lines(parts.flatten()),
    decreases parts.len(),
{
    if parts.len() > 0 {
        let init = parts.drop_last();
        assert forall|i: int| 0 <= i < init.len() implies ends_lines(#[trigger] init[i]) by {
            assert(init[i] == parts[i]);
        }
        lemma_flatten_ends_lines(init);
        init.lemma_flatten_push(parts.last());
        assert(init.push(parts.last()) =~= parts);
        if parts.last().len() == 0 {
            assert(init.flatten() + parts.last() =~= init.flatten());
        }
    }
}

/// Where no line is cut in two, counting the parts one by one and adding the
/// counts up gives what counting the joined parts gives.
pub proof fn lemma_merged_tally_aligned(parts: Seq<Seq<char>>)
    requires
        line_aligned(parts),
    ensures
        merged_tally(parts) == line_tally(parts.flatten()),
    decreases parts.len(),
{
    broadcast use group_multiset_axioms;

    if parts.len() == 0 {
        assert(keys_of(parts.flatten()) =~= Seq::<Seq<char>>::empty());
        keys_of(parts.flatten()).to_multiset_ensures();
        assert(line_tally(parts.flatten()) =~= Multiset::<Seq<char>>::empty());
    } else {
        let init = parts.drop_last();
        assert forall|i: int| 0 <= i < init.len() implies ends_lines(#[trigger] init[i]) by {
            assert(init[i] == parts[i]);
        }
        lemma_merged_tally_aligned(init);
        lemma_flatten_ends_lines(init);
        init.lemma_flatten_push(parts.last());
        assert(init.push(parts.last()) =~= parts);
        lemma_tally_concat(init.flatten(), parts.last());
    }
}

/// The totals do not depend on the number of workers: where the parts cut no line
/// in two, the merged counts are those of the whole text counted in one piece.
pub proof fn lemma_tally_independent_of_workers(text: Seq<char>, n: int)
    requires
        n >= 1,
        can_partition(encode_utf8(text), n),
        line_aligned(partition(text, n)),
    ensures
        merged_tally(partition(text, n)) == line_tally(text),
        merged_tally(partition(text, n)) == merged_tally(partition(text, 1)),
{
    broadcast use group_multiset_axioms;

    crate::partition::lemma_partition_round_trip(text, n);
    lemma_merged_tally_aligned(partition(text, n));
    lemma_single_part(text);
}

/// With one worker the only part is the whole text.
pub proof fn lemma_single_part(text: Seq<char>)
    ensures
        can_partition(encode_utf8(text), 1),
        partition(text, 1) == seq![text],
        merged_tally(partition(text, 1)) == line_tally(text),
{
    broadcast use group_multiset_axioms;

    let bytes = encode_utf8(text);
    encode_utf8_valid_utf8(text);
    encode_utf8_decode_utf8(text);
    is_char_boundary_start_end_of_seq(bytes);
    assert(bytes.subrange(0, bytes.len() as int) =~= bytes);
    assert(partition(text, 1) =~= seq![text]);
    assert(seq![text].drop_last() =~= Seq::<Seq<char>>::empty());
    reveal_with_fuel(merged_tally, 2);
    assert(merged_tally(seq![text]) =~= line_tally(text));
}

/// A tally counts as many keys as the text has lines.
pub proof fn lemma_line_tally_len(text: Seq<char>)
    ensures
        line_tally(text).len() == lines(text).len(),
{
    keys_of(text).to_multiset_ensures();
}

/// Counting the parts one by one counts at least as many lines as the joined
/// parts have.
proof fn lemma_merged_tally_counts_all(parts: Seq<Seq<char>>)
    ensures
        lines(parts.flatten()).len() <= merged_tally(parts).len(),
    decreases parts.len(),
{
    broadcast use group_multiset_axioms;

    if parts.len() > 0 {
        let init = parts.drop_last();
        lemma_merged_tally_counts_all(init);
        init.lemma_flatten_push(parts.last());
        assert(init.push(parts.last()) =~= parts);
        lemma_lines_len_concat(init.flatten(), parts.last());
        lemma_line_tally_len(parts.last());
    }
}

/// Where a part ends within a line and the next part is not empty, counting the
/// parts one by one counts more lines than the joined parts have.
proof fn lemma_merged_tally_counts_cut_lines(parts: Seq<Seq<char>>, i: int)
    requires
        0 <= i < parts.len() - 1,
        runs_on(parts[i], parts[i + 1]),
    ensures
        lines(parts.flatten()).len() < merged_tally(parts).len(),
    decreases parts.len(),
{
    broadcast use group_multiset_axioms;

    let init = parts.drop_last();
    init.lemma_flatten_push(parts.last());
    assert(init.push(parts.last()) =~= parts);
    lemma_lines_len_concat(init.flatten(), parts.last());
    lemma_line_tally_len(parts.last());
    if i == parts.len() - 2 {
        lemma_merged_tally_counts_all(init);
        let head = init.drop_last();
        head.lemma_flatten_push(init.last());
        assert(head.push(init.last()) =~= init);
        assert(init.flatten().last() == parts[i].last());
    } else {
        lemma_merged_tally_counts_cut_lines(init, i);
    }
}

/// Counting a block twice and adding the counts up differs from counting the
/// block followed by itself where the block does not end with a line feed: its
/// last line then runs on into its first.
pub proof fn lemma_count_twice_needs_line_feed(block: Seq<char>)
    requires
        !ends_lines(block),
    ensures
        line_tally(block + block) != line_tally(block).add(line_tally(block)),
{
    broadcast use group_multiset_axioms;

    lemma_lines_len_concat(block, block);
    lemma_line_tally_len(block);
    lemma_line_tally_len(block + block);
}

/// The totals do depend on the number of workers where a part ends within a
/// line: the line is then counted as two keys.
pub proof fn lemma_cut_line_changes_totals(text: Seq<char>, n: int)
    requires
        n >= 1,
        can_partition(encode_utf8(text), n),
        !line_aligned(partition(text, n)),
    ensures
        merged_tally(partition(text, n)) != line_tally(text),
{
    let parts = partition(text, n);
    let bytes = encode_utf8(text);
    let len = bytes.len() as int;
    let i = choose|i: int| 0 <= i < parts.len() - 1 && !ends_lines(#[trigger] parts[i]);
    crate::partition::lemma_part_is_text(text, n, i);
    crate::partition::lemma_part_is_text(text, n, i + 1);
    crate::partition::lemma_part_bounds(len, n, i);
    crate::partition::lemma_part_bounds(len, n, i + 1);
    assert(part_bytes(bytes, n, i).len() > 0) by {
        if part_bytes(bytes, n, i).len() == 0 {
            assert(parts[i].len() == 0) by {
                lemma_chars_len(parts[i]);
            }
        }
    }
    let size = len / n;
    assert(size >= 0 && n * size <= len) by (nonlinear_arith)
        requires
            size == len / n,
            n >= 1,
            len >= 0,
    ;
    assert(part_bytes(bytes, n, i).len() == size) by (nonlinear_arith)
        requires
            part_bytes(bytes, n, i).len() == (i + 1) * size - i * size,
    ;
    assert(part_bytes(bytes, n, i + 1).len() >= size) by (nonlinear_arith)
        requires
            part_bytes(bytes, n, i + 1).len() == part_end(len, n, i + 1) - (i + 1) * size,
            part_end(len, n, i + 1) == len || part_end(len, n, i + 1) == (i + 2) * size,
            n * size <= len,
            i + 2 <= n,
            size >= 0,
    ;
    assert(parts[i + 1].len() > 0);
    lemma_merged_tally_counts_cut_lines(parts, i);
    crate::partition::lemma_partition_round_trip(text, n);
    lemma_line_tally_len(text);
}

/// Taking one part out of the parts takes its tally out of the sum.
proof fn lemma_merged_tally_remove(parts: Seq<Seq<char>>, i: int)
    requires
        0 <= i < parts.len(),
    ensures
        merged_tally(parts) == merged_tally(parts.remove(i)).add(line_tally(parts[i])),
    decreases parts.len(),
{
    broadcast use group_multiset_axioms;

    let init = parts.drop_last();
    if i == parts.len() - 1 {
        assert(parts.remove(i) =~= init);
    } else {
        lemma_merged_tally_remove(init, i);
        assert(parts.remove(i).drop_last() =~= init.remove(i));
        assert(parts.remove(i).last() == parts.last());
        assert(merged_tally(parts) =~= merged_tally(parts.remove(i)).add(line_tally(parts[i])));
    }
}

/// The merged counts do not depend on the order in which the partial counts are
/// folded in: the same parts in another order give the same totals.
pub proof fn lemma_merge_order_is_irrelevant(parts: Seq<Seq<char>>, reordered: Seq<Seq<char>>)
    requires
        parts.to_multiset() == reordered.to_multiset(),
    ensures
        merged_tally(parts) == merged_tally(reordered),
    decreases reordered.len(),
{
    broadcast use group_multiset_axioms;

    parts.to_multiset_ensures();
    reordered.to_multiset_ensures();
    if reordered.len() == 0 {
        assert(parts.len() == 0);
    } else {
        let part = reordered.last();
        let last = reordered.len() - 1;
        assert(reordered[last] == part);
        assert(reordered.contains(part));
        assert(reordered.to_multiset().count(part) > 0);
        assert(parts.to_multiset().count(part) > 0);
        assert(parts.contains(part));
        let i = choose|i: int| 0 <= i < parts.len() && parts[i] == part;
        assert(reordered.drop_last() =~= reordered.remove(last));
        assert(parts.remove(i).to_multiset() =~= reordered.remove(last).to_multiset());
        lemma_merged_tally_remove(parts, i);
        lemma_merge_order_is_irrelevant(parts.remove(i), reordered.drop_last());
    }
}

/// Cuts `input` into `num_threads` parts, counts the lines of each part by
/// itself and folds the partial counts, in the order of the parts, into one map.
/// Where the input cannot be cut, nothing is counted.
pub fn tally(input: &str, num_threads: usize) -> (result: Result<FrequencyMap, PartitionError>)
    ensures
        match result {
            Ok(global) => partition_fault(input.spec_bytes(), num_threads as int) is None
                && global@ == merged_tally(partition(input@, num_threads as int))
                && global.keys() == merged_keys(partition(input@, num_threads as int)),
            Err(error) => partition_fault(input.spec_bytes(), num_threads as int) == Some(error),
        },
{
    broadcast use group_multiset_axioms;

    let parts = match checked_split(input, num_threads) {
        Ok(parts) => parts,
        Err(error) => {
            return Err(error);
        },
    };
    let ghost texts = parts.deep_view();
    let mut global = FrequencyMap::new();
    let mut i: usize = 0;
    // No key is counted more often than the input has bytes, so no count
    // outgrows a `u64`.
    let byte_len = input.as_bytes().len();
    proof {
        assert(texts.take(0) =~= Seq::<Seq<char>>::empty());
        lemma_chars_len(input@);
        assert(input@.len() <= byte_len);
    }
    while i < parts.len()
        invariant
            i <= parts.len(),
            texts == parts.deep_view(),
            texts.flatten().len() <= usize::MAX,
            global@ == merged_tally(texts.take(i as int)),
            global.keys() == merged_keys(texts.take(i as int)),
        decreases parts.len() - i,
    {
        let partial = count_lines(parts[i].as_str());
        proof {
            let next = texts.take(i + 1);
            assert(texts[i as int] == parts[i as int]@);
            assert(next.drop_last() =~= texts.take(i as int));
            assert(next.last() == parts[i as int]@);
            lemma_merged_tally_len(next);
            lemma_flatten_take_len(texts, i + 1);
            assert forall|k: Seq<char>| global@.count(k) + partial@.count(k) <= u64::MAX by {
                assert(merged_tally(next).count(k) <= merged_tally(next).len());
            }
        }
        global.merge(&partial);
        i += 1;
    }
    assert(texts.take(i as int) =~= texts);
    Ok(global)
}

} // verus!
