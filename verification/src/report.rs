//! The report writer: the text that records, label by label, how often each key
//! was counted.

use crate::frequency::FrequencyMap;
use crate::labels::{key_label, label_of};
use vstd::multiset::*;
use vstd::prelude::*;

verus! {

/// The character that stands for the digit `d`.
pub open spec fn digit_char(d: nat) -> char {
    ('0' as u32 + d) as char
}

/// `n` written in decimal, without leading zeros.
pub open spec fn decimal(n: nat) -> Seq<char>
    decreases n,
{
    if n < 10 {
        seq![digit_char(n)]
    } else {
        decimal(n / 10).push(digit_char(n % 10))
    }
}

/// The line of the report that gives `count` for the key labelled `label`.
pub open spec fn entry_text(label: char, count: nat) -> Seq<char> {
    seq!['"', label, '"', ':', ' ', '"'] + decimal(count) + seq!['"', ',', '\n']
}

/// The lines of the report: one for each key of `keys` that has a label, in the
/// order of `keys`, with the count that `tally` holds for it.
pub open spec fn entries_text(keys: Seq<Seq<char>>, tally: Multiset<Seq<char>>) -> Seq<char>
    decreases keys.len(),
{
    if keys.len() == 0 {
        Seq::empty()
    } else {
        let key = keys.last();
        entries_text(keys.drop_last(), tally) + match label_of(key) {
            Some(label) => entry_text(label, tally.count(key)),
            None => Seq::empty(),
        }
    }
}

/// The report: an opening brace on a line of its own, the entries, a closing
/// brace.
pub open spec fn report_text(keys: Seq<Seq<char>>, tally: Multiset<Seq<char>>) -> Seq<char> {
    seq!['{', '\n'] + entries_text(keys, tally) + seq!['}']
}

/// The keys of `keys` that have no label, in the order of `keys`.
pub open spec fn unknown_keys(keys: Seq<Seq<char>>) -> Seq<Seq<char>>
    decreases keys.len(),
{
    if keys.len() == 0 {
        Seq::empty()
    } else if label_of(keys.last()) is None {
        unknown_keys(keys.drop_last()).push(keys.last())
    } else {
        unknown_keys(keys.drop_last())
    }
}

/// The keys of `keys` that have a label, in the order of `keys`.
pub open spec fn known_keys(keys: Seq<Seq<char>>) -> Seq<Seq<char>>
    decreases keys.len(),
{
    if keys.len() == 0 {
        Seq::empty()
    } else if label_of(keys.last()) is Some {
        known_keys(keys.drop_last()).push(keys.last())
    } else {
        known_keys(keys.drop_last())
    }
}

/// A key without a label leaves no trace in the report, however often it was
/// counted: the report is the one that the labelled keys alone would give, and
/// it does not depend on the count of any other key.
pub proof fn lemma_unknown_keys_excluded(
    keys: Seq<Seq<char>>,
    tally: Multiset<Seq<char>>,
    other: Multiset<Seq<char>>,
)
    requires
        forall|k: Seq<char>| label_of(k) is Some ==> tally.count(k) == other.count(k),
    ensures
        report_text(keys, tally) == report_text(known_keys(keys), other),
        forall|i: int| 0 <= i < known_keys(keys).len() ==> label_of(#[trigger] known_keys(keys)[i]) is Some,
{
    lemma_entries_of_known_keys(keys, tally, other);
    lemma_known_keys(keys);
}

proof fn lemma_known_keys(keys: Seq<Seq<char>>)
    ensures
        forall|i: int| 0 <= i < known_keys(keys).len() ==> label_of(#[trigger] known_keys(keys)[i]) is Some,
    decreases keys.len(),
{
    if keys.len() > 0 {
        lemma_known_keys(keys.drop_last());
    }
}

proof fn lemma_entries_of_known_keys(
    keys: Seq<Seq<char>>,
    tally: Multiset<Seq<char>>,
    other: Multiset<Seq<char>>,
)
    requires
        forall|k: Seq<char>| label_of(k) is Some ==> tally.count(k) == other.count(k),
    ensures
        entries_text(keys, tally) == entries_text(known_keys(keys), other),
    decreases keys.len(),
{
    if keys.len() > 0 {
        let init = keys.drop_last();
        lemma_entries_of_known_keys(init, tally, other);
        if label_of(keys.last()) is Some {
            let known = known_keys(init).push(keys.last());
            assert(known.drop_last() =~= known_keys(init));
        } else {
            assert(entries_text(init, tally) + Seq::<char>::empty() =~= entries_text(init, tally));
        }
    }
}

/// The decimal digit `d` as a character.
fn digit(d: u64) -> (c: char)
    requires
        d < 10,
    ensures
        c == digit_char(d as nat),
{
    (48u8 + d as u8) as char
}

/// Appends `n`, written in decimal, to `out`.
pub fn push_decimal(out: &mut String, n: u64)
    ensures
        final(out)@ == old(out)@ + decimal(n as nat),
{
    let mut low: Vec<char> = Vec::new();
    let mut rest = n;
    assert(decimal(rest as nat) + low@.reverse() =~= decimal(n as nat));
    while rest >= 10
        invariant
            decimal(rest as nat) + low@.reverse() == decimal(n as nat),
        decreases rest,
    {
        let ghost before = low@;
        low.push(digit(rest % 10));
        assert(decimal((rest / 10) as nat) + low@.reverse() =~= decimal(rest as nat)
            + before.reverse());
        rest = rest / 10;
    }
    out.push(digit(rest));
    let mut k: usize = low.len();
    assert(low@.reverse().take(0) =~= Seq::<char>::empty());
    while k > 0
        invariant
            k <= low.len(),
            rest < 10,
            decimal(rest as nat) + low@.reverse() == decimal(n as nat),
            out@ == old(out)@ + decimal(rest as nat) + low@.reverse().take(low.len() - k),
        decreases k,
    {
        k -= 1;
        out.push(low[k]);
        assert(low@.reverse().take(low.len() - k) =~= low@.reverse().take(low.len() - k - 1).push(
            low[k as int],
        ));
    }
    assert(low@.reverse().take(low.len() as int) =~= low@.reverse());
    assert(out@ =~= old(out)@ + decimal(n as nat));
}

/// What is written out for a frequency map: the report itself, and the keys that
/// were left out of it because the table has no label for them.
#[derive(Debug)]
pub struct Report {
    pub text: String,
    pub unknown: Vec<String>,
}

/// Renders the report for `counts`. Every key with a label gets one line, in the
/// order in which the keys were first counted; every other key is listed as
/// unknown.
pub fn render(counts: &FrequencyMap) -> (report: Report)
    ensures
        report.text@ == report_text(counts.keys(), counts@),
        report.unknown.deep_view() == unknown_keys(counts.keys()),
{
    let mut text = String::new();
    let mut unknown: Vec<String> = Vec::new();
    text.push('{');
    text.push('\n');
    let n = counts.len();
    let mut i: usize = 0;
    let ghost keys = counts.keys();
    assert(keys.take(0) =~= Seq::<Seq<char>>::empty());
    assert(text@ =~= seq!['{', '\n'] + entries_text(keys.take(0), counts@));
    assert(unknown.deep_view() =~= unknown_keys(keys.take(0)));
    while i < n
        invariant
            i <= n,
            n == keys.len(),
            keys == counts.keys(),
            text@ == seq!['{', '\n'] + entries_text(keys.take(i as int), counts@),
            unknown.deep_view() == unknown_keys(keys.take(i as int)),
        decreases n - i,
    {
        let key = counts.key(i);
        let ghost before = text@;
        let ghost listed = unknown.deep_view();
        proof {
            assert(keys.take(i + 1).drop_last() =~= keys.take(i as int));
            assert(keys.take(i + 1).last() == key@);
        }
        match key_label(key) {
            Some(label) => {
                let count = counts.count(i);
                text.push('"');
                text.push(label);
                text.push('"');
                text.push(':');
                text.push(' ');
                text.push('"');
                push_decimal(&mut text, count);
                text.push('"');
                text.push(',');
                text.push('\n');
                assert(text@ =~= before + entry_text(label, count as nat));
            },
            None => {
                unknown.push(key.to_owned());
                assert(unknown.deep_view() =~= listed.push(key@));
            },
        }
        i += 1;
    }
    assert(keys.take(n as int) =~= keys);
    text.push('}');
    assert(text@ =~= report_text(keys, counts@));
    Report { text, unknown }
}

/// The diagnostic for a key that the table has no label for.
pub fn unknown_keycode_message(code: &str) -> (message: String)
    ensures
        message@ == "Unknown keycode "@ + code@,
{
    let mut message = "Unknown keycode ".to_owned();
    message.append(code);
    message
}

} // verus!
