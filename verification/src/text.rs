//! Lines and whitespace: what a block of text is split into, and what stays of a
//! line once the whitespace around it is removed.

use vstd::prelude::*;

verus! {

/// Whether `c` is one of the code points with the Unicode `White_Space` property.
pub open spec fn is_whitespace(c: char) -> bool {
    let u = c as u32;
    ||| 0x09 <= u <= 0x0D
    ||| u == 0x20
    ||| u == 0x85
    ||| u == 0xA0
    ||| u == 0x1680
    ||| 0x2000 <= u <= 0x200A
    ||| u == 0x2028
    ||| u == 0x2029
    ||| u == 0x202F
    ||| u == 0x205F
    ||| u == 0x3000
}

/// Tells whether `c` is whitespace.
pub fn char_is_whitespace(c: char) -> (b: bool)
    ensures
        b == is_whitespace(c),
{
    let u: u32 = c as u32;
    (0x09 <= u && u <= 0x0D) || u == 0x20 || u == 0x85 || u == 0xA0 || u == 0x1680 || (0x2000 <= u
        && u <= 0x200A) || u == 0x2028 || u == 0x2029 || u == 0x202F || u == 0x205F || u == 0x3000
}

/// `s` without the whitespace at its start.
pub open spec fn trim_start(s: Seq<char>) -> Seq<char>
    decreases s.len(),
{
    if s.len() > 0 && is_whitespace(s[0]) {
        trim_start(s.drop_first())
    } else {
        s
    }
}

/// `s` without the whitespace at its end.
pub open spec fn trim_end(s: Seq<char>) -> Seq<char>
    decreases s.len(),
{
    if s.len() > 0 && is_whitespace(s.last()) {
        trim_end(s.drop_last())
    } else {
        s
    }
}

/// `s` without the whitespace around it.
pub open spec fn trim(s: Seq<char>) -> Seq<char> {
    trim_end(trim_start(s))
}

/// Whether `s` holds whitespace only.
pub open spec fn is_blank(s: Seq<char>) -> bool {
    forall|i: int| 0 <= i < s.len() ==> is_whitespace(#[trigger] s[i])
}

/// What one more character does to a text trimmed at its start: it is appended,
/// unless all that came before it was whitespace and it is whitespace too.
pub proof fn lemma_trim_start_push(s: Seq<char>, c: char)
    ensures
        trim_start(s.push(c)) == if trim_start(s).len() == 0 && is_whitespace(c) {
            Seq::<char>::empty()
        } else {
            trim_start(s).push(c)
        },
    decreases s.len(),
{
    if s.len() == 0 {
        assert(s.push(c).drop_first() =~= Seq::<char>::empty());
        assert(s.push(c) =~= Seq::<char>::empty().push(c));
        assert(trim_start(s) =~= Seq::<char>::empty());
        reveal_with_fuel(trim_start, 2);
    } else if is_whitespace(s[0]) {
        assert(s.push(c).drop_first() =~= s.drop_first().push(c));
        lemma_trim_start_push(s.drop_first(), c);
    } else {
    }
}

/// Whitespace appended to a text is trimmed away again.
pub proof fn lemma_trim_end_blank_suffix(s: Seq<char>, w: Seq<char>)
    requires
        is_blank(w),
    ensures
        trim_end(s + w) == trim_end(s),
    decreases w.len(),
{
    if w.len() == 0 {
        assert(s + w =~= s);
    } else {
        assert((s + w).last() == w.last());
        assert((s + w).drop_last() =~= s + w.drop_last());
        lemma_trim_end_blank_suffix(s, w.drop_last());
    }
}

/// Whitespace in front of a text is trimmed away.
pub proof fn lemma_trim_start_blank_prefix(w: Seq<char>, s: Seq<char>)
    requires
        is_blank(w),
    ensures
        trim_start(w + s) == trim_start(s),
    decreases w.len(),
{
    if w.len() == 0 {
        assert(w + s =~= s);
    } else {
        assert((w + s)[0] == w[0]);
        assert((w + s).drop_first() =~= w.drop_first() + s);
        lemma_trim_start_blank_prefix(w.drop_first(), s);
    }
}

/// What follows a text that is not blank is untouched when the text is trimmed
/// at its start.
pub proof fn lemma_trim_start_keeps_suffix(s: Seq<char>, t: Seq<char>)
    requires
        !is_blank(s),
    ensures
        trim_start(s + t) == trim_start(s) + t,
    decreases s.len(),
{
    assert(s.len() > 0);
    assert((s + t)[0] == s[0]);
    if is_whitespace(s[0]) {
        let rest = s.drop_first();
        assert((s + t).drop_first() =~= rest + t);
        if is_blank(rest) {
            assert forall|i: int| 0 <= i < s.len() implies is_whitespace(#[trigger] s[i]) by {
                if i > 0 {
                    assert(s[i] == rest[i - 1]);
                }
            }
        }
        lemma_trim_start_keeps_suffix(rest, t);
    }
}

/// A line that holds whitespace only has the empty key.
pub proof fn lemma_trim_blank(line: Seq<char>)
    requires
        is_blank(line),
    ensures
        trim(line) == Seq::<char>::empty(),
{
    lemma_trim_start_blank_prefix(line, Seq::empty());
    assert(line + Seq::<char>::empty() =~= line);
}

/// Whitespace before and after a line does not change its key.
pub proof fn lemma_trim_ignores_padding(lead: Seq<char>, line: Seq<char>, tail: Seq<char>)
    requires
        is_blank(lead),
        is_blank(tail),
    ensures
        trim(lead + line + tail) == trim(line),
{
    assert(lead + line + tail =~= lead + (line + tail));
    lemma_trim_start_blank_prefix(lead, line + tail);
    if is_blank(line) {
        lemma_trim_blank(line);
        assert(is_blank(line + tail)) by {
            assert forall|i: int| 0 <= i < (line + tail).len() implies is_whitespace(
                #[trigger] (line + tail)[i],
            ) by {
                if i < line.len() {
                    assert((line + tail)[i] == line[i]);
                } else {
                    assert((line + tail)[i] == tail[i - line.len()]);
                }
            }
        }
        lemma_trim_blank(line + tail);
    } else {
        lemma_trim_start_keeps_suffix(line, tail);
        lemma_trim_end_blank_suffix(trim_start(line), tail);
    }
}

/// The text of `s` without the whitespace around it.
pub fn trimmed(s: &str) -> (key: String)
    ensures
        key@ == trim(s@),
{
    let mut key = String::new();
    let mut pending = String::new();
    for c in it: s.chars()
        invariant
            it.seq() == s@,
            key@ + pending@ == trim_start(s@.take(it.index() as int)),
            is_blank(pending@),
            key@.len() == 0 || !is_whitespace(key@.last()),
            key@.len() == 0 ==> pending@.len() == 0,
    {
        let ghost before = key@ + pending@;
        proof {
            let p = s@.take(it.index() as int);
            assert(s@.take(it.index() + 1) =~= p.push(c));
            lemma_trim_start_push(p, c);
        }
        if char_is_whitespace(c) {
            if !key.as_str().is_empty() {
                pending.push(c);
            }
        } else {
            key.append(pending.as_str());
            key.push(c);
            pending = String::new();
        }
        assert(key@ + pending@ =~= if before.len() == 0 && is_whitespace(c) {
            Seq::<char>::empty()
        } else {
            before.push(c)
        });
    }
    proof {
        assert(s@.take(s@.len() as int) =~= s@);
        lemma_trim_end_blank_suffix(key@, pending@);
    }
    key
}

/// Index of the first line feed in `s`, or the length of `s` where it holds none.
pub open spec fn line_end(s: Seq<char>) -> int
    decreases s.len(),
{
    if s.len() == 0 || s[0] == '\n' {
        0
    } else {
        1 + line_end(s.drop_first())
    }
}

/// A line as it is handed out once its line feed is gone: a carriage return that
/// stood before the line feed goes with it.
pub open spec fn strip_cr(line: Seq<char>) -> Seq<char> {
    if line.len() > 0 && line.last() == '\r' {
        line.drop_last()
    } else {
        line
    }
}

/// The lines of `s`. A line ends at a line feed, or at a carriage return followed
/// by a line feed; neither belongs to the line. The last line need not be
/// terminated, and no empty line follows a final terminator.
pub open spec fn lines(s: Seq<char>) -> Seq<Seq<char>>
    decreases s.len(),
{
    if s.len() == 0 {
        Seq::empty()
    } else {
        let end = line_end(s);
        if 0 <= end < s.len() {
            seq![strip_cr(s.take(end))] + lines(s.skip(end + 1))
        } else {
            seq![s]
        }
    }
}

/// Whether `s` holds no line feed.
pub open spec fn has_no_line_feed(s: Seq<char>) -> bool {
    forall|j: int| 0 <= j < s.len() ==> #[trigger] s[j] != '\n'
}

/// Whether a line can start right after `s`: `s` is empty or ends with a line feed.
pub open spec fn ends_lines(s: Seq<char>) -> bool {
    s.len() == 0 || s.last() == '\n'
}

/// `line_end` lies within `s`, no line feed stands before it, and one stands at it
/// unless it is the end of `s`.
pub proof fn lemma_line_end(s: Seq<char>)
    ensures
        0 <= line_end(s) <= s.len(),
        forall|j: int| 0 <= j < line_end(s) ==> #[trigger] s[j] != '\n',
        line_end(s) < s.len() ==> s[line_end(s)] == '\n',
    decreases s.len(),
{
    if s.len() == 0 || s[0] == '\n' {
    } else {
        let rest = s.drop_first();
        lemma_line_end(rest);
        assert forall|j: int| 0 <= j < line_end(s) implies #[trigger] s[j] != '\n' by {
            if j > 0 {
                assert(s[j] == rest[j - 1]);
            }
        }
        if line_end(s) < s.len() {
            assert(s[line_end(s)] == rest[line_end(rest)]);
        }
    }
}

/// The position that `lemma_line_end` describes is the only one of its kind.
pub proof fn lemma_line_end_is(s: Seq<char>, k: int)
    requires
        0 <= k <= s.len(),
        forall|j: int| 0 <= j < k ==> #[trigger] s[j] != '\n',
        k < s.len() ==> s[k] == '\n',
    ensures
        line_end(s) == k,
{
    lemma_line_end(s);
    let e = line_end(s);
    if e < k {
        assert(s[e] != '\n');
    } else if k < e {
        assert(s[k] != '\n');
    }
}

/// A text without a line feed, if not empty, is one line.
pub proof fn lemma_lines_unterminated(l: Seq<char>)
    requires
        l.len() > 0,
        has_no_line_feed(l),
    ensures
        lines(l) == seq![l],
{
    lemma_line_end_is(l, l.len() as int);
}

/// A text whose only line feed is its last character is one line.
pub proof fn lemma_lines_terminated(l: Seq<char>)
    requires
        has_no_line_feed(l),
    ensures
        lines(l.push('\n')) == seq![strip_cr(l)],
{
    let s = l.push('\n');
    assert forall|j: int| 0 <= j < l.len() implies #[trigger] s[j] != '\n' by {
        assert(s[j] == l[j]);
    }
    let n = l.len() as int;
    lemma_line_end_is(s, n);
    assert(s.take(n) =~= l);
    assert(s.skip(n + 1) =~= Seq::<char>::empty());
    assert(lines(s.skip(n + 1)) =~= Seq::<Seq<char>>::empty());
    assert(seq![strip_cr(l)] + Seq::<Seq<char>>::empty() =~= seq![strip_cr(l)]);
}

/// Where `a` ends with a line feed or is empty, the lines of `a` followed by `b`
/// are the lines of `a`, then those of `b`.
pub proof fn lemma_lines_concat(a: Seq<char>, b: Seq<char>)
    requires
        ends_lines(a),
    ensures
        lines(a + b) == lines(a) + lines(b),
    decreases a.len(),
{
    if a.len() == 0 {
        assert(a + b =~= b);
        assert(lines(a) + lines(b) =~= lines(b));
    } else {
        lemma_line_end(a);
        let e = line_end(a);
        if e == a.len() {
            assert(a[a.len() - 1] != '\n');
        }
        let s = a + b;
        assert forall|j: int| 0 <= j < e implies #[trigger] s[j] != '\n' by {
            assert(s[j] == a[j]);
        }
        assert(s[e] == a[e]);
        lemma_line_end_is(s, e);
        assert(s.take(e) =~= a.take(e));
        assert(s.skip(e + 1) =~= a.skip(e + 1) + b);
        let rest = a.skip(e + 1);
        if rest.len() > 0 {
            assert(rest.last() == a.last());
        }
        lemma_lines_concat(rest, b);
        assert(lines(s) =~= lines(a) + lines(b));
    }
}

/// Whether the last line of `a` runs on into `b` when `b` is put behind `a`.
pub open spec fn runs_on(a: Seq<char>, b: Seq<char>) -> bool {
    !ends_lines(a) && b.len() > 0
}

/// `a` followed by `b` has as many lines as `a` and `b` have together, less one
/// where the last line of `a` runs on into `b`.
pub proof fn lemma_lines_len_concat(a: Seq<char>, b: Seq<char>)
    ensures
        lines(a + b).len() == lines(a).len() + lines(b).len() - if runs_on(a, b) {
            1int
        } else {
            0int
        },
    decreases a.len(),
{
    let s = a + b;
    if a.len() == 0 {
        assert(s =~= b);
    } else if b.len() == 0 {
        assert(s =~= a);
    } else {
        lemma_line_end(a);
        let e = line_end(a);
        assert forall|j: int| 0 <= j < e implies #[trigger] s[j] != '\n' by {
            assert(s[j] == a[j]);
        }
        if e < a.len() {
            assert(s[e] == a[e]);
            lemma_line_end_is(s, e);
            let rest = a.skip(e + 1);
            assert(s.skip(e + 1) =~= rest + b);
            if rest.len() > 0 {
                assert(rest.last() == a.last());
            }
            lemma_lines_len_concat(rest, b);
        } else {
            assert(a[a.len() - 1] != '\n');
            lemma_line_end(b);
            let f = line_end(b);
            assert forall|j: int| 0 <= j < a.len() + f implies #[trigger] s[j] != '\n' by {
                if j < a.len() {
                    assert(s[j] == a[j]);
                } else {
                    assert(s[j] == b[j - a.len()]);
                }
            }
            if f < b.len() {
                assert(s[a.len() + f] == b[f]);
                assert(s.skip(a.len() + f + 1) =~= b.skip(f + 1));
            }
            lemma_line_end_is(s, a.len() + f);
        }
    }
}

/// The carriage return that `split_lines` holds back while it waits to see
/// whether a line feed follows.
spec fn held(cr: bool) -> Seq<char> {
    if cr {
        seq!['\r']
    } else {
        Seq::empty()
    }
}

/// Splits `text` into its lines.
pub fn split_lines(text: &str) -> (result: Vec<String>)
    ensures
        result.deep_view() == lines(text@),
{
    let mut done: Vec<String> = Vec::new();
    let mut cur = String::new();
    let mut cr = false;
    let ghost mut start: int = 0;
    assert(text@.take(0) =~= Seq::<char>::empty());
    assert(done.deep_view() =~= lines(text@.take(0)));
    for c in it: text.chars()
        invariant
            it.seq() == text@,
            0 <= start <= it.index(),
            ends_lines(text@.take(start)),
            has_no_line_feed(text@.subrange(start, it.index() as int)),
            done.deep_view() == lines(text@.take(start)),
            cur@ + held(cr) == text@.subrange(start, it.index() as int),
            cur@.len() == 0 || cur@.last() != '\r' || cr,
    {
        let ghost i = it.index() as int;
        let ghost line = text@.subrange(start, i);
        if c == '\n' {
            proof {
                let a = text@.take(start);
                assert(text@.take(i + 1) =~= a + line.push('\n'));
                lemma_lines_terminated(line);
                lemma_lines_concat(a, line.push('\n'));
                assert(strip_cr(line) =~= cur@);
                assert(done.deep_view().push(cur@) =~= lines(a) + seq![cur@]);
            }
            let ghost before = done.deep_view();
            done.push(cur);
            assert(done.deep_view() =~= before.push(cur@));
            cur = String::new();
            cr = false;
            proof {
                start = i + 1;
                assert(text@.subrange(start, i + 1) =~= Seq::<char>::empty());
            }
        } else {
            if cr {
                cur.push('\r');
            }
            if c == '\r' {
                cr = true;
            } else {
                cur.push(c);
                cr = false;
            }
            proof {
                assert(text@.subrange(start, i + 1) =~= line.push(c));
                assert(cur@ + held(cr) =~= line.push(c));
            }
        }
    }
    let ghost a = text@.take(start);
    let ghost line = text@.subrange(start, text@.len() as int);
    if cr {
        cur.push('\r');
    }
    assert(cur@ =~= line);
    assert(text@ =~= a + line);
    if !cur.as_str().is_empty() {
        proof {
            lemma_lines_unterminated(line);
            lemma_lines_concat(a, line);
        }
        let ghost before = done.deep_view();
        done.push(cur);
        assert(done.deep_view() =~= before.push(line));
        assert(before.push(line) =~= lines(a) + seq![line]);
    } else {
        assert(a + line =~= a);
    }
    done
}

/// `String::push` appends one character to the string and leaves the characters
/// before it as they were.
pub assume_specification[ String::push ](s: &mut String, ch: char)
    ensures
        final(s)@ == old(s)@.push(ch),
;

} // verus!
