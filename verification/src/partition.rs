//! The partitioner: cuts the input into one contiguous byte range per worker.

use vstd::prelude::*;
use vstd::string::*;
use vstd::utf8::*;

verus! {

/// The byte offset at which part `i` of `n` starts in an input of `len` bytes.
pub open spec fn part_start(len: int, n: int, i: int) -> int {
    i * (len / n)
}

/// The byte offset at which part `i` of `n` ends in an input of `len` bytes. The
/// parts are of equal size, but for the last, which takes the remainder too.
pub open spec fn part_end(len: int, n: int, i: int) -> int {
    if i == n - 1 {
        len
    } else {
        (i + 1) * (len / n)
    }
}

/// The bytes of part `i` of `n`.
pub open spec fn part_bytes(bytes: Seq<u8>, n: int, i: int) -> Seq<u8> {
    bytes.subrange(part_start(bytes.len() as int, n, i), part_end(bytes.len() as int, n, i))
}

/// Whether each of the `n` parts starts where a character starts, so that every
/// part is text again.
pub open spec fn can_partition(bytes: Seq<u8>, n: int) -> bool {
    forall|i: int|
        0 <= i < n ==> is_char_boundary(bytes, #[trigger] part_start(bytes.len() as int, n, i))
}

/// The `n` parts of `text`, each as text.
pub open spec fn partition(text: Seq<char>, n: int) -> Seq<Seq<char>> {
    Seq::new(n as nat, |i: int| decode_utf8(part_bytes(encode_utf8(text), n, i)))
}

/// The parts lie one after the other within the input.
pub proof fn lemma_part_bounds(len: int, n: int, i: int)
    requires
        0 <= len,
        0 <= i < n,
    ensures
        0 <= part_start(len, n, i) <= part_end(len, n, i) <= len,
        i + 1 < n ==> part_end(len, n, i) == part_start(len, n, i + 1),
        part_start(len, n, 0) == 0,
        part_end(len, n, n - 1) == len,
{
    let size = len / n;
    assert(0 <= size && n * size <= len) by (nonlinear_arith)
        requires
            0 <= len,
            0 < n,
            size == len / n,
    ;
    assert(0 <= i * size <= (i + 1) * size && (i + 1) * size <= n * size) by (nonlinear_arith)
        requires
            0 <= i < n,
            0 <= size,
    ;
}

/// The byte ranges of the `n` parts of `bytes`, in order.
pub open spec fn byte_parts(bytes: Seq<u8>, n: int) -> Seq<Seq<u8>> {
    Seq::new(n as nat, |i: int| part_bytes(bytes, n, i))
}

/// The first `k` byte ranges, joined, are the input up to where part `k` starts.
proof fn lemma_joined_byte_prefix(bytes: Seq<u8>, n: int, k: int)
    requires
        0 <= k <= n,
    ensures
        byte_parts(bytes, n).take(k).flatten() == bytes.subrange(
            0,
            if k == 0 {
                0
            } else {
                part_end(bytes.len() as int, n, k - 1)
            },
        ),
    decreases k,
{
    let len = bytes.len() as int;
    let parts = byte_parts(bytes, n);
    if k == 0 {
        assert(parts.take(0) =~= Seq::<Seq<u8>>::empty());
    } else {
        lemma_joined_byte_prefix(bytes, n, k - 1);
        lemma_part_bounds(len, n, k - 1);
        if k >= 2 {
            lemma_part_bounds(len, n, k - 2);
        }
        assert(parts.take(k) =~= parts.take(k - 1).push(parts[k - 1]));
        parts.take(k - 1).lemma_flatten_push(parts[k - 1]);
        assert(bytes.subrange(0, part_start(len, n, k - 1)) + part_bytes(bytes, n, k - 1)
            =~= bytes.subrange(0, part_end(len, n, k - 1)));
    }
}

/// Whatever the input holds, the byte ranges of its parts, joined in order, are
/// the input: no byte is left out and none is taken twice.
pub proof fn lemma_byte_parts_round_trip(bytes: Seq<u8>, n: int)
    requires
        n >= 1,
    ensures
        byte_parts(bytes, n).len() == n,
        byte_parts(bytes, n).flatten() == bytes,
{
    lemma_joined_byte_prefix(bytes, n, n);
    assert(byte_parts(bytes, n).take(n) =~= byte_parts(bytes, n));
    lemma_part_bounds(bytes.len() as int, n, n - 1);
    assert(bytes.subrange(0, bytes.len() as int) =~= bytes);
}

/// A character boundary of a text is one of each stretch of it that runs from
/// an earlier boundary to a later one.
proof fn lemma_boundary_within(bytes: Seq<u8>, a: int, m: int, b: int)
    requires
        valid_utf8(bytes),
        0 <= a <= m <= b <= bytes.len(),
        is_char_boundary(bytes, a),
        is_char_boundary(bytes, m),
        is_char_boundary(bytes, b),
    ensures
        valid_utf8(bytes.subrange(a, b)),
        is_char_boundary(bytes.subrange(a, b), m - a),
{
    let len = bytes.len() as int;
    valid_utf8_split(bytes, b);
    let head = bytes.subrange(0, b);
    if a < b {
        is_char_boundary_iff_not_is_continuation_byte(bytes, a);
        is_char_boundary_iff_not_is_continuation_byte(head, a);
    } else {
        is_char_boundary_start_end_of_seq(head);
    }
    valid_utf8_split(head, a);
    let mid = head.subrange(a, b);
    assert(mid =~= bytes.subrange(a, b));
    if m == a {
    } else if m == b {
        is_char_boundary_start_end_of_seq(mid);
    } else {
        is_char_boundary_iff_not_is_continuation_byte(bytes, m);
        is_char_boundary_iff_not_is_continuation_byte(mid, m - a);
    }
}

/// Text cut at a character boundary decodes piece by piece.
proof fn lemma_decode_within(bytes: Seq<u8>, a: int, m: int, b: int)
    requires
        valid_utf8(bytes),
        0 <= a <= m <= b <= bytes.len(),
        is_char_boundary(bytes, a),
        is_char_boundary(bytes, m),
        is_char_boundary(bytes, b),
    ensures
        decode_utf8(bytes.subrange(a, b)) == decode_utf8(bytes.subrange(a, m)) + decode_utf8(
            bytes.subrange(m, b),
        ),
{
    lemma_boundary_within(bytes, a, m, b);
    let mid = bytes.subrange(a, b);
    decode_utf8_split(mid, m - a);
    assert(mid.subrange(0, m - a) =~= bytes.subrange(a, m));
    assert(mid.subrange(m - a, mid.len() as int) =~= bytes.subrange(m, b));
}

/// Each part of a text is text: it encodes to the bytes of the part.
pub proof fn lemma_part_is_text(text: Seq<char>, n: int, i: int)
    requires
        0 <= i < n,
        can_partition(encode_utf8(text), n),
    ensures
        encode_utf8(partition(text, n)[i]) == part_bytes(encode_utf8(text), n, i),
{
    let bytes = encode_utf8(text);
    let len = bytes.len() as int;
    encode_utf8_valid_utf8(text);
    is_char_boundary_start_end_of_seq(bytes);
    lemma_part_bounds(len, n, i);
    let start = part_start(len, n, i);
    let end = part_end(len, n, i);
    assert(is_char_boundary(bytes, start));
    if i + 1 < n {
        assert(is_char_boundary(bytes, part_start(len, n, i + 1)));
    }
    lemma_boundary_within(bytes, start, start, end);
    decode_utf8_encode_utf8(bytes.subrange(start, end));
}

/// The parts of a text, joined in order, are the text.
pub proof fn lemma_partition_round_trip(text: Seq<char>, n: int)
    requires
        n >= 1,
        can_partition(encode_utf8(text), n),
    ensures
        partition(text, n).len() == n,
        partition(text, n).flatten() == text,
{
    let bytes = encode_utf8(text);
    let len = bytes.len() as int;
    let parts = partition(text, n);
    encode_utf8_valid_utf8(text);
    encode_utf8_decode_utf8(text);
    is_char_boundary_start_end_of_seq(bytes);
    lemma_joined_prefix(text, n, n);
    assert(parts.take(n) =~= parts);
    lemma_part_bounds(len, n, n - 1);
    assert(bytes.subrange(0, len) =~= bytes);
}

/// The first `k` parts of a text, joined, are the text up to where part `k` starts.
proof fn lemma_joined_prefix(text: Seq<char>, n: int, k: int)
    requires
        n >= 1,
        0 <= k <= n,
        can_partition(encode_utf8(text), n),
    ensures
        partition(text, n).take(k).flatten() == decode_utf8(
            encode_utf8(text).subrange(
                0,
                if k == 0 {
                    0
                } else {
                    part_end(encode_utf8(text).len() as int, n, k - 1)
                },
            ),
        ),
    decreases k,
{
    let bytes = encode_utf8(text);
    let len = bytes.len() as int;
    let parts = partition(text, n);
    encode_utf8_valid_utf8(text);
    is_char_boundary_start_end_of_seq(bytes);
    if k == 0 {
        assert(parts.take(0) =~= Seq::<Seq<char>>::empty());
        assert(bytes.subrange(0, 0) =~= Seq::<u8>::empty());
        reveal_with_fuel(decode_utf8, 1);
    } else {
        lemma_joined_prefix(text, n, k - 1);
        lemma_part_bounds(len, n, k - 1);
        if k >= 2 {
            lemma_part_bounds(len, n, k - 2);
        }
        let start = part_start(len, n, k - 1);
        let end = part_end(len, n, k - 1);
        assert(is_char_boundary(bytes, start));
        if k < n {
            assert(end == part_start(len, n, k));
        }
        assert(is_char_boundary(bytes, end));
        lemma_decode_within(bytes, 0, start, end);
        assert(parts.take(k) =~= parts.take(k - 1).push(parts[k - 1]));
        parts.take(k - 1).lemma_flatten_push(parts[k - 1]);
    }
}

/// Tells whether `input` can be cut into `num_threads` parts.
pub fn splits_cleanly(input: &str, num_threads: usize) -> (ok: bool)
    requires
        num_threads >= 1,
    ensures
        ok == can_partition(input.spec_bytes(), num_threads as int),
{
    let len = input.as_bytes().len();
    let size = len / num_threads;
    let ghost bytes = input.spec_bytes();
    let ghost n = num_threads as int;
    proof {
        encode_utf8_valid_utf8(input@);
        is_char_boundary_start_end_of_seq(bytes);
    }
    if size == 0 {
        assert forall|i: int| 0 <= i < n implies part_start(len as int, n, i) == 0 by {
            assert(i * 0 == 0);
        }
        return true;
    }
    let mut i: usize = 1;
    assert(part_start(len as int, n, 0) == 0);
    while i < num_threads
        invariant
            1 <= i <= num_threads,
            n == num_threads,
            bytes == input.spec_bytes(),
            len == bytes.len(),
            size == len / num_threads,
            forall|k: int|
                0 <= k < i ==> is_char_boundary(bytes, #[trigger] part_start(len as int, n, k)),
        decreases num_threads - i,
    {
        proof {
            lemma_part_bounds(len as int, n, i as int);
        }
        if !input.is_char_boundary(i * size) {
            assert(!is_char_boundary(bytes, part_start(len as int, n, i as int)));
            return false;
        }
        i += 1;
    }
    true
}

/// Cuts `input` into `num_threads` contiguous parts of equal size in bytes, the
/// last of which takes the remainder too. Joined in order, the parts are the
/// input.
pub fn split_to_thread_data(input: &str, num_threads: usize) -> (parts: Vec<String>)
    requires
        num_threads >= 1,
        can_partition(input.spec_bytes(), num_threads as int),
    ensures
        parts.deep_view() == partition(input@, num_threads as int),
        parts.deep_view().flatten() == input@,
{
    let len = input.as_bytes().len();
    let size = len / num_threads;
    let ghost bytes = input.spec_bytes();
    let ghost n = num_threads as int;
    let ghost expected = partition(input@, n);
    proof {
        encode_utf8_valid_utf8(input@);
        is_char_boundary_start_end_of_seq(bytes);
        lemma_part_bounds(len as int, n, 0);
        assert(bytes.subrange(0, len as int) =~= bytes);
    }
    let mut parts: Vec<String> = Vec::new();
    let mut rest: &str = input;
    let mut i: usize = 0;
    assert(parts.deep_view() =~= expected.take(0));
    while i < num_threads - 1
        invariant
            i <= num_threads - 1,
            n == num_threads,
            bytes == input.spec_bytes(),
            len == bytes.len(),
            size == len / num_threads,
            valid_utf8(bytes),
            can_partition(bytes, n),
            expected == partition(input@, n),
            rest.spec_bytes() == bytes.subrange(part_start(len as int, n, i as int), len as int),
            parts.deep_view() == expected.take(i as int),
        decreases num_threads - i,
    {
        let ghost start = part_start(len as int, n, i as int);
        let ghost end = part_end(len as int, n, i as int);
        proof {
            lemma_part_bounds(len as int, n, i as int);
            assert(is_char_boundary(bytes, start));
            assert(is_char_boundary(bytes, part_start(len as int, n, i + 1)));
            is_char_boundary_start_end_of_seq(bytes);
            lemma_boundary_within(bytes, start, end, len as int);
            assert(end - start == size) by (nonlinear_arith)
                requires
                    start == i * size,
                    end == (i + 1) * size,
            ;
        }
        let (part, tail) = rest.split_at(size);
        let owned = part.to_owned();
        proof {
            assert(part.spec_bytes() =~= bytes.subrange(start, end));
            assert(tail.spec_bytes() =~= bytes.subrange(end, len as int));
            encode_utf8_decode_utf8(owned@);
            assert(owned@ == expected[i as int]);
        }
        let ghost before = parts.deep_view();
        parts.push(owned);
        assert(parts.deep_view() =~= before.push(owned@));
        assert(expected.take(i + 1) =~= expected.take(i as int).push(expected[i as int]));
        rest = tail;
        i += 1;
    }
    let owned = rest.to_owned();
    proof {
        lemma_part_bounds(len as int, n, n - 1);
        encode_utf8_decode_utf8(owned@);
        assert(owned@ == expected[n - 1]);
    }
    let ghost before = parts.deep_view();
    parts.push(owned);
    proof {
        assert(parts.deep_view() =~= before.push(owned@));
        assert(expected =~= expected.take(n - 1).push(expected[n - 1]));
        lemma_partition_round_trip(input@, n);
    }
    parts
}

/// Why a text cannot be cut into parts.
#[derive(Debug, Clone, Copy, PartialEq, Eq, Structural)]
pub enum PartitionError {
    /// There is no worker to give a part to.
    NoWorkers,
    /// A part would end within the bytes of one character.
    SplitInsideCharacter,
}

impl PartitionError {
    /// The error in words.
    pub fn message(&self) -> (text: &'static str)
        ensures
            text@ == match self {
                PartitionError::NoWorkers => "the number of threads must be at least 1"@,
                PartitionError::SplitInsideCharacter => "a part of the input would end inside a character"@,
            },
    {
        match self {
            PartitionError::NoWorkers => "the number of threads must be at least 1",
            PartitionError::SplitInsideCharacter => "a part of the input would end inside a character",
        }
    }
}

/// What stands in the way of cutting `bytes` into `n` parts, if anything does.
pub open spec fn partition_fault(bytes: Seq<u8>, n: int) -> Option<PartitionError> {
    if n < 1 {
        Some(PartitionError::NoWorkers)
    } else if !can_partition(bytes, n) {
        Some(PartitionError::SplitInsideCharacter)
    } else {
        None
    }
}

/// Cuts `input` into `num_threads` parts where that can be done, and says why
/// where it cannot.
pub fn checked_split(input: &str, num_threads: usize) -> (result: Result<
    Vec<String>,
    PartitionError,
>)
    ensures
        match result {
            Ok(parts) => partition_fault(input.spec_bytes(), num_threads as int) is None
                && parts.deep_view() == partition(input@, num_threads as int)
                && parts.deep_view().flatten() == input@,
            Err(error) => partition_fault(input.spec_bytes(), num_threads as int) == Some(error),
        },
{
    if num_threads == 0 {
        Err(PartitionError::NoWorkers)
    } else if !splits_cleanly(input, num_threads) {
        Err(PartitionError::SplitInsideCharacter)
    } else {
        Ok(split_to_thread_data(input, num_threads))
    }
}

} // verus!
