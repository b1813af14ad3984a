//! Text primitives: the UTF-8 byte view of a string, the `String` operations
//! the editor relies on, and the splitting of a text into lines and the joining
//! of lines into a text.

use vstd::prelude::*;
use vstd::utf8::*;
use vstd::string::StringExecFns;

verus! {

broadcast use group_utf8_lib;

/// The UTF-8 bytes of a character sequence: what `str::len` counts and what
/// byte positions in a `String` refer to.
pub open spec fn bytes_of(s: Seq<char>) -> Seq<u8> {
    encode_utf8(s)
}

/// The UTF-8 bytes of one character.
pub open spec fn char_bytes(c: char) -> Seq<u8> {
    encode_scalar(c as u32)
}

/// The byte of a line feed, `'\n'`.
pub open spec fn newline_byte() -> u8 {
    10u8
}

/// The byte of a carriage return, `'\r'`.
pub open spec fn cr_byte() -> u8 {
    13u8
}

/// True when byte position `at` of the string with bytes `b` may be used to
/// insert text: the end of the text or the first byte of a character.
pub open spec fn boundary(b: Seq<u8>, at: int) -> bool {
    is_char_boundary(b, at)
}

// ---------------------------------------------------------------------------
// Facts about the UTF-8 encoding
// ---------------------------------------------------------------------------

/// Encoding a concatenation is concatenating the encodings.
pub proof fn lemma_bytes_of_concat(a: Seq<char>, b: Seq<char>)
    ensures
        bytes_of(a + b) == bytes_of(a) + bytes_of(b),
    decreases a.len(),
{
    if a.len() == 0 {
        assert(a + b =~= b);
    } else {
        lemma_bytes_of_concat(a.drop_first(), b);
        assert((a + b).drop_first() =~= a.drop_first() + b);
        assert(bytes_of(a) == char_bytes(a[0]) + bytes_of(a.drop_first()));
        assert(bytes_of(a + b) == char_bytes(a[0]) + bytes_of(a.drop_first() + b));
        assert(bytes_of(a + b) =~= bytes_of(a) + bytes_of(b));
    }
}

/// The encoding of a single character.
pub proof fn lemma_bytes_of_single(c: char)
    ensures
        bytes_of(seq![c]) == char_bytes(c),
{
    assert(seq![c].drop_first() =~= Seq::<char>::empty());
    assert(bytes_of(Seq::<char>::empty()) == Seq::<u8>::empty());
    assert(bytes_of(seq![c]) == char_bytes(seq![c][0]) + bytes_of(seq![c].drop_first()));
    assert(bytes_of(seq![c]) =~= char_bytes(c));
}

/// Encoding a sequence extended by one character.
pub proof fn lemma_bytes_of_push(s: Seq<char>, c: char)
    ensures
        bytes_of(s.push(c)) == bytes_of(s) + char_bytes(c),
{
    lemma_bytes_of_concat(s, seq![c]);
    lemma_bytes_of_single(c);
    assert(s.push(c) =~= s + seq![c]);
}

/// An ASCII character is encoded as its own code; any other character is
/// encoded with bytes that are all at least 0x80.
pub proof fn lemma_char_bytes(c: char)
    ensures
        1 <= char_bytes(c).len() <= 4,
        (c as u32) < 0x80 ==> char_bytes(c) == seq![(c as u32) as u8],
        (c as u32) >= 0x80 ==> forall|i: int|
            0 <= i < char_bytes(c).len() ==> #[trigger] char_bytes(c)[i] >= 0x80,
{
    let s = c as u32;
    char_is_scalar(c);
    if has_width_1_encoding(s) {
        assert(leading_byte_width_1(s) == s as u8) by (bit_vector)
            requires
                s <= 0x7f,
        ;
    } else {
        assert(last_continuation_byte(s) >= 0x80) by (bit_vector);
        assert(second_last_continuation_byte(s) >= 0x80) by (bit_vector);
        assert(third_last_continuation_byte(s) >= 0x80) by (bit_vector);
        assert(leading_byte_width_2(s) >= 0x80) by (bit_vector);
        assert(leading_byte_width_3(s) >= 0x80) by (bit_vector);
        assert(leading_byte_width_4(s) >= 0x80) by (bit_vector);
    }
}

/// The encoding of `'\n'` is the single byte 10, and that of `'\r'` the single
/// byte 13.
pub proof fn lemma_control_bytes()
    ensures
        char_bytes('\n') == seq![newline_byte()],
        char_bytes('\r') == seq![cr_byte()],
{
    lemma_char_bytes('\n');
    lemma_char_bytes('\r');
}

/// A byte 10 occurs in an encoding only as the encoding of `'\n'`, and a byte
/// 13 only as the encoding of `'\r'`.
pub proof fn lemma_char_bytes_special(c: char)
    ensures
        c != '\n' ==> forall|i: int|
            0 <= i < char_bytes(c).len() ==> #[trigger] char_bytes(c)[i] != newline_byte(),
        c != '\r' ==> char_bytes(c).last() != cr_byte(),
        c == '\n' ==> char_bytes(c) == seq![newline_byte()],
        c == '\r' ==> char_bytes(c) == seq![cr_byte()],
{
    lemma_char_bytes(c);
    lemma_control_bytes();
    let u = c as u32;
    if u < 0x80 {
        if c != '\n' {
            assert((u as u8) != 10u8) by (bit_vector)
                requires
                    u != 10u32,
                    u < 0x80,
            ;
        }
        if c != '\r' {
            assert((u as u8) != 13u8) by (bit_vector)
                requires
                    u != 13u32,
                    u < 0x80,
            ;
        }
    }
}

// ---------------------------------------------------------------------------
// Lines of a text
// ---------------------------------------------------------------------------

/// The byte views of a sequence of strings.
pub open spec fn strings_bytes(v: Seq<String>) -> Seq<Seq<u8>> {
    v.map_values(|s: String| bytes_of(s@))
}

/// A line without the carriage return that ends it, if it ends with one.
pub open spec fn strip_cr(line: Seq<u8>) -> Seq<u8> {
    if line.len() > 0 && line.last() == cr_byte() {
        line.drop_last()
    } else {
        line
    }
}

/// Reading `b` from the start: the lines completed by a line feed so far,
/// each without its line ending, and the bytes read since the last line feed.
pub open spec fn scan_lines(b: Seq<u8>) -> (Seq<Seq<u8>>, Seq<u8>)
    decreases b.len(),
{
    if b.len() == 0 {
        (Seq::empty(), Seq::empty())
    } else {
        let (done, cur) = scan_lines(b.drop_last());
        if b.last() == newline_byte() {
            (done.push(strip_cr(cur)), Seq::empty())
        } else {
            (done, cur.push(b.last()))
        }
    }
}

/// The lines of a text as `str::lines` yields them: split at each `'\n'`,
/// an ending `"\r\n"` counting as one line ending, and the last line ending
/// optional.
pub open spec fn text_lines(b: Seq<u8>) -> Seq<Seq<u8>> {
    let (done, cur) = scan_lines(b);
    if cur.len() == 0 {
        done
    } else {
        done.push(cur)
    }
}

/// Lines joined into one text, with a line feed between each two.
pub open spec fn join_lines(lines: Seq<Seq<u8>>) -> Seq<u8>
    decreases lines.len(),
{
    if lines.len() == 0 {
        Seq::empty()
    } else if lines.len() == 1 {
        lines[0]
    } else {
        join_lines(lines.drop_last()) + seq![newline_byte()] + lines.last()
    }
}

/// Reading bytes that hold no line feed only extends the current line.
pub proof fn lemma_scan_lines_no_newline(x: Seq<u8>, y: Seq<u8>)
    requires
        forall|i: int| 0 <= i < y.len() ==> #[trigger] y[i] != newline_byte(),
    ensures
        scan_lines(x + y) == (scan_lines(x).0, scan_lines(x).1 + y),
    decreases y.len(),
{
    if y.len() == 0 {
        assert(x + y =~= x);
        assert(scan_lines(x).1 + y =~= scan_lines(x).1);
    } else {
        let y0 = y.drop_last();
        lemma_scan_lines_no_newline(x, y0);
        assert((x + y).drop_last() =~= x + y0);
        assert((x + y).last() == y.last());
        assert(scan_lines(x).1 + y0 + seq![y.last()] =~= scan_lines(x).1 + y);
        assert((scan_lines(x).1 + y0).push(y.last()) =~= scan_lines(x).1 + y);
    }
}

/// Reading a line feed completes the current line.
pub proof fn lemma_scan_lines_newline(x: Seq<u8>)
    ensures
        scan_lines(x.push(newline_byte())) == (
            scan_lines(x).0.push(strip_cr(scan_lines(x).1)),
            Seq::<u8>::empty(),
        ),
{
    assert(x.push(newline_byte()).drop_last() =~= x);
}

/// The lines of `text`, as `str::lines` yields them.
pub fn split_lines(text: &str) -> (lines: Vec<String>)
    ensures
        strings_bytes(lines@) == text_lines(bytes_of(text@)),
{
    let chars = chars_of(text);
    let mut out: Vec<String> = Vec::new();
    let mut cur = String::new();
    let mut i: usize = 0;
    assert(chars@.take(0) =~= Seq::<char>::empty());
    while i < chars.len()
        invariant
            i <= chars.len(),
            chars@ == text@,
            scan_lines(bytes_of(chars@.take(i as int))) == (strings_bytes(out@), bytes_of(cur@)),
        decreases chars.len() - i,
    {
        let c = chars[i];
        let ghost prefix = chars@.take(i as int);
        proof {
            assert(chars@.take(i + 1) =~= prefix.push(c));
            lemma_bytes_of_push(prefix, c);
            lemma_char_bytes_special(c);
        }
        if c == '\n' {
            let ghost before = cur@;
            let last = string_pop(&mut cur);
            match last {
                Some(l) => {
                    if l != '\r' {
                        string_push(&mut cur, l);
                    }
                    proof {
                        assert(before =~= before.drop_last().push(l));
                        lemma_bytes_of_push(before.drop_last(), l);
                        lemma_char_bytes_special(l);
                        lemma_char_bytes(l);
                        if l == '\r' {
                            assert((bytes_of(before.drop_last()) + seq![cr_byte()]).drop_last()
                                =~= bytes_of(before.drop_last()));
                        }
                        assert(bytes_of(cur@) == strip_cr(bytes_of(before)));
                    }
                },
                None => {
                    assert(bytes_of(cur@) == strip_cr(bytes_of(before)));
                },
            }
            proof {
                lemma_scan_lines_newline(bytes_of(prefix));
                assert(bytes_of(prefix) + char_bytes(c) =~= bytes_of(prefix).push(newline_byte()));
            }
            out.push(cur);
            cur = String::new();
            proof {
                assert(strings_bytes(out@) =~= scan_lines(bytes_of(prefix)).0.push(strip_cr(bytes_of(before))));
                assert(bytes_of(cur@) =~= Seq::<u8>::empty());
            }
        } else {
            let ghost before = cur@;
            string_push(&mut cur, c);
            proof {
                lemma_bytes_of_push(before, c);
                lemma_scan_lines_no_newline(bytes_of(prefix), char_bytes(c));
            }
        }
        i = i + 1;
    }
    proof {
        assert(chars@.take(chars@.len() as int) =~= text@);
    }
    if byte_len(&cur) > 0 {
        out.push(cur);
        proof {
            assert(strings_bytes(out@) =~= text_lines(bytes_of(text@)));
        }
    }
    out
}

// ---------------------------------------------------------------------------
// Editing at byte positions, and character boundaries
// ---------------------------------------------------------------------------

/// The bytes of a row after inserting `c` at byte position `at`: at the end
/// when `at` is at or past the end.
pub open spec fn inserted(b: Seq<u8>, at: int, c: char) -> Seq<u8> {
    if at >= b.len() {
        b + char_bytes(c)
    } else {
        b.take(at) + char_bytes(c) + b.skip(at)
    }
}

/// The bytes of a row after removing the character that starts at byte
/// position `at`; unchanged when `at` is at or past the end.
pub open spec fn deleted(b: Seq<u8>, at: int) -> Seq<u8> {
    if at < b.len() {
        b.take(at) + b.skip(at + length_of_first_scalar(b.skip(at)))
    } else {
        b
    }
}

/// The last character boundary at or before `i` (0 when there is none).
pub open spec fn floor_boundary(b: Seq<u8>, i: int) -> int
    decreases i,
{
    if i <= 0 {
        0
    } else if boundary(b, i) {
        i
    } else {
        floor_boundary(b, i - 1)
    }
}

/// The first character boundary at or after `i` (the end when there is none
/// before it).
pub open spec fn ceil_boundary(b: Seq<u8>, i: int) -> int
    decreases b.len() - i,
{
    if i >= b.len() {
        b.len() as int
    } else if boundary(b, i) {
        i
    } else {
        ceil_boundary(b, i + 1)
    }
}

/// The start of the character that ends at boundary `i > 0`.
pub open spec fn prev_boundary(b: Seq<u8>, i: int) -> int {
    floor_boundary(b, i - 1)
}

/// The end of the character that starts at boundary `i` before the end.
pub open spec fn next_boundary(b: Seq<u8>, i: int) -> int {
    ceil_boundary(b, i + 1)
}

/// Byte 0 and the end are boundaries of valid UTF-8.
pub proof fn lemma_boundary_ends(b: Seq<u8>)
    requires
        valid_utf8(b),
    ensures
        boundary(b, 0),
        boundary(b, b.len() as int),
{
    is_char_boundary_start_end_of_seq(b);
}

/// A boundary lies within the text.
pub proof fn lemma_boundary_in_range(b: Seq<u8>, i: int)
    requires
        valid_utf8(b),
        boundary(b, i),
    ensures
        0 <= i <= b.len(),
{
    reveal_with_fuel(is_char_boundary, 1);
}

/// `floor_boundary` gives a boundary no later than `i`.
pub proof fn lemma_floor_boundary(b: Seq<u8>, i: int)
    requires
        valid_utf8(b),
    ensures
        0 <= floor_boundary(b, i),
        i >= 0 ==> floor_boundary(b, i) <= i,
        boundary(b, floor_boundary(b, i)),
        boundary(b, i) ==> floor_boundary(b, i) == i,
    decreases i,
{
    lemma_boundary_ends(b);
    if i > 0 && !boundary(b, i) {
        lemma_floor_boundary(b, i - 1);
    }
}

/// `ceil_boundary` gives a boundary no earlier than `i` and within the text.
pub proof fn lemma_ceil_boundary(b: Seq<u8>, i: int)
    requires
        valid_utf8(b),
        0 <= i,
    ensures
        i <= b.len() ==> i <= ceil_boundary(b, i),
        ceil_boundary(b, i) <= b.len(),
        boundary(b, ceil_boundary(b, i)),
    decreases b.len() - i,
{
    lemma_boundary_ends(b);
    if i < b.len() && !boundary(b, i) {
        lemma_ceil_boundary(b, i + 1);
    }
}

/// No boundary lies after `floor_boundary(b, i)` and at or before `i`.
pub proof fn lemma_floor_boundary_last(b: Seq<u8>, i: int)
    ensures
        forall|j: int| floor_boundary(b, i) < j <= i ==> !boundary(b, j),
    decreases i,
{
    if i > 0 && !boundary(b, i) {
        lemma_floor_boundary_last(b, i - 1);
    }
}

/// No boundary lies at or after `i` and before `ceil_boundary(b, i)`.
pub proof fn lemma_ceil_boundary_first(b: Seq<u8>, i: int)
    ensures
        forall|j: int| i <= j < ceil_boundary(b, i) ==> !boundary(b, j),
    decreases b.len() - i,
{
    if i < b.len() && !boundary(b, i) {
        lemma_ceil_boundary_first(b, i + 1);
    }
}

/// The end of a valid UTF-8 prefix is a character boundary of the whole.
pub proof fn lemma_boundary_after_prefix(a: Seq<char>, b: Seq<char>)
    ensures
        boundary(bytes_of(a + b), bytes_of(a).len() as int),
    decreases a.len(),
{
    lemma_bytes_of_concat(a, b);
    if a.len() == 0 {
        assert(bytes_of(a) =~= Seq::<u8>::empty());
    } else {
        let ab = a + b;
        let bytes = bytes_of(ab);
        encode_utf8_first_scalar(ab);
        assert(ab[0] == a[0]);
        assert(ab.drop_first() =~= a.drop_first() + b);
        lemma_boundary_after_prefix(a.drop_first(), b);
        assert(bytes == char_bytes(ab[0]) + bytes_of(ab.drop_first()));
        assert(pop_first_scalar(bytes) =~= bytes_of(a.drop_first() + b));
        assert(bytes_of(a) == char_bytes(a[0]) + bytes_of(a.drop_first()));
        lemma_bytes_of_concat(a.drop_first(), b);
    }
}

/// Removing the character that starts where `c` was inserted removes `c`.
pub proof fn lemma_delete_inserted(b: Seq<u8>, at: int, c: char)
    requires
        valid_utf8(b),
        0 <= at <= b.len(),
        boundary(b, at),
    ensures
        boundary(inserted(b, at, c), at),
        at < inserted(b, at, c).len(),
        deleted(inserted(b, at, c), at) == b,
{
    let pre = b.take(at);
    let suf = b.skip(at);
    assert(pre =~= b.subrange(0, at));
    assert(suf =~= b.subrange(at, b.len() as int));
    let dp = decode_utf8(pre);
    let ds = decode_utf8(suf);
    assert(bytes_of(dp) == pre);
    assert(bytes_of(ds) == suf);
    let row = inserted(b, at, c);
    assert(row =~= pre + char_bytes(c) + suf);
    lemma_bytes_of_single(c);
    lemma_bytes_of_concat(seq![c], ds);
    lemma_bytes_of_concat(dp, seq![c] + ds);
    assert(dp + (seq![c] + ds) =~= dp + seq![c] + ds);
    assert(row =~= bytes_of(dp + (seq![c] + ds)));
    lemma_boundary_after_prefix(dp, seq![c] + ds);
    assert(row.skip(at) =~= bytes_of(seq![c] + ds));
    encode_utf8_first_scalar(seq![c] + ds);
    assert((seq![c] + ds)[0] == c);
    assert(row.take(at) =~= pre);
    assert(row.skip(at + char_bytes(c).len()) =~= suf);
    assert(deleted(row, at) =~= b);
}

/// Where two valid texts meet is a character boundary.
pub proof fn lemma_boundary_concat(a: Seq<u8>, c: Seq<u8>)
    requires
        valid_utf8(a),
        valid_utf8(c),
    ensures
        valid_utf8(a + c),
        boundary(a + c, a.len() as int),
{
    let da = decode_utf8(a);
    let dc = decode_utf8(c);
    assert(bytes_of(da) == a);
    assert(bytes_of(dc) == c);
    lemma_bytes_of_concat(da, dc);
    lemma_boundary_after_prefix(da, dc);
}

/// The end of the character that starts at a boundary is a boundary.
pub proof fn lemma_boundary_next(b: Seq<u8>, i: int)
    requires
        valid_utf8(b),
        boundary(b, i),
        i < b.len(),
    ensures
        0 <= i,
        1 <= length_of_first_scalar(b.skip(i)),
        i + length_of_first_scalar(b.skip(i)) <= b.len(),
        boundary(b, i + length_of_first_scalar(b.skip(i))),
        valid_utf8(b.take(i)),
        valid_utf8(b.skip(i + length_of_first_scalar(b.skip(i)))),
{
    lemma_boundary_in_range(b, i);
    assert(b.take(i) =~= b.subrange(0, i));
    assert(b.skip(i) =~= b.subrange(i, b.len() as int));
    let s = b.skip(i);
    assert(valid_utf8(s));
    assert(valid_utf8(b.take(i)));
    let l = length_of_first_scalar(s);
    assert(valid_first_scalar(s) && valid_utf8(pop_first_scalar(s)));
    assert(1 <= l <= s.len());
    assert(boundary(s, l)) by {
        reveal_with_fuel(is_char_boundary, 2);
        lemma_boundary_ends(pop_first_scalar(s));
    }
    assert(s.take(l) =~= s.subrange(0, l));
    assert(s.skip(l) =~= s.subrange(l, s.len() as int));
    assert(valid_utf8(s.take(l)));
    assert(valid_utf8(s.skip(l)));
    assert(b.skip(i + l) =~= s.skip(l));
    assert(b.take(i + l) =~= b.take(i) + s.take(l));
    valid_utf8_concat(b.take(i), s.take(l));
    lemma_boundary_concat(b.take(i + l), b.skip(i + l));
    assert(b.take(i + l) + b.skip(i + l) =~= b);
}

/// Inserting a character at a boundary: the text stays valid, grows by the
/// character's bytes, and the end of the character is a boundary.
pub proof fn lemma_inserted_boundary(b: Seq<u8>, at: int, c: char)
    requires
        valid_utf8(b),
        boundary(b, at),
    ensures
        0 <= at <= b.len(),
        valid_utf8(inserted(b, at, c)),
        inserted(b, at, c).len() == b.len() + char_bytes(c).len(),
        boundary(inserted(b, at, c), at),
        boundary(inserted(b, at, c), at + char_bytes(c).len()),
{
    lemma_boundary_in_range(b, at);
    let pre = b.take(at);
    let suf = b.skip(at);
    assert(pre =~= b.subrange(0, at));
    assert(suf =~= b.subrange(at, b.len() as int));
    let dp = decode_utf8(pre);
    let ds = decode_utf8(suf);
    assert(bytes_of(dp) == pre);
    assert(bytes_of(ds) == suf);
    let row = inserted(b, at, c);
    assert(row =~= pre + char_bytes(c) + suf);
    lemma_bytes_of_single(c);
    lemma_bytes_of_concat(dp, seq![c]);
    lemma_bytes_of_concat(dp + seq![c], ds);
    lemma_bytes_of_concat(dp, seq![c] + ds);
    assert(dp + seq![c] + ds =~= dp + (seq![c] + ds));
    assert(row =~= bytes_of(dp + seq![c] + ds));
    lemma_boundary_after_prefix(dp + seq![c], ds);
    lemma_boundary_after_prefix(dp, seq![c] + ds);
}

/// Removing the character that starts at a boundary before the end leaves
/// valid text in which that position is still a boundary.
pub proof fn lemma_deleted_boundary(b: Seq<u8>, at: int)
    requires
        valid_utf8(b),
        boundary(b, at),
        at < b.len(),
    ensures
        valid_utf8(deleted(b, at)),
        boundary(deleted(b, at), at),
{
    lemma_boundary_next(b, at);
    let l = length_of_first_scalar(b.skip(at));
    assert(deleted(b, at) == b.take(at) + b.skip(at + l));
    assert(b.take(at).len() == at);
    lemma_boundary_concat(b.take(at), b.skip(at + l));
}

/// Only the first byte of a character's encoding is a boundary: inside the
/// inserted character there is none, so the character that ends after it
/// starts where it was inserted.
pub proof fn lemma_inserted_prev_boundary(b: Seq<u8>, at: int, c: char)
    requires
        valid_utf8(b),
        boundary(b, at),
    ensures
        prev_boundary(inserted(b, at, c), at + char_bytes(c).len()) == at,
{
    lemma_inserted_boundary(b, at, c);
    lemma_char_bytes(c);
    let row = inserted(b, at, c);
    let w = char_bytes(c).len();
    assert(row =~= b.take(at) + char_bytes(c) + b.skip(at));
    assert forall|k: int| 1 <= k < w implies is_continuation_byte(#[trigger] char_bytes(c)[k]) by {
        let s = c as u32;
        char_is_scalar(c);
        assert(0x80 <= last_continuation_byte(s) <= 0xbf) by (bit_vector);
        assert(0x80 <= second_last_continuation_byte(s) <= 0xbf) by (bit_vector);
        assert(0x80 <= third_last_continuation_byte(s) <= 0xbf) by (bit_vector);
    }
    lemma_floor_inside(row, at, w - 1, c);
}

/// Stepping back over the continuation bytes of the inserted character.
proof fn lemma_floor_inside(row: Seq<u8>, at: int, k: int, c: char)
    requires
        valid_utf8(row),
        boundary(row, at),
        0 <= at,
        0 <= k < char_bytes(c).len(),
        at + char_bytes(c).len() <= row.len(),
        forall|j: int| 0 <= j < char_bytes(c).len() ==> row[at + j] == #[trigger] char_bytes(c)[j],
        forall|j: int| 1 <= j < char_bytes(c).len() ==> is_continuation_byte(#[trigger] char_bytes(c)[j]),
    ensures
        floor_boundary(row, at + k) == at,
    decreases k,
{
    if k == 0 {
        if at > 0 {
        }
    } else {
        assert(row[at + k] == char_bytes(c)[k]);
        assert(is_continuation_byte(row[at + k]));
        is_char_boundary_iff_not_is_continuation_byte(row, at + k);
        lemma_floor_inside(row, at, k - 1, c);
    }
}

// ---------------------------------------------------------------------------
// String operations of std (trusted: each wrapper makes one call)
// ---------------------------------------------------------------------------

/// `String::push`: appends the character `c`.
#[verifier::external_body]
pub fn string_push(s: &mut String, c: char)
    ensures
        final(s)@ == old(s)@.push(c),
{
    s.push(c);
}

/// Appends the characters of `other` to `s`.
pub fn string_push_str(s: &mut String, other: &str)
    ensures
        final(s)@ == old(s)@ + other@,
{
    s.append(other);
}

/// `String::pop`: removes and returns the last character, if there is one.
#[verifier::external_body]
pub fn string_pop(s: &mut String) -> (ret: Option<char>)
    ensures
        old(s)@.len() == 0 ==> ret is None && final(s)@ == old(s)@,
        old(s)@.len() > 0 ==> ret == Some(old(s)@.last()) && final(s)@ == old(s)@.drop_last(),
{
    s.pop()
}

/// `String::insert`: inserts `c` at byte position `idx`, which std requires to
/// lie on a character boundary (it panics otherwise).
#[verifier::external_body]
pub fn string_insert(s: &mut String, idx: usize, c: char)
    requires
        boundary(bytes_of(old(s)@), idx as int),
    ensures
        bytes_of(final(s)@) == bytes_of(old(s)@).take(idx as int) + char_bytes(c) + bytes_of(
            old(s)@,
        ).skip(idx as int),
{
    s.insert(idx, c);
}

/// `String::remove`: removes and returns the character that starts at byte
/// position `idx`; std panics unless `idx` is a character boundary before the
/// end.
#[verifier::external_body]
pub fn string_remove(s: &mut String, idx: usize) -> (ret: char)
    requires
        (idx as int) < bytes_of(old(s)@).len(),
        boundary(bytes_of(old(s)@), idx as int),
    ensures
        ret as u32 == decode_first_scalar(bytes_of(old(s)@).skip(idx as int)),
        bytes_of(final(s)@) == bytes_of(old(s)@).take(idx as int) + bytes_of(old(s)@).skip(
            idx + length_of_first_scalar(bytes_of(old(s)@).skip(idx as int)),
        ),
{
    s.remove(idx)
}

/// `String::split_off`: keeps the bytes before `at` and returns the rest; std
/// panics unless `at` is a character boundary.
#[verifier::external_body]
pub fn string_split_off(s: &mut String, at: usize) -> (ret: String)
    requires
        boundary(bytes_of(old(s)@), at as int),
    ensures
        bytes_of(final(s)@) == bytes_of(old(s)@).take(at as int),
        bytes_of(ret@) == bytes_of(old(s)@).skip(at as int),
{
    s.split_off(at)
}

/// `String::len`: the length of `s` in bytes.
#[verifier::external_body]
pub fn byte_len(s: &String) -> (n: usize)
    ensures
        n == bytes_of(s@).len(),
{
    s.len()
}

/// The characters of `s`, in order.
pub fn chars_of(s: &str) -> (v: Vec<char>)
    ensures
        v@ == s@,
{
    let mut v: Vec<char> = Vec::new();
    for c in it: s.chars()
        invariant
            v@ == it.seq().take(it.index() as int),
    {
        v.push(c);
    }
    v
}

} // verus!
