//! Byte strings: comparison, search and number formatting.

use vstd::prelude::*;
use vstd::slice::{slice_subrange, slice_to_vec};
use vstd::string::is_ascii_spec_bytes;

verus! {

/// The bytes of a text that holds ASCII characters only, one for each
/// character.
pub open spec fn ascii(s: &str) -> Seq<u8> {
    Seq::new(s@.len(), |i: int| s@[i] as u8)
}

/// The bytes of a text that holds ASCII characters only.
pub fn ascii_bytes(s: &str) -> (bytes: &[u8])
    requires
        s.is_ascii(),
    ensures
        bytes@ == ascii(s),
{
    broadcast use is_ascii_spec_bytes;

    s.as_bytes()
}

/// An owned copy of `s`.
pub fn to_vec(s: &[u8]) -> (v: Vec<u8>)
    ensures
        v@ == s@,
{
    slice_to_vec(s)
}

/// Whether `a` and `b` hold the same bytes.
pub fn bytes_eq(a: &[u8], b: &[u8]) -> (same: bool)
    ensures
        same == (a@ == b@),
{
    if a.len() != b.len() {
        return false;
    }
    let mut i: usize = 0;
    while i < a.len()
        invariant
            i <= a.len(),
            a.len() == b.len(),
            forall|j: int| 0 <= j < i ==> a@[j] == b@[j],
        decreases a.len() - i,
    {
        if a[i] != b[i] {
            return false;
        }
        i += 1;
    }
    assert(a@ =~= b@);
    true
}

/// The place of the last `byte` in `s`, or -1 where `s` does not hold it.
pub open spec fn last_index_of(s: Seq<u8>, byte: u8) -> int
    decreases s.len(),
{
    if s.len() == 0 {
        -1
    } else if s.last() == byte {
        s.len() - 1
    } else {
        last_index_of(s.drop_last(), byte)
    }
}

/// `last_index_of` gives a place of `byte` behind which `s` holds no other,
/// and -1 only where `s` holds none.
pub proof fn lemma_last_index_of(s: Seq<u8>, byte: u8)
    ensures
        -1 <= last_index_of(s, byte) < s.len(),
        last_index_of(s, byte) >= 0 ==> s[last_index_of(s, byte)] == byte,
        forall|j: int| last_index_of(s, byte) < j < s.len() ==> s[j] != byte,
    decreases s.len(),
{
    if s.len() > 0 && s.last() != byte {
        lemma_last_index_of(s.drop_last(), byte);
        assert forall|j: int| last_index_of(s, byte) < j < s.len() implies s[j] != byte by {
            if j < s.len() - 1 {
                assert(s.drop_last()[j] == s[j]);
            }
        }
    }
}

/// The place of the last `byte` in `s`.
pub fn rfind_byte(s: &[u8], byte: u8) -> (found: Option<usize>)
    ensures
        match found {
            Some(i) => i == last_index_of(s@, byte),
            None => last_index_of(s@, byte) == -1,
        },
{
    let mut i: usize = s.len();
    assert(s@.take(i as int) =~= s@);
    while i > 0
        invariant
            i <= s.len(),
            last_index_of(s@, byte) == last_index_of(s@.take(i as int), byte),
        decreases i,
    {
        i -= 1;
        if s[i] == byte {
            assert(s@.take(i + 1).last() == byte);
            return Some(i);
        }
        assert(s@.take(i + 1).drop_last() =~= s@.take(i as int));
    }
    assert(s@.take(0).len() == 0);
    None
}

/// Whether `s` begins with `prefix`.
pub open spec fn has_prefix(s: Seq<u8>, prefix: Seq<u8>) -> bool {
    prefix.len() <= s.len() && s.take(prefix.len() as int) == prefix
}

/// Whether `s` holds `pattern` from the place `at` on.
pub open spec fn matches_at(s: Seq<u8>, at: int, pattern: Seq<u8>) -> bool {
    0 <= at && at + pattern.len() <= s.len() && s.subrange(at, at + pattern.len()) == pattern
}

/// Whether `s` holds `pattern` from the place `at` on.
pub fn holds_at(s: &[u8], at: usize, pattern: &[u8]) -> (holds: bool)
    ensures
        holds == matches_at(s@, at as int, pattern@),
{
    if at > s.len() || pattern.len() > s.len() - at {
        return false;
    }
    let mut i: usize = 0;
    while i < pattern.len()
        invariant
            i <= pattern.len(),
            at + pattern.len() <= s.len(),
            forall|j: int| 0 <= j < i ==> s@[at + j] == pattern@[j],
        decreases pattern.len() - i,
    {
        if s[at + i] != pattern[i] {
            assert(s@.subrange(at as int, at + pattern.len())[i as int] != pattern@[i as int]);
            return false;
        }
        i += 1;
    }
    assert(s@.subrange(at as int, at + pattern.len()) =~= pattern@);
    true
}

/// Whether `s` begins with `prefix`.
pub fn starts_with(s: &[u8], prefix: &[u8]) -> (holds: bool)
    ensures
        holds == has_prefix(s@, prefix@),
{
    let holds = holds_at(s, 0, prefix);
    assert(prefix@.len() <= s@.len() ==> s@.take(prefix@.len() as int) =~= s@.subrange(
        0,
        0 + prefix@.len() as int,
    ));
    holds
}

/// Whether `byte` is one of the digits `0` to `9`.
pub open spec fn is_digit(byte: u8) -> bool {
    '0' as u8 <= byte <= '9' as u8
}

/// Whether `byte` is white space: a blank, or one of the five controls from
/// the tab to the carriage return.
pub open spec fn is_space(byte: u8) -> bool {
    byte == ' ' as u8 || 9 <= byte <= 13
}

/// Whether `byte` is one of the digits `0` to `9`.
pub fn byte_is_digit(byte: u8) -> (digit: bool)
    ensures
        digit == is_digit(byte),
{
    '0' as u8 <= byte && byte <= '9' as u8
}

/// Whether `byte` is white space, see [`is_space`].
pub fn byte_is_space(byte: u8) -> (space: bool)
    ensures
        space == is_space(byte),
{
    byte == ' ' as u8 || (9 <= byte && byte <= 13)
}

/// The number of digits that `s` holds in a row from the place `from` on.
pub open spec fn digits_len(s: Seq<u8>, from: int) -> int
    decreases s.len() - from,
{
    if 0 <= from < s.len() && is_digit(s[from]) {
        1 + digits_len(s, from + 1)
    } else {
        0
    }
}

/// The number of digits that `s` holds in a row from the place `from` on.
pub fn count_digits(s: &[u8], from: usize) -> (n: usize)
    requires
        from <= s.len(),
    ensures
        n == digits_len(s@, from as int),
        from + n <= s.len(),
{
    let mut i: usize = from;
    while i < s.len() && byte_is_digit(s[i])
        invariant
            from <= i <= s.len(),
            digits_len(s@, from as int) == (i - from) + digits_len(s@, i as int),
        decreases s.len() - i,
    {
        i += 1;
    }
    i - from
}

/// The number of white space bytes that `s` holds in a row from the place
/// `from` on.
pub open spec fn spaces_len(s: Seq<u8>, from: int) -> int
    decreases s.len() - from,
{
    if 0 <= from < s.len() && is_space(s[from]) {
        1 + spaces_len(s, from + 1)
    } else {
        0
    }
}

/// The number of white space bytes that `s` holds in a row in front of the
/// place `end`.
pub open spec fn spaces_before(s: Seq<u8>, end: int) -> int
    decreases end,
{
    if 0 < end <= s.len() && is_space(s[end - 1]) {
        1 + spaces_before(s, end - 1)
    } else {
        0
    }
}

/// The number of white space bytes that `s` holds in a row from the place
/// `from` on.
pub fn count_spaces(s: &[u8], from: usize) -> (n: usize)
    requires
        from <= s.len(),
    ensures
        n == spaces_len(s@, from as int),
        from + n <= s.len(),
{
    let mut i: usize = from;
    while i < s.len() && byte_is_space(s[i])
        invariant
            from <= i <= s.len(),
            spaces_len(s@, from as int) == (i - from) + spaces_len(s@, i as int),
        decreases s.len() - i,
    {
        i += 1;
    }
    i - from
}

/// `s` without the white space at its two ends.
pub open spec fn trimmed(s: Seq<u8>) -> Seq<u8> {
    let front = spaces_len(s, 0);
    if front >= s.len() {
        Seq::empty()
    } else {
        s.subrange(front, s.len() - spaces_before(s, s.len() as int))
    }
}

/// `s` without the white space at its two ends.
pub fn trim(s: &[u8]) -> (t: Vec<u8>)
    ensures
        t@ == trimmed(s@),
{
    let front = count_spaces(s, 0);
    if front >= s.len() {
        return Vec::new();
    }
    let mut end: usize = s.len();
    while end > front + 1 && byte_is_space(s[end - 1])
        invariant
            front < end <= s.len(),
            front == spaces_len(s@, 0),
            spaces_before(s@, s.len() as int) == (s.len() - end) + spaces_before(s@, end as int),
        decreases end,
    {
        end -= 1;
    }
    proof {
        if end == front + 1 {
            lemma_spaces_end(s@, 0);
            assert(!is_space(s@[front as int]));
        }
    }
    let t = slice_subrange(s, front, end);
    to_vec(t)
}

/// The white space counted by `spaces_len` ends at the end of `s` or in front
/// of a byte that is none.
pub proof fn lemma_spaces_end(s: Seq<u8>, from: int)
    requires
        0 <= from <= s.len(),
    ensures
        0 <= spaces_len(s, from) <= s.len() - from,
        from + spaces_len(s, from) < s.len() ==> !is_space(s[from + spaces_len(s, from)]),
    decreases s.len() - from,
{
    if from < s.len() && is_space(s[from]) {
        lemma_spaces_end(s, from + 1);
    }
}

/// The number that the digits `digits` write in base ten.
pub open spec fn decimal_value(digits: Seq<u8>) -> nat
    decreases digits.len(),
{
    if digits.len() == 0 {
        0
    } else {
        decimal_value(digits.drop_last()) * 10 + (digits.last() - '0' as u8) as nat
    }
}

/// More digits write no smaller number.
pub proof fn lemma_decimal_value_grows(digits: Seq<u8>, i: int)
    requires
        0 <= i <= digits.len(),
        forall|j: int| 0 <= j < digits.len() ==> is_digit(digits[j]),
    ensures
        decimal_value(digits.take(i)) <= decimal_value(digits),
    decreases digits.len() - i,
{
    if i < digits.len() {
        lemma_decimal_value_grows(digits, i + 1);
        assert(digits.take(i + 1).drop_last() =~= digits.take(i));
    } else {
        assert(digits.take(i) =~= digits);
    }
}

/// The number that `digits` write, where they are digits, one or more, and
/// the number is at most `u32::MAX`.
pub open spec fn number_of(digits: Seq<u8>) -> Option<u32> {
    if digits.len() >= 1 && (forall|j: int| 0 <= j < digits.len() ==> is_digit(digits[j]))
        && decimal_value(digits) <= u32::MAX {
        Some(decimal_value(digits) as u32)
    } else {
        None
    }
}

/// The number that `digits` write, see [`number_of`].
pub fn parse_u32(digits: &[u8]) -> (value: Option<u32>)
    ensures
        value == number_of(digits@),
{
    if digits.len() == 0 {
        return None;
    }
    let mut i: usize = 0;
    while i < digits.len()
        invariant
            i <= digits.len(),
            forall|j: int| 0 <= j < i ==> is_digit(digits[j]),
        decreases digits.len() - i,
    {
        if !byte_is_digit(digits[i]) {
            return None;
        }
        i += 1;
    }
    let mut acc: u64 = 0;
    let mut i: usize = 0;
    assert(digits@.take(0).len() == 0);
    while i < digits.len()
        invariant
            i <= digits.len(),
            forall|j: int| 0 <= j < digits.len() ==> is_digit(digits[j]),
            acc == decimal_value(digits@.take(i as int)),
            acc <= u32::MAX,
        decreases digits.len() - i,
    {
        let d = (digits[i] - '0' as u8) as u64;
        assert(digits@.take(i + 1).drop_last() =~= digits@.take(i as int));
        let next = acc * 10 + d;
        if next > u32::MAX as u64 {
            proof {
                lemma_decimal_value_grows(digits@, i + 1);
            }
            return None;
        }
        acc = next;
        i += 1;
    }
    assert(digits@.take(i as int) =~= digits@);
    Some(acc as u32)
}

/// The digits that write `n` in base ten, without a leading zero.
pub open spec fn decimal(n: nat) -> Seq<u8>
    decreases n,
{
    if n < 10 {
        seq![('0' as u8 + n) as u8]
    } else {
        decimal(n / 10).push(('0' as u8 + n % 10) as u8)
    }
}

/// Appends to `out` the digits that write `n` in base ten.
pub fn push_decimal(out: &mut Vec<u8>, n: u128)
    ensures
        final(out)@ == old(out)@ + decimal(n as nat),
    decreases n,
{
    if n >= 10 {
        push_decimal(out, n / 10);
    }
    out.push('0' as u8 + (n % 10) as u8);
    assert(out@ =~= old(out)@ + decimal(n as nat));
}

/// Appends the bytes of `s` to `out`.
pub fn push_bytes(out: &mut Vec<u8>, s: &[u8])
    ensures
        final(out)@ == old(out)@ + s@,
{
    let mut i: usize = 0;
    while i < s.len()
        invariant
            i <= s.len(),
            out@ == old(out)@ + s@.take(i as int),
        decreases s.len() - i,
    {
        out.push(s[i]);
        assert(s@.take(i + 1) =~= s@.take(i as int).push(s@[i as int]));
        i += 1;
    }
    assert(s@.take(i as int) =~= s@);
}

/// The place of the first `byte` in `s` at or behind `from`, or the length
/// of `s` where none follows.
pub open spec fn index_from(s: Seq<u8>, from: int, byte: u8) -> int
    decreases s.len() - from,
{
    if 0 <= from < s.len() && s[from] != byte {
        index_from(s, from + 1, byte)
    } else if from < 0 || from > s.len() {
        s.len() as int
    } else {
        from
    }
}

/// `index_from` gives the place of `byte`, or the length, and `byte` does not
/// stand in front of that place.
pub proof fn lemma_index_from(s: Seq<u8>, from: int, byte: u8)
    requires
        0 <= from <= s.len(),
    ensures
        from <= index_from(s, from, byte) <= s.len(),
        index_from(s, from, byte) < s.len() ==> s[index_from(s, from, byte)] == byte,
        forall|j: int| from <= j < index_from(s, from, byte) ==> s[j] != byte,
    decreases s.len() - from,
{
    if from < s.len() && s[from] != byte {
        lemma_index_from(s, from + 1, byte);
    }
}

/// The place of the first `byte` in `s` at or behind `from`, see
/// [`index_from`].
pub fn find_byte(s: &[u8], from: usize, byte: u8) -> (at: usize)
    requires
        from <= s.len(),
    ensures
        at == index_from(s@, from as int, byte),
        from <= at <= s.len(),
{
    let mut i: usize = from;
    while i < s.len() && s[i] != byte
        invariant
            from <= i <= s.len(),
            index_from(s@, from as int, byte) == index_from(s@, i as int, byte),
        decreases s.len() - i,
    {
        i += 1;
    }
    i
}

/// The pieces of `s` between the bytes `sep`: one more than `s` holds of
/// `sep`, so the empty text has one empty piece.
pub open spec fn split_on(s: Seq<u8>, sep: u8) -> Seq<Seq<u8>>
    decreases s.len(),
{
    let at = index_from(s, 0, sep);
    if 0 <= at < s.len() {
        seq![s.take(at)] + split_on(s.skip(at + 1), sep)
    } else {
        seq![s]
    }
}

/// The pieces of `s` between the bytes `sep`, see [`split_on`].
pub fn split(s: &[u8], sep: u8) -> (pieces: Vec<Vec<u8>>)
    ensures
        lists(pieces@) == split_on(s@, sep),
{
    let mut pieces: Vec<Vec<u8>> = Vec::new();
    let mut start: usize = 0;
    assert(s@.skip(0) =~= s@);
    loop
        invariant_except_break
            start <= s.len(),
            split_on(s@, sep) == lists(pieces@) + split_on(s@.skip(start as int), sep),
        ensures
            lists(pieces@) == split_on(s@, sep),
        decreases s.len() - start,
    {
        let at = find_byte(s, start, sep);
        let ghost rest = s@.skip(start as int);
        proof {
            lemma_index_from(s@, start as int, sep);
            lemma_index_from(rest, 0, sep);
            lemma_index_skip(s@, start as int, start as int, sep);
        }
        let piece = to_vec(slice_subrange(s, start, at));
        let ghost before = lists(pieces@);
        pieces.push(piece);
        if at >= s.len() {
            assert(piece@ =~= rest);
            assert(lists(pieces@) =~= before + seq![rest]);
            break;
        }
        assert(piece@ =~= rest.take(at - start));
        assert(rest.skip(at - start + 1) =~= s@.skip(at + 1));
        assert(lists(pieces@) =~= before + seq![rest.take(at - start)]);
        start = at + 1;
    }
    pieces
}

/// The search for a byte in what follows the place `skip` finds the place
/// that the search in the whole finds from there on.
pub proof fn lemma_index_skip(s: Seq<u8>, skip: int, from: int, byte: u8)
    requires
        0 <= skip <= from <= s.len(),
    ensures
        index_from(s.skip(skip), from - skip, byte) == index_from(s, from, byte) - skip,
    decreases s.len() - from,
{
    if from < s.len() && s[from] != byte {
        lemma_index_skip(s, skip, from + 1, byte);
    }
}

/// The byte strings that `v` holds.
pub open spec fn lists(v: Seq<Vec<u8>>) -> Seq<Seq<u8>> {
    Seq::new(v.len(), |i: int| v[i]@)
}

/// The lines of a text: the pieces between its line feeds, without the empty
/// piece behind a line feed that ends the text. The empty text has no line.
pub open spec fn lines_of(s: Seq<u8>) -> Seq<Seq<u8>> {
    if s.len() == 0 {
        Seq::empty()
    } else if s.last() == 10 {
        split_on(s.drop_last(), 10)
    } else {
        split_on(s, 10)
    }
}

/// The lines of a text, see [`lines_of`].
pub fn lines(s: &[u8]) -> (found: Vec<Vec<u8>>)
    ensures
        lists(found@) == lines_of(s@),
{
    if s.len() == 0 {
        let found: Vec<Vec<u8>> = Vec::new();
        assert(lists(found@) =~= lines_of(s@));
        found
    } else if s[s.len() - 1] == 10 {
        let body = slice_subrange(s, 0, s.len() - 1);
        assert(body@ =~= s@.drop_last());
        split(body, 10)
    } else {
        split(s, 10)
    }
}

/// `s` with a line feed in place of each carriage return that a line feed
/// follows.
pub open spec fn unix_text(s: Seq<u8>) -> Seq<u8>
    decreases s.len(),
{
    if s.len() == 0 {
        Seq::empty()
    } else if s.len() >= 2 && s[0] == 13 && s[1] == 10 {
        seq![10u8] + unix_text(s.skip(2))
    } else {
        seq![s[0]] + unix_text(s.skip(1))
    }
}

/// `s` with the line ends of Unix, see [`unix_text`].
pub fn to_unix(s: &[u8]) -> (text: Vec<u8>)
    ensures
        text@ == unix_text(s@),
{
    let mut text: Vec<u8> = Vec::new();
    let mut i: usize = 0;
    assert(s@.skip(0) =~= s@);
    while i < s.len()
        invariant
            i <= s.len(),
            unix_text(s@) == text@ + unix_text(s@.skip(i as int)),
        decreases s.len() - i,
    {
        let ghost rest = s@.skip(i as int);
        let ghost had = text@;
        if s[i] == 13 && i + 1 < s.len() && s[i + 1] == 10 {
            text.push(10);
            assert(rest.skip(2) =~= s@.skip(i + 2));
            assert(unix_text(s@) =~= text@ + unix_text(s@.skip(i + 2)));
            i += 2;
        } else {
            text.push(s[i]);
            assert(rest.skip(1) =~= s@.skip(i + 1));
            assert(unix_text(s@) =~= text@ + unix_text(s@.skip(i + 1)));
            i += 1;
        }
    }
    assert(text@ =~= unix_text(s@));
    text
}

} // verus!
