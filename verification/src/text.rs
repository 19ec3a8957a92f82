//! Byte-level text rules shared by every parser of the crate: splitting on a
//! separator, reading decimal numbers, and writing them back.
//!
//! All texts are modelled by the bytes of their UTF-8 encoding. Every
//! separator is an ASCII byte, so cutting a text at one never falls inside a
//! character.
use vstd::prelude::*;
use vstd::string::*;
use vstd::utf8::*;

verus! {

// ---------------------------------------------------------------------------
// Splitting
// ---------------------------------------------------------------------------
/// How often `sep` occurs in `s`.
pub open spec fn occurrences(s: Seq<u8>, sep: u8) -> nat
    decreases s.len(),
{
    if s.len() == 0 {
        0
    } else {
        occurrences(s.drop_last(), sep) + if s.last() == sep {
            1nat
        } else {
            0nat
        }
    }
}

/// `s` cut at every `sep`, empty pieces included. The empty text is one empty
/// piece.
pub open spec fn pieces(s: Seq<u8>, sep: u8) -> Seq<Seq<u8>>
    decreases s.len(),
{
    if s.len() == 0 {
        seq![Seq::empty()]
    } else {
        let before = pieces(s.drop_last(), sep);
        if s.last() == sep {
            before.push(Seq::empty())
        } else {
            before.drop_last().push(before.last().push(s.last()))
        }
    }
}

/// `p` without the run of empty pieces at its end.
pub open spec fn without_trailing_empty(p: Seq<Seq<u8>>) -> Seq<Seq<u8>>
    decreases p.len(),
{
    if p.len() > 0 && p.last().len() == 0 {
        without_trailing_empty(p.drop_last())
    } else {
        p
    }
}

/// The fields of `s` under the rule that a trailing run of separators is not
/// significant, that leading and interior empty fields are, and that a text
/// without a separator is one field, even when it is empty.
pub open spec fn fields(s: Seq<u8>, sep: u8) -> Seq<Seq<u8>> {
    if s.contains(sep) {
        without_trailing_empty(pieces(s, sep))
    } else {
        seq![s]
    }
}

/// The field at `i`, or the empty text where there is none.
pub open spec fn field_or_empty(s: Seq<u8>, sep: u8, i: int) -> Seq<u8> {
    if 0 <= i < fields(s, sep).len() {
        fields(s, sep)[i]
    } else {
        Seq::empty()
    }
}

/// `s` without the run of `sep` at its end.
pub open spec fn trim_end(s: Seq<u8>, sep: u8) -> Seq<u8>
    decreases s.len(),
{
    if s.len() > 0 && s.last() == sep {
        trim_end(s.drop_last(), sep)
    } else {
        s
    }
}

/// There is one piece more than there are separators.
pub proof fn lemma_pieces_len(s: Seq<u8>, sep: u8)
    ensures
        pieces(s, sep).len() == occurrences(s, sep) + 1,
        occurrences(s, sep) <= s.len(),
    decreases s.len(),
{
    if s.len() > 0 {
        lemma_pieces_len(s.drop_last(), sep);
    }
}

/// A separator occurs exactly when it is counted at least once.
pub proof fn lemma_occurrences_contains(s: Seq<u8>, sep: u8)
    ensures
        s.contains(sep) <==> occurrences(s, sep) > 0,
    decreases s.len(),
{
    if s.len() > 0 {
        let init = s.drop_last();
        lemma_occurrences_contains(init, sep);
        if s.last() == sep {
            assert(s[s.len() - 1] == sep);
        } else if s.contains(sep) {
            let i = choose|i: int| 0 <= i < s.len() && s[i] == sep;
            assert(init[i] == sep);
        } else {
            assert forall|i: int| 0 <= i < init.len() implies init[i] != sep by {
                assert(s[i] == init[i]);
            }
        }
    }
}

/// A text without the separator is one piece.
pub proof fn lemma_pieces_single(s: Seq<u8>, sep: u8)
    requires
        !s.contains(sep),
    ensures
        pieces(s, sep) == seq![s],
    decreases s.len(),
{
    if s.len() > 0 {
        let init = s.drop_last();
        assert(s[s.len() - 1] != sep);
        assert forall|i: int| 0 <= i < init.len() implies init[i] != sep by {
            assert(s[i] == init[i]);
        }
        lemma_pieces_single(init, sep);
        assert(init.push(s.last()) =~= s);
        assert(pieces(s, sep) =~= seq![s]);
    } else {
        assert(s =~= Seq::empty());
    }
}

/// Cutting at the first separator: the text before it is the first piece, and
/// the pieces of the text after it follow.
pub proof fn lemma_pieces_front(s: Seq<u8>, sep: u8, p: int)
    requires
        0 <= p < s.len(),
        s[p] == sep,
        forall|i: int| 0 <= i < p ==> s[i] != sep,
    ensures
        pieces(s, sep) == seq![s.take(p)] + pieces(s.skip(p + 1), sep),
    decreases s.len(),
{
    let init = s.drop_last();
    if p == s.len() - 1 {
        assert(init =~= s.take(p));
        assert(!init.contains(sep)) by {
            assert forall|i: int| 0 <= i < init.len() implies init[i] != sep by {
                assert(s[i] == init[i]);
            }
        }
        lemma_pieces_single(init, sep);
        assert(s.skip(p + 1) =~= Seq::empty());
        assert(pieces(s, sep) =~= seq![s.take(p)] + pieces(s.skip(p + 1), sep));
    } else {
        assert(init[p] == sep);
        assert forall|i: int| 0 <= i < p implies init[i] != sep by {
            assert(s[i] == init[i]);
        }
        lemma_pieces_front(init, sep, p);
        assert(init.take(p) =~= s.take(p));
        let tail = s.skip(p + 1);
        assert(tail.drop_last() =~= init.skip(p + 1));
        assert(tail.last() == s.last());
        lemma_pieces_len(init.skip(p + 1), sep);
        assert(pieces(s, sep) =~= seq![s.take(p)] + pieces(tail, sep));
    }
}

/// The last piece is empty exactly when the text is empty or ends in a
/// separator.
pub proof fn lemma_last_piece_empty(s: Seq<u8>, sep: u8)
    ensures
        pieces(s, sep).len() > 0,
        (pieces(s, sep).last().len() == 0) <==> (s.len() == 0 || s.last() == sep),
{
    lemma_pieces_len(s, sep);
}

/// Dropping the trailing empty pieces is the same as cutting the text after
/// dropping its trailing separators.
pub proof fn lemma_fields_are_pieces_of_trimmed(s: Seq<u8>, sep: u8)
    requires
        s.len() > 0,
    ensures
        fields(s, sep) == if trim_end(s, sep).len() == 0 {
            Seq::empty()
        } else {
            pieces(trim_end(s, sep), sep)
        },
{
    if s.contains(sep) {
        lemma_drop_trailing(s, sep);
    } else {
        lemma_pieces_single(s, sep);
        assert(s[s.len() - 1] != sep);
    }
}

proof fn lemma_drop_trailing(s: Seq<u8>, sep: u8)
    ensures
        without_trailing_empty(pieces(s, sep)) == if trim_end(s, sep).len() == 0 {
            Seq::empty()
        } else {
            pieces(trim_end(s, sep), sep)
        },
    decreases s.len(),
{
    lemma_last_piece_empty(s, sep);
    if s.len() == 0 {
        let p: Seq<Seq<u8>> = seq![Seq::empty()];
        assert(pieces(s, sep) == p);
        assert(p.drop_last() =~= Seq::empty());
        assert(without_trailing_empty(p) == without_trailing_empty(p.drop_last()));
        assert(without_trailing_empty(Seq::<Seq<u8>>::empty()) =~= Seq::<Seq<u8>>::empty());
    } else if s.last() == sep {
        lemma_drop_trailing(s.drop_last(), sep);
        assert(pieces(s, sep).drop_last() =~= pieces(s.drop_last(), sep));
    }
}

/// The fields are the pieces up to some point, and every piece from there on
/// is empty.
pub proof fn lemma_fields_prefix(s: Seq<u8>, sep: u8)
    ensures
        fields(s, sep).len() <= pieces(s, sep).len(),
        forall|i: int|
            0 <= i < fields(s, sep).len() ==> #[trigger] fields(s, sep)[i] == pieces(s, sep)[i],
        forall|i: int|
            fields(s, sep).len() <= i < pieces(s, sep).len() ==> (#[trigger] pieces(
                s,
                sep,
            )[i]).len() == 0,
        forall|i: int|
            0 <= i < pieces(s, sep).len() ==> #[trigger] pieces(s, sep)[i] == field_or_empty(
                s,
                sep,
                i,
            ),
{
    if s.contains(sep) {
        lemma_without_trailing_prefix(pieces(s, sep));
    } else {
        lemma_pieces_single(s, sep);
    }
    assert forall|i: int| 0 <= i < pieces(s, sep).len() implies #[trigger] pieces(s, sep)[i]
        == field_or_empty(s, sep, i) by {
        if i >= fields(s, sep).len() {
            assert(pieces(s, sep)[i] =~= Seq::empty());
        }
    }
}

proof fn lemma_without_trailing_prefix(p: Seq<Seq<u8>>)
    ensures
        without_trailing_empty(p).len() <= p.len(),
        forall|i: int|
            0 <= i < without_trailing_empty(p).len() ==> #[trigger] without_trailing_empty(p)[i]
                == p[i],
        forall|i: int|
            without_trailing_empty(p).len() <= i < p.len() ==> (#[trigger] p[i]).len() == 0,
    decreases p.len(),
{
    if p.len() > 0 && p.last().len() == 0 {
        let q = p.drop_last();
        lemma_without_trailing_prefix(q);
        assert forall|i: int| without_trailing_empty(p).len() <= i < p.len() implies (#[trigger] p[i]).len()
            == 0 by {
            if i < q.len() {
                assert(q[i] == p[i]);
            }
        }
    }
}


/// The first position at or after `from` that holds `sep`, or the length.
pub fn find_byte(b: &[u8], sep: u8, from: usize) -> (r: usize)
    requires
        from <= b@.len(),
    ensures
        from <= r <= b@.len(),
        forall|i: int| from <= i < r ==> b@[i] != sep,
        r < b@.len() ==> b@[r as int] == sep,
{
    let mut i: usize = from;
    while i < b.len()
        invariant_except_break
            true,
        invariant
            from <= i <= b@.len(),
            forall|k: int| from <= k < i ==> b@[k] != sep,
        ensures
            i < b@.len() ==> b@[i as int] == sep,
        decreases b@.len() - i,
    {
        if b[i] == sep {
            break;
        }
        i += 1;
    }
    i
}

/// The length of `b` without the run of `sep` at its end.
pub fn trimmed_len(b: &[u8], sep: u8) -> (r: usize)
    ensures
        r <= b@.len(),
        b@.take(r as int) == trim_end(b@, sep),
        r > 0 ==> b@[r - 1] != sep,
        forall|i: int| r <= i < b@.len() ==> b@[i] == sep,
{
    let mut end: usize = b.len();
    assert(b@.take(end as int) =~= b@);
    while end > 0 && b[end - 1] == sep
        invariant
            end <= b@.len(),
            trim_end(b@.take(end as int), sep) == trim_end(b@, sep),
            forall|i: int| end <= i < b@.len() ==> b@[i] == sep,
        decreases end,
    {
        assert(b@.take(end as int).drop_last() =~= b@.take(end - 1));
        end -= 1;
    }
    end
}

/// How often `sep` occurs in the first `end` bytes.
pub fn count_byte(b: &[u8], sep: u8, end: usize) -> (r: usize)
    requires
        end <= b@.len(),
    ensures
        r == occurrences(b@.take(end as int), sep),
        r <= end,
{
    let mut count: usize = 0;
    let mut i: usize = 0;
    while i < end
        invariant
            i <= end <= b@.len(),
            count == occurrences(b@.take(i as int), sep),
            count <= i,
        decreases end - i,
    {
        assert(b@.take(i + 1).drop_last() =~= b@.take(i as int));
        if b[i] == sep {
            count += 1;
        }
        i += 1;
    }
    count
}

/// The number of fields of `b`.
pub fn count_fields(b: &[u8], sep: u8) -> (r: usize)
    ensures
        r == fields(b@, sep).len(),
        r <= b@.len() || r == 1,
{
    if b.len() == 0 {
        return 1;
    }
    let end = trimmed_len(b, sep);
    proof {
        lemma_fields_are_pieces_of_trimmed(b@, sep);
        lemma_pieces_len(b@.take(end as int), sep);
    }
    if end == 0 {
        return 0;
    }
    let n: usize = count_byte(b, sep, end);
    proof {
        // The last byte kept is not a separator, so fewer than `end` are.
        let kept = b@.take(end as int);
        assert(kept.last() != sep);
        lemma_pieces_len(kept.drop_last(), sep);
    }
    n + 1
}

/// The bytes of a text form valid UTF-8.
pub broadcast proof fn lemma_text_is_utf8(s: &str)
    ensures
        valid_utf8(#[trigger] s.spec_bytes()),
{
    encode_utf8_valid_utf8(s@);
}

/// An ASCII byte of a text begins a character, and the next one begins right
/// after it.
proof fn lemma_ascii_boundary(b: Seq<u8>, p: int)
    requires
        valid_utf8(b),
        0 <= p < b.len(),
        b[p] < 0x80,
    ensures
        is_char_boundary(b, p),
{
    let c = b[p];
    assert(c < 0x80 ==> !(c & 0xC0 == 0x80)) by (bit_vector);
    is_char_boundary_iff_not_is_continuation_byte(b, p);
}

/// Cuts a text before the ASCII byte at `p`.
pub fn cut_before<'a>(s: &'a str, p: usize) -> (r: (&'a str, &'a str))
    requires
        p < s.spec_bytes().len(),
        s.spec_bytes()[p as int] < 0x80,
    ensures
        r.0.spec_bytes() == s.spec_bytes().take(p as int),
        r.1.spec_bytes() == s.spec_bytes().skip(p as int),
{
    proof {
        lemma_text_is_utf8(s);
        lemma_ascii_boundary(s.spec_bytes(), p as int);
    }
    s.split_at(p)
}

/// Cuts a text around the ASCII byte at `p`, which belongs to neither side.
pub fn cut_at<'a>(s: &'a str, p: usize) -> (r: (&'a str, &'a str))
    requires
        p < s.spec_bytes().len(),
        s.spec_bytes()[p as int] < 0x80,
    ensures
        r.0.spec_bytes() == s.spec_bytes().take(p as int),
        r.1.spec_bytes() == s.spec_bytes().skip(p + 1),
{
    let (head, rest) = cut_before(s, p);
    proof {
        lemma_text_is_utf8(rest);
        let b = rest.spec_bytes();
        assert(b[0] == s.spec_bytes()[p as int]);
        assert(b[0] < 0x80);
        assert(length_of_first_scalar(b) == 1);
        reveal_with_fuel(is_char_boundary, 2);
        assert(is_char_boundary(b, 1));
        assert(b.subrange(1, b.len() as int) =~= s.spec_bytes().skip(p + 1));
    }
    let (_, tail) = rest.split_at(1);
    (head, tail)
}

/// The `n`-th piece of `s`.
pub fn piece<'a>(s: &'a str, sep: u8, n: usize) -> (r: &'a str)
    requires
        sep < 0x80,
        n < pieces(s.spec_bytes(), sep).len(),
    ensures
        r.spec_bytes() == pieces(s.spec_bytes(), sep)[n as int],
{
    let mut rest: &'a str = s;
    let mut k: usize = 0;
    while k < n
        invariant
            k <= n,
            sep < 0x80,
            n < pieces(s.spec_bytes(), sep).len(),
            pieces(s.spec_bytes(), sep).len() == k + pieces(rest.spec_bytes(), sep).len(),
            forall|i: int|
                0 <= i < pieces(rest.spec_bytes(), sep).len() ==> #[trigger] pieces(
                    rest.spec_bytes(),
                    sep,
                )[i] == pieces(s.spec_bytes(), sep)[k + i],
        decreases n - k,
    {
        let b = rest.as_bytes();
        let p = find_byte(b, sep, 0);
        proof {
            if p == b@.len() {
                assert(!b@.contains(sep));
                lemma_pieces_single(b@, sep);
            } else {
                lemma_pieces_front(b@, sep, p as int);
            }
        }
        let (_, tail) = cut_at(rest, p);
        proof {
            let before = pieces(rest.spec_bytes(), sep);
            let after = pieces(tail.spec_bytes(), sep);
            assert forall|i: int| 0 <= i < after.len() implies #[trigger] after[i] == pieces(
                s.spec_bytes(),
                sep,
            )[k + 1 + i] by {
                assert(before[i + 1] == after[i]);
            }
        }
        rest = tail;
        k += 1;
    }
    let b = rest.as_bytes();
    let p = find_byte(b, sep, 0);
    proof {
        assert(pieces(rest.spec_bytes(), sep)[0] == pieces(s.spec_bytes(), sep)[n as int]);
    }
    if p == b.len() {
        proof {
            assert(!b@.contains(sep));
            lemma_pieces_single(b@, sep);
        }
        rest
    } else {
        proof {
            lemma_pieces_front(b@, sep, p as int);
        }
        cut_at(rest, p).0
    }
}

/// The `n`-th field of `s`.
pub fn field<'a>(s: &'a str, sep: u8, n: usize) -> (r: &'a str)
    requires
        sep < 0x80,
        n < fields(s.spec_bytes(), sep).len(),
    ensures
        r.spec_bytes() == fields(s.spec_bytes(), sep)[n as int],
{
    proof {
        lemma_fields_prefix(s.spec_bytes(), sep);
    }
    piece(s, sep, n)
}


// ---------------------------------------------------------------------------
// Decimal numbers
// ---------------------------------------------------------------------------
/// An ASCII decimal digit.
pub open spec fn is_digit(b: u8) -> bool {
    48 <= b <= 57
}

/// Every byte of `s` is a decimal digit.
pub open spec fn all_digits(s: Seq<u8>) -> bool {
    forall|i: int| 0 <= i < s.len() ==> is_digit(#[trigger] s[i])
}

/// The number that a run of decimal digits writes.
pub open spec fn digits_value(s: Seq<u8>) -> nat
    decreases s.len(),
{
    if s.len() == 0 {
        0
    } else {
        digits_value(s.drop_last()) * 10 + (s.last() - 48) as nat
    }
}

/// The number that a non-empty run of digits writes, if `s` is one.
pub open spec fn digits(s: Seq<u8>) -> Option<nat> {
    if s.len() > 0 && all_digits(s) {
        Some(digits_value(s))
    } else {
        None
    }
}

/// The number that `s` writes as an unsigned integer: digits, with an optional
/// `+` in front of them.
pub open spec fn unsigned_value(s: Seq<u8>) -> Option<nat> {
    if s.len() > 0 && s[0] == 43 {
        digits(s.skip(1))
    } else {
        digits(s)
    }
}

/// The number that `s` writes as a signed integer: digits, with an optional
/// `+` or `-` in front of them.
pub open spec fn signed_value(s: Seq<u8>) -> Option<int> {
    if s.len() > 0 && s[0] == 45 {
        match digits(s.skip(1)) {
            Some(v) => Some(-(v as int)),
            None => None,
        }
    } else {
        match unsigned_value(s) {
            Some(v) => Some(v as int),
            None => None,
        }
    }
}

/// The 64-bit unsigned integer that `s` writes, if it writes one that fits.
pub open spec fn u64_value(s: Seq<u8>) -> Option<u64> {
    match unsigned_value(s) {
        Some(v) => if v <= u64::MAX {
            Some(v as u64)
        } else {
            None
        },
        None => None,
    }
}

/// The node-id-wide unsigned integer that `s` writes, if it writes one that
/// fits.
pub open spec fn usize_value(s: Seq<u8>) -> Option<usize> {
    match unsigned_value(s) {
        Some(v) => if v <= usize::MAX {
            Some(v as usize)
        } else {
            None
        },
        None => None,
    }
}

/// The 64-bit signed integer that `s` writes, if it writes one that fits.
pub open spec fn i64_value(s: Seq<u8>) -> Option<i64> {
    match signed_value(s) {
        Some(v) => if i64::MIN <= v <= i64::MAX {
            Some(v as i64)
        } else {
            None
        },
        None => None,
    }
}

/// The 32-bit unsigned integer that `s` writes, if it writes one that fits.
pub open spec fn u32_value(s: Seq<u8>) -> Option<u32> {
    match unsigned_value(s) {
        Some(v) => if v <= u32::MAX {
            Some(v as u32)
        } else {
            None
        },
        None => None,
    }
}

/// The 32-bit signed integer that `s` writes, if it writes one that fits.
pub open spec fn i32_value(s: Seq<u8>) -> Option<i32> {
    match signed_value(s) {
        Some(v) => if i32::MIN <= v <= i32::MAX {
            Some(v as i32)
        } else {
            None
        },
        None => None,
    }
}

/// More digits never write a smaller number.
proof fn lemma_digits_value_grows(s: Seq<u8>, k: int)
    requires
        0 <= k <= s.len(),
        all_digits(s),
    ensures
        digits_value(s.take(k)) <= digits_value(s),
    decreases s.len() - k,
{
    if k == s.len() {
        assert(s.take(k) =~= s);
    } else {
        assert(s.take(k + 1).drop_last() =~= s.take(k));
        assert(is_digit(s[k]));
        lemma_digits_value_grows(s, k + 1);
    }
}

/// Reads the digits of `b` from `from` on as a number of at most `max`.
pub fn parse_digits(b: &[u8], from: usize, max: u64) -> (r: Option<u64>)
    requires
        from <= b@.len(),
    ensures
        r == match digits(b@.skip(from as int)) {
            Some(v) => if v <= max {
                Some(v as u64)
            } else {
                None
            },
            None => None,
        },
{
    let ghost s = b@.skip(from as int);
    if from == b.len() {
        return None;
    }
    let mut acc: u64 = 0;
    let mut i: usize = from;
    while i < b.len()
        invariant
            from <= i <= b@.len(),
            from < b@.len(),
            s == b@.skip(from as int),
            forall|k: int| 0 <= k < i - from ==> is_digit(#[trigger] s[k]),
            acc == digits_value(s.take(i - from)),
            acc <= max,
        decreases b@.len() - i,
    {
        let c: u8 = b[i];
        assert(s[i - from] == c);
        if c < 48 || c > 57 {
            assert(!is_digit(s[i - from]));
            return None;
        }
        let d: u64 = (c - 48) as u64;
        assert(s.take(i - from + 1).drop_last() =~= s.take(i - from));
        assert(digits_value(s.take(i - from + 1)) == acc * 10 + d);
        if acc > max / 10 || d > max - acc * 10 {
            proof {
                assert(acc * 10 + d > max);
                if all_digits(s) {
                    lemma_digits_value_grows(s, i - from + 1);
                }
            }
            return None;
        }
        acc = acc * 10 + d;
        i += 1;
    }
    assert(s.take(i - from) =~= s);
    Some(acc)
}

/// Reads `b` as an unsigned integer of at most `max`.
pub fn parse_unsigned(b: &[u8], max: u64) -> (r: Option<u64>)
    ensures
        r == match unsigned_value(b@) {
            Some(v) => if v <= max {
                Some(v as u64)
            } else {
                None
            },
            None => None,
        },
{
    if b.len() > 0 && b[0] == 43 {
        parse_digits(b, 1, max)
    } else {
        assert(b@.skip(0) =~= b@);
        parse_digits(b, 0, max)
    }
}

/// Reads a text as a `u64`.
pub fn parse_u64(s: &str) -> (r: Option<u64>)
    ensures
        r == u64_value(s.spec_bytes()),
{
    parse_unsigned(s.as_bytes(), u64::MAX)
}

/// Reads a text as a `usize`.
pub fn parse_usize(s: &str) -> (r: Option<usize>)
    ensures
        r == usize_value(s.spec_bytes()),
{
    match parse_unsigned(s.as_bytes(), usize::MAX as u64) {
        Some(v) => Some(v as usize),
        None => None,
    }
}

/// Reads a text as a `u32`.
pub fn parse_u32(s: &str) -> (r: Option<u32>)
    ensures
        r == u32_value(s.spec_bytes()),
{
    match parse_unsigned(s.as_bytes(), u32::MAX as u64) {
        Some(v) => Some(v as u32),
        None => None,
    }
}

/// Reads a text as an `i64`.
pub fn parse_i64(s: &str) -> (r: Option<i64>)
    ensures
        r == i64_value(s.spec_bytes()),
{
    let b = s.as_bytes();
    if b.len() > 0 && b[0] == 45 {
        match parse_digits(b, 1, 0x8000_0000_0000_0000) {
            Some(v) => Some((-(v as i128)) as i64),
            None => None,
        }
    } else {
        match parse_unsigned(b, 0x7fff_ffff_ffff_ffff) {
            Some(v) => Some(v as i64),
            None => None,
        }
    }
}

/// Reads a text as an `i32`.
pub fn parse_i32(s: &str) -> (r: Option<i32>)
    ensures
        r == i32_value(s.spec_bytes()),
{
    let b = s.as_bytes();
    if b.len() > 0 && b[0] == 45 {
        match parse_digits(b, 1, 0x8000_0000) {
            Some(v) => Some((-(v as i64)) as i32),
            None => None,
        }
    } else {
        match parse_unsigned(b, 0x7fff_ffff) {
            Some(v) => Some(v as i32),
            None => None,
        }
    }
}

/// The character of the decimal digit `d`.
pub open spec fn digit_char(d: nat) -> char {
    (48 + d) as char
}

/// The decimal digits of `n`, without leading zeros.
pub open spec fn decimal(n: nat) -> Seq<char>
    decreases n,
{
    if n < 10 {
        seq![digit_char(n)]
    } else {
        decimal(n / 10).push(digit_char(n % 10))
    }
}

/// The decimal digits of `v`, behind a `-` where it is negative.
pub open spec fn signed_decimal(v: int) -> Seq<char> {
    if v < 0 {
        seq!['-'] + decimal((-v) as nat)
    } else {
        decimal(v as nat)
    }
}


/// A text written after another is its bytes after the other's.
pub proof fn lemma_encode_concat(a: Seq<char>, b: Seq<char>)
    ensures
        encode_utf8(a + b) == encode_utf8(a) + encode_utf8(b),
    decreases a.len(),
{
    if a.len() == 0 {
        assert(a + b =~= b);
        assert(encode_utf8(a) =~= Seq::empty());
        assert(encode_utf8(a) + encode_utf8(b) =~= encode_utf8(b));
    } else {
        lemma_encode_concat(a.drop_first(), b);
        assert((a + b).drop_first() =~= a.drop_first() + b);
        assert(encode_utf8(a + b) =~= encode_utf8(a) + encode_utf8(b));
    }
}

/// The bytes of a number's decimal digits, one for one.
pub open spec fn decimal_bytes(n: nat) -> Seq<u8>
    decreases n,
{
    if n < 10 {
        seq![(48 + n) as u8]
    } else {
        decimal_bytes(n / 10).push((48 + n % 10) as u8)
    }
}

/// The bytes of a signed number's decimal digits.
pub open spec fn signed_decimal_bytes(v: int) -> Seq<u8> {
    if v < 0 {
        seq![45u8] + decimal_bytes((-v) as nat)
    } else {
        decimal_bytes(v as nat)
    }
}

/// Decimal digits are ASCII, and encode byte for character.
pub proof fn lemma_decimal_encoding(n: nat)
    ensures
        encode_utf8(decimal(n)) == decimal_bytes(n),
        is_ascii_chars(decimal(n)),
    decreases n,
{
    if n >= 10 {
        lemma_decimal_encoding(n / 10);
        let last = seq![digit_char(n % 10)];
        assert(is_ascii_chars(last));
        assert(decimal(n) =~= decimal(n / 10) + last);
        lemma_encode_concat(decimal(n / 10), last);
        is_ascii_chars_encode_utf8(last);
        assert(encode_utf8(last) =~= seq![(48 + n % 10) as u8]);
        assert(encode_utf8(decimal(n)) =~= decimal_bytes(n));
    } else {
        assert(is_ascii_chars(decimal(n)));
        is_ascii_chars_encode_utf8(decimal(n));
        assert(encode_utf8(decimal(n)) =~= decimal_bytes(n));
    }
}

/// The encoding of a signed number's digits.
pub proof fn lemma_signed_decimal_encoding(v: int)
    ensures
        encode_utf8(signed_decimal(v)) == signed_decimal_bytes(v),
{
    if v < 0 {
        lemma_decimal_encoding((-v) as nat);
        let sign = seq!['-'];
        assert(is_ascii_chars(sign));
        is_ascii_chars_encode_utf8(sign);
        assert(encode_utf8(sign) =~= seq![45u8]);
        lemma_encode_concat(sign, decimal((-v) as nat));
    } else {
        lemma_decimal_encoding(v as nat);
    }
}

/// The digits of a number are digits, and write that number.
pub proof fn lemma_decimal_digits(n: nat)
    ensures
        decimal_bytes(n).len() > 0,
        all_digits(decimal_bytes(n)),
        digits_value(decimal_bytes(n)) == n,
    decreases n,
{
    if n >= 10 {
        lemma_decimal_digits(n / 10);
        let s = decimal_bytes(n);
        assert(s.drop_last() =~= decimal_bytes(n / 10));
        assert forall|i: int| 0 <= i < s.len() implies is_digit(#[trigger] s[i]) by {
            if i < s.len() - 1 {
                assert(s[i] == decimal_bytes(n / 10)[i]);
            }
        }
    } else {
        let s = decimal_bytes(n);
        assert(s.drop_last() =~= Seq::empty());
        assert(digits_value(s.drop_last()) == 0);
    }
}

/// Reading back what was written: the decimal digits of an unsigned number
/// are read as that number.
pub proof fn lemma_decimal_round_trip(n: nat)
    ensures
        unsigned_value(decimal_bytes(n)) == Some(n),
        n <= usize::MAX ==> usize_value(decimal_bytes(n)) == Some(n as usize),
        n <= u64::MAX ==> u64_value(decimal_bytes(n)) == Some(n as u64),
{
    lemma_decimal_digits(n);
    assert(is_digit(decimal_bytes(n)[0]));
}

/// `itoa::Buffer`: the scratch space a number is formatted in.
#[verifier::external_type_specification]
#[verifier::external_body]
pub struct ExItoaBuffer(itoa::Buffer);

/// `itoa::Buffer::new`, a fresh scratch space. Nothing is claimed of it.
pub assume_specification[ itoa::Buffer::new ]() -> itoa::Buffer
;

/// `itoa::Buffer::format` on a `u64`: the decimal digits of the number,
/// without leading zeros.
#[verifier::external_body]
pub(crate) fn decimal_text<'a>(buffer: &'a mut itoa::Buffer, n: u64) -> (r: &'a str)
    ensures
        r@ == decimal(n as nat),
{
    buffer.format(n)
}

/// Appends the bytes of a text.
pub fn push_text(buf: &mut Vec<u8>, s: &str)
    ensures
        final(buf)@ == old(buf)@ + s.spec_bytes(),
{
    buf.extend_from_slice(s.as_bytes());
}

/// Appends the decimal digits of `n`.
pub fn push_decimal(buf: &mut Vec<u8>, n: u64)
    ensures
        final(buf)@ == old(buf)@ + decimal_bytes(n as nat),
{
    let mut scratch = itoa::Buffer::new();
    let s = decimal_text(&mut scratch, n);
    proof {
        lemma_decimal_encoding(n as nat);
    }
    buf.extend_from_slice(s.as_bytes());
}

/// Appends the decimal digits of `v`, behind a `-` where it is negative.
pub fn push_signed(buf: &mut Vec<u8>, v: i64)
    ensures
        final(buf)@ == old(buf)@ + signed_decimal_bytes(v as int),
{
    if v < 0 {
        buf.push(45);
        push_decimal(buf, (-(v as i128)) as u64);
        assert(buf@ =~= old(buf)@ + signed_decimal_bytes(v as int));
    } else {
        push_decimal(buf, v as u64);
    }
}

/// Appends the decimal digits of `n` to a text.
pub fn append_decimal(out: &mut String, n: u64)
    ensures
        final(out)@ == old(out)@ + decimal(n as nat),
{
    let mut scratch = itoa::Buffer::new();
    let s = decimal_text(&mut scratch, n);
    out.append(s);
}

/// The decimal digits of `n`, behind zeros where they are fewer than `width`.
pub open spec fn padded(n: nat, width: nat) -> Seq<char> {
    let d = decimal(n);
    if d.len() >= width {
        d
    } else {
        Seq::new((width - d.len()) as nat, |i: int| '0') + d
    }
}

proof fn lemma_decimal_len(n: nat)
    ensures
        decimal(n).len() == decimal_bytes(n).len(),
    decreases n,
{
    if n >= 10 {
        lemma_decimal_len(n / 10);
    }
}

/// Appends the decimal digits of `n` to a text, behind zeros where they are
/// fewer than `width`.
pub fn append_padded(out: &mut String, n: u64, width: usize)
    ensures
        final(out)@ == old(out)@ + padded(n as nat, width as nat),
{
    let mut scratch = itoa::Buffer::new();
    let s = decimal_text(&mut scratch, n);
    proof {
        lemma_decimal_encoding(n as nat);
        lemma_decimal_len(n as nat);
        reveal_strlit("0");
    }
    let mut len: usize = s.as_bytes().len();
    let ghost start = out@;
    let ghost digits = len as nat;
    assert(out@ =~= start + Seq::new(0, |i: int| '0'));
    while len < width
        invariant
            digits <= len,
            len <= width || len == digits,
            out@ == start + Seq::new((len - digits) as nat, |i: int| '0'),
            "0"@ == seq!['0'],
        decreases width - len,
    {
        out.append("0");
        assert(out@ =~= start + Seq::new((len + 1 - digits) as nat, |i: int| '0'));
        len = len + 1;
    }
    out.append(s);
    assert(out@ =~= start + padded(n as nat, width as nat));
}

/// Appends the decimal digits of `v` to a text, behind a `-` where it is
/// negative.
pub fn append_signed(out: &mut String, v: i64)
    ensures
        final(out)@ == old(out)@ + signed_decimal(v as int),
{
    if v < 0 {
        proof {
            reveal_strlit("-");
            assert("-"@ =~= seq!['-']);
        }
        out.append("-");
        append_decimal(out, (-(v as i128)) as u64);
        assert(out@ =~= old(out)@ + signed_decimal(v as int));
    } else {
        append_decimal(out, v as u64);
    }
}

/// A text, with spaces before it where it is shorter than `width`.
pub open spec fn right_aligned(s: Seq<char>, width: nat) -> Seq<char> {
    if s.len() >= width {
        s
    } else {
        Seq::new((width - s.len()) as nat, |i: int| ' ') + s
    }
}

/// A text, with spaces after it where it is shorter than `width`.
pub open spec fn left_aligned(s: Seq<char>, width: nat) -> Seq<char> {
    if s.len() >= width {
        s
    } else {
        s + Seq::new((width - s.len()) as nat, |i: int| ' ')
    }
}

/// Appends as many spaces as `len` is short of `width`.
fn append_spaces(out: &mut String, len: usize, width: usize)
    ensures
        final(out)@ == old(out)@ + Seq::new(
            if len < width {
                (width - len) as nat
            } else {
                0
            },
            |i: int| ' ',
        ),
{
    let ghost start = out@;
    let mut n: usize = len;
    proof {
        reveal_strlit(" ");
        assert(" "@ =~= seq![' ']);
    }
    assert(out@ =~= start + Seq::new(0, |i: int| ' '));
    while n < width
        invariant
            len <= n,
            n <= width || n == len,
            out@ == start + Seq::new((n - len) as nat, |i: int| ' '),
            " "@ == seq![' '],
        decreases width - n,
    {
        out.append(" ");
        assert(out@ =~= start + Seq::new((n + 1 - len) as nat, |i: int| ' '));
        n = n + 1;
    }
}

/// Appends the decimal digits of `n`, aligned to the right.
pub fn append_decimal_right(out: &mut String, n: u64, width: usize)
    ensures
        final(out)@ == old(out)@ + right_aligned(decimal(n as nat), width as nat),
{
    let mut scratch = itoa::Buffer::new();
    let s = decimal_text(&mut scratch, n);
    proof {
        lemma_decimal_encoding(n as nat);
        lemma_decimal_len(n as nat);
    }
    append_spaces(out, s.as_bytes().len(), width);
    out.append(s);
    assert(out@ =~= old(out)@ + right_aligned(decimal(n as nat), width as nat));
}

/// Appends a text, aligned to the right.
pub fn append_right(out: &mut String, s: &str, width: usize)
    ensures
        final(out)@ == old(out)@ + right_aligned(s@, width as nat),
{
    append_spaces(out, s.unicode_len(), width);
    out.append(s);
    assert(out@ =~= old(out)@ + right_aligned(s@, width as nat));
}

/// Appends a signed number, aligned to the left.
pub fn append_signed_left(out: &mut String, v: i64, width: usize)
    ensures
        final(out)@ == old(out)@ + left_aligned(signed_decimal(v as int), width as nat),
{
    let mut s: String = String::new();
    append_signed(&mut s, v);
    proof {
        let n = if v < 0 {
            -(v as int)
        } else {
            v as int
        };
        lemma_signed_decimal_encoding(v as int);
        lemma_decimal_len(n as nat);
        assert(s@ =~= signed_decimal(v as int));
    }
    let len: usize = s.as_str().as_bytes().len();
    out.append(s.as_str());
    append_spaces(out, len, width);
    assert(out@ =~= old(out)@ + left_aligned(signed_decimal(v as int), width as nat));
}

/// The decimal digits of `v`, behind a `-` where it is negative and then behind
/// zeros, in `width` characters or more.
pub open spec fn signed_padded(v: int, width: nat) -> Seq<char> {
    if v < 0 {
        seq!['-'] + padded(
            (-v) as nat,
            if width > 0 {
                (width - 1) as nat
            } else {
                0
            },
        )
    } else {
        padded(v as nat, width)
    }
}

/// Appends a signed number, padded with zeros.
pub fn append_signed_padded(out: &mut String, v: i64, width: usize)
    ensures
        final(out)@ == old(out)@ + signed_padded(v as int, width as nat),
{
    if v < 0 {
        proof {
            reveal_strlit("-");
            assert("-"@ =~= seq!['-']);
        }
        out.append("-");
        append_padded(
            out,
            (-(v as i128)) as u64,
            if width > 0 {
                width - 1
            } else {
                0
            },
        );
        assert(out@ =~= old(out)@ + signed_padded(v as int, width as nat));
    } else {
        append_padded(out, v as u64, width);
    }
}

// ---------------------------------------------------------------------------
// White space
// ---------------------------------------------------------------------------
/// The characters with Unicode's `White_Space` property.
pub open spec fn is_white_space(c: char) -> bool {
    ||| '\u{9}' <= c <= '\u{d}'
    ||| c == '\u{20}'
    ||| c == '\u{85}'
    ||| c == '\u{a0}'
    ||| c == '\u{1680}'
    ||| '\u{2000}' <= c <= '\u{200a}'
    ||| c == '\u{2028}'
    ||| c == '\u{2029}'
    ||| c == '\u{202f}'
    ||| c == '\u{205f}'
    ||| c == '\u{3000}'
}

/// Nothing but white space, or nothing at all.
pub open spec fn is_blank_text(s: Seq<char>) -> bool {
    forall|i: int| 0 <= i < s.len() ==> is_white_space(#[trigger] s[i])
}

/// Whether `c` is white space.
pub fn white_space(c: char) -> (r: bool)
    ensures
        r == is_white_space(c),
{
    (c >= '\u{9}' && c <= '\u{d}') || c == '\u{20}' || c == '\u{85}' || c == '\u{a0}' || c
        == '\u{1680}' || (c >= '\u{2000}' && c <= '\u{200a}') || c == '\u{2028}' || c == '\u{2029}'
        || c == '\u{202f}' || c == '\u{205f}' || c == '\u{3000}'
}

/// Whether a text holds nothing but white space.
pub fn is_blank(s: &str) -> (r: bool)
    ensures
        r == is_blank_text(s@),
{
    for c in it: s.chars()
        invariant
            it.seq() == s@,
            forall|i: int| 0 <= i < it.index() ==> is_white_space(#[trigger] s@[i]),
    {
        if !white_space(c) {
            assert(!is_white_space(s@[it.index() as int]));
            return false;
        }
    }
    true
}


/// A text without the white space at its start.
pub open spec fn trim_white_start(s: Seq<char>) -> Seq<char>
    decreases s.len(),
{
    if s.len() > 0 && is_white_space(s[0]) {
        trim_white_start(s.drop_first())
    } else {
        s
    }
}

/// A text without the white space at its end.
pub open spec fn trim_white_end(s: Seq<char>) -> Seq<char>
    decreases s.len(),
{
    if s.len() > 0 && is_white_space(s.last()) {
        trim_white_end(s.drop_last())
    } else {
        s
    }
}

/// A text without the white space at its start and at its end.
pub open spec fn trim_white(s: Seq<char>) -> Seq<char> {
    trim_white_end(trim_white_start(s))
}

/// `str::trim`: the text without its leading and trailing white space.
#[verifier::external_body]
pub(crate) fn trimmed_text<'a>(s: &'a str) -> (r: &'a str)
    ensures
        r@ == trim_white(s@),
{
    s.trim()
}

/// The start of a text up to its first white space.
pub open spec fn until_white(s: Seq<char>) -> Seq<char>
    decreases s.len(),
{
    if s.len() == 0 || is_white_space(s[0]) {
        Seq::empty()
    } else {
        seq![s[0]] + until_white(s.drop_first())
    }
}

/// The first word of a text: its first characters that are no white space.
pub open spec fn first_word(s: Seq<char>) -> Option<Seq<char>> {
    let t = trim_white_start(s);
    if t.len() == 0 {
        None
    } else {
        Some(until_white(t))
    }
}

/// `str::split_whitespace`, the first word it gives: what stands before, between
/// or after white space.
#[verifier::external_body]
pub(crate) fn first_word_of<'a>(s: &'a str) -> (r: Option<&'a str>)
    ensures
        match r {
            Some(w) => first_word(s@) == Some(w@),
            None => first_word(s@) is None,
        },
{
    s.split_whitespace().next()
}

// ---------------------------------------------------------------------------
// UTF-8
// ---------------------------------------------------------------------------
/// The first `n` bytes are valid UTF-8, and no longer start of `b` is.
pub open spec fn is_valid_prefix_len(b: Seq<u8>, n: int) -> bool {
    &&& 0 <= n <= b.len()
    &&& valid_utf8(b.take(n))
    &&& forall|m: int| n < m <= b.len() ==> !valid_utf8(#[trigger] b.take(m))
}

/// The length of the longest start of `b` that is valid UTF-8.
pub open spec fn valid_prefix_len(b: Seq<u8>) -> int {
    choose|n: int| is_valid_prefix_len(b, n)
}

/// There is only one longest valid start.
pub proof fn lemma_valid_prefix_len(b: Seq<u8>, n: int)
    requires
        is_valid_prefix_len(b, n),
    ensures
        valid_prefix_len(b) == n,
{
    let m = valid_prefix_len(b);
    assert(is_valid_prefix_len(b, m));
    assert(valid_utf8(b.take(m)) && valid_utf8(b.take(n)));
}

/// `std::str::from_utf8`: the text that the bytes encode, where they are valid
/// UTF-8; else `Utf8Error::valid_up_to`, the largest index up to which they
/// are.
#[verifier::external_body]
pub(crate) fn utf8_text<'a>(b: &'a [u8]) -> (r: std::result::Result<&'a str, usize>)
    ensures
        match r {
            Ok(s) => s.spec_bytes() == b@,
            Err(n) => !valid_utf8(b@) && is_valid_prefix_len(b@, n as int),
        },
{
    std::str::from_utf8(b).map_err(|e| e.valid_up_to())
}

/// The text that `String::from_utf8_lossy` makes of some bytes: each invalid
/// sequence in them replaced by U+FFFD.
pub uninterp spec fn utf8_lossy(b: Seq<u8>) -> Seq<char>;

/// `String::from_utf8_lossy`. The text is named, not spelled out. Of bytes that
/// are valid UTF-8 it is the text that they encode; as each invalid sequence
/// has at least one byte and U+FFFD takes three, it is at most three times as
/// long as the bytes.
#[verifier::external_body]
pub(crate) fn utf8_text_lossy(b: &[u8]) -> (r: String)
    ensures
        r@ == utf8_lossy(b@),
        valid_utf8(b@) ==> encode_utf8(r@) == b@,
        encode_utf8(r@).len() <= 3 * b@.len(),
{
    String::from_utf8_lossy(b).into_owned()
}

/// No field is longer than the text it is a field of.
pub proof fn lemma_field_len(s: Seq<u8>, sep: u8)
    ensures
        forall|i: int|
            0 <= i < fields(s, sep).len() ==> (#[trigger] fields(s, sep)[i]).len() <= s.len(),
        fields(s, sep).len() <= s.len() || fields(s, sep).len() == 1,
{
    lemma_fields_prefix(s, sep);
    lemma_piece_len(s, sep);
    if s.len() > 0 {
        lemma_fields_are_pieces_of_trimmed(s, sep);
        let t = trim_end(s, sep);
        lemma_trim_end(s, sep);
        if t.len() > 0 {
            lemma_pieces_len(t, sep);
            lemma_pieces_len(t.drop_last(), sep);
        }
    }
}

proof fn lemma_trim_end(s: Seq<u8>, sep: u8)
    ensures
        trim_end(s, sep).len() <= s.len(),
        trim_end(s, sep).len() > 0 ==> trim_end(s, sep).last() != sep,
    decreases s.len(),
{
    if s.len() > 0 && s.last() == sep {
        lemma_trim_end(s.drop_last(), sep);
    }
}

proof fn lemma_piece_len(s: Seq<u8>, sep: u8)
    ensures
        forall|i: int|
            0 <= i < pieces(s, sep).len() ==> (#[trigger] pieces(s, sep)[i]).len() <= s.len(),
    decreases s.len(),
{
    if s.len() > 0 {
        let before = pieces(s.drop_last(), sep);
        lemma_piece_len(s.drop_last(), sep);
        lemma_pieces_len(s.drop_last(), sep);
        assert forall|i: int| 0 <= i < pieces(s, sep).len() implies (#[trigger] pieces(
            s,
            sep,
        )[i]).len() <= s.len() by {
            if i < before.len() {
                assert(before[i].len() <= s.len() - 1);
            }
        }
    }
}

/// Whether two texts are the same.
pub fn same_text(a: &str, b: &str) -> (r: bool)
    ensures
        r == (a@ == b@),
{
    let x = a.as_bytes();
    let y = b.as_bytes();
    proof {
        encode_utf8_decode_utf8(a@);
        encode_utf8_decode_utf8(b@);
    }
    if x.len() != y.len() {
        return false;
    }
    let mut i: usize = 0;
    while i < x.len()
        invariant
            i <= x@.len(),
            x@.len() == y@.len(),
            x@ == encode_utf8(a@),
            y@ == encode_utf8(b@),
            forall|k: int| 0 <= k < i ==> x@[k] == y@[k],
        decreases x@.len() - i,
    {
        if x[i] != y[i] {
            return false;
        }
        i = i + 1;
    }
    assert(x@ =~= y@);
    true
}

/// `String::push`: the character goes to the end of the text.
#[verifier::external_body]
pub(crate) fn append_char(s: &mut String, c: char)
    ensures
        final(s)@ == old(s)@.push(c),
{
    s.push(c);
}

// ---------------------------------------------------------------------------
// Laws
// ---------------------------------------------------------------------------
/// Digits have places: what is written before some digits counts ten times as
/// much for each of them, and a single digit counts as itself.
pub proof fn digits_have_places(a: Seq<u8>, b: Seq<u8>, d: u8)
    ensures
        digits_value(a + b) == digits_value(a) * vstd::arithmetic::power::pow(10, b.len()) + digits_value(b),
        48 <= d <= 57 ==> digits_value(seq![d]) == d - 48,
    decreases b.len(),
{
    assert(seq![d].drop_last() =~= Seq::empty());
    assert(digits_value(Seq::<u8>::empty()) == 0);
    assert(digits_value(seq![d]) == digits_value(seq![d].drop_last()) * 10 + (d - 48) as nat);
    if b.len() == 0 {
        assert(a + b =~= a);
        vstd::arithmetic::power::lemma_pow0(10);
    } else {
        let init = b.drop_last();
        digits_have_places(a, init, d);
        assert((a + b).drop_last() =~= a + init);
        assert((a + b).last() == b.last());
        vstd::arithmetic::power::lemma_pow1(10);
        vstd::arithmetic::power::lemma_pow_adds(10, init.len(), 1);
        let x = digits_value(a) as int;
        let p = vstd::arithmetic::power::pow(10, init.len());
        let y = digits_value(init) as int;
        assert((x * p + y) * 10 == x * (p * 10) + y * 10) by (nonlinear_arith);
    }
}

/// A run of digits is read as the number that it writes, with or without a `+`
/// before it, by every reader whose range the number is in and by no other;
/// behind a `-` it is read as the negative of it, by the signed readers.
pub proof fn digits_are_read(s: Seq<u8>)
    requires
        s.len() > 0,
        forall|i: int| 0 <= i < s.len() ==> 48 <= #[trigger] s[i] <= 57,
    ensures
        u64_value(s) is Some <==> digits_value(s) <= u64::MAX,
        u64_value(s) is Some ==> u64_value(s)->0 == digits_value(s),
        usize_value(s) is Some <==> digits_value(s) <= usize::MAX,
        usize_value(s) is Some ==> usize_value(s)->0 == digits_value(s),
        u32_value(s) is Some <==> digits_value(s) <= u32::MAX,
        u32_value(s) is Some ==> u32_value(s)->0 == digits_value(s),
        i64_value(s) is Some <==> digits_value(s) <= i64::MAX,
        i64_value(s) is Some ==> i64_value(s)->0 == digits_value(s),
        i32_value(s) is Some <==> digits_value(s) <= i32::MAX,
        i32_value(s) is Some ==> i32_value(s)->0 == digits_value(s),
        u64_value(seq![43u8] + s) == u64_value(s),
        usize_value(seq![43u8] + s) == usize_value(s),
        u32_value(seq![43u8] + s) == u32_value(s),
        i64_value(seq![43u8] + s) == i64_value(s),
        i32_value(seq![43u8] + s) == i32_value(s),
        i64_value(seq![45u8] + s) is Some <==> -digits_value(s) >= i64::MIN,
        i64_value(seq![45u8] + s) is Some ==> i64_value(seq![45u8] + s)->0 == -digits_value(s),
        i32_value(seq![45u8] + s) is Some <==> -digits_value(s) >= i32::MIN,
        i32_value(seq![45u8] + s) is Some ==> i32_value(seq![45u8] + s)->0 == -digits_value(s),
        u64_value(seq![45u8] + s) is None,
        usize_value(seq![45u8] + s) is None,
        u32_value(seq![45u8] + s) is None,
{
    assert((seq![43u8] + s).skip(1) =~= s);
    assert((seq![45u8] + s).skip(1) =~= s);
    assert(all_digits(s));
    assert(!is_digit((seq![45u8] + s)[0]));
}

/// Nothing else is read as a number: not the empty text, not a sign alone, and
/// no text with another byte in it than digits and a sign at its start.
pub proof fn only_digits_are_read(s: Seq<u8>, i: int)
    requires
        s.len() == 0 || (s.len() == 1 && (s[0] == 43 || s[0] == 45)) || (0 <= i < s.len() && !(48
            <= s[i] <= 57) && !(i == 0 && (s[0] == 43 || s[0] == 45))),
    ensures
        u64_value(s) is None,
        usize_value(s) is None,
        u32_value(s) is None,
        i64_value(s) is None,
        i32_value(s) is None,
{
    if s.len() > 0 {
        if 0 < i < s.len() {
            assert(s.skip(1)[i - 1] == s[i]);
            assert(!is_digit(s.skip(1)[i - 1]) || is_digit(s[i]));
        }
        assert(!is_digit(43u8) && !is_digit(45u8));
    }
}

/// A number is written in digits, as few of them as can be, and they write it; a
/// negative one has a `-` before them. The characters are the bytes.
pub proof fn numbers_are_written_in_digits(n: nat)
    ensures
        decimal_bytes(n).len() > 0,
        forall|i: int| 0 <= i < decimal_bytes(n).len() ==> 48 <= #[trigger] decimal_bytes(n)[i] <= 57,
        digits_value(decimal_bytes(n)) == n,
        n > 0 ==> decimal_bytes(n)[0] != 48,
        n == 0 ==> decimal_bytes(n) == seq![48u8],
        n > 0 ==> signed_decimal_bytes(-n) == seq![45u8] + decimal_bytes(n),
        signed_decimal_bytes(n as int) == decimal_bytes(n),
        decimal(n).len() == decimal_bytes(n).len(),
        forall|i: int|
            0 <= i < decimal(n).len() ==> (#[trigger] decimal(n)[i]) as int == decimal_bytes(n)[i],
        n > 0 ==> signed_decimal(-n) == seq!['-'] + decimal(n),
        signed_decimal(n as int) == decimal(n),
    decreases n,
{
    lemma_decimal_digits(n);
    assert forall|i: int| 0 <= i < decimal_bytes(n).len() implies 48 <= #[trigger] decimal_bytes(
        n,
    )[i] <= 57 by {
        assert(is_digit(decimal_bytes(n)[i]));
    }
    if n >= 10 {
        numbers_are_written_in_digits(n / 10);
        assert(decimal_bytes(n)[0] == decimal_bytes(n / 10)[0]);
        assert forall|i: int| 0 <= i < decimal(n).len() implies (#[trigger] decimal(n)[i]) as int
            == decimal_bytes(n)[i] by {
            if i < decimal(n / 10).len() {
                assert(decimal(n)[i] == decimal(n / 10)[i]);
            }
        }
    }
}

/// A number that is padded is as wide as asked for, or as wide as it is; what
/// stands before its digits is zeros.
pub proof fn padding_is_zeros(n: nat, width: nat)
    ensures
        padded(n, width).len() == if decimal(n).len() < width {
            width
        } else {
            decimal(n).len()
        },
        padded(n, width).skip(padded(n, width).len() - decimal(n).len()) == decimal(n),
        forall|i: int|
            0 <= i < padded(n, width).len() - decimal(n).len() ==> #[trigger] padded(n, width)[i]
                == '0',
        n > 0 && width > 0 ==> signed_padded(-n, width) == seq!['-'] + padded(
            n,
            (width - 1) as nat,
        ),
        signed_padded(n as int, width) == padded(n, width),
{
    assert(padded(n, width).skip(padded(n, width).len() - decimal(n).len()) =~= decimal(n));
}

/// A text that is aligned is as wide as asked for, or as wide as it is; what
/// stands before or after it is spaces.
pub proof fn alignment_is_spaces(s: Seq<char>, width: nat, i: int)
    ensures
        right_aligned(s, width).len() == left_aligned(s, width).len(),
        right_aligned(s, width).len() == if s.len() < width {
            width
        } else {
            s.len()
        },
        right_aligned(s, width).skip(right_aligned(s, width).len() - s.len()) == s,
        left_aligned(s, width).take(s.len() as int) == s,
        0 <= i < right_aligned(s, width).len() - s.len() ==> right_aligned(s, width)[i] == ' ',
        s.len() <= i < left_aligned(s, width).len() ==> left_aligned(s, width)[i] == ' ',
{
    assert(right_aligned(s, width).skip(right_aligned(s, width).len() - s.len()) =~= s);
    assert(left_aligned(s, width).take(s.len() as int) =~= s);
}

/// Some texts with a separator between each two of them.
pub open spec fn joined_by(parts: Seq<Seq<u8>>, sep: u8) -> Seq<u8>
    decreases parts.len(),
{
    if parts.len() == 0 {
        Seq::empty()
    } else if parts.len() == 1 {
        parts[0]
    } else {
        joined_by(parts.drop_last(), sep).push(sep) + parts.last()
    }
}

/// No text of some holds the byte.
pub open spec fn free_of(parts: Seq<Seq<u8>>, sep: u8) -> bool {
    forall|i: int, j: int|
        0 <= i < parts.len() && 0 <= j < parts[i].len() ==> #[trigger] parts[i][j] != sep
}

proof fn lemma_pieces_back(a: Seq<u8>, sep: u8, b: Seq<u8>)
    requires
        forall|j: int| 0 <= j < b.len() ==> b[j] != sep,
    ensures
        pieces(a.push(sep) + b, sep) == pieces(a, sep).push(b),
    decreases b.len(),
{
    let s = a.push(sep) + b;
    if b.len() == 0 {
        assert(s =~= a.push(sep));
        assert(s.drop_last() =~= a);
        assert(b =~= Seq::empty());
    } else {
        let init = b.drop_last();
        lemma_pieces_back(a, sep, init);
        assert(s.drop_last() =~= a.push(sep) + init);
        assert(s.last() == b.last() && b[b.len() - 1] != sep);
        let before = pieces(a, sep).push(init);
        assert(init.push(b.last()) =~= b);
        assert(before.drop_last().push(before.last().push(s.last())) =~= pieces(a, sep).push(b));
    }
}

/// Cutting undoes joining: texts without the separator in them, joined by it,
/// are cut into the same texts, as many as there are.
pub proof fn cutting_undoes_joining(parts: Seq<Seq<u8>>, sep: u8)
    requires
        parts.len() > 0,
        free_of(parts, sep),
    ensures
        pieces(joined_by(parts, sep), sep) == parts,
        parts.last().len() > 0 ==> fields(joined_by(parts, sep), sep) == parts,
    decreases parts.len(),
{
    let s = joined_by(parts, sep);
    if parts.len() == 1 {
        assert forall|i: int| 0 <= i < s.len() implies s[i] != sep by {
            assert(parts[0][i] != sep);
        }
        lemma_pieces_single(s, sep);
        assert(seq![s] =~= parts);
    } else {
        let init = parts.drop_last();
        assert forall|i: int, j: int| 0 <= i < init.len() && 0 <= j < init[i].len() implies #[trigger] init[i][j]
            != sep by {
            assert(parts[i][j] != sep);
        }
        cutting_undoes_joining(init, sep);
        let last = parts.last();
        assert forall|j: int| 0 <= j < last.len() implies last[j] != sep by {
            assert(parts[parts.len() - 1][j] != sep);
        }
        lemma_pieces_back(joined_by(init, sep), sep, last);
        assert(init.push(last) =~= parts);
        assert(s[joined_by(init, sep).len() as int] == sep);
    }
}

/// Joining undoes cutting: the pieces of a text have no separator in them and,
/// joined by it, are the text again.
pub proof fn joining_undoes_cutting(s: Seq<u8>, sep: u8)
    ensures
        pieces(s, sep).len() > 0,
        free_of(pieces(s, sep), sep),
        joined_by(pieces(s, sep), sep) == s,
    decreases s.len(),
{
    if s.len() == 0 {
        assert(s =~= Seq::empty());
    } else {
        let init = s.drop_last();
        let before = pieces(init, sep);
        joining_undoes_cutting(init, sep);
        let p = pieces(s, sep);
        assert forall|i: int, j: int| 0 <= i < p.len() && 0 <= j < p[i].len() implies #[trigger] p[i][j]
            != sep by {
            if i < before.len() - 1 || (i == before.len() - 1 && j < before[i].len()) {
                assert(before[i][j] != sep);
            }
        }
        assert(init.push(s.last()) =~= s);
        if s.last() == sep {
            assert(p.drop_last() =~= before);
            assert(joined_by(p, sep) =~= s);
        } else {
            assert(p.drop_last() =~= before.drop_last());
            if before.len() == 1 {
                assert(joined_by(p, sep) =~= s);
            } else {
                assert(joined_by(p, sep) =~= s);
            }
        }
    }
}

/// The fields of a text are its pieces, but for empty ones at the end of it.
pub proof fn fields_are_pieces(parts: Seq<Seq<u8>>, empty: nat, sep: u8)
    requires
        parts.len() > 0,
        parts.last().len() > 0,
        free_of(parts, sep),
    ensures
        fields(joined_by(parts, sep) + Seq::new(empty, |i: int| sep), sep) == parts,
    decreases empty,
{
    cutting_undoes_joining(parts, sep);
    let s = joined_by(parts, sep);
    let t = s + Seq::new(empty, |i: int| sep);
    if empty == 0 {
        assert(t =~= s);
    } else {
        let less = s + Seq::new((empty - 1) as nat, |i: int| sep);
        fields_are_pieces(parts, (empty - 1) as nat, sep);
        assert(t =~= less.push(sep));
        assert(t.drop_last() =~= less);
        assert(t[t.len() - 1] == sep);
        assert(pieces(t, sep) == pieces(less, sep).push(Seq::empty()));
        assert(pieces(t, sep).drop_last() =~= pieces(less, sep));
        if !less.contains(sep) {
            lemma_pieces_single(less, sep);
            assert(less.len() >= s.len());
            assert(s.len() > 0) by {
                if parts.len() > 1 {
                    assert(s.last() == parts.last().last());
                }
            }
            assert(without_trailing_empty(seq![less]) == seq![less]);
        }
    }
}

/// Trimming takes the white space off both ends and nothing else, and the first
/// word ends where the next white space is.
pub proof fn trimming_takes_white_space_off(
    before: Seq<char>,
    s: Seq<char>,
    after: Seq<char>,
)
    requires
        forall|i: int| 0 <= i < before.len() ==> is_white_space(#[trigger] before[i]),
        forall|i: int| 0 <= i < after.len() ==> is_white_space(#[trigger] after[i]),
        s.len() > 0 ==> !is_white_space(s[0]) && !is_white_space(s.last()),
    ensures
        trim_white(before + s + after) == s,
        s.len() > 0 && (forall|i: int| 0 <= i < s.len() ==> !is_white_space(#[trigger] s[i]))
            ==> first_word(before + s + after) == Some(s),
        s.len() == 0 ==> first_word(before + s + after) is None,
        is_blank_text(before + s + after) <==> s.len() == 0,
{
    let t = before + s + after;
    assert(t =~= before + (s + after));
    if s.len() == 0 {
        assert(t =~= before + after);
        assert forall|i: int| 0 <= i < t.len() implies is_white_space(#[trigger] t[i]) by {
            if i < before.len() {
                assert(t[i] == before[i]);
            } else {
                assert(t[i] == after[i - before.len()]);
            }
        }
        lemma_trim_start(t, Seq::empty());
        assert(t + Seq::<char>::empty() =~= t);
        assert(s =~= Seq::empty());
    } else {
        assert((s + after)[0] == s[0]);
        lemma_trim_start(before, s + after);
        lemma_trim_back(s, after);
        assert(t[before.len() as int] == s[0]);
        if forall|i: int| 0 <= i < s.len() ==> !is_white_space(#[trigger] s[i]) {
            lemma_until_white(s, after);
        }
    }
}

proof fn lemma_trim_start(a: Seq<char>, b: Seq<char>)
    requires
        forall|i: int| 0 <= i < a.len() ==> is_white_space(#[trigger] a[i]),
        b.len() > 0 ==> !is_white_space(b[0]),
    ensures
        trim_white_start(a + b) == b,
    decreases a.len(),
{
    if a.len() == 0 {
        assert(a + b =~= b);
    } else {
        assert((a + b).drop_first() =~= a.drop_first() + b);
        assert((a + b)[0] == a[0]);
        lemma_trim_start(a.drop_first(), b);
    }
}

proof fn lemma_trim_back(a: Seq<char>, b: Seq<char>)
    requires
        forall|i: int| 0 <= i < b.len() ==> is_white_space(#[trigger] b[i]),
        a.len() > 0 ==> !is_white_space(a.last()),
    ensures
        trim_white_end(a + b) == a,
    decreases b.len(),
{
    if b.len() == 0 {
        assert(a + b =~= a);
    } else {
        assert((a + b).drop_last() =~= a + b.drop_last());
        assert((a + b).last() == b[b.len() - 1]);
        lemma_trim_back(a, b.drop_last());
    }
}

proof fn lemma_until_white(a: Seq<char>, b: Seq<char>)
    requires
        forall|i: int| 0 <= i < a.len() ==> !is_white_space(#[trigger] a[i]),
        b.len() > 0 ==> is_white_space(b[0]),
    ensures
        until_white(a + b) == a,
    decreases a.len(),
{
    if a.len() == 0 {
        assert(a + b =~= b);
        assert(a =~= Seq::empty());
    } else {
        assert((a + b)[0] == a[0]);
        assert((a + b).drop_first() =~= a.drop_first() + b);
        lemma_until_white(a.drop_first(), b);
        assert(seq![a[0]] + a.drop_first() =~= a);
    }
}

/// No printing ASCII character is white space; the space, the tab and the ends
/// of lines are.
pub proof fn printing_characters_are_no_white_space(c: char)
    ensures
        33 <= c as int <= 126 ==> !is_white_space(c),
        c == ' ' || c == '\t' || c == '\n' || c == '\r' ==> is_white_space(c),
{
}

/// Bytes that are ASCII are the text of the same characters.
pub proof fn ascii_bytes_are_characters(b: Seq<u8>)
    requires
        forall|i: int| 0 <= i < b.len() ==> #[trigger] b[i] < 128,
    ensures
        valid_utf8(b),
        decode_utf8(b).len() == b.len(),
        forall|i: int| 0 <= i < b.len() ==> (#[trigger] decode_utf8(b)[i]) as int == b[i],
    decreases b.len(),
{
    reveal_with_fuel(valid_utf8, 2);
    reveal_with_fuel(decode_utf8, 2);
    if b.len() > 0 {
        let rest = b.drop_first();
        let first: u8 = b[0];
        assert(first < 128 ==> (first & 0x7F) == first) by (bit_vector);
        assert(pop_first_scalar(b) =~= rest);
        assert forall|i: int| 0 <= i < rest.len() implies #[trigger] rest[i] < 128 by {
            assert(rest[i] == b[i + 1]);
        }
        ascii_bytes_are_characters(rest);
        assert(decode_utf8(b) =~= seq![first as char] + decode_utf8(rest));
        assert forall|i: int| 0 <= i < b.len() implies (#[trigger] decode_utf8(b)[i]) as int
            == b[i] by {
            if i > 0 {
                assert(decode_utf8(b)[i] == decode_utf8(rest)[i - 1]);
                assert(rest[i - 1] == b[i]);
            }
        }
    }
}

/// A number that was written is read as itself, whatever its sign.
pub proof fn written_numbers_are_read(v: int)
    ensures
        i32::MIN <= v <= i32::MAX ==> i32_value(signed_decimal_bytes(v)) == Some(v as i32),
        i64::MIN <= v <= i64::MAX ==> i64_value(signed_decimal_bytes(v)) == Some(v as i64),
        0 <= v <= u32::MAX ==> u32_value(decimal_bytes(v as nat)) == Some(v as u32),
        0 <= v <= u64::MAX ==> u64_value(decimal_bytes(v as nat)) == Some(v as u64),
        0 <= v <= usize::MAX ==> usize_value(decimal_bytes(v as nat)) == Some(v as usize),
        signed_decimal_bytes(v).len() > 0,
        forall|i: int|
            0 <= i < signed_decimal_bytes(v).len() ==> 48 <= #[trigger] signed_decimal_bytes(v)[i]
                <= 57 || signed_decimal_bytes(v)[i] == 45,
{
    let n = if v < 0 {
        (-v) as nat
    } else {
        v as nat
    };
    numbers_are_written_in_digits(n);
    digits_are_read(decimal_bytes(n));
    assert forall|i: int| 0 <= i < signed_decimal_bytes(v).len() implies 48
        <= #[trigger] signed_decimal_bytes(v)[i] <= 57 || signed_decimal_bytes(v)[i] == 45 by {
        if v < 0 && i > 0 {
            assert(signed_decimal_bytes(v)[i] == decimal_bytes(n)[i - 1]);
        } else if v >= 0 {
            assert(signed_decimal_bytes(v)[i] == decimal_bytes(n)[i]);
        }
    }
}

/// A text has another one in it.
pub open spec fn tells(s: Seq<char>, part: Seq<char>) -> bool {
    exists|a: Seq<char>, b: Seq<char>| s == #[trigger] (a + part + b)
}

/// What stands between two texts is in all three together.
pub proof fn lemma_tells(s: Seq<char>, a: Seq<char>, part: Seq<char>, b: Seq<char>)
    requires
        s =~= a + part + b,
    ensures
        tells(s, part),
{
    assert(s == a + part + b);
}

/// A text without the run of a byte at its end ends with another byte, or is
/// empty; the run is all that was taken off.
pub proof fn trimming_takes_a_run_off(s: Seq<u8>, n: nat, sep: u8)
    requires
        s.len() > 0 ==> s.last() != sep,
    ensures
        trim_end(s + Seq::new(n, |i: int| sep), sep) == s,
    decreases n,
{
    let run = Seq::new(n, |i: int| sep);
    if n == 0 {
        assert(s + run =~= s);
    } else {
        let less = Seq::new((n - 1) as nat, |i: int| sep);
        assert((s + run).drop_last() =~= s + less);
        assert((s + run).last() == sep);
        trimming_takes_a_run_off(s, (n - 1) as nat, sep);
    }
}

/// White space is what a text is cut at: the ASCII controls from the tab to the
/// carriage return, the space, and the spaces and separators of Unicode.
pub proof fn white_space_is_that_of_unicode(c: char)
    ensures
        is_white_space(c) <==> {
            let n = c as int;
            ||| 9 <= n <= 13
            ||| n == 32
            ||| n == 133
            ||| n == 160
            ||| n == 5760
            ||| 8192 <= n <= 8202
            ||| n == 8232
            ||| n == 8233
            ||| n == 8239
            ||| n == 8287
            ||| n == 12288
        },
{
}

/// Every separator makes one more piece: as many as there are in a text, by one
/// it is more.
pub proof fn separators_are_counted(a: Seq<u8>, b: Seq<u8>, sep: u8)
    ensures
        occurrences(a + b, sep) == occurrences(a, sep) + occurrences(b, sep),
        occurrences(seq![sep], sep) == 1,
        pieces(a, sep).len() == occurrences(a, sep) + 1,
        !a.contains(sep) ==> occurrences(a, sep) == 0,
    decreases b.len(),
{
    lemma_pieces_len(a, sep);
    lemma_occurrences_contains(a, sep);
    assert(seq![sep].drop_last() =~= Seq::empty());
    assert(occurrences(Seq::<u8>::empty(), sep) == 0);
    assert(occurrences(seq![sep], sep) == occurrences(seq![sep].drop_last(), sep) + 1);
    if b.len() == 0 {
        assert(a + b =~= a);
    } else {
        assert((a + b).drop_last() =~= a + b.drop_last());
        assert((a + b).last() == b.last());
        separators_are_counted(a, b.drop_last(), sep);
    }
}

} // verus!
