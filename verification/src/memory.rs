//! Memory budgets, and what the operating system says of memory and disks.
use crate::error::quoted;
use crate::mul_capped;
use crate::text;
use crate::text::{count_byte, cut_at, cut_before, find_byte, first_word_of, parse_u64, trimmed_text};
use vstd::prelude::*;
use vstd::string::*;
use vstd::utf8::*;

verus! {

// ---------------------------------------------------------------------------
// Memory budgets
// ---------------------------------------------------------------------------
/// What a memory budget text says.
#[derive(Debug)]
pub enum MemorySpec {
    /// A number of bytes, above zero.
    Bytes(u64),
    /// A decimal number with a point in it, times a multiplier: to be taken as a
    /// floating-point number.
    Scaled {
        /// The number, without digit separators: digits and one point.
        number: String,
        /// Bytes per unit.
        multiplier: u64,
    },
    /// A share of all memory, in percent: to be taken as a floating-point
    /// number.
    Percent {
        /// The number. One of digits only is from 1 to 100.
        number: String,
    },
}

/// The plain values of a [`MemorySpec`].
#[allow(inconsistent_fields)]
pub ghost enum MemorySpecView {
    Bytes(u64),
    Scaled { number: Seq<u8>, multiplier: u64 },
    Percent { number: Seq<char> },
}

impl View for MemorySpec {
    type V = MemorySpecView;

    open spec fn view(&self) -> MemorySpecView {
        match *self {
            MemorySpec::Bytes(n) => MemorySpecView::Bytes(n),
            MemorySpec::Scaled { number, multiplier } => MemorySpecView::Scaled {
                number: encode_utf8(number@),
                multiplier,
            },
            MemorySpec::Percent { number } => MemorySpecView::Percent { number: number@ },
        }
    }
}

/// A byte of a number: a digit, a point or a digit separator.
pub open spec fn is_number_byte(b: u8) -> bool {
    text::is_digit(b) || b == 46 || b == 95
}

/// How many bytes a text begins with that can be of a number.
pub open spec fn number_len(b: Seq<u8>) -> nat
    decreases b.len(),
{
    if b.len() > 0 && is_number_byte(b[0]) {
        1 + number_len(b.drop_first())
    } else {
        0
    }
}

/// A number without its digit separators.
pub open spec fn without_separators(b: Seq<u8>) -> Seq<u8>
    decreases b.len(),
{
    if b.len() == 0 {
        b
    } else if b.last() == 95 {
        without_separators(b.drop_last())
    } else {
        without_separators(b.drop_last()).push(b.last())
    }
}

/// An ASCII letter in lower case.
pub open spec fn lower(b: u8) -> u8 {
    if 65 <= b <= 90 {
        (b + 32) as u8
    } else {
        b
    }
}

/// What a unit letter stands for. Every one is a *binary* multiple.
pub open spec fn letter_multiplier(b: u8) -> Option<u64> {
    if lower(b) == 107 {
        Some(0x400)
    } else if lower(b) == 109 {
        Some(0x10_0000)
    } else if lower(b) == 103 {
        Some(0x4000_0000)
    } else if lower(b) == 116 {
        Some(0x100_0000_0000)
    } else {
        None
    }
}

/// What a unit stands for: nothing or `B` for bytes, else a letter, alone or
/// behind it `B` or `iB`, in any case.
pub open spec fn unit_multiplier(u: Seq<u8>) -> Option<u64> {
    if u.len() == 0 || (u.len() == 1 && lower(u[0]) == 98) {
        Some(1)
    } else if u.len() == 1 || (u.len() == 2 && lower(u[1]) == 98) || (u.len() == 3 && lower(u[1])
        == 105 && lower(u[2]) == 98) {
        letter_multiplier(u[0])
    } else {
        None
    }
}

/// What is said of a bad memory budget.
pub open spec fn bad_memory(s: Seq<char>) -> Seq<char> {
    "invalid memory specification "@ + crate::error::debug_quoted(s)
        + ": expected a byte count (`1024`), a size with a binary suffix (`128GiB`, `200G`, `64M`), or a percentage of total RAM (`45%`)"@
}

/// What is said of a memory budget that comes to nothing.
pub open spec fn no_memory(s: Seq<char>) -> Seq<char> {
    "memory specification "@ + crate::error::debug_quoted(s)
        + " resolves to 0 bytes; it must be positive"@
}

/// What is said of a percentage that is no share of the memory.
pub open spec fn bad_percentage(s: Seq<char>) -> Seq<char> {
    "invalid memory percentage "@ + crate::error::debug_quoted(s)
        + ": expected a value in (0, 100]"@
}

/// Digits and points only.
pub open spec fn digits_and_points(b: Seq<u8>) -> bool {
    forall|i: int| 0 <= i < b.len() ==> text::is_digit(#[trigger] b[i]) || b[i] == 46
}

/// Whether digits and points make a decimal number: they are not points alone,
/// and there is at most one point.
pub open spec fn is_decimal(b: Seq<u8>) -> bool
    recommends
        digits_and_points(b),
{
    text::occurrences(b, 46) <= 1 && text::occurrences(b, 46) < b.len()
}

/// What a percentage says. A whole number of percent has to be from 1 to 100;
/// digits and points have to make a decimal number.
pub open spec fn percentage_of(number: Seq<char>, s: Seq<char>) -> std::result::Result<
    MemorySpecView,
    Seq<char>,
> {
    let b = encode_utf8(number);
    if digits_and_points(b) && !is_decimal(b) {
        Err(bad_memory(s))
    } else if text::all_digits(b) && !(1 <= text::digits_value(b) <= 100) {
        Err(bad_percentage(s))
    } else {
        Ok(MemorySpecView::Percent { number })
    }
}

/// What a memory budget text says: a percentage, or a number with a unit. A
/// whole number is that many units, however long it is.
pub open spec fn memory_of(s: Seq<char>) -> std::result::Result<MemorySpecView, Seq<char>> {
    let t = text::trim_white(s);
    let b = encode_utf8(t);
    let n = number_len(b);
    let number = without_separators(b.take(n as int));
    let unit = unit_multiplier(encode_utf8(text::trim_white(decode_utf8(b.skip(n as int)))));
    if b.len() == 0 {
        Err(bad_memory(s))
    } else if b.last() == 37 {
        percentage_of(text::trim_white(decode_utf8(b.drop_last())), s)
    } else if !is_decimal(number) || unit is None {
        Err(bad_memory(s))
    } else if text::all_digits(number) {
        let bytes = crate::capped(text::digits_value(number) * unit->0 as nat);
        if bytes == 0 {
            Err(no_memory(s))
        } else {
            Ok(MemorySpecView::Bytes(bytes))
        }
    } else {
        Ok(MemorySpecView::Scaled { number, multiplier: unit->0 })
    }
}

/// What is said of a bad memory budget.
pub fn bad_memory_text(s: &str) -> (r: String)
    ensures
        r@ == bad_memory(s@),
{
    let shown: String = quoted(s);
    let mut msg: String = "invalid memory specification ".to_owned();
    msg.append(shown.as_str());
    msg.append(
        ": expected a byte count (`1024`), a size with a binary suffix (`128GiB`, `200G`, `64M`), or a percentage of total RAM (`45%`)",
    );
    msg
}

/// What is said of a memory budget that comes to nothing.
pub fn no_memory_text(s: &str) -> (r: String)
    ensures
        r@ == no_memory(s@),
{
    let shown: String = quoted(s);
    let mut msg: String = "memory specification ".to_owned();
    msg.append(shown.as_str());
    msg.append(" resolves to 0 bytes; it must be positive");
    msg
}

/// What is said of a percentage that is no share of the memory.
pub fn bad_percentage_text(s: &str) -> (r: String)
    ensures
        r@ == bad_percentage(s@),
{
    let shown: String = quoted(s);
    let mut msg: String = "invalid memory percentage ".to_owned();
    msg.append(shown.as_str());
    msg.append(": expected a value in (0, 100]");
    msg
}

fn lowered(b: u8) -> (r: u8)
    ensures
        r == lower(b),
{
    if 65 <= b && b <= 90 {
        b + 32
    } else {
        b
    }
}

/// Reads a unit.
fn parse_unit(u: &[u8]) -> (r: Option<u64>)
    ensures
        r == unit_multiplier(u@),
{
    let n: usize = u.len();
    if n == 0 || (n == 1 && lowered(u[0]) == 98) {
        return Some(1);
    }
    if n == 1 || (n == 2 && lowered(u[1]) == 98) || (n == 3 && lowered(u[1]) == 105 && lowered(u[2])
        == 98) {
        let c: u8 = lowered(u[0]);
        if c == 107 {
            return Some(0x400);
        }
        if c == 109 {
            return Some(0x10_0000);
        }
        if c == 103 {
            return Some(0x4000_0000);
        }
        if c == 116 {
            return Some(0x100_0000_0000);
        }
    }
    None
}

/// How many bytes a text begins with that can be of a number.
fn count_number_bytes(b: &[u8]) -> (r: usize)
    ensures
        r == number_len(b@),
        r <= b@.len(),
        forall|i: int| 0 <= i < r ==> is_number_byte(#[trigger] b@[i]),
{
    let mut i: usize = 0;
    assert(b@.skip(0) =~= b@);
    while i < b.len()
        invariant_except_break
            true,
        invariant
            i <= b@.len(),
            number_len(b@) == i + number_len(b@.skip(i as int)),
            forall|k: int| 0 <= k < i ==> is_number_byte(#[trigger] b@[k]),
        ensures
            number_len(b@.skip(i as int)) == 0,
        decreases b@.len() - i,
    {
        let c: u8 = b[i];
        assert(b@.skip(i as int)[0] == c);
        if !((48 <= c && c <= 57) || c == 46 || c == 95) {
            break;
        }
        assert(b@.skip(i as int).drop_first() =~= b@.skip(i + 1));
        i = i + 1;
    }
    i
}

/// A number without its digit separators, as text.
fn drop_separators(b: &[u8]) -> (r: String)
    requires
        forall|i: int| 0 <= i < b@.len() ==> is_number_byte(#[trigger] b@[i]),
    ensures
        encode_utf8(r@) == without_separators(b@),
        r@.len() == without_separators(b@).len(),
{
    let mut out: String = String::new();
    let mut i: usize = 0;
    assert(encode_utf8(out@) =~= without_separators(b@.take(0)));
    while i < b.len()
        invariant
            i <= b@.len(),
            encode_utf8(out@) == without_separators(b@.take(i as int)),
            out@.len() == without_separators(b@.take(i as int)).len(),
            forall|k: int| 0 <= k < b@.len() ==> is_number_byte(#[trigger] b@[k]),
        decreases b@.len() - i,
    {
        let c: u8 = b[i];
        assert(is_number_byte(b@[i as int]));
        assert(b@.take(i + 1).drop_last() =~= b@.take(i as int));
        if c != 95 {
            let ghost before = out@;
            crate::text::append_char(&mut out, c as char);
            proof {
                text::lemma_encode_concat(before, seq![c as char]);
                assert(out@ =~= before + seq![c as char]);
                is_ascii_chars_encode_utf8(seq![c as char]);
                assert(encode_utf8(seq![c as char]) =~= seq![c]);
                assert(encode_utf8(out@) =~= encode_utf8(before).push(c));
            }
        }
        i = i + 1;
    }
    assert(b@.take(i as int) =~= b@);
    out
}

/// Reads a memory budget: `128GiB`, `200G`, `45%`, or a bare byte count.
///
/// Every suffix is a *binary* multiple. Whole numbers are resolved here, and so
/// is every refusal that takes no floating-point number; a number with a point
/// in it and a percentage are left to the caller, who has floating-point numbers
/// and knows how much memory there is.
pub fn parse_memory_spec(s: &str) -> (r: std::result::Result<MemorySpec, String>)
    ensures
        match memory_of(s@) {
            Ok(m) => r is Ok && r->Ok_0@ == m,
            Err(e) => r is Err && r->Err_0@ == e,
        },
{
    let t: &str = trimmed_text(s);
    let b = t.as_bytes();
    let len: usize = b.len();
    if len == 0 {
        return Err(bad_memory_text(s));
    }
    if b[len - 1] == 37 {
        let (head, _) = cut_before(t, len - 1);
        proof {
            assert(b@.take(len - 1) =~= b@.drop_last());
            encode_utf8_decode_utf8(head@);
        }
        return parse_percentage(trimmed_text(head), s);
    }
    let n: usize = count_number_bytes(b);
    let head: &[u8] = vstd::slice::slice_subrange(b, 0, n);
    proof {
        assert(head@ =~= b@.take(n as int));
        assert forall|i: int| 0 <= i < head@.len() implies is_number_byte(#[trigger] head@[i]) by {
            assert(head@[i] == b@[i]);
        }
    }
    let number: String = drop_separators(head);
    let tail: &str = number_tail(t, n);
    proof {
        encode_utf8_decode_utf8(tail@);
    }
    let multiplier: u64 = match parse_unit(trimmed_text(tail).as_bytes()) {
        Some(m) => m,
        None => {
            return Err(bad_memory_text(s));
        },
    };
    let digits = number.as_str().as_bytes();
    assert(digits@.take(digits@.len() as int) =~= digits@);
    let points: usize = count_byte(digits, 46, digits.len());
    if points > 1 || points >= digits.len() {
        return Err(bad_memory_text(s));
    }
    match digits_capped(digits) {
        Some(v) => {
            let bytes: u64 = mul_capped(v, multiplier);
            proof {
                lemma_capped_product(text::digits_value(digits@), multiplier as nat);
            }
            if bytes == 0 {
                return Err(no_memory_text(s));
            }
            return Ok(MemorySpec::Bytes(bytes));
        },
        None => {},
    }
    Ok(MemorySpec::Scaled { number, multiplier })
}

/// What follows a number.
fn number_tail<'a>(t: &'a str, n: usize) -> (r: &'a str)
    requires
        n <= t.spec_bytes().len(),
        forall|i: int| 0 <= i < n ==> is_number_byte(#[trigger] t.spec_bytes()[i]),
    ensures
        r.spec_bytes() == t.spec_bytes().skip(n as int),
{
    if n == 0 {
        assert(t.spec_bytes().skip(0) =~= t.spec_bytes());
        return t;
    }
    assert(is_number_byte(t.spec_bytes()[n - 1]));
    let (_, tail) = cut_at(t, n - 1);
    tail
}

/// Reads a percentage; `s` is the text that is quoted where it is bad.
fn parse_percentage(number: &str, s: &str) -> (r: std::result::Result<MemorySpec, String>)
    ensures
        match percentage_of(number@, s@) {
            Ok(m) => r is Ok && r->Ok_0@ == m,
            Err(e) => r is Err && r->Err_0@ == e,
        },
{
    let b = number.as_bytes();
    assert(b@.take(b@.len() as int) =~= b@);
    let points: usize = count_byte(b, 46, b.len());
    if (points > 1 || points >= b.len()) && only_digits_and_points(b) {
        return Err(bad_memory_text(s));
    }
    match digits_capped(b) {
        Some(v) => {
            if v < 1 || v > 100 {
                return Err(bad_percentage_text(s));
            }
        },
        None => {},
    }
    Ok(MemorySpec::Percent { number: number.to_owned() })
}

fn only_digits_and_points(b: &[u8]) -> (r: bool)
    ensures
        r == digits_and_points(b@),
{
    let mut i: usize = 0;
    while i < b.len()
        invariant
            i <= b@.len(),
            forall|k: int| 0 <= k < i ==> text::is_digit(#[trigger] b@[k]) || b@[k] == 46,
        decreases b@.len() - i,
    {
        let c: u8 = b[i];
        if (c < 48 || c > 57) && c != 46 {
            assert(!text::is_digit(b@[i as int]) && b@[i as int] != 46);
            return false;
        }
        i += 1;
    }
    true
}

/// Reads a number made of digits only, capped at what a `u64` holds.
fn digits_capped(b: &[u8]) -> (r: Option<u64>)
    ensures
        r == if text::all_digits(b@) {
            Some(crate::capped(text::digits_value(b@)))
        } else {
            None
        },
{
    let mut acc: u64 = 0;
    let mut i: usize = 0;
    assert(text::digits_value(b@.take(0)) == 0);
    while i < b.len()
        invariant
            i <= b@.len(),
            forall|k: int| 0 <= k < i ==> text::is_digit(#[trigger] b@[k]),
            acc == crate::capped(text::digits_value(b@.take(i as int))),
        decreases b@.len() - i,
    {
        let c: u8 = b[i];
        if c < 48 || c > 57 {
            assert(!text::is_digit(b@[i as int]));
            return None;
        }
        let d: u64 = (c - 48) as u64;
        assert(b@.take(i + 1).drop_last() =~= b@.take(i as int));
        assert(text::digits_value(b@.take(i + 1)) == text::digits_value(b@.take(i as int)) * 10
            + d);
        let tens: u64 = mul_capped(acc, 10);
        acc = if tens > u64::MAX - d {
            u64::MAX
        } else {
            tens + d
        };
        i += 1;
    }
    assert(b@.take(i as int) =~= b@);
    Some(acc)
}

/// Capping a factor first changes nothing of a capped product.
proof fn lemma_capped_product(v: nat, m: nat)
    requires
        m > 0,
    ensures
        crate::capped(crate::capped(v) as nat * m) == crate::capped(v * m),
{
    if v > u64::MAX {
        assert(u64::MAX as nat * m >= u64::MAX) by (nonlinear_arith)
            requires
                m > 0,
        ;
        assert(v * m >= u64::MAX) by (nonlinear_arith)
            requires
                m > 0,
                v > u64::MAX,
        ;
    }
}

// ---------------------------------------------------------------------------
// The machine
// ---------------------------------------------------------------------------
/// How much memory a machine is taken to have where it does not say.
pub const FALLBACK_TOTAL_MEMORY: u64 = 0x2_0000_0000;

/// The bytes of memory that a line of a memory report gives, if it is the one
/// of the total: `MemTotal:`, then a number of kibibytes.
pub open spec fn line_memory(line: Seq<u8>) -> Option<u64> {
    let prefix = encode_utf8("MemTotal:"@);
    let word = text::first_word(decode_utf8(line.skip(prefix.len() as int)));
    if prefix.is_prefix_of(line) && word is Some && text::u64_value(encode_utf8(word->0)) is Some {
        Some(crate::capped(text::u64_value(encode_utf8(word->0))->0 as nat * 1024))
    } else {
        None
    }
}

/// The bytes of memory that the first of some lines gives that gives any.
pub open spec fn lines_memory(lines: Seq<Seq<u8>>) -> u64
    decreases lines.len(),
{
    if lines.len() == 0 {
        FALLBACK_TOTAL_MEMORY
    } else if line_memory(lines[0]) is Some {
        line_memory(lines[0])->0
    } else {
        lines_memory(lines.drop_first())
    }
}

/// Reads a line of a memory report.
fn parse_memory_line(line: &str) -> (r: Option<u64>)
    ensures
        r == line_memory(line.spec_bytes()),
{
    let b = line.as_bytes();
    let prefix = "MemTotal:".as_bytes();
    let n: usize = prefix.len();
    let mut i: usize = 0;
    while i < n
        invariant
            i <= n,
            n == prefix@.len(),
            prefix@ == encode_utf8("MemTotal:"@),
            b@ == line.spec_bytes(),
            i <= b@.len(),
            forall|k: int| 0 <= k < i ==> b@[k] == prefix@[k],
        decreases n - i,
    {
        if i >= b.len() || b[i] != prefix[i] {
            proof {
                if prefix@.is_prefix_of(b@) {
                    assert(b@.take(n as int)[i as int] == prefix@[i as int]);
                }
            }
            return None;
        }
        i = i + 1;
    }
    proof {
        assert(b@.take(n as int) =~= prefix@);
        reveal_strlit("MemTotal:");
        is_ascii_chars_encode_utf8("MemTotal:"@);
        assert(n == 9);
        assert(b@[8] == 58);
    }
    let (_, rest) = cut_at(line, 8);
    proof {
        encode_utf8_decode_utf8(rest@);
    }
    match first_word_of(rest) {
        Some(word) => match parse_u64(word) {
            Some(kib) => Some(mul_capped(kib, 1024)),
            None => None,
        },
        None => None,
    }
}

/// How much memory a machine has, in bytes, by the memory report it gives. The
/// fallback where it gives none.
pub fn total_memory_bytes(report: &str) -> (r: u64)
    ensures
        r == lines_memory(text::pieces(report.spec_bytes(), 10)),
{
    let mut rest: &str = report;
    loop
        invariant
            lines_memory(text::pieces(rest.spec_bytes(), 10)) == lines_memory(
                text::pieces(report.spec_bytes(), 10),
            ),
        decreases rest.spec_bytes().len(),
    {
        let b = rest.as_bytes();
        let feed: usize = find_byte(b, 10, 0);
        if feed == b.len() {
            proof {
                assert(!b@.contains(10));
                text::lemma_pieces_single(b@, 10);
                assert(seq![b@].drop_first() =~= Seq::empty());
                reveal_with_fuel(lines_memory, 2);
            }
            return match parse_memory_line(rest) {
                Some(n) => n,
                None => FALLBACK_TOTAL_MEMORY,
            };
        }
        let (line, tail) = cut_at(rest, feed);
        proof {
            text::lemma_pieces_front(b@, 10, feed as int);
            let lines = text::pieces(b@, 10);
            assert(lines.drop_first() =~= text::pieces(b@.skip(feed + 1), 10));
        }
        match parse_memory_line(line) {
            Some(n) => {
                return n;
            },
            None => {},
        }
        rest = tail;
    }
}

/// Free bytes on a filesystem, by the number of blocks that are free to
/// everyone, the size of a fragment, and the size of a block where the size of
/// a fragment is not given.
pub fn free_space_bytes(available: u64, fragment_size: u64, block_size: u64) -> (r: u64)
    ensures
        r == crate::capped(
            available as nat * (if fragment_size != 0 {
                fragment_size
            } else {
                block_size
            }) as nat,
        ),
{
    let block: u64 = if fragment_size != 0 {
        fragment_size
    } else {
        block_size
    };
    mul_capped(available, block)
}

/// Whether an error of `fsync` says that its file cannot be synced at all, such
/// as a device or a pipe, rather than that a write was lost.
pub fn sync_is_meaningless(os_error: Option<i32>) -> (r: bool)
    ensures
        r == (os_error == Some(22i32) || os_error == Some(95i32)),
{
    match os_error {
        Some(code) => code == 22 || code == 95,
        None => false,
    }
}

// ---------------------------------------------------------------------------
// Laws
// ---------------------------------------------------------------------------
/// Either case of a letter.
pub open spec fn is_letter(b: u8, lower_case: u8) -> bool {
    b == lower_case || b == lower_case - 32
}

/// A unit is written with its letter, alone or with `B` or `iB` behind it, in
/// either case; bytes are written with `B` or without anything.
pub open spec fn writes_unit(u: Seq<u8>, letter: Option<u8>) -> bool {
    match letter {
        None => u.len() == 0 || (u.len() == 1 && is_letter(u[0], 98)),
        Some(c) => u.len() > 0 && is_letter(u[0], c) && {
            ||| u.len() == 1
            ||| u.len() == 2 && is_letter(u[1], 98)
            ||| u.len() == 3 && is_letter(u[1], 105) && is_letter(u[2], 98)
        },
    }
}

/// Each unit is 1024 of the one before it: bytes, `K`, `M`, `G`, `T`. Nothing
/// else is a unit.
pub proof fn units_are_powers_of_1024(u: Seq<u8>)
    ensures
        writes_unit(u, None) ==> unit_multiplier(u) == Some(1u64),
        writes_unit(u, Some(107)) ==> unit_multiplier(u) == Some(1024u64),
        writes_unit(u, Some(109)) ==> unit_multiplier(u) == Some(1_048_576u64),
        writes_unit(u, Some(103)) ==> unit_multiplier(u) == Some(1_073_741_824u64),
        writes_unit(u, Some(116)) ==> unit_multiplier(u) == Some(1_099_511_627_776u64),
        !writes_unit(u, None) && !writes_unit(u, Some(107)) && !writes_unit(u, Some(109))
            && !writes_unit(u, Some(103)) && !writes_unit(u, Some(116)) ==> unit_multiplier(
            u,
        ) is None,
{
}

proof fn lemma_number_len(d: Seq<u8>, rest: Seq<u8>)
    requires
        forall|i: int|
            0 <= i < d.len() ==> 48 <= #[trigger] d[i] <= 57 || d[i] == 46 || d[i] == 95,
        rest.len() > 0 ==> !(48 <= rest[0] <= 57) && rest[0] != 46 && rest[0] != 95,
    ensures
        number_len(d + rest) == d.len(),
    decreases d.len(),
{
    let b = d + rest;
    if d.len() == 0 {
        assert(b =~= rest);
    } else {
        assert(b[0] == d[0]);
        assert(b.drop_first() =~= d.drop_first() + rest);
        lemma_number_len(d.drop_first(), rest);
    }
}

/// The number of a budget goes on as long as there are digits, points and
/// underscores, and the underscores in it do not count.
pub proof fn numbers_end_where_units_begin(d: Seq<u8>, rest: Seq<u8>, a: Seq<u8>, b: Seq<u8>)
    requires
        forall|i: int|
            0 <= i < d.len() ==> 48 <= #[trigger] d[i] <= 57 || d[i] == 46 || d[i] == 95,
        rest.len() > 0 ==> !(48 <= rest[0] <= 57) && rest[0] != 46 && rest[0] != 95,
    ensures
        number_len(d + rest) == d.len(),
        without_separators(a.push(95) + b) == without_separators(a + b),
        (forall|i: int| 0 <= i < a.len() ==> #[trigger] a[i] != 95) ==> without_separators(a) == a,
{
    lemma_number_len(d, rest);
    lemma_separator(a, b);
    if forall|i: int| 0 <= i < a.len() ==> #[trigger] a[i] != 95 {
        lemma_no_separators(a);
    }
}

proof fn lemma_separator(a: Seq<u8>, b: Seq<u8>)
    ensures
        without_separators(a.push(95) + b) == without_separators(a + b),
    decreases b.len(),
{
    let s = a.push(95) + b;
    if b.len() == 0 {
        assert(s.drop_last() =~= a);
        assert(a + b =~= a);
    } else {
        assert(s.drop_last() =~= a.push(95) + b.drop_last());
        assert((a + b).drop_last() =~= a + b.drop_last());
        assert(s.last() == b.last() && (a + b).last() == b.last());
        lemma_separator(a, b.drop_last());
    }
}

proof fn lemma_no_separators(a: Seq<u8>)
    requires
        forall|i: int| 0 <= i < a.len() ==> #[trigger] a[i] != 95,
    ensures
        without_separators(a) == a,
    decreases a.len(),
{
    if a.len() > 0 {
        let init = a.drop_last();
        assert forall|i: int| 0 <= i < init.len() implies #[trigger] init[i] != 95 by {
            assert(init[i] == a[i]);
        }
        assert(a[a.len() - 1] != 95);
        lemma_no_separators(init);
        assert(init.push(a.last()) =~= a);
    }
}

proof fn lemma_no_points(d: Seq<u8>)
    requires
        forall|i: int| 0 <= i < d.len() ==> 48 <= #[trigger] d[i] <= 57,
    ensures
        text::occurrences(d, 46) == 0,
    decreases d.len(),
{
    if d.len() > 0 {
        let init = d.drop_last();
        assert forall|i: int| 0 <= i < init.len() implies 48 <= #[trigger] init[i] <= 57 by {
            assert(init[i] == d[i]);
        }
        assert(48 <= d[d.len() - 1] <= 57);
        lemma_no_points(init);
    }
}

/// Printing ASCII is its own text, and has nothing to trim.
proof fn lemma_printing(b: Seq<u8>)
    requires
        forall|i: int| 0 <= i < b.len() ==> 33 <= #[trigger] b[i] <= 126,
    ensures
        valid_utf8(b),
        encode_utf8(decode_utf8(b)) == b,
        text::trim_white(decode_utf8(b)) == decode_utf8(b),
{
    let s = decode_utf8(b);
    text::ascii_bytes_are_characters(b);
    decode_utf8_encode_utf8(b);
    if s.len() > 0 {
        assert(s[0] as int == b[0]);
        assert(s[s.len() - 1] as int == b[b.len() - 1]);
        text::printing_characters_are_no_white_space(s[0]);
        text::printing_characters_are_no_white_space(s.last());
    }
    text::trimming_takes_white_space_off(Seq::empty(), s, Seq::empty());
    assert(Seq::<char>::empty() + s + Seq::<char>::empty() =~= s);
}

/// A budget of a whole number of units is that many bytes, capped at what can be
/// counted; none at all is refused, and so is a unit that is none.
pub proof fn budgets_are_counted_in_bytes(d: Seq<u8>, u: Seq<u8>)
    requires
        d.len() > 0,
        forall|i: int| 0 <= i < d.len() ==> 48 <= #[trigger] d[i] <= 57,
        forall|i: int| 0 <= i < u.len() ==> 33 <= #[trigger] u[i] <= 126,
        u.len() > 0 ==> !(48 <= u[0] <= 57) && u[0] != 46 && u[0] != 95 && u.last() != 37,
    ensures
        ({
            let r = memory_of(decode_utf8(d + u));
            let n = text::digits_value(d);
            match unit_multiplier(u) {
                None => r is Err,
                Some(m) => {
                    &&& n == 0 ==> r is Err
                    &&& 0 < n * m <= u64::MAX ==> r == Ok::<MemorySpecView, Seq<char>>(
                        MemorySpecView::Bytes((n * m) as u64),
                    )
                    &&& n * m > u64::MAX ==> r == Ok::<MemorySpecView, Seq<char>>(
                        MemorySpecView::Bytes(u64::MAX),
                    )
                },
            }
        }),
{
    let b = d + u;
    assert forall|i: int| 0 <= i < b.len() implies 33 <= #[trigger] b[i] <= 126 by {
        if i < d.len() {
            assert(b[i] == d[i]);
        } else {
            assert(b[i] == u[i - d.len()]);
        }
    }
    lemma_printing(b);
    lemma_printing(u);
    lemma_number_len(d, u);
    assert(b.take(d.len() as int) =~= d);
    assert(b.skip(d.len() as int) =~= u);
    lemma_no_separators(d);
    lemma_no_points(d);
    assert(text::all_digits(d));
    assert(b.last() != 37) by {
        if u.len() > 0 {
            assert(b.last() == u.last());
        } else {
            assert(b.last() == d[d.len() - 1]);
        }
    }
    if let Some(m) = unit_multiplier(u) {
        let n = text::digits_value(d);
        assert(n == 0 ==> n * m == 0) by (nonlinear_arith);
        assert(m > 0);
        assert(n * m == 0 ==> n == 0) by (nonlinear_arith)
            requires
                m > 0,
        ;
        assert(n * (m as nat) == n * m);
    }
}

/// A whole percentage is taken where it is from 1 to 100, and refused where it
/// is not.
pub proof fn whole_percentages_are_at_most_100(d: Seq<u8>)
    requires
        d.len() > 0,
        forall|i: int| 0 <= i < d.len() ==> 48 <= #[trigger] d[i] <= 57,
    ensures
        1 <= text::digits_value(d) <= 100 ==> memory_of(decode_utf8(d.push(37))) == Ok::<
            MemorySpecView,
            Seq<char>,
        >(MemorySpecView::Percent { number: decode_utf8(d) }),
        !(1 <= text::digits_value(d) <= 100) ==> memory_of(decode_utf8(d.push(37))) is Err,
        memory_of(Seq::empty()) is Err,
{
    let b = d.push(37);
    lemma_printing(b);
    lemma_printing(d);
    lemma_printing(Seq::empty());
    assert(b.drop_last() =~= d);
    lemma_no_points(d);
    assert(text::all_digits(d));
    text::trimming_takes_white_space_off(Seq::empty(), Seq::empty(), Seq::empty());
    assert(Seq::<char>::empty() + Seq::<char>::empty() + Seq::<char>::empty() =~= Seq::<
        char,
    >::empty());
    is_ascii_chars_encode_utf8(Seq::<char>::empty());
}

/// The total is told in kibibytes, in the first line that tells it.
pub proof fn the_total_is_told_in_kibibytes(
    gap: Seq<char>,
    n: u64,
    after: Seq<char>,
)
    requires
        forall|i: int| 0 <= i < gap.len() ==> text::is_white_space(#[trigger] gap[i]),
        forall|i: int| 0 <= i < after.len() ==> text::is_white_space(#[trigger] after[i]),
    ensures
        ({
            let line = encode_utf8("MemTotal:"@ + gap + text::decimal(n as nat) + after);
            &&& 1024 * n <= u64::MAX ==> line_memory(line) == Some((1024 * n) as u64)
            &&& 1024 * n > u64::MAX ==> line_memory(line) == Some(u64::MAX)
        }),
{
    let prefix = "MemTotal:"@;
    let d = text::decimal(n as nat);
    let rest = gap + d + after;
    assert(prefix + gap + d + after =~= prefix + rest);
    text::lemma_encode_concat(prefix, rest);
    let line = encode_utf8(prefix + rest);
    let p = encode_utf8(prefix);
    assert(line.take(p.len() as int) =~= p);
    assert(line.skip(p.len() as int) =~= encode_utf8(rest));
    encode_utf8_decode_utf8(rest);
    text::numbers_are_written_in_digits(n as nat);
    text::lemma_decimal_encoding(n as nat);
    text::written_numbers_are_read(n as int);
    assert forall|i: int| 0 <= i < d.len() implies !text::is_white_space(#[trigger] d[i]) by {
        assert(d[i] as int == text::decimal_bytes(n as nat)[i]);
        text::printing_characters_are_no_white_space(d[i]);
    }
    assert(!text::is_white_space(d[0]) && !text::is_white_space(d[d.len() - 1]));
    text::trimming_takes_white_space_off(gap, d, after);
}

/// A line that does not begin as that of the total does tells nothing, and the
/// first that tells the total is believed; where none does, it is taken to be
/// eight gibibytes.
pub proof fn the_first_total_is_believed(lines: Seq<Seq<u8>>, i: int)
    requires
        0 <= i <= lines.len(),
        forall|k: int|
            0 <= k < i ==> !encode_utf8("MemTotal:"@).is_prefix_of(#[trigger] lines[k]),
        i < lines.len() ==> line_memory(lines[i]) is Some,
    ensures
        i < lines.len() ==> Some(lines_memory(lines)) == line_memory(lines[i]),
        i == lines.len() ==> lines_memory(lines) == 8_589_934_592u64,
    decreases i,
{
    if i > 0 {
        assert(!encode_utf8("MemTotal:"@).is_prefix_of(lines[0]));
        let rest = lines.drop_first();
        assert forall|k: int| 0 <= k < i - 1 implies !encode_utf8("MemTotal:"@).is_prefix_of(
            #[trigger] rest[k],
        ) by {
            assert(rest[k] == lines[k + 1]);
        }
        the_first_total_is_believed(rest, i - 1);
    }
}

/// The free space is that of the free blocks, by the size of a fragment, or of a
/// block where the former is not given.
pub proof fn free_space_is_that_of_the_free_blocks(
    available: u64,
    size: u64,
    other: u64,
    by_fragment: u64,
    by_block: u64,
)
    requires
        size > 0,
        available * size <= u64::MAX,
        call_ensures(free_space_bytes, (available, size, other), by_fragment),
        call_ensures(free_space_bytes, (available, 0, size), by_block),
    ensures
        by_fragment == available * size,
        by_block == available * size,
{
}

/// A number with one point in it is kept as it is, with what its unit stands
/// for; one with two points, and a point alone, is refused. So it is with a
/// percentage.
pub proof fn fractions_are_kept(a: Seq<u8>, b: Seq<u8>, u: Seq<u8>)
    requires
        forall|i: int| 0 <= i < a.len() ==> 48 <= #[trigger] a[i] <= 57,
        forall|i: int| 0 <= i < b.len() ==> 48 <= #[trigger] b[i] <= 57,
        forall|i: int| 0 <= i < u.len() ==> 33 <= #[trigger] u[i] <= 126,
        u.len() > 0 ==> !(48 <= u[0] <= 57) && u[0] != 46 && u[0] != 95 && u.last() != 37,
    ensures
        ({
            let one = a.push(46) + b;
            let two = (a.push(46) + b).push(46);
            let r = memory_of(decode_utf8(one + u));
            &&& a.len() + b.len() > 0 && unit_multiplier(u) is Some ==> r == Ok::<
                MemorySpecView,
                Seq<char>,
            >(MemorySpecView::Scaled { number: one, multiplier: unit_multiplier(u)->0 })
            &&& a.len() + b.len() == 0 || unit_multiplier(u) is None ==> r is Err
            &&& memory_of(decode_utf8(two + u)) is Err
            &&& a.len() + b.len() > 0 ==> memory_of(decode_utf8(one.push(37))) == Ok::<
                MemorySpecView,
                Seq<char>,
            >(MemorySpecView::Percent { number: decode_utf8(one) })
            &&& memory_of(decode_utf8(two.push(37))) is Err
        }),
{
    let one = a.push(46) + b;
    let two = one.push(46);
    lemma_no_points(a);
    lemma_no_points(b);
    text::separators_are_counted(a, seq![46u8], 46);
    assert(a + seq![46u8] =~= a.push(46));
    text::separators_are_counted(a.push(46), b, 46);
    text::separators_are_counted(one, seq![46u8], 46);
    assert(one + seq![46u8] =~= two);
    assert(!text::all_digits(one)) by {
        assert(one[a.len() as int] == 46);
    }
    lemma_fraction(one, u);
    assert forall|i: int| 0 <= i < two.len() implies 48 <= #[trigger] two[i] <= 57 || two[i]
        == 46 by {
        if i < one.len() {
            assert(two[i] == one[i]);
        }
    }
    lemma_fraction(two, u);
}

/// Digits and points are the number of a budget, up to its unit.
proof fn lemma_fraction(d: Seq<u8>, u: Seq<u8>)
    requires
        d.len() > 0,
        forall|i: int| 0 <= i < d.len() ==> 48 <= #[trigger] d[i] <= 57 || d[i] == 46,
        forall|i: int| 0 <= i < u.len() ==> 33 <= #[trigger] u[i] <= 126,
        u.len() > 0 ==> !(48 <= u[0] <= 57) && u[0] != 46 && u[0] != 95 && u.last() != 37,
    ensures
        ({
            let b = d + u;
            &&& encode_utf8(text::trim_white(decode_utf8(b))) == b
            &&& number_len(b) == d.len()
            &&& without_separators(b.take(d.len() as int)) == d
            &&& encode_utf8(text::trim_white(decode_utf8(b.skip(d.len() as int)))) == u
            &&& b.len() > 0 && b.last() != 37
            &&& encode_utf8(text::trim_white(decode_utf8(d.push(37)))) == d.push(37)
            &&& text::trim_white(decode_utf8(d.push(37).drop_last())) == decode_utf8(d)
            &&& encode_utf8(decode_utf8(d)) == d
            &&& digits_and_points(d)
        }),
{
    let b = d + u;
    assert forall|i: int| 0 <= i < b.len() implies 33 <= #[trigger] b[i] <= 126 by {
        if i < d.len() {
            assert(b[i] == d[i]);
        } else {
            assert(b[i] == u[i - d.len()]);
        }
    }
    lemma_printing(b);
    lemma_printing(u);
    lemma_printing(d);
    lemma_printing(d.push(37));
    assert(d.push(37).drop_last() =~= d);
    lemma_number_len(d, u);
    assert(b.take(d.len() as int) =~= d);
    assert(b.skip(d.len() as int) =~= u);
    lemma_no_separators(d);
    if u.len() > 0 {
        assert(b.last() == u.last());
    } else {
        assert(b.last() == d[d.len() - 1]);
    }
}

} // verus!
