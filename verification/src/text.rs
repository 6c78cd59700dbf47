//! Decimal numbers in text, and a few questions about the characters of a string.

use vstd::prelude::*;
use vstd::string::StringExecFns;

verus! {

/// `String::push` appends one character to the end of the string.
pub assume_specification[ String::push ](s: &mut String, c: char)
    ensures
        final(s)@ == old(s)@.push(c),
;

/// The character of the decimal digit `d`.
pub open spec fn digit(d: nat) -> char {
    (48 + d) as char
}

/// The decimal digits of `n`, without leading zeros.
pub open spec fn decimal(n: nat) -> Seq<char>
    decreases n,
{
    if n < 10 {
        seq![digit(n)]
    } else {
        decimal(n / 10).push(digit(n % 10))
    }
}

/// `count` zeros.
pub open spec fn zeros(count: nat) -> Seq<char> {
    Seq::new(count, |i: int| '0')
}

/// The decimal digits of `n`, with zeros in front up to `width` characters.
pub open spec fn padded(n: nat, width: nat) -> Seq<char> {
    let digits = decimal(n);
    if digits.len() < width {
        zeros((width - digits.len()) as nat) + digits
    } else {
        digits
    }
}

/// `s` ends with the characters of `suffix`.
pub open spec fn ends_with(s: Seq<char>, suffix: Seq<char>) -> bool {
    s.len() >= suffix.len() && s.subrange(s.len() - suffix.len(), s.len() as int) == suffix
}

/// `s` starts with the characters of `prefix`.
pub open spec fn starts_with(s: Seq<char>, prefix: Seq<char>) -> bool {
    s.len() >= prefix.len() && s.subrange(0, prefix.len() as int) == prefix
}

/// Appends the decimal digits of `n`.
pub fn push_decimal(out: &mut String, n: u64)
    ensures
        final(out)@ == old(out)@ + decimal(n as nat),
    decreases n,
{
    if n >= 10 {
        push_decimal(out, n / 10);
    }
    let d: u8 = (n % 10) as u8;
    out.push((48 + d) as char);
    assert(out@ =~= old(out)@ + decimal(n as nat));
}

/// How many zeros bring the decimal digits of `n` to `width` characters.
fn missing_zeros(n: u64, width: usize) -> (count: usize)
    ensures
        count == if decimal(n as nat).len() < width {
            width - decimal(n as nat).len()
        } else {
            0
        },
{
    let mut rest: u64 = n;
    let mut count: usize = if width == 0 { 0 } else { width - 1 };
    let ghost mut seen: nat = 1;
    while rest >= 10
        invariant
            seen + decimal(rest as nat).len() == decimal(n as nat).len() + 1,
            count == if seen < width { width - seen } else { 0 },
        decreases rest,
    {
        rest = rest / 10;
        if count > 0 {
            count = count - 1;
        }
        proof {
            seen = seen + 1;
        }
    }
    count
}

/// Appends the decimal digits of `n`, with zeros in front up to `width` characters.
pub fn push_padded(out: &mut String, n: u64, width: usize)
    ensures
        final(out)@ == old(out)@ + padded(n as nat, width as nat),
{
    let count: usize = missing_zeros(n, width);
    let mut done: usize = 0;
    while done < count
        invariant
            done <= count,
            out@ == old(out)@ + zeros(done as nat),
        decreases count - done,
    {
        out.push('0');
        done = done + 1;
        assert(out@ =~= old(out)@ + zeros(done as nat));
    }
    push_decimal(out, n);
    assert(out@ =~= old(out)@ + padded(n as nat, width as nat));
}

/// The characters of `s`.
pub fn chars_of(s: &str) -> (chars: Vec<char>)
    ensures
        chars@ == s@,
{
    let mut chars: Vec<char> = Vec::new();
    for c in it: s.chars()
        invariant
            it.seq() == s@,
            chars@ == s@.take(it.index()),
    {
        chars.push(c);
        assert(s@.take(it.index() + 1) =~= s@.take(it.index()).push(c));
    }
    assert(s@.take(s@.len() as int) =~= s@);
    chars
}

/// Whether `part` stands in `items` at `at`, where `same` says whether two items are equal.
fn stands_at_by<T: Copy, F: Fn(T, T) -> bool>(
    items: &Vec<T>,
    at: usize,
    part: &Vec<T>,
    same: F,
) -> (r: bool)
    requires
        at + part@.len() <= items@.len(),
        forall|x: T, y: T| #[trigger] same.requires((x, y)),
        forall|x: T, y: T, b: bool| #[trigger] same.ensures((x, y), b) ==> b == (x == y),
    ensures
        r == (items@.subrange(at as int, at + part@.len()) == part@),
{
    let ghost there = items@.subrange(at as int, at + part@.len());
    let mut i: usize = 0;
    while i < part.len()
        invariant
            i <= part@.len(),
            at + part@.len() <= items@.len(),
            forall|x: T, y: T| #[trigger] same.requires((x, y)),
            forall|x: T, y: T, b: bool| #[trigger] same.ensures((x, y), b) ==> b == (x == y),
            there == items@.subrange(at as int, at + part@.len()),
            forall|k: int| 0 <= k < i ==> #[trigger] there[k] == part@[k],
        decreases part.len() - i,
    {
        assert(there[i as int] == items@[at + i]);
        assert(at + i < items.len());
        if !same(items[at + i], part[i]) {
            return false;
        }
        i = i + 1;
    }
    assert(there =~= part@);
    true
}

/// Whether two characters are equal.
fn same_char(x: char, y: char) -> (b: bool)
    ensures
        b == (x == y),
{
    x == y
}

/// Whether `part` stands in `chars` at `at`.
pub fn stands_at(chars: &Vec<char>, at: usize, part: &Vec<char>) -> (r: bool)
    requires
        at + part@.len() <= chars@.len(),
    ensures
        r == (chars@.subrange(at as int, at + part@.len()) == part@),
{
    stands_at_by(chars, at, part, same_char)
}

/// Whether two bytes are equal.
fn same_byte(x: u8, y: u8) -> (b: bool)
    ensures
        b == (x == y),
{
    x == y
}

/// Whether `part` stands in `bytes` at `at`.
pub fn bytes_at(bytes: &Vec<u8>, at: usize, part: &Vec<u8>) -> (r: bool)
    requires
        at + part@.len() <= bytes@.len(),
    ensures
        r == (bytes@.subrange(at as int, at + part@.len()) == part@),
{
    stands_at_by(bytes, at, part, same_byte)
}

/// Whether `s` ends with the characters of `suffix`.
pub fn has_suffix(s: &str, suffix: &str) -> (r: bool)
    ensures
        r == ends_with(s@, suffix@),
{
    let chars: Vec<char> = chars_of(s);
    let part: Vec<char> = chars_of(suffix);
    chars.len() >= part.len() && stands_at(&chars, chars.len() - part.len(), &part)
}

/// The decimal numbers of `bytes`, with commas between them.
pub open spec fn comma_separated(bytes: Seq<u8>) -> Seq<char>
    decreases bytes.len(),
{
    if bytes.len() == 0 {
        Seq::empty()
    } else if bytes.len() == 1 {
        decimal(bytes[0] as nat)
    } else {
        comma_separated(bytes.drop_last()) + ", "@ + decimal(bytes.last() as nat)
    }
}

/// `bytes` as a list in brackets.
pub open spec fn byte_list(bytes: Seq<u8>) -> Seq<char> {
    "["@ + comma_separated(bytes) + "]"@
}

/// Appends `bytes` as a list in brackets.
pub fn push_byte_list(out: &mut String, bytes: &[u8])
    ensures
        final(out)@ == old(out)@ + byte_list(bytes@),
{
    out.append("[");
    let ghost start = out@;
    let mut i: usize = 0;
    while i < bytes.len()
        invariant
            i <= bytes@.len(),
            start == old(out)@ + "["@,
            out@ == start + comma_separated(bytes@.take(i as int)),
        decreases bytes.len() - i,
    {
        let ghost before = out@;
        if i > 0 {
            out.append(", ");
        }
        push_decimal(out, bytes[i] as u64);
        assert(bytes@.take(i + 1).drop_last() =~= bytes@.take(i as int));
        assert(out@ =~= start + comma_separated(bytes@.take(i + 1)));
        i = i + 1;
    }
    assert(bytes@.take(i as int) =~= bytes@);
    out.append("]");
    assert(out@ =~= old(out)@ + byte_list(bytes@));
}

/// The decimal digits of a number: each is a digit, there is no zero in front of others,
/// and a tenth of the number has all of them but the last.
pub proof fn law_decimal_digits(n: nat)
    ensures
        decimal(n).len() > 0,
        decimal(n).len() == 1 <==> n < 10,
        decimal(n).last() as int == '0' as int + n % 10,
        n >= 10 ==> decimal(n).drop_last() == decimal(n / 10),
        n > 0 ==> decimal(n)[0] != '0',
        forall|i: int| 0 <= i < decimal(n).len() ==> '0' <= #[trigger] decimal(n)[i] <= '9',
    decreases n,
{
    if n >= 10 {
        law_decimal_digits(n / 10);
        assert(decimal(n).drop_last() =~= decimal(n / 10));
        assert forall|i: int| 0 <= i < decimal(n).len() implies '0' <= #[trigger] decimal(
            n,
        )[i] <= '9' by {
            if i < decimal(n / 10).len() {
                assert(decimal(n)[i] == decimal(n / 10)[i]);
            }
        }
    }
}

/// Padding puts zeros in front of the digits until there are as many as the width, and
/// changes nothing where there are.
pub proof fn law_padding_is_zeros(n: nat, width: nat)
    ensures
        padded(n, width).len() == if decimal(n).len() < width {
            width
        } else {
            decimal(n).len()
        },
        padded(n, width).skip(padded(n, width).len() - decimal(n).len()) == decimal(n),
        forall|i: int|
            0 <= i < padded(n, width).len() - decimal(n).len() ==> #[trigger] padded(n, width)[i]
                == '0',
{
    assert(padded(n, width).skip(padded(n, width).len() - decimal(n).len()) =~= decimal(n));
}

/// A text ends with the characters that were put at its end, and has something else before
/// them; it starts with those that were put at its front.
pub proof fn law_ends_are_what_was_put_there(a: Seq<char>, b: Seq<char>)
    ensures
        ends_with(a + b, b),
        starts_with(a + b, a),
        ends_with(a, b) ==> a == a.take(a.len() - b.len()) + b,
        starts_with(a, b) ==> a == b + a.skip(b.len() as int),
{
    assert((a + b).subrange(a.len() as int, (a + b).len() as int) =~= b);
    assert((a + b).subrange(0, a.len() as int) =~= a);
    if ends_with(a, b) {
        assert(a =~= a.take(a.len() - b.len()) + a.subrange(a.len() - b.len(), a.len() as int));
    }
    if starts_with(a, b) {
        assert(a =~= a.subrange(0, b.len() as int) + a.skip(b.len() as int));
    }
}

/// A list of bytes is the number of the first, and after a comma the rest, in brackets.
pub proof fn law_list_has_all_bytes(bytes: Seq<u8>, b: u8)
    ensures
        byte_list(bytes) == seq!['['] + comma_separated(bytes) + seq![']'],
        comma_separated(Seq::<u8>::empty()) == Seq::<char>::empty(),
        comma_separated(seq![b]) == decimal(b as nat),
        bytes.len() > 0 ==> comma_separated(seq![b] + bytes) == decimal(b as nat) + seq![',', ' ']
            + comma_separated(bytes),
    decreases bytes.len(),
{
    reveal_strlit("[");
    reveal_strlit("]");
    reveal_strlit(", ");
    assert("["@ =~= seq!['[']);
    assert("]"@ =~= seq![']']);
    assert(", "@ =~= seq![',', ' ']);
    assert(seq![b][0] == b);
    assert(comma_separated(seq![b]) == decimal(b as nat));
    if bytes.len() == 1 {
        let both = seq![b] + bytes;
        assert(both.drop_last() =~= seq![b]);
        assert(both.last() == bytes[0]);
        assert(comma_separated(both) =~= decimal(b as nat) + seq![',', ' '] + decimal(
            bytes[0] as nat,
        ));
    } else if bytes.len() > 1 {
        let front = bytes.drop_last();
        let both = seq![b] + bytes;
        law_list_has_all_bytes(front, b);
        assert(both.drop_last() =~= seq![b] + front);
        assert(both.last() == bytes.last());
        assert(comma_separated(both) =~= decimal(b as nat) + seq![',', ' '] + comma_separated(
            bytes,
        ));
    }
}

} // verus!
