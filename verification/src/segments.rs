//! The segments of a presentation, as the names of their files give them.

use vstd::prelude::*;
use vstd::string::StringExecFns;
use vstd::relations::{sorted_by, total_ordering};
use crate::text::{chars_of, decimal, ends_with, padded, push_padded, stands_at, starts_with, zeros};

verus! {

/// How the name of an audio segment begins.
pub const AUDIO_PREFIX: &'static str = "chunk-1-";

/// How the name of a video segment begins.
pub const VIDEO_PREFIX: &'static str = "chunk-0-";

/// How the name of a segment ends.
pub const SEGMENT_SUFFIX: &'static str = ".m4s";

/// `c` is a decimal digit.
pub open spec fn is_digit(c: char) -> bool {
    '0' <= c && c <= '9'
}

/// `s` is one decimal digit or more.
pub open spec fn is_number(s: Seq<char>) -> bool {
    s.len() > 0 && forall|i: int| 0 <= i < s.len() ==> is_digit(#[trigger] s[i])
}

/// The number that the decimal digits `s` write.
pub open spec fn value(s: Seq<char>) -> nat
    decreases s.len(),
{
    if s.len() == 0 {
        0
    } else {
        (value(s.drop_last()) * 10 + (s.last() as int - 48)) as nat
    }
}

/// The number that `s` writes: decimal digits, with or without a plus sign in front, up
/// to `u32::MAX`.
pub open spec fn parse_u32(s: Seq<char>) -> Option<u32> {
    let digits = if s.len() > 0 && s[0] == '+' {
        s.skip(1)
    } else {
        s
    };
    if is_number(digits) && value(digits) <= u32::MAX {
        Some(value(digits) as u32)
    } else {
        None
    }
}

/// The number of the segment in the file `name`, where the name is `prefix`, the number
/// and the suffix of segments.
pub open spec fn segment_number(name: Seq<char>, prefix: Seq<char>) -> Option<u32> {
    let rest = name.skip(prefix.len() as int);
    if starts_with(name, prefix) && ends_with(rest, SEGMENT_SUFFIX@) {
        parse_u32(rest.take(rest.len() - SEGMENT_SUFFIX@.len()))
    } else {
        None
    }
}

/// The numbers of the segments among the files `names`, in the order of the names.
pub open spec fn segment_numbers(names: Seq<String>, prefix: Seq<char>) -> Seq<u32>
    decreases names.len(),
{
    if names.len() == 0 {
        Seq::empty()
    } else {
        let before = segment_numbers(names.drop_last(), prefix);
        match segment_number(names.last()@, prefix) {
            Some(n) => before.push(n),
            None => before,
        }
    }
}

/// The numbers for which there is an audio file and a video file, in ascending order,
/// each as often as there are audio files for it.
pub open spec fn common_segments(names: Seq<String>) -> Seq<u32> {
    let video = segment_numbers(names, VIDEO_PREFIX@);
    segment_numbers(names, AUDIO_PREFIX@).filter(|n: u32| video.contains(n)).sort_by(
        |a: u32, b: u32| a <= b,
    )
}

/// The name of the file of the segment `number`.
pub open spec fn segment_name(prefix: Seq<char>, number: u32) -> Seq<char> {
    prefix + padded(number as nat, 5) + SEGMENT_SUFFIX@
}

proof fn lemma_value_grows(s: Seq<char>, k: int)
    requires
        0 <= k <= s.len(),
        forall|i: int| 0 <= i < s.len() ==> is_digit(#[trigger] s[i]),
    ensures
        value(s.take(k)) <= value(s),
    decreases s.len(),
{
    if k == s.len() {
        assert(s.take(k) =~= s);
    } else {
        assert(s.drop_last().take(k) =~= s.take(k));
        lemma_value_grows(s.drop_last(), k);
    }
}

/// Reads the number that the characters from `from` up to `to` write.
fn read_u32(chars: &Vec<char>, from: usize, to: usize) -> (r: Option<u32>)
    requires
        from <= to <= chars@.len(),
    ensures
        r == parse_u32(chars@.subrange(from as int, to as int)),
{
    let ghost text = chars@.subrange(from as int, to as int);
    let start: usize = if from < to && chars[from] == '+' {
        from + 1
    } else {
        from
    };
    let ghost digits = chars@.subrange(start as int, to as int);
    assert(start == from + 1 ==> digits =~= text.skip(1));
    if start == to {
        return None;
    }
    let mut number: u32 = 0;
    let mut i: usize = start;
    assert(digits.take(0) =~= Seq::<char>::empty());
    while i < to
        invariant
            start <= i <= to <= chars@.len(),
            text == chars@.subrange(from as int, to as int),
            digits == chars@.subrange(start as int, to as int),
            number == value(digits.take(i - start)),
            forall|k: int| 0 <= k < i - start ==> is_digit(#[trigger] digits[k]),
            parse_u32(text) == if is_number(digits) && value(digits) <= u32::MAX {
                Some(value(digits) as u32)
            } else {
                None
            },
        decreases to - i,
    {
        let c: char = chars[i];
        assert(c == digits[i - start]);
        if !('0' <= c && c <= '9') {
            return None;
        }
        let d: u32 = c as u32 - 48;
        let next: u64 = number as u64 * 10 + d as u64;
        assert(digits.take(i - start + 1).drop_last() =~= digits.take(i - start));
        assert(next == value(digits.take(i - start + 1)));
        if next > u32::MAX as u64 {
            proof {
                if is_number(digits) {
                    lemma_value_grows(digits, i - start + 1);
                }
            }
            return None;
        }
        number = next as u32;
        i = i + 1;
    }
    assert(digits.take(to - start) =~= digits);
    Some(number)
}

/// The number of the segment in the file `name`.
pub fn parse_segment_name(name: &str, prefix: &str) -> (r: Option<u32>)
    ensures
        r == segment_number(name@, prefix@),
{
    let name_chars: Vec<char> = chars_of(name);
    let prefix_chars: Vec<char> = chars_of(prefix);
    let suffix_chars: Vec<char> = chars_of(SEGMENT_SUFFIX);
    if name_chars.len() < prefix_chars.len() || !stands_at(&name_chars, 0, &prefix_chars) {
        return None;
    }
    let ghost rest = name@.skip(prefix@.len() as int);
    if name_chars.len() - prefix_chars.len() < suffix_chars.len() {
        return None;
    }
    let end: usize = name_chars.len() - suffix_chars.len();
    assert(name@.subrange(end as int, name@.len() as int) =~= rest.subrange(
        rest.len() - suffix_chars@.len(),
        rest.len() as int,
    ));
    if !stands_at(&name_chars, end, &suffix_chars) {
        return None;
    }
    assert(name@.subrange(prefix@.len() as int, end as int) =~= rest.take(
        rest.len() - suffix_chars@.len(),
    ));
    read_u32(&name_chars, prefix_chars.len(), end)
}

/// The numbers of the segments among the files `names`.
fn numbers_of(names: &Vec<String>, prefix: &str) -> (r: Vec<u32>)
    ensures
        r@ == segment_numbers(names@, prefix@),
{
    let mut numbers: Vec<u32> = Vec::new();
    let mut i: usize = 0;
    while i < names.len()
        invariant
            i <= names@.len(),
            numbers@ == segment_numbers(names@.take(i as int), prefix@),
        decreases names.len() - i,
    {
        assert(names@.take(i + 1).drop_last() =~= names@.take(i as int));
        match parse_segment_name(names[i].as_str(), prefix) {
            Some(n) => numbers.push(n),
            None => {},
        }
        i = i + 1;
    }
    assert(names@.take(i as int) =~= names@);
    numbers
}

/// Whether `n` is among `numbers`.
fn contains(numbers: &Vec<u32>, n: u32) -> (r: bool)
    ensures
        r == numbers@.contains(n),
{
    let mut i: usize = 0;
    while i < numbers.len()
        invariant
            i <= numbers@.len(),
            forall|k: int| 0 <= k < i ==> numbers@[k] != n,
        decreases numbers.len() - i,
    {
        if numbers[i] == n {
            return true;
        }
        i = i + 1;
    }
    false
}

/// Inserts `n` into ascending `numbers`.
fn insert_ascending(numbers: &mut Vec<u32>, n: u32)
    requires
        sorted_by(old(numbers)@, |a: u32, b: u32| a <= b),
    ensures
        sorted_by(final(numbers)@, |a: u32, b: u32| a <= b),
        final(numbers)@.to_multiset() == old(numbers)@.to_multiset().insert(n),
{
    let ghost leq = |a: u32, b: u32| a <= b;
    let ghost before = numbers@;
    assert forall|i: int, j: int| 0 <= i < j < before.len() implies before[i] <= before[j] by {
        assert(leq(before[i], before[j]));
    }
    let mut at: usize = numbers.len();
    while at > 0 && numbers[at - 1] > n
        invariant
            at <= numbers@.len(),
            numbers@ == before,
            forall|k: int| at <= k < before.len() ==> n < #[trigger] before[k],
        decreases at,
    {
        at = at - 1;
    }
    numbers.insert(at, n);
    proof {
        vstd::seq_lib::to_multiset_insert(before, at as int, n);
        assert forall|i: int, j: int| 0 <= i < j < numbers@.len() implies #[trigger] leq(
            numbers@[i],
            numbers@[j],
        ) by {
            let after = before.insert(at as int, n);
            assert(after == numbers@);
            assert(at > 0 ==> before[at - 1] <= n);
            if i < at && j == at {
                assert(before[i] <= before[at - 1]);
            }
        }
    }
}

/// The numbers for which the files `names` hold an audio and a video segment.
pub fn find_common_segments(names: &Vec<String>) -> (r: Vec<u32>)
    ensures
        r@ == common_segments(names@),
{
    let audio: Vec<u32> = numbers_of(names, AUDIO_PREFIX);
    let video: Vec<u32> = numbers_of(names, VIDEO_PREFIX);
    let mut common: Vec<u32> = Vec::new();
    let ghost leq = |a: u32, b: u32| a <= b;
    let ghost both = |n: u32| video@.contains(n);
    let mut i: usize = 0;
    assert(audio@.take(0).filter(both) =~= Seq::<u32>::empty()) by {
        reveal(Seq::filter);
    }
    while i < audio.len()
        invariant
            i <= audio@.len(),
            both == (|n: u32| video@.contains(n)),
            sorted_by(common@, |a: u32, b: u32| a <= b),
            common@.to_multiset() == audio@.take(i as int).filter(both).to_multiset(),
        decreases audio.len() - i,
    {
        let n: u32 = audio[i];
        proof {
            reveal(Seq::filter);
            assert(audio@.take(i + 1).drop_last() =~= audio@.take(i as int));
            vstd::seq_lib::to_multiset_build(audio@.take(i as int).filter(both), n);
        }
        if contains(&video, n) {
            insert_ascending(&mut common, n);
        }
        i = i + 1;
    }
    proof {
        assert(audio@.take(i as int) =~= audio@);
        let wanted = audio@.filter(both);
        assert(total_ordering(leq));
        wanted.lemma_sort_by_ensures(leq);
        vstd::seq_lib::lemma_sorted_unique(common@, wanted.sort_by(leq), leq);
    }
    common
}

/// The name of the audio file of the segment.
pub fn audio_segment_name(number: u32) -> (s: String)
    ensures
        s@ == segment_name(AUDIO_PREFIX@, number),
{
    let mut out: String = AUDIO_PREFIX.to_owned();
    push_padded(&mut out, number as u64, 5);
    out.append(SEGMENT_SUFFIX);
    out
}

/// The name of the video file of the segment.
pub fn video_segment_name(number: u32) -> (s: String)
    ensures
        s@ == segment_name(VIDEO_PREFIX@, number),
{
    let mut out: String = VIDEO_PREFIX.to_owned();
    push_padded(&mut out, number as u64, 5);
    out.append(SEGMENT_SUFFIX);
    out
}

/// The decimal digits of `n` are a number, and that number is `n`.
pub proof fn lemma_decimal(n: nat)
    ensures
        is_number(decimal(n)),
        value(decimal(n)) == n,
    decreases n,
{
    if n < 10 {
        assert(decimal(n).drop_last() =~= Seq::<char>::empty());
        assert(value(Seq::<char>::empty()) == 0);
    } else {
        lemma_decimal(n / 10);
        assert(decimal(n).drop_last() =~= decimal(n / 10));
        assert forall|i: int| 0 <= i < decimal(n).len() implies is_digit(
            #[trigger] decimal(n)[i],
        ) by {
            if i < decimal(n / 10).len() {
                assert(decimal(n)[i] == decimal(n / 10)[i]);
            }
        }
    }
}

proof fn lemma_zeros(count: nat, s: Seq<char>)
    ensures
        value(zeros(count) + s) == value(s),
    decreases count, s.len(),
{
    if s.len() > 0 {
        assert((zeros(count) + s).drop_last() =~= zeros(count) + s.drop_last());
        lemma_zeros(count, s.drop_last());
    } else if count > 0 {
        assert((zeros(count) + s).drop_last() =~= zeros((count - 1) as nat) + s);
        lemma_zeros((count - 1) as nat, s);
    } else {
        assert(zeros(count) + s =~= s);
    }
}

/// The name of a segment's file gives back the number of the segment.
pub proof fn law_name_gives_number(prefix: Seq<char>, number: u32)
    ensures
        segment_number(segment_name(prefix, number), prefix) == Some(number),
{
    let name = segment_name(prefix, number);
    let digits = padded(number as nat, 5);
    lemma_decimal(number as nat);
    let plain = decimal(number as nat);
    if plain.len() < 5 {
        lemma_zeros((5 - plain.len()) as nat, plain);
        assert forall|i: int| 0 <= i < digits.len() implies is_digit(#[trigger] digits[i]) by {
            if i >= 5 - plain.len() {
                assert(digits[i] == plain[i - (5 - plain.len())]);
            }
        }
    }
    assert(is_number(digits));
    assert(is_digit(digits[0]));
    assert(value(digits) == number);
    assert(starts_with(name, prefix)) by {
        assert(name.subrange(0, prefix.len() as int) =~= prefix);
    }
    let rest = name.skip(prefix.len() as int);
    assert(rest =~= digits + SEGMENT_SUFFIX@);
    assert(ends_with(rest, SEGMENT_SUFFIX@)) by {
        assert(rest.subrange(rest.len() - SEGMENT_SUFFIX@.len(), rest.len() as int)
            =~= SEGMENT_SUFFIX@);
    }
    assert(rest.take(rest.len() - SEGMENT_SUFFIX@.len()) =~= digits);
}

proof fn lemma_filter_contains(s: Seq<u32>, pred: spec_fn(u32) -> bool, n: u32)
    ensures
        s.filter(pred).contains(n) <==> s.contains(n) && pred(n),
    decreases s.len(),
{
    reveal(Seq::filter);
    if s.len() > 0 {
        let front = s.drop_last();
        lemma_filter_contains(front, pred, n);
        assert(s =~= front.push(s.last()));
        vstd::seq_lib::lemma_seq_contains_after_push(front, s.last(), n);
        vstd::seq_lib::lemma_seq_contains_after_push(front.filter(pred), s.last(), n);
    }
}

/// A number is common exactly if there is an audio file and a video file for it.
pub proof fn law_common_iff_both(names: Seq<String>, n: u32)
    ensures
        common_segments(names).contains(n) <==> segment_numbers(names, AUDIO_PREFIX@).contains(n)
            && segment_numbers(names, VIDEO_PREFIX@).contains(n),
{
    broadcast use vstd::seq_lib::group_to_multiset_ensures;

    let audio = segment_numbers(names, AUDIO_PREFIX@);
    let video = segment_numbers(names, VIDEO_PREFIX@);
    let both = |m: u32| video.contains(m);
    let leq = |a: u32, b: u32| a <= b;
    let wanted = audio.filter(both);
    assert(total_ordering(leq));
    wanted.lemma_sort_by_ensures(leq);
    assert(wanted.sort_by(leq).contains(n) <==> wanted.contains(n)) by {
        assert(wanted.sort_by(leq).to_multiset().count(n) == wanted.to_multiset().count(n));
    }
    lemma_filter_contains(audio, both, n);
}

/// The common segments stand in ascending order.
pub proof fn law_common_ascending(names: Seq<String>, i: int, j: int)
    requires
        0 <= i < j < common_segments(names).len(),
    ensures
        common_segments(names)[i] <= common_segments(names)[j],
{
    let video = segment_numbers(names, VIDEO_PREFIX@);
    let wanted = segment_numbers(names, AUDIO_PREFIX@).filter(|m: u32| video.contains(m));
    let leq = |a: u32, b: u32| a <= b;
    assert(total_ordering(leq));
    wanted.lemma_sort_by_ensures(leq);
    assert(leq(wanted.sort_by(leq)[i], wanted.sort_by(leq)[j]));
}

proof fn lemma_numbers_joined(a: Seq<String>, b: Seq<String>, prefix: Seq<char>)
    ensures
        segment_numbers(a + b, prefix) == segment_numbers(a, prefix) + segment_numbers(b, prefix),
    decreases b.len(),
{
    if b.len() == 0 {
        assert(a + b =~= a);
        assert(segment_numbers(a, prefix) + segment_numbers(b, prefix) =~= segment_numbers(
            a,
            prefix,
        ));
    } else {
        assert((a + b).drop_last() =~= a + b.drop_last());
        lemma_numbers_joined(a, b.drop_last(), prefix);
        assert(segment_numbers(a + b, prefix) =~= segment_numbers(a, prefix) + segment_numbers(
            b,
            prefix,
        ));
    }
}

proof fn lemma_numbers_reordered(names: Seq<String>, other: Seq<String>, prefix: Seq<char>)
    requires
        names.to_multiset() == other.to_multiset(),
    ensures
        segment_numbers(names, prefix).to_multiset() == segment_numbers(
            other,
            prefix,
        ).to_multiset(),
    decreases names.len(),
{
    broadcast use vstd::seq_lib::group_to_multiset_ensures;

    vstd::seq_lib::to_multiset_len(names);
    vstd::seq_lib::to_multiset_len(other);
    if names.len() == 0 {
        assert(names =~= other);
    } else {
        let x = names.last();
        let front = names.drop_last();
        assert(names =~= front.push(x));
        assert(names.contains(x));
        assert(other.to_multiset().count(x) > 0);
        let j = choose|j: int| 0 <= j < other.len() && other[j] == x;
        let shorter = other.remove(j);
        assert(front.to_multiset() =~= shorter.to_multiset());
        lemma_numbers_reordered(front, shorter, prefix);
        let a = other.take(j);
        let b = other.skip(j + 1);
        let one = seq![x];
        assert(other =~= a + (one + b));
        assert(shorter =~= a + b);
        lemma_numbers_joined(a, one + b, prefix);
        lemma_numbers_joined(one, b, prefix);
        lemma_numbers_joined(a, b, prefix);
        lemma_numbers_joined(front, one, prefix);
        assert(names =~= front + one);
        let na = segment_numbers(a, prefix);
        let nb = segment_numbers(b, prefix);
        let no = segment_numbers(one, prefix);
        let nf = segment_numbers(front, prefix);
        vstd::seq_lib::lemma_multiset_commutative(nf, no);
        vstd::seq_lib::lemma_multiset_commutative(na, nb);
        vstd::seq_lib::lemma_multiset_commutative(na, no + nb);
        vstd::seq_lib::lemma_multiset_commutative(no, nb);
        assert((nf + no).to_multiset() =~= (na + (no + nb)).to_multiset());
    }
}

proof fn lemma_filter_count(s: Seq<u32>, pred: spec_fn(u32) -> bool, n: u32)
    ensures
        s.filter(pred).to_multiset().count(n) == if pred(n) {
            s.to_multiset().count(n)
        } else {
            0
        },
    decreases s.len(),
{
    broadcast use vstd::seq_lib::group_to_multiset_ensures;

    reveal(Seq::filter);
    if s.len() > 0 {
        let front = s.drop_last();
        lemma_filter_count(front, pred, n);
        assert(s =~= front.push(s.last()));
    }
}

/// The order in which the files are listed does not matter.
pub proof fn law_listing_order_does_not_matter(names: Seq<String>, other: Seq<String>)
    requires
        names.to_multiset() == other.to_multiset(),
    ensures
        common_segments(names) == common_segments(other),
{
    broadcast use vstd::seq_lib::group_to_multiset_ensures;

    let audio = segment_numbers(names, AUDIO_PREFIX@);
    let video = segment_numbers(names, VIDEO_PREFIX@);
    let other_audio = segment_numbers(other, AUDIO_PREFIX@);
    let other_video = segment_numbers(other, VIDEO_PREFIX@);
    lemma_numbers_reordered(names, other, AUDIO_PREFIX@);
    lemma_numbers_reordered(names, other, VIDEO_PREFIX@);
    let both = |n: u32| video.contains(n);
    let other_both = |n: u32| other_video.contains(n);
    let leq = |a: u32, b: u32| a <= b;
    let wanted = audio.filter(both);
    let other_wanted = other_audio.filter(other_both);
    assert forall|n: u32| wanted.to_multiset().count(n) == other_wanted.to_multiset().count(n) by {
        lemma_filter_count(audio, both, n);
        lemma_filter_count(other_audio, other_both, n);
        assert(video.contains(n) <==> video.to_multiset().count(n) > 0);
        assert(other_video.contains(n) <==> other_video.to_multiset().count(n) > 0);
    }
    assert(wanted.to_multiset() =~= other_wanted.to_multiset());
    assert(total_ordering(leq));
    wanted.lemma_sort_by_ensures(leq);
    other_wanted.lemma_sort_by_ensures(leq);
    vstd::seq_lib::lemma_sorted_unique(wanted.sort_by(leq), other_wanted.sort_by(leq), leq);
}

/// The number that digits write grows tenfold with each digit that follows; only the ten
/// digits are digits.
pub proof fn law_digits_write_number(s: Seq<char>, c: char)
    ensures
        is_digit(c) <==> c == '0' || c == '1' || c == '2' || c == '3' || c == '4' || c == '5' || c
            == '6' || c == '7' || c == '8' || c == '9',
        value(Seq::<char>::empty()) == 0,
        is_digit(c) ==> value(s.push(c)) == 10 * value(s) + (c as int - '0' as int),
        is_number(s) <==> s.len() > 0 && forall|i: int|
            0 <= i < s.len() ==> '0' <= #[trigger] s[i] <= '9',
{
    assert(s.push(c).drop_last() =~= s);
}

/// The name of a file gives a number wherever there are digits between the prefix and
/// `.m4s`, with or without a plus sign in front of them, and what they write is not above
/// `u32::MAX`.
pub proof fn law_digits_in_name_are_read(prefix: Seq<char>, digits: Seq<char>)
    requires
        is_number(digits),
    ensures
        ({
            let plain = segment_number(prefix + digits + ".m4s"@, prefix);
            let signed = segment_number(prefix + (seq!['+'] + digits) + ".m4s"@, prefix);
            &&& plain == signed
            &&& value(digits) <= u32::MAX ==> (plain matches Some(n) && n == value(digits))
            &&& value(digits) > u32::MAX ==> plain is None
        }),
{
    lemma_middle_of_name(prefix, digits);
    lemma_middle_of_name(prefix, seq!['+'] + digits);
    assert((seq!['+'] + digits).skip(1) =~= digits);
    assert(is_digit(digits[0]));
}

proof fn lemma_middle_of_name(prefix: Seq<char>, middle: Seq<char>)
    ensures
        segment_number(prefix + middle + ".m4s"@, prefix) == parse_u32(middle),
{
    let name = prefix + middle + ".m4s"@;
    let rest = name.skip(prefix.len() as int);
    assert(rest =~= middle + ".m4s"@);
    assert(name.subrange(0, prefix.len() as int) =~= prefix);
    assert(rest.subrange(rest.len() - ".m4s"@.len(), rest.len() as int) =~= ".m4s"@);
    assert(rest.take(rest.len() - ".m4s"@.len()) =~= middle);
}

/// A name that gives a number is the prefix, the digits of the number, with or without a
/// plus sign in front, and `.m4s`.
pub proof fn law_name_with_number_has_shape(name: Seq<char>, prefix: Seq<char>)
    ensures
        segment_number(name, prefix) matches Some(n) ==> exists|digits: Seq<char>|
            #![trigger value(digits)]
            is_number(digits) && value(digits) == n && (name == prefix + digits + ".m4s"@ || name
                == prefix + (seq!['+'] + digits) + ".m4s"@),
{
    if segment_number(name, prefix) is Some {
        let rest = name.skip(prefix.len() as int);
        let middle = rest.take(rest.len() - ".m4s"@.len());
        assert(name =~= name.subrange(0, prefix.len() as int) + rest);
        assert(rest =~= middle + rest.subrange(rest.len() - ".m4s"@.len(), rest.len() as int));
        assert(name =~= prefix + middle + ".m4s"@);
        let digits = if middle.len() > 0 && middle[0] == '+' {
            middle.skip(1)
        } else {
            middle
        };
        if middle.len() > 0 && middle[0] == '+' {
            assert(middle =~= seq!['+'] + digits);
        }
        assert(is_number(digits) && value(digits) == segment_number(name, prefix)->0);
    }
}

/// A number is among those of the files exactly if the name of one of them gives it.
pub proof fn law_numbers_are_those_of_names(names: Seq<String>, prefix: Seq<char>, n: u32)
    ensures
        segment_numbers(names, prefix).contains(n) <==> exists|i: int|
            0 <= i < names.len() && segment_number((#[trigger] names[i])@, prefix) == Some(n),
    decreases names.len(),
{
    if names.len() > 0 {
        let front = names.drop_last();
        let before = segment_numbers(front, prefix);
        law_numbers_are_those_of_names(front, prefix, n);
        if let Some(m) = segment_number(names.last()@, prefix) {
            vstd::seq_lib::lemma_seq_contains_after_push(before, m, n);
        }
        assert(names.last() == names[names.len() - 1]);
        if before.contains(n) {
            let i = choose|i: int|
                0 <= i < front.len() && segment_number((#[trigger] front[i])@, prefix) == Some(n);
            assert(names[i] == front[i]);
        }
        if exists|i: int|
            0 <= i < names.len() && segment_number((#[trigger] names[i])@, prefix) == Some(n) {
            let i = choose|i: int|
                0 <= i < names.len() && segment_number((#[trigger] names[i])@, prefix) == Some(n);
            if i < front.len() {
                assert(front[i] == names[i]);
            }
        }
    }
}

/// A segment is common exactly if a file of the directory is its audio, `chunk-1-` and the
/// number, and one is its video, `chunk-0-` and the number.
pub proof fn law_common_segment_has_two_files(names: Seq<String>, n: u32)
    ensures
        common_segments(names).contains(n) <==> (exists|i: int|
            0 <= i < names.len() && segment_number((#[trigger] names[i])@, "chunk-1-"@) == Some(n))
            && (exists|i: int|
            0 <= i < names.len() && segment_number((#[trigger] names[i])@, "chunk-0-"@) == Some(n)),
{
    law_common_iff_both(names, n);
    law_numbers_are_those_of_names(names, "chunk-1-"@, n);
    law_numbers_are_those_of_names(names, "chunk-0-"@, n);
}

/// A common segment is listed as often as there are audio files for it.
pub proof fn law_common_segment_counts_audio_files(names: Seq<String>, n: u32)
    requires
        common_segments(names).contains(n),
    ensures
        common_segments(names).to_multiset().count(n) == segment_numbers(
            names,
            "chunk-1-"@,
        ).to_multiset().count(n),
{
    law_common_iff_both(names, n);
    let audio = segment_numbers(names, AUDIO_PREFIX@);
    let video = segment_numbers(names, VIDEO_PREFIX@);
    let both = |m: u32| video.contains(m);
    let leq = |a: u32, b: u32| a <= b;
    let wanted = audio.filter(both);
    assert(total_ordering(leq));
    wanted.lemma_sort_by_ensures(leq);
    lemma_filter_count(audio, both, n);
}

/// The files of a segment are named by its number in five digits or more, the audio after
/// `chunk-1-` and the video after `chunk-0-`, with `.m4s` at the end.
pub proof fn law_name_has_five_digits(prefix: Seq<char>, number: u32)
    ensures
        ({
            let name = segment_name(prefix, number);
            let digits = name.subrange(prefix.len() as int, name.len() - 4);
            &&& name.len() >= prefix.len() + 9
            &&& name == prefix + digits + seq!['.', 'm', '4', 's']
            &&& is_number(digits)
            &&& value(digits) == number
            &&& digits.len() == 5 || (digits.len() > 5 && digits[0] != '0')
        }),
{
    reveal_strlit(".m4s");
    assert(".m4s"@ =~= seq!['.', 'm', '4', 's']);
    let name = segment_name(prefix, number);
    let digits = padded(number as nat, 5);
    crate::text::law_padding_is_zeros(number as nat, 5);
    crate::text::law_decimal_digits(number as nat);
    lemma_decimal(number as nat);
    assert(name.subrange(prefix.len() as int, name.len() - 4) =~= digits);
    let plain = decimal(number as nat);
    if plain.len() < 5 {
        lemma_zeros((5 - plain.len()) as nat, plain);
        assert forall|i: int| 0 <= i < digits.len() implies is_digit(#[trigger] digits[i]) by {
            if i >= 5 - plain.len() {
                assert(digits[i] == plain[i - (5 - plain.len())]);
            }
        }
    }
}

/// Digits with zeros in front are a number, and the same number.
pub proof fn lemma_padded(n: nat, width: nat)
    ensures
        is_number(padded(n, width)),
        value(padded(n, width)) == n,
{
    lemma_decimal(n);
    let digits = padded(n, width);
    let plain = decimal(n);
    if plain.len() < width {
        lemma_zeros((width - plain.len()) as nat, plain);
        assert forall|i: int| 0 <= i < digits.len() implies is_digit(#[trigger] digits[i]) by {
            if i >= width - plain.len() {
                assert(digits[i] == plain[i - (width - plain.len())]);
            }
        }
    }
}

} // verus!
