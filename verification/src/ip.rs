//! The text forms of IPv4 and IPv6 addresses.
//!
//! An IPv4 address is written as four decimal numbers with dots between them.
//! An IPv6 address is written as up to eight hexadecimal groups with colons
//! between them, where `::` stands for a run of zero groups and the last two
//! groups may be written as an IPv4 address.

use crate::text::{
    all_digits, decimal, decimal_value, find_first, first_position, hexadecimal, is_digit,
    lemma_decimal, lemma_decimal_of_value, lemma_first_position, lemma_first_position_is,
    push_decimal, push_hexadecimal,
};
use vstd::prelude::*;
use vstd::slice::slice_subrange;

verus! {

/// `first`, the separator, then `rest`.
pub open spec fn joined(first: Seq<char>, separator: char, rest: Seq<char>) -> Seq<char> {
    first + seq![separator] + rest
}

/// The dotted form of four octets.
pub open spec fn dotted(o: Seq<u8>) -> Seq<char> {
    joined(
        decimal(o[0] as nat),
        '.',
        joined(
            decimal(o[1] as nat),
            '.',
            joined(decimal(o[2] as nat), '.', decimal(o[3] as nat)),
        ),
    )
}

/// Whether `text` is the dotted form of the four octets `o`.
pub open spec fn is_dotted(text: Seq<char>, o: Seq<u8>) -> bool {
    o.len() == 4 && text == dotted(o)
}

/// The octets of the IPv4 address that `text` is the dotted form of.
pub open spec fn octets_of(text: Seq<char>) -> Option<Seq<u8>> {
    if exists|o: Seq<u8>| is_dotted(text, o) {
        Some(choose|o: Seq<u8>| is_dotted(text, o))
    } else {
        None
    }
}

/// Splitting at the first separator undoes `joined`.
pub proof fn lemma_joined(first: Seq<char>, separator: char, rest: Seq<char>)
    requires
        !first.contains(separator),
    ensures
        first_position(joined(first, separator, rest), separator) == first.len(),
        joined(first, separator, rest).take(first.len() as int) == first,
        joined(first, separator, rest).skip(first.len() as int + 1) == rest,
{
    let text = joined(first, separator, rest);
    assert forall|i: int| 0 <= i < first.len() implies text[i] != separator by {
        assert(text[i] == first[i]);
        assert(first.contains(first[i]));
    }
    assert(text[first.len() as int] == separator);
    lemma_first_position_is(text, separator, first.len() as int);
    assert(text.take(first.len() as int) =~= first);
    assert(text.skip(first.len() as int + 1) =~= rest);
}

/// A text with a separator is what stands before the first one, joined with
/// what stands behind it.
proof fn lemma_split(text: Seq<char>, separator: char)
    requires
        first_position(text, separator) < text.len(),
    ensures
        ({
            let k = first_position(text, separator);
            &&& 0 <= k
            &&& text == joined(text.take(k), separator, text.skip(k + 1))
            &&& !text.take(k).contains(separator)
        }),
{
    lemma_first_position(text, separator);
    let k = first_position(text, separator);
    assert(text =~= joined(text.take(k), separator, text.skip(k + 1)));
}

/// A decimal numeral holds digits only.
proof fn lemma_decimal_without(n: nat, c: char)
    requires
        !is_digit(c),
    ensures
        !decimal(n).contains(c),
{
    lemma_decimal(n);
}

/// The first field of a dotted form, and what follows it.
proof fn lemma_dotted_fields(o: Seq<u8>)
    requires
        o.len() == 4,
    ensures
        ({
            let d = dotted(o);
            let k0 = first_position(d, '.');
            let r1 = d.skip(k0 + 1);
            let k1 = first_position(r1, '.');
            let r2 = r1.skip(k1 + 1);
            let k2 = first_position(r2, '.');
            let r3 = r2.skip(k2 + 1);
            &&& 0 <= k0 < d.len() && d.take(k0) == decimal(o[0] as nat)
            &&& 0 <= k1 < r1.len() && r1.take(k1) == decimal(o[1] as nat)
            &&& 0 <= k2 < r2.len() && r2.take(k2) == decimal(o[2] as nat)
            &&& r3 == decimal(o[3] as nat)
        }),
{
    let t3 = decimal(o[3] as nat);
    let t2 = joined(decimal(o[2] as nat), '.', t3);
    let t1 = joined(decimal(o[1] as nat), '.', t2);
    lemma_decimal_without(o[0] as nat, '.');
    lemma_decimal_without(o[1] as nat, '.');
    lemma_decimal_without(o[2] as nat, '.');
    lemma_joined(decimal(o[2] as nat), '.', t3);
    lemma_joined(decimal(o[1] as nat), '.', t2);
    lemma_joined(decimal(o[0] as nat), '.', t1);
}

/// Different addresses have different dotted forms.
pub proof fn lemma_dotted_injective(a: Seq<u8>, b: Seq<u8>)
    requires
        a.len() == 4,
        b.len() == 4,
        dotted(a) == dotted(b),
    ensures
        a == b,
{
    lemma_dotted_fields(a);
    lemma_dotted_fields(b);
    assert forall|i: int| 0 <= i < 4 implies a[i] == b[i] by {
        lemma_decimal(a[i] as nat);
        lemma_decimal(b[i] as nat);
    }
    assert(a =~= b);
}

/// An IPv4 address is read back from its dotted form.
pub proof fn law_ipv4_text_round_trip(o: Seq<u8>)
    requires
        o.len() == 4,
    ensures
        octets_of(dotted(o)) == Some(o),
{
    assert(is_dotted(dotted(o), o));
    let p = choose|p: Seq<u8>| is_dotted(dotted(o), p);
    lemma_dotted_injective(o, p);
}

/// Reads a number of at most 255 in its one decimal form.
fn parse_octet(chars: &[char]) -> (octet: Option<u8>)
    ensures
        match octet {
            Some(v) => chars@ == decimal(v as nat),
            None => forall|v: u8| chars@ != #[trigger] decimal(v as nat),
        },
{
    proof {
        assert forall|v: u8| true implies {
            let d = #[trigger] decimal(v as nat);
            &&& 1 <= d.len() <= 3
            &&& all_digits(d)
            &&& d[0] == '0' ==> d.len() == 1
            &&& decimal_value(d) == v
        } by {
            lemma_decimal(v as nat);
        }
    }
    if chars.len() == 0 || chars.len() > 3 {
        return None;
    }
    if chars[0] == '0' && chars.len() > 1 {
        return None;
    }
    let mut value: u32 = 0;
    let mut i: usize = 0;
    proof {
        assert(chars@.take(0) =~= Seq::<char>::empty());
    }
    while i < chars.len()
        invariant
            i <= chars@.len() <= 3,
            all_digits(chars@.take(i as int)),
            value == decimal_value(chars@.take(i as int)),
            i == 0 ==> value == 0,
            i == 1 ==> value < 10,
            i == 2 ==> value < 100,
            i == 3 ==> value < 1000,
            forall|v: u8|
                all_digits(#[trigger] decimal(v as nat)),
        decreases chars@.len() - i,
    {
        let c = chars[i];
        if !('0' <= c && c <= '9') {
            proof {
                assert(!is_digit(chars@[i as int]));
            }
            return None;
        }
        proof {
            assert(chars@.take(i + 1).drop_last() =~= chars@.take(i as int));
        }
        value = value * 10 + (c as u32 - 48);
        i += 1;
    }
    assert(chars@.take(i as int) =~= chars@);
    proof {
        lemma_decimal_of_value(chars@);
    }
    if value <= 255 {
        Some(value as u8)
    } else {
        None
    }
}

/// Reads the dotted form of an IPv4 address.
pub fn parse_ipv4(chars: &[char]) -> (octets: Option<[u8; 4]>)
    ensures
        match octets {
            Some(o) => octets_of(chars@) == Some(o@),
            None => octets_of(chars@) is None,
        },
{
    let ghost text = chars@;
    proof {
        assert forall|o: Seq<u8>| is_dotted(text, o) implies {
            let k0 = first_position(text, '.');
            let r1 = text.skip(k0 + 1);
            let k1 = first_position(r1, '.');
            let r2 = r1.skip(k1 + 1);
            let k2 = first_position(r2, '.');
            let r3 = r2.skip(k2 + 1);
            &&& 0 <= k0 < text.len() && text.take(k0) == decimal(o[0] as nat)
            &&& 0 <= k1 < r1.len() && r1.take(k1) == decimal(o[1] as nat)
            &&& 0 <= k2 < r2.len() && r2.take(k2) == decimal(o[2] as nat)
            &&& r3 == decimal(o[3] as nat)
        } by {
            lemma_dotted_fields(o);
        }
        lemma_first_position(text, '.');
    }
    let k0 = find_first(chars, '.');
    if k0 == chars.len() {
        return None;
    }
    let f0 = slice_subrange(chars, 0, k0);
    let r1 = slice_subrange(chars, k0 + 1, chars.len());
    assert(f0@ =~= text.take(k0 as int));
    assert(r1@ =~= text.skip(k0 + 1));
    let k1 = find_first(r1, '.');
    if k1 == r1.len() {
        return None;
    }
    proof {
        lemma_first_position(r1@, '.');
    }
    let f1 = slice_subrange(r1, 0, k1);
    let r2 = slice_subrange(r1, k1 + 1, r1.len());
    assert(f1@ =~= r1@.take(k1 as int));
    assert(r2@ =~= r1@.skip(k1 + 1));
    let k2 = find_first(r2, '.');
    if k2 == r2.len() {
        return None;
    }
    proof {
        lemma_first_position(r2@, '.');
    }
    let f2 = slice_subrange(r2, 0, k2);
    let r3 = slice_subrange(r2, k2 + 1, r2.len());
    assert(f2@ =~= r2@.take(k2 as int));
    assert(r3@ =~= r2@.skip(k2 + 1));
    match (parse_octet(f0), parse_octet(f1), parse_octet(f2), parse_octet(r3)) {
        (Some(a), Some(b), Some(c), Some(d)) => {
            let octets = [a, b, c, d];
            proof {
                lemma_split(text, '.');
                lemma_split(r1@, '.');
                lemma_split(r2@, '.');
                assert(octets@ =~= seq![a, b, c, d]);
                assert(text == dotted(octets@));
                law_ipv4_text_round_trip(octets@);
            }
            Some(octets)
        },
        _ => {
            assert(forall|o: Seq<u8>| !is_dotted(text, o));
            None
        },
    }
}

/// Appends the dotted form of an IPv4 address.
fn push_ipv4(text: &mut String, o: [u8; 4])
    ensures
        final(text)@ == old(text)@ + dotted(o@),
{
    push_decimal(text, o[0] as u32);
    text.push('.');
    push_decimal(text, o[1] as u32);
    text.push('.');
    push_decimal(text, o[2] as u32);
    text.push('.');
    push_decimal(text, o[3] as u32);
    assert(text@ =~= old(text)@ + dotted(o@));
}

/// The dotted form of an IPv4 address.
pub fn format_ipv4(o: [u8; 4]) -> (text: String)
    ensures
        text@ == dotted(o@),
{
    let mut text = String::new();
    push_ipv4(&mut text, o);
    assert(text@ =~= dotted(o@));
    text
}

/// Whether `c` is a hexadecimal digit, in either case.
pub open spec fn is_hex_digit(c: char) -> bool {
    is_digit(c) || 'a' <= c <= 'f' || 'A' <= c <= 'F'
}

/// The value of a hexadecimal digit.
pub open spec fn hex_digit_value(c: char) -> nat {
    if is_digit(c) {
        (c as nat - 48) as nat
    } else if 'a' <= c <= 'f' {
        (c as nat - 87) as nat
    } else {
        (c as nat - 55) as nat
    }
}

/// The number that a row of hexadecimal digits stands for.
pub open spec fn hex_value(digits: Seq<char>) -> nat
    decreases digits.len(),
{
    if digits.len() == 0 {
        0
    } else {
        hex_value(digits.drop_last()) * 16 + hex_digit_value(digits.last())
    }
}

/// Whether `s` is one group of an IPv6 address: one to four hexadecimal digits.
pub open spec fn is_group(s: Seq<char>) -> bool {
    1 <= s.len() <= 4 && forall|i: int| 0 <= i < s.len() ==> is_hex_digit(#[trigger] s[i])
}

/// The two groups that four octets make.
pub open spec fn octet_groups(o: Seq<u8>) -> Seq<u16> {
    seq![(o[0] * 256 + o[1]) as u16, (o[2] * 256 + o[3]) as u16]
}

/// The groups of a text that lists them with colons between; with `quad`, the
/// last item may be a dotted IPv4 address, which counts as two groups.
pub open spec fn groups_of(text: Seq<char>, quad: bool) -> Option<Seq<u16>>
    decreases text.len(),
{
    let k = first_position(text, ':');
    if 0 <= k < text.len() {
        match groups_of(text.skip(k + 1), quad) {
            Some(rest) if is_group(text.take(k)) => Some(
                seq![hex_value(text.take(k)) as u16] + rest,
            ),
            _ => None,
        }
    } else if is_group(text) {
        Some(seq![hex_value(text) as u16])
    } else if quad {
        match octets_of(text) {
            Some(o) => Some(octet_groups(o)),
            None => None,
        }
    } else {
        None
    }
}

/// The groups on one side of `::`, where there may be none.
pub open spec fn side_groups_of(text: Seq<char>, quad: bool) -> Option<Seq<u16>> {
    if text.len() == 0 {
        Some(Seq::empty())
    } else {
        groups_of(text, quad)
    }
}

/// Whether `::` stands at index `i`.
pub open spec fn gap_at(text: Seq<char>, i: int) -> bool {
    0 <= i && i + 1 < text.len() && text[i] == ':' && text[i + 1] == ':'
}

/// The index of the first `::`, or the length of `text` where there is none.
pub open spec fn first_gap(text: Seq<char>) -> int
    decreases text.len(),
{
    if text.len() == 0 || gap_at(text, 0) {
        0
    } else {
        1 + first_gap(text.skip(1))
    }
}

/// A row of `n` zero groups.
pub open spec fn zeros(n: int) -> Seq<u16> {
    Seq::new(n as nat, |i: int| 0u16)
}

/// The eight groups of the IPv6 address that `text` denotes.
pub open spec fn segments_of(text: Seq<char>) -> Option<Seq<u16>> {
    let g = first_gap(text);
    if 0 <= g < text.len() {
        match (side_groups_of(text.take(g), false), side_groups_of(text.skip(g + 2), true)) {
            (Some(head), Some(tail)) if head.len() + tail.len() <= 7 => Some(
                head + zeros(8 - head.len() - tail.len()) + tail,
            ),
            _ => None,
        }
    } else {
        match groups_of(text, true) {
            Some(all) if all.len() == 8 => Some(all),
            _ => None,
        }
    }
}

/// What `first_gap` finds: no earlier `::` exists.
proof fn lemma_first_gap(text: Seq<char>)
    ensures
        0 <= first_gap(text) <= text.len(),
        first_gap(text) < text.len() ==> gap_at(text, first_gap(text)),
        forall|i: int| 0 <= i < first_gap(text) ==> !gap_at(text, i),
    decreases text.len(),
{
    if text.len() > 0 && !gap_at(text, 0) {
        let rest = text.skip(1);
        lemma_first_gap(rest);
        assert forall|i: int| 0 <= i < first_gap(text) implies !gap_at(text, i) by {
            if i > 0 {
                assert(!gap_at(rest, i - 1));
            }
        }
    }
}

/// An index that holds `::`, or the end, with no `::` before it, is the first
/// gap.
pub proof fn lemma_first_gap_is(text: Seq<char>, at: int)
    requires
        0 <= at <= text.len(),
        at < text.len() ==> gap_at(text, at),
        forall|i: int| 0 <= i < at ==> !gap_at(text, i),
    ensures
        first_gap(text) == at,
{
    lemma_first_gap(text);
}

/// The value of a hexadecimal digit, where `c` is one.
fn hex_digit(c: char) -> (value: Option<u16>)
    ensures
        match value {
            Some(v) => is_hex_digit(c) && v == hex_digit_value(c) && v < 16,
            None => !is_hex_digit(c),
        },
{
    if '0' <= c && c <= '9' {
        Some(c as u16 - 48)
    } else if 'a' <= c && c <= 'f' {
        Some(c as u16 - 87)
    } else if 'A' <= c && c <= 'F' {
        Some(c as u16 - 55)
    } else {
        None
    }
}

/// Reads one group of an IPv6 address.
fn parse_group(chars: &[char]) -> (group: Option<u16>)
    ensures
        match group {
            Some(v) => is_group(chars@) && v == hex_value(chars@),
            None => !is_group(chars@),
        },
{
    if chars.len() == 0 || chars.len() > 4 {
        return None;
    }
    let mut value: u16 = 0;
    let mut i: usize = 0;
    proof {
        assert(chars@.take(0) =~= Seq::<char>::empty());
    }
    while i < chars.len()
        invariant
            i <= chars@.len() <= 4,
            forall|j: int| 0 <= j < i ==> is_hex_digit(#[trigger] chars@[j]),
            value == hex_value(chars@.take(i as int)),
            i == 0 ==> value == 0,
            i == 1 ==> value < 0x10,
            i == 2 ==> value < 0x100,
            i == 3 ==> value < 0x1000,
        decreases chars@.len() - i,
    {
        match hex_digit(chars[i]) {
            Some(d) => {
                proof {
                    assert(chars@.take(i + 1).drop_last() =~= chars@.take(i as int));
                }
                value = value * 16 + d;
                i += 1;
            },
            None => {
                return None;
            },
        }
    }
    assert(chars@.take(i as int) =~= chars@);
    Some(value)
}

/// Reads groups with colons between them.
fn parse_groups(chars: &[char], quad: bool) -> (groups: Option<Vec<u16>>)
    ensures
        match groups {
            Some(v) => groups_of(chars@, quad) == Some(v@),
            None => groups_of(chars@, quad) is None,
        },
{
    let mut groups: Vec<u16> = Vec::new();
    let mut from: usize = 0;
    let ghost text = chars@;
    assert(text.skip(0) =~= text);
    loop
        invariant
            from <= text.len(),
            text == chars@,
            groups_of(text, quad) == (match groups_of(text.skip(from as int), quad) {
                Some(rest) => Some(groups@ + rest),
                None => None,
            }),
        decreases text.len() - from,
    {
        let rest = slice_subrange(chars, from, chars.len());
        assert(rest@ =~= text.skip(from as int));
        let k = find_first(rest, ':');
        proof {
            lemma_first_position(rest@, ':');
        }
        let item = slice_subrange(rest, 0, k);
        assert(item@ =~= rest@.take(k as int));
        if k < rest.len() {
            match parse_group(item) {
                Some(v) => {
                    let ghost before = groups@;
                    groups.push(v);
                    proof {
                        assert(text.skip(from + k + 1) =~= rest@.skip(k + 1));
                        let tail = groups_of(rest@.skip(k + 1), quad);
                        if let Some(t) = tail {
                            assert(before + (seq![v] + t) =~= groups@ + t);
                        }
                    }
                    from = from + k + 1;
                },
                None => {
                    return None;
                },
            }
        } else {
            assert(item@ =~= rest@);
            if let Some(v) = parse_group(item) {
                let ghost before = groups@;
                groups.push(v);
                assert(before + seq![v] =~= groups@);
                return Some(groups);
            }
            if !quad {
                return None;
            }
            match parse_ipv4(item) {
                Some(o) => {
                    let ghost before = groups@;
                    groups.push(o[0] as u16 * 256 + o[1] as u16);
                    groups.push(o[2] as u16 * 256 + o[3] as u16);
                    assert(before + octet_groups(o@) =~= groups@);
                    return Some(groups);
                },
                None => {
                    return None;
                },
            }
        }
    }
}

/// Reads the groups on one side of `::`.
fn parse_side(chars: &[char], quad: bool) -> (groups: Option<Vec<u16>>)
    ensures
        match groups {
            Some(v) => side_groups_of(chars@, quad) == Some(v@),
            None => side_groups_of(chars@, quad) is None,
        },
{
    if chars.len() == 0 {
        Some(Vec::new())
    } else {
        parse_groups(chars, quad)
    }
}

/// The index of the first `::`, or the length where there is none.
fn find_gap(chars: &[char]) -> (at: usize)
    ensures
        at == first_gap(chars@),
{
    let mut i: usize = 0;
    while i < chars.len()
        invariant
            i <= chars@.len(),
            forall|j: int| 0 <= j < i ==> !gap_at(chars@, j),
        decreases chars@.len() - i,
    {
        if chars.len() - i > 1 && chars[i] == ':' && chars[i + 1] == ':' {
            proof {
                lemma_first_gap_is(chars@, i as int);
            }
            return i;
        }
        i += 1;
    }
    proof {
        lemma_first_gap_is(chars@, i as int);
    }
    i
}

/// Reads the text form of an IPv6 address.
pub fn parse_ipv6(chars: &[char]) -> (segments: Option<Vec<u16>>)
    ensures
        match segments {
            Some(s) => segments_of(chars@) == Some(s@) && s@.len() == 8,
            None => segments_of(chars@) is None,
        },
{
    let g = find_gap(chars);
    proof {
        lemma_first_gap(chars@);
    }
    if g == chars.len() {
        return match parse_groups(chars, true) {
            Some(all) => if all.len() == 8 {
                Some(all)
            } else {
                None
            },
            None => None,
        };
    }
    let before = slice_subrange(chars, 0, g);
    let behind = slice_subrange(chars, g + 2, chars.len());
    assert(before@ =~= chars@.take(g as int));
    assert(behind@ =~= chars@.skip(g + 2));
    match (parse_side(before, false), parse_side(behind, true)) {
        (Some(head), Some(tail)) => {
            if head.len() > 7 || tail.len() > 7 - head.len() {
                return None;
            }
            let mut segments: Vec<u16> = Vec::new();
            let mut i: usize = 0;
            let gap: usize = 8 - head.len() - tail.len();
            let ghost whole = head@ + zeros(8 - head@.len() - tail@.len()) + tail@;
            while i < 8
                invariant
                    i <= 8,
                    head@.len() + tail@.len() <= 7,
                    gap == 8 - head@.len() - tail@.len(),
                    whole == head@ + zeros(8 - head@.len() - tail@.len()) + tail@,
                    segments@ == whole.take(i as int),
                decreases 8 - i,
            {
                let v: u16 = if i < head.len() {
                    head[i]
                } else if i < head.len() + gap {
                    0
                } else {
                    tail[i - head.len() - gap]
                };
                segments.push(v);
                i += 1;
                assert(whole.take(i as int) =~= whole.take(i - 1).push(whole[i - 1]));
            }
            assert(whole.take(8) =~= whole);
            Some(segments)
        },
        _ => None,
    }
}

/// Whether `w` holds only zero groups from `start` on, for `len` groups.
pub open spec fn is_zero_run(w: Seq<u16>, start: int, len: int) -> bool {
    &&& 0 <= start
    &&& 0 <= len
    &&& start + len <= w.len()
    &&& forall|i: int| start <= i < start + len ==> #[trigger] w[i] == 0
}

/// Whether the zero run is the longest of `w`, and the first of that length.
pub open spec fn is_longest_zero_run(w: Seq<u16>, start: int, len: int) -> bool {
    &&& is_zero_run(w, start, len)
    &&& forall|s: int, l: int| #[trigger]
        is_zero_run(w, s, l) ==> l < len || (l == len && start <= s)
}

/// The first of the longest runs of zero groups, as start and length.
pub open spec fn zero_run(w: Seq<u16>) -> (int, int) {
    choose|run: (int, int)| is_longest_zero_run(w, run.0, run.1)
}

/// The groups in hexadecimal with colons between them.
pub open spec fn colon_joined(w: Seq<u16>) -> Seq<char>
    decreases w.len(),
{
    if w.len() == 0 {
        Seq::empty()
    } else if w.len() == 1 {
        hexadecimal(w[0] as nat)
    } else {
        joined(hexadecimal(w[0] as nat), ':', colon_joined(w.skip(1)))
    }
}

/// Whether the address is an IPv4 address mapped into IPv6.
pub open spec fn is_ipv4_mapped(w: Seq<u16>) -> bool {
    w.take(6) == seq![0u16, 0, 0, 0, 0, 0xffff]
}

/// The four octets that two groups hold.
pub open spec fn group_octets(high: u16, low: u16) -> Seq<u8> {
    seq![(high / 256) as u8, (high % 256) as u8, (low / 256) as u8, (low % 256) as u8]
}

/// The text form of the IPv6 address of eight groups: a mapped IPv4 address in
/// dotted form behind `::ffff:`; else the groups, with the first of the longest
/// runs of two or more zero groups written as `::`.
pub open spec fn ipv6_text(w: Seq<u16>) -> Seq<char> {
    let (start, len) = zero_run(w);
    if is_ipv4_mapped(w) {
        seq![':', ':', 'f', 'f', 'f', 'f', ':'] + dotted(group_octets(w[6], w[7]))
    } else if len > 1 {
        colon_joined(w.take(start)) + seq![':', ':'] + colon_joined(w.skip(start + len))
    } else {
        colon_joined(w)
    }
}

/// There is only one longest zero run that comes first.
pub proof fn lemma_zero_run_is(w: Seq<u16>, start: int, len: int)
    requires
        is_longest_zero_run(w, start, len),
    ensures
        zero_run(w) == (start, len),
{
    assert(is_longest_zero_run(w, (start, len).0, (start, len).1));
    let (s, l) = zero_run(w);
    assert(is_longest_zero_run(w, s, l));
}

/// Finds the first of the longest runs of zero groups.
fn find_zero_run(w: &[u16]) -> (run: (usize, usize))
    ensures
        is_longest_zero_run(w@, run.0 as int, run.1 as int),
        zero_run(w@) == (run.0 as int, run.1 as int),
{
    let mut best: (usize, usize) = (0, 0);
    let mut len: usize = 0;
    let mut i: usize = 0;
    while i < w.len()
        invariant
            len <= i <= w@.len(),
            is_zero_run(w@, i - len, len as int),
            len < i ==> w@[i - len - 1] != 0,
            is_zero_run(w@, best.0 as int, best.1 as int),
            best.0 + best.1 <= i,
            forall|s: int, l: int| #[trigger]
                is_zero_run(w@, s, l) && s + l <= i ==> l < best.1 || (l == best.1 && best.0 <= s),
        decreases w@.len() - i,
    {
        let ghost before = len;
        if w[i] == 0 {
            len += 1;
            if len > best.1 {
                best = (i + 1 - len, len);
            }
        } else {
            len = 0;
        }
        proof {
            assert forall|s: int, l: int| #[trigger]
                is_zero_run(w@, s, l) && s + l <= i + 1 implies l < best.1 || (l == best.1 && best.0
                <= s) by {
                if s + l == i + 1 {
                    if l > 0 {
                        assert(w@[i as int] == 0);
                        if s < i - before {
                            assert(w@[i - before - 1] == 0);
                        }
                    } else {
                        assert(is_zero_run(w@, 0, 0));
                    }
                }
            }
        }
        i += 1;
    }
    proof {
        assert(is_zero_run(w@, 0, 0));
        lemma_zero_run_is(w@, best.0 as int, best.1 as int);
    }
    best
}

/// Appends the groups from `from` up to `to` with colons between them.
fn push_groups(text: &mut String, w: &[u16], from: usize, to: usize)
    requires
        from <= to <= w@.len(),
    ensures
        final(text)@ == old(text)@ + colon_joined(w@.subrange(from as int, to as int)),
    decreases to - from,
{
    let ghost part = w@.subrange(from as int, to as int);
    if from == to {
        assert(text@ =~= old(text)@ + colon_joined(part));
        return;
    }
    push_hexadecimal(text, w[from] as u32);
    if to - from > 1 {
        text.push(':');
        push_groups(text, w, from + 1, to);
        assert(part.skip(1) =~= w@.subrange(from + 1, to as int));
    }
    assert(text@ =~= old(text)@ + colon_joined(part));
}

/// The text form of the IPv6 address of eight groups.
pub fn format_ipv6(w: &[u16]) -> (text: String)
    requires
        w@.len() == 8,
    ensures
        text@ == ipv6_text(w@),
{
    let mut text = String::new();
    let run = find_zero_run(w);
    if w[0] == 0 && w[1] == 0 && w[2] == 0 && w[3] == 0 && w[4] == 0 && w[5] == 0xffff {
        assert(w@.take(6) =~= seq![0u16, 0, 0, 0, 0, 0xffff]);
        text.push(':');
        text.push(':');
        text.push('f');
        text.push('f');
        text.push('f');
        text.push('f');
        text.push(':');
        let o = [(w[6] / 256) as u8, (w[6] % 256) as u8, (w[7] / 256) as u8, (w[7] % 256) as u8];
        assert(o@ =~= group_octets(w@[6], w@[7]));
        push_ipv4(&mut text, o);
        assert(text@ =~= ipv6_text(w@));
        return text;
    }
    proof {
        if is_ipv4_mapped(w@) {
            let t = w@.take(6);
            assert(t[0] == 0 && t[1] == 0 && t[2] == 0 && t[3] == 0 && t[4] == 0 && t[5] == 0xffff);
        }
    }
    if run.1 > 1 {
        push_groups(&mut text, w, 0, run.0);
        text.push(':');
        text.push(':');
        push_groups(&mut text, w, run.0 + run.1, 8);
        assert(w@.subrange(0, run.0 as int) =~= w@.take(run.0 as int));
        assert(w@.subrange(run.0 + run.1, 8) =~= w@.skip(run.0 + run.1));
        assert(text@ =~= ipv6_text(w@));
    } else {
        push_groups(&mut text, w, 0, 8);
        assert(w@.subrange(0, 8) =~= w@);
        assert(text@ =~= ipv6_text(w@));
    }
    text
}

/// A hexadecimal numeral below 65536 is a group, and is read back as the number
/// it was made from.
proof fn lemma_hexadecimal(n: nat)
    ensures
        hexadecimal(n).len() > 0,
        forall|i: int| 0 <= i < hexadecimal(n).len() ==> is_hex_digit(#[trigger] hexadecimal(n)[i]),
        hex_value(hexadecimal(n)) == n,
        hexadecimal(n).len() <= 1 <==> n < 0x10,
        hexadecimal(n).len() <= 2 <==> n < 0x100,
        hexadecimal(n).len() <= 3 <==> n < 0x1000,
        hexadecimal(n).len() <= 4 <==> n < 0x10000,
    decreases n,
{
    reveal_with_fuel(hex_value, 2);
    if n >= 16 {
        lemma_hexadecimal(n / 16);
        assert(hexadecimal(n).drop_last() =~= hexadecimal(n / 16));
    } else {
        assert(hexadecimal(n).drop_last() =~= Seq::<char>::empty());
    }
}

/// Groups that were written with colons between them are read back, and no `::`
/// occurs in what was written.
proof fn lemma_colon_joined(w: Seq<u16>, quad: bool)
    requires
        w.len() > 0,
    ensures
        colon_joined(w).len() > 0,
        colon_joined(w)[0] != ':',
        colon_joined(w).last() != ':',
        forall|i: int| !gap_at(colon_joined(w), i),
        groups_of(colon_joined(w), quad) == Some(w),
    decreases w.len(),
{
    let text = colon_joined(w);
    let first = hexadecimal(w[0] as nat);
    lemma_hexadecimal(w[0] as nat);
    assert(!first.contains(':'));
    if w.len() == 1 {
        lemma_first_position_is(text, ':', text.len() as int);
        assert(seq![w[0]] =~= w);
    } else {
        let rest = colon_joined(w.skip(1));
        lemma_colon_joined(w.skip(1), quad);
        lemma_joined(first, ':', rest);
        assert(seq![w[0]] + w.skip(1) =~= w);
        assert forall|i: int| !gap_at(text, i) by {
            if i > first.len() && gap_at(text, i) {
                assert(gap_at(rest, i - first.len() - 1));
            }
            if i == first.len() && gap_at(text, i) {
                assert(text[i + 1] == rest[0]);
            }
            if 0 <= i < first.len() {
                assert(text[i] == first[i]);
            }
        }
        assert(text.last() == rest.last());
    }
}

/// The dotted form of an address holds digits and dots only.
pub proof fn lemma_dotted_chars(o: Seq<u8>)
    requires
        o.len() == 4,
    ensures
        dotted(o).contains('.'),
        forall|i: int|
            0 <= i < dotted(o).len() ==> is_digit(#[trigger] dotted(o)[i]) || dotted(o)[i] == '.',
{
    lemma_decimal(o[0] as nat);
    lemma_decimal(o[1] as nat);
    lemma_decimal(o[2] as nat);
    lemma_decimal(o[3] as nat);
    assert(dotted(o)[decimal(o[0] as nat).len() as int] == '.');
}

/// The round trip of a mapped IPv4 address.
proof fn lemma_mapped_round_trip(w: Seq<u16>)
    requires
        w.len() == 8,
        is_ipv4_mapped(w),
    ensures
        segments_of(ipv6_text(w)) == Some(w),
{
    let text = ipv6_text(w);
    let o = group_octets(w[6], w[7]);
    let ffff = seq!['f', 'f', 'f', 'f'];
    let tail = joined(ffff, ':', dotted(o));
    assert(text =~= seq![':', ':'] + tail);
    lemma_first_gap_is(text, 0);
    assert(text.skip(2) =~= tail);
    assert(text.take(0) =~= Seq::<char>::empty());
    assert(groups_of(dotted(o), true) == Some(octet_groups(o))) by {
        lemma_dotted_chars(o);
        lemma_first_position_is(dotted(o), ':', dotted(o).len() as int);
        let dot = choose|i: int| 0 <= i < dotted(o).len() && dotted(o)[i] == '.';
        assert(!is_hex_digit(dotted(o)[dot]));
        law_ipv4_text_round_trip(o);
    }
    let groups = seq![0xffffu16] + octet_groups(o);
    assert(groups_of(tail, true) == Some(groups)) by {
        lemma_joined(ffff, ':', dotted(o));
        assert(is_group(ffff));
        assert(ffff.drop_last() =~= seq!['f', 'f', 'f']);
        assert(seq!['f', 'f', 'f'].drop_last() =~= seq!['f', 'f']);
        assert(seq!['f', 'f'].drop_last() =~= seq!['f']);
        assert(seq!['f'].drop_last() =~= Seq::<char>::empty());
        assert(hex_value(Seq::<char>::empty()) == 0);
        assert(hex_value(seq!['f']) == 0xf);
        assert(hex_value(seq!['f', 'f']) == 0xff);
        assert(hex_value(seq!['f', 'f', 'f']) == 0xfff);
        assert(hex_value(ffff) == 0xffff);
    }
    let front = w.take(6);
    assert(front[0] == 0 && front[1] == 0 && front[2] == 0 && front[3] == 0 && front[4] == 0
        && front[5] == 0xffff);
    assert(Seq::<u16>::empty() + zeros(5) + groups =~= w);
}

/// The round trip of an address with a run of zero groups left out.
proof fn lemma_compressed_round_trip(w: Seq<u16>, start: int, len: int)
    requires
        w.len() == 8,
        is_zero_run(w, start, len),
        len > 1,
    ensures
        ({
            let text = colon_joined(w.take(start)) + seq![':', ':'] + colon_joined(
                w.skip(start + len),
            );
            segments_of(text) == Some(w)
        }),
{
    let h = w.take(start);
    let t = w.skip(start + len);
    let a = colon_joined(h);
    let b = colon_joined(t);
    let text = a + seq![':', ':'] + b;
    assert(side_groups_of(a, false) == Some(h)) by {
        if h.len() > 0 {
            lemma_colon_joined(h, false);
        } else {
            assert(h =~= Seq::<u16>::empty());
        }
    }
    assert(side_groups_of(b, true) == Some(t)) by {
        if t.len() > 0 {
            lemma_colon_joined(t, true);
        } else {
            assert(t =~= Seq::<u16>::empty());
        }
    }
    assert(first_gap(text) == a.len()) by {
        if h.len() > 0 {
            lemma_colon_joined(h, false);
        }
        assert forall|i: int| 0 <= i < a.len() implies !gap_at(text, i) by {
            assert(text[i] == a[i]);
            if i + 1 < a.len() {
                assert(!gap_at(a, i));
            } else {
                assert(a[i] == a.last());
            }
        }
        assert(gap_at(text, a.len() as int));
        lemma_first_gap_is(text, a.len() as int);
    }
    assert(text.take(a.len() as int) =~= a);
    assert(text.skip(a.len() as int + 2) =~= b);
    assert(h + zeros(8 - h.len() - t.len()) + t =~= w);
}

/// An IPv6 address is read back from its text form.
pub proof fn law_ipv6_text_round_trip(w: Seq<u16>)
    requires
        w.len() == 8,
    ensures
        segments_of(ipv6_text(w)) == Some(w),
{
    let (start, len) = zero_run(w);
    lemma_zero_run_exists(w);
    if is_ipv4_mapped(w) {
        lemma_mapped_round_trip(w);
    } else if len > 1 {
        lemma_compressed_round_trip(w, start, len);
    } else {
        lemma_colon_joined(w, true);
        lemma_first_gap_is(colon_joined(w), colon_joined(w).len() as int);
    }
}

/// Some run of zero groups, if only an empty one, is the longest.
pub proof fn lemma_zero_run_exists(w: Seq<u16>)
    ensures
        is_longest_zero_run(w, zero_run(w).0, zero_run(w).1),
{
    let (start, len) = lemma_longest_zero_run_up_to(w, w.len() as int);
    lemma_zero_run_is(w, start, len);
}

/// Among the zero runs that end by `end` there is a longest that comes first.
proof fn lemma_longest_zero_run_up_to(w: Seq<u16>, end: int) -> (run: (int, int))
    requires
        0 <= end <= w.len(),
    ensures
        is_zero_run(w, run.0, run.1),
        run.0 + run.1 <= end,
        forall|s: int, l: int| #[trigger]
            is_zero_run(w, s, l) && s + l <= end ==> l < run.1 || (l == run.1 && run.0 <= s),
    decreases end,
{
    if end == 0 {
        (0, 0)
    } else {
        let best = lemma_longest_zero_run_up_to(w, end - 1);
        if exists|s: int, l: int| #[trigger]
            is_zero_run(w, s, l) && s + l == end && l > best.1 {
            let (s, l) = choose|s: int, l: int| #[trigger]
                is_zero_run(w, s, l) && s + l == end && l > best.1;
            // Without its last group, a run that ends here ends one group earlier, so
            // it is longer than the best found so far by one group at most.
            assert forall|s2: int, l2: int| #[trigger]
                is_zero_run(w, s2, l2) && s2 + l2 <= end implies l2 < l || (l2 == l && s <= s2) by {
                if s2 + l2 == end && l2 > 0 {
                    assert(is_zero_run(w, s2, l2 - 1));
                    assert(is_zero_run(w, s, l - 1));
                }
            }
            (s, l)
        } else {
            assert(is_zero_run(w, 0, 0));
            best
        }
    }
}

/// No text denotes both an IPv4 and an IPv6 address: the text of an IPv6 address
/// is not a dotted form.
pub proof fn lemma_ipv6_text_is_not_dotted(w: Seq<u16>)
    requires
        w.len() == 8,
    ensures
        ipv6_text(w).contains(':'),
        octets_of(ipv6_text(w)) is None,
{
    let text = ipv6_text(w);
    let (start, len) = zero_run(w);
    lemma_zero_run_exists(w);
    assert(text.contains(':')) by {
        if is_ipv4_mapped(w) {
            assert(text[0] == ':');
        } else if len > 1 {
            assert(text[colon_joined(w.take(start)).len() as int] == ':');
        } else {
            assert(text[hexadecimal(w[0] as nat).len() as int] == ':');
        }
    }
    assert forall|o: Seq<u8>| !is_dotted(text, o) by {
        if o.len() == 4 {
            lemma_dotted_chars(o);
        }
    }
}

/// Groups with colons between them are made of hexadecimal digits and colons.
proof fn lemma_colon_joined_chars(w: Seq<u16>)
    ensures
        forall|i: int|
            0 <= i < colon_joined(w).len() ==> is_hex_digit(#[trigger] colon_joined(w)[i])
                || colon_joined(w)[i] == ':',
    decreases w.len(),
{
    if w.len() > 0 {
        lemma_hexadecimal(w[0] as nat);
    }
    if w.len() > 1 {
        lemma_colon_joined_chars(w.skip(1));
        let first = hexadecimal(w[0] as nat);
        let rest = colon_joined(w.skip(1));
        let text = colon_joined(w);
        assert forall|i: int| 0 <= i < text.len() implies is_hex_digit(#[trigger] text[i])
            || text[i] == ':' by {
            if i < first.len() {
                assert(text[i] == first[i]);
            } else if i > first.len() {
                assert(text[i] == rest[i - first.len() - 1]);
            }
        }
    }
}

/// The text form of an IPv6 address is made of hexadecimal digits, colons and dots.
pub proof fn lemma_ipv6_text_chars(w: Seq<u16>)
    requires
        w.len() == 8,
    ensures
        forall|i: int|
            0 <= i < ipv6_text(w).len() ==> is_hex_digit(#[trigger] ipv6_text(w)[i])
                || ipv6_text(w)[i] == ':' || ipv6_text(w)[i] == '.',
{
    let text = ipv6_text(w);
    let (start, len) = zero_run(w);
    lemma_zero_run_exists(w);
    if is_ipv4_mapped(w) {
        let o = group_octets(w[6], w[7]);
        lemma_dotted_chars(o);
        assert forall|i: int| 0 <= i < text.len() implies is_hex_digit(#[trigger] text[i])
            || text[i] == ':' || text[i] == '.' by {
            if i >= 7 {
                assert(text[i] == dotted(o)[i - 7]);
            }
        }
    } else if len > 1 {
        let head = colon_joined(w.take(start));
        let tail = colon_joined(w.skip(start + len));
        lemma_colon_joined_chars(w.take(start));
        lemma_colon_joined_chars(w.skip(start + len));
        assert forall|i: int| 0 <= i < text.len() implies is_hex_digit(#[trigger] text[i])
            || text[i] == ':' || text[i] == '.' by {
            if i < head.len() {
                assert(text[i] == head[i]);
            } else if i >= head.len() + 2 {
                assert(text[i] == tail[i - head.len() - 2]);
            }
        }
    } else {
        lemma_colon_joined_chars(w);
    }
}

/// An IPv6 address has eight groups.
pub proof fn lemma_segments_of_len(text: Seq<char>)
    ensures
        segments_of(text) matches Some(w) ==> w.len() == 8,
{
}

} // verus!
