//! What numerals and the text forms of addresses are, told by the places of
//! their digits and by their parts.

use crate::ip::{
    colon_joined, dotted, gap_at, group_octets, groups_of, hex_value, ipv6_text, is_dotted, is_group,
    is_hex_digit, is_ipv4_mapped, is_longest_zero_run, is_zero_run, joined,
    law_ipv4_text_round_trip, lemma_dotted_chars, lemma_first_gap_is, lemma_joined,
    lemma_zero_run_exists, lemma_zero_run_is, octet_groups, octets_of, segments_of, side_groups_of,
    zero_run, zeros,
};
use crate::text::{
    all_digits, ascii_lower, decimal, decimal_value, digit_char, equal_ignoring_case,
    first_position, hexadecimal, is_digit, lemma_decimal, lemma_first_position,
    lemma_first_position_is, number_up_to,
};
use vstd::arithmetic::power::{lemma_pow0, lemma_pow1, pow};
use vstd::prelude::*;

verus! {

/// The digit that a character stands for: a decimal one, or a hexadecimal one in
/// either case.
pub open spec fn digit_of(c: char) -> int {
    if c <= '9' {
        c as int - '0' as int
    } else if c <= 'F' {
        c as int - 'A' as int + 10
    } else {
        c as int - 'a' as int + 10
    }
}

/// The number that digits stand for by their places: each counts as often as the
/// power of the base that its distance from the end gives.
pub open spec fn place_value(digits: Seq<char>, base: int) -> int
    decreases digits.len(),
{
    if digits.len() == 0 {
        0
    } else {
        digit_of(digits[0]) * pow(base, (digits.len() - 1) as nat) + place_value(
            digits.skip(1),
            base,
        )
    }
}

/// A digit more at the end moves the others up by one place.
proof fn lemma_place_value_push(digits: Seq<char>, c: char, base: int)
    ensures
        place_value(digits.push(c), base) == place_value(digits, base) * base + digit_of(c),
    decreases digits.len(),
{
    let all = digits.push(c);
    if digits.len() == 0 {
        lemma_pow0(base);
        assert(all.skip(1) =~= Seq::<char>::empty());
        reveal_with_fuel(place_value, 2);
        assert(digit_of(c) * 1 == digit_of(c));
    } else {
        let rest = digits.skip(1);
        assert(all.skip(1) =~= rest.push(c));
        lemma_place_value_push(rest, c, base);
        let d = digit_of(digits[0]);
        let p = pow(base, rest.len());
        vstd::arithmetic::power::lemma_pow_adds(base, rest.len(), 1);
        lemma_pow1(base);
        assert(pow(base, digits.len()) == p * base);
        assert(d * (p * base) + (place_value(rest, base) * base + digit_of(c)) == (d * p
            + place_value(rest, base)) * base + digit_of(c)) by (nonlinear_arith);
    }
}

/// The value by places is the value that digits are read with.
proof fn lemma_place_value_is_decimal_value(digits: Seq<char>)
    requires
        all_digits(digits),
    ensures
        place_value(digits, 10) == decimal_value(digits),
    decreases digits.len(),
{
    if digits.len() > 0 {
        let front = digits.drop_last();
        lemma_place_value_is_decimal_value(front);
        lemma_place_value_push(front, digits.last(), 10);
        assert(front.push(digits.last()) =~= digits);
        assert(is_digit(digits.last()));
    }
}

/// A decimal numeral is made of the digits zero to nine, has no superfluous zero
/// before it, and stands for its number.
pub proof fn law_decimal_numeral(n: nat)
    ensures
        decimal(n).len() > 0,
        forall|i: int| 0 <= i < decimal(n).len() ==> '0' <= #[trigger] decimal(n)[i] <= '9',
        decimal(n)[0] == '0' ==> decimal(n).len() == 1,
        place_value(decimal(n), 10) == n,
{
    lemma_decimal(n);
    lemma_place_value_is_decimal_value(decimal(n));
    assert forall|i: int| 0 <= i < decimal(n).len() implies '0' <= #[trigger] decimal(n)[i]
        <= '9' by {
        assert(is_digit(decimal(n)[i]));
    }
}

/// A hexadecimal numeral is made of the digits zero to nine and the letters `a` to
/// `f`, has no superfluous zero before it, and stands for its number.
pub proof fn law_hexadecimal_numeral(n: nat)
    ensures
        hexadecimal(n).len() > 0,
        forall|i: int|
            0 <= i < hexadecimal(n).len() ==> '0' <= #[trigger] hexadecimal(n)[i] <= '9' || 'a'
                <= hexadecimal(n)[i] <= 'f',
        hexadecimal(n)[0] == '0' ==> n == 0 && hexadecimal(n).len() == 1,
        place_value(hexadecimal(n), 16) == n,
    decreases n,
{
    let last = digit_char(n % 16);
    assert(digit_of(last) == n % 16);
    if n >= 16 {
        law_hexadecimal_numeral(n / 16);
        lemma_place_value_push(hexadecimal(n / 16), last, 16);
    } else {
        lemma_place_value_push(Seq::empty(), last, 16);
        assert(hexadecimal(n) =~= Seq::<char>::empty().push(last));
    }
}

/// A text is read as a number exactly where it is made of one or more decimal
/// digits that stand for a number within the limit; it is read as that number.
pub proof fn law_number_is_read_by_its_digits(text: Seq<char>, max: nat)
    ensures
        number_up_to(text, max) == (if text.len() > 0 && (forall|i: int|
            0 <= i < text.len() ==> '0' <= #[trigger] text[i] <= '9') && place_value(text, 10)
            <= max {
            Some(place_value(text, 10) as nat)
        } else {
            None
        }),
{
    if forall|i: int| 0 <= i < text.len() ==> '0' <= #[trigger] text[i] <= '9' {
        assert(all_digits(text));
        lemma_place_value_is_decimal_value(text);
    } else {
        let i = choose|i: int| 0 <= i < text.len() && !('0' <= #[trigger] text[i] <= '9');
        assert(!is_digit(text[i]));
    }
}

/// Two texts are equal but for case exactly where they have the same length and
/// the characters at each place are the same, or the two cases of one letter.
pub proof fn law_only_the_case_of_letters_is_ignored(a: Seq<char>, b: Seq<char>)
    ensures
        equal_ignoring_case(a, b) <==> a.len() == b.len() && forall|i: int|
            0 <= i < a.len() ==> {
                ||| #[trigger] a[i] == b[i]
                ||| 'A' <= a[i] <= 'Z' && b[i] as int == a[i] as int + 32
                ||| 'A' <= b[i] <= 'Z' && a[i] as int == b[i] as int + 32
            },
{
    assert forall|c: char, d: char| #[trigger] ascii_lower(c) == #[trigger] ascii_lower(d) <==> {
        ||| c == d
        ||| 'A' <= c <= 'Z' && d as int == c as int + 32
        ||| 'A' <= d <= 'Z' && c as int == d as int + 32
    } by {}
}

/// A text denotes an IPv4 address exactly where it is the decimal numerals of the
/// four octets, in order, with dots between them.
pub proof fn law_ipv4_text_is_four_numerals(text: Seq<char>, o: Seq<u8>)
    ensures
        octets_of(text) == Some(o) <==> o.len() == 4 && text == decimal(o[0] as nat) + seq!['.']
            + decimal(o[1] as nat) + seq!['.'] + decimal(o[2] as nat) + seq!['.'] + decimal(
            o[3] as nat,
        ),
        o.len() == 4 ==> dotted(o) == decimal(o[0] as nat) + seq!['.'] + decimal(o[1] as nat)
            + seq!['.'] + decimal(o[2] as nat) + seq!['.'] + decimal(o[3] as nat),
{
    if o.len() == 4 {
        assert(dotted(o) =~= decimal(o[0] as nat) + seq!['.'] + decimal(o[1] as nat) + seq!['.']
            + decimal(o[2] as nat) + seq!['.'] + decimal(o[3] as nat));
        law_ipv4_text_round_trip(o);
    }
    if let Some(p) = octets_of(text) {
        assert(is_dotted(text, p));
    }
}

/// Groups are written as hexadecimal numerals, in order, with colons between them.
pub proof fn law_groups_are_joined_by_colons(w: Seq<u16>, g: u16)
    ensures
        colon_joined(Seq::empty()) == Seq::<char>::empty(),
        colon_joined(seq![g]) == hexadecimal(g as nat),
        w.len() > 0 ==> colon_joined(w.push(g)) == colon_joined(w) + seq![':'] + hexadecimal(
            g as nat,
        ),
    decreases w.len(),
{
    if w.len() > 0 {
        let all = w.push(g);
        let first = hexadecimal(w[0] as nat);
        let last = hexadecimal(g as nat);
        if w.len() == 1 {
            assert(all.skip(1) =~= seq![g]);
            assert(colon_joined(seq![g]) == last);
            assert(colon_joined(all) =~= colon_joined(w) + seq![':'] + last);
        } else {
            let rest = w.skip(1);
            law_groups_are_joined_by_colons(rest, g);
            assert(all.skip(1) =~= rest.push(g));
            assert(colon_joined(all) == first + seq![':'] + colon_joined(rest.push(g)));
            assert(colon_joined(all) =~= colon_joined(w) + seq![':'] + last);
        }
    }
}

/// Whether `l` groups from `s` on are zero.
pub open spec fn zeros_at(w: Seq<u16>, s: int, l: int) -> bool {
    0 <= s && s + l <= w.len() && forall|i: int| s <= i < s + l ==> #[trigger] w[i] == 0
}

/// An IPv4 address mapped into IPv6 is written as `::ffff:` and the dotted form of
/// the four octets that the last two groups hold.
pub proof fn law_mapped_address_is_written_dotted(w: Seq<u16>, o: Seq<u8>)
    requires
        w.len() == 8,
        zeros_at(w, 0, 5),
        w[5] == 0xffff,
        o.len() == 4,
        w[6] == o[0] * 256 + o[1],
        w[7] == o[2] * 256 + o[3],
    ensures
        ipv6_text(w) == seq![':', ':', 'f', 'f', 'f', 'f', ':'] + dotted(o),
{
    assert(w.take(6) =~= seq![0u16, 0, 0, 0, 0, 0xffff]);
    assert(group_octets(w[6], w[7]) =~= o);
}

/// The first of the longest runs of two or more zero groups is written as `::`,
/// and the groups before and behind it with colons between them.
pub proof fn law_longest_zero_run_is_left_out(w: Seq<u16>, s: int, l: int)
    requires
        w.len() == 8,
        !(zeros_at(w, 0, 5) && w[5] == 0xffff),
        l >= 2,
        zeros_at(w, s, l),
        forall|t: int| !#[trigger] zeros_at(w, t, l + 1),
        forall|t: int| 0 <= t < s ==> !#[trigger] zeros_at(w, t, l),
    ensures
        ipv6_text(w) == colon_joined(w.take(s)) + seq![':', ':'] + colon_joined(w.skip(s + l)),
{
    lemma_not_mapped(w);
    assert forall|t: int, m: int| #[trigger] is_zero_run(w, t, m) implies m < l || (m == l && s
        <= t) by {
        if m > l {
            assert(zeros_at(w, t, l + 1));
        }
        if m == l && t < s {
            assert(zeros_at(w, t, l));
        }
    }
    assert(is_longest_zero_run(w, s, l));
    lemma_zero_run_is(w, s, l);
}

/// Without two zero groups next to each other, all eight groups are written.
pub proof fn law_address_without_zero_run_is_written_whole(w: Seq<u16>)
    requires
        w.len() == 8,
        forall|t: int| !#[trigger] zeros_at(w, t, 2),
    ensures
        ipv6_text(w) == colon_joined(w),
{
    if zeros_at(w, 0, 5) {
        assert(zeros_at(w, 0, 2));
    }
    lemma_not_mapped(w);
    lemma_zero_run_exists(w);
    let (s, l) = zero_run(w);
    if l > 1 {
        assert(zeros_at(w, s, 2));
    }
}

/// An address that is not a mapped one is not taken for one.
proof fn lemma_not_mapped(w: Seq<u16>)
    requires
        w.len() == 8,
        !(zeros_at(w, 0, 5) && w[5] == 0xffff),
    ensures
        !is_ipv4_mapped(w),
{
    if is_ipv4_mapped(w) {
        let t = w.take(6);
        assert(t[0] == 0 && t[1] == 0 && t[2] == 0 && t[3] == 0 && t[4] == 0 && t[5] == 0xffff);
    }
}

/// Whether a text is one to four hexadecimal digits, in either case.
pub open spec fn is_group_text(g: Seq<char>) -> bool {
    1 <= g.len() <= 4 && forall|i: int|
        0 <= i < g.len() ==> '0' <= #[trigger] g[i] <= '9' || 'a' <= g[i] <= 'f' || 'A' <= g[i]
            <= 'F'
}

/// Texts with colons between them.
pub open spec fn with_colons(parts: Seq<Seq<char>>) -> Seq<char>
    decreases parts.len(),
{
    if parts.len() == 0 {
        Seq::empty()
    } else if parts.len() == 1 {
        parts[0]
    } else {
        parts[0] + seq![':'] + with_colons(parts.skip(1))
    }
}

/// The groups that group texts stand for.
pub open spec fn group_numbers(parts: Seq<Seq<char>>) -> Seq<u16> {
    parts.map_values(|g: Seq<char>| place_value(g, 16) as u16)
}

/// Whether `text` lists the groups `w`: as group texts with colons between them,
/// where, with `quad`, the last two groups may be written as an IPv4 address.
pub open spec fn lists(text: Seq<char>, w: Seq<u16>, quad: bool) -> bool {
    ||| exists|parts: Seq<Seq<char>>| lists_groups(text, w, parts)
    ||| quad && exists|parts: Seq<Seq<char>>, o: Seq<u8>| lists_quad(text, w, parts, o)
}

/// Whether `text` is group texts with colons between them that stand for `w`.
pub open spec fn lists_groups(text: Seq<char>, w: Seq<u16>, parts: Seq<Seq<char>>) -> bool {
    &&& parts.len() > 0
    &&& forall|i: int| 0 <= i < parts.len() ==> is_group_text(#[trigger] parts[i])
    &&& text == with_colons(parts)
    &&& w == group_numbers(parts)
}

/// Whether `text` is group texts and the dotted form of `o`, with colons between
/// them, that stand for `w`.
pub open spec fn lists_quad(
    text: Seq<char>,
    w: Seq<u16>,
    parts: Seq<Seq<char>>,
    o: Seq<u8>,
) -> bool {
    &&& o.len() == 4
    &&& forall|i: int| 0 <= i < parts.len() ==> is_group_text(#[trigger] parts[i])
    &&& text == with_colons(parts.push(dotted(o)))
    &&& w == group_numbers(parts) + seq![
        (o[0] * 256 + o[1]) as u16,
        (o[2] * 256 + o[3]) as u16,
    ]
}

/// A group text is a group, with the number of its digits.
proof fn lemma_group_text(g: Seq<char>)
    ensures
        is_group_text(g) == is_group(g),
        is_group(g) ==> hex_value(g) == place_value(g, 16) && !g.contains(':') && !g.contains('.'),
{
    if is_group(g) {
        assert forall|i: int| 0 <= i < g.len() implies '0' <= #[trigger] g[i] <= '9' || 'a' <= g[i]
            <= 'f' || 'A' <= g[i] <= 'F' by {
            assert(is_hex_digit(g[i]));
        }
        lemma_place_value_is_hex_value(g);
    }
    if is_group_text(g) {
        assert forall|i: int| 0 <= i < g.len() implies is_hex_digit(#[trigger] g[i]) by {}
    }
}

/// The value by places is the value that hexadecimal digits are read with.
proof fn lemma_place_value_is_hex_value(g: Seq<char>)
    requires
        forall|i: int| 0 <= i < g.len() ==> is_hex_digit(#[trigger] g[i]),
    ensures
        place_value(g, 16) == hex_value(g),
    decreases g.len(),
{
    if g.len() > 0 {
        let front = g.drop_last();
        assert forall|i: int| 0 <= i < front.len() implies is_hex_digit(#[trigger] front[i]) by {
            assert(front[i] == g[i]);
        }
        lemma_place_value_is_hex_value(front);
        lemma_place_value_push(front, g.last(), 16);
        assert(front.push(g.last()) =~= g);
        assert(is_hex_digit(g[g.len() - 1]));
    }
}

/// What lists groups is read as those groups.
proof fn lemma_list_is_read(text: Seq<char>, w: Seq<u16>, parts: Seq<Seq<char>>, quad: bool)
    requires
        lists_groups(text, w, parts),
    ensures
        groups_of(text, quad) == Some(w),
    decreases parts.len(),
{
    let g = parts[0];
    lemma_group_text(g);
    if parts.len() == 1 {
        lemma_first_position_is(text, ':', text.len() as int);
        assert(w =~= seq![hex_value(g) as u16]);
    } else {
        let rest = parts.skip(1);
        let tail = with_colons(rest);
        assert(text =~= joined(g, ':', tail));
        lemma_joined(g, ':', tail);
        assert forall|i: int| 0 <= i < rest.len() implies is_group_text(#[trigger] rest[i]) by {
            assert(rest[i] == parts[i + 1]);
        }
        lemma_list_is_read(tail, group_numbers(rest), rest, quad);
        assert(seq![hex_value(g) as u16] + group_numbers(rest) =~= w);
    }
}

/// What lists groups and an IPv4 address is read as those groups.
proof fn lemma_quad_list_is_read(
    text: Seq<char>,
    w: Seq<u16>,
    parts: Seq<Seq<char>>,
    o: Seq<u8>,
)
    requires
        lists_quad(text, w, parts, o),
    ensures
        groups_of(text, true) == Some(w),
    decreases parts.len(),
{
    let d = dotted(o);
    lemma_dotted_chars(o);
    if parts.len() == 0 {
        assert(parts.push(d)[0] == d);
        lemma_first_position_is(text, ':', text.len() as int);
        let dot = choose|i: int| 0 <= i < d.len() && d[i] == '.';
        assert(!is_hex_digit(d[dot]));
        law_ipv4_text_round_trip(o);
        assert(w =~= octet_groups(o));
    } else {
        let g = parts[0];
        let rest = parts.skip(1);
        let tail = with_colons(rest.push(d));
        lemma_group_text(g);
        assert(parts.push(d).skip(1) =~= rest.push(d));
        assert(text =~= joined(g, ':', tail));
        lemma_joined(g, ':', tail);
        assert forall|i: int| 0 <= i < rest.len() implies is_group_text(#[trigger] rest[i]) by {
            assert(rest[i] == parts[i + 1]);
        }
        let v = group_numbers(rest) + octet_groups(o);
        lemma_quad_list_is_read(tail, v, rest, o);
        assert(seq![hex_value(g) as u16] + v =~= w);
    }
}

/// What is read as groups lists them.
proof fn lemma_read_is_a_list(text: Seq<char>, w: Seq<u16>, quad: bool)
    requires
        groups_of(text, quad) == Some(w),
    ensures
        lists(text, w, quad),
    decreases text.len(),
{
    let k = first_position(text, ':');
    lemma_first_position(text, ':');
    if k < text.len() {
        let g = text.take(k);
        let tail = text.skip(k + 1);
        let v = groups_of(tail, quad)->0;
        lemma_group_text(g);
        lemma_read_is_a_list(tail, v, quad);
        if exists|parts: Seq<Seq<char>>| lists_groups(tail, v, parts) {
            let rest = choose|parts: Seq<Seq<char>>| lists_groups(tail, v, parts);
            let parts = seq![g] + rest;
            assert(parts.skip(1) =~= rest);
            assert(text =~= with_colons(parts));
            assert(group_numbers(parts) =~= w);
            assert(lists_groups(text, w, parts));
        } else {
            let (rest, o) = choose|parts: Seq<Seq<char>>, o: Seq<u8>|
                lists_quad(tail, v, parts, o);
            let parts = seq![g] + rest;
            let d = dotted(o);
            assert(parts.push(d).skip(1) =~= rest.push(d));
            assert(text =~= with_colons(parts.push(d)));
            assert(group_numbers(parts) =~= seq![hex_value(g) as u16] + group_numbers(rest));
            assert(w =~= group_numbers(parts) + octet_groups(o));
            assert(lists_quad(text, w, parts, o));
        }
    } else {
        lemma_group_text(text);
        if is_group(text) {
            let parts = seq![text];
            assert(group_numbers(parts) =~= w);
            assert(lists_groups(text, w, parts));
        } else {
            let o = octets_of(text)->0;
            assert(is_dotted(text, o));
            let none = Seq::<Seq<char>>::empty();
            assert(none.push(dotted(o))[0] == dotted(o));
            assert(group_numbers(none) + octet_groups(o) =~= w);
            assert(lists_quad(text, w, none, o));
        }
    }
}

/// Groups are read from a text exactly where it lists them.
proof fn lemma_read_as_listed(text: Seq<char>, w: Seq<u16>, quad: bool)
    ensures
        groups_of(text, quad) == Some(w) <==> lists(text, w, quad),
{
    if groups_of(text, quad) == Some(w) {
        lemma_read_is_a_list(text, w, quad);
    }
    if exists|parts: Seq<Seq<char>>| lists_groups(text, w, parts) {
        lemma_list_is_read(
            text,
            w,
            choose|parts: Seq<Seq<char>>| lists_groups(text, w, parts),
            quad,
        );
    } else if quad && exists|parts: Seq<Seq<char>>, o: Seq<u8>| lists_quad(text, w, parts, o) {
        let (parts, o) = choose|parts: Seq<Seq<char>>, o: Seq<u8>|
            lists_quad(text, w, parts, o);
        lemma_quad_list_is_read(text, w, parts, o);
    }
}

/// A text without `::` denotes an IPv6 address exactly where it lists eight groups,
/// and denotes the address that they make.
pub proof fn law_ipv6_text_without_gap(text: Seq<char>, w: Seq<u16>)
    requires
        forall|i: int|
            0 <= i < text.len() - 1 ==> !(#[trigger] text[i] == ':' && text[i + 1] == ':'),
    ensures
        segments_of(text) == Some(w) <==> w.len() == 8 && lists(text, w, true),
{
    assert forall|i: int| 0 <= i < text.len() implies !gap_at(text, i) by {}
    lemma_first_gap_is(text, text.len() as int);
    lemma_read_as_listed(text, w, true);
}

/// A text with `::` denotes an IPv6 address exactly where what stands before and
/// behind the first `::` is empty or lists groups, seven at most together; the
/// groups between them are zero.
pub proof fn law_ipv6_text_with_gap(before: Seq<char>, behind: Seq<char>, w: Seq<u16>)
    requires
        forall|i: int|
            0 <= i < before.len() - 1 ==> !(#[trigger] before[i] == ':' && before[i + 1] == ':'),
        before.len() > 0 ==> before.last() != ':',
    ensures
        segments_of(before + seq![':', ':'] + behind) == Some(w) <==> exists|
            head: Seq<u16>,
            tail: Seq<u16>,
        | is_split_by_gap(before, behind, w, head, tail),
{
    let text = before + seq![':', ':'] + behind;
    let g = before.len() as int;
    assert forall|i: int| 0 <= i < g implies !gap_at(text, i) by {
        assert(text[i] == before[i]);
        if i + 1 < g {
            assert(text[i + 1] == before[i + 1]);
        } else {
            assert(before[i] == before.last());
        }
    }
    assert(gap_at(text, g));
    lemma_first_gap_is(text, g);
    assert(text.take(g) =~= before);
    assert(text.skip(g + 2) =~= behind);
    if segments_of(text) == Some(w) {
        let head = side_groups_of(before, false)->0;
        let tail = side_groups_of(behind, true)->0;
        if before.len() > 0 {
            lemma_read_as_listed(before, head, false);
        }
        if behind.len() > 0 {
            lemma_read_as_listed(behind, tail, true);
        }
        assert(is_split_by_gap(before, behind, w, head, tail));
    }
    if exists|head: Seq<u16>, tail: Seq<u16>| is_split_by_gap(before, behind, w, head, tail) {
        let (head, tail) = choose|head: Seq<u16>, tail: Seq<u16>|
            is_split_by_gap(before, behind, w, head, tail);
        if before.len() > 0 {
            lemma_read_as_listed(before, head, false);
        }
        if behind.len() > 0 {
            lemma_read_as_listed(behind, tail, true);
        }
        assert(w =~= head + zeros(8 - head.len() - tail.len()) + tail);
    }
}

/// Whether `head` stands before the gap, `tail` behind it, and `w` is eight groups
/// that start with `head`, end with `tail`, and have one or more zeros between.
pub open spec fn is_split_by_gap(
    before: Seq<char>,
    behind: Seq<char>,
    w: Seq<u16>,
    head: Seq<u16>,
    tail: Seq<u16>,
) -> bool {
    &&& before.len() == 0 ==> head.len() == 0
    &&& before.len() > 0 ==> lists(before, head, false)
    &&& behind.len() == 0 ==> tail.len() == 0
    &&& behind.len() > 0 ==> lists(behind, tail, true)
    &&& w.len() == 8
    &&& head.len() + tail.len() <= 7
    &&& forall|i: int|
        0 <= i < 8 ==> #[trigger] w[i] == (if i < head.len() {
            head[i]
        } else if i >= 8 - tail.len() {
            tail[i - (8 - tail.len())]
        } else {
            0u16
        })
}

} // verus!
