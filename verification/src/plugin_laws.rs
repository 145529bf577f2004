//! Which addresses are accepted, told by networks; which settings are taken over;
//! and how the router's address is read, told by its parts.

use crate::ip::{
    dotted, ipv6_text, law_ipv4_text_round_trip, law_ipv6_text_round_trip,
    lemma_ipv6_text_is_not_dotted, lemma_segments_of_len, octets_of, segments_of,
};
use crate::plugin::{
    answers, behind_last_colon, can_be_split, config_error, endpoint, host_and_port, is_bracketed,
    is_connectable, is_wanted, port_of, setting, switches_on, usable_ipv4, usable_ipv6, valid_ip,
    ConfigValues, PluginEvent, PluginView, DEFAULT_PORT, DEFAULT_SSL_PORT, QUEUE_CAPACITY,
};
use crate::smartdns::DnsRequest;
use crate::text::{
    decimal, last_position, lemma_first_position, lemma_first_position_is, lemma_last_position,
    lemma_last_position_is,
};
use crate::text_laws::{
    law_number_is_read_by_its_digits, law_only_the_case_of_letters_is_ignored, place_value,
};
use vstd::prelude::*;

verus! {

/// The ports of the two services of the router, and the length of the queue.
pub proof fn law_numbers_of_the_plugin()
    ensures
        DEFAULT_PORT == 8728,
        DEFAULT_SSL_PORT == 8729,
        QUEUE_CAPACITY == 65536,
{
}

/// The number of 32 bits that four octets make.
pub open spec fn number_of_octets(o: Seq<u8>) -> int {
    o[0] * 0x100_0000 + o[1] * 0x1_0000 + o[2] * 0x100 + o[3]
}

/// Whether a number lies in the network of `size` addresses that starts with the
/// address of the four octets.
pub open spec fn in_ipv4_network(n: int, a: int, b: int, c: int, d: int, size: int) -> bool {
    let first = a * 0x100_0000 + b * 0x1_0000 + c * 0x100 + d;
    first <= n < first + size
}

/// Whether a number is an IPv4 address of a network that is left out:
/// 0.0.0.0/8, 100.0.0.0/8, 127.0.0.0/8, 169.254.0.0/16, 192.0.2.0/24,
/// 198.18.0.0/15, 198.51.100.0/24, 203.0.113.0/24 or 224.0.0.0/3.
pub open spec fn is_left_out_ipv4(n: int) -> bool {
    ||| in_ipv4_network(n, 0, 0, 0, 0, 0x100_0000)
    ||| in_ipv4_network(n, 100, 0, 0, 0, 0x100_0000)
    ||| in_ipv4_network(n, 127, 0, 0, 0, 0x100_0000)
    ||| in_ipv4_network(n, 169, 254, 0, 0, 0x1_0000)
    ||| in_ipv4_network(n, 192, 0, 2, 0, 0x100)
    ||| in_ipv4_network(n, 198, 18, 0, 0, 0x2_0000)
    ||| in_ipv4_network(n, 198, 51, 100, 0, 0x100)
    ||| in_ipv4_network(n, 203, 0, 113, 0, 0x100)
    ||| in_ipv4_network(n, 224, 0, 0, 0, 0x2000_0000)
}

/// An IPv4 address is refused exactly where it lies in one of the networks that are
/// left out; every other one is accepted.
pub proof fn law_ipv4_address_is_judged_by_network(o: Seq<u8>)
    requires
        o.len() == 4,
    ensures
        usable_ipv4(o) <==> !is_left_out_ipv4(number_of_octets(o)),
        valid_ip(dotted(o)) <==> !is_left_out_ipv4(number_of_octets(o)),
{
    law_ipv4_text_round_trip(o);
}

/// The number of 128 bits that eight groups make.
pub open spec fn number_of_groups(w: Seq<u16>) -> int {
    w[0] * 0x1_0000_0000_0000_0000_0000_0000_0000 + w[1] * 0x1_0000_0000_0000_0000_0000_0000 + w[2]
        * 0x1_0000_0000_0000_0000_0000 + w[3] * 0x1_0000_0000_0000_0000 + w[4] * 0x1_0000_0000_0000
        + w[5] * 0x1_0000_0000 + w[6] * 0x1_0000 + w[7]
}

/// Whether a number is an IPv6 address that is left out: `::`, `::1`, or one of the
/// networks fe80::/10 and ff00::/8.
pub open spec fn is_left_out_ipv6(n: int) -> bool {
    ||| n == 0
    ||| n == 1
    ||| 0xfe80_0000_0000_0000_0000_0000_0000_0000 <= n < 0xfec0_0000_0000_0000_0000_0000_0000_0000
    ||| n >= 0xff00_0000_0000_0000_0000_0000_0000_0000
}

/// An IPv6 address is refused exactly where it is the unspecified address, the
/// loopback address, or in one of the networks for link-local and multicast
/// addresses; every other one is accepted.
pub proof fn law_ipv6_address_is_judged_by_network(w: Seq<u16>)
    requires
        w.len() == 8,
    ensures
        usable_ipv6(w) <==> !is_left_out_ipv6(number_of_groups(w)),
        valid_ip(ipv6_text(w)) <==> !is_left_out_ipv6(number_of_groups(w)),
{
    law_ipv6_text_round_trip(w);
    lemma_ipv6_text_is_not_dotted(w);
    let n = number_of_groups(w);
    let low = n - w[0] * 0x1_0000_0000_0000_0000_0000_0000_0000;
    assert(0 <= low < 0x1_0000_0000_0000_0000_0000_0000_0000);
    let front = w.take(7);
    if front == seq![0u16, 0, 0, 0, 0, 0, 0] {
        assert(front[0] == 0 && front[1] == 0 && front[2] == 0 && front[3] == 0 && front[4] == 0
            && front[5] == 0 && front[6] == 0);
    }
    if n <= 1 {
        assert(w[0] == 0 && w[1] == 0 && w[2] == 0 && w[3] == 0 && w[4] == 0 && w[5] == 0 && w[6]
            == 0);
        assert(front =~= seq![0u16, 0, 0, 0, 0, 0, 0]);
    }
    assert(w[0] / 0x100 == 0xff <==> w[0] >= 0xff00);
    assert(w[0] / 0x40 == 0xfe80u16 / 0x40 <==> 0xfe80 <= w[0] < 0xfec0);
}

/// A text is accepted exactly where it denotes an address, of either kind, that is
/// not left out.
pub proof fn law_text_is_judged_by_the_address_it_denotes(text: Seq<char>)
    ensures
        valid_ip(text) <==> {
            ||| octets_of(text) matches Some(o) && !is_left_out_ipv4(number_of_octets(o))
            ||| octets_of(text) is None && (segments_of(text) matches Some(w) && !is_left_out_ipv6(
                number_of_groups(w),
            ))
        },
{
    if let Some(o) = octets_of(text) {
        assert(o.len() == 4);
        law_ipv4_address_is_judged_by_network(o);
    } else if let Some(w) = segments_of(text) {
        lemma_segments_of_len(text);
        law_ipv6_address_is_judged_by_network(w);
    }
}

/// A setting that is given is the given text itself, of any length; one that is not
/// given stays what it was.
pub proof fn law_setting_is_the_given_text(before: Seq<char>, value: String)
    ensures
        setting(before, Some(value)) == value@,
        setting(before, None) == before,
{
}

/// The settings that are given are taken over as they are, each in its place, and
/// the others stay what they were.
pub proof fn law_settings_are_taken_over(state: PluginView, values: ConfigValues)
    ensures
        ({
            let next = state.loaded(values);
            &&& values.address matches Some(v) ==> next.address == v@
            &&& values.address is None ==> next.address == state.address
            &&& values.username matches Some(v) ==> next.username == v@
            &&& values.username is None ==> next.username == state.username
            &&& values.password matches Some(v) ==> next.password == v@
            &&& values.password is None ==> next.password == state.password
            &&& values.ssl matches Some(v) ==> next.ssl == means_yes(v@)
            &&& values.ssl is None ==> next.ssl == state.ssl
            &&& next.started == state.started
            &&& next.stopped == state.stopped
        }),
{
    if let Some(v) = values.ssl {
        law_tls_is_switched_on_by_yes_one_or_true(v@);
    }
}

/// Whether a text is `yes` or `true`, in any case, or `1`.
pub open spec fn means_yes(text: Seq<char>) -> bool {
    ||| text.len() == 1 && text[0] == '1'
    ||| {
        &&& text.len() == 3
        &&& text[0] == 'y' || text[0] == 'Y'
        &&& text[1] == 'e' || text[1] == 'E'
        &&& text[2] == 's' || text[2] == 'S'
    }
    ||| {
        &&& text.len() == 4
        &&& text[0] == 't' || text[0] == 'T'
        &&& text[1] == 'r' || text[1] == 'R'
        &&& text[2] == 'u' || text[2] == 'U'
        &&& text[3] == 'e' || text[3] == 'E'
    }
}

/// TLS is switched on exactly by `yes` and `true`, in any case, and by `1`.
pub proof fn law_tls_is_switched_on_by_yes_one_or_true(text: Seq<char>)
    ensures
        switches_on(text) <==> means_yes(text),
{
    reveal_strlit("yes");
    reveal_strlit("true");
    reveal_strlit("1");
    let yes = "yes"@;
    let so = "true"@;
    law_only_the_case_of_letters_is_ignored(text, yes);
    law_only_the_case_of_letters_is_ignored(text, so);
    assert(yes.len() == 3 && yes[0] == 'y' && yes[1] == 'e' && yes[2] == 's');
    assert(so.len() == 4 && so[0] == 't' && so[1] == 'r' && so[2] == 'u' && so[3] == 'e');
    if text.len() == 1 && text[0] == '1' {
        assert(text =~= "1"@);
    }
}

/// A configuration is refused exactly where the address, the user name or the
/// password is empty, and the error names the first of them that is.
pub proof fn law_empty_setting_is_named(
    address: Seq<char>,
    username: Seq<char>,
    password: Seq<char>,
)
    ensures
        address.len() > 0 && username.len() > 0 && password.len() > 0 <==> config_error(
            address,
            username,
            password,
        ) is None,
        address.len() == 0 ==> config_error(address, username, password) == Some(
            "mikrotik-api.address is not configured"@,
        ),
        address.len() > 0 && username.len() == 0 ==> config_error(address, username, password)
            == Some("mikrotik-api.username is not configured"@),
        address.len() > 0 && username.len() > 0 && password.len() == 0 ==> config_error(
            address,
            username,
            password,
        ) == Some("mikrotik-api.password is not configured"@),
{
}

/// The digits of a port: what stands behind an optional plus sign.
pub open spec fn port_digits(text: Seq<char>) -> Seq<char> {
    if text.len() > 0 && text[0] == '+' {
        text.skip(1)
    } else {
        text
    }
}

/// Whether a text is a port: one or more digits, with an optional plus sign before
/// them, that stand for 65535 at most.
pub open spec fn is_port(text: Seq<char>) -> bool {
    let digits = port_digits(text);
    &&& digits.len() > 0
    &&& forall|i: int| 0 <= i < digits.len() ==> '0' <= #[trigger] digits[i] <= '9'
    &&& place_value(digits, 10) <= 65535
}

/// The port where none can be read.
pub open spec fn port_without_one(ssl: bool) -> nat {
    if ssl {
        8729
    } else {
        8728
    }
}

/// A port is read as the number that its digits stand for.
proof fn lemma_port_is_read(text: Seq<char>)
    ensures
        is_port(text) ==> port_of(text) == Some(place_value(port_digits(text), 10) as nat),
        !is_port(text) ==> port_of(text) is None,
{
    law_number_is_read_by_its_digits(port_digits(text), 65535);
}

/// A port holds neither a colon nor a bracket.
proof fn lemma_port_chars(text: Seq<char>)
    requires
        is_port(text),
    ensures
        !text.contains(':'),
        !text.contains(']'),
{
    let digits = port_digits(text);
    assert forall|i: int| 0 <= i < text.len() implies text[i] != ':' && text[i] != ']' by {
        if digits.len() == text.len() {
            assert(digits[i] == text[i]);
        } else if i > 0 {
            assert(digits[i - 1] == text[i]);
        }
    }
}

/// An address without a colon is the host, and the port is the default one.
pub proof fn law_address_without_colon_is_the_host(address: Seq<char>, ssl: bool)
    requires
        !address.contains(':'),
    ensures
        host_and_port(address, ssl) == (address, port_without_one(ssl)),
        can_be_split(address),
{
    lemma_last_position(address, ':');
    lemma_last_position(address, ']');
}

/// Where what stands behind the last colon is no port, the whole address is the
/// host, and the port is the default one.
pub proof fn law_address_without_a_port_is_the_host(
    before: Seq<char>,
    behind: Seq<char>,
    ssl: bool,
)
    requires
        !behind.contains(':'),
        !is_port(behind),
    ensures
        host_and_port(before + seq![':'] + behind, ssl) == (
            before + seq![':'] + behind,
            port_without_one(ssl),
        ),
        can_be_split(before + seq![':'] + behind),
{
    lemma_last_colon(before, behind);
    lemma_port_is_read(behind);
}

/// The last colon of an address stands before what holds none.
proof fn lemma_last_colon(before: Seq<char>, behind: Seq<char>)
    requires
        !behind.contains(':'),
    ensures
        ({
            let address = before + seq![':'] + behind;
            &&& last_position(address, ':') == before.len()
            &&& behind_last_colon(address) == behind
            &&& address.take(before.len() as int) == before
        }),
{
    let address = before + seq![':'] + behind;
    let at = before.len() as int;
    assert(address[at] == ':');
    assert forall|i: int| at < i < address.len() implies address[i] != ':' by {
        assert(address[i] == behind[i - at - 1]);
    }
    lemma_last_position_is(address, ':', at);
    assert(behind_last_colon(address) =~= behind);
    assert(address.take(at) =~= before);
}

/// Where a port stands behind the last colon and no bracket before it, what stands
/// before it is the host, unless that holds another colon: then the whole address is
/// the host, and the port is the default one.
pub proof fn law_host_stands_before_the_port(before: Seq<char>, port: Seq<char>, ssl: bool)
    requires
        is_port(port),
        !before.contains(']'),
    ensures
        can_be_split(before + seq![':'] + port),
        !before.contains(':') ==> host_and_port(before + seq![':'] + port, ssl) == (
            before,
            place_value(port_digits(port), 10) as nat,
        ),
        before.contains(':') ==> host_and_port(before + seq![':'] + port, ssl) == (
            before + seq![':'] + port,
            port_without_one(ssl),
        ),
{
    let address = before + seq![':'] + port;
    lemma_port_chars(port);
    lemma_last_colon(before, port);
    lemma_port_is_read(port);
    lemma_last_position(address, ']');
    if last_position(address, ']') >= 0 {
        let b = last_position(address, ']');
        if b < before.len() {
            assert(before[b] == ']');
        } else if b > before.len() {
            assert(port[b - before.len() - 1] == ']');
        }
    }
    assert(!is_bracketed(address));
}

/// Where a port stands behind the last colon and a closing bracket before that, the
/// host is what stands before the last such bracket, without its first character.
/// That character must be there, and take one byte.
pub proof fn law_host_stands_in_brackets(
    open: Seq<char>,
    between: Seq<char>,
    port: Seq<char>,
    ssl: bool,
)
    requires
        is_port(port),
        !between.contains(']'),
    ensures
        host_and_port(open + seq![']'] + between + seq![':'] + port, ssl) == (
            (open + seq![']'] + between + seq![':'] + port).subrange(1, open.len() as int),
            place_value(port_digits(port), 10) as nat,
        ),
        open.len() > 0 ==> host_and_port(open + seq![']'] + between + seq![':'] + port, ssl).0
            == open.skip(1),
        can_be_split(open + seq![']'] + between + seq![':'] + port) <==> open.len() > 0 && open[0]
            <= '\u{7f}',
{
    let before = open + seq![']'] + between;
    let address = before + seq![':'] + port;
    assert(address =~= open + seq![']'] + between + seq![':'] + port);
    lemma_port_chars(port);
    lemma_last_colon(before, port);
    lemma_port_is_read(port);
    let at = open.len() as int;
    assert(address[at] == ']');
    assert forall|i: int| at < i < address.len() implies address[i] != ']' by {
        if i < before.len() {
            assert(address[i] == between[i - at - 1]);
        } else if i > before.len() {
            assert(address[i] == port[i - before.len() - 1]);
        }
    }
    lemma_last_position_is(address, ']', at);
    if open.len() > 0 {
        assert(address.subrange(1, at) =~= open.skip(1));
        assert(address[0] == open[0]);
    }
}

/// What is connected to is the host, in brackets where it holds a colon, then a
/// colon and the numeral of the port.
pub proof fn law_endpoint_is_host_and_numeral(host: Seq<char>, port: nat)
    ensures
        !host.contains(':') ==> endpoint(host, port) == host + seq![':'] + decimal(port),
        host.contains(':') ==> endpoint(host, port) == seq!['['] + host + seq![']'] + seq![':']
            + decimal(port),
{
    if host.contains(':') {
        assert(endpoint(host, port) =~= seq!['['] + host + seq![']'] + seq![':'] + decimal(port));
    }
}

/// A connection can be made to a host without a colon exactly where it denotes an
/// IPv4 address, and to one with a colon but no percent sign exactly where it
/// denotes an IPv6 address.
pub proof fn law_host_must_be_an_address(host: Seq<char>)
    ensures
        !host.contains(':') ==> (is_connectable(host) <==> octets_of(host) is Some),
        host.contains(':') && !host.contains('%') ==> (is_connectable(host) <==> segments_of(
            host,
        ) is Some),
{
    lemma_first_position(host, '%');
}

/// Behind the first percent sign of a host with a colon a scope must stand: one or
/// more digits that stand for a number of 32 bits.
pub proof fn law_scope_must_be_a_number(address: Seq<char>, scope: Seq<char>)
    requires
        !address.contains('%'),
        (address + seq!['%'] + scope).contains(':'),
    ensures
        is_connectable(address + seq!['%'] + scope) <==> {
            &&& segments_of(address) is Some
            &&& scope.len() > 0
            &&& forall|i: int| 0 <= i < scope.len() ==> '0' <= #[trigger] scope[i] <= '9'
            &&& place_value(scope, 10) <= 4294967295
        },
{
    let host = address + seq!['%'] + scope;
    let at = address.len() as int;
    assert(host[at] == '%');
    assert forall|i: int| 0 <= i < at implies host[i] != '%' by {
        assert(host[i] == address[i]);
    }
    lemma_first_position_is(host, '%', at);
    assert(host.take(at) =~= address);
    assert(host.skip(at + 1) =~= scope);
    law_number_is_read_by_its_digits(scope, 4294967295);
}

/// A completed query can lead to an entry exactly where it belongs to a group that
/// is not the default one, asked for addresses, and neither name holds a zero
/// character.
pub proof fn law_query_is_wanted_by_group_and_type(
    group: Seq<char>,
    domain: Seq<char>,
    qtype: i32,
)
    ensures
        is_wanted(group, domain, qtype) <==> {
            &&& group.len() != 0
            &&& group != seq!['d', 'e', 'f', 'a', 'u', 'l', 't']
            &&& qtype == 1 || qtype == 28
            &&& forall|i: int| 0 <= i < domain.len() ==> #[trigger] domain[i] != '\0'
            &&& forall|i: int| 0 <= i < group.len() ==> #[trigger] group[i] != '\0'
        },
{
    reveal_strlit("default");
    assert("default"@ =~= seq!['d', 'e', 'f', 'a', 'u', 'l', 't']);
}

/// Stopping changes nothing but that the plugin has stopped. Starting changes
/// nothing but the settings that are given and, where it succeeds, that the worker
/// was started.
pub proof fn law_start_and_stop_change_nothing_else(state: PluginView, values: ConfigValues)
    ensures
        state.after(PluginEvent::Stop) == (PluginView { stopped: true, ..state }),
        ({
            let next = state.after(PluginEvent::Start(values));
            let complete = next.address.len() > 0 && next.username.len() > 0 && next.password.len()
                > 0;
            &&& next.stopped == state.stopped
            &&& next.started == (state.started || complete)
            &&& next == (PluginView { started: next.started, ..state.loaded(values) })
            &&& state.starts_worker(PluginEvent::Start(values)) == (complete && !state.started)
            &&& !state.starts_worker(PluginEvent::Stop)
            &&& state.can_start(values) == (complete ==> can_be_split(next.address))
        }),
{
}

/// A plugin that nothing has happened to has no settings, and neither has started nor
/// stopped.
pub proof fn law_fresh_plugin_is_empty()
    ensures
        ({
            let fresh = PluginView::fresh();
            &&& fresh.address.len() == 0
            &&& fresh.username.len() == 0
            &&& fresh.password.len() == 0
            &&& !fresh.ssl
            &&& !fresh.started
            &&& !fresh.stopped
        }),
{
}

/// The group, domain and record type of a query are what the request's own methods
/// give for them, each in its place.
pub proof fn law_query_is_read_from_the_request<R: DnsRequest + ?Sized>(
    request: &R,
    group: String,
    domain: String,
    qtype: u32,
)
    ensures
        answers(request, group, domain, qtype) <==> {
            &&& call_ensures(R::get_group_name, (request,), group)
            &&& call_ensures(R::get_domain, (request,), domain)
            &&& call_ensures(R::get_qtype, (request,), qtype)
        },
{
}

} // verus!
