//! The plugin's configuration and life, and which completed queries lead to an
//! entry in an address list of the router.

use crate::ip::{
    dotted, ipv6_text, is_dotted, law_ipv4_text_round_trip, law_ipv6_text_round_trip,
    lemma_dotted_chars, lemma_ipv6_text_chars, lemma_ipv6_text_is_not_dotted, octets_of, parse_ipv4,
    parse_ipv6, segments_of,
};
use crate::mikrotik_api::{ApiError, ErrorKind};
use crate::smartdns::{DnsRequest, DnsResult, DNS_T_A, DNS_T_AAAA};
use crate::text::{
    all_digits, chars_of, decimal, equal_ignoring_case, find_first, find_last, first_position,
    has_char, last_position, lemma_decimal, lemma_first_position, lemma_last_position,
    lemma_last_position_is, number_up_to, parse_number, push_decimal, same_text,
    same_text_ignoring_case, text_of,
};
use vstd::prelude::*;
use vstd::slice::slice_subrange;
use vstd::string::*;

verus! {

/// The port of the RouterOS API.
pub const DEFAULT_PORT: u16 = 8728;

/// The port of the RouterOS API over TLS.
pub const DEFAULT_SSL_PORT: u16 = 8729;

/// The jobs that may wait for the worker.
pub const QUEUE_CAPACITY: usize = 65536;

/// Whether an IPv4 address may stand in an address list: not one of the networks
/// for the unspecified address, loopback, link-local addresses, documentation,
/// benchmarks, multicast or future use, nor one that starts with 100, where the
/// shared address space is.
pub open spec fn usable_ipv4(o: Seq<u8>) -> bool {
    &&& o[0] != 0 && o[0] != 100 && o[0] != 127 && o[0] < 224
    &&& !(o[0] == 169 && o[1] == 254)
    &&& !(o[0] == 192 && o[1] == 0 && o[2] == 2)
    &&& !(o[0] == 198 && (o[1] == 18 || o[1] == 19))
    &&& !(o[0] == 198 && o[1] == 51 && o[2] == 100)
    &&& !(o[0] == 203 && o[1] == 0 && o[2] == 113)
}

/// Whether an IPv6 address may stand in an address list: not the unspecified
/// address, the loopback address, a multicast address or a link-local address.
pub open spec fn usable_ipv6(w: Seq<u16>) -> bool {
    &&& !(w.take(7) == seq![0u16, 0, 0, 0, 0, 0, 0] && w[7] <= 1)
    &&& w[0] / 0x100 != 0xff
    &&& w[0] / 0x40 != 0xfe80u16 / 0x40
}

/// Whether a text denotes an address that may stand in an address list.
pub open spec fn valid_ip(text: Seq<char>) -> bool {
    match octets_of(text) {
        Some(o) => usable_ipv4(o),
        None => match segments_of(text) {
            Some(w) => usable_ipv6(w),
            None => false,
        },
    }
}

/// Whether the address of an IPv4 record is accepted is decided by its octets.
pub proof fn law_ipv4_record_is_judged_by_octets(o: Seq<u8>)
    requires
        o.len() == 4,
    ensures
        valid_ip(dotted(o)) == usable_ipv4(o),
{
    law_ipv4_text_round_trip(o);
}

/// Whether the address of an IPv6 record is accepted is decided by its groups.
pub proof fn law_ipv6_record_is_judged_by_groups(w: Seq<u16>)
    requires
        w.len() == 8,
    ensures
        valid_ip(ipv6_text(w)) == usable_ipv6(w),
{
    law_ipv6_text_round_trip(w);
    lemma_ipv6_text_is_not_dotted(w);
}

/// Whether a text denotes an address that may stand in an address list.
pub fn is_valid_ip(ip: &str) -> (valid: bool)
    ensures
        valid == valid_ip(ip@),
{
    let chars = chars_of(ip);
    if let Some(o) = parse_ipv4(&chars) {
        if o[0] == 0 || o[0] == 100 || o[0] == 127 || o[0] >= 224 {
            return false;
        }
        if o[0] == 169 && o[1] == 254 {
            return false;
        }
        if o[0] == 192 && o[1] == 0 && o[2] == 2 {
            return false;
        }
        if o[0] == 198 && (o[1] == 18 || o[1] == 19) {
            return false;
        }
        if o[0] == 198 && o[1] == 51 && o[2] == 100 {
            return false;
        }
        if o[0] == 203 && o[1] == 0 && o[2] == 113 {
            return false;
        }
        return true;
    }
    if let Some(w) = parse_ipv6(&chars) {
        let zero = w[0] == 0 && w[1] == 0 && w[2] == 0 && w[3] == 0 && w[4] == 0 && w[5] == 0
            && w[6] == 0;
        proof {
            let front = w@.take(7);
            if front == seq![0u16, 0, 0, 0, 0, 0, 0] {
                assert(front[0] == 0 && front[1] == 0 && front[2] == 0 && front[3] == 0 && front[4]
                    == 0 && front[5] == 0 && front[6] == 0);
            }
            if zero {
                assert(front =~= seq![0u16, 0, 0, 0, 0, 0, 0]);
            }
        }
        if zero && w[7] <= 1 {
            return false;
        }
        if w[0] / 0x100 == 0xff {
            return false;
        }
        if w[0] / 0x40 == 0x3fa {
            return false;
        }
        return true;
    }
    false
}

/// The port that a text gives: digits, with an optional plus sign before them.
pub open spec fn port_of(text: Seq<char>) -> Option<nat> {
    if text.len() > 0 && text[0] == '+' {
        number_up_to(text.skip(1), u16::MAX as nat)
    } else {
        number_up_to(text, u16::MAX as nat)
    }
}

/// The text behind the last colon.
pub open spec fn behind_last_colon(address: Seq<char>) -> Seq<char> {
    address.skip(last_position(address, ':') + 1)
}

/// Whether the last colon of an address stands behind a closing bracket, with a
/// port behind it.
pub open spec fn is_bracketed(address: Seq<char>) -> bool {
    0 <= last_position(address, ']') < last_position(address, ':') && port_of(
        behind_last_colon(address),
    ) is Some
}

/// Whether a bracketed address has a bracket, or any other character of one byte,
/// to leave off before the closing bracket.
pub open spec fn can_be_split(address: Seq<char>) -> bool {
    is_bracketed(address) ==> last_position(address, ']') >= 1 && address[0] <= '\u{7f}'
}

/// The host and port of an address: `[host]:port` or `host:port`, where a host
/// with a colon in it needs the brackets. Without a port, or with none that can
/// be read, the whole address is the host.
pub open spec fn host_and_port(address: Seq<char>, ssl: bool) -> (Seq<char>, nat) {
    let colon = last_position(address, ':');
    let default = if ssl {
        DEFAULT_SSL_PORT as nat
    } else {
        DEFAULT_PORT as nat
    };
    match port_of(behind_last_colon(address)) {
        Some(port) if is_bracketed(address) => (
            address.subrange(1, last_position(address, ']')),
            port,
        ),
        Some(port) if colon >= 0 && !address.take(colon).contains(':') => (
            address.take(colon),
            port,
        ),
        _ => (address, default),
    }
}

/// Reads a port.
fn parse_port(chars: &[char]) -> (port: Option<u16>)
    ensures
        match port {
            Some(p) => port_of(chars@) == Some(p as nat),
            None => port_of(chars@) is None,
        },
{
    let number = if chars.len() > 0 && chars[0] == '+' {
        let digits = slice_subrange(chars, 1, chars.len());
        assert(digits@ =~= chars@.skip(1));
        parse_number(digits, u16::MAX as u32)
    } else {
        parse_number(chars, u16::MAX as u32)
    };
    match number {
        Some(n) => Some(n as u16),
        None => None,
    }
}

/// Whether `parse_address` can take the address.
pub fn check_address(address: &str) -> (ok: bool)
    ensures
        ok == can_be_split(address@),
{
    let chars = chars_of(address);
    let len = chars.len();
    match (find_last(&chars, ':'), find_last(&chars, ']')) {
        (Some(colon), Some(bracket)) => {
            proof {
                lemma_last_position(chars@, ':');
                lemma_last_position(chars@, ']');
            }
            let rest = slice_subrange(&chars, colon + 1, len);
            assert(rest@ =~= behind_last_colon(address@));
            !(bracket < colon && parse_port(rest).is_some()) || (bracket >= 1 && chars[0]
                <= '\u{7f}')
        },
        _ => true,
    }
}

/// Splits the configured address into host and port.
pub fn parse_address(address: &str, ssl: bool) -> (parts: (String, u16))
    requires
        can_be_split(address@),
    ensures
        (parts.0@, parts.1 as nat) == host_and_port(address@, ssl),
{
    let chars = chars_of(address);
    let len = chars.len();
    let default = if ssl {
        DEFAULT_SSL_PORT
    } else {
        DEFAULT_PORT
    };
    if let Some(colon) = find_last(&chars, ':') {
        proof {
            lemma_last_position(chars@, ':');
            lemma_last_position(chars@, ']');
        }
        let rest = slice_subrange(&chars, colon + 1, len);
        assert(rest@ =~= behind_last_colon(address@));
        if let Some(port) = parse_port(rest) {
            if let Some(bracket) = find_last(&chars, ']') {
                if bracket < colon {
                    return (text_of(&chars, 1, bracket), port);
                }
            }
            let host = slice_subrange(&chars, 0, colon);
            assert(host@ =~= address@.take(colon as int));
            let inner = find_first(host, ':');
            proof {
                lemma_first_position(host@, ':');
            }
            if inner == host.len() {
                let text = text_of(&chars, 0, colon);
                assert(text@ =~= address@.take(colon as int));
                return (text, port);
            }
        }
    }
    (String::from_str(address), default)
}

/// The address to connect to: a host with a colon in it stands in brackets.
pub open spec fn endpoint(host: Seq<char>, port: nat) -> Seq<char> {
    if host.contains(':') {
        seq!['['] + host + seq![']', ':'] + decimal(port)
    } else {
        host + seq![':'] + decimal(port)
    }
}

/// An address to connect to is split into the host and port it was made from,
/// whatever the default port. (A host without a colon that holds a closing
/// bracket would be taken for one that stands in brackets.)
pub proof fn law_endpoint_splits_into_host_and_port(host: Seq<char>, port: nat, ssl: bool)
    requires
        port <= u16::MAX,
        host.contains(':') || !host.contains(']'),
    ensures
        can_be_split(endpoint(host, port)),
        host_and_port(endpoint(host, port), ssl) == (host, port),
{
    let address = endpoint(host, port);
    let digits = decimal(port);
    lemma_decimal(port);
    assert(is_decimal_text(digits));
    if host.contains(':') {
        let colon = host.len() + 2;
        assert(address[colon as int] == ':');
        assert forall|i: int| colon < i < address.len() implies address[i] != ':' by {
            assert(address[i] == digits[i - colon - 1]);
        }
        lemma_last_position_is(address, ':', colon as int);
        assert(address[host.len() as int + 1] == ']');
        assert forall|i: int| host.len() + 1 < i < address.len() implies address[i] != ']' by {
            if i > colon {
                assert(address[i] == digits[i - colon - 1]);
            }
        }
        lemma_last_position_is(address, ']', host.len() as int + 1);
        assert(behind_last_colon(address) =~= digits);
        assert(address.subrange(1, host.len() as int + 1) =~= host);
        assert(address[0] == '[');
    } else {
        let colon = host.len();
        assert(address[colon as int] == ':');
        assert forall|i: int| colon < i < address.len() implies address[i] != ':' by {
            assert(address[i] == digits[i - colon - 1]);
        }
        lemma_last_position_is(address, ':', colon as int);
        assert(behind_last_colon(address) =~= digits);
        assert(address.take(colon as int) =~= host);
        lemma_last_position(address, ']');
        if last_position(address, ']') >= 0 {
            let b = last_position(address, ']');
            if b < colon {
                assert(host[b] == ']');
            } else if b > colon {
                assert(address[b] == digits[b - colon - 1]);
            }
        }
    }
}

/// Whether a text is made of digits only, and starts with one.
spec fn is_decimal_text(digits: Seq<char>) -> bool {
    digits.len() > 0 && all_digits(digits) && digits[0] != '+' && !digits.contains(':')
}

/// Whether a connection can be made to the host: an IPv4 address, or an IPv6
/// address with an optional scope number behind a percent sign.
pub open spec fn is_connectable(host: Seq<char>) -> bool {
    if host.contains(':') {
        let percent = first_position(host, '%');
        if percent < host.len() {
            segments_of(host.take(percent)) is Some && number_up_to(
                host.skip(percent + 1),
                u32::MAX as nat,
            ) is Some
        } else {
            segments_of(host) is Some
        }
    } else {
        octets_of(host) is Some
    }
}

/// A connection can be made to every IPv4 address.
pub proof fn law_ipv4_address_is_connectable(o: Seq<u8>)
    requires
        o.len() == 4,
    ensures
        is_connectable(dotted(o)),
{
    law_ipv4_text_round_trip(o);
    lemma_dotted_chars(o);
}

/// A connection can be made to every IPv6 address.
pub proof fn law_ipv6_address_is_connectable(w: Seq<u16>)
    requires
        w.len() == 8,
    ensures
        is_connectable(ipv6_text(w)),
{
    let text = ipv6_text(w);
    law_ipv6_text_round_trip(w);
    lemma_ipv6_text_is_not_dotted(w);
    lemma_ipv6_text_chars(w);
    lemma_first_position(text, '%');
}

/// Where a connection can be made to a host, the host and a port can be configured
/// as the address that is connected to: it is split into them again.
pub proof fn law_connectable_host_can_be_configured(host: Seq<char>, port: nat, ssl: bool)
    requires
        port <= u16::MAX,
        is_connectable(host),
    ensures
        can_be_split(endpoint(host, port)),
        host_and_port(endpoint(host, port), ssl) == (host, port),
{
    if !host.contains(':') {
        let o = choose|o: Seq<u8>| is_dotted(host, o);
        lemma_dotted_chars(o);
    }
    law_endpoint_splits_into_host_and_port(host, port, ssl);
}

/// The address to connect to for a host and port.
pub fn connect_address(host: &str, port: u16) -> (address: Result<String, ApiError>)
    ensures
        match address {
            Ok(a) => is_connectable(host@) && a@ == endpoint(host@, port as nat),
            Err(e) => !is_connectable(host@) && e@ == (
                ErrorKind::InvalidInput,
                "invalid socket address syntax"@,
            ),
        },
{
    let chars = chars_of(host);
    let has_colon = has_char(host, ':');
    let connectable = if has_colon {
        let percent = find_first(&chars, '%');
        proof {
            lemma_first_position(chars@, '%');
        }
        if percent < chars.len() {
            let address = slice_subrange(&chars, 0, percent);
            let scope = slice_subrange(&chars, percent + 1, chars.len());
            assert(address@ =~= host@.take(percent as int));
            assert(scope@ =~= host@.skip(percent + 1));
            parse_ipv6(address).is_some() && parse_number(scope, u32::MAX).is_some()
        } else {
            parse_ipv6(&chars).is_some()
        }
    } else {
        parse_ipv4(&chars).is_some()
    };
    if !connectable {
        return Err(
            ApiError {
                kind: ErrorKind::InvalidInput,
                message: String::from_str("invalid socket address syntax"),
            },
        );
    }
    let mut address = String::new();
    if has_colon {
        address.push('[');
        address.append(host);
        address.push(']');
        address.push(':');
    } else {
        address.append(host);
        address.push(':');
    }
    push_decimal(&mut address, port as u32);
    assert(address@ =~= endpoint(host@, port as nat));
    Ok(address)
}

/// The plugin's configuration.
pub struct MikrotikPluginConfig {
    pub address: String,
    pub username: String,
    pub password: String,
    pub ssl: bool,
}

impl Default for MikrotikPluginConfig {
    fn default() -> (config: Self)
        ensures
            config.address@ == Seq::<char>::empty(),
            config.username@ == Seq::<char>::empty(),
            config.password@ == Seq::<char>::empty(),
            !config.ssl,
    {
        MikrotikPluginConfig {
            address: String::new(),
            username: String::new(),
            password: String::new(),
            ssl: false,
        }
    }
}

/// The plugin's settings as smartdns gives them, where they are set.
pub struct ConfigValues {
    pub address: Option<String>,
    pub username: Option<String>,
    pub password: Option<String>,
    pub ssl: Option<String>,
}

/// Where to connect to, whether over TLS, and as whom.
pub struct Target {
    pub host: String,
    pub port: u16,
    pub ssl: bool,
    pub username: String,
    pub password: String,
}

/// Whether the value of the setting for TLS switches it on.
pub open spec fn switches_on(value: Seq<char>) -> bool {
    equal_ignoring_case(value, "yes"@) || value == "1"@ || equal_ignoring_case(value, "true"@)
}

/// The text that a setting has after a value for it may have been given.
pub open spec fn setting(before: Seq<char>, value: Option<String>) -> Seq<char> {
    match value {
        Some(v) => v@,
        None => before,
    }
}

/// The error that an incomplete configuration is refused with: it names the
/// first setting that is missing.
pub open spec fn config_error(
    address: Seq<char>,
    username: Seq<char>,
    password: Seq<char>,
) -> Option<Seq<char>> {
    if address.len() == 0 {
        Some("mikrotik-api.address is not configured"@)
    } else if username.len() == 0 {
        Some("mikrotik-api.username is not configured"@)
    } else if password.len() == 0 {
        Some("mikrotik-api.password is not configured"@)
    } else {
        None
    }
}

impl MikrotikPluginConfig {
    /// Takes over the settings that are set.
    pub fn load_config(&mut self, values: ConfigValues)
        ensures
            final(self).address@ == setting(old(self).address@, values.address),
            final(self).username@ == setting(old(self).username@, values.username),
            final(self).password@ == setting(old(self).password@, values.password),
            final(self).ssl == (match values.ssl {
                Some(v) => switches_on(v@),
                None => old(self).ssl,
            }),
            values.address matches Some(v) ==> final(self).address@ == v@,
            values.address is None ==> final(self).address@ == old(self).address@,
            values.username matches Some(v) ==> final(self).username@ == v@,
            values.username is None ==> final(self).username@ == old(self).username@,
            values.password matches Some(v) ==> final(self).password@ == v@,
            values.password is None ==> final(self).password@ == old(self).password@,
            values.ssl is None ==> final(self).ssl == old(self).ssl,
    {
        if let Some(address) = values.address {
            self.address = address;
        }
        if let Some(username) = values.username {
            self.username = username;
        }
        if let Some(password) = values.password {
            self.password = password;
        }
        if let Some(ssl) = values.ssl {
            self.ssl = same_text_ignoring_case(ssl.as_str(), "yes") || same_text(ssl.as_str(), "1")
                || same_text_ignoring_case(ssl.as_str(), "true");
        }
    }

    /// Refuses a configuration in which a setting is missing.
    pub fn validate_config(&self) -> (checked: Result<(), String>)
        ensures
            match checked {
                Ok(_) => config_error(self.address@, self.username@, self.password@) is None,
                Err(e) => config_error(self.address@, self.username@, self.password@) == Some(e@),
            },
    {
        if self.address.as_str().is_empty() {
            return Err(String::from_str("mikrotik-api.address is not configured"));
        }
        if self.username.as_str().is_empty() {
            return Err(String::from_str("mikrotik-api.username is not configured"));
        }
        if self.password.as_str().is_empty() {
            return Err(String::from_str("mikrotik-api.password is not configured"));
        }
        Ok(())
    }

    /// Takes over the settings, and tells where to connect to, or what is
    /// missing.
    pub fn start(&mut self, values: ConfigValues) -> (target: Result<Target, String>)
        requires
            config_error(
                setting(old(self).address@, values.address),
                setting(old(self).username@, values.username),
                setting(old(self).password@, values.password),
            ) is None ==> can_be_split(setting(old(self).address@, values.address)),
        ensures
            final(self).address@ == setting(old(self).address@, values.address),
            final(self).username@ == setting(old(self).username@, values.username),
            final(self).password@ == setting(old(self).password@, values.password),
            final(self).ssl == (match values.ssl {
                Some(v) => switches_on(v@),
                None => old(self).ssl,
            }),
            values.address matches Some(v) ==> final(self).address@ == v@,
            values.address is None ==> final(self).address@ == old(self).address@,
            values.username matches Some(v) ==> final(self).username@ == v@,
            values.username is None ==> final(self).username@ == old(self).username@,
            values.password matches Some(v) ==> final(self).password@ == v@,
            values.password is None ==> final(self).password@ == old(self).password@,
            values.ssl is None ==> final(self).ssl == old(self).ssl,
            match target {
                Ok(t) => {
                    &&& config_error(
                        final(self).address@,
                        final(self).username@,
                        final(self).password@,
                    ) is None
                    &&& (t.host@, t.port as nat) == host_and_port(
                        final(self).address@,
                        final(self).ssl,
                    )
                    &&& t.ssl == final(self).ssl
                    &&& t.username@ == final(self).username@
                    &&& t.password@ == final(self).password@
                },
                Err(e) => config_error(
                    final(self).address@,
                    final(self).username@,
                    final(self).password@,
                ) == Some(e@),
            },
    {
        self.load_config(values);
        match self.validate_config() {
            Ok(_) => {},
            Err(e) => {
                return Err(e);
            },
        }
        let (host, port) = parse_address(self.address.as_str(), self.ssl);
        Ok(
            Target {
                host,
                port,
                ssl: self.ssl,
                username: self.username.clone(),
                password: self.password.clone(),
            },
        )
    }
}

/// An address that a query resolved to, for the worker.
#[derive(Clone, Debug)]
pub struct ResolvedJob {
    pub domain: String,
    pub group: String,
    pub ip: String,
    pub ttl: u32,
    pub qtype: i32,
}

/// Whether a completed query can lead to an entry: it asked for addresses and
/// belongs to a group other than the default one. The names must be ones that
/// can be looked up, that is without a zero character.
pub open spec fn is_wanted(group: Seq<char>, domain: Seq<char>, qtype: i32) -> bool {
    &&& group.len() > 0
    &&& group != "default"@
    &&& qtype == DNS_T_A || qtype == DNS_T_AAAA
    &&& !domain.contains('\0')
    &&& !group.contains('\0')
}

/// A query of the default group, or of none, never leads to an entry.
pub proof fn law_default_group_is_left_out(domain: Seq<char>, qtype: i32)
    ensures
        !is_wanted("default"@, domain, qtype),
        !is_wanted(Seq::empty(), domain, qtype),
{
}

/// A completed query that can lead to an entry.
pub struct Query {
    group: String,
    domain: String,
    qtype: i32,
}

impl Query {
    /// The group that the query belongs to.
    pub closed spec fn group(self) -> Seq<char> {
        self.group@
    }

    /// The domain that was asked for.
    pub closed spec fn domain(self) -> Seq<char> {
        self.domain@
    }

    /// The record type that was asked for.
    pub closed spec fn qtype(self) -> i32 {
        self.qtype
    }

    /// Whether the query can lead to an entry.
    pub open spec fn wf(self) -> bool {
        is_wanted(self.group(), self.domain(), self.qtype())
    }

    /// Accepts a completed query that can lead to an entry.
    pub fn accept(group: String, domain: String, qtype: i32) -> (query: Option<Query>)
        ensures
            match query {
                Some(q) => {
                    &&& q.wf()
                    &&& q.group() == group@
                    &&& q.domain() == domain@
                    &&& q.qtype() == qtype
                },
                None => !is_wanted(group@, domain@, qtype),
            },
    {
        if group.as_str().is_empty() || same_text(group.as_str(), "default") {
            return None;
        }
        if qtype != DNS_T_A && qtype != DNS_T_AAAA {
            return None;
        }
        if has_char(domain.as_str(), '\0') || has_char(group.as_str(), '\0') {
            return None;
        }
        Some(Query { group, domain, qtype })
    }

    /// The group that the query belongs to.
    pub fn get_group(&self) -> (group: &str)
        ensures
            group@ == self.group(),
    {
        self.group.as_str()
    }

    /// The domain that was asked for.
    pub fn get_domain(&self) -> (domain: &str)
        ensures
            domain@ == self.domain(),
    {
        self.domain.as_str()
    }

    /// The record type that was asked for.
    pub fn get_qtype(&self) -> (qtype: i32)
        ensures
            qtype == self.qtype(),
    {
        self.qtype
    }

    /// The job for the worker, where the cache holds an address for the query and
    /// the address may stand in an address list.
    pub fn resolve(self, result: Option<DnsResult>) -> (job: Option<ResolvedJob>)
        requires
            self.wf(),
        ensures
            match job {
                Some(j) => {
                    &&& result matches Some(r) && j.ip@ == r.ip@ && j.ttl == r.ttl
                    &&& valid_ip(j.ip@)
                    &&& j.group@ == self.group()
                    &&& j.domain@ == self.domain()
                    &&& j.qtype == self.qtype()
                    &&& is_wanted(j.group@, j.domain@, j.qtype)
                },
                None => result matches Some(r) ==> !valid_ip(r.ip@),
            },
    {
        match result {
            Some(r) => {
                if !is_valid_ip(r.ip.as_str()) {
                    return None;
                }
                Some(
                    ResolvedJob {
                        domain: self.domain,
                        group: self.group,
                        ip: r.ip,
                        ttl: r.ttl,
                        qtype: self.qtype,
                    },
                )
            },
            None => None,
        }
    }
}

/// What happens to the plugin.
pub enum PluginEvent {
    /// It is started, with these settings.
    Start(ConfigValues),
    /// It is stopped.
    Stop,
}

/// The state of the plugin: its configuration, whether its worker was started, and
/// whether the plugin has stopped.
#[verifier::ext_equal]
pub struct PluginView {
    pub address: Seq<char>,
    pub username: Seq<char>,
    pub password: Seq<char>,
    pub ssl: bool,
    pub started: bool,
    pub stopped: bool,
}

impl PluginView {
    /// A plugin that nothing has happened to.
    pub open spec fn fresh() -> PluginView {
        PluginView {
            address: Seq::empty(),
            username: Seq::empty(),
            password: Seq::empty(),
            ssl: false,
            started: false,
            stopped: false,
        }
    }

    /// The plugin once it has taken over the settings that are set.
    pub open spec fn loaded(self, values: ConfigValues) -> PluginView {
        PluginView {
            address: setting(self.address, values.address),
            username: setting(self.username, values.username),
            password: setting(self.password, values.password),
            ssl: match values.ssl {
                Some(v) => switches_on(v@),
                None => self.ssl,
            },
            ..self
        }
    }

    /// The error that the configuration is refused with, where it is.
    pub open spec fn error(self) -> Option<Seq<char>> {
        config_error(self.address, self.username, self.password)
    }

    /// Whether the configuration is refused, or its address can be split.
    pub open spec fn can_start(self, values: ConfigValues) -> bool {
        self.loaded(values).error() is None ==> can_be_split(self.loaded(values).address)
    }

    /// Whether `event` is a start with a complete configuration.
    pub open spec fn succeeds(self, event: PluginEvent) -> bool {
        event matches PluginEvent::Start(values) && self.loaded(values).error() is None
    }

    /// Whether `event` starts the worker.
    pub open spec fn starts_worker(self, event: PluginEvent) -> bool {
        self.succeeds(event) && !self.started
    }

    /// The state that follows on `event`.
    pub open spec fn after(self, event: PluginEvent) -> PluginView {
        match event {
            PluginEvent::Start(values) => PluginView {
                started: self.started || self.succeeds(event),
                ..self.loaded(values)
            },
            PluginEvent::Stop => PluginView { stopped: true, ..self },
        }
    }

    /// The state that follows on all of `events`.
    pub open spec fn run(self, events: Seq<PluginEvent>) -> PluginView
        decreases events.len(),
    {
        if events.len() == 0 {
            self
        } else {
            self.run(events.drop_last()).after(events.last())
        }
    }

    /// The state that the event at index `i` meets.
    pub open spec fn before(self, events: Seq<PluginEvent>, i: int) -> PluginView {
        self.run(events.take(i))
    }

    /// Whether the event at index `i` is a start with a complete configuration.
    pub open spec fn succeeds_at(self, events: Seq<PluginEvent>, i: int) -> bool {
        self.before(events, i).succeeds(events[i])
    }
}

/// The plugin has stopped once it was stopped, whatever happens before or behind
/// it, and not otherwise.
pub proof fn law_stop_is_final(state: PluginView, events: Seq<PluginEvent>)
    ensures
        state.run(events).stopped <==> state.stopped || exists|i: int|
            0 <= i < events.len() && #[trigger] events[i] is Stop,
    decreases events.len(),
{
    if events.len() > 0 {
        let front = events.drop_last();
        law_stop_is_final(state, front);
        assert forall|i: int| 0 <= i < front.len() implies front[i] == events[i] by {}
        if front.len() > 0 && exists|i: int| 0 <= i < front.len() && #[trigger] front[i] is Stop {
            let i = choose|i: int| 0 <= i < front.len() && #[trigger] front[i] is Stop;
            assert(events[i] is Stop);
        }
        if exists|i: int| 0 <= i < events.len() && #[trigger] events[i] is Stop {
            let i = choose|i: int| 0 <= i < events.len() && #[trigger] events[i] is Stop;
            if i < front.len() {
                assert(front[i] is Stop);
            }
        }
    }
}

/// What an event meets depends only on those before it.
proof fn lemma_succeeds_in_prefix(state: PluginView, events: Seq<PluginEvent>, n: int, i: int)
    requires
        0 <= i < n <= events.len(),
    ensures
        state.succeeds_at(events.take(n), i) == state.succeeds_at(events, i),
{
    assert(events.take(n).take(i) =~= events.take(i));
}

/// The worker was started once a start has succeeded, and not otherwise.
proof fn lemma_started_by_success(state: PluginView, events: Seq<PluginEvent>)
    ensures
        state.run(events).started <==> state.started || exists|i: int|
            0 <= i < events.len() && #[trigger] state.succeeds_at(events, i),
    decreases events.len(),
{
    if events.len() > 0 {
        let n = events.len() - 1;
        let front = events.take(n);
        assert(events.drop_last() =~= front);
        lemma_started_by_success(state, front);
        assert(state.run(events).started == (state.run(front).started || state.succeeds_at(
            events,
            n,
        )));
        assert forall|i: int| 0 <= i < n implies state.succeeds_at(front, i)
            == #[trigger] state.succeeds_at(events, i) by {
            lemma_succeeds_in_prefix(state, events, n, i);
        }
        if exists|i: int| 0 <= i < n && #[trigger] state.succeeds_at(front, i) {
            let i = choose|i: int| 0 <= i < n && #[trigger] state.succeeds_at(front, i);
            lemma_succeeds_in_prefix(state, events, n, i);
            assert(state.succeeds_at(events, i));
        }
    }
}

/// The first start that succeeds starts the worker, and no other event does: a
/// start that was refused neither starts it nor keeps a later one from doing so,
/// and no second worker is started.
pub proof fn law_first_success_starts_the_one_worker(events: Seq<PluginEvent>, i: int)
    requires
        0 <= i < events.len(),
    ensures
        PluginView::fresh().before(events, i).starts_worker(events[i]) <==> {
            &&& PluginView::fresh().succeeds_at(events, i)
            &&& forall|j: int|
                0 <= j < i ==> !#[trigger] PluginView::fresh().succeeds_at(events, j)
        },
{
    let fresh = PluginView::fresh();
    let earlier = events.take(i);
    lemma_started_by_success(fresh, earlier);
    assert forall|j: int| 0 <= j < i implies fresh.succeeds_at(earlier, j)
        == #[trigger] fresh.succeeds_at(events, j) by {
        lemma_succeeds_in_prefix(fresh, events, i, j);
    }
    if fresh.run(earlier).started {
        let j = choose|j: int| 0 <= j < i && #[trigger] fresh.succeeds_at(earlier, j);
        lemma_succeeds_in_prefix(fresh, events, i, j);
        assert(fresh.succeeds_at(events, j));
    }
}

/// A start fails exactly where the address, the user name or the password is empty
/// once the settings are taken over, and changes nothing but the configuration.
pub proof fn law_failed_start_spoils_nothing(state: PluginView, values: ConfigValues)
    ensures
        !state.succeeds(PluginEvent::Start(values)) <==> {
            ||| setting(state.address, values.address).len() == 0
            ||| setting(state.username, values.username).len() == 0
            ||| setting(state.password, values.password).len() == 0
        },
        !state.succeeds(PluginEvent::Start(values)) ==> state.after(PluginEvent::Start(values))
            == state.loaded(values),
        state.loaded(values).started == state.started,
        state.loaded(values).stopped == state.stopped,
{
}

/// The plugin: its configuration, and how far its life has come.
pub struct MikrotikPlugin {
    config: MikrotikPluginConfig,
    started: bool,
    stopped: bool,
}

impl View for MikrotikPlugin {
    type V = PluginView;

    closed spec fn view(&self) -> PluginView {
        PluginView {
            address: self.config.address@,
            username: self.config.username@,
            password: self.config.password@,
            ssl: self.config.ssl,
            started: self.started,
            stopped: self.stopped,
        }
    }
}

/// Whether these are the group, domain and record type that a request can answer.
pub open spec fn answers<R: DnsRequest + ?Sized>(
    request: &R,
    group: String,
    domain: String,
    qtype: u32,
) -> bool {
    &&& call_ensures(R::get_group_name, (request,), group)
    &&& call_ensures(R::get_domain, (request,), domain)
    &&& call_ensures(R::get_qtype, (request,), qtype)
}

/// Whether a setting is empty after a value for it may have been given.
fn stays_empty(before: &String, value: &Option<String>) -> (empty: bool)
    ensures
        empty == (setting(before@, *value).len() == 0),
{
    match value {
        Some(v) => v.as_str().is_empty(),
        None => before.as_str().is_empty(),
    }
}

impl MikrotikPlugin {
    /// A plugin that nothing has happened to.
    pub fn new() -> (plugin: Self)
        ensures
            plugin@ == PluginView::fresh(),
    {
        let plugin = MikrotikPlugin {
            config: MikrotikPluginConfig::default(),
            started: false,
            stopped: false,
        };
        assert(plugin@ =~= PluginView::fresh());
        plugin
    }

    /// Whether `start` can take the settings.
    pub fn check_start(&self, values: &ConfigValues) -> (ok: bool)
        ensures
            ok == self@.can_start(*values),
    {
        if stays_empty(&self.config.address, &values.address) || stays_empty(
            &self.config.username,
            &values.username,
        ) || stays_empty(&self.config.password, &values.password) {
            return true;
        }
        match &values.address {
            Some(address) => check_address(address.as_str()),
            None => check_address(self.config.address.as_str()),
        }
    }

    /// Starts the plugin with the settings that are set. The first start that
    /// succeeds gives the target that the one worker connects to.
    pub fn start(&mut self, values: ConfigValues) -> (worker: Result<Option<Target>, String>)
        requires
            old(self)@.can_start(values),
        ensures
            final(self)@ == old(self)@.after(PluginEvent::Start(values)),
            match worker {
                Ok(Some(t)) => {
                    &&& old(self)@.starts_worker(PluginEvent::Start(values))
                    &&& (t.host@, t.port as nat) == host_and_port(
                        final(self)@.address,
                        final(self)@.ssl,
                    )
                    &&& t.ssl == final(self)@.ssl
                    &&& t.username@ == final(self)@.username
                    &&& t.password@ == final(self)@.password
                },
                Ok(None) => old(self)@.succeeds(PluginEvent::Start(values)) && old(self)@.started,
                Err(e) => old(self)@.loaded(values).error() == Some(e@),
            },
    {
        let ghost before = self@;
        let ghost given = values;
        match self.config.start(values) {
            Ok(target) => {
                let first = !self.started;
                self.started = true;
                assert(self@ =~= before.after(PluginEvent::Start(given)));
                if first {
                    Ok(Some(target))
                } else {
                    Ok(None)
                }
            },
            Err(e) => {
                assert(self@ =~= before.after(PluginEvent::Start(given)));
                Err(e)
            },
        }
    }

    /// Stops the plugin, for good.
    pub fn stop(&mut self)
        ensures
            final(self)@ == old(self)@.after(PluginEvent::Stop),
    {
        self.stopped = true;
        assert(self@ =~= old(self)@.after(PluginEvent::Stop));
    }

    /// Accepts a completed query that can lead to an entry, unless the plugin has
    /// stopped.
    pub fn accept(&self, group: String, domain: String, qtype: i32) -> (query: Option<Query>)
        ensures
            match query {
                Some(q) => {
                    &&& !self@.stopped
                    &&& q.wf()
                    &&& q.group() == group@
                    &&& q.domain() == domain@
                    &&& q.qtype() == qtype
                },
                None => self@.stopped || !is_wanted(group@, domain@, qtype),
            },
    {
        if self.stopped {
            return None;
        }
        Query::accept(group, domain, qtype)
    }

    /// Accepts a completed query that can lead to an entry, judged by what the
    /// request answers. Once the plugin has stopped, the request is not read any
    /// more, and nothing is accepted.
    pub fn query_complete<R: DnsRequest + ?Sized>(&self, request: &R) -> (query: Option<Query>)
        ensures
            self@.stopped ==> query is None,
            !self@.stopped ==> exists|group: String, domain: String, qtype: u32|
                #[trigger] answers(request, group, domain, qtype) && (match query {
                    Some(q) => {
                        &&& q.wf()
                        &&& q.group() == group@
                        &&& q.domain() == domain@
                        &&& q.qtype() == qtype as i32
                    },
                    None => !is_wanted(group@, domain@, qtype as i32),
                }),
    {
        if self.stopped {
            return None;
        }
        let group = request.get_group_name();
        let domain = request.get_domain();
        let qtype = request.get_qtype();
        assert(answers(request, group, domain, qtype));
        self.accept(group, domain, qtype as i32)
    }
}

} // verus!
