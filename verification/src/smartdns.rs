//! The side of the plugin that faces smartdns: DNS packets out of its cache, its
//! log levels, and the plugin's registration.

use crate::ip::{
    dotted, format_ipv4, format_ipv6, ipv6_text, law_ipv4_text_round_trip,
    law_ipv6_text_round_trip, lemma_ipv6_text_is_not_dotted, octets_of, segments_of,
};
use vstd::prelude::*;

verus! {

/// The DNS record type of IPv4 addresses.
pub const DNS_T_A: i32 = 1;

/// The DNS record type of IPv6 addresses.
pub const DNS_T_AAAA: i32 = 28;

/// The size of a DNS packet's header.
pub const DNS_HEADER_SIZE: usize = 12;

/// The size of the largest DNS packet.
pub const DNS_PACKET_MAX_SIZE: usize = 65535;

/// The most labels that a DNS name may have.
pub const DNS_NAME_MAX_LABELS: u8 = 127;

/// A result out of the DNS cache for a completed query.
#[derive(Debug, Clone)]
pub struct DnsResult {
    pub ip: String,
    pub addr_type: i32,
    pub ttl: u32,
}

/// A position in a packet, where it is one that can be counted to.
pub open spec fn countable(pos: int) -> Option<int> {
    if pos <= usize::MAX {
        Some(pos)
    } else {
        None
    }
}

/// The position behind the DNS name at `pos`, of which `labels` labels have been
/// passed. A zero byte ends a name, and so does a compression pointer, which
/// takes two bytes; any other byte holds the length of a label in its lower six
/// bits.
pub open spec fn name_end(packet: Seq<u8>, pos: int, labels: int) -> Option<int>
    decreases DNS_NAME_MAX_LABELS - labels,
{
    if pos < 0 || pos >= packet.len() {
        None
    } else if packet[pos] == 0 {
        Some(pos + 1)
    } else if packet[pos] >= 0xc0 {
        countable(pos + 2)
    } else if labels >= DNS_NAME_MAX_LABELS {
        None
    } else {
        name_end(packet, pos + packet[pos] % 64 + 1, labels + 1)
    }
}

/// The position behind `count` questions that start at `pos`: each is a name and
/// four bytes for its type and class.
pub open spec fn questions_end(packet: Seq<u8>, pos: int, count: nat) -> Option<int>
    decreases count,
{
    if count == 0 {
        Some(pos)
    } else {
        match name_end(packet, pos, 0) {
            Some(end) => if end + 4 <= usize::MAX {
                questions_end(packet, end + 4, (count - 1) as nat)
            } else {
                None
            },
            None => None,
        }
    }
}

/// The big-endian number in the two bytes at `pos`.
pub open spec fn be16(packet: Seq<u8>, pos: int) -> int {
    packet[pos] * 0x100 + packet[pos + 1]
}

/// The big-endian number in the four bytes at `pos`.
pub open spec fn be32(packet: Seq<u8>, pos: int) -> int {
    be16(packet, pos) * 0x10000 + be16(packet, pos + 2)
}

/// The eight groups of the IPv6 address in the sixteen bytes at `pos`.
pub open spec fn segments_at(packet: Seq<u8>, pos: int) -> Seq<u16> {
    Seq::new(8, |i: int| be16(packet, pos + 2 * i) as u16)
}

/// The address in the record data of `len` bytes at `pos`, where the record is of
/// the type that `qtype` asks for and holds one address of that type.
pub open spec fn record_address(
    packet: Seq<u8>,
    rtype: int,
    qtype: i32,
    pos: int,
    len: int,
) -> Option<Seq<char>> {
    if qtype == DNS_T_A && rtype == DNS_T_A && len == 4 {
        Some(dotted(packet.subrange(pos, pos + 4)))
    } else if qtype == DNS_T_AAAA && rtype == DNS_T_AAAA && len == 16 {
        Some(ipv6_text(segments_at(packet, pos)))
    } else {
        None
    }
}

/// The address and time to live of the first of `count` records from `pos` on
/// that holds an address of type `qtype`. A record is a name; its type, class,
/// time to live and data length in ten bytes; and its data. A record that does
/// not lie in the packet ends the search.
pub open spec fn first_address(packet: Seq<u8>, pos: int, count: nat, qtype: i32) -> Option<
    (Seq<char>, u32),
>
    decreases count,
{
    if count == 0 {
        None
    } else {
        match name_end(packet, pos, 0) {
            Some(head) => {
                let data = head + 10;
                let len = be16(packet, head + 8);
                if data > packet.len() || data + len > packet.len() {
                    None
                } else {
                    match record_address(packet, be16(packet, head), qtype, data, len) {
                        Some(address) => Some((address, be32(packet, head + 4) as u32)),
                        None => first_address(packet, data + len, (count - 1) as nat, qtype),
                    }
                }
            },
            None => None,
        }
    }
}

/// The first address of type `qtype` among the answers of a DNS packet, with the
/// time to live of its record.
pub open spec fn packet_address(packet: Seq<u8>, qtype: i32) -> Option<(Seq<char>, u32)> {
    if packet.len() < DNS_HEADER_SIZE {
        None
    } else {
        match questions_end(packet, DNS_HEADER_SIZE as int, be16(packet, 4) as nat) {
            Some(pos) => first_address(packet, pos, be16(packet, 6) as nat, qtype),
            None => None,
        }
    }
}

/// A name that ends does so behind its start, which lies in the packet.
pub proof fn lemma_name_end_is_behind(packet: Seq<u8>, pos: int, labels: int)
    ensures
        name_end(packet, pos, labels) matches Some(end) ==> 0 <= pos < end,
    decreases DNS_NAME_MAX_LABELS - labels,
{
    if 0 <= pos < packet.len() && labels < DNS_NAME_MAX_LABELS {
        lemma_name_end_is_behind(packet, pos + packet[pos] % 64 + 1, labels + 1);
    }
}

/// Where a name ends depends only on the bytes from its start on: the same bytes
/// behind any others give the same end, as much further on.
pub proof fn law_name_end_depends_on_what_follows(
    prefix: Seq<u8>,
    packet: Seq<u8>,
    pos: int,
    labels: int,
)
    requires
        0 <= pos,
        prefix.len() + packet.len() < usize::MAX,
    ensures
        name_end(prefix + packet, prefix.len() + pos, labels) == (match name_end(
            packet,
            pos,
            labels,
        ) {
            Some(end) => Some(prefix.len() + end),
            None => None,
        }),
    decreases DNS_NAME_MAX_LABELS - labels,
{
    if pos < packet.len() {
        assert((prefix + packet)[prefix.len() + pos] == packet[pos]);
        if labels < DNS_NAME_MAX_LABELS {
            let next = pos + packet[pos] % 64 + 1;
            law_name_end_depends_on_what_follows(prefix, packet, next, labels + 1);
            assert(prefix.len() + next == prefix.len() + pos + packet[pos] % 64 + 1);
        }
    }
}

/// What is found among the records of a packet is an address of the type that was
/// asked for.
proof fn lemma_first_address_type(packet: Seq<u8>, pos: int, count: nat, qtype: i32)
    ensures
        first_address(packet, pos, count, qtype) matches Some((ip, _ttl)) ==> {
            ||| qtype == DNS_T_A && octets_of(ip) is Some
            ||| qtype == DNS_T_AAAA && segments_of(ip) is Some && octets_of(ip) is None
        },
    decreases count,
{
    if count > 0 {
        lemma_name_end_is_behind(packet, pos, 0);
        if let Some(head) = name_end(packet, pos, 0) {
            let data = head + 10;
            let len = be16(packet, head + 8);
            if data + len <= packet.len() {
                if let Some(ip) = record_address(packet, be16(packet, head), qtype, data, len) {
                    if qtype == DNS_T_A {
                        law_ipv4_text_round_trip(packet.subrange(data, data + 4));
                    } else {
                        law_ipv6_text_round_trip(segments_at(packet, data));
                        lemma_ipv6_text_is_not_dotted(segments_at(packet, data));
                    }
                } else {
                    lemma_first_address_type(packet, data + len, (count - 1) as nat, qtype);
                }
            }
        }
    }
}

/// A packet gives an IPv4 address where one is asked for, an IPv6 address where
/// one is asked for, and nothing for any other record type.
pub proof fn law_packet_address_has_the_type_asked_for(packet: Seq<u8>, qtype: i32)
    ensures
        packet_address(packet, qtype) matches Some((ip, _ttl)) ==> {
            ||| qtype == DNS_T_A && octets_of(ip) is Some
            ||| qtype == DNS_T_AAAA && segments_of(ip) is Some && octets_of(ip) is None
        },
        qtype != DNS_T_A && qtype != DNS_T_AAAA ==> packet_address(packet, qtype) is None,
{
    if packet.len() >= DNS_HEADER_SIZE {
        if let Some(pos) = questions_end(packet, DNS_HEADER_SIZE as int, be16(packet, 4) as nat) {
            lemma_first_address_type(packet, pos, be16(packet, 6) as nat, qtype);
        }
    }
}

/// Skips a DNS name, with its labels and compression pointers.
pub fn skip_dns_name(packet: &[u8], pos: usize) -> (end: Option<usize>)
    ensures
        match end {
            Some(e) => name_end(packet@, pos as int, 0) == Some(e as int),
            None => name_end(packet@, pos as int, 0) is None,
        },
{
    let mut at: usize = pos;
    let mut labels: u8 = 0;
    loop
        invariant
            labels <= DNS_NAME_MAX_LABELS,
            name_end(packet@, pos as int, 0) == name_end(packet@, at as int, labels as int),
        decreases DNS_NAME_MAX_LABELS - labels,
    {
        if at >= packet.len() {
            return None;
        }
        let b = packet[at];
        if b == 0 {
            return Some(at + 1);
        }
        assert((b & 0xc0 == 0xc0) == (b >= 0xc0)) by (bit_vector);
        if b & 0xc0 == 0xc0 {
            return at.checked_add(2);
        }
        assert(b & 0x3f == b % 64) by (bit_vector);
        let len: usize = (b & 0x3f) as usize;
        if labels >= DNS_NAME_MAX_LABELS {
            return None;
        }
        match at.checked_add(len + 1) {
            Some(next) => {
                at = next;
            },
            None => {
                proof {
                    reveal_with_fuel(name_end, 2);
                }
                return None;
            },
        }
        labels += 1;
    }
}

/// The big-endian number in the two bytes at `pos`.
fn read16(packet: &[u8], pos: usize) -> (n: u16)
    requires
        pos + 1 < packet.len(),
    ensures
        n == be16(packet@, pos as int),
{
    packet[pos] as u16 * 0x100 + packet[pos + 1] as u16
}

/// The big-endian number in the four bytes at `pos`.
fn read32(packet: &[u8], pos: usize) -> (n: u32)
    requires
        pos + 3 < packet.len(),
    ensures
        n == be32(packet@, pos as int),
{
    read16(packet, pos) as u32 * 0x10000 + read16(packet, pos + 2) as u32
}

/// The text form of the IPv6 address in the sixteen bytes at `pos`.
fn ipv6_at(packet: &[u8], pos: usize) -> (text: String)
    requires
        pos + 16 <= packet.len(),
    ensures
        text@ == ipv6_text(segments_at(packet@, pos as int)),
{
    let segments: [u16; 8] = [
        read16(packet, pos),
        read16(packet, pos + 2),
        read16(packet, pos + 4),
        read16(packet, pos + 6),
        read16(packet, pos + 8),
        read16(packet, pos + 10),
        read16(packet, pos + 12),
        read16(packet, pos + 14),
    ];
    assert(segments@ =~= segments_at(packet@, pos as int));
    format_ipv6(&segments)
}

/// Parses a raw DNS response packet and extracts the first A or AAAA record.
/// Returns the address in text form and the record's time to live.
pub fn parse_dns_packet_for_ip(packet: &[u8], qtype: i32) -> (found: Option<(String, u32)>)
    ensures
        match found {
            Some((ip, ttl)) => packet_address(packet@, qtype) == Some((ip@, ttl)),
            None => packet_address(packet@, qtype) is None,
        },
{
    if packet.len() < DNS_HEADER_SIZE {
        return None;
    }
    let answers = read16(packet, 6);
    if answers == 0 {
        return None;
    }
    let questions = read16(packet, 4);
    let mut pos: usize = DNS_HEADER_SIZE;
    let mut left: u16 = questions;
    while left > 0
        invariant
            questions_end(packet@, DNS_HEADER_SIZE as int, questions as nat) == questions_end(
                packet@,
                pos as int,
                left as nat,
            ),
            packet@.len() >= DNS_HEADER_SIZE,
            questions == be16(packet@, 4),
        decreases left,
    {
        match skip_dns_name(packet, pos) {
            Some(end) => match end.checked_add(4) {
                Some(next) => {
                    pos = next;
                },
                None => {
                    return None;
                },
            },
            None => {
                return None;
            },
        }
        left -= 1;
    }
    left = answers;
    while left > 0
        invariant
            packet_address(packet@, qtype) == first_address(
                packet@,
                pos as int,
                left as nat,
                qtype,
            ),
        decreases left,
    {
        let head = match skip_dns_name(packet, pos) {
            Some(end) => end,
            None => {
                return None;
            },
        };
        if packet.len() < 10 || head > packet.len() - 10 {
            return None;
        }
        let rtype = read16(packet, head);
        let ttl = read32(packet, head + 4);
        let len: usize = read16(packet, head + 8) as usize;
        let data: usize = head + 10;
        if len > packet.len() - data {
            return None;
        }
        if qtype == DNS_T_A && rtype == 1 && len == 4 {
            let octets: [u8; 4] = [
                packet[data],
                packet[data + 1],
                packet[data + 2],
                packet[data + 3],
            ];
            assert(octets@ =~= packet@.subrange(data as int, data + 4));
            return Some((format_ipv4(octets), ttl));
        }
        if qtype == DNS_T_AAAA && rtype == 28 && len == 16 {
            return Some((ipv6_at(packet, data), ttl));
        }
        pos = data + len;
        left -= 1;
    }
    None
}

/// Whether a packet of `len` bytes can hold a DNS header and is no larger than a
/// DNS packet can be.
pub open spec fn is_packet_size(len: int) -> bool {
    DNS_HEADER_SIZE <= len <= DNS_PACKET_MAX_SIZE
}

/// The result for a cached packet that has `ttl` seconds left in the cache.
///
/// The time to live is the cache's, never the record's: a record's can be zero,
/// and the router takes an entry with a timeout of zero as permanent.
pub fn cached_result(packet: &[u8], qtype: i32, ttl: u32) -> (result: Option<DnsResult>)
    ensures
        match result {
            Some(r) => {
                &&& packet_address(packet@, qtype) matches Some((ip, _record_ttl)) && r.ip@ == ip
                &&& r.addr_type == qtype
                &&& r.ttl == ttl
            },
            None => packet_address(packet@, qtype) is None,
        },
{
    match parse_dns_packet_for_ip(packet, qtype) {
        Some((ip, _record_ttl)) => Some(DnsResult { ip, addr_type: qtype, ttl }),
        None => None,
    }
}

/// How far a lookup in the DNS cache has come.
#[derive(Debug, Clone, Copy, PartialEq, Eq, Structural)]
pub enum LookupStage {
    /// Looking for the cache entry.
    Searching,
    /// Holding the entry, about to read its time to live.
    ReadingTtl,
    /// Holding the entry, about to take its data.
    ReadingData,
    /// Holding the entry and its data, about to read the packet of this size.
    ReadingPacket(usize),
    /// Holding the entry and its data, about to put the data back.
    PuttingData,
    /// Holding the entry, about to release it.
    Releasing,
    /// Holding nothing; the lookup is over.
    Finished,
}

/// What the cache answered to the last request of a lookup.
pub enum LookupEvent<'a> {
    /// The cache holds an entry, which is now held.
    CacheFound,
    /// The cache holds no entry.
    CacheMissing,
    /// The seconds that the entry has left.
    Ttl(u32),
    /// The entry's data, now held, has this size.
    Data(usize),
    /// The entry has no data.
    DataMissing,
    /// The bytes of the packet, as many as its size says.
    Packet(&'a [u8]),
    /// The data has been put back.
    DataPut,
    /// The entry has been released.
    CacheReleased,
}

impl LookupStage {
    /// Whether a reference to the cache entry is held.
    pub open spec fn holds_cache(self) -> bool {
        self != LookupStage::Searching && self != LookupStage::Finished
    }

    /// Whether a reference to the entry's data is held.
    pub open spec fn holds_data(self) -> bool {
        self is ReadingPacket || self is PuttingData
    }

    /// The stage that follows on `event`. An event that answers no request of
    /// this stage changes nothing.
    pub open spec fn after(self, event: LookupEvent) -> LookupStage {
        match (self, event) {
            (LookupStage::Searching, LookupEvent::CacheFound) => LookupStage::ReadingTtl,
            (LookupStage::Searching, LookupEvent::CacheMissing) => LookupStage::Finished,
            (LookupStage::ReadingTtl, LookupEvent::Ttl(ttl)) => if ttl == 0 {
                LookupStage::Releasing
            } else {
                LookupStage::ReadingData
            },
            (LookupStage::ReadingData, LookupEvent::DataMissing) => LookupStage::Releasing,
            (LookupStage::ReadingData, LookupEvent::Data(size)) => if is_packet_size(size as int) {
                LookupStage::ReadingPacket(size)
            } else {
                LookupStage::PuttingData
            },
            (LookupStage::ReadingPacket(size), LookupEvent::Packet(packet)) => if packet@.len()
                == size {
                LookupStage::PuttingData
            } else {
                self
            },
            (LookupStage::PuttingData, LookupEvent::DataPut) => LookupStage::Releasing,
            (LookupStage::Releasing, LookupEvent::CacheReleased) => LookupStage::Finished,
            _ => self,
        }
    }

    /// The steps that are still ahead, at most.
    pub open spec fn ahead(self) -> nat {
        match self {
            LookupStage::Searching => 6,
            LookupStage::ReadingTtl => 5,
            LookupStage::ReadingData => 4,
            LookupStage::ReadingPacket(_) => 3,
            LookupStage::PuttingData => 2,
            LookupStage::Releasing => 1,
            LookupStage::Finished => 0,
        }
    }

    /// Whether `event` answers the request of this stage.
    pub open spec fn expects(self, event: LookupEvent) -> bool {
        match self {
            LookupStage::Searching => event is CacheFound || event is CacheMissing,
            LookupStage::ReadingTtl => event is Ttl,
            LookupStage::ReadingData => event is Data || event is DataMissing,
            LookupStage::ReadingPacket(size) => event matches LookupEvent::Packet(packet)
                && packet@.len() == size,
            LookupStage::PuttingData => event is DataPut,
            LookupStage::Releasing => event is CacheReleased,
            LookupStage::Finished => false,
        }
    }
}

/// A reference that a lookup took is given back before the lookup is over, and
/// only then: an entry is held from the moment it is found until it is released,
/// its data from the moment it is taken until it is put back, and nothing is held
/// at the end. Every answer brings the end nearer.
pub proof fn law_lookup_releases_what_it_took(stage: LookupStage, event: LookupEvent)
    requires
        stage.expects(event),
    ensures
        stage.after(event).holds_cache() == (event is CacheFound || (stage.holds_cache()
            && !(event is CacheReleased))),
        stage.after(event).holds_data() == (event is Data || (stage.holds_data()
            && !(event is DataPut))),
        stage.after(event).holds_data() ==> stage.after(event).holds_cache(),
        stage.after(event).ahead() < stage.ahead(),
        event is DataPut ==> stage.holds_data(),
        event is CacheReleased ==> stage.holds_cache() && !stage.holds_data(),
        stage.after(event) == LookupStage::Finished ==> !stage.after(event).holds_cache()
            && !stage.after(event).holds_data(),
{
}

/// A packet is read only once data of a size that a packet can have was taken, and
/// what is read has that size.
pub proof fn law_packet_has_the_size_of_its_data(
    stage: LookupStage,
    event: LookupEvent,
    size: usize,
)
    requires
        stage.expects(event),
    ensures
        stage.after(event) == LookupStage::ReadingPacket(size) <==> event == LookupEvent::Data(size)
            && is_packet_size(size as int),
        event matches LookupEvent::Packet(packet) ==> stage == LookupStage::ReadingPacket(
            packet@.len() as usize,
        ),
{
}

/// A lookup of one address in the DNS cache, as a machine: the caller does what
/// the stage says and hands back what came of it.
pub struct CacheLookup {
    qtype: i32,
    ttl: u32,
    stage: LookupStage,
    result: Option<DnsResult>,
}

impl CacheLookup {
    /// The record type that is looked for.
    pub closed spec fn qtype(self) -> i32 {
        self.qtype
    }

    /// The time to live that the cache gave, once it is read.
    pub closed spec fn ttl(self) -> u32 {
        self.ttl
    }

    /// How far the lookup has come.
    pub closed spec fn at(self) -> LookupStage {
        self.stage
    }

    /// The address found so far, in text form.
    pub closed spec fn found(self) -> Option<Seq<char>> {
        match self.result {
            Some(r) => Some(r.ip@),
            None => None,
        }
    }

    /// Whether what was found carries the record type that is looked for and the
    /// cache's time to live, which is not zero, and was found by reading a packet.
    pub closed spec fn wf(self) -> bool {
        &&& self.result matches Some(r) ==> r.addr_type == self.qtype && r.ttl == self.ttl
        &&& self.stage is ReadingData || self.stage is ReadingPacket || self.result is Some
            ==> self.ttl > 0
        &&& self.stage.ahead() > 2 ==> self.result is None
    }

    /// A lookup for an address of the record type `qtype`.
    pub fn new(qtype: i32) -> (lookup: Self)
        ensures
            lookup.wf(),
            lookup.qtype() == qtype,
            lookup.at() == LookupStage::Searching,
            lookup.found() is None,
    {
        CacheLookup { qtype, ttl: 0, stage: LookupStage::Searching, result: None }
    }

    /// What is to be done next.
    pub fn stage(&self) -> (stage: LookupStage)
        ensures
            stage == self.at(),
    {
        self.stage
    }

    /// Takes the answer to the request of the current stage.
    pub fn step(&mut self, event: LookupEvent)
        requires
            old(self).wf(),
        ensures
            final(self).wf(),
            final(self).qtype() == old(self).qtype(),
            final(self).at() == old(self).at().after(event),
            final(self).ttl() == (match (old(self).at(), event) {
                (LookupStage::ReadingTtl, LookupEvent::Ttl(ttl)) => ttl,
                _ => old(self).ttl(),
            }),
            final(self).found() == (match (old(self).at(), event) {
                (LookupStage::ReadingPacket(size), LookupEvent::Packet(packet)) => if packet@.len()
                    == size {
                    match packet_address(packet@, old(self).qtype()) {
                        Some((ip, _record_ttl)) => Some(ip),
                        None => None,
                    }
                } else {
                    old(self).found()
                },
                _ => old(self).found(),
            }),
    {
        match (self.stage, event) {
            (LookupStage::Searching, LookupEvent::CacheFound) => {
                self.stage = LookupStage::ReadingTtl;
            },
            (LookupStage::Searching, LookupEvent::CacheMissing) => {
                self.stage = LookupStage::Finished;
            },
            (LookupStage::ReadingTtl, LookupEvent::Ttl(ttl)) => {
                self.ttl = ttl;
                if ttl == 0 {
                    self.stage = LookupStage::Releasing;
                } else {
                    self.stage = LookupStage::ReadingData;
                }
            },
            (LookupStage::ReadingData, LookupEvent::DataMissing) => {
                self.stage = LookupStage::Releasing;
            },
            (LookupStage::ReadingData, LookupEvent::Data(size)) => {
                if size < DNS_HEADER_SIZE || size > DNS_PACKET_MAX_SIZE {
                    self.stage = LookupStage::PuttingData;
                } else {
                    self.stage = LookupStage::ReadingPacket(size);
                }
            },
            (LookupStage::ReadingPacket(size), LookupEvent::Packet(packet)) => {
                if packet.len() == size {
                    self.result = cached_result(packet, self.qtype, self.ttl);
                    self.stage = LookupStage::PuttingData;
                }
            },
            (LookupStage::PuttingData, LookupEvent::DataPut) => {
                self.stage = LookupStage::Releasing;
            },
            (LookupStage::Releasing, LookupEvent::CacheReleased) => {
                self.stage = LookupStage::Finished;
            },
            _ => {},
        }
    }

    /// The result of the lookup.
    pub fn finish(self) -> (result: Option<DnsResult>)
        requires
            self.wf(),
        ensures
            match result {
                Some(r) => {
                    &&& self.found() == Some(r.ip@)
                    &&& r.addr_type == self.qtype()
                    &&& r.ttl == self.ttl()
                    &&& r.ttl > 0
                },
                None => self.found() is None,
            },
    {
        self.result
    }
}

/// The levels of smartdns's log.
#[derive(Debug, Clone, Copy, PartialEq, Eq, Structural)]
pub enum LogLevel {
    DEBUG,
    INFO,
    NOTICE,
    WARN,
    ERROR,
    FATAL,
    OFF,
}

impl LogLevel {
    /// The number that smartdns gives the level.
    pub open spec fn number(self) -> u32 {
        match self {
            LogLevel::DEBUG => 0,
            LogLevel::INFO => 1,
            LogLevel::NOTICE => 2,
            LogLevel::WARN => 3,
            LogLevel::ERROR => 4,
            LogLevel::FATAL => 5,
            LogLevel::OFF => 6,
        }
    }

    /// The number that smartdns gives the level.
    pub fn code(self) -> (code: u32)
        ensures
            code == self.number(),
    {
        match self {
            LogLevel::DEBUG => 0,
            LogLevel::INFO => 1,
            LogLevel::NOTICE => 2,
            LogLevel::WARN => 3,
            LogLevel::ERROR => 4,
            LogLevel::FATAL => 5,
            LogLevel::OFF => 6,
        }
    }
}

/// The level that has the number `value`.
pub open spec fn level_of(value: u32) -> Result<LogLevel, ()> {
    match value {
        0 => Ok(LogLevel::DEBUG),
        1 => Ok(LogLevel::INFO),
        2 => Ok(LogLevel::NOTICE),
        3 => Ok(LogLevel::WARN),
        4 => Ok(LogLevel::ERROR),
        5 => Ok(LogLevel::FATAL),
        6 => Ok(LogLevel::OFF),
        _ => Err(()),
    }
}

impl vstd::std_specs::convert::TryFromSpecImpl<u32> for LogLevel {
    open spec fn obeys_try_from_spec() -> bool {
        true
    }

    open spec fn try_from_spec(value: u32) -> Result<Self, Self::Error> {
        level_of(value)
    }
}

impl TryFrom<u32> for LogLevel {
    type Error = ();

    fn try_from(value: u32) -> (level: Result<Self, Self::Error>) {
        match value {
            0 => Ok(LogLevel::DEBUG),
            1 => Ok(LogLevel::INFO),
            2 => Ok(LogLevel::NOTICE),
            3 => Ok(LogLevel::WARN),
            4 => Ok(LogLevel::ERROR),
            5 => Ok(LogLevel::FATAL),
            6 => Ok(LogLevel::OFF),
            _ => Err(()),
        }
    }
}

/// A level is found again by its number, and no other number yields a level.
pub proof fn law_log_level_numbers(level: LogLevel, value: u32)
    ensures
        level_of(level.number()) == Ok::<LogLevel, ()>(level),
        level_of(value) is Ok <==> value <= 6,
        level_of(value) matches Ok(l) ==> l.number() == value,
{
}

/// A query that smartdns has completed.
pub trait DnsRequest: Send + Sync {
    /// The name of the group that the query belongs to.
    fn get_group_name(&self) -> String;

    /// The domain that was asked for.
    fn get_domain(&self) -> String;

    /// The record type that was asked for.
    fn get_qtype(&self) -> u32;
}

/// What smartdns calls a plugin for.
pub trait SmartdnsOperations {
    /// A query is complete.
    fn server_query_complete(&self, request: Box<dyn DnsRequest>);

    /// The server starts.
    fn server_init(&mut self, args: &Vec<String>) -> Result<(), String>;

    /// The server ends.
    fn server_exit(&mut self);
}

/// The plugin as smartdns knows it: its arguments and its operations.
pub struct Plugin {
    args: Vec<String>,
    ops: Option<Box<dyn SmartdnsOperations>>,
}

impl Plugin {
    /// The plugin's arguments.
    pub closed spec fn args(self) -> Seq<String> {
        self.args@
    }

    /// The plugin's operations, where they are set.
    pub closed spec fn ops(self) -> Option<Box<dyn SmartdnsOperations>> {
        self.ops
    }

    /// A plugin without arguments or operations.
    pub fn new() -> (plugin: Self)
        ensures
            plugin.args() == Seq::<String>::empty(),
            plugin.ops() is None,
    {
        Plugin { args: Vec::new(), ops: None }
    }

    /// The plugin's arguments.
    pub fn get_args(&self) -> (args: &Vec<String>)
        ensures
            args@ == self.args(),
    {
        &self.args
    }

    /// Sets the plugin's arguments.
    pub fn set_args(&mut self, args: Vec<String>)
        ensures
            final(self).args() == args@,
            final(self).ops() == old(self).ops(),
    {
        self.args = args;
    }

    /// Sets the operations.
    pub fn set_operation(&mut self, ops: Box<dyn SmartdnsOperations>)
        ensures
            final(self).ops() == Some(ops),
            final(self).args() == old(self).args(),
    {
        let set = Some(ops);
        self.ops = set;
    }

    /// The operations, where they are set.
    pub fn operation(&self) -> (ops: Option<&Box<dyn SmartdnsOperations>>)
        ensures
            match ops {
                Some(o) => self.ops() == Some(*o),
                None => self.ops() is None,
            },
    {
        match &self.ops {
            Some(ops) => Some(ops),
            None => None,
        }
    }

    /// The operations, where they are set, to be called or changed.
    pub fn operation_mut(&mut self) -> (ops: Option<&mut Box<dyn SmartdnsOperations>>)
        ensures
            match ops {
                Some(o) => old(self).ops() == Some(*o) && final(self).ops() == Some(*final(o)),
                None => old(self).ops() is None && final(self).ops() is None,
            },
            final(self).args() == old(self).args(),
    {
        match &mut self.ops {
            Some(ops) => Some(ops),
            None => None,
        }
    }

    /// Takes the operations away.
    pub fn clear_operation(&mut self)
        ensures
            final(self).ops() is None,
            final(self).args() == old(self).args(),
    {
        self.ops = None;
    }
}

} // verus!
