//! DNS packets, and the lookup of one in the cache.

use mikrotik_api::smartdns::{
    cached_result, parse_dns_packet_for_ip, skip_dns_name, CacheLookup, LookupEvent, LookupStage,
    DNS_T_A, DNS_T_AAAA,
};

fn name(labels: &[&str]) -> Vec<u8> {
    let mut bytes: Vec<u8> = Vec::new();
    for label in labels {
        bytes.push(label.len() as u8);
        bytes.extend_from_slice(label.as_bytes());
    }
    bytes.push(0);
    bytes
}

fn record(owner: &[u8], rtype: u16, ttl: u32, data: &[u8]) -> Vec<u8> {
    let mut bytes: Vec<u8> = owner.to_vec();
    bytes.extend_from_slice(&rtype.to_be_bytes());
    bytes.extend_from_slice(&[0, 1]);
    bytes.extend_from_slice(&ttl.to_be_bytes());
    bytes.extend_from_slice(&(data.len() as u16).to_be_bytes());
    bytes.extend_from_slice(data);
    bytes
}

fn packet(qtype: u16, answers: &[Vec<u8>]) -> Vec<u8> {
    let mut bytes: Vec<u8> = vec![0x12, 0x34, 0x81, 0x80, 0, 1];
    bytes.extend_from_slice(&(answers.len() as u16).to_be_bytes());
    bytes.extend_from_slice(&[0, 0, 0, 0]);
    bytes.extend_from_slice(&name(&["www", "example", "com"]));
    bytes.extend_from_slice(&qtype.to_be_bytes());
    bytes.extend_from_slice(&[0, 1]);
    for answer in answers {
        bytes.extend_from_slice(answer);
    }
    bytes
}

const POINTER: [u8; 2] = [0xc0, 12];

const SIXTEEN: [u8; 16] = [0x20, 0x01, 0x0d, 0xb8, 0, 0, 0, 0, 0, 0, 0, 0, 0, 0, 0, 1];

fn found(ip: &str, ttl: u32) -> Option<(String, u32)> {
    Some((ip.to_string(), ttl))
}

#[test]
fn names_are_skipped() {
    assert_eq!(skip_dns_name(&[0], 0), Some(1));
    assert_eq!(skip_dns_name(&name(&["a", "bc"]), 0), Some(6));
    assert_eq!(skip_dns_name(&[1, b'a', 0xc0, 0], 0), Some(4));
    assert_eq!(skip_dns_name(&[0xff], 0), Some(2));
    assert_eq!(skip_dns_name(&[0xbf], 0), None);
    assert_eq!(skip_dns_name(&[0x41, b'a', 0], 0), Some(3));
    assert_eq!(skip_dns_name(&[3, b'a'], 0), None);
    assert_eq!(skip_dns_name(&[], 0), None);
    assert_eq!(skip_dns_name(&[0], 1), None);
    assert_eq!(skip_dns_name(&[0], usize::MAX), None);
}

#[test]
fn names_have_a_limit_of_labels() {
    let mut longest: Vec<u8> = Vec::new();
    for _ in 0..127 {
        longest.extend_from_slice(&[1, b'a']);
    }
    let mut longer = longest.clone();
    longest.push(0);
    assert_eq!(skip_dns_name(&longest, 0), Some(255));
    longer.extend_from_slice(&[1, b'a', 0]);
    assert_eq!(skip_dns_name(&longer, 0), None);
}

#[test]
fn first_ipv4_address_is_found() {
    let bytes = packet(
        1,
        &[
            record(&POINTER, 5, 60, &name(&["alias", "example", "com"])),
            record(&POINTER, 1, 300, &[93, 184, 216, 34]),
            record(&POINTER, 1, 301, &[1, 2, 3, 4]),
        ],
    );
    assert_eq!(parse_dns_packet_for_ip(&bytes, DNS_T_A), found("93.184.216.34", 300));
    assert_eq!(parse_dns_packet_for_ip(&bytes, DNS_T_AAAA), None);
}

#[test]
fn first_ipv6_address_is_found() {
    let bytes = packet(
        28,
        &[
            record(&POINTER, 1, 300, &[93, 184, 216, 34]),
            record(&name(&["www"]), 28, 0x01020304, &SIXTEEN),
        ],
    );
    assert_eq!(parse_dns_packet_for_ip(&bytes, DNS_T_AAAA), found("2001:db8::1", 0x01020304));
    assert_eq!(parse_dns_packet_for_ip(&bytes, DNS_T_A), found("93.184.216.34", 300));
}

#[test]
fn records_of_a_wrong_size_are_passed_over() {
    let bytes = packet(
        1,
        &[
            record(&POINTER, 1, 1, &[1, 2, 3, 4, 5]),
            record(&POINTER, 1, 2, &[]),
            record(&POINTER, 1, 3, &[5, 6, 7, 8]),
        ],
    );
    assert_eq!(parse_dns_packet_for_ip(&bytes, DNS_T_A), found("5.6.7.8", 3));
}

#[test]
fn other_record_types_give_nothing() {
    let bytes = packet(1, &[record(&POINTER, 28, 1, &SIXTEEN), record(&POINTER, 1, 2, &[1, 2, 3, 4])]);
    for qtype in [0, 2, 5, 15, -1, 65] {
        assert_eq!(parse_dns_packet_for_ip(&bytes, qtype), None);
    }
}

#[test]
fn truncated_packets_give_nothing() {
    let bytes = packet(1, &[record(&POINTER, 1, 300, &[93, 184, 216, 34])]);
    assert_eq!(parse_dns_packet_for_ip(&bytes, DNS_T_A), found("93.184.216.34", 300));
    for len in 0..bytes.len() {
        assert_eq!(parse_dns_packet_for_ip(&bytes[..len], DNS_T_A), None, "{}", len);
    }
}

#[test]
fn packet_without_answers_gives_nothing() {
    let bytes = packet(1, &[]);
    assert_eq!(parse_dns_packet_for_ip(&bytes, DNS_T_A), None);
}

#[test]
fn packet_without_questions_is_read() {
    let mut bytes: Vec<u8> = vec![0, 0, 0, 0, 0, 0, 0, 1, 0, 0, 0, 0];
    bytes.extend_from_slice(&record(&[0], 1, 9, &[9, 8, 7, 6]));
    assert_eq!(parse_dns_packet_for_ip(&bytes, DNS_T_A), found("9.8.7.6", 9));
}

#[test]
fn result_has_the_ttl_of_the_cache() {
    let bytes = packet(1, &[record(&POINTER, 1, 0, &[93, 184, 216, 34])]);
    let result = cached_result(&bytes, DNS_T_A, 77).unwrap();
    assert_eq!(result.ip, "93.184.216.34");
    assert_eq!(result.addr_type, DNS_T_A);
    assert_eq!(result.ttl, 77);
    assert!(cached_result(&bytes, DNS_T_AAAA, 77).is_none());
}

#[test]
fn lookup_that_finds_an_address() {
    let bytes = packet(1, &[record(&POINTER, 1, 300, &[93, 184, 216, 34])]);
    let mut lookup = CacheLookup::new(DNS_T_A);
    assert_eq!(lookup.stage(), LookupStage::Searching);
    lookup.step(LookupEvent::CacheFound);
    assert_eq!(lookup.stage(), LookupStage::ReadingTtl);
    lookup.step(LookupEvent::Ttl(42));
    assert_eq!(lookup.stage(), LookupStage::ReadingData);
    lookup.step(LookupEvent::Data(bytes.len()));
    assert_eq!(lookup.stage(), LookupStage::ReadingPacket(bytes.len()));
    lookup.step(LookupEvent::Packet(&bytes));
    assert_eq!(lookup.stage(), LookupStage::PuttingData);
    lookup.step(LookupEvent::DataPut);
    assert_eq!(lookup.stage(), LookupStage::Releasing);
    lookup.step(LookupEvent::CacheReleased);
    assert_eq!(lookup.stage(), LookupStage::Finished);
    let result = lookup.finish().unwrap();
    assert_eq!(result.ip, "93.184.216.34");
    assert_eq!(result.addr_type, DNS_T_A);
    assert_eq!(result.ttl, 42);
}

#[test]
fn lookup_without_an_entry_releases_nothing() {
    let mut lookup = CacheLookup::new(DNS_T_A);
    lookup.step(LookupEvent::CacheMissing);
    assert_eq!(lookup.stage(), LookupStage::Finished);
    assert!(lookup.finish().is_none());
}

#[test]
fn lookup_of_an_expired_entry_releases_it() {
    let mut lookup = CacheLookup::new(DNS_T_A);
    lookup.step(LookupEvent::CacheFound);
    lookup.step(LookupEvent::Ttl(0));
    assert_eq!(lookup.stage(), LookupStage::Releasing);
    lookup.step(LookupEvent::CacheReleased);
    assert_eq!(lookup.stage(), LookupStage::Finished);
    assert!(lookup.finish().is_none());
}

#[test]
fn lookup_of_an_entry_without_data_releases_it() {
    let mut lookup = CacheLookup::new(DNS_T_A);
    lookup.step(LookupEvent::CacheFound);
    lookup.step(LookupEvent::Ttl(1));
    lookup.step(LookupEvent::DataMissing);
    assert_eq!(lookup.stage(), LookupStage::Releasing);
    lookup.step(LookupEvent::CacheReleased);
    assert!(lookup.finish().is_none());
}

#[test]
fn lookup_puts_back_data_of_an_impossible_size() {
    for (size, stage) in [
        (0, LookupStage::PuttingData),
        (11, LookupStage::PuttingData),
        (12, LookupStage::ReadingPacket(12)),
        (65535, LookupStage::ReadingPacket(65535)),
        (65536, LookupStage::PuttingData),
    ] {
        let mut lookup = CacheLookup::new(DNS_T_A);
        lookup.step(LookupEvent::CacheFound);
        lookup.step(LookupEvent::Ttl(1));
        lookup.step(LookupEvent::Data(size));
        assert_eq!(lookup.stage(), stage);
    }
}

#[test]
fn lookup_ignores_what_it_did_not_ask_for() {
    let mut lookup = CacheLookup::new(DNS_T_A);
    lookup.step(LookupEvent::Ttl(5));
    lookup.step(LookupEvent::CacheReleased);
    assert_eq!(lookup.stage(), LookupStage::Searching);
    lookup.step(LookupEvent::CacheFound);
    lookup.step(LookupEvent::CacheFound);
    assert_eq!(lookup.stage(), LookupStage::ReadingTtl);
}

#[test]
fn lookup_reads_as_many_bytes_as_announced() {
    let bytes = packet(1, &[record(&POINTER, 1, 300, &[93, 184, 216, 34])]);
    let mut lookup = CacheLookup::new(DNS_T_A);
    lookup.step(LookupEvent::CacheFound);
    lookup.step(LookupEvent::Ttl(42));
    lookup.step(LookupEvent::Data(bytes.len()));
    lookup.step(LookupEvent::Packet(&bytes[..20]));
    assert_eq!(lookup.stage(), LookupStage::ReadingPacket(bytes.len()));
    lookup.step(LookupEvent::Packet(&bytes));
    assert_eq!(lookup.stage(), LookupStage::PuttingData);
    lookup.step(LookupEvent::DataPut);
    lookup.step(LookupEvent::CacheReleased);
    assert_eq!(lookup.finish().unwrap().ip, "93.184.216.34");
}

#[test]
fn end_of_a_name_depends_on_what_follows() {
    for packet in [name(&["a", "bc"]), vec![1, b'a', 0xc0, 0], vec![3, b'a'], vec![0xff], vec![]] {
        for k in [0usize, 1, 7, 300] {
            let mut longer: Vec<u8> = vec![0x3f; k];
            longer.extend_from_slice(&packet);
            for pos in 0..packet.len() + 2 {
                assert_eq!(
                    skip_dns_name(&longer, k + pos),
                    skip_dns_name(&packet, pos).map(|end| end + k)
                );
            }
        }
    }
}
