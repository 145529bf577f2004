//! Commands for the router, and what its replies mean.

use mikrotik_api::mikrotik_api::{
    add_command, add_reply, find_command, find_fits, no_response, other_err, reply_ends, skipped,
    timeout_command, timeout_fits, AddOutcome, EntrySearch, ErrorKind, PipelineEntry, ReplyEvent,
};
use mikrotik_api::text::decimal_text;

/// The words of a command on the wire: each has its length before it, and an
/// empty one ends the sentence.
fn words(data: &[u8]) -> Vec<String> {
    let mut found: Vec<String> = Vec::new();
    let mut i: usize = 0;
    while i < data.len() {
        let mut len = data[i] as usize;
        i += 1;
        if len >= 0x80 {
            len = (len & 0x3f) * 0x100 + data[i] as usize;
            i += 1;
        }
        if len == 0 {
            assert_eq!(i, data.len());
            return found;
        }
        found.push(String::from_utf8(data[i..i + len].to_vec()).unwrap());
        i += len;
    }
    panic!("the sentence does not end");
}

fn without_tag(mut words: Vec<String>) -> Vec<String> {
    let tag = words.remove(1);
    assert_eq!(tag.len(), 15);
    assert_eq!(&tag[..5], ".tag=");
    assert!(tag[5..].chars().all(|c| c.is_ascii_digit()));
    words
}

fn entry<'a>(domain: &'a str, ttl: u32) -> PipelineEntry<'a> {
    PipelineEntry {
        ip_path: "/ip/firewall/address-list",
        list: "proxy",
        address: "93.184.216.34",
        domain,
        ttl,
    }
}

#[test]
fn add_command_has_list_address_timeout_and_comment() {
    let entry = entry("example.com", 300);
    assert!(entry.check_fits());
    let command = add_command(&entry);
    assert_eq!(
        without_tag(words(command.data())),
        vec![
            "/ip/firewall/address-list/add",
            "=list=proxy",
            "=address=93.184.216.34",
            "=timeout=300",
            "=comment=smartdns: example.com",
        ]
    );
}

#[test]
fn add_command_takes_long_and_foreign_domains() {
    let domain = "\u{4f8b}".repeat(100);
    let entry = entry(&domain, 4294967295);
    assert!(entry.check_fits());
    let found = without_tag(words(add_command(&entry).data()));
    assert_eq!(found[3], "=timeout=4294967295");
    assert_eq!(found[4], format!("=comment=smartdns: {}", domain));
}

#[test]
fn commands_have_tags_of_their_own() {
    let entry = entry("d", 3);
    let first = words(add_command(&entry).data())[1].clone();
    let second = words(add_command(&entry).data())[1].clone();
    assert_ne!(first, second);
}

#[test]
fn find_command_asks_for_list_and_address() {
    assert!(find_fits("/ip/firewall/address-list", "proxy", "1.2.3.4"));
    let command = find_command("/ip/firewall/address-list", "proxy", "1.2.3.4");
    assert_eq!(
        without_tag(words(command.data())),
        vec!["/ip/firewall/address-list/find", "?list=proxy", "?address=1.2.3.4"]
    );
}

#[test]
fn timeout_command_sets_timeout_and_comment() {
    assert!(timeout_fits("/ipv6/firewall/address-list", "*1A", 60));
    let command = timeout_command("/ipv6/firewall/address-list", "*1A", 60);
    assert_eq!(
        without_tag(words(command.data())),
        vec!["/ipv6/firewall/address-list/set", "=.id=*1A", "=timeout=60", "=comment=smartdns"]
    );
}

#[test]
fn numerals_are_written() {
    for n in [0u32, 7, 10, 99, 100, 86400, 4294967295] {
        assert_eq!(decimal_text(n), n.to_string());
    }
}

#[test]
fn replies_decide_an_addition() {
    assert_eq!(add_reply(&ReplyEvent::Done).unwrap().unwrap(), AddOutcome::Added);
    assert_eq!(add_reply(&ReplyEvent::Trap).unwrap().unwrap(), AddOutcome::Duplicate);
    let fatal = add_reply(&ReplyEvent::Fatal).unwrap().unwrap_err();
    assert_eq!(fatal.kind, ErrorKind::ConnectionReset);
    assert_eq!(fatal.message, "fatal error from RouterOS");
    assert!(add_reply(&ReplyEvent::Empty).is_none());
    assert!(add_reply(&ReplyEvent::Reply(vec![])).is_none());
}

#[test]
fn errors_have_kinds_and_messages() {
    assert_eq!(no_response().kind, ErrorKind::ConnectionReset);
    assert_eq!(no_response().message, "connection closed without response");
    assert_eq!(skipped().kind, ErrorKind::NotConnected);
    assert_eq!(skipped().message, "skipped: connection broken during pipeline");
    let other = other_err("broken pipe".to_string());
    assert_eq!(other.kind, ErrorKind::Other);
    assert_eq!(other.message, "broken pipe");
}

#[test]
fn replies_end() {
    assert!(reply_ends(&ReplyEvent::Done));
    assert!(reply_ends(&ReplyEvent::Trap));
    assert!(reply_ends(&ReplyEvent::Fatal));
    assert!(!reply_ends(&ReplyEvent::Empty));
    assert!(!reply_ends(&ReplyEvent::Reply(vec![])));
}

fn row(fields: &[(&str, Option<&str>)]) -> ReplyEvent {
    ReplyEvent::Reply(
        fields.iter().map(|(name, value)| (name.to_string(), value.map(String::from))).collect(),
    )
}

#[test]
fn search_finds_the_last_id() {
    let mut search = EntrySearch::new();
    assert!(!search.reply(&row(&[("list", Some("proxy")), (".id", Some("*1"))])));
    assert!(!search.reply(&ReplyEvent::Empty));
    assert!(!search.reply(&row(&[(".id", Some("*2")), ("address", Some("1.2.3.4"))])));
    assert!(!search.reply(&row(&[(".id", None)])));
    assert!(!search.reply(&row(&[("id", Some("*9"))])));
    assert!(search.reply(&ReplyEvent::Done));
    assert!(search.reply(&row(&[(".id", Some("*3"))])));
    assert_eq!(search.finish(), Some("*2".to_string()));
}

#[test]
fn search_without_rows_finds_nothing() {
    for end in [ReplyEvent::Done, ReplyEvent::Trap, ReplyEvent::Fatal] {
        let mut search = EntrySearch::new();
        assert!(search.reply(&end));
        assert_eq!(search.finish(), None);
    }
    assert_eq!(EntrySearch::new().finish(), None);
}
