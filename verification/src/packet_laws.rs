//! What is read out of a DNS packet, told by how a packet is put together, and
//! what a lookup in the cache does, told by its course.

use crate::ip::{
    dotted, ipv6_text, law_ipv4_text_round_trip, law_ipv6_text_round_trip, octets_of, segments_of,
};
use crate::smartdns::{
    be16, be32, first_address, lemma_name_end_is_behind, level_of, name_end, packet_address,
    questions_end, segments_at, LogLevel, LookupEvent, LookupStage, DNS_HEADER_SIZE,
    DNS_NAME_MAX_LABELS, DNS_PACKET_MAX_SIZE, DNS_T_A, DNS_T_AAAA,
};
use vstd::prelude::*;

verus! {

/// The numbers that DNS gives the two record types, and its limits.
pub proof fn law_numbers_of_dns()
    ensures
        DNS_T_A == 1,
        DNS_T_AAAA == 28,
        DNS_HEADER_SIZE == 12,
        DNS_PACKET_MAX_SIZE == 65535,
        DNS_NAME_MAX_LABELS == 127,
{
}

/// Whether `starts` are the places in a packet where the labels of a name start,
/// one behind the other, and behind them the place of the zero byte or the
/// compression pointer that ends the name, with `end` behind that.
pub open spec fn is_name_at(packet: Seq<u8>, starts: Seq<int>, end: int) -> bool {
    &&& 1 <= starts.len() <= 128
    &&& forall|k: int| 0 <= k < starts.len() ==> 0 <= #[trigger] starts[k] < packet.len()
    &&& forall|k: int|
        0 <= k < starts.len() - 1 ==> 0 < packet[#[trigger] starts[k]] < 192 && starts[k + 1]
            == starts[k] + 1 + packet[starts[k]] % 64
    &&& packet[starts.last()] == 0 ==> end == starts.last() + 1
    &&& packet[starts.last()] != 0 ==> packet[starts.last()] >= 192 && end == starts.last() + 2
}

/// The name that a chain of label starts makes ends where it says.
proof fn lemma_chain_ends(packet: Seq<u8>, starts: Seq<int>, end: int, labels: int)
    requires
        is_name_at(packet, starts, end),
        packet.len() < usize::MAX,
        0 <= labels,
        labels + starts.len() <= 128,
    ensures
        name_end(packet, starts[0], labels) == Some(end),
    decreases starts.len(),
{
    if starts.len() > 1 {
        let rest = starts.skip(1);
        assert(0 < packet[starts[0]] < 192 && starts[1] == starts[0] + 1 + packet[starts[0]] % 64);
        assert forall|k: int| 0 <= k < rest.len() implies 0 <= #[trigger] rest[k]
            < packet.len() by {
            assert(rest[k] == starts[k + 1]);
        }
        assert forall|k: int| 0 <= k < rest.len() - 1 implies 0 < packet[#[trigger] rest[k]] < 192
            && rest[k + 1] == rest[k] + 1 + packet[rest[k]] % 64 by {
            assert(rest[k] == starts[k + 1]);
            assert(rest[k + 1] == starts[k + 2]);
        }
        assert(rest.last() == starts.last());
        lemma_chain_ends(packet, rest, end, labels + 1);
    } else {
        assert(starts[0] == starts.last());
    }
}

/// A name that ends makes a chain of label starts.
proof fn lemma_end_has_chain(packet: Seq<u8>, pos: int, labels: int) -> (starts: Seq<int>)
    requires
        0 <= labels <= 127,
        name_end(packet, pos, labels) is Some,
    ensures
        starts.len() + labels <= 128,
        starts[0] == pos,
        is_name_at(packet, starts, name_end(packet, pos, labels)->0),
    decreases 127 - labels,
{
    if packet[pos] == 0 || packet[pos] >= 192 {
        seq![pos]
    } else {
        let next = pos + packet[pos] % 64 + 1;
        let rest = lemma_end_has_chain(packet, next, labels + 1);
        let starts = seq![pos] + rest;
        assert forall|k: int| 0 <= k < starts.len() implies 0 <= #[trigger] starts[k]
            < packet.len() by {
            if k > 0 {
                assert(starts[k] == rest[k - 1]);
            }
        }
        assert forall|k: int| 0 <= k < starts.len() - 1 implies 0 < packet[#[trigger] starts[k]]
            < 192 && starts[k + 1] == starts[k] + 1 + packet[starts[k]] % 64 by {
            assert(starts[k + 1] == rest[k]);
            if k > 0 {
                assert(starts[k] == rest[k - 1]);
            }
        }
        assert(starts.last() == rest.last());
        starts
    }
}

/// A name ends at `end` exactly where labels lead there: up to 127 of them, each as
/// long as the lower six bits of its first byte say, then a zero byte or a
/// compression pointer of two bytes.
pub proof fn law_name_is_its_labels(packet: Seq<u8>, pos: int, end: int)
    requires
        packet.len() < usize::MAX,
    ensures
        name_end(packet, pos, 0) == Some(end) <==> exists|starts: Seq<int>| #[trigger]
            is_name_at(packet, starts, end) && starts[0] == pos,
{
    if name_end(packet, pos, 0) == Some(end) {
        let starts = lemma_end_has_chain(packet, pos, 0);
        assert(is_name_at(packet, starts, end) && starts[0] == pos);
    }
    if exists|starts: Seq<int>| #[trigger] is_name_at(packet, starts, end) && starts[0] == pos {
        let starts = choose|starts: Seq<int>| #[trigger]
            is_name_at(packet, starts, end) && starts[0] == pos;
        lemma_chain_ends(packet, starts, end, 0);
    }
}

/// A name on the wire: its labels, and what ends it.
pub struct WireName {
    pub labels: Seq<Seq<u8>>,
    pub ending: Seq<u8>,
}

/// A question on the wire: its name, and four bytes for type and class.
pub struct WireQuestion {
    pub name: WireName,
    pub kind: Seq<u8>,
}

/// A record on the wire.
pub struct WireRecord {
    pub name: WireName,
    pub rtype: u16,
    pub class: u16,
    pub ttl: u32,
    pub data: Seq<u8>,
}

/// A number in two bytes, the higher one first.
pub open spec fn bytes16(n: int) -> Seq<u8> {
    seq![(n / 256) as u8, (n % 256) as u8]
}

/// Labels one behind the other, each with its length before it.
pub open spec fn label_bytes(labels: Seq<Seq<u8>>) -> Seq<u8>
    decreases labels.len(),
{
    if labels.len() == 0 {
        Seq::empty()
    } else {
        seq![labels[0].len() as u8] + labels[0] + label_bytes(labels.skip(1))
    }
}

impl WireName {
    /// Whether the labels have one to 63 bytes each and are 127 at most, and a zero
    /// byte or a compression pointer ends them.
    pub open spec fn wf(self) -> bool {
        &&& self.labels.len() <= 127
        &&& forall|i: int|
            0 <= i < self.labels.len() ==> 1 <= (#[trigger] self.labels[i]).len() <= 63
        &&& self.ending == seq![0u8] || (self.ending.len() == 2 && self.ending[0] >= 192)
    }

    /// The bytes of the name.
    pub open spec fn bytes(self) -> Seq<u8> {
        label_bytes(self.labels) + self.ending
    }
}

impl WireQuestion {
    /// The bytes of the question.
    pub open spec fn bytes(self) -> Seq<u8> {
        self.name.bytes() + self.kind
    }
}

impl WireRecord {
    /// Whether the record can be written: its data must not be too long.
    pub open spec fn wf(self) -> bool {
        self.name.wf() && self.data.len() <= 65535
    }

    /// Type, class, time to live and data length.
    pub open spec fn fixed(self) -> Seq<u8> {
        bytes16(self.rtype as int) + bytes16(self.class as int) + bytes16(
            self.ttl as int / 65536,
        ) + bytes16(self.ttl as int % 65536) + bytes16(self.data.len() as int)
    }

    /// The bytes of the record.
    pub open spec fn bytes(self) -> Seq<u8> {
        self.name.bytes() + self.fixed() + self.data
    }

    /// Whether the record holds an address of the type `qtype`.
    pub open spec fn holds(self, qtype: i32) -> bool {
        ||| qtype == 1 && self.rtype == 1 && self.data.len() == 4
        ||| qtype == 28 && self.rtype == 28 && self.data.len() == 16
    }
}

/// Questions one behind the other.
pub open spec fn questions_bytes(questions: Seq<WireQuestion>) -> Seq<u8>
    decreases questions.len(),
{
    if questions.len() == 0 {
        Seq::empty()
    } else {
        questions[0].bytes() + questions_bytes(questions.skip(1))
    }
}

/// Records one behind the other.
pub open spec fn records_bytes(records: Seq<WireRecord>) -> Seq<u8>
    decreases records.len(),
{
    if records.len() == 0 {
        Seq::empty()
    } else {
        records[0].bytes() + records_bytes(records.skip(1))
    }
}

/// The groups that sixteen bytes hold, two bytes for each, the higher one first.
pub open spec fn groups_in(data: Seq<u8>) -> Seq<u16> {
    Seq::new(8, |i: int| (data[2 * i] * 256 + data[2 * i + 1]) as u16)
}

/// Whether a text is the one of the address that the data of a record holds: the
/// dotted form of four bytes, or the text form of the IPv6 address of sixteen. It
/// is read back as those bytes.
pub open spec fn is_address_of(text: Seq<char>, data: Seq<u8>) -> bool {
    ||| data.len() == 4 && text == dotted(data) && octets_of(text) == Some(data)
    ||| data.len() == 16 && text == ipv6_text(groups_in(data)) && segments_of(text) == Some(
        groups_in(data),
    )
}

/// A name is skipped, wherever it stands.
proof fn lemma_name_is_skipped(pre: Seq<u8>, name: WireName, post: Seq<u8>, passed: int)
    requires
        name.wf(),
        0 <= passed,
        passed + name.labels.len() <= 127,
        pre.len() + name.bytes().len() + post.len() < usize::MAX,
    ensures
        name_end(pre + name.bytes() + post, pre.len() as int, passed) == Some(
            (pre.len() + name.bytes().len()) as int,
        ),
    decreases name.labels.len(),
{
    let packet = pre + name.bytes() + post;
    if name.labels.len() == 0 {
        assert(name.bytes() =~= name.ending);
        assert(packet[pre.len() as int] == name.ending[0]);
    } else {
        let label = name.labels[0];
        let rest = WireName { labels: name.labels.skip(1), ending: name.ending };
        let front = pre + seq![label.len() as u8] + label;
        assert forall|i: int| 0 <= i < rest.labels.len() implies 1 <= (#[trigger] rest.labels[i]).len()
            <= 63 by {
            assert(rest.labels[i] == name.labels[i + 1]);
        }
        assert(name.bytes() =~= seq![label.len() as u8] + label + rest.bytes());
        assert(packet =~= front + rest.bytes() + post);
        lemma_name_is_skipped(front, rest, post, passed + 1);
        assert(packet[pre.len() as int] == label.len());
        assert(label.len() % 64 == label.len());
    }
}

/// Questions are skipped, wherever they stand.
proof fn lemma_questions_are_skipped(
    pre: Seq<u8>,
    questions: Seq<WireQuestion>,
    post: Seq<u8>,
)
    requires
        forall|i: int|
            0 <= i < questions.len() ==> (#[trigger] questions[i]).name.wf()
                && questions[i].kind.len() == 4,
        pre.len() + questions_bytes(questions).len() + post.len() < usize::MAX,
    ensures
        questions_end(
            pre + questions_bytes(questions) + post,
            pre.len() as int,
            questions.len(),
        ) == Some((pre.len() + questions_bytes(questions).len()) as int),
    decreases questions.len(),
{
    if questions.len() > 0 {
        let q = questions[0];
        let rest = questions.skip(1);
        let all = questions_bytes(questions);
        let packet = pre + all + post;
        let after = q.kind + questions_bytes(rest) + post;
        assert(packet =~= pre + q.name.bytes() + after);
        lemma_name_is_skipped(pre, q.name, after, 0);
        let front = pre + q.bytes();
        assert(packet =~= front + questions_bytes(rest) + post);
        assert forall|i: int| 0 <= i < rest.len() implies (#[trigger] rest[i]).name.wf()
            && rest[i].kind.len() == 4 by {
            assert(rest[i] == questions[i + 1]);
        }
        lemma_questions_are_skipped(front, rest, post);
        assert(front.len() == pre.len() + q.name.bytes().len() + 4);
    }
}

/// The numbers of a record are read, wherever it stands.
proof fn lemma_record_is_read(pre: Seq<u8>, record: WireRecord, post: Seq<u8>)
    requires
        record.wf(),
        pre.len() + record.bytes().len() + post.len() < usize::MAX,
    ensures
        ({
            let packet = pre + record.bytes() + post;
            let head = (pre.len() + record.name.bytes().len()) as int;
            &&& name_end(packet, pre.len() as int, 0) == Some(head)
            &&& be16(packet, head) == record.rtype
            &&& be32(packet, head + 4) == record.ttl
            &&& be16(packet, head + 8) == record.data.len()
            &&& packet.subrange(head + 10, head + 10 + record.data.len()) == record.data
            &&& pre.len() + record.bytes().len() == head + 10 + record.data.len()
        }),
{
    let packet = pre + record.bytes() + post;
    let name = record.name.bytes();
    let fixed = record.fixed();
    let after = fixed + record.data + post;
    let head = (pre.len() + name.len()) as int;
    assert(packet =~= pre + name + after);
    lemma_name_is_skipped(pre, record.name, after, 0);
    assert(fixed.len() == 10);
    assert forall|i: int| 0 <= i < 10 implies packet[head + i] == #[trigger] fixed[i] by {}
    assert(fixed[0] == (record.rtype as int / 256) as u8);
    assert(fixed[1] == (record.rtype as int % 256) as u8);
    assert(fixed[4] == (record.ttl as int / 65536 / 256) as u8);
    assert(fixed[5] == (record.ttl as int / 65536 % 256) as u8);
    assert(fixed[6] == (record.ttl as int % 65536 / 256) as u8);
    assert(fixed[7] == (record.ttl as int % 65536 % 256) as u8);
    assert(fixed[8] == (record.data.len() as int / 256) as u8);
    assert(fixed[9] == (record.data.len() as int % 256) as u8);
    assert(packet[head] == fixed[0] && packet[head + 1] == fixed[1]);
    assert(packet[head + 4] == fixed[4] && packet[head + 5] == fixed[5]);
    assert(packet[head + 6] == fixed[6] && packet[head + 7] == fixed[7]);
    assert(packet[head + 8] == fixed[8] && packet[head + 9] == fixed[9]);
    assert(packet.subrange(head + 10, head + 10 + record.data.len()) =~= record.data);
}

/// The text that is found for data of four or sixteen bytes is their address.
proof fn lemma_address_of_data(packet: Seq<u8>, at: int, data: Seq<u8>)
    requires
        0 <= at,
        at + data.len() <= packet.len(),
        packet.subrange(at, at + data.len()) == data,
    ensures
        data.len() == 4 ==> is_address_of(dotted(packet.subrange(at, at + 4)), data),
        data.len() == 16 ==> is_address_of(ipv6_text(segments_at(packet, at)), data),
{
    if data.len() == 4 {
        law_ipv4_text_round_trip(data);
    }
    if data.len() == 16 {
        assert forall|i: int| 0 <= i < 8 implies segments_at(packet, at)[i] == #[trigger] groups_in(
            data,
        )[i] by {
            assert(packet[at + 2 * i] == data[2 * i]);
            assert(packet[at + 2 * i + 1] == data[2 * i + 1]);
        }
        assert(segments_at(packet, at) =~= groups_in(data));
        law_ipv6_text_round_trip(groups_in(data));
    }
}

/// Among records, the first that holds an address of the type is found.
proof fn lemma_first_record_is_found(
    pre: Seq<u8>,
    records: Seq<WireRecord>,
    post: Seq<u8>,
    qtype: i32,
    i: int,
)
    requires
        forall|j: int| 0 <= j < records.len() ==> (#[trigger] records[j]).wf(),
        pre.len() + records_bytes(records).len() + post.len() < usize::MAX,
        0 <= i < records.len(),
        records[i].holds(qtype),
        forall|j: int| 0 <= j < i ==> !(#[trigger] records[j]).holds(qtype),
    ensures
        first_address(
            pre + records_bytes(records) + post,
            pre.len() as int,
            records.len(),
            qtype,
        ) matches Some((text, ttl)) && is_address_of(text, records[i].data) && ttl
            == records[i].ttl,
    decreases records.len(),
{
    let record = records[0];
    let rest = records.skip(1);
    let packet = pre + records_bytes(records) + post;
    let after = records_bytes(rest) + post;
    assert(packet =~= pre + record.bytes() + after);
    lemma_record_is_read(pre, record, after);
    let at = (pre.len() + record.name.bytes().len()) as int + 10;
    lemma_address_of_data(packet, at, record.data);
    if i > 0 {
        let front = pre + record.bytes();
        assert(packet =~= front + records_bytes(rest) + post);
        assert(records[0].holds(qtype) == false);
        assert forall|j: int| 0 <= j < rest.len() implies (#[trigger] rest[j]).wf() by {
            assert(rest[j] == records[j + 1]);
        }
        assert forall|j: int| 0 <= j < i - 1 implies !(#[trigger] rest[j]).holds(qtype) by {
            assert(rest[j] == records[j + 1]);
        }
        assert(rest[i - 1] == records[i]);
        lemma_first_record_is_found(front, rest, post, qtype, i - 1);
    }
}

/// Among records without an address of the type, none is found.
proof fn lemma_no_record_is_found(
    pre: Seq<u8>,
    records: Seq<WireRecord>,
    post: Seq<u8>,
    qtype: i32,
)
    requires
        forall|j: int| 0 <= j < records.len() ==> (#[trigger] records[j]).wf(),
        pre.len() + records_bytes(records).len() + post.len() < usize::MAX,
        forall|j: int| 0 <= j < records.len() ==> !(#[trigger] records[j]).holds(qtype),
    ensures
        first_address(
            pre + records_bytes(records) + post,
            pre.len() as int,
            records.len(),
            qtype,
        ) is None,
    decreases records.len(),
{
    if records.len() > 0 {
        let record = records[0];
        let rest = records.skip(1);
        let packet = pre + records_bytes(records) + post;
        let after = records_bytes(rest) + post;
        assert(packet =~= pre + record.bytes() + after);
        lemma_record_is_read(pre, record, after);
        let front = pre + record.bytes();
        assert(packet =~= front + records_bytes(rest) + post);
        assert(!records[0].holds(qtype));
        assert forall|j: int| 0 <= j < rest.len() implies (#[trigger] rest[j]).wf()
            && !rest[j].holds(qtype) by {
            assert(rest[j] == records[j + 1]);
        }
        lemma_no_record_is_found(front, rest, post, qtype);
    }
}

/// A DNS packet: four bytes for id and flags, the numbers of questions and answers,
/// four bytes for the numbers of other records, the questions, the answers, and
/// whatever follows.
pub open spec fn packet_of(
    id: Seq<u8>,
    others: Seq<u8>,
    questions: Seq<WireQuestion>,
    answers: Seq<WireRecord>,
    post: Seq<u8>,
) -> Seq<u8> {
    id + bytes16(questions.len() as int) + bytes16(answers.len() as int) + others
        + questions_bytes(questions) + records_bytes(answers) + post
}

/// Whether a DNS packet can be put together of these parts.
pub open spec fn is_packet(
    id: Seq<u8>,
    others: Seq<u8>,
    questions: Seq<WireQuestion>,
    answers: Seq<WireRecord>,
    post: Seq<u8>,
) -> bool {
    &&& id.len() == 4
    &&& others.len() == 4
    &&& questions.len() <= 65535
    &&& answers.len() <= 65535
    &&& forall|i: int|
        0 <= i < questions.len() ==> (#[trigger] questions[i]).name.wf() && questions[i].kind.len()
            == 4
    &&& forall|i: int| 0 <= i < answers.len() ==> (#[trigger] answers[i]).wf()
    &&& packet_of(id, others, questions, answers, post).len() < usize::MAX
}

/// The header of a packet is read, and its questions are skipped.
proof fn lemma_header_is_read(
    id: Seq<u8>,
    others: Seq<u8>,
    questions: Seq<WireQuestion>,
    answers: Seq<WireRecord>,
    post: Seq<u8>,
) -> (front: Seq<u8>)
    requires
        is_packet(id, others, questions, answers, post),
    ensures
        ({
            let packet = packet_of(id, others, questions, answers, post);
            &&& packet == front + records_bytes(answers) + post
            &&& forall|qtype: i32| #[trigger]
                packet_address(packet, qtype) == first_address(
                    packet,
                    front.len() as int,
                    answers.len(),
                    qtype,
                )
        }),
{
    let packet = packet_of(id, others, questions, answers, post);
    let header = id + bytes16(questions.len() as int) + bytes16(answers.len() as int) + others;
    let front = header + questions_bytes(questions);
    let after = records_bytes(answers) + post;
    assert(header.len() == 12);
    assert(packet =~= header + questions_bytes(questions) + after);
    assert(packet =~= front + records_bytes(answers) + post);
    assert(packet[4] == (questions.len() as int / 256) as u8);
    assert(packet[5] == (questions.len() as int % 256) as u8);
    assert(packet[6] == (answers.len() as int / 256) as u8);
    assert(packet[7] == (answers.len() as int % 256) as u8);
    lemma_questions_are_skipped(header, questions, after);
    front
}

/// Whatever a packet is put together of, the first answer that holds an address of
/// the type asked for is found, with the time to live of its record; the text is
/// that of the bytes that the answer holds, in their order.
pub proof fn law_first_answer_is_found(
    id: Seq<u8>,
    others: Seq<u8>,
    questions: Seq<WireQuestion>,
    answers: Seq<WireRecord>,
    post: Seq<u8>,
    qtype: i32,
    i: int,
)
    requires
        is_packet(id, others, questions, answers, post),
        0 <= i < answers.len(),
        answers[i].holds(qtype),
        forall|j: int| 0 <= j < i ==> !(#[trigger] answers[j]).holds(qtype),
    ensures
        packet_address(packet_of(id, others, questions, answers, post), qtype) matches Some(
            (text, ttl),
        ) && is_address_of(text, answers[i].data) && ttl == answers[i].ttl,
{
    let front = lemma_header_is_read(id, others, questions, answers, post);
    lemma_first_record_is_found(front, answers, post, qtype, i);
}

/// Where no answer holds an address of the type asked for, none is found.
pub proof fn law_packet_without_an_address_gives_none(
    id: Seq<u8>,
    others: Seq<u8>,
    questions: Seq<WireQuestion>,
    answers: Seq<WireRecord>,
    post: Seq<u8>,
    qtype: i32,
)
    requires
        is_packet(id, others, questions, answers, post),
        forall|j: int| 0 <= j < answers.len() ==> !(#[trigger] answers[j]).holds(qtype),
    ensures
        packet_address(packet_of(id, others, questions, answers, post), qtype) is None,
{
    let front = lemma_header_is_read(id, others, questions, answers, post);
    lemma_no_record_is_found(front, answers, post, qtype);
}

/// Whether a record whose name ends at `head` stands in the packet with data of
/// `len` bytes, has the type `qtype`, the time to live `ttl`, and holds the address
/// that `text` is the text of.
pub open spec fn stands_at(
    packet: Seq<u8>,
    head: int,
    len: int,
    qtype: i32,
    text: Seq<char>,
    ttl: u32,
) -> bool {
    &&& 12 <= head
    &&& head + 10 + len <= packet.len()
    &&& packet[head] * 256 + packet[head + 1] == qtype
    &&& packet[head + 4] * 16777216 + packet[head + 5] * 65536 + packet[head + 6] * 256
        + packet[head + 7] == ttl
    &&& packet[head + 8] * 256 + packet[head + 9] == len
    &&& (qtype == 1 && len == 4) || (qtype == 28 && len == 16)
    &&& is_address_of(text, packet.subrange(head + 10, head + 10 + len))
}

/// What is found among records stands in the packet.
proof fn lemma_found_record_stands(packet: Seq<u8>, pos: int, count: nat, qtype: i32)
    requires
        12 <= pos,
        first_address(packet, pos, count, qtype) is Some,
    ensures
        first_address(packet, pos, count, qtype) matches Some((text, ttl)) && exists|
            head: int,
            len: int,
        | stands_at(packet, head, len, qtype, text, ttl),
    decreases count,
{
    lemma_name_end_is_behind(packet, pos, 0);
    let head = name_end(packet, pos, 0)->0;
    let len = be16(packet, head + 8);
    let rtype = be16(packet, head);
    let data = packet.subrange(head + 10, head + 10 + len);
    let (text, ttl) = first_address(packet, pos, count, qtype)->0;
    assert(be32(packet, head + 4) == packet[head + 4] * 16777216 + packet[head + 5] * 65536
        + packet[head + 6] * 256 + packet[head + 7]);
    lemma_address_of_data(packet, head + 10, data);
    if qtype == rtype && ((qtype == 1 && len == 4) || (qtype == 28 && len == 16)) {
        assert(stands_at(packet, head, len, qtype, text, ttl));
    } else {
        lemma_found_record_stands(packet, head + 10 + len, (count - 1) as nat, qtype);
    }
}

/// Questions end behind their start.
proof fn lemma_questions_end_behind(packet: Seq<u8>, pos: int, count: nat)
    ensures
        questions_end(packet, pos, count) matches Some(end) ==> pos <= end,
    decreases count,
{
    if count > 0 {
        lemma_name_end_is_behind(packet, pos, 0);
        if let Some(end) = name_end(packet, pos, 0) {
            lemma_questions_end_behind(packet, end + 4, (count - 1) as nat);
        }
    }
}

/// Whatever bytes a packet is made of, an address that is found in it stands in it:
/// in a record of the type asked for, with the time to live that is found, whose
/// four or sixteen bytes of data, in their order, are the address.
pub proof fn law_found_address_stands_in_the_packet(packet: Seq<u8>, qtype: i32)
    ensures
        packet_address(packet, qtype) matches Some((text, ttl)) ==> exists|head: int, len: int|
            stands_at(packet, head, len, qtype, text, ttl),
{
    if packet_address(packet, qtype) is Some {
        let pos = questions_end(packet, 12, be16(packet, 4) as nat)->0;
        lemma_questions_end_behind(packet, 12, be16(packet, 4) as nat);
        lemma_found_record_stands(packet, pos, be16(packet, 6) as nat, qtype);
    }
}

/// Whether `starts` are the places where the questions of a packet start, one
/// behind the other, and behind them the place where the answers start: a question
/// is a name and four bytes.
pub open spec fn passes_questions(packet: Seq<u8>, starts: Seq<int>) -> bool {
    &&& starts.len() == packet[4] * 256 + packet[5] + 1
    &&& starts[0] == 12
    &&& forall|k: int|
        0 <= k < starts.len() - 1 ==> name_end(packet, #[trigger] starts[k], 0) == Some(
            starts[k + 1] - 4,
        )
}

/// The place behind a record whose name ends at `head`.
pub open spec fn behind_record(packet: Seq<u8>, head: int) -> int {
    head + 10 + packet[head + 8] * 256 + packet[head + 9]
}

/// Whether the record whose name ends at `head` lies in the packet, and holds no
/// address of the type `qtype`.
pub open spec fn is_passed_over(packet: Seq<u8>, head: int, qtype: i32) -> bool {
    let len = packet[head + 8] * 256 + packet[head + 9];
    let rtype = packet[head] * 256 + packet[head + 1];
    &&& head + 10 <= packet.len()
    &&& behind_record(packet, head) <= packet.len()
    &&& !(qtype == 1 && rtype == 1 && len == 4)
    &&& !(qtype == 28 && rtype == 28 && len == 16)
}

/// Whether `heads` are the places where the names of records end, one record behind
/// the other from `from` on, of which all but the last are passed over, and the last
/// holds the address that `text` is the text of, with the time to live `ttl`.
pub open spec fn leads_to_address(
    packet: Seq<u8>,
    from: int,
    heads: Seq<int>,
    qtype: i32,
    text: Seq<char>,
    ttl: u32,
) -> bool {
    &&& heads.len() > 0
    &&& name_end(packet, from, 0) == Some(heads[0])
    &&& forall|k: int|
        0 <= k < heads.len() - 1 ==> is_passed_over(packet, #[trigger] heads[k], qtype) && name_end(
            packet,
            behind_record(packet, heads[k]),
            0,
        ) == Some(heads[k + 1])
    &&& stands_at(
        packet,
        heads.last(),
        behind_record(packet, heads.last()) - heads.last() - 10,
        qtype,
        text,
        ttl,
    )
}

/// Questions end where walking over them leads.
proof fn lemma_questions_walk(packet: Seq<u8>, starts: Seq<int>)
    requires
        starts.len() > 0,
        forall|k: int|
            0 <= k < starts.len() - 1 ==> name_end(packet, #[trigger] starts[k], 0) == Some(
                starts[k + 1] - 4,
            ),
        packet.len() + 8 < usize::MAX,
    ensures
        questions_end(packet, starts[0], (starts.len() - 1) as nat) == Some(starts.last()),
    decreases starts.len(),
{
    if starts.len() > 1 {
        let rest = starts.skip(1);
        assert(name_end(packet, starts[0], 0) == Some(starts[1] - 4));
        lemma_name_end_is_near(packet, starts[0], 0);
        assert forall|k: int| 0 <= k < rest.len() - 1 implies name_end(
            packet,
            #[trigger] rest[k],
            0,
        ) == Some(rest[k + 1] - 4) by {
            assert(rest[k] == starts[k + 1]);
            assert(rest[k + 1] == starts[k + 2]);
        }
        assert(rest.last() == starts.last());
        lemma_questions_walk(packet, rest);
    }
}

/// A name ends at most one byte behind the packet.
proof fn lemma_name_end_is_near(packet: Seq<u8>, pos: int, labels: int)
    ensures
        name_end(packet, pos, labels) matches Some(end) ==> end <= packet.len() + 1,
    decreases DNS_NAME_MAX_LABELS - labels,
{
    if 0 <= pos < packet.len() && labels < DNS_NAME_MAX_LABELS {
        lemma_name_end_is_near(packet, pos + packet[pos] % 64 + 1, labels + 1);
    }
}

/// Questions that end make a walk.
proof fn lemma_questions_have_walk(packet: Seq<u8>, pos: int, count: nat) -> (starts: Seq<int>)
    requires
        questions_end(packet, pos, count) is Some,
    ensures
        starts.len() == count + 1,
        starts[0] == pos,
        questions_end(packet, pos, count) == Some(starts.last()),
        forall|k: int|
            0 <= k < starts.len() - 1 ==> name_end(packet, #[trigger] starts[k], 0) == Some(
                starts[k + 1] - 4,
            ),
    decreases count,
{
    if count == 0 {
        seq![pos]
    } else {
        let end = name_end(packet, pos, 0)->0;
        let rest = lemma_questions_have_walk(packet, end + 4, (count - 1) as nat);
        let starts = seq![pos] + rest;
        assert forall|k: int| 0 <= k < starts.len() - 1 implies name_end(
            packet,
            #[trigger] starts[k],
            0,
        ) == Some(starts[k + 1] - 4) by {
            assert(starts[k + 1] == rest[k]);
            if k > 0 {
                assert(starts[k] == rest[k - 1]);
            }
        }
        assert(starts.last() == rest.last());
        starts
    }
}

/// The address that walking over records leads to is found.
proof fn lemma_walk_finds(
    packet: Seq<u8>,
    from: int,
    heads: Seq<int>,
    count: nat,
    qtype: i32,
    text: Seq<char>,
    ttl: u32,
)
    requires
        leads_to_address(packet, from, heads, qtype, text, ttl),
        heads.len() <= count,
    ensures
        first_address(packet, from, count, qtype) == Some((text, ttl)),
    decreases heads.len(),
{
    let head = heads[0];
    lemma_name_end_is_behind(packet, from, 0);
    let len = be16(packet, head + 8);
    assert(be32(packet, head + 4) == packet[head + 4] * 16777216 + packet[head + 5] * 65536
        + packet[head + 6] * 256 + packet[head + 7]);
    if heads.len() == 1 {
        assert(heads.last() == head);
        let data = packet.subrange(head + 10, head + 10 + len);
        lemma_address_of_data(packet, head + 10, data);
    } else {
        let rest = heads.skip(1);
        assert(is_passed_over(packet, heads[0], qtype));
        assert(name_end(packet, behind_record(packet, head), 0) == Some(heads[1]));
        assert forall|k: int| 0 <= k < rest.len() - 1 implies is_passed_over(
            packet,
            #[trigger] rest[k],
            qtype,
        ) && name_end(packet, behind_record(packet, rest[k]), 0) == Some(rest[k + 1]) by {
            assert(rest[k] == heads[k + 1]);
            assert(rest[k + 1] == heads[k + 2]);
        }
        assert(rest.last() == heads.last());
        lemma_walk_finds(
            packet,
            behind_record(packet, head),
            rest,
            (count - 1) as nat,
            qtype,
            text,
            ttl,
        );
    }
}

/// An address that is found is where walking over records leads.
proof fn lemma_found_has_walk(packet: Seq<u8>, from: int, count: nat, qtype: i32) -> (heads: Seq<
    int,
>)
    requires
        12 <= from,
        first_address(packet, from, count, qtype) is Some,
    ensures
        first_address(packet, from, count, qtype) matches Some((text, ttl)) && leads_to_address(
            packet,
            from,
            heads,
            qtype,
            text,
            ttl,
        ),
        heads.len() <= count,
    decreases count,
{
    let head = name_end(packet, from, 0)->0;
    lemma_name_end_is_behind(packet, from, 0);
    let len = be16(packet, head + 8);
    let rtype = be16(packet, head);
    let (text, ttl) = first_address(packet, from, count, qtype)->0;
    assert(be32(packet, head + 4) == packet[head + 4] * 16777216 + packet[head + 5] * 65536
        + packet[head + 6] * 256 + packet[head + 7]);
    if qtype == rtype && ((qtype == 1 && len == 4) || (qtype == 28 && len == 16)) {
        let data = packet.subrange(head + 10, head + 10 + len);
        lemma_address_of_data(packet, head + 10, data);
        let heads = seq![head];
        assert(heads.last() == head);
        heads
    } else {
        let rest = lemma_found_has_walk(packet, head + 10 + len, (count - 1) as nat, qtype);
        let heads = seq![head] + rest;
        assert forall|k: int| 0 <= k < heads.len() - 1 implies is_passed_over(
            packet,
            #[trigger] heads[k],
            qtype,
        ) && name_end(packet, behind_record(packet, heads[k]), 0) == Some(heads[k + 1]) by {
            assert(heads[k + 1] == rest[k]);
            if k > 0 {
                assert(heads[k] == rest[k - 1]);
            }
        }
        assert(heads.last() == rest.last());
        heads
    }
}

/// Whatever bytes a packet is made of, an address is found in it exactly where
/// walking over its questions and then over its answers, as many as the header says,
/// leads to it, past answers that lie in the packet and hold no address of the type
/// asked for.
pub proof fn law_address_is_where_the_walk_leads(
    packet: Seq<u8>,
    qtype: i32,
    text: Seq<char>,
    ttl: u32,
)
    requires
        packet.len() + 8 < usize::MAX,
    ensures
        packet_address(packet, qtype) == Some((text, ttl)) <==> packet.len() >= 12 && exists|
            starts: Seq<int>,
            heads: Seq<int>,
        | #[trigger]
            passes_questions(packet, starts) && #[trigger] leads_to_address(
                packet,
                starts.last(),
                heads,
                qtype,
                text,
                ttl,
            ) && heads.len() <= packet[6] * 256 + packet[7],
{
    let questions = be16(packet, 4) as nat;
    let answers = be16(packet, 6) as nat;
    if packet_address(packet, qtype) == Some((text, ttl)) {
        let starts = lemma_questions_have_walk(packet, 12, questions);
        lemma_questions_end_behind(packet, 12, questions);
        let heads = lemma_found_has_walk(packet, starts.last(), answers, qtype);
        assert(passes_questions(packet, starts));
        assert(leads_to_address(packet, starts.last(), heads, qtype, text, ttl));
    }
    if packet.len() >= 12 && exists|starts: Seq<int>, heads: Seq<int>| #[trigger]
        passes_questions(packet, starts) && #[trigger] leads_to_address(
            packet,
            starts.last(),
            heads,
            qtype,
            text,
            ttl,
        ) && heads.len() <= packet[6] * 256 + packet[7] {
        let (starts, heads) = choose|starts: Seq<int>, heads: Seq<int>| #[trigger]
            passes_questions(packet, starts) && #[trigger] leads_to_address(
                packet,
                starts.last(),
                heads,
                qtype,
                text,
                ttl,
            ) && heads.len() <= packet[6] * 256 + packet[7];
        lemma_questions_walk(packet, starts);
        lemma_walk_finds(packet, starts.last(), heads, answers, qtype, text, ttl);
    }
}

/// The course of a lookup that finds an entry with time left and data of the size
/// of a packet: the packet is read, then the data and the entry are given back.
pub proof fn law_course_of_a_lookup(ttl: u32, size: usize, packet: &[u8])
    requires
        ttl > 0,
        12 <= size <= 65535,
        packet@.len() == size,
    ensures
        LookupStage::Searching.after(LookupEvent::CacheFound) == LookupStage::ReadingTtl,
        LookupStage::ReadingTtl.after(LookupEvent::Ttl(ttl)) == LookupStage::ReadingData,
        LookupStage::ReadingData.after(LookupEvent::Data(size)) == LookupStage::ReadingPacket(size),
        LookupStage::ReadingPacket(size).after(LookupEvent::Packet(packet))
            == LookupStage::PuttingData,
        LookupStage::PuttingData.after(LookupEvent::DataPut) == LookupStage::Releasing,
        LookupStage::Releasing.after(LookupEvent::CacheReleased) == LookupStage::Finished,
{
}

/// Where a lookup is cut short: without an entry it is over; without time left or
/// without data the entry is given back; data of a size that no packet has is given
/// back unread, and then the entry.
pub proof fn law_lookup_is_cut_short(size: usize)
    requires
        size < 12 || size > 65535,
    ensures
        LookupStage::Searching.after(LookupEvent::CacheMissing) == LookupStage::Finished,
        LookupStage::ReadingTtl.after(LookupEvent::Ttl(0)) == LookupStage::Releasing,
        LookupStage::ReadingData.after(LookupEvent::DataMissing) == LookupStage::Releasing,
        LookupStage::ReadingData.after(LookupEvent::Data(size)) == LookupStage::PuttingData,
{
}

/// An answer that a stage did not ask for changes nothing.
pub proof fn law_lookup_ignores_what_it_did_not_ask_for(stage: LookupStage, event: LookupEvent)
    requires
        stage == LookupStage::Searching ==> !(event is CacheFound || event is CacheMissing),
        stage == LookupStage::ReadingTtl ==> !(event is Ttl),
        stage == LookupStage::ReadingData ==> !(event is Data || event is DataMissing),
        stage matches LookupStage::ReadingPacket(size) ==> !(
        event matches LookupEvent::Packet(packet) && packet@.len() == size),
        stage == LookupStage::PuttingData ==> !(event is DataPut),
        stage == LookupStage::Releasing ==> !(event is CacheReleased),
    ensures
        stage.after(event) == stage,
{
}

/// The numbers of the log levels, from the most to the least talkative.
pub proof fn law_log_levels_are_numbered_in_order()
    ensures
        LogLevel::DEBUG.number() == 0,
        LogLevel::INFO.number() == 1,
        LogLevel::NOTICE.number() == 2,
        LogLevel::WARN.number() == 3,
        LogLevel::ERROR.number() == 4,
        LogLevel::FATAL.number() == 5,
        LogLevel::OFF.number() == 6,
        forall|value: u32| value > 6 ==> #[trigger] level_of(value) is Err,
{
}

} // verus!
