//! The side of the plugin that faces the router: the commands of the RouterOS
//! API that it sends, and what it makes of the replies.

use crate::text::{decimal, decimal_text, lemma_utf8_concatenation, same_text};
use mikrotik_rs::command::{Cmd, Command, CommandBuilder, NoCmd};
use vstd::prelude::*;
use vstd::string::*;
use vstd::utf8::*;

verus! {

/// A command of the RouterOS API, ready to be sent.
#[verifier::external_type_specification]
#[verifier::external_body]
pub struct ExCommand(Command);

/// A command under construction.
#[verifier::external_type_specification]
#[verifier::external_body]
#[verifier::reject_recursive_types(State)]
pub struct ExCommandBuilder<State>(CommandBuilder<State>);

/// The state of a builder that has its command word.
#[verifier::external_type_specification]
#[verifier::external_body]
pub struct ExCmd(Cmd);

/// The state of a builder that has no command word yet.
#[verifier::external_type_specification]
#[verifier::external_body]
pub struct ExNoCmd(NoCmd);

/// The tag of a command under construction that has no command word yet.
pub uninterp spec fn builder_tag(builder: CommandBuilder<NoCmd>) -> u32;

/// The words of a command under construction, in order.
pub uninterp spec fn builder_words(builder: CommandBuilder<Cmd>) -> Seq<Seq<char>>;

/// The words of a command, in order.
pub uninterp spec fn command_words(command: Command) -> Seq<Seq<char>>;

/// The word that carries a command's tag: ten decimal digits.
pub open spec fn tag_word(tag: u32) -> Seq<char> {
    let digits = decimal(tag as nat);
    ".tag="@ + Seq::new((10 - digits.len()) as nat, |i: int| '0') + digits
}

/// The word that gives the attribute `key` a value.
pub open spec fn attribute_word(key: Seq<char>, value: Seq<char>) -> Seq<char> {
    "="@ + key + "="@ + value
}

/// The word that asks for items whose property `key` has a value.
pub open spec fn query_word(key: Seq<char>, value: Seq<char>) -> Seq<char> {
    "?"@ + key + "="@ + value
}

/// Whether a word is short enough for the protocol: its length in bytes must fit
/// in 32 bits.
pub open spec fn word_fits(word: Seq<char>) -> bool {
    encode_utf8(word).len() <= u32::MAX
}

/// `CommandBuilder::new` begins a command. It takes the command's tag from a
/// counter of the process, so nothing is said of the tag.
pub assume_specification[ CommandBuilder::<NoCmd>::new ]() -> (builder: CommandBuilder<NoCmd>)
;

/// `CommandBuilder::command` writes the command word and, behind it, the word
/// with the builder's tag. It panics where the command word is too long.
pub assume_specification[ CommandBuilder::<NoCmd>::command ](
    builder: CommandBuilder<NoCmd>,
    command: &str,
) -> (next: CommandBuilder<Cmd>)
    requires
        word_fits(command@),
    ensures
        builder_words(next) == seq![command@, tag_word(builder_tag(builder))],
;

/// `CommandBuilder::attribute` appends the word of an attribute that has a value,
/// and nothing for one that has none. It panics where the word is too long.
pub assume_specification[ CommandBuilder::<Cmd>::attribute ](
    builder: CommandBuilder<Cmd>,
    key: &str,
    value: Option<&str>,
) -> (next: CommandBuilder<Cmd>)
    requires
        value matches Some(v) ==> word_fits(attribute_word(key@, v@)),
    ensures
        builder_words(next) == (match value {
            Some(v) => builder_words(builder).push(attribute_word(key@, v@)),
            None => builder_words(builder),
        }),
;

/// `CommandBuilder::query_equal` appends the word of a query for equality. It
/// panics where the word is too long.
pub assume_specification[ CommandBuilder::<Cmd>::query_equal ](
    builder: CommandBuilder<Cmd>,
    name: &str,
    value: &str,
) -> (next: CommandBuilder<Cmd>)
    requires
        word_fits(query_word(name@, value@)),
    ensures
        builder_words(next) == builder_words(builder).push(query_word(name@, value@)),
;

/// `CommandBuilder::build` makes a command of the words.
pub assume_specification[ CommandBuilder::<Cmd>::build ](builder: CommandBuilder<Cmd>) -> (command:
    Command)
    ensures
        command_words(command) == builder_words(builder),
;

/// A single entry for a batch of additions.
pub struct PipelineEntry<'a> {
    pub ip_path: &'a str,
    pub list: &'a str,
    pub address: &'a str,
    pub domain: &'a str,
    pub ttl: u32,
}

/// The comment of an entry for `domain`.
pub open spec fn comment_of(domain: Seq<char>) -> Seq<char> {
    "smartdns: "@ + domain
}

impl<'a> PipelineEntry<'a> {
    /// The words, but for the tag, of the command that adds the entry: its path,
    /// then its attributes.
    pub open spec fn words(self) -> Seq<Seq<char>> {
        seq![
            self.ip_path@ + "/add"@,
            attribute_word("list"@, self.list@),
            attribute_word("address"@, self.address@),
            attribute_word("timeout"@, decimal(self.ttl as nat)),
            attribute_word("comment"@, comment_of(self.domain@)),
        ]
    }

    /// Whether the words of the entry are short enough for the protocol.
    pub open spec fn fits(self) -> bool {
        all_fit(self.words())
    }
}

/// Whether every word is short enough for the protocol.
pub open spec fn all_fit(words: Seq<Seq<char>>) -> bool {
    forall|i: int| 0 <= i < words.len() ==> word_fits(#[trigger] words[i])
}

/// Whether `command` is made of `words`, with its tag behind the first of them.
pub open spec fn is_made_of(command: Command, words: Seq<Seq<char>>) -> bool {
    exists|tag: u32|
        command_words(command) == seq![words[0], #[trigger] tag_word(tag)] + words.skip(1)
}

/// The command that adds an entry to an address list.
pub fn add_command(entry: &PipelineEntry) -> (command: Command)
    requires
        entry.fits(),
    ensures
        is_made_of(command, entry.words()),
{
    let mut path = String::from_str(entry.ip_path);
    path.append("/add");
    let timeout = decimal_text(entry.ttl);
    let mut comment = String::from_str("smartdns: ");
    comment.append(entry.domain);
    let ghost words = entry.words();
    assert(word_fits(words[0]) && word_fits(words[1]) && word_fits(words[2]) && word_fits(words[3])
        && word_fits(words[4]));
    let command = CommandBuilder::new().command(path.as_str()).attribute(
        "list",
        Some(entry.list),
    ).attribute("address", Some(entry.address)).attribute(
        "timeout",
        Some(timeout.as_str()),
    ).attribute("comment", Some(comment.as_str())).build();
    proof {
        let tag = choose|tag: u32|
            command_words(command).take(2) =~= seq![path@, #[trigger] tag_word(tag)];
        assert(command_words(command) =~= seq![words[0], tag_word(tag)] + words.skip(1));
    }
    command
}

/// The length of a text in bytes.
fn byte_len(text: &str) -> (len: u128)
    ensures
        len == encode_utf8(text@).len(),
        len <= u64::MAX,
{
    text.as_bytes().len() as u128
}

/// The length in bytes of a key and a value with two characters set between or
/// before them.
proof fn lemma_word_len(mark: Seq<char>, key: Seq<char>, value: Seq<char>)
    requires
        mark.len() == 1,
        is_ascii_chars(mark),
    ensures
        encode_utf8(mark + key + "="@ + value).len() == encode_utf8(key).len() + encode_utf8(
            value,
        ).len() + 2,
{
    reveal_strlit("=");
    is_ascii_chars_encode_utf8("="@);
    is_ascii_chars_encode_utf8(mark);
    lemma_utf8_concatenation(mark, key);
    lemma_utf8_concatenation(mark + key, "="@);
    lemma_utf8_concatenation(mark + key + "="@, value);
}

/// Whether the word of an attribute is short enough for the protocol.
fn attribute_fits(key: &str, value: &str) -> (fits: bool)
    ensures
        fits == word_fits(attribute_word(key@, value@)),
{
    proof {
        reveal_strlit("=");
        lemma_word_len("="@, key@, value@);
    }
    byte_len(key) + byte_len(value) + 2 <= u32::MAX as u128
}

/// Whether the word of a query is short enough for the protocol.
fn query_fits(key: &str, value: &str) -> (fits: bool)
    ensures
        fits == word_fits(query_word(key@, value@)),
{
    proof {
        reveal_strlit("?");
        lemma_word_len("?"@, key@, value@);
    }
    byte_len(key) + byte_len(value) + 2 <= u32::MAX as u128
}

/// `head` with `tail` behind it.
fn concatenated(head: &str, tail: &str) -> (text: String)
    ensures
        text@ == head@ + tail@,
{
    let mut text = String::from_str(head);
    text.append(tail);
    text
}

impl<'a> PipelineEntry<'a> {
    /// Whether the words of the entry are short enough for the protocol.
    pub fn check_fits(&self) -> (fits: bool)
        ensures
            fits == self.fits(),
    {
        let path = concatenated(self.ip_path, "/add");
        let timeout = decimal_text(self.ttl);
        let comment = concatenated("smartdns: ", self.domain);
        let fits = byte_len(path.as_str()) <= u32::MAX as u128 && attribute_fits("list", self.list)
            && attribute_fits("address", self.address) && attribute_fits(
            "timeout",
            timeout.as_str(),
        ) && attribute_fits("comment", comment.as_str());
        proof {
            let words = self.words();
            if self.fits() {
                assert(word_fits(words[0]) && word_fits(words[1]) && word_fits(words[2])
                    && word_fits(words[3]) && word_fits(words[4]));
            }
        }
        fits
    }
}

/// The words, but for the tag, of the command that finds an entry by its list
/// and address.
pub open spec fn find_words(
    ip_path: Seq<char>,
    list: Seq<char>,
    address: Seq<char>,
) -> Seq<Seq<char>> {
    seq![ip_path + "/find"@, query_word("list"@, list), query_word("address"@, address)]
}

/// Whether the words of a command that finds an entry are short enough for the
/// protocol.
pub fn find_fits(ip_path: &str, list: &str, address: &str) -> (fits: bool)
    ensures
        fits == all_fit(find_words(ip_path@, list@, address@)),
{
    let path = concatenated(ip_path, "/find");
    let fits = byte_len(path.as_str()) <= u32::MAX as u128 && query_fits("list", list)
        && query_fits("address", address);
    proof {
        let words = find_words(ip_path@, list@, address@);
        if all_fit(words) {
            assert(word_fits(words[0]) && word_fits(words[1]) && word_fits(words[2]));
        }
    }
    fits
}

/// The command that finds an entry by its list and address.
pub fn find_command(ip_path: &str, list: &str, address: &str) -> (command: Command)
    requires
        all_fit(find_words(ip_path@, list@, address@)),
    ensures
        is_made_of(command, find_words(ip_path@, list@, address@)),
{
    let path = concatenated(ip_path, "/find");
    let ghost words = find_words(ip_path@, list@, address@);
    assert(word_fits(words[0]) && word_fits(words[1]) && word_fits(words[2]));
    let command = CommandBuilder::new().command(path.as_str()).query_equal(
        "list",
        list,
    ).query_equal("address", address).build();
    proof {
        let tag = choose|tag: u32|
            command_words(command).take(2) =~= seq![path@, #[trigger] tag_word(tag)];
        assert(command_words(command) =~= seq![words[0], tag_word(tag)] + words.skip(1));
    }
    command
}

/// The words, but for the tag, of the command that sets an entry's timeout.
pub open spec fn timeout_words(ip_path: Seq<char>, entry_id: Seq<char>, ttl: u32) -> Seq<
    Seq<char>,
> {
    seq![
        ip_path + "/set"@,
        attribute_word(".id"@, entry_id),
        attribute_word("timeout"@, decimal(ttl as nat)),
        attribute_word("comment"@, "smartdns"@),
    ]
}

/// Whether the words of a command that sets an entry's timeout are short enough
/// for the protocol.
pub fn timeout_fits(ip_path: &str, entry_id: &str, ttl: u32) -> (fits: bool)
    ensures
        fits == all_fit(timeout_words(ip_path@, entry_id@, ttl)),
{
    let path = concatenated(ip_path, "/set");
    let timeout = decimal_text(ttl);
    let fits = byte_len(path.as_str()) <= u32::MAX as u128 && attribute_fits(".id", entry_id)
        && attribute_fits("timeout", timeout.as_str()) && attribute_fits("comment", "smartdns");
    proof {
        let words = timeout_words(ip_path@, entry_id@, ttl);
        if all_fit(words) {
            assert(word_fits(words[0]) && word_fits(words[1]) && word_fits(words[2]) && word_fits(
                words[3],
            ));
        }
    }
    fits
}

/// The command that sets the timeout of an existing entry.
pub fn timeout_command(ip_path: &str, entry_id: &str, ttl: u32) -> (command: Command)
    requires
        all_fit(timeout_words(ip_path@, entry_id@, ttl)),
    ensures
        is_made_of(command, timeout_words(ip_path@, entry_id@, ttl)),
{
    let path = concatenated(ip_path, "/set");
    let timeout = decimal_text(ttl);
    let ghost words = timeout_words(ip_path@, entry_id@, ttl);
    assert(word_fits(words[0]) && word_fits(words[1]) && word_fits(words[2]) && word_fits(
        words[3],
    ));
    let command = CommandBuilder::new().command(path.as_str()).attribute(
        ".id",
        Some(entry_id),
    ).attribute("timeout", Some(timeout.as_str())).attribute("comment", Some("smartdns")).build();
    proof {
        let tag = choose|tag: u32|
            command_words(command).take(2) =~= seq![path@, #[trigger] tag_word(tag)];
        assert(command_words(command) =~= seq![words[0], tag_word(tag)] + words.skip(1));
    }
    command
}

/// Outcome of an add operation.
#[derive(Debug, Clone, Copy, PartialEq, Eq, Structural)]
pub enum AddOutcome {
    /// The router has added the entry.
    Added,
    /// The router had the entry already.
    Duplicate,
}

/// The kinds of failure of a request to the router.
#[derive(Debug, Clone, Copy, PartialEq, Eq, Structural)]
pub enum ErrorKind {
    /// The router's address is none that can be connected to.
    InvalidInput,
    /// The request was not sent, because the connection had broken.
    NotConnected,
    /// The connection ended before the request was answered.
    ConnectionReset,
    /// Any other failure.
    Other,
}

/// The failure of a request to the router.
#[derive(Debug)]
pub struct ApiError {
    pub kind: ErrorKind,
    pub message: String,
}

impl View for ApiError {
    type V = (ErrorKind, Seq<char>);

    open spec fn view(&self) -> (ErrorKind, Seq<char>) {
        (self.kind, self.message@)
    }
}

/// What is known of a result: the outcome, or the kind and message of the error.
pub type AddResult = Result<AddOutcome, (ErrorKind, Seq<char>)>;

/// What is known of a result.
pub open spec fn result_view(result: Result<AddOutcome, ApiError>) -> AddResult {
    match result {
        Ok(outcome) => Ok(outcome),
        Err(e) => Err(e@),
    }
}

/// What is known of a result that may still be outstanding.
pub open spec fn pending_view(result: Option<Result<AddOutcome, ApiError>>) -> Option<AddResult> {
    match result {
        Some(r) => Some(result_view(r)),
        None => None,
    }
}

/// The error for a failure that has no kind of its own.
pub fn other_err(message: String) -> (error: ApiError)
    ensures
        error@ == (ErrorKind::Other, message@),
{
    ApiError { kind: ErrorKind::Other, message }
}

/// A sentence that the router sent in reply to a command.
pub enum ReplyEvent {
    /// The command is done.
    Done,
    /// The command failed.
    Trap,
    /// The connection is dead.
    Fatal,
    /// A row of data, as names and values.
    Reply(Vec<(String, Option<String>)>),
    /// The command had no data.
    Empty,
}

/// The error for a fatal reply.
pub open spec fn fatal_error() -> (ErrorKind, Seq<char>) {
    (ErrorKind::ConnectionReset, "fatal error from RouterOS"@)
}

/// The error for replies that ended without a verdict.
pub open spec fn closed_error() -> (ErrorKind, Seq<char>) {
    (ErrorKind::ConnectionReset, "connection closed without response"@)
}

/// The error for a request that was not sent because an earlier one failed.
pub open spec fn skipped_error() -> (ErrorKind, Seq<char>) {
    (ErrorKind::NotConnected, "skipped: connection broken during pipeline"@)
}

/// What a reply says of an addition, where it decides: a trap means that the
/// entry exists already.
pub open spec fn add_verdict(event: ReplyEvent) -> Option<AddResult> {
    match event {
        ReplyEvent::Done => Some(Ok(AddOutcome::Added)),
        ReplyEvent::Trap => Some(Ok(AddOutcome::Duplicate)),
        ReplyEvent::Fatal => Some(Err(fatal_error())),
        ReplyEvent::Reply(_) => None,
        ReplyEvent::Empty => None,
    }
}

/// The result of an addition whose replies were `events`: what the first reply
/// that decides says.
pub open spec fn add_result(events: Seq<ReplyEvent>) -> AddResult
    decreases events.len(),
{
    if events.len() == 0 {
        Err(closed_error())
    } else {
        match add_verdict(events[0]) {
            Some(verdict) => verdict,
            None => add_result(events.skip(1)),
        }
    }
}

/// What a reply says of an addition, where it decides.
pub fn add_reply(event: &ReplyEvent) -> (verdict: Option<Result<AddOutcome, ApiError>>)
    ensures
        pending_view(verdict) == add_verdict(*event),
{
    match event {
        ReplyEvent::Done => Some(Ok(AddOutcome::Added)),
        ReplyEvent::Trap => Some(Ok(AddOutcome::Duplicate)),
        ReplyEvent::Fatal => Some(
            Err(
                ApiError {
                    kind: ErrorKind::ConnectionReset,
                    message: String::from_str("fatal error from RouterOS"),
                },
            ),
        ),
        ReplyEvent::Reply(_) => None,
        ReplyEvent::Empty => None,
    }
}

/// The error for replies that ended without a verdict.
pub fn no_response() -> (error: ApiError)
    ensures
        error@ == closed_error(),
{
    ApiError {
        kind: ErrorKind::ConnectionReset,
        message: String::from_str("connection closed without response"),
    }
}

/// The error for a request that was not sent because an earlier one failed.
pub fn skipped() -> (error: ApiError)
    ensures
        error@ == skipped_error(),
{
    ApiError {
        kind: ErrorKind::NotConnected,
        message: String::from_str("skipped: connection broken during pipeline"),
    }
}

/// Whether a reply is the last to a command.
pub open spec fn ends_replies(event: ReplyEvent) -> bool {
    event is Done || event is Trap || event is Fatal
}

/// Whether a reply is the last to a command.
pub fn reply_ends(event: &ReplyEvent) -> (ends: bool)
    ensures
        ends == ends_replies(*event),
{
    match event {
        ReplyEvent::Done => true,
        ReplyEvent::Trap => true,
        ReplyEvent::Fatal => true,
        ReplyEvent::Reply(_) => false,
        ReplyEvent::Empty => false,
    }
}

/// The value of the name `.id` in a row of data, where it has one.
pub open spec fn row_id(row: Seq<(String, Option<String>)>) -> Option<Seq<char>>
    decreases row.len(),
{
    if row.len() == 0 {
        None
    } else if row[0].0@ == ".id"@ {
        match row[0].1 {
            Some(id) => Some(id@),
            None => None,
        }
    } else {
        row_id(row.skip(1))
    }
}

/// The id found once `event` has come, where `found` was found before.
pub open spec fn id_after(found: Option<Seq<char>>, event: ReplyEvent) -> Option<Seq<char>> {
    match event {
        ReplyEvent::Reply(row) => match row_id(row@) {
            Some(id) => Some(id),
            None => found,
        },
        _ => found,
    }
}

/// The id that the replies to a search give: the last one before the replies
/// end.
pub open spec fn found_id(found: Option<Seq<char>>, events: Seq<ReplyEvent>) -> Option<Seq<char>>
    decreases events.len(),
{
    if events.len() == 0 || ends_replies(events[0]) {
        found
    } else {
        found_id(id_after(found, events[0]), events.skip(1))
    }
}

/// What a search knows: the id found so far, and whether the replies have ended.
pub open spec fn search_after(known: (Option<Seq<char>>, bool), event: ReplyEvent) -> (
    Option<Seq<char>>,
    bool,
) {
    if known.1 || ends_replies(event) {
        (known.0, true)
    } else {
        (id_after(known.0, event), false)
    }
}

/// What a search knows once all of `events` have come.
pub open spec fn search_run(known: (Option<Seq<char>>, bool), events: Seq<ReplyEvent>) -> (
    Option<Seq<char>>,
    bool,
)
    decreases events.len(),
{
    if events.len() == 0 {
        known
    } else {
        search_run(search_after(known, events[0]), events.skip(1))
    }
}

/// A search finds the last id that came before the replies ended, whatever came
/// behind.
pub proof fn law_search_finds_last_id(found: Option<Seq<char>>, events: Seq<ReplyEvent>)
    ensures
        search_run((found, false), events).0 == found_id(found, events),
    decreases events.len(),
{
    if events.len() > 0 {
        if ends_replies(events[0]) {
            lemma_search_run_ended(found, events.skip(1));
        } else {
            law_search_finds_last_id(id_after(found, events[0]), events.skip(1));
        }
    }
}

/// Behind the end of the replies nothing changes.
pub proof fn lemma_search_run_ended(found: Option<Seq<char>>, events: Seq<ReplyEvent>)
    ensures
        search_run((found, true), events) == (found, true),
    decreases events.len(),
{
    if events.len() > 0 {
        lemma_search_run_ended(found, events.skip(1));
    }
}

/// The value of the name `.id` in a row of data, where it has one.
fn id_in(row: &Vec<(String, Option<String>)>) -> (id: Option<String>)
    ensures
        match id {
            Some(s) => row_id(row@) == Some(s@),
            None => row_id(row@) is None,
        },
{
    let mut i: usize = 0;
    assert(row@.skip(0) =~= row@);
    while i < row.len()
        invariant
            i <= row@.len(),
            row_id(row@) == row_id(row@.skip(i as int)),
        decreases row@.len() - i,
    {
        if same_text(row[i].0.as_str(), ".id") {
            return match &row[i].1 {
                Some(id) => Some(id.clone()),
                None => None,
            };
        }
        assert(row@.skip(i as int).skip(1) =~= row@.skip(i + 1));
        i += 1;
    }
    None
}

/// The search for an entry's id among the replies to a search.
pub struct EntrySearch {
    found: Option<String>,
    ended: bool,
}

impl EntrySearch {
    /// The id found so far.
    pub closed spec fn found(self) -> Option<Seq<char>> {
        match self.found {
            Some(id) => Some(id@),
            None => None,
        }
    }

    /// Whether the replies have ended.
    pub closed spec fn ended(self) -> bool {
        self.ended
    }

    /// A search that has seen no reply.
    pub fn new() -> (search: Self)
        ensures
            search.found() is None,
            !search.ended(),
    {
        EntrySearch { found: None, ended: false }
    }

    /// Takes a reply, and tells whether the replies have ended. Behind the end
    /// nothing is taken.
    pub fn reply(&mut self, event: &ReplyEvent) -> (ended: bool)
        ensures
            ended == final(self).ended(),
            (final(self).found(), final(self).ended()) == search_after(
                (old(self).found(), old(self).ended()),
                *event,
            ),
    {
        if self.ended {
            return true;
        }
        match event {
            ReplyEvent::Reply(row) => {
                if let Some(id) = id_in(row) {
                    self.found = Some(id);
                }
            },
            ReplyEvent::Empty => {},
            _ => {
                self.ended = true;
            },
        }
        self.ended
    }

    /// The id that was found.
    pub fn finish(self) -> (id: Option<String>)
        ensures
            match id {
                Some(s) => self.found() == Some(s@),
                None => self.found() is None,
            },
    {
        self.found
    }
}

} // verus!
