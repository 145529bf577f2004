//! What is sent to the router, word by word, and what its replies decide.

use crate::mikrotik_api::{
    add_result, add_verdict, all_fit, closed_error, command_words, ends_replies, fatal_error,
    find_words, found_id, id_after, is_made_of, lemma_search_run_ended, pending_view, result_view,
    row_id, search_run, skipped_error, tag_word, timeout_words, word_fits, AddOutcome, AddResult,
    ApiError, ErrorKind, PipelineEntry, ReplyEvent,
};
use crate::pipeline::{PipelineEvent, PipelineView};
use crate::text::{decimal, lemma_decimal};
use mikrotik_rs::command::Command;
use vstd::arithmetic::power::pow;
use vstd::prelude::*;
use vstd::utf8::*;

verus! {

/// Whether replies are rows of data or empty replies only.
pub open spec fn only_rows(events: Seq<ReplyEvent>) -> bool {
    forall|i: int|
        0 <= i < events.len() ==> #[trigger] events[i] is Reply || events[i] is Empty
}

/// Rows of data and empty replies do not decide an addition, whatever the rows hold
/// and however many they are: the first other reply does. `Done` means that the
/// entry was added, a trap that it exists already, and a fatal reply is an error.
pub proof fn law_first_reply_that_is_no_row_decides(
    rows: Seq<ReplyEvent>,
    reply: ReplyEvent,
    rest: Seq<ReplyEvent>,
)
    requires
        only_rows(rows),
    ensures
        reply is Done ==> add_result(rows + seq![reply] + rest) == AddResult::Ok(AddOutcome::Added),
        reply is Trap ==> add_result(rows + seq![reply] + rest) == AddResult::Ok(
            AddOutcome::Duplicate,
        ),
        reply is Fatal ==> add_result(rows + seq![reply] + rest) == AddResult::Err(
            (ErrorKind::ConnectionReset, "fatal error from RouterOS"@),
        ),
    decreases rows.len(),
{
    let all = rows + seq![reply] + rest;
    if rows.len() > 0 {
        let fewer = rows.skip(1);
        assert forall|i: int| 0 <= i < fewer.len() implies #[trigger] fewer[i] is Reply
            || fewer[i] is Empty by {
            assert(fewer[i] == rows[i + 1]);
        }
        law_first_reply_that_is_no_row_decides(fewer, reply, rest);
        assert(all.skip(1) =~= fewer + seq![reply] + rest);
        assert(all[0] == rows[0]);
        assert(rows[0] is Reply || rows[0] is Empty);
    } else {
        assert(all[0] == reply);
    }
}

/// Replies that end without any other than rows of data and empty ones leave an
/// addition without a response.
pub proof fn law_rows_alone_are_no_response(rows: Seq<ReplyEvent>)
    requires
        only_rows(rows),
    ensures
        add_result(rows) == AddResult::Err(
            (ErrorKind::ConnectionReset, "connection closed without response"@),
        ),
    decreases rows.len(),
{
    if rows.len() > 0 {
        let fewer = rows.skip(1);
        assert forall|i: int| 0 <= i < fewer.len() implies #[trigger] fewer[i] is Reply
            || fewer[i] is Empty by {
            assert(fewer[i] == rows[i + 1]);
        }
        law_rows_alone_are_no_response(fewer);
        assert(rows[0] is Reply || rows[0] is Empty);
    }
}

/// An addition is an error only where a fatal reply came, or no reply that decides.
pub proof fn law_error_has_a_cause(events: Seq<ReplyEvent>)
    ensures
        add_result(events) is Err ==> only_rows(events) || exists|i: int|
            0 <= i < events.len() && #[trigger] events[i] is Fatal,
    decreases events.len(),
{
    if add_result(events) is Err && events.len() > 0 {
        if !(events[0] is Fatal) {
            let fewer = events.skip(1);
            law_error_has_a_cause(fewer);
            if only_rows(fewer) {
                assert forall|i: int| 0 <= i < events.len() implies #[trigger] events[i] is Reply
                    || events[i] is Empty by {
                    if i > 0 {
                        assert(fewer[i - 1] == events[i]);
                    }
                }
            } else {
                let i = choose|i: int| 0 <= i < fewer.len() && #[trigger] fewer[i] is Fatal;
                assert(events[i + 1] is Fatal);
            }
        }
    }
}

/// What one reply says of an addition.
pub proof fn law_what_one_reply_says(row: Vec<(String, Option<String>)>)
    ensures
        add_verdict(ReplyEvent::Reply(row)) is None,
        add_verdict(ReplyEvent::Empty) is None,
        add_verdict(ReplyEvent::Done) == Some(AddResult::Ok(AddOutcome::Added)),
        add_verdict(ReplyEvent::Trap) == Some(AddResult::Ok(AddOutcome::Duplicate)),
        add_verdict(ReplyEvent::Fatal) == Some(
            AddResult::Err((ErrorKind::ConnectionReset, "fatal error from RouterOS"@)),
        ),
{
}

/// The errors of a connection that broke, by kind and message.
pub proof fn law_errors_of_a_broken_connection()
    ensures
        fatal_error() == (ErrorKind::ConnectionReset, "fatal error from RouterOS"@),
        closed_error() == (ErrorKind::ConnectionReset, "connection closed without response"@),
        skipped_error() == (
            ErrorKind::NotConnected,
            "skipped: connection broken during pipeline"@,
        ),
{
}

/// The last reply to a command is a done, a trap or a fatal one; rows of data and
/// empty replies are not.
pub proof fn law_what_ends_replies(event: ReplyEvent)
    ensures
        ends_replies(event) <==> !(event is Reply || event is Empty),
{
}

/// Whether a row of data gives the name `.id` the value `id`, at its first
/// occurrence.
pub open spec fn gives_id(event: ReplyEvent, id: Seq<char>) -> bool {
    event matches ReplyEvent::Reply(row) && exists|k: int|
        {
            &&& 0 <= k < row@.len()
            &&& (#[trigger] row@[k]).0@ == ".id"@
            &&& row@[k].1 matches Some(v) && v@ == id
            &&& forall|j: int| 0 <= j < k ==> (#[trigger] row@[j]).0@ != ".id"@
        }
}

/// The id of a row is the value of the first name `.id`.
proof fn lemma_row_id(row: Seq<(String, Option<String>)>, id: Seq<char>)
    ensures
        row_id(row) == Some(id) <==> exists|k: int|
            {
                &&& 0 <= k < row.len()
                &&& (#[trigger] row[k]).0@ == ".id"@
                &&& row[k].1 matches Some(v) && v@ == id
                &&& forall|j: int| 0 <= j < k ==> (#[trigger] row[j]).0@ != ".id"@
            },
    decreases row.len(),
{
    if row.len() > 0 && row[0].0@ != ".id"@ {
        let rest = row.skip(1);
        lemma_row_id(rest, id);
        if row_id(rest) == Some(id) {
            let k = choose|k: int|
                {
                    &&& 0 <= k < rest.len()
                    &&& (#[trigger] rest[k]).0@ == ".id"@
                    &&& rest[k].1 matches Some(v) && v@ == id
                    &&& forall|j: int| 0 <= j < k ==> (#[trigger] rest[j]).0@ != ".id"@
                };
            assert(row[k + 1] == rest[k]);
            assert forall|j: int| 0 <= j < k + 1 implies (#[trigger] row[j]).0@ != ".id"@ by {
                if j > 0 {
                    assert(rest[j - 1] == row[j]);
                }
            }
        }
        if exists|k: int|
            {
                &&& 0 <= k < row.len()
                &&& (#[trigger] row[k]).0@ == ".id"@
                &&& row[k].1 matches Some(v) && v@ == id
                &&& forall|j: int| 0 <= j < k ==> (#[trigger] row[j]).0@ != ".id"@
            } {
            let k = choose|k: int|
                {
                    &&& 0 <= k < row.len()
                    &&& (#[trigger] row[k]).0@ == ".id"@
                    &&& row[k].1 matches Some(v) && v@ == id
                    &&& forall|j: int| 0 <= j < k ==> (#[trigger] row[j]).0@ != ".id"@
                };
            assert(rest[k - 1] == row[k]);
            assert forall|j: int| 0 <= j < k - 1 implies (#[trigger] rest[j]).0@ != ".id"@ by {
                assert(row[j + 1] == rest[j]);
            }
        }
    } else if row.len() > 0 {
        assert(row[0].0@ == ".id"@);
        if let Some(v) = row[0].1 {
            if v@ == id {
                assert(row[0].0@ == ".id"@);
            }
        }
    }
}

/// The id that one reply gives.
proof fn lemma_id_of_reply(found: Option<Seq<char>>, event: ReplyEvent, id: Seq<char>)
    ensures
        gives_id(event, id) ==> id_after(found, event) == Some(id),
        (forall|other: Seq<char>| !gives_id(event, other)) ==> id_after(found, event) == found,
{
    if let ReplyEvent::Reply(row) = event {
        lemma_row_id(row@, id);
        if let Some(other) = row_id(row@) {
            lemma_row_id(row@, other);
            assert(gives_id(event, other));
        }
    }
}

/// Without an id in any reply before the end, a search finds nothing new.
pub proof fn law_search_without_an_id(
    found: Option<Seq<char>>,
    rows: Seq<ReplyEvent>,
    rest: Seq<ReplyEvent>,
)
    requires
        only_rows(rows),
        forall|i: int, id: Seq<char>| 0 <= i < rows.len() ==> !#[trigger] gives_id(rows[i], id),
        rest.len() > 0 ==> rest[0] is Done || rest[0] is Trap || rest[0] is Fatal,
    ensures
        found_id(found, rows + rest) == found,
    decreases rows.len(),
{
    let all = rows + rest;
    if rows.len() > 0 {
        let fewer = rows.skip(1);
        assert forall|i: int| 0 <= i < fewer.len() implies #[trigger] fewer[i] is Reply
            || fewer[i] is Empty by {
            assert(fewer[i] == rows[i + 1]);
        }
        assert forall|i: int, id: Seq<char>|
            0 <= i < fewer.len() implies !#[trigger] gives_id(fewer[i], id) by {
            assert(fewer[i] == rows[i + 1]);
            assert(!gives_id(rows[i + 1], id));
        }
        assert forall|other: Seq<char>| !gives_id(rows[0], other) by {
            assert(!gives_id(rows[0], other));
        }
        lemma_id_of_reply(found, rows[0], Seq::empty());
        law_search_without_an_id(found, fewer, rest);
        assert(all.skip(1) =~= fewer + rest);
        assert(all[0] == rows[0]);
        assert(rows[0] is Reply || rows[0] is Empty);
    } else if rest.len() > 0 {
        assert(all[0] == rest[0]);
    }
}

/// A search finds the id of the last row that gives one before the replies end,
/// whatever other rows came.
pub proof fn law_search_finds_the_id_of_the_last_row(
    found: Option<Seq<char>>,
    before: Seq<ReplyEvent>,
    row: ReplyEvent,
    id: Seq<char>,
    behind: Seq<ReplyEvent>,
    rest: Seq<ReplyEvent>,
)
    requires
        only_rows(before),
        gives_id(row, id),
        only_rows(behind),
        forall|i: int, other: Seq<char>|
            0 <= i < behind.len() ==> !#[trigger] gives_id(behind[i], other),
        rest.len() > 0 ==> rest[0] is Done || rest[0] is Trap || rest[0] is Fatal,
    ensures
        found_id(found, before + seq![row] + behind + rest) == Some(id),
    decreases before.len(),
{
    let all = before + seq![row] + behind + rest;
    if before.len() > 0 {
        let fewer = before.skip(1);
        assert forall|i: int| 0 <= i < fewer.len() implies #[trigger] fewer[i] is Reply
            || fewer[i] is Empty by {
            assert(fewer[i] == before[i + 1]);
        }
        assert(all[0] == before[0]);
        assert(before[0] is Reply || before[0] is Empty);
        assert(all.skip(1) =~= fewer + seq![row] + behind + rest);
        law_search_finds_the_id_of_the_last_row(
            id_after(found, before[0]),
            fewer,
            row,
            id,
            behind,
            rest,
        );
    } else {
        assert(all[0] == row);
        lemma_id_of_reply(found, row, id);
        assert(all.skip(1) =~= behind + rest);
        law_search_without_an_id(Some(id), behind, rest);
    }
}

/// A search has ended exactly where a reply came that is neither a row of data nor
/// empty.
pub proof fn law_search_ends_with_the_replies(found: Option<Seq<char>>, events: Seq<ReplyEvent>)
    ensures
        search_run((found, false), events).1 <==> !only_rows(events),
    decreases events.len(),
{
    if events.len() > 0 {
        let first = events[0];
        let rest = events.skip(1);
        if first is Reply || first is Empty {
            law_search_ends_with_the_replies(id_after(found, first), rest);
            if only_rows(rest) {
                assert forall|i: int| 0 <= i < events.len() implies #[trigger] events[i] is Reply
                    || events[i] is Empty by {
                    if i > 0 {
                        assert(rest[i - 1] == events[i]);
                    }
                }
            } else {
                let i = choose|i: int|
                    0 <= i < rest.len() && !(#[trigger] rest[i] is Reply || rest[i] is Empty);
                assert(events[i + 1] == rest[i]);
            }
        } else {
            lemma_search_run_ended(found, rest);
        }
    }
}

/// The words of the command that adds an entry, letter by letter but for the tag.
pub proof fn law_words_of_an_addition(entry: PipelineEntry)
    ensures
        entry.words().len() == 5,
        entry.words()[0] == entry.ip_path@ + "/add"@,
        entry.words()[1] == "=list="@ + entry.list@,
        entry.words()[2] == "=address="@ + entry.address@,
        entry.words()[3] == "=timeout="@ + decimal(entry.ttl as nat),
        entry.words()[4] == "=comment=smartdns: "@ + entry.domain@,
{
    reveal_strlit("=");
    reveal_strlit("list");
    reveal_strlit("address");
    reveal_strlit("timeout");
    reveal_strlit("comment");
    reveal_strlit("smartdns: ");
    reveal_strlit("=list=");
    reveal_strlit("=address=");
    reveal_strlit("=timeout=");
    reveal_strlit("=comment=smartdns: ");
    assert(entry.words()[1] =~= "=list="@ + entry.list@);
    assert(entry.words()[2] =~= "=address="@ + entry.address@);
    assert(entry.words()[3] =~= "=timeout="@ + decimal(entry.ttl as nat));
    assert(entry.words()[4] =~= "=comment=smartdns: "@ + entry.domain@);
}

/// The words of the command that finds an entry, letter by letter but for the tag.
pub proof fn law_words_of_a_search(ip_path: Seq<char>, list: Seq<char>, address: Seq<char>)
    ensures
        find_words(ip_path, list, address) == seq![
            ip_path + "/find"@,
            "?list="@ + list,
            "?address="@ + address,
        ],
{
    reveal_strlit("=");
    reveal_strlit("?");
    reveal_strlit("list");
    reveal_strlit("address");
    reveal_strlit("?list=");
    reveal_strlit("?address=");
    let words = find_words(ip_path, list, address);
    assert(words[1] =~= "?list="@ + list);
    assert(words[2] =~= "?address="@ + address);
}

/// The words of the command that sets a timeout, letter by letter but for the tag.
pub proof fn law_words_of_a_timeout(ip_path: Seq<char>, entry_id: Seq<char>, ttl: u32)
    ensures
        timeout_words(ip_path, entry_id, ttl) == seq![
            ip_path + "/set"@,
            "=.id="@ + entry_id,
            "=timeout="@ + decimal(ttl as nat),
            "=comment=smartdns"@,
        ],
{
    reveal_strlit("=");
    reveal_strlit(".id");
    reveal_strlit("timeout");
    reveal_strlit("comment");
    reveal_strlit("smartdns");
    reveal_strlit("=.id=");
    reveal_strlit("=timeout=");
    reveal_strlit("=comment=smartdns");
    let words = timeout_words(ip_path, entry_id, ttl);
    assert(words[1] =~= "=.id="@ + entry_id);
    assert(words[2] =~= "=timeout="@ + decimal(ttl as nat));
    assert(words[3] =~= "=comment=smartdns"@);
}

/// A command has all its words, in order, with one more behind the first: its tag.
pub proof fn law_command_has_its_words(command: Command, words: Seq<Seq<char>>)
    requires
        words.len() > 0,
        is_made_of(command, words),
    ensures
        command_words(command).len() == words.len() + 1,
        command_words(command)[0] == words[0],
        exists|tag: u32| command_words(command)[1] == #[trigger] tag_word(tag),
        forall|i: int| 1 <= i < words.len() ==> command_words(command)[i + 1] == #[trigger] words[i],
{
    let tag = choose|tag: u32|
        command_words(command) == seq![words[0], #[trigger] tag_word(tag)] + words.skip(1);
    assert(command_words(command)[1] == tag_word(tag));
    assert forall|i: int| 1 <= i < words.len() implies command_words(command)[i + 1]
        == #[trigger] words[i] by {
        assert(words.skip(1)[i - 1] == words[i]);
    }
}

/// Words are short enough exactly where none has more bytes than 32 bits can count.
pub proof fn law_words_are_measured_in_bytes(words: Seq<Seq<char>>)
    ensures
        all_fit(words) <==> forall|i: int|
            0 <= i < words.len() ==> encode_utf8(#[trigger] words[i]).len() <= 4294967295,
{
    assert forall|i: int| 0 <= i < words.len() implies word_fits(words[i]) == (encode_utf8(
        #[trigger] words[i],
    ).len() <= 4294967295) by {}
}

/// A batch starts without a result for any entry, and sends the first entry first.
pub proof fn law_batch_starts_without_results(len: int)
    requires
        len >= 0,
    ensures
        ({
            let start = PipelineView::start(len);
            &&& start.results.len() == len
            &&& forall|i: int| 0 <= i < len ==> #[trigger] start.results[i] is None
            &&& start.turn == 0
            &&& start.sending == (len > 0)
            &&& start.wf()
        }),
{
}

/// While commands are sent, each one that was sent brings the next entry's turn, and
/// the last one the turn of the first entry to be answered.
pub proof fn law_sending_goes_in_order(state: PipelineView)
    requires
        state.wf(),
        state.sending,
    ensures
        ({
            let next = state.after(PipelineEvent::Sent);
            &&& next.results == state.results
            &&& state.turn + 1 < state.results.len() ==> next.sending && next.turn == state.turn
                + 1
            &&& state.turn + 1 == state.results.len() ==> !next.sending && next.turn == 0
                && next.sent == state.results.len()
        }),
{
}

/// A command that cannot be sent gives its entry the reason, skips those behind it,
/// and leaves those before it to be answered.
pub proof fn law_failed_sending_ends_the_sending(state: PipelineView, reason: String, i: int)
    requires
        state.wf(),
        state.sending,
        0 <= i < state.results.len(),
    ensures
        ({
            let next = state.after(PipelineEvent::SendFailed(reason));
            &&& !next.sending
            &&& next.turn == 0
            &&& next.sent == state.turn
            &&& i < state.turn ==> next.results[i] is None
            &&& i == state.turn ==> next.results[i] == Some(
                AddResult::Err((ErrorKind::Other, reason@)),
            )
            &&& i > state.turn ==> next.results[i] == Some(
                AddResult::Err(
                    (ErrorKind::NotConnected, "skipped: connection broken during pipeline"@),
                ),
            )
        }),
{
}

/// While replies are awaited, a row of data or an empty reply changes nothing; any
/// other reply, or the end of the replies, gives the entry at the turn its result
/// and brings the next entry's turn.
pub proof fn law_reply_decides_the_entry_at_the_turn(
    state: PipelineView,
    row: Vec<(String, Option<String>)>,
)
    requires
        state.wf(),
        !state.sending,
        state.turn < state.sent,
    ensures
        state.after(PipelineEvent::Reply(ReplyEvent::Reply(row))) == state,
        state.after(PipelineEvent::Reply(ReplyEvent::Empty)) == state,
        is_decided(
            state,
            state.after(PipelineEvent::Reply(ReplyEvent::Done)),
            AddResult::Ok(AddOutcome::Added),
        ),
        is_decided(
            state,
            state.after(PipelineEvent::Reply(ReplyEvent::Trap)),
            AddResult::Ok(AddOutcome::Duplicate),
        ),
        is_decided(
            state,
            state.after(PipelineEvent::Reply(ReplyEvent::Fatal)),
            AddResult::Err((ErrorKind::ConnectionReset, "fatal error from RouterOS"@)),
        ),
        is_decided(
            state,
            state.after(PipelineEvent::Closed),
            AddResult::Err((ErrorKind::ConnectionReset, "connection closed without response"@)),
        ),
{
}

/// Whether the entry at the turn of `state` has got `result`, with all else as it
/// was but the turn, which is the next entry's.
pub open spec fn is_decided(state: PipelineView, next: PipelineView, result: AddResult) -> bool {
    &&& next.turn == state.turn + 1
    &&& next.sent == state.sent
    &&& !next.sending
    &&& next.results.len() == state.results.len()
    &&& forall|i: int|
        0 <= i < state.results.len() ==> #[trigger] next.results[i] == (if i == state.turn {
            Some(result)
        } else {
            state.results[i]
        })
}

/// What does not belong to what a batch waits for changes nothing.
pub proof fn law_batch_ignores_what_it_does_not_wait_for(
    state: PipelineView,
    event: PipelineEvent,
)
    requires
        state.sending ==> event is Reply || event is Closed,
        !state.sending ==> event is Sent || event is SendFailed || state.turn >= state.sent,
    ensures
        state.after(event) == state,
{
}

/// A tag is ten digits behind `.tag=`.
pub proof fn law_tag_is_ten_digits(tag: u32)
    ensures
        tag_word(tag).len() == 15,
        tag_word(tag).take(5) == ".tag="@,
        forall|i: int| 5 <= i < 15 ==> '0' <= #[trigger] tag_word(tag)[i] <= '9',
{
    reveal_strlit(".tag=");
    let digits = decimal(tag as nat);
    lemma_decimal(tag as nat);
    assert(pow(10, 10) == 10_000_000_000) by {
        reveal_with_fuel(pow, 11);
    }
    lemma_numeral_is_short(tag as nat, 10);
    let word = tag_word(tag);
    assert(word.take(5) =~= ".tag="@);
    assert forall|i: int| 5 <= i < 15 implies '0' <= #[trigger] word[i] <= '9' by {
        let k = 15 - digits.len();
        if i >= k {
            assert(word[i] == digits[i - k]);
        }
    }
}

/// A number below a power of ten has no more digits than that power has zeros.
proof fn lemma_numeral_is_short(n: nat, places: nat)
    requires
        places >= 1,
        n < pow(10, places),
    ensures
        decimal(n).len() <= places,
    decreases places,
{
    reveal(pow);
    if n >= 10 {
        if places == 1 {
            reveal_with_fuel(pow, 2);
        } else {
            lemma_numeral_is_short(n / 10, (places - 1) as nat);
        }
    }
}

/// What is known of a result: the outcome itself, or the kind and message of the
/// error.
pub proof fn law_results_are_seen_as_they_are(outcome: AddOutcome, error: ApiError)
    ensures
        result_view(Ok(outcome)) == AddResult::Ok(outcome),
        result_view(Err(error)) == AddResult::Err((error.kind, error.message@)),
        pending_view(Some(Ok(outcome))) == Some(AddResult::Ok(outcome)),
        pending_view(Some(Err(error))) == Some(AddResult::Err((error.kind, error.message@))),
        pending_view(None) is None,
{
}

} // verus!
