//! What one invocation does with the store: it records a label at the
//! current time, or tells how long ago a label was recorded.

use crate::clock::{elapsed, elapsed_since, get_current_time_as_ms};
use crate::codec::{encode, get_hashmap_as_string};
use crate::duration::{duration_text, milliseconds_to_string};
use crate::error::{ClockError, UsageError};
use crate::store::{distinct_labels, lemma_lookup_after_upsert, lookup, upsert, Entries, Store};
use vstd::prelude::*;

verus! {

/// The name of the file, in the user's home directory, that holds the text
/// form of the store.
pub const STORAGE_FILE_NAME: &'static str = ".daysince.json";

/// What the user asks for.
#[derive(Clone, Debug, PartialEq, Eq)]
pub enum Command {
    /// `did <label>`: record the label at the current time.
    Record(String),
    /// `<label>`: tell how long ago the label was recorded.
    Query(String),
}

/// What a query finds.
#[derive(Clone, Copy, Debug, PartialEq, Eq, Structural)]
pub enum Answer {
    /// The label was never recorded.
    NeverRecorded,
    /// The label was recorded this many milliseconds ago.
    Elapsed(u128),
}

/// The answer, at the time `now`, to a query for `label` in `es`. A label
/// that `es` does not hold was never recorded, whatever the time; for one
/// that it holds, the answer is the time that has passed since its
/// timestamp, and there is none where the timestamp lies after `now`.
pub open spec fn answer_at(es: Entries, label: Seq<char>, now: u128) -> Result<Answer, ClockError> {
    match lookup(es, label) {
        None => Ok(Answer::NeverRecorded),
        Some(timestamp) => match elapsed(now, timestamp) {
            Ok(ms) => Ok(Answer::Elapsed(ms)),
            Err(error) => Err(error),
        },
    }
}

/// The message that tells the user the answer to a query for `label`.
pub open spec fn answer_text(label: Seq<char>, answer: Answer) -> Seq<char> {
    match answer {
        Answer::NeverRecorded => "You never did "@ + label,
        Answer::Elapsed(ms) => "[You havent done "@ + label + " for]\n "@ + duration_text(
            ms as nat,
        ),
    }
}

/// After a label was recorded at the time `at`, a query for it at a time
/// `now` that is not before `at` finds the label and answers with the time
/// between the two, which is never negative and is zero at `at` itself.
pub proof fn lemma_query_after_record(es: Entries, label: Seq<char>, at: u128, now: u128)
    requires
        distinct_labels(es),
        at <= now,
    ensures
        lookup(upsert(es, label, at), label) == Some(at),
        answer_at(upsert(es, label, at), label, now) == Ok::<Answer, ClockError>(
            Answer::Elapsed((now - at) as u128),
        ),
        answer_at(upsert(es, label, at), label, at) == Ok::<Answer, ClockError>(Answer::Elapsed(0)),
{
    lemma_lookup_after_upsert(es, label, at);
}

/// Reads the arguments of an invocation, the program's name first.
///
/// `did` and a label ask to record the label; what follows the label is not
/// looked at. Any other first argument is a label to query. With no argument
/// at all, or with `did` alone, there is nothing to do.
pub fn parse_command(args: &[String]) -> (result: Result<Command, UsageError>)
    ensures
        match result {
            Ok(Command::Record(label)) => args@.len() >= 3 && args@[1]@ == "did"@ && label@
                == args@[2]@,
            Ok(Command::Query(label)) => args@.len() >= 2 && args@[1]@ != "did"@ && label@
                == args@[1]@,
            Err(UsageError::NoArguments) => args@.len() < 2,
            Err(UsageError::MissingLabel) => args@.len() == 2 && args@[1]@ == "did"@,
        },
{
    if args.len() < 2 {
        return Err(UsageError::NoArguments);
    }
    let did = "did".to_owned();
    if args[1] == did {
        if args.len() < 3 {
            Err(UsageError::MissingLabel)
        } else {
            Ok(Command::Record(args[2].clone()))
        }
    } else {
        Ok(Command::Query(args[1].clone()))
    }
}

/// Records `label` at the time `now` and gives the text to persist, which
/// holds every entry of the store after the recording.
pub fn record_at(store: &mut Store, label: &str, now: u128) -> (contents: String)
    ensures
        final(store).entries() == upsert(old(store).entries(), label@, now),
        final(store)@ == old(store)@.insert(label@, now),
        contents@ == encode(final(store).entries()),
{
    store.record(label, now);
    get_hashmap_as_string(store)
}

/// Records `label` at the current time and gives the text to persist.
///
/// Fails, and leaves the store as it is, where the clock stands before the
/// epoch.
pub fn record_action(store: &mut Store, label: &str) -> (result: Result<String, ClockError>)
    ensures
        match result {
            Ok(contents) => {
                &&& exists|now: u128| #[trigger]
                    upsert(old(store).entries(), label@, now) == final(store).entries()
                &&& contents@ == encode(final(store).entries())
            },
            Err(error) => error == ClockError::BeforeEpoch && final(store).entries() == old(
                store,
            ).entries(),
        },
{
    match get_current_time_as_ms() {
        Ok(now) => {
            let contents = record_at(store, label, now);
            assert(upsert(old(store).entries(), label@, now) == store.entries());
            Ok(contents)
        },
        Err(error) => Err(error),
    }
}

/// Answers, at the time `now`, a query for `label`.
pub fn query_at(store: &Store, label: &str, now: u128) -> (result: Result<Answer, ClockError>)
    ensures
        result == answer_at(store.entries(), label@, now),
{
    match store.get(label) {
        None => Ok(Answer::NeverRecorded),
        Some(timestamp) => match elapsed_since(now, timestamp) {
            Ok(ms) => Ok(Answer::Elapsed(ms)),
            Err(error) => Err(error),
        },
    }
}

/// Answers a query for `label` by the system clock.
///
/// A label that the store does not hold was never recorded: that is the
/// answer whatever the clock says, and it is no error. For a label that the
/// store holds, the clock is read; the query fails where the clock stands
/// before the epoch or before the label's timestamp.
pub fn query_elapsed(store: &Store, label: &str) -> (result: Result<Answer, ClockError>)
    ensures
        match lookup(store.entries(), label@) {
            None => result == Ok::<Answer, ClockError>(Answer::NeverRecorded),
            Some(timestamp) => match result {
                Ok(answer) => exists|now: u128| #[trigger]
                    answer_at(store.entries(), label@, now) == Ok::<Answer, ClockError>(answer),
                Err(_) => true,
            },
        },
{
    match store.get(label) {
        None => Ok(Answer::NeverRecorded),
        Some(timestamp) => match get_current_time_as_ms() {
            Ok(now) => {
                let result = query_at(store, label, now);
                assert(result == answer_at(store.entries(), label@, now));
                result
            },
            Err(error) => Err(error),
        },
    }
}

/// The message that tells the user the answer to a query for `label`.
pub fn answer_message(label: &str, answer: Answer) -> (text: String)
    ensures
        text@ == answer_text(label@, answer),
{
    let mut text = String::new();
    match answer {
        Answer::NeverRecorded => {
            text.append("You never did ");
            text.append(label);
        },
        Answer::Elapsed(ms) => {
            text.append("[You havent done ");
            text.append(label);
            text.append(" for]\n ");
            text.append(milliseconds_to_string(ms).as_str());
        },
    }
    assert(text@ =~= answer_text(label@, answer));
    text
}

} // verus!
