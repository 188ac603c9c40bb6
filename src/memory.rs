use vstd::prelude::*;
use crate::codec::{
    Message, encode, decode, content_of, decode_spec, encode_spec, content_spec, valid_role, has_delimiter,
    lemma_round_trip, lemma_decode_without_delimiter,
};
use crate::registry::{CleanupRegistry, in_flight};
use crate::store::{after_batches, range_from_head, trim_from, remove_keys};

verus! {

/// The raw lines of a list as text.
pub open spec fn lines_view(lines: Seq<String>) -> Seq<Seq<char>> {
    lines.map_values(|s: String| s@)
}

/// The messages as (role, content) pairs.
pub open spec fn messages_view(messages: Seq<Message>) -> Seq<(Seq<char>, Seq<char>)> {
    messages.map_values(|m: Message| m@)
}

/// The messages that decode from `lines`, in order; undecodable lines are dropped.
pub open spec fn decode_all(lines: Seq<Seq<char>>) -> Seq<(Seq<char>, Seq<char>)>
    decreases lines.len(),
{
    if lines.len() == 0 {
        Seq::empty()
    } else {
        let prev = decode_all(lines.drop_last());
        match decode_spec(lines.last()) {
            Some(m) => prev.push(m),
            None => prev,
        }
    }
}

/// The key under which the context of a session is kept.
pub open spec fn context_key_spec(session_id: Seq<char>) -> Seq<char> {
    session_id + seq!['_', 'c', 'o', 'n', 't', 'e', 'x', 't']
}

/// Decoding never yields more messages than there are lines.
pub proof fn lemma_decode_all_len(lines: Seq<Seq<char>>)
    ensures
        decode_all(lines).len() <= lines.len(),
    decreases lines.len(),
{
    if lines.len() > 0 {
        lemma_decode_all_len(lines.drop_last());
    }
}

/// A read is not disturbed by a corrupt line: a line without a delimiter,
/// wherever it stands in the window, adds no message and removes none.
pub proof fn lemma_corrupt_line_skipped(lines: Seq<Seq<char>>, i: int, bad: Seq<char>)
    requires
        0 <= i <= lines.len(),
        !has_delimiter(bad),
    ensures
        decode_all(lines.insert(i, bad)) == decode_all(lines),
    decreases lines.len(),
{
    lemma_decode_without_delimiter(bad);
    if i == lines.len() {
        assert(lines.insert(i, bad).drop_last() =~= lines);
    } else {
        lemma_corrupt_line_skipped(lines.drop_last(), i, bad);
        assert(lines.insert(i, bad).drop_last() =~= lines.drop_last().insert(i, bad));
        assert(lines.insert(i, bad).last() == lines.last());
    }
}

/// What a read hands back: the recent window of messages, newest first, and
/// the context left by the last compaction, if any.
pub struct MemoryResponse {
    pub messages: Vec<Message>,
    pub context: Option<String>,
}

/// What a read asks of the store: the lines at indices `0..=stop` of
/// `list_key`, and the string under `context_key`.
pub struct ReadPlan {
    pub list_key: String,
    pub context_key: String,
    pub stop: u64,
}

/// What a verified trailing delete decided.
#[derive(Debug, PartialEq, Eq, Structural)]
pub enum DeleteLastOutcome {
    /// Keep the lines from index `keep_from` onward.
    Trim { keep_from: u64 },
    /// The newest line did not carry the expected text, or there was none:
    /// the list stays as it is.
    Mismatch,
}

/// The key of the context of `session_id`.
pub fn context_key(session_id: &str) -> (r: String)
    ensures
        r@ == context_key_spec(session_id@),
{
    let mut r = session_id.to_string();
    proof {
        reveal_strlit("_context");
    }
    r.append("_context");
    assert(r@ =~= context_key_spec(session_id@));
    r
}

/// The store reads of a memory read: the window of `window_size + 1` newest
/// lines (the range bound is inclusive) and the context.
pub fn plan_read(session_id: &str, window_size: u64) -> (r: ReadPlan)
    ensures
        r.list_key@ == session_id@,
        r.context_key@ == context_key_spec(session_id@),
        r.stop == window_size,
{
    ReadPlan { list_key: session_id.to_string(), context_key: context_key(session_id), stop: window_size }
}

/// Decodes the raw lines of a window, dropping those without a delimiter.
pub fn decode_lines(lines: &Vec<String>) -> (r: Vec<Message>)
    ensures
        messages_view(r@) == decode_all(lines_view(lines@)),
{
    let mut r: Vec<Message> = Vec::new();
    let mut i: usize = 0;
    while i < lines.len()
        invariant
            i <= lines.len(),
            messages_view(r@) == decode_all(lines_view(lines@.take(i as int))),
        decreases lines.len() - i,
    {
        let ghost prev = r@;
        proof {
            assert(lines_view(lines@.take(i + 1)).drop_last() =~= lines_view(lines@.take(i as int)));
            assert(lines_view(lines@.take(i + 1)).last() == lines[i as int]@);
        }
        match decode(lines[i].as_str()) {
            Some(m) => {
                r.push(m);
                assert(messages_view(r@) =~= messages_view(prev).push(r@.last()@));
            },
            None => {},
        }
        i = i + 1;
    }
    assert(lines@.take(i as int) =~= lines@);
    r
}

/// The response of a memory read, from the window's raw lines and the
/// stored context.
pub fn memory_response(lines: &Vec<String>, context: Option<String>) -> (r: MemoryResponse)
    ensures
        messages_view(r.messages@) == decode_all(lines_view(lines@)),
        r.context == context,
{
    MemoryResponse { messages: decode_lines(lines), context }
}

/// The lines that an append pushes, one per message, in the order given.
pub fn encode_batch(messages: &Vec<Message>) -> (r: Vec<String>)
    ensures
        r@.len() == messages@.len(),
        forall|i: int| 0 <= i < r@.len() ==> #[trigger] r@[i]@ == encode_spec(messages@[i].role@, messages@[i].content@),
        lines_view(r@) == encode_all(messages_view(messages@)),
{
    let mut r: Vec<String> = Vec::new();
    let mut i: usize = 0;
    while i < messages.len()
        invariant
            i <= messages.len(),
            r@.len() == i,
            forall|j: int| 0 <= j < i ==> #[trigger] r@[j]@ == encode_spec(messages@[j].role@, messages@[j].content@),
        decreases messages.len() - i,
    {
        r.push(encode(&messages[i]));
        i = i + 1;
    }
    assert(lines_view(r@) =~= encode_all(messages_view(messages@)));
    r
}

/// Whether a list that has grown to `list_len` lines is past the threshold.
pub open spec fn over_window(list_len: i64, window_size: u64) -> bool {
    list_len as int > window_size as int
}

/// The decision that follows an append which left the list at `list_len`
/// lines: a compaction of `session_id` is admitted, and must be started, when
/// the list is past the window and none is in flight; the registry records it.
pub fn admit_compaction(registry: &mut CleanupRegistry, session_id: &str, list_len: i64, window_size: u64) -> (r: bool)
    ensures
        r == (over_window(list_len, window_size) && !in_flight(old(registry)@, session_id@)),
        final(registry)@ == if r { old(registry)@.insert(session_id@) } else { old(registry)@ },
{
    if list_len >= 0 && list_len as u64 > window_size {
        registry.try_admit(session_id)
    } else {
        false
    }
}

/// The keys that a delete removes: the session's list and its context.
pub fn delete_keys(session_id: &str) -> (r: Vec<String>)
    ensures
        r@.len() == 2,
        r@[0]@ == session_id@,
        r@[1]@ == context_key_spec(session_id@),
{
    let mut r: Vec<String> = Vec::new();
    r.push(session_id.to_string());
    r.push(context_key(session_id));
    r
}

/// The inclusive range of indices that a trailing delete of `count` lines
/// reads first; nothing is read for a count of zero.
pub fn delete_last_range(count: u64) -> (r: Option<(u64, u64)>)
    ensures
        count == 0 ==> r is None,
        count > 0 ==> r == Some((0u64, (count - 1) as u64)),
{
    if count == 0 {
        None
    } else {
        Some((0, count - 1))
    }
}

/// The decision of a trailing delete on the lines read first (newest
/// first): the `count` newest lines go when the newest one carries
/// `expected` as its content.
pub open spec fn delete_last_spec(newest: Seq<Seq<char>>, count: u64, expected: Seq<char>) -> Option<u64> {
    if count > 0 && newest.len() > 0 && content_spec(newest[0]) == expected {
        Some(count)
    } else {
        None
    }
}

/// Compares the newest line read with the text that the caller expects and
/// decides whether the `count` newest lines are trimmed.
pub fn delete_last_decision(newest: &Vec<String>, count: u64, expected: &str) -> (r: DeleteLastOutcome)
    ensures
        match r {
            DeleteLastOutcome::Trim { keep_from } => delete_last_spec(lines_view(newest@), count, expected@) == Some(keep_from),
            DeleteLastOutcome::Mismatch => delete_last_spec(lines_view(newest@), count, expected@) is None,
        },
{
    if count == 0 || newest.len() == 0 {
        return DeleteLastOutcome::Mismatch;
    }
    let content = content_of(newest[0].as_str());
    let wanted = expected.to_string();
    assert(lines_view(newest@)[0] == newest@[0]@);
    if content == wanted {
        DeleteLastOutcome::Trim { keep_from: count }
    } else {
        DeleteLastOutcome::Mismatch
    }
}

/// The lines of a batch of messages, as an append pushes them.
pub open spec fn encode_all(batch: Seq<(Seq<char>, Seq<char>)>) -> Seq<Seq<char>> {
    batch.map_values(|m: (Seq<char>, Seq<char>)| encode_spec(m.0, m.1))
}

/// A read of a session returns at most `window_size + 1` messages, however
/// many batches were appended to it.
pub proof fn lemma_window_bound(batches: Seq<Seq<(Seq<char>, Seq<char>)>>, window_size: u64)
    ensures
        decode_all(
            range_from_head(
                after_batches(batches.map_values(|b: Seq<(Seq<char>, Seq<char>)>| encode_all(b))),
                window_size as int,
            ),
        ).len() <= window_size + 1,
{
    let list = after_batches(batches.map_values(|b: Seq<(Seq<char>, Seq<char>)>| encode_all(b)));
    lemma_decode_all_len(range_from_head(list, window_size as int));
}

/// A trailing delete is guarded by the newest message: on `[m0, m1, m2]`
/// (newest first), deleting two with the content of `m0` leaves `[m2]`, and
/// the same call made again is refused unless `m2` carries that content too.
pub proof fn lemma_delete_last_guard(
    m0: (Seq<char>, Seq<char>),
    m1: (Seq<char>, Seq<char>),
    m2: (Seq<char>, Seq<char>),
)
    requires
        valid_role(m0.0),
        valid_role(m1.0),
        valid_role(m2.0),
    ensures
        ({
            let list = seq![encode_spec(m0.0, m0.1), encode_spec(m1.0, m1.1), encode_spec(m2.0, m2.1)];
            let after = trim_from(list, 2);
            &&& delete_last_spec(range_from_head(list, 1), 2, m0.1) == Some(2u64)
            &&& after == seq![encode_spec(m2.0, m2.1)]
            &&& (delete_last_spec(range_from_head(after, 1), 2, m0.1) is None <==> m2.1 != m0.1)
        }),
{
    let list = seq![encode_spec(m0.0, m0.1), encode_spec(m1.0, m1.1), encode_spec(m2.0, m2.1)];
    lemma_round_trip(m0.0, m0.1);
    lemma_round_trip(m2.0, m2.1);
    assert(range_from_head(list, 1)[0] == list[0]);
    assert(trim_from(list, 2) =~= seq![encode_spec(m2.0, m2.1)]);
}

/// Deleting a session that is not in the store leaves the store as it was,
/// and deleting a session twice is the same as deleting it once.
pub proof fn lemma_delete_idempotent<V>(store: Map<Seq<char>, V>, session_id: Seq<char>)
    ensures
        ({
            let keys = seq![session_id, context_key_spec(session_id)];
            &&& (!store.contains_key(session_id) && !store.contains_key(context_key_spec(session_id)))
                ==> remove_keys(store, keys) == store
            &&& remove_keys(remove_keys(store, keys), keys) == remove_keys(store, keys)
        }),
{
    let keys = seq![session_id, context_key_spec(session_id)];
    if !store.contains_key(session_id) && !store.contains_key(context_key_spec(session_id)) {
        assert(remove_keys(store, keys) =~= store);
    }
    assert(remove_keys(remove_keys(store, keys), keys) =~= remove_keys(store, keys));
}

} // verus!
