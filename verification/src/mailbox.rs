//! The shared message mailbox: an unbounded FIFO queue of text messages,
//! together with the request classification and the single-exchange handling
//! that the line protocol asks for.
//!
//! A client's line is trimmed of surrounding whitespace; an empty result is a
//! retrieve request, anything else publishes the trimmed text. A retrieve
//! pops the oldest message, or answers with a fixed notice when none is
//! pending. Exclusive access is the caller's duty: the store itself is a
//! plain value, and every operation takes it `&mut`, so no two operations can
//! overlap on one store.

use crate::text::is_space_char;
use crate::text::trim_spec;
use crate::text::trim_start_spec;
use crate::text::trim;
use std::collections::VecDeque;
use vstd::prelude::*;

verus! {

/// The decoded intent of one client's single input line.
#[derive(Debug, PartialEq, Eq)]
pub enum Request {
    Publish(String),
    Retrieve,
}

/// Classifies one request line: whitespace-only lines ask to retrieve,
/// anything else publishes the line with its surrounding whitespace removed.
pub fn parse_request(line: String) -> (r: Request)
    ensures
        trim_spec(line@).len() == 0 ==> r is Retrieve,
        trim_spec(line@).len() > 0 ==> (r matches Request::Publish(m) && m@ == trim_spec(line@)),
{
    let trimmed = trim(line.as_str());
    if trimmed.unicode_len() == 0 {
        Request::Retrieve
    } else {
        Request::Publish(String::from_str(trimmed))
    }
}

/// The FIFO store of messages published but not yet retrieved.
pub struct Mailbox {
    queue: VecDeque<String>,
}

impl View for Mailbox {
    type V = Seq<Seq<char>>;

    closed spec fn view(&self) -> Seq<Seq<char>> {
        self.queue@.map_values(|m: String| m@)
    }
}

/// What one retrieve returns on a store holding `q`: the oldest message, or
/// nothing when the store is empty.
pub open spec fn retrieve_output(q: Seq<Seq<char>>) -> Option<Seq<char>> {
    if q.len() == 0 {
        None
    } else {
        Some(q[0])
    }
}

/// The store's contents after one retrieve: the oldest message removed, or
/// unchanged when the store is empty.
pub open spec fn after_retrieve(q: Seq<Seq<char>>) -> Seq<Seq<char>> {
    if q.len() == 0 {
        q
    } else {
        q.drop_first()
    }
}

/// The store's contents after publishing `msgs` in order onto a store
/// holding `q`.
pub open spec fn after_publishes(q: Seq<Seq<char>>, msgs: Seq<Seq<char>>) -> Seq<Seq<char>>
    decreases msgs.len(),
{
    if msgs.len() == 0 {
        q
    } else {
        after_publishes(q, msgs.drop_last()).push(msgs.last())
    }
}

/// The store's contents after `n` retrieves on a store holding `q`.
pub open spec fn state_after_retrieves(q: Seq<Seq<char>>, n: nat) -> Seq<Seq<char>>
    decreases n,
{
    if n == 0 {
        q
    } else {
        after_retrieve(state_after_retrieves(q, (n - 1) as nat))
    }
}

/// What `n` successive retrieves on a store holding `q` return, in order.
pub open spec fn outputs_of_retrieves(q: Seq<Seq<char>>, n: nat) -> Seq<Option<Seq<char>>>
    decreases n,
{
    if n == 0 {
        Seq::empty()
    } else {
        outputs_of_retrieves(q, (n - 1) as nat).push(
            retrieve_output(state_after_retrieves(q, (n - 1) as nat)),
        )
    }
}

/// The messages among a sequence of retrieve outputs, misses left out.
pub open spec fn messages_of(outs: Seq<Option<Seq<char>>>) -> Seq<Seq<char>>
    decreases outs.len(),
{
    if outs.len() == 0 {
        Seq::empty()
    } else {
        let rest = messages_of(outs.drop_last());
        match outs.last() {
            Some(m) => rest.push(m),
            None => rest,
        }
    }
}

impl Mailbox {
    /// A store with zero pending messages.
    pub fn new() -> (r: Mailbox)
        ensures
            r@ == Seq::<Seq<char>>::empty(),
    {
        let m = Mailbox { queue: VecDeque::new() };
        proof {
            assert(m@ =~= Seq::<Seq<char>>::empty());
        }
        m
    }

    /// How many messages are pending.
    pub fn len(&self) -> (n: usize)
        ensures
            n == self@.len(),
    {
        self.queue.len()
    }

    /// Appends `message` at the back of the store. Always succeeds.
    pub fn publish(&mut self, message: String)
        ensures
            final(self)@ == old(self)@.push(message@),
    {
        self.queue.push_back(message);
        proof {
            assert(final(self)@ =~= old(self)@.push(message@));
        }
    }

    /// Removes and returns the oldest message, or returns nothing and leaves
    /// the store unchanged when it is empty.
    pub fn retrieve(&mut self) -> (r: Option<String>)
        ensures
            final(self)@ == after_retrieve(old(self)@),
            r is Some <==> old(self)@.len() > 0,
            r is Some ==> r->0@ == retrieve_output(old(self)@)->0,
    {
        let r = self.queue.pop_front();
        proof {
            if old(self).queue@.len() > 0 {
                assert(final(self)@ =~= old(self)@.drop_first());
            }
        }
        r
    }
}

/// The notice a retrieve answers with when no message is pending.
pub open spec fn empty_reply() -> Seq<char> {
    "no message available"@
}

/// One full exchange against the store: classifies `line`, performs the one
/// queue operation it asks for, and returns the bytes to answer with, if any.
/// A publish stores the trimmed line and sends nothing; a retrieve always
/// answers, either with the oldest message verbatim or with the empty-store
/// notice.
pub fn handle_line(mailbox: &mut Mailbox, line: String) -> (reply: Option<String>)
    ensures
        trim_spec(line@).len() > 0 ==> final(mailbox)@ == old(mailbox)@.push(trim_spec(line@))
            && reply is None,
        trim_spec(line@).len() == 0 ==> final(mailbox)@ == after_retrieve(old(mailbox)@)
            && reply is Some,
        trim_spec(line@).len() == 0 && old(mailbox)@.len() > 0 ==> reply->0@ == old(mailbox)@[0],
        trim_spec(line@).len() == 0 && old(mailbox)@.len() == 0 ==> reply->0@ == empty_reply(),
{
    match parse_request(line) {
        Request::Publish(message) => {
            mailbox.publish(message);
            None
        },
        Request::Retrieve => {
            match mailbox.retrieve() {
                Some(message) => Some(message),
                None => Some(String::from_str("no message available")),
            }
        },
    }
}

/// Trimming a line of nothing but whitespace leaves nothing.
proof fn lemma_trim_all_space(s: Seq<char>)
    requires
        forall|i: int| 0 <= i < s.len() ==> is_space_char(#[trigger] s[i]),
    ensures
        trim_start_spec(s).len() == 0,
    decreases s.len(),
{
    if s.len() > 0 {
        assert(is_space_char(s[0]));
        assert(forall|i: int|
            0 <= i < s.drop_first().len() ==> is_space_char(#[trigger] s.drop_first()[i]));
        lemma_trim_all_space(s.drop_first());
    }
}

/// A line of nothing but whitespace — the empty line included — trims to
/// nothing, so it always classifies as a retrieve request, never as a
/// publish.
pub proof fn lemma_whitespace_only_is_retrieve(line: Seq<char>)
    requires
        forall|i: int| 0 <= i < line.len() ==> is_space_char(#[trigger] line[i]),
    ensures
        trim_spec(line).len() == 0,
{
    lemma_trim_all_space(line);
}

/// First in, first out: starting from an empty store, publishing the
/// messages `msgs` in order and then retrieving `msgs.len()` times returns
/// exactly `msgs`, in publish order, and leaves the store empty.
pub proof fn lemma_fifo(msgs: Seq<Seq<char>>)
    ensures
        after_publishes(Seq::empty(), msgs) == msgs,
        outputs_of_retrieves(msgs, msgs.len()).len() == msgs.len(),
        forall|i: int|
            0 <= i < msgs.len() ==> outputs_of_retrieves(msgs, msgs.len())[i] == Some(msgs[i]),
        state_after_retrieves(msgs, msgs.len()) == Seq::<Seq<char>>::empty(),
{
    lemma_publish_all(Seq::empty(), msgs);
    lemma_retrieve_prefix(msgs, msgs.len());
    assert(msgs.skip(msgs.len() as int) =~= Seq::<Seq<char>>::empty());
}

/// Publishing `msgs` in order appends them: the store then holds `q + msgs`.
pub proof fn lemma_publish_all(q: Seq<Seq<char>>, msgs: Seq<Seq<char>>)
    ensures
        after_publishes(q, msgs) == q + msgs,
    decreases msgs.len(),
{
    if msgs.len() == 0 {
        assert(q + msgs =~= q);
    } else {
        lemma_publish_all(q, msgs.drop_last());
        assert((q + msgs.drop_last()).push(msgs.last()) =~= q + msgs);
    }
}

/// The first `n` retrieves on a store holding `q` return `q`'s first `n`
/// messages in order and leave the rest, in order.
pub proof fn lemma_retrieve_prefix(q: Seq<Seq<char>>, n: nat)
    requires
        n <= q.len(),
    ensures
        state_after_retrieves(q, n) == q.skip(n as int),
        outputs_of_retrieves(q, n).len() == n,
        forall|i: int| 0 <= i < n ==> outputs_of_retrieves(q, n)[i] == Some(q[i]),
    decreases n,
{
    if n == 0 {
        assert(q.skip(0) =~= q);
    } else {
        lemma_retrieve_prefix(q, (n - 1) as nat);
        let prev = q.skip(n - 1);
        assert(prev.len() == q.len() - n + 1 > 0);
        assert(prev[0] == q[n - 1]);
        assert(prev.drop_first() =~= q.skip(n as int));
        assert(retrieve_output(state_after_retrieves(q, (n - 1) as nat)) == Some(q[n - 1]));
    }
}

/// Retrieving on an empty store yields no message and stores nothing: the
/// store stays empty however often it is asked.
pub proof fn lemma_empty_retrieve(n: nat)
    ensures
        state_after_retrieves(Seq::empty(), n) == Seq::<Seq<char>>::empty(),
        forall|i: int| 0 <= i < n ==> outputs_of_retrieves(Seq::<Seq<char>>::empty(), n)[i] is None,
    decreases n,
{
    if n > 0 {
        lemma_empty_retrieve((n - 1) as nat);
        assert(outputs_of_retrieves(Seq::<Seq<char>>::empty(), n).len() == n) by {
            lemma_outputs_len(Seq::empty(), n);
        }
    }
}

/// `n` retrieves produce `n` outputs.
pub proof fn lemma_outputs_len(q: Seq<Seq<char>>, n: nat)
    ensures
        outputs_of_retrieves(q, n).len() == n,
    decreases n,
{
    if n > 0 {
        lemma_outputs_len(q, (n - 1) as nat);
    }
}

/// Mutual exclusion puts concurrent publishes in some serial arrival order;
/// whatever that order, draining the store afterwards hands out every
/// published message exactly once — none lost, none duplicated.
pub proof fn lemma_each_message_once(published: Seq<Seq<char>>, arrival: Seq<Seq<char>>)
    requires
        published.no_duplicates(),
        arrival.to_multiset() == published.to_multiset(),
    ensures
        messages_of(outputs_of_retrieves(arrival, arrival.len())).to_multiset()
            == published.to_multiset(),
        forall|m: Seq<char>|
            published.contains(m) ==> messages_of(
                outputs_of_retrieves(arrival, arrival.len()),
            ).to_multiset().count(m) == 1,
        forall|m: Seq<char>|
            !published.contains(m) ==> messages_of(
                outputs_of_retrieves(arrival, arrival.len()),
            ).to_multiset().count(m) == 0,
{
    broadcast use vstd::seq_lib::group_to_multiset_ensures;

    let outs = outputs_of_retrieves(arrival, arrival.len());
    lemma_retrieve_prefix(arrival, arrival.len());
    lemma_messages_of_all_hits(arrival, arrival.len());
    assert(messages_of(outs) =~= arrival);
    published.lemma_multiset_has_no_duplicates();
    assert forall|m: Seq<char>| published.contains(m) implies arrival.to_multiset().count(m)
        == 1 by {
        assert(published.to_multiset().count(m) > 0);
    }
    assert forall|m: Seq<char>| !published.contains(m) implies arrival.to_multiset().count(m)
        == 0 by {
        assert(published.to_multiset().count(m) == 0);
    }
}

/// When every retrieve hits (none answers the empty notice), the messages
/// handed out are exactly the outputs.
proof fn lemma_messages_of_all_hits(q: Seq<Seq<char>>, n: nat)
    requires
        n <= q.len(),
    ensures
        messages_of(outputs_of_retrieves(q, n)) == q.take(n as int),
    decreases n,
{
    if n == 0 {
        assert(q.take(0) =~= Seq::<Seq<char>>::empty());
    } else {
        lemma_messages_of_all_hits(q, (n - 1) as nat);
        lemma_retrieve_prefix(q, (n - 1) as nat);
        lemma_retrieve_prefix(q, n);
        let outs = outputs_of_retrieves(q, n);
        assert(outs.drop_last() =~= outputs_of_retrieves(q, (n - 1) as nat)) by {
            lemma_outputs_len(q, n);
            lemma_outputs_len(q, (n - 1) as nat);
        }
        assert(outs.last() == Some(q[n - 1]));
        assert(q.take((n - 1) as int).push(q[n - 1]) =~= q.take(n as int));
    }
}

} // verus!
