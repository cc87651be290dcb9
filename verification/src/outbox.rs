//! Messages on their way out, one after the other.

use crate::chunks;
use vstd::prelude::*;

verus! {

/// Messages that are still to be sent.
pub struct Outbox {
    parts: Vec<String>,
    next: usize,
}

impl View for Outbox {
    type V = Seq<Seq<char>>;

    closed spec fn view(&self) -> Seq<Seq<char>> {
        chunks::views(self.parts@).skip(self.next as int)
    }
}

/// What is left to send once the message before has been delivered, or has not.
pub open spec fn left_after(parts: Seq<Seq<char>>, delivered: bool) -> Seq<Seq<char>> {
    if delivered {
        parts
    } else {
        seq![]
    }
}

/// Taking out the next message, if there is one.
pub open spec fn takes(
    before: Seq<Seq<char>>,
    delivered: bool,
    part: Option<Seq<char>>,
    after: Seq<Seq<char>>,
) -> bool {
    let left = left_after(before, delivered);
    match part {
        Some(text) => left.len() > 0 && text == left[0] && after == left.drop_first(),
        None => left.len() == 0 && after == left,
    }
}

/// The messages that are tried, given which of them would be delivered: all up to the first that
/// is not, and that one.
pub open spec fn tried(parts: Seq<Seq<char>>, outcomes: spec_fn(int) -> bool, from: int) -> Seq<
    Seq<char>,
>
    decreases parts.len(),
{
    if parts.len() == 0 {
        seq![]
    } else {
        seq![parts[0]] + tried(
            left_after(parts.drop_first(), outcomes(from)),
            outcomes,
            from + 1,
        )
    }
}

impl Outbox {
    /// No more was taken out than was put in.
    #[verifier::type_invariant]
    spec fn in_bounds(self) -> bool {
        self.next <= self.parts@.len()
    }

    /// These messages, in this order.
    pub fn new(parts: Vec<String>) -> (outbox: Self)
        ensures
            outbox@ == chunks::views(parts@),
    {
        assert(chunks::views(parts@).skip(0) =~= chunks::views(parts@));
        Outbox { parts, next: 0 }
    }

    /// The message to send next, if the one before was delivered; once one was not, nothing more
    /// is sent. In front of the first message there is nothing to fail.
    pub fn next_part(&mut self, delivered: bool) -> (part: Option<String>)
        ensures
            takes(
                old(self)@,
                delivered,
                match part {
                    Some(text) => Some(text@),
                    None => None,
                },
                final(self)@,
            ),
    {
        proof {
            use_type_invariant(&*self);
        }
        if !delivered {
            self.next = self.parts.len();
        }
        if self.next < self.parts.len() {
            let part = self.parts[self.next].clone();
            let ghost all = chunks::views(self.parts@);
            assert(all.skip(self.next as int).drop_first() =~= all.skip(self.next + 1));
            self.next = self.next + 1;
            Some(part)
        } else {
            assert(self@ =~= Seq::<Seq<char>>::empty());
            None
        }
    }
}

/// What is tried is the beginning of what there is to send: nothing is left out or moved.
pub proof fn law_tried_messages_are_a_prefix(
    parts: Seq<Seq<char>>,
    outcomes: spec_fn(int) -> bool,
    from: int,
)
    ensures
        tried(parts, outcomes, from).len() <= parts.len(),
        tried(parts, outcomes, from) == parts.take(tried(parts, outcomes, from).len() as int),
    decreases parts.len(),
{
    if parts.len() > 0 {
        let rest = left_after(parts.drop_first(), outcomes(from));
        law_tried_messages_are_a_prefix(rest, outcomes, from + 1);
    }
    assert(tried(parts, outcomes, from) =~= parts.take(tried(parts, outcomes, from).len() as int));
}

/// Sending stops at the first failure and nowhere else: every message that is tried but the last
/// was delivered, and where any is left, the last was not.
pub proof fn law_sending_stops_at_the_first_failure(
    parts: Seq<Seq<char>>,
    outcomes: spec_fn(int) -> bool,
    from: int,
)
    ensures
        ({
            let n = tried(parts, outcomes, from).len();
            &&& forall|i: int| 0 <= i < n - 1 ==> #[trigger] outcomes(from + i)
            &&& n < parts.len() ==> n > 0 && !outcomes(from + n - 1)
        }),
    decreases parts.len(),
{
    if parts.len() > 0 {
        let rest = left_after(parts.drop_first(), outcomes(from));
        law_sending_stops_at_the_first_failure(rest, outcomes, from + 1);
        let n = tried(parts, outcomes, from).len();
        assert forall|i: int| 0 <= i < n - 1 implies #[trigger] outcomes(from + i) by {
            if i > 0 {
                assert(outcomes(from + 1 + (i - 1)));
            }
        }
    }
}

/// Whether the message before this one was delivered; in front of the first there is none to fail.
pub open spec fn delivered_before(outcomes: spec_fn(int) -> bool, i: int) -> bool {
    i == 0 || outcomes(i - 1)
}

/// These messages were taken out one after the other, the outbox holding `held[i]` before the
/// message of index `i`, until there was nothing more to take.
pub open spec fn is_sending(
    held: Seq<Seq<Seq<char>>>,
    sent: Seq<Seq<char>>,
    outcomes: spec_fn(int) -> bool,
) -> bool {
    &&& held.len() == sent.len() + 1
    &&& forall|i: int|
        0 <= i < sent.len() ==> takes(
            held[i],
            delivered_before(outcomes, i),
            Some(#[trigger] sent[i]),
            held[i + 1],
        )
    &&& exists|end: Seq<Seq<char>>|
        takes(held.last(), delivered_before(outcomes, sent.len() as int), None, end)
}

/// Whoever takes out message after message, and reports each time whether the one before was
/// delivered, sends what the outbox held up to the first failure.
pub proof fn law_sending_tries_the_messages(
    held: Seq<Seq<Seq<char>>>,
    sent: Seq<Seq<char>>,
    outcomes: spec_fn(int) -> bool,
)
    requires
        is_sending(held, sent, outcomes),
    ensures
        sent == tried(held[0], outcomes, 0),
{
    lemma_sending_from(held, sent, outcomes, 0);
    assert(sent.skip(0) =~= sent);
}

proof fn lemma_sending_from(
    held: Seq<Seq<Seq<char>>>,
    sent: Seq<Seq<char>>,
    outcomes: spec_fn(int) -> bool,
    i: int,
)
    requires
        is_sending(held, sent, outcomes),
        0 <= i <= sent.len(),
    ensures
        sent.skip(i) == tried(
            left_after(held[i], delivered_before(outcomes, i)),
            outcomes,
            i,
        ),
    decreases sent.len() - i,
{
    if i < sent.len() {
        lemma_sending_from(held, sent, outcomes, i + 1);
        assert(takes(held[i], delivered_before(outcomes, i), Some(sent[i]), held[i + 1]));
        assert(sent.skip(i) =~= seq![sent[i]] + sent.skip(i + 1));
    } else {
        assert(sent.skip(i) =~= Seq::<Seq<char>>::empty());
    }
}

/// What is sent of the messages is a beginning of them, each as it is: up to the first that is not
/// delivered, or all of them.
pub proof fn law_messages_are_sent_up_to_the_first_failure(
    held: Seq<Seq<Seq<char>>>,
    sent: Seq<Seq<char>>,
    outcomes: spec_fn(int) -> bool,
)
    requires
        is_sending(held, sent, outcomes),
    ensures
        sent.len() <= held[0].len(),
        sent == held[0].take(sent.len() as int),
        forall|i: int| 0 <= i < sent.len() - 1 ==> #[trigger] outcomes(i),
        sent.len() < held[0].len() ==> sent.len() > 0 && !outcomes(sent.len() - 1),
{
    law_sending_tries_the_messages(held, sent, outcomes);
    law_tried_messages_are_a_prefix(held[0], outcomes, 0);
    law_sending_stops_at_the_first_failure(held[0], outcomes, 0);
    assert forall|i: int| 0 <= i < sent.len() - 1 implies #[trigger] outcomes(i) by {
        assert(outcomes(0 + i));
    }
}

/// Behind a message that was delivered the next one is taken, if there is one, and the others stay;
/// behind one that was not, nothing is, now or later.
pub proof fn law_taking_a_message(
    before: Seq<Seq<char>>,
    delivered: bool,
    part: Option<Seq<char>>,
    after: Seq<Seq<char>>,
)
    requires
        takes(before, delivered, part, after),
    ensures
        part is Some <==> delivered && before.len() > 0,
        part matches Some(text) ==> seq![text] + after == before,
        part is None ==> after.len() == 0,
{
    if let Some(text) = part {
        assert(seq![text] + after =~= before);
    }
}

} // verus!
