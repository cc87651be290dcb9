//! Short-term memory: the last few turns of each channel.

use crate::ai;
use crate::ai::ChatTurn;
use std::collections::HashMap;
use std::collections::VecDeque;
use vstd::prelude::*;

verus! {

broadcast use vstd::std_specs::hash::group_hash_axioms;

/// How many recent messages to remember per channel.
pub const HISTORY_LIMIT: usize = 12;

/// Upper bound on how many channels are remembered, so that a long-lived bot does not accumulate
/// state for every channel it ever sees.
pub const MAX_TRACKED_CHANNELS: usize = 1024;

/// A reading of the system's monotonic clock.
#[verifier::external_type_specification]
#[verifier::external_body]
pub struct ExInstant(std::time::Instant);

/// `std::time::Instant::now` reads the clock: nothing is claimed of what it shows.
pub assume_specification[ std::time::Instant::now ]() -> std::time::Instant;

/// `std::time::Instant::elapsed` tells how much time has passed since a reading of the clock, here
/// in nanoseconds: nothing is claimed of how much, not even that it is no less than before.
#[verifier::external_body]
fn nanos_since(epoch: &std::time::Instant) -> (nanos: u128) {
    epoch.elapsed().as_nanos()
}

/// What is remembered of one channel, and when there was last something to remember.
pub struct ChannelMemory {
    turns: VecDeque<ChatTurn>,
    last_active: u128,
}

/// What is remembered of one channel.
pub ghost struct ChannelView {
    /// The last few turns, oldest first.
    pub turns: Seq<ai::TurnView>,
    /// When the last of them came.
    pub last_active: int,
}

impl View for ChannelMemory {
    type V = ChannelView;

    closed spec fn view(&self) -> ChannelView {
        ChannelView { turns: ai::turn_views(self.turns@), last_active: self.last_active as int }
    }
}

/// What is remembered of all channels.
pub struct Memory {
    epoch: std::time::Instant,
    channels: HashMap<u64, ChannelMemory>,
}

impl View for Memory {
    type V = Map<u64, ChannelView>;

    closed spec fn view(&self) -> Map<u64, ChannelView> {
        self.channels@.map_values(|c: ChannelMemory| c@)
    }
}

/// No more channels than are tracked, each with at least one turn and no more than are kept.
pub open spec fn bounded(channels: Map<u64, ChannelView>) -> bool {
    &&& channels.dom().finite()
    &&& channels.dom().len() <= MAX_TRACKED_CHANNELS
    &&& forall|id: u64| #[trigger]
        channels.contains_key(id) ==> 0 < channels[id].turns.len() <= HISTORY_LIMIT
}

/// The last few of these turns.
pub open spec fn recent(turns: Seq<ai::TurnView>) -> Seq<ai::TurnView> {
    if turns.len() > HISTORY_LIMIT {
        turns.skip(turns.len() - HISTORY_LIMIT)
    } else {
        turns
    }
}

/// The turns that are remembered of a channel, oldest first.
pub open spec fn turns_of(channels: Map<u64, ChannelView>, channel: u64) -> Seq<ai::TurnView> {
    if channels.contains_key(channel) {
        channels[channel].turns
    } else {
        seq![]
    }
}

/// The memory with one more turn in a channel, at this time.
pub open spec fn noted(
    channels: Map<u64, ChannelView>,
    channel: u64,
    turn: ai::TurnView,
    now: int,
) -> Map<u64, ChannelView> {
    channels.insert(
        channel,
        ChannelView { turns: recent(turns_of(channels, channel).push(turn)), last_active: now },
    )
}

/// Of all channels but the one just touched, none has been silent for longer than this one.
pub open spec fn least_active(
    channels: Map<u64, ChannelView>,
    touched: u64,
    channel: u64,
) -> bool {
    &&& channels.contains_key(channel)
    &&& channel != touched
    &&& forall|other: u64| #[trigger]
        channels.contains_key(other) && other != touched ==> channels[channel].last_active
            <= channels[other].last_active
}

/// A turn was noted, and one channel forgotten if that made too many.
pub open spec fn remembered(
    before: Map<u64, ChannelView>,
    channel: u64,
    turn: ai::TurnView,
    now: int,
    after: Map<u64, ChannelView>,
) -> bool {
    let all = noted(before, channel, turn, now);
    if all.dom().len() <= MAX_TRACKED_CHANNELS {
        after == all
    } else {
        exists|gone: u64| #[trigger]
            least_active(all, channel, gone) && after == all.remove(gone)
    }
}

/// No turn that is remembered was noted later than this.
pub open spec fn is_not_past(channels: Map<u64, ChannelView>, now: int) -> bool {
    &&& 0 <= now
    &&& forall|id: u64| #[trigger] channels.contains_key(id) ==> channels[id].last_active <= now
}

/// Every turn that is remembered was noted earlier than this, but for the end of time.
pub open spec fn is_later(channels: Map<u64, ChannelView>, now: int) -> bool {
    forall|id: u64| #[trigger]
        channels.contains_key(id) ==> channels[id].last_active < now || channels[id].last_active
            == now == u128::MAX
}

/// The time to note where the clock shows this: that, if it is later than any that was noted
/// before, else the next after the latest of those.
pub open spec fn is_time_for(channels: Map<u64, ChannelView>, clock: int, now: int) -> bool {
    &&& is_not_past(channels, now)
    &&& is_later(channels, now)
    &&& clock <= now
    &&& now == clock || exists|id: u64| #[trigger]
        channels.contains_key(id) && (channels[id].last_active + 1 == now
            || channels[id].last_active == now == u128::MAX)
}

/// A turn was noted while the clock showed this, and one channel forgotten if that made too many.
pub open spec fn remembered_at(
    before: Map<u64, ChannelView>,
    channel: u64,
    turn: ai::TurnView,
    clock: int,
    after: Map<u64, ChannelView>,
) -> bool {
    exists|now: int|
        is_time_for(before, clock, now) && #[trigger] remembered(before, channel, turn, now, after)
}

/// A turn was noted, at a time later than any that was noted before, and one channel forgotten if
/// that made too many.
pub open spec fn remembered_now(
    before: Map<u64, ChannelView>,
    channel: u64,
    turn: ai::TurnView,
    after: Map<u64, ChannelView>,
) -> bool {
    exists|now: int|
        is_not_past(before, now) && is_later(before, now) && #[trigger] remembered(
            before,
            channel,
            turn,
            now,
            after,
        )
}

impl Memory {
    /// The memory keeps to its bounds.
    pub open spec fn wf(self) -> bool {
        bounded(self@)
    }

    /// The reading of the clock from which the times of the turns are counted.
    pub closed spec fn counts_from(self) -> std::time::Instant {
        self.epoch
    }

    /// A memory of nothing.
    pub fn new() -> (memory: Self)
        ensures
            memory.wf(),
            memory@ == Map::<u64, ChannelView>::empty(),
    {
        let memory = Memory { epoch: std::time::Instant::now(), channels: HashMap::new() };
        assert(memory@ =~= Map::<u64, ChannelView>::empty());
        memory
    }

    /// The view has the channels that the map has.
    proof fn lemma_ids(self)
        ensures
            self@.dom() == self.channels@.dom(),
            self@.dom().finite(),
    {
        assert(self@.dom() =~= self.channels@.dom());
    }

    /// The least recently active channel but for the one just touched.
    fn find_least_active(&self, touched: u64) -> (gone: u64)
        requires
            self@.dom().len() >= 2,
        ensures
            least_active(self@, touched, gone),
    {
        let mut gone: u64 = touched;
        let mut since: u128 = 0;
        proof {
            self.lemma_ids();
        }
        for (id, memory) in it: self.channels.iter()
            invariant
                forall|k: u64| #[trigger]
                    self.channels@.contains_key(k) ==> exists|i: int|
                        0 <= i < it.seq().len() && it.seq()[i] == (&k, &self.channels@[k]),
                gone == touched ==> forall|i: int| 0 <= i < it.index() ==> *it.seq()[i].0 == touched,
                gone != touched ==> self.channels@.contains_key(gone) && self.channels@[gone].last_active
                    == since && forall|i: int|
                    0 <= i < it.index() && *it.seq()[i].0 != touched ==> since
                        <= it.seq()[i].1.last_active,
        {
            if *id != touched && (gone == touched || memory.last_active < since) {
                gone = *id;
                since = memory.last_active;
            }
        }
        assert forall|other: u64| #[trigger]
            self@.contains_key(other) && other != touched implies gone != touched
            && self@[gone].last_active <= self@[other].last_active by {
            assert(self.channels@.contains_key(other));
        }
        proof {
            if gone == touched {
                assert(self@.dom() =~= set![touched] || self@.dom() =~= Set::<u64>::empty());
            }
        }
        gone
    }

    /// Notes a turn at this time.
    fn note(&mut self, channel: u64, turn: ChatTurn, now: u128)
        requires
            old(self).wf(),
        ensures
            final(self).wf(),
            final(self).counts_from() == old(self).counts_from(),
            remembered(old(self)@, channel, turn@, now as int, final(self)@),
    {
        let ghost before = self@;
        let ghost said = turn@;
        let mut turns = match self.channels.remove(&channel) {
            Some(memory) => memory.turns,
            None => VecDeque::new(),
        };
        assert(ai::turn_views(turns@) =~= turns_of(before, channel));
        turns.push_back(turn);
        assert(ai::turn_views(turns@) =~= turns_of(before, channel).push(said));
        let ghost full = turns@;
        while turns.len() > HISTORY_LIMIT
            invariant
                0 < turns@.len() <= full.len(),
                turns@.len() >= HISTORY_LIMIT || turns@ == full,
                turns@ == full.skip(full.len() - turns@.len()),
            decreases turns@.len(),
        {
            turns.pop_front();
            assert(turns@ =~= full.skip(full.len() - turns@.len()));
        }
        assert(ai::turn_views(turns@) =~= recent(ai::turn_views(full)));
        self.channels.insert(channel, ChannelMemory { turns, last_active: now });
        let ghost all = noted(before, channel, said, now as int);
        proof {
            assert(self@ =~= all);
            self.lemma_ids();
            old(self).lemma_ids();
        }
        if self.channels.len() > MAX_TRACKED_CHANNELS {
            let gone: u64 = self.find_least_active(channel);
            self.channels.remove(&gone);
            assert(self@ =~= all.remove(gone));
            assert(least_active(all, channel, gone));
        }
    }

    /// The time to note for a turn, given what the clock shows: that, if it is later than any that
    /// was noted before, else the next after the latest of those.
    fn time_for(&self, clock: u128) -> (now: u128)
        ensures
            is_time_for(self@, clock as int, now as int),
    {
        let mut now: u128 = clock;
        proof {
            self.lemma_ids();
        }
        for (id, memory) in it: self.channels.iter()
            invariant
                forall|k: u64| #[trigger]
                    self.channels@.contains_key(k) ==> exists|i: int|
                        0 <= i < it.seq().len() && it.seq()[i] == (&k, &self.channels@[k]),
                forall|i: int|
                    0 <= i < it.index() ==> (#[trigger] it.seq()[i]).1.last_active < now
                        || it.seq()[i].1.last_active == now == u128::MAX,
                clock <= now,
                now == clock || exists|k: u64| #[trigger]
                    self@.contains_key(k) && (self@[k].last_active + 1 == now
                        || self@[k].last_active == now == u128::MAX),
        {
            if now <= memory.last_active {
                if memory.last_active < u128::MAX {
                    now = memory.last_active + 1;
                } else {
                    now = u128::MAX;
                }
                assert(self@.contains_key(*id) && self@[*id].last_active == memory.last_active);
            }
        }
        assert forall|k: u64| #[trigger] self@.contains_key(k) implies self@[k].last_active < now
            || self@[k].last_active == now == u128::MAX by {
            assert(self.channels@.contains_key(k));
        }
        now
    }

    /// Appends a turn to a channel's memory, dropping the oldest once there are more than
    /// [`HISTORY_LIMIT`], and forgets the least recently active of the other channels once there
    /// are more than [`MAX_TRACKED_CHANNELS`]. The turn came when the clock showed this, or right
    /// after the latest turn before should the clock not have moved on since.
    pub fn remember_at(&mut self, channel: u64, turn: ChatTurn, clock: u128)
        requires
            old(self).wf(),
        ensures
            final(self).wf(),
            final(self).counts_from() == old(self).counts_from(),
            remembered_at(old(self)@, channel, turn@, clock as int, final(self)@),
    {
        let now: u128 = self.time_for(clock);
        self.note(channel, turn, now);
        assert(remembered(old(self)@, channel, turn@, now as int, self@));
    }

    /// Appends a turn to a channel's memory, as [`Memory::remember_at`] does, now.
    pub fn remember(&mut self, channel: u64, turn: ChatTurn)
        requires
            old(self).wf(),
        ensures
            final(self).wf(),
            final(self).counts_from() == old(self).counts_from(),
            remembered_now(old(self)@, channel, turn@, final(self)@),
    {
        let clock: u128 = nanos_since(&self.epoch);
        self.remember_at(channel, turn, clock);
    }

    /// A copy of the turns that are remembered of a channel, oldest first.
    pub fn snapshot(&self, channel: u64) -> (turns: Vec<ChatTurn>)
        ensures
            ai::turn_views(turns@) == turns_of(self@, channel),
    {
        let mut turns: Vec<ChatTurn> = Vec::new();
        match self.channels.get(&channel) {
            Some(memory) => {
                let mut i: usize = 0;
                assert(ai::turn_views(turns@) =~= ai::turn_views(memory.turns@.take(0)));
                while i < memory.turns.len()
                    invariant
                        i <= memory.turns@.len(),
                        ai::turn_views(turns@) == ai::turn_views(memory.turns@.take(i as int)),
                    decreases memory.turns@.len() - i,
                {
                    let ghost copied = turns@;
                    turns.push(memory.turns[i].clone());
                    proof {
                        assert(ai::turn_views(turns@) =~= ai::turn_views(copied).push(
                            memory.turns@[i as int]@,
                        ));
                        assert(ai::turn_views(memory.turns@.take(i + 1)) =~= ai::turn_views(
                            memory.turns@.take(i as int),
                        ).push(memory.turns@[i as int]@));
                    }
                    i += 1;
                }
                assert(memory.turns@.take(memory.turns@.len() as int) =~= memory.turns@);
            },
            None => {
                assert(ai::turn_views(turns@) =~= turns_of(self@, channel));
            },
        }
        turns
    }
}

/// What was just remembered of a channel is there, as its last turn, behind the most recent of
/// those before it: the channel that was just touched is never the one that is forgotten.
pub proof fn law_touched_channel_keeps_its_turn(
    before: Map<u64, ChannelView>,
    channel: u64,
    turn: ai::TurnView,
    now: int,
    after: Map<u64, ChannelView>,
)
    requires
        remembered(before, channel, turn, now, after),
    ensures
        turns_of(after, channel) == recent(turns_of(before, channel).push(turn)),
        turns_of(after, channel).last() == turn,
        0 < turns_of(after, channel).len() <= HISTORY_LIMIT,
{
}

/// What is remembered of any other channel stays as it was, or is forgotten as a whole; that
/// happens to one channel at most, and only where there would be too many.
pub proof fn law_other_channels_are_kept(
    before: Map<u64, ChannelView>,
    channel: u64,
    turn: ai::TurnView,
    now: int,
    after: Map<u64, ChannelView>,
)
    requires
        bounded(before),
        remembered(before, channel, turn, now, after),
    ensures
        bounded(after),
        forall|other: u64| #[trigger]
            after.contains_key(other) && other != channel ==> before.contains_key(other)
                && after[other] == before[other],
        forall|a: u64, b: u64|
            before.contains_key(a) && !after.contains_key(a) && before.contains_key(b)
                && !after.contains_key(b) ==> a == b,
        before.contains_key(channel) || before.dom().len() < MAX_TRACKED_CHANNELS
            ==> before.dom().subset_of(after.dom()),
{
    let all = noted(before, channel, turn, now);
    if before.contains_key(channel) {
        assert(all.dom() =~= before.dom());
    } else {
        assert(all.dom() =~= before.dom().insert(channel));
    }
}

/// The channel that is forgotten is one that has been silent for the longest time of all.
pub proof fn law_longest_silent_channel_is_forgotten(
    before: Map<u64, ChannelView>,
    channel: u64,
    turn: ai::TurnView,
    after: Map<u64, ChannelView>,
    gone: u64,
)
    requires
        bounded(before),
        remembered_now(before, channel, turn, after),
        before.contains_key(gone),
        !after.contains_key(gone),
    ensures
        forall|id: u64| #[trigger]
            before.contains_key(id) ==> before[gone].last_active <= before[id].last_active,
        forall|id: u64| #[trigger]
            after.contains_key(id) ==> before[gone].last_active <= after[id].last_active,
{
    let now = choose|now: int|
        is_not_past(before, now) && is_later(before, now) && #[trigger] remembered(
            before,
            channel,
            turn,
            now,
            after,
        );
    let all = noted(before, channel, turn, now);
    if before.contains_key(channel) {
        assert(all.dom() =~= before.dom());
    }
    assert forall|id: u64| #[trigger] before.contains_key(id) implies before[gone].last_active
        <= before[id].last_active by {
        assert(all.contains_key(id));
    }
}

/// Keeping the last few turns step by step keeps the last few of all that was said.
pub proof fn law_recent_turns_accumulate(turns: Seq<ai::TurnView>, turn: ai::TurnView)
    ensures
        recent(recent(turns).push(turn)) == recent(turns.push(turn)),
{
    assert(recent(recent(turns).push(turn)) =~= recent(turns.push(turn)));
}

/// A turn of a channel.
pub ghost struct Said {
    /// The channel.
    pub channel: u64,
    /// The turn.
    pub turn: ai::TurnView,
}

/// All that was said in a channel, oldest first.
pub open spec fn said_in(all: Seq<Said>, channel: u64) -> Seq<ai::TurnView>
    decreases all.len(),
{
    if all.len() == 0 {
        seq![]
    } else if all.last().channel == channel {
        said_in(all.drop_last(), channel).push(all.last().turn)
    } else {
        said_in(all.drop_last(), channel)
    }
}

/// The channels in which something was said.
pub open spec fn channels_in(all: Seq<Said>) -> Set<u64> {
    all.map_values(|s: Said| s.channel).to_set()
}

/// A memory of nothing went through these states as these turns were remembered.
pub open spec fn is_run(states: Seq<Map<u64, ChannelView>>, all: Seq<Said>) -> bool {
    &&& states.len() == all.len() + 1
    &&& states[0] == Map::<u64, ChannelView>::empty()
    &&& forall|i: int|
        0 <= i < all.len() ==> remembered_now(
            states[i],
            (#[trigger] all[i]).channel,
            all[i].turn,
            states[i + 1],
        )
}

/// As long as no more channels speak than are tracked, what is remembered of each is the last few
/// turns of all that was said in it.
pub proof fn law_last_turns_of_all_that_was_said(
    states: Seq<Map<u64, ChannelView>>,
    all: Seq<Said>,
    channel: u64,
)
    requires
        is_run(states, all),
        channels_in(all).len() <= MAX_TRACKED_CHANNELS,
    ensures
        turns_of(states.last(), channel) == recent(said_in(all, channel)),
{
    lemma_run(states, all, channel);
}

/// The run without its last step.
proof fn lemma_shorter_run(states: Seq<Map<u64, ChannelView>>, all: Seq<Said>)
    requires
        is_run(states, all),
        all.len() > 0,
    ensures
        is_run(states.drop_last(), all.drop_last()),
        remembered_now(
            states.drop_last().last(),
            all.last().channel,
            all.last().turn,
            states.last(),
        ),
{
    let fewer = all.drop_last();
    let earlier = states.drop_last();
    assert forall|i: int| 0 <= i < fewer.len() implies remembered_now(
        earlier[i],
        (#[trigger] fewer[i]).channel,
        fewer[i].turn,
        earlier[i + 1],
    ) by {
        assert(fewer[i] == all[i]);
    }
    assert(all[all.len() - 1] == all.last());
}

proof fn lemma_channels_push(all: Seq<Said>)
    requires
        all.len() > 0,
    ensures
        channels_in(all) == channels_in(all.drop_last()).insert(all.last().channel),
        channels_in(all).finite(),
{
    let ids = all.map_values(|s: Said| s.channel);
    let fewer = all.drop_last().map_values(|s: Said| s.channel);
    assert(ids =~= fewer.push(all.last().channel));
    assert forall|id: u64| channels_in(all).contains(id) == channels_in(all.drop_last()).insert(
        all.last().channel,
    ).contains(id) by {
        if ids.contains(id) {
            let i = ids.index_of(id);
            if i < fewer.len() {
                assert(fewer[i] == id);
            }
        }
        if fewer.contains(id) {
            let i = fewer.index_of(id);
            assert(ids[i] == id);
        }
        assert(ids[fewer.len() as int] == all.last().channel);
    }
    assert(channels_in(all) =~= channels_in(all.drop_last()).insert(all.last().channel));
    vstd::seq_lib::seq_to_set_is_finite(ids);
}

proof fn lemma_run(states: Seq<Map<u64, ChannelView>>, all: Seq<Said>, channel: u64)
    requires
        is_run(states, all),
        channels_in(all).len() <= MAX_TRACKED_CHANNELS,
    ensures
        states.last().dom() == channels_in(all),
        turns_of(states.last(), channel) == recent(said_in(all, channel)),
    decreases all.len(),
{
    if all.len() == 0 {
        assert(states.last().dom() =~= channels_in(all));
    } else {
        let fewer = all.drop_last();
        let earlier = states.drop_last();
        lemma_channels_push(all);
        vstd::seq_lib::seq_to_set_is_finite(fewer.map_values(|s: Said| s.channel));
        lemma_shorter_run(states, all);
        lemma_run(earlier, fewer, channel);
        let before = earlier.last();
        let said = all.last();
        let after = states.last();
        let now = choose|now: int|
            is_not_past(before, now) && is_later(before, now) && #[trigger] remembered(
                before,
                said.channel,
                said.turn,
                now,
                after,
            );
        assert(noted(before, said.channel, said.turn, now).dom() =~= channels_in(all));
        law_recent_turns_accumulate(said_in(fewer, channel), said.turn);
    }
}

/// However many channels speak, what is remembered of each is the end of what was said in it.
pub proof fn law_memory_is_the_end_of_what_was_said(
    states: Seq<Map<u64, ChannelView>>,
    all: Seq<Said>,
    channel: u64,
)
    requires
        is_run(states, all),
    ensures
        ({
            let turns = turns_of(states.last(), channel);
            let said = said_in(all, channel);
            turns.len() <= said.len() && turns == said.skip(said.len() - turns.len())
        }),
    decreases all.len(),
{
    let turns = turns_of(states.last(), channel);
    let said = said_in(all, channel);
    if all.len() == 0 {
        assert(turns =~= said.skip(said.len() - turns.len()));
    } else {
        let fewer = all.drop_last();
        let earlier = states.drop_last();
        lemma_shorter_run(states, all);
        law_memory_is_the_end_of_what_was_said(earlier, fewer, channel);
        assert(turns =~= said.skip(said.len() - turns.len()));
    }
}

/// When the turn of this step was noted.
pub open spec fn noted_at(
    states: Seq<Map<u64, ChannelView>>,
    all: Seq<Said>,
    step: int,
) -> int {
    states[step + 1][all[step].channel].last_active
}

/// The step in which something was last said in a channel.
pub open spec fn last_step(all: Seq<Said>, channel: u64) -> int
    decreases all.len(),
{
    if all.len() == 0 {
        -1
    } else if all.last().channel == channel {
        all.len() - 1
    } else {
        last_step(all.drop_last(), channel)
    }
}

/// The times that are noted never go back.
pub proof fn law_times_never_go_back(
    states: Seq<Map<u64, ChannelView>>,
    all: Seq<Said>,
    i: int,
    j: int,
)
    requires
        is_run(states, all),
        0 <= i <= j < all.len(),
    ensures
        noted_at(states, all, i) <= noted_at(states, all, j),
    decreases j - i,
{
    if i < j {
        law_times_never_go_back(states, all, i, j - 1);
        lemma_step(states, all, j - 1);
        lemma_step(states, all, j);
        assert(states[j].contains_key(all[j - 1].channel));
    }
}

/// In each step the channel that was spoken in is there, and no other stamp changes or exceeds
/// that of the step.
proof fn lemma_step(states: Seq<Map<u64, ChannelView>>, all: Seq<Said>, i: int)
    requires
        is_run(states, all),
        0 <= i < all.len(),
    ensures
        states[i + 1].contains_key(all[i].channel),
        is_not_past(states[i], noted_at(states, all, i)),
        is_later(states[i], noted_at(states, all, i)),
        forall|id: u64| #[trigger]
            states[i + 1].contains_key(id) && id != all[i].channel ==> states[i].contains_key(id)
                && states[i + 1][id] == states[i][id],
{
    assert(remembered_now(states[i], all[i].channel, all[i].turn, states[i + 1]));
}

/// What is tracked carries the time of the last turn in its channel.
proof fn lemma_stamp(states: Seq<Map<u64, ChannelView>>, all: Seq<Said>, n: int, channel: u64)
    requires
        is_run(states, all),
        0 <= n <= all.len(),
        states[n].contains_key(channel),
    ensures
        0 <= last_step(all.take(n), channel) < n,
        all[last_step(all.take(n), channel)].channel == channel,
        states[n][channel].last_active == noted_at(
            states,
            all,
            last_step(all.take(n), channel),
        ),
    decreases n,
{
    if n > 0 {
        assert(all.take(n).drop_last() =~= all.take(n - 1));
        lemma_step(states, all, n - 1);
        if all[n - 1].channel != channel {
            lemma_stamp(states, all, n - 1, channel);
        }
    }
}

/// The channel that a step forgets is the one in which the last turn is the oldest, unless that
/// turn was noted at the very time of another channel's last turn.
pub proof fn law_forgotten_channel_spoke_longest_ago(
    states: Seq<Map<u64, ChannelView>>,
    all: Seq<Said>,
    n: int,
    gone: u64,
    other: u64,
)
    requires
        is_run(states, all),
        0 <= n < all.len(),
        states[n].contains_key(gone),
        !states[n + 1].contains_key(gone),
        states[n].contains_key(other),
        other != gone,
    ensures
        ({
            let g = last_step(all.take(n), gone);
            let o = last_step(all.take(n), other);
            &&& 0 <= g < n
            &&& 0 <= o < n
            &&& noted_at(states, all, g) <= noted_at(states, all, o)
            &&& g < o || noted_at(states, all, g) == noted_at(states, all, o)
        }),
{
    law_run_keeps_to_its_bounds(states, all, n);
    lemma_stamp(states, all, n, gone);
    lemma_stamp(states, all, n, other);
    assert(remembered_now(states[n], all[n].channel, all[n].turn, states[n + 1]));
    law_longest_silent_channel_is_forgotten(
        states[n],
        all[n].channel,
        all[n].turn,
        states[n + 1],
        gone,
    );
    let g = last_step(all.take(n), gone);
    let o = last_step(all.take(n), other);
    if o <= g {
        law_times_never_go_back(states, all, o, g);
    }
}

/// Every state of a run keeps to the bounds.
pub proof fn law_run_keeps_to_its_bounds(states: Seq<Map<u64, ChannelView>>, all: Seq<Said>, n: int)
    requires
        is_run(states, all),
        0 <= n <= all.len(),
    ensures
        bounded(states[n]),
    decreases n,
{
    if n > 0 {
        law_run_keeps_to_its_bounds(states, all, n - 1);
        let said = all[n - 1];
        assert(remembered_now(states[n - 1], said.channel, said.turn, states[n - 1 + 1]));
        let now = choose|now: int|
            is_not_past(states[n - 1], now) && is_later(states[n - 1], now) && #[trigger] remembered(
                states[n - 1],
                said.channel,
                said.turn,
                now,
                states[n],
            );
        law_other_channels_are_kept(states[n - 1], said.channel, said.turn, now, states[n]);
    }
}

/// Of any turns, whatever they say and whoever says it, the last twelve are kept; where there are
/// fewer, all of them.
pub proof fn law_the_last_twelve_turns_are_kept(turns: Seq<ai::TurnView>)
    ensures
        recent(turns).len() == (if turns.len() < 12 {
            turns.len()
        } else {
            12
        }),
        recent(turns) == turns.skip(turns.len() - recent(turns).len()),
{
    assert(recent(turns) =~= turns.skip(turns.len() - recent(turns).len()));
}

/// What is remembered of a channel is what is held for it; of a channel that nothing is held for,
/// nothing.
pub proof fn law_held_turns_are_remembered(channels: Map<u64, ChannelView>, channel: u64)
    ensures
        channels.contains_key(channel) ==> turns_of(channels, channel) == channels[channel].turns,
        !channels.contains_key(channel) ==> turns_of(channels, channel).len() == 0,
{
}

/// As long as no more channels speak than are tracked, a channel remembers the last twelve turns of
/// all that was said in it, and all of them where there are fewer, oldest first.
pub proof fn law_a_channel_remembers_its_last_twelve_turns(
    states: Seq<Map<u64, ChannelView>>,
    all: Seq<Said>,
    channel: u64,
)
    requires
        is_run(states, all),
        channels_in(all).len() <= 1024,
    ensures
        ({
            let said = all.filter(|s: Said| s.channel == channel).map_values(|s: Said| s.turn);
            let kept = turns_of(states.last(), channel);
            &&& kept.len() == (if said.len() < 12 {
                said.len()
            } else {
                12
            })
            &&& kept == said.skip(said.len() - kept.len())
        }),
{
    law_last_turns_of_all_that_was_said(states, all, channel);
    lemma_said_in(all, channel);
    law_the_last_twelve_turns_are_kept(said_in(all, channel));
}

proof fn lemma_said_in(all: Seq<Said>, channel: u64)
    ensures
        said_in(all, channel) == all.filter(|s: Said| s.channel == channel).map_values(
            |s: Said| s.turn,
        ),
    decreases all.len(),
{
    reveal(Seq::filter);
    let here = |s: Said| s.channel == channel;
    if all.len() > 0 {
        lemma_said_in(all.drop_last(), channel);
        let fewer = all.drop_last().filter(here);
        assert(fewer.push(all.last()).map_values(|s: Said| s.turn) =~= fewer.map_values(
            |s: Said| s.turn,
        ).push(all.last().turn));
    }
    assert(said_in(all, channel) =~= all.filter(here).map_values(|s: Said| s.turn));
}

/// Remembering a turn puts it behind those of its channel, of which the last twelve stay, and
/// stamps the channel. No other channel changes, and none is forgotten unless there would be more
/// than 1024: then the one that has been silent for the longest time is, and no other.
pub proof fn law_remembering_a_turn(
    before: Map<u64, ChannelView>,
    channel: u64,
    turn: ai::TurnView,
    after: Map<u64, ChannelView>,
)
    requires
        bounded(before),
        remembered_now(before, channel, turn, after),
    ensures
        after.contains_key(channel),
        ({
            let said = turns_of(before, channel).push(turn);
            let kept = after[channel].turns;
            &&& kept.len() == (if said.len() < 12 {
                said.len()
            } else {
                12
            })
            &&& kept == said.skip(said.len() - kept.len())
        }),
        forall|id: u64| #[trigger]
            before.contains_key(id) ==> before[id].last_active < after[channel].last_active
                || before[id].last_active == after[channel].last_active == u128::MAX,
        forall|id: u64| #[trigger]
            after.contains_key(id) && id != channel ==> before.contains_key(id) && after[id]
                == before[id],
        forall|gone: u64, id: u64|
            #![trigger before.contains_key(gone), before.contains_key(id)]
            before.contains_key(gone) && !after.contains_key(gone) && before.contains_key(id) ==> {
                &&& !before.contains_key(channel)
                &&& before.dom().len() == 1024
                &&& before[gone].last_active <= before[id].last_active
                &&& id == gone || after.contains_key(id)
            },
        after.dom().finite(),
        after.dom().len() <= 1024,
{
    let now = choose|now: int|
        is_not_past(before, now) && is_later(before, now) && #[trigger] remembered(
            before,
            channel,
            turn,
            now,
            after,
        );
    lemma_remembered(before, channel, turn, now, after);
}

/// As [`law_remembering_a_turn`], where the clock is known: the stamp is what the clock shows,
/// if that is later than any that is there, else the next after the latest of those.
pub proof fn law_remembering_a_turn_at(
    before: Map<u64, ChannelView>,
    channel: u64,
    turn: ai::TurnView,
    clock: int,
    after: Map<u64, ChannelView>,
)
    requires
        bounded(before),
        0 <= clock,
        remembered_at(before, channel, turn, clock, after),
    ensures
        remembered_now(before, channel, turn, after),
        clock <= after[channel].last_active,
        (forall|id: u64| #[trigger] before.contains_key(id) ==> before[id].last_active < clock)
            ==> after[channel].last_active == clock,
        after[channel].last_active == clock || exists|id: u64| #[trigger]
            before.contains_key(id) && (before[id].last_active + 1 == after[channel].last_active
                || before[id].last_active == after[channel].last_active == u128::MAX),
{
    let now = choose|now: int|
        is_time_for(before, clock, now) && #[trigger] remembered(before, channel, turn, now, after);
    lemma_remembered(before, channel, turn, now, after);
}

proof fn lemma_remembered(
    before: Map<u64, ChannelView>,
    channel: u64,
    turn: ai::TurnView,
    now: int,
    after: Map<u64, ChannelView>,
)
    requires
        bounded(before),
        is_not_past(before, now),
        remembered(before, channel, turn, now, after),
    ensures
        after.contains_key(channel),
        after[channel].last_active == now,
        after[channel].turns == recent(turns_of(before, channel).push(turn)),
        after[channel].turns.len() == (if turns_of(before, channel).len() + 1 < 12 {
            turns_of(before, channel).len() + 1
        } else {
            12
        }),
        after[channel].turns == turns_of(before, channel).push(turn).skip(
            turns_of(before, channel).len() + 1 - after[channel].turns.len(),
        ),
        forall|id: u64| #[trigger]
            after.contains_key(id) && id != channel ==> before.contains_key(id) && after[id]
                == before[id],
        forall|gone: u64, id: u64|
            #![trigger before.contains_key(gone), before.contains_key(id)]
            before.contains_key(gone) && !after.contains_key(gone) && before.contains_key(id) ==> {
                &&& !before.contains_key(channel)
                &&& before.dom().len() == 1024
                &&& before[gone].last_active <= before[id].last_active
                &&& id == gone || after.contains_key(id)
            },
        after.dom().finite(),
        after.dom().len() <= 1024,
{
    let all = noted(before, channel, turn, now);
    if before.contains_key(channel) {
        assert(all.dom() =~= before.dom());
    } else {
        assert(all.dom() =~= before.dom().insert(channel));
    }
    law_other_channels_are_kept(before, channel, turn, now, after);
    law_the_last_twelve_turns_are_kept(turns_of(before, channel).push(turn));
    assert forall|gone: u64, id: u64|
        #![trigger before.contains_key(gone), before.contains_key(id)]
        before.contains_key(gone) && !after.contains_key(gone) && before.contains_key(id) implies {
        &&& !before.contains_key(channel)
        &&& before.dom().len() == 1024
        &&& before[gone].last_active <= before[id].last_active
        &&& id == gone || after.contains_key(id)
    } by {
        assert(all.contains_key(gone));
        assert(all.contains_key(id));
    }
}

/// The times that are noted go on from turn to turn, up to the end of time.
pub proof fn law_times_go_on(states: Seq<Map<u64, ChannelView>>, all: Seq<Said>, i: int, j: int)
    requires
        is_run(states, all),
        0 <= i < j < all.len(),
    ensures
        noted_at(states, all, i) < noted_at(states, all, j) || noted_at(states, all, j) == u128::MAX,
{
    law_times_never_go_back(states, all, i, j - 1);
    lemma_step(states, all, j - 1);
    lemma_step(states, all, j);
    assert(states[j].contains_key(all[j - 1].channel));
}

/// Whatever the clock shows, the channel that a step forgets is the one in which the last turn came
/// before that of any other, up to the end of time.
pub proof fn law_forgotten_channel_spoke_before_all_others(
    states: Seq<Map<u64, ChannelView>>,
    all: Seq<Said>,
    n: int,
    gone: u64,
    other: u64,
)
    requires
        is_run(states, all),
        0 <= n < all.len(),
        states[n].contains_key(gone),
        !states[n + 1].contains_key(gone),
        states[n].contains_key(other),
        other != gone,
    ensures
        last_step(all.take(n), gone) < last_step(all.take(n), other) || noted_at(
            states,
            all,
            last_step(all.take(n), gone),
        ) == u128::MAX,
{
    law_forgotten_channel_spoke_longest_ago(states, all, n, gone, other);
    lemma_stamp(states, all, n, gone);
    lemma_stamp(states, all, n, other);
    let g = last_step(all.take(n), gone);
    let o = last_step(all.take(n), other);
    if o < g {
        law_times_go_on(states, all, o, g);
    }
}

} // verus!
