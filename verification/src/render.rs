use crate::packet::{is_triggered, MuPacket};
use vstd::prelude::*;

verus! {

/// Number of packets in `packets` whose trigger bit is set.
pub open spec fn count_triggers(packets: Seq<MuPacket>) -> nat
    decreases packets.len(),
{
    if packets.len() == 0 {
        0
    } else {
        count_triggers(packets.drop_last()) + if is_triggered(packets.last()) {
            1nat
        } else {
            0nat
        }
    }
}

/// The trigger count of a burst is the number of its packets whose header
/// has the 0x80 bit set, whatever their other fields.
pub proof fn lemma_count_triggers_is_header_bit_count(packets: Seq<MuPacket>)
    ensures
        count_triggers(packets) == packets.filter(|p: MuPacket| p.header & 0x80u8 != 0).len(),
    decreases packets.len(),
{
    reveal(Seq::filter);
    if packets.len() > 0 {
        lemma_count_triggers_is_header_bit_count(packets.drop_last());
    }
}

/// Counting triggers over two bursts one after the other gives the same
/// total as counting over the joined burst: inspection is cumulative.
pub proof fn lemma_count_triggers_concat(a: Seq<MuPacket>, b: Seq<MuPacket>)
    ensures
        count_triggers(a + b) == count_triggers(a) + count_triggers(b),
    decreases b.len(),
{
    if b.len() == 0 {
        assert(a + b =~= a);
    } else {
        lemma_count_triggers_concat(a, b.drop_last());
        assert((a + b).drop_last() =~= a + b.drop_last());
        assert((a + b).last() == b.last());
    }
}

proof fn lemma_count_triggers_remove(s: Seq<MuPacket>, j: int)
    requires
        0 <= j < s.len(),
    ensures
        count_triggers(s) == count_triggers(s.remove(j)) + if is_triggered(s[j]) {
            1nat
        } else {
            0nat
        },
{
    let front = s.take(j);
    let back = s.skip(j + 1);
    lemma_count_triggers_concat(front.push(s[j]), back);
    lemma_count_triggers_concat(front, back);
    assert(front.push(s[j]) + back =~= s);
    assert(front + back =~= s.remove(j));
    assert(front.push(s[j]).drop_last() =~= front);
}

/// The number of triggered packets does not depend on the order of the
/// packets: two bursts holding the same packets count the same.
pub proof fn lemma_count_triggers_permutation(a: Seq<MuPacket>, b: Seq<MuPacket>)
    requires
        a.to_multiset() == b.to_multiset(),
    ensures
        count_triggers(a) == count_triggers(b),
    decreases a.len(),
{
    a.to_multiset_ensures();
    b.to_multiset_ensures();
    if a.len() > 0 {
        let x = a.last();
        let rest = a.drop_last();
        rest.to_multiset_ensures();
        assert(rest.push(x) =~= a);
        assert(b.to_multiset().count(x) > 0);
        assert(b.contains(x));
        let j = choose|j: int| 0 <= j < b.len() && b[j] == x;
        let b2 = b.remove(j);
        assert(b2.to_multiset() =~= rest.to_multiset());
        lemma_count_triggers_permutation(rest, b2);
        lemma_count_triggers_remove(b, j);
    }
}

/// Total number of triggered packets over a sequence of bursts.
pub open spec fn total_triggers(bursts: Seq<Seq<MuPacket>>) -> nat
    decreases bursts.len(),
{
    if bursts.len() == 0 {
        0
    } else {
        total_triggers(bursts.drop_last()) + count_triggers(bursts.last())
    }
}

/// Vision bridge.
///
/// Inspects each burst of [`MuPacket`] frames for the trigger bit and
/// toggles the 120 Hz display state once per triggered packet.  Inspection
/// is cumulative across bursts, so partial bursts arriving out of phase do
/// not make the display strobe.
pub struct MuVis {
    trigger_count: u32,
    hz_state: bool,
}

impl MuVis {
    /// The display state is on exactly when an odd number of triggers has
    /// been seen.
    #[verifier::type_invariant]
    spec fn state_matches_parity(self) -> bool {
        self.hz_state == (self.trigger_count % 2 == 1)
    }

    /// Number of triggered packets seen so far.
    pub closed spec fn triggers_seen(self) -> nat {
        self.trigger_count as nat
    }

    /// The 120 Hz display state.
    pub closed spec fn display_state(self) -> bool {
        self.hz_state
    }

    /// The count of triggers seen always fits the `u32` counter.
    pub proof fn lemma_triggers_seen_fits(self)
        ensures
            self.triggers_seen() <= u32::MAX,
    {
    }

    /// Starting from a fresh bridge, rendering the bursts one after another
    /// leaves the sum of the per-burst trigger counts, and the display on
    /// exactly when that sum is odd: `states[j + 1]` is the bridge after
    /// `render(bursts[j])`, as `render`'s contract relates them.
    pub proof fn lemma_render_sequence(states: Seq<MuVis>, bursts: Seq<Seq<MuPacket>>)
        requires
            states.len() == bursts.len() + 1,
            states[0].triggers_seen() == 0,
            !states[0].display_state(),
            forall|j: int|
                0 <= j < bursts.len() ==> {
                    &&& #[trigger] states[j + 1].triggers_seen() == states[j].triggers_seen()
                        + count_triggers(bursts[j])
                    &&& states[j + 1].display_state() == (states[j].display_state() != (
                    count_triggers(bursts[j]) % 2 == 1))
                },
        ensures
            states.last().triggers_seen() == total_triggers(bursts),
            states.last().display_state() == (total_triggers(bursts) % 2 == 1),
        decreases bursts.len(),
    {
        if bursts.len() > 0 {
            let k = bursts.len() - 1;
            let init = states.drop_last();
            let bs = bursts.drop_last();
            assert forall|j: int| 0 <= j < bs.len() implies {
                &&& #[trigger] init[j + 1].triggers_seen() == init[j].triggers_seen()
                    + count_triggers(bs[j])
                &&& init[j + 1].display_state() == (init[j].display_state() != (count_triggers(
                    bs[j],
                ) % 2 == 1))
            } by {
                assert(states[j + 1].triggers_seen() == states[j].triggers_seen() + count_triggers(
                    bursts[j],
                ));
            }
            Self::lemma_render_sequence(init, bs);
            assert(states[k + 1].triggers_seen() == states[k].triggers_seen() + count_triggers(
                bursts[k],
            ));
        }
    }

    pub fn new() -> (vis: Self)
        ensures
            vis.triggers_seen() == 0,
            !vis.display_state(),
    {
        Self { trigger_count: 0, hz_state: false }
    }

    /// Process a slice of packets, toggling the 120 Hz state for each
    /// packet whose trigger bit is set.
    pub fn render(&mut self, packets: &[MuPacket])
        requires
            old(self).triggers_seen() + count_triggers(packets@) <= u32::MAX,
        ensures
            final(self).triggers_seen() == old(self).triggers_seen() + count_triggers(packets@),
            final(self).display_state() == (old(self).display_state() != (count_triggers(packets@)
                % 2 == 1)),
            final(self).triggers_seen() == old(self).triggers_seen() + packets@.filter(
                |p: MuPacket| p.header & 0x80u8 != 0,
            ).len(),
    {
        proof {
            use_type_invariant(&*self);
        }
        let mut count = self.trigger_count;
        let mut state = self.hz_state;
        let mut i: usize = 0;
        while i < packets.len()
            invariant
                i <= packets@.len(),
                self.trigger_count + count_triggers(packets@) <= u32::MAX,
                self.hz_state == (self.trigger_count % 2 == 1),
                count == self.trigger_count + count_triggers(packets@.take(i as int)),
                state == (count % 2 == 1),
            decreases packets@.len() - i,
        {
            let triggered = (packets[i].header & MuPacket::TRIGGER_BIT) != 0;
            proof {
                let next = packets@.take(i + 1);
                lemma_count_triggers_concat(next, packets@.skip(i + 1));
                assert(next + packets@.skip(i + 1) =~= packets@);
                assert(next.drop_last() =~= packets@.take(i as int));
                assert(next.last() == packets@[i as int]);
                assert(triggered == is_triggered(packets@[i as int]));
            }
            count = count + triggered as u32;
            state = state ^ triggered;
            i = i + 1;
        }
        assert(packets@.take(i as int) =~= packets@);
        proof {
            lemma_count_triggers_is_header_bit_count(packets@);
        }
        *self = MuVis { trigger_count: count, hz_state: state };
    }

    pub fn trigger_count(&self) -> (count: u32)
        ensures
            count == self.triggers_seen(),
    {
        self.trigger_count
    }

    pub fn hz_state(&self) -> (on: bool)
        ensures
            on == self.display_state(),
            on == (self.triggers_seen() % 2 == 1),
    {
        proof {
            use_type_invariant(self);
        }
        self.hz_state
    }
}

impl Default for MuVis {
    fn default() -> (vis: Self)
        ensures
            vis.triggers_seen() == 0,
            !vis.display_state(),
    {
        Self::new()
    }
}

} // verus!
