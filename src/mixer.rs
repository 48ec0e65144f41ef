//! The mixer: the dynamic set of playing sources, summed once per frame.
use vstd::prelude::*;
use crate::bformat::{
    encode, encoded, field_add, field_bounded, lemma_encoded_bounded, silent_field, BSample,
    Direction, Field, ENCODED_BOUND,
};

verus! {

/// Most sources that one mixer plays at once.
pub const MAX_SOURCES: usize = 4096;

/// A producer of mono samples: `Some` for the next sample, `None` once it is
/// exhausted.
pub trait MonoSource {
    fn next_sample(&mut self) -> Option<i16>;
}

/// What the mixer knows of one playing source besides its producer.
#[derive(Clone, Copy, Debug, PartialEq, Eq, Structural)]
pub struct SourceState {
    pub id: u64,
    pub direction: Direction,
    pub stopped: bool,
}

struct Slot<P> {
    id: u64,
    direction: Direction,
    stopped: bool,
    producer: P,
}

spec fn state_of<P>(s: Slot<P>) -> SourceState {
    SourceState { id: s.id, direction: s.direction, stopped: s.stopped }
}

spec fn states<P>(s: Seq<Slot<P>>) -> Seq<SourceState> {
    s.map_values(|x: Slot<P>| state_of(x))
}

/// The field that one source adds to a frame, given what was pulled from it.
/// A stopped source adds silence, as does an exhausted one.
pub open spec fn contribution(st: SourceState, pulled: Option<i16>) -> Field {
    if st.stopped {
        silent_field()
    } else {
        match pulled {
            Some(s) => encoded(s as int, st.direction),
            None => silent_field(),
        }
    }
}

/// The composite field of a frame: the sum of every source's contribution.
pub open spec fn composite(sts: Seq<SourceState>, pulled: Seq<Option<i16>>) -> Field
    decreases sts.len(),
{
    if sts.len() == 0 {
        silent_field()
    } else {
        field_add(
            composite(sts.drop_last(), pulled.take(sts.len() - 1)),
            contribution(sts.last(), pulled[sts.len() - 1]),
        )
    }
}

/// Whether a source stays in the active set after a frame: it was not
/// stopped and its producer yielded a sample.
pub open spec fn stays(st: SourceState, pulled: Option<i16>) -> bool {
    !st.stopped && pulled is Some
}

/// The sources that remain after a frame, in their order.
pub open spec fn survivors(sts: Seq<SourceState>, pulled: Seq<Option<i16>>) -> Seq<SourceState>
    decreases sts.len(),
{
    if sts.len() == 0 {
        Seq::empty()
    } else {
        let rest = survivors(sts.skip(1), pulled.skip(1));
        if stays(sts[0], pulled[0]) {
            seq![sts[0]] + rest
        } else {
            rest
        }
    }
}

pub open spec fn has_id(sts: Seq<SourceState>, id: u64) -> bool {
    exists|j: int| 0 <= j < sts.len() && (#[trigger] sts[j]).id == id
}

/// The mixer's invariant: at most `MAX_SOURCES` sources, with distinct ids.
pub open spec fn valid_states(sts: Seq<SourceState>) -> bool {
    &&& sts.len() <= MAX_SOURCES
    &&& forall|i: int, j: int|
        0 <= i < sts.len() && 0 <= j < sts.len() && i != j ==> sts[i].id != sts[j].id
}

/// The active set of sources. Sources are added, repositioned and stopped
/// between frames; each frame pulls one sample from every active source.
pub struct Mixer<P> {
    slots: Vec<Slot<P>>,
    pulled: Vec<Option<i16>>,
    sample_rate: u32,
}

impl<P> View for Mixer<P> {
    type V = Seq<SourceState>;

    closed spec fn view(&self) -> Seq<SourceState> {
        states(self.slots@)
    }
}

proof fn lemma_composite_bounded(sts: Seq<SourceState>, pulled: Seq<Option<i16>>)
    requires
        pulled.len() == sts.len(),
    ensures
        field_bounded(composite(sts, pulled), sts.len() * ENCODED_BOUND),
    decreases sts.len(),
{
    if sts.len() > 0 {
        let n = sts.len() - 1;
        lemma_composite_bounded(sts.drop_last(), pulled.take(n));
        match pulled[n] {
            Some(s) => lemma_encoded_bounded(s, sts.last().direction),
            None => {},
        }
        assert(sts.len() * ENCODED_BOUND == n * ENCODED_BOUND + ENCODED_BOUND) by (nonlinear_arith)
            requires n == sts.len() - 1;
    }
}

/// Every composite field of a valid mixer is within `MAX_SOURCES` encoded
/// samples on each channel.
pub proof fn lemma_composite_within(sts: Seq<SourceState>, pulled: Seq<Option<i16>>)
    requires
        pulled.len() == sts.len(),
        sts.len() <= MAX_SOURCES,
    ensures
        field_bounded(composite(sts, pulled), MAX_SOURCES * ENCODED_BOUND),
{
    lemma_composite_bounded(sts, pulled);
    assert(sts.len() * ENCODED_BOUND <= MAX_SOURCES * ENCODED_BOUND) by (nonlinear_arith)
        requires sts.len() <= MAX_SOURCES;
}

/// `x` is one of the sources `sts` that stays after `pulled`.
pub open spec fn staying_member(sts: Seq<SourceState>, pulled: Seq<Option<i16>>, x: SourceState) -> bool {
    exists|j: int| 0 <= j < sts.len() && sts[j] == x && #[trigger] stays(sts[j], pulled[j])
}

proof fn lemma_survivors_step(sts: Seq<SourceState>, pulled: Seq<Option<i16>>, k: int)
    requires
        0 <= k < sts.len(),
        pulled.len() == sts.len(),
    ensures
        survivors(sts.skip(k), pulled.skip(k)) == if stays(sts[k], pulled[k]) {
            seq![sts[k]] + survivors(sts.skip(k + 1), pulled.skip(k + 1))
        } else {
            survivors(sts.skip(k + 1), pulled.skip(k + 1))
        },
{
    assert(sts.skip(k).skip(1) =~= sts.skip(k + 1));
    assert(pulled.skip(k).skip(1) =~= pulled.skip(k + 1));
}

/// Each survivor of a frame is a source of that frame that stays, and each
/// source that stays survives.
pub proof fn lemma_survivors_members(sts: Seq<SourceState>, pulled: Seq<Option<i16>>)
    requires
        pulled.len() == sts.len(),
    ensures
        survivors(sts, pulled).len() <= sts.len(),
        forall|k: int| 0 <= k < survivors(sts, pulled).len() ==> #[trigger] staying_member(
            sts,
            pulled,
            survivors(sts, pulled)[k],
        ),
        forall|j: int| 0 <= j < sts.len() && #[trigger] stays(sts[j], pulled[j])
            ==> survivors(sts, pulled).contains(sts[j]),
    decreases sts.len(),
{
    if sts.len() > 0 {
        let t = sts.skip(1);
        let q = pulled.skip(1);
        lemma_survivors_members(t, q);
        let rest = survivors(t, q);
        let sv = survivors(sts, pulled);
        assert forall|k: int| 0 <= k < sv.len() implies #[trigger] staying_member(sts, pulled, sv[k]) by {
            if stays(sts[0], pulled[0]) {
                if k == 0 {
                    assert(sts[0] == sv[0]);
                } else {
                    assert(sv[k] == rest[k - 1]);
                    assert(staying_member(t, q, rest[k - 1]));
                    let j = choose|j: int| 0 <= j < t.len() && t[j] == rest[k - 1] && stays(t[j], q[j]);
                    assert(sts[j + 1] == sv[k] && pulled[j + 1] == q[j]);
                }
            } else {
                assert(staying_member(t, q, rest[k]));
                let j = choose|j: int| 0 <= j < t.len() && t[j] == rest[k] && stays(t[j], q[j]);
                assert(sts[j + 1] == sv[k] && pulled[j + 1] == q[j]);
            }
        }
        assert forall|j: int| 0 <= j < sts.len() && #[trigger] stays(sts[j], pulled[j])
            implies sv.contains(sts[j]) by {
            if j == 0 {
                assert(sv[0] == sts[0]);
            } else {
                assert(t[j - 1] == sts[j] && q[j - 1] == pulled[j]);
                assert(stays(t[j - 1], q[j - 1]));
                assert(rest.contains(t[j - 1]));
                let m = choose|m: int| 0 <= m < rest.len() && rest[m] == t[j - 1];
                if stays(sts[0], pulled[0]) {
                    assert(sv[m + 1] == rest[m]);
                } else {
                    assert(sv[m] == rest[m]);
                }
            }
        }
    }
}

/// The survivors of a frame of a valid mixer form a valid mixer.
pub proof fn lemma_survivors_valid(sts: Seq<SourceState>, pulled: Seq<Option<i16>>)
    requires
        pulled.len() == sts.len(),
        valid_states(sts),
    ensures
        valid_states(survivors(sts, pulled)),
    decreases sts.len(),
{
    if sts.len() > 0 {
        let t = sts.skip(1);
        let q = pulled.skip(1);
        assert(valid_states(t)) by {
            assert forall|i: int, j: int| 0 <= i < t.len() && 0 <= j < t.len() && i != j
                implies t[i].id != t[j].id by {
                assert(t[i] == sts[i + 1] && t[j] == sts[j + 1]);
            }
        }
        lemma_survivors_valid(t, q);
        lemma_survivors_members(t, q);
        let rest = survivors(t, q);
        let sv = survivors(sts, pulled);
        if stays(sts[0], pulled[0]) {
            assert forall|i: int, j: int| 0 <= i < sv.len() && 0 <= j < sv.len() && i != j
                implies sv[i].id != sv[j].id by {
                if i == 0 {
                    assert(staying_member(t, q, rest[j - 1]));
                    let m = choose|m: int| 0 <= m < t.len() && t[m] == rest[j - 1] && stays(t[m], q[m]);
                    assert(sts[m + 1] == sv[j]);
                } else if j == 0 {
                    assert(staying_member(t, q, rest[i - 1]));
                    let m = choose|m: int| 0 <= m < t.len() && t[m] == rest[i - 1] && stays(t[m], q[m]);
                    assert(sts[m + 1] == sv[i]);
                } else {
                    assert(sv[i] == rest[i - 1] && sv[j] == rest[j - 1]);
                }
            }
        }
    }
}

proof fn lemma_states_index<P>(s: Seq<Slot<P>>)
    ensures
        states(s).len() == s.len(),
        forall|j: int| 0 <= j < s.len() ==> #[trigger] states(s)[j] == state_of(s[j]),
{
}


/// Sums the contributions of `slots` for `pulled`, then drops every slot
/// that does not stay, keeping the order of the rest.
fn mix_slots<P>(slots: &mut Vec<Slot<P>>, pulled: &Vec<Option<i16>>) -> (r: BSample)
    requires
        pulled@.len() == old(slots)@.len(),
        old(slots)@.len() <= MAX_SOURCES,
    ensures
        r@ == composite(states(old(slots)@), pulled@),
        states(final(slots)@) == survivors(states(old(slots)@), pulled@),
{
    let ghost v = states(slots@);
    let ghost pv = pulled@;
    let n = slots.len();
    proof {
        lemma_states_index(slots@);
    }
    let mut acc = BSample::zero();
    let mut i: usize = 0;
    while i < n
        invariant
            0 <= i <= n,
            n == slots@.len(),
            n <= MAX_SOURCES,
            v == states(slots@),
            v.len() == n,
            pv == pulled@,
            pv.len() == n,
            forall|j: int| 0 <= j < n ==> #[trigger] v[j] == state_of(slots@[j]),
            acc@ == composite(v.take(i as int), pv.take(i as int)),
        decreases n - i,
    {
        let ghost k = i as int;
        let c = if slots[i].stopped {
            BSample::zero()
        } else {
            match pulled[i] {
                Some(s) => encode(s, slots[i].direction),
                None => BSample::zero(),
            }
        };
        proof {
            let vt = v.take(k + 1);
            let pt = pv.take(k + 1);
            assert(vt.drop_last() =~= v.take(k));
            assert(pt.take(k) =~= pv.take(k));
            assert(c@ == contribution(vt.last(), pt[k]));
            lemma_composite_within(vt, pt);
        }
        acc = acc.add(c);
        i = i + 1;
    }
    proof {
        assert(v.take(n as int) =~= v);
        assert(pv.take(n as int) =~= pv);
    }
    let mut i: usize = n;
    while i > 0
        invariant
            0 <= i <= n,
            i <= slots@.len(),
            v.len() == n,
            pv == pulled@,
            pv.len() == n,
            states(slots@) == v.take(i as int) + survivors(v.skip(i as int), pv.skip(i as int)),
        decreases i,
    {
        let k: usize = i - 1;
        proof {
            lemma_states_index(slots@);
            lemma_survivors_step(v, pv, k as int);
            assert(v.take(i as int) =~= v.take(k as int).push(v[k as int]));
            assert(states(slots@)[k as int] == v[k as int]);
        }
        let keep = !slots[k].stopped && pulled[k].is_some();
        if keep {
            proof {
                assert(v.take(i as int) + survivors(v.skip(i as int), pv.skip(i as int)) =~= v.take(
                    k as int,
                ) + survivors(v.skip(k as int), pv.skip(k as int)));
            }
        } else {
            let ghost before = slots@;
            slots.remove(k);
            proof {
                lemma_states_index(before);
                lemma_states_index(slots@);
                assert(states(slots@) =~= states(before).remove(k as int));
                assert(states(before).remove(k as int) =~= v.take(k as int) + survivors(
                    v.skip(k as int),
                    pv.skip(k as int),
                ));
            }
        }
        i = k;
    }
    proof {
        assert(v.take(0) + survivors(v.skip(0), pv.skip(0)) =~= survivors(v, pv));
        assert(v.skip(0) =~= v);
        assert(pv.skip(0) =~= pv);
    }
    acc
}

/// Superposition: the composite of two groups of sources mixed together is
/// the componentwise sum of the composites of each group mixed alone.
pub proof fn lemma_superposition(
    a: Seq<SourceState>,
    pa: Seq<Option<i16>>,
    b: Seq<SourceState>,
    pb: Seq<Option<i16>>,
)
    requires
        pa.len() == a.len(),
        pb.len() == b.len(),
    ensures
        composite(a + b, pa + pb) == field_add(composite(a, pa), composite(b, pb)),
    decreases b.len(),
{
    if b.len() == 0 {
        assert(a + b =~= a);
        assert(pa + pb =~= pa);
    } else {
        let n = b.len() - 1;
        lemma_superposition(a, pa, b.drop_last(), pb.take(n));
        assert((a + b).drop_last() =~= a + b.drop_last());
        assert((pa + pb).take(a.len() + n) =~= pa + pb.take(n));
        assert(b.take(n) =~= b.drop_last());
    }
}

/// Superposition of two sources: two playing sources at directions `d1` and
/// `d2` that yield samples `s1` and `s2` make the componentwise sum of their
/// separately encoded samples.
pub proof fn lemma_two_sources(a: SourceState, s1: i16, b: SourceState, s2: i16)
    requires
        !a.stopped,
        !b.stopped,
    ensures
        composite(seq![a, b], seq![Some(s1), Some(s2)]) == field_add(
            encoded(s1 as int, a.direction),
            encoded(s2 as int, b.direction),
        ),
{
    let sts = seq![a, b];
    let ps = seq![Some(s1), Some(s2)];
    assert(sts.drop_last() =~= seq![a]);
    assert(ps.take(1) =~= seq![Some(s1)]);
    assert(seq![a].drop_last() =~= Seq::<SourceState>::empty());
    let one = seq![a];
    let p1 = seq![Some(s1)];
    assert(one.len() == 1 && one.last() == a && p1[0] == Some(s1));
    assert(p1.take(0) =~= Seq::<Option<i16>>::empty());
    assert(composite(one.drop_last(), p1.take(0)) == silent_field());
    assert(composite(one, p1) == field_add(silent_field(), encoded(s1 as int, a.direction)));
    assert(composite(one, p1) == encoded(s1 as int, a.direction));
    assert(sts.last() == b && ps[1] == Some(s2));
}

/// A stopped source adds silence to the frame it is in and is gone after
/// it, while every other source that yields a sample is kept as it was.
pub proof fn lemma_stop_removes(sts: Seq<SourceState>, pulled: Seq<Option<i16>>, k: int)
    requires
        valid_states(sts),
        pulled.len() == sts.len(),
        0 <= k < sts.len(),
        sts[k].stopped,
    ensures
        contribution(sts[k], pulled[k]) == silent_field(),
        !has_id(survivors(sts, pulled), sts[k].id),
        forall|j: int| 0 <= j < sts.len() && j != k && #[trigger] stays(sts[j], pulled[j])
            ==> survivors(sts, pulled).contains(sts[j]),
{
    lemma_gone_when_not_staying(sts, pulled, k);
}

/// A source whose producer is exhausted adds silence to that frame and is
/// gone after it, with no stop needed.
pub proof fn lemma_exhaustion_removes(sts: Seq<SourceState>, pulled: Seq<Option<i16>>, k: int)
    requires
        valid_states(sts),
        pulled.len() == sts.len(),
        0 <= k < sts.len(),
        pulled[k] is None,
    ensures
        contribution(sts[k], pulled[k]) == silent_field(),
        !has_id(survivors(sts, pulled), sts[k].id),
        forall|j: int| 0 <= j < sts.len() && j != k && #[trigger] stays(sts[j], pulled[j])
            ==> survivors(sts, pulled).contains(sts[j]),
{
    lemma_gone_when_not_staying(sts, pulled, k);
}

proof fn lemma_gone_when_not_staying(sts: Seq<SourceState>, pulled: Seq<Option<i16>>, k: int)
    requires
        valid_states(sts),
        pulled.len() == sts.len(),
        0 <= k < sts.len(),
        !stays(sts[k], pulled[k]),
    ensures
        !has_id(survivors(sts, pulled), sts[k].id),
        forall|j: int| 0 <= j < sts.len() && #[trigger] stays(sts[j], pulled[j])
            ==> survivors(sts, pulled).contains(sts[j]),
{
    lemma_survivors_members(sts, pulled);
    let sv = survivors(sts, pulled);
    if has_id(sv, sts[k].id) {
        let m = choose|m: int| 0 <= m < sv.len() && (#[trigger] sv[m]).id == sts[k].id;
        assert(staying_member(sts, pulled, sv[m]));
        let j = choose|j: int| 0 <= j < sts.len() && sts[j] == sv[m] && #[trigger] stays(sts[j], pulled[j]);
        assert(j != k);
    }
}

impl<P> Mixer<P> {
    /// The mixer's invariant.
    pub open spec fn valid(&self) -> bool {
        valid_states(self@)
    }

    /// The sample rate that the mix runs at.
    pub closed spec fn rate(&self) -> u32 {
        self.sample_rate
    }

    /// An empty mixer running at `sample_rate`.
    pub fn new(sample_rate: u32) -> (r: Mixer<P>)
        ensures
            r.valid(),
            r@ == Seq::<SourceState>::empty(),
            r.rate() == sample_rate,
    {
        let r = Mixer { slots: Vec::new(), pulled: Vec::new(), sample_rate };
        proof {
            assert(states(r.slots@) =~= Seq::<SourceState>::empty());
        }
        r
    }

    pub fn sample_rate(&self) -> (r: u32)
        ensures
            r == self.rate(),
    {
        self.sample_rate
    }

    /// Number of sources in the active set.
    pub fn len(&self) -> (r: usize)
        ensures
            r == self@.len(),
    {
        self.slots.len()
    }

    /// Whether a source with this id is in the active set.
    pub fn contains(&self, id: u64) -> (r: bool)
        ensures
            r == has_id(self@, id),
    {
        let mut i: usize = 0;
        while i < self.slots.len()
            invariant
                0 <= i <= self@.len(),
                self@ == states(self.slots@),
                forall|j: int| 0 <= j < i ==> (#[trigger] self@[j]).id != id,
            decreases self@.len() - i,
        {
            if self.slots[i].id == id {
                assert(self@[i as int].id == id);
                return true;
            }
            i = i + 1;
        }
        false
    }

    /// Adds a source under `id`, playing `producer` from direction `direction`.
    /// It is refused when the set is full or `id` is already in use.
    pub fn play(&mut self, id: u64, producer: P, direction: Direction) -> (r: bool)
        requires
            old(self).valid(),
        ensures
            final(self).valid(),
            final(self).rate() == old(self).rate(),
            r == (old(self)@.len() < MAX_SOURCES && !has_id(old(self)@, id)),
            r ==> final(self)@ == old(self)@.push(SourceState { id, direction, stopped: false }),
            !r ==> final(self)@ == old(self)@,
    {
        if self.slots.len() >= MAX_SOURCES || self.contains(id) {
            return false;
        }
        self.slots.push(Slot { id, direction, stopped: false, producer });
        proof {
            assert(states(self.slots@) =~= states(old(self).slots@).push(SourceState { id, direction, stopped: false }));
        }
        true
    }

    /// Points the source `id` at `direction`, from the next frame on.
    /// Returns whether such a source was in the set.
    pub fn set_position(&mut self, id: u64, direction: Direction) -> (r: bool)
        requires
            old(self).valid(),
        ensures
            final(self).valid(),
            final(self).rate() == old(self).rate(),
            r == has_id(old(self)@, id),
            final(self)@.len() == old(self)@.len(),
            forall|j: int| 0 <= j < old(self)@.len() ==> #[trigger] final(self)@[j] == if old(self)@[j].id == id {
                SourceState { direction, ..old(self)@[j] }
            } else {
                old(self)@[j]
            },
    {
        proof {
            lemma_states_index(old(self).slots@);
        }
        let mut found = false;
        let mut i: usize = 0;
        while i < self.slots.len()
            invariant
                0 <= i <= self.slots@.len(),
                self.slots@.len() == old(self).slots@.len(),
                self.sample_rate == old(self).sample_rate,
                forall|j: int| 0 <= j < old(self).slots@.len() ==> #[trigger] old(self)@[j] == state_of(old(self).slots@[j]),
                old(self)@.len() == old(self).slots@.len(),
                found == exists|j: int| 0 <= j < i && (#[trigger] old(self)@[j]).id == id,
                forall|j: int| 0 <= j < self.slots@.len() ==> #[trigger] state_of(self.slots@[j]) == if j < i && old(self)@[j].id == id {
                    SourceState { direction, ..old(self)@[j] }
                } else {
                    old(self)@[j]
                },
            decreases self.slots@.len() - i,
        {
            let ghost before = self.slots@;
            assert(state_of(before[i as int]) == old(self)@[i as int]);
            if self.slots[i].id == id {
                self.slots[i].direction = direction;
                found = true;
                assert(self.slots@ == before.update(i as int, Slot { direction: direction, ..before[i as int] }));
            }
            i = i + 1;
        }
        proof {
            lemma_states_index(self.slots@);
            assert forall|a: int, b: int| 0 <= a < self@.len() && 0 <= b < self@.len() && a != b
                implies self@[a].id != self@[b].id by {
                assert(self@[a].id == old(self)@[a].id && self@[b].id == old(self)@[b].id);
            }
        }
        found
    }

    /// Marks the source `id` stopped: it adds nothing to later frames and
    /// leaves the set at the end of the next frame.
    /// Returns whether such a source was in the set.
    pub fn stop(&mut self, id: u64) -> (r: bool)
        requires
            old(self).valid(),
        ensures
            final(self).valid(),
            final(self).rate() == old(self).rate(),
            r == has_id(old(self)@, id),
            final(self)@.len() == old(self)@.len(),
            forall|j: int| 0 <= j < old(self)@.len() ==> #[trigger] final(self)@[j] == if old(self)@[j].id == id {
                SourceState { stopped: true, ..old(self)@[j] }
            } else {
                old(self)@[j]
            },
    {
        proof {
            lemma_states_index(old(self).slots@);
        }
        let mut found = false;
        let mut i: usize = 0;
        while i < self.slots.len()
            invariant
                0 <= i <= self.slots@.len(),
                self.slots@.len() == old(self).slots@.len(),
                self.sample_rate == old(self).sample_rate,
                forall|j: int| 0 <= j < old(self).slots@.len() ==> #[trigger] old(self)@[j] == state_of(old(self).slots@[j]),
                old(self)@.len() == old(self).slots@.len(),
                found == exists|j: int| 0 <= j < i && (#[trigger] old(self)@[j]).id == id,
                forall|j: int| 0 <= j < self.slots@.len() ==> #[trigger] state_of(self.slots@[j]) == if j < i && old(self)@[j].id == id {
                    SourceState { stopped: true, ..old(self)@[j] }
                } else {
                    old(self)@[j]
                },
            decreases self.slots@.len() - i,
        {
            let ghost before = self.slots@;
            assert(state_of(before[i as int]) == old(self)@[i as int]);
            if self.slots[i].id == id {
                self.slots[i].stopped = true;
                found = true;
                assert(self.slots@ == before.update(i as int, Slot { stopped: true, ..before[i as int] }));
            }
            i = i + 1;
        }
        proof {
            lemma_states_index(self.slots@);
            assert forall|a: int, b: int| 0 <= a < self@.len() && 0 <= b < self@.len() && a != b
                implies self@[a].id != self@[b].id by {
                assert(self@[a].id == old(self)@[a].id && self@[b].id == old(self)@[b].id);
            }
        }
        found
    }
    /// Mixes one frame from the samples pulled from the sources, in the order
    /// of the active set: `pulled[i]` is the sample of the `i`-th source, or
    /// `None` where it is exhausted. Returns the sum of every contribution and
    /// removes every stopped or exhausted source.
    pub fn mix_pulled(&mut self, pulled: &Vec<Option<i16>>) -> (r: BSample)
        requires
            old(self).valid(),
            pulled@.len() == old(self)@.len(),
        ensures
            final(self).valid(),
            final(self).rate() == old(self).rate(),
            r@ == composite(old(self)@, pulled@),
            final(self)@ == survivors(old(self)@, pulled@),
    {
        proof {
            lemma_survivors_valid(self@, pulled@);
        }
        mix_slots(&mut self.slots, pulled)
    }
}

impl<P: MonoSource> Mixer<P> {
    /// Produces the next composite sample: pulls one sample from every source
    /// that is not stopped, sums their encoded fields, and afterwards removes
    /// every stopped or exhausted source. With no sources it is silent.
    pub fn next_composite_sample(&mut self) -> (r: BSample)
        requires
            old(self).valid(),
        ensures
            final(self).valid(),
            final(self).rate() == old(self).rate(),
            exists|pulled: Seq<Option<i16>>|
                {
                    &&& pulled.len() == old(self)@.len()
                    &&& forall|j: int| 0 <= j < pulled.len() && (#[trigger] old(self)@[j]).stopped ==> pulled[j] is None
                    &&& r@ == composite(old(self)@, pulled)
                    &&& final(self)@ == survivors(old(self)@, pulled)
                },
    {
        proof {
            lemma_states_index(self.slots@);
        }
        self.pulled.clear();
        let n = self.slots.len();
        let mut i: usize = 0;
        while i < n
            invariant
                0 <= i <= n,
                n == self.slots@.len(),
                self.pulled@.len() == i,
                self.sample_rate == old(self).sample_rate,
                old(self)@.len() == n,
                forall|j: int| 0 <= j < n ==> #[trigger] state_of(self.slots@[j]) == old(self)@[j],
                forall|j: int| 0 <= j < i && (#[trigger] old(self)@[j]).stopped ==> self.pulled@[j] is None,
            decreases n - i,
        {
            let ghost before = self.slots@;
            let ghost pulled_before = self.pulled@;
            assert(state_of(before[i as int]) == old(self)@[i as int]);
            let s = if self.slots[i].stopped {
                None
            } else {
                self.slots[i].producer.next_sample()
            };
            assert(self.slots@.len() == n);
            assert forall|j: int| 0 <= j < n implies #[trigger] state_of(self.slots@[j]) == state_of(before[j]) by {
                if j != i {
                    assert(self.slots@[j] == before[j]);
                }
            }
            self.pulled.push(s);
            assert forall|j: int| 0 <= j < i && (#[trigger] old(self)@[j]).stopped implies self.pulled@[j] is None by {
                assert(self.pulled@[j] == pulled_before[j]);
            }
            i = i + 1;
        }
        proof {
            lemma_states_index(self.slots@);
            assert(self@ =~= old(self)@);
            lemma_survivors_valid(self@, self.pulled@);
        }
        mix_slots(&mut self.slots, &self.pulled)
    }
}

} // verus!
