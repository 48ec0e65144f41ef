//! The renderer: decodes the composite B-format stream into stereo frames.
use vstd::prelude::*;
use crate::bformat::{encoded, silent_field, BSample, Direction, Field, ENCODED_BOUND, UNIT};
use crate::mixer::{composite, lemma_composite_within, MonoSource, Mixer, SourceState, MAX_SOURCES};

verus! {

/// One stereo frame, each channel in units of one sample step over
/// `UNIT * UNIT`.
#[derive(Clone, Copy, Debug, PartialEq, Eq, Structural)]
pub struct StereoFrame {
    pub left: i64,
    pub right: i64,
}

/// A decoder for two virtual speakers placed symmetrically in front of the
/// listener. Gains are in units of `1 / UNIT`:
/// `left = w * omni - x * lateral + y * frontal` and
/// `right = w * omni + x * lateral + y * frontal`. The height channel is not
/// used.
#[derive(Clone, Copy, Debug, PartialEq, Eq, Structural)]
pub struct Renderer {
    omni: i16,
    lateral: i16,
    frontal: i16,
}

/// The stereo frame `(left, right)` that `g` decodes from field `f`.
pub open spec fn decoded(g: Renderer, f: Field) -> (int, int) {
    (
        f.0 * g.omni_gain() - f.1 * g.lateral_gain() + f.2 * g.frontal_gain(),
        f.0 * g.omni_gain() + f.1 * g.lateral_gain() + f.2 * g.frontal_gain(),
    )
}

pub open spec fn abs(a: int) -> int {
    if a < 0 {
        -a
    } else {
        a
    }
}

impl Renderer {
    pub closed spec fn omni_gain(self) -> int {
        self.omni as int
    }

    pub closed spec fn lateral_gain(self) -> int {
        self.lateral as int
    }

    pub closed spec fn frontal_gain(self) -> int {
        self.frontal as int
    }

    /// The speakers' invariant: the omnidirectional gain is positive and
    /// the right speaker lies to the right (`lateral > 0`).
    pub open spec fn valid(self) -> bool {
        self.omni_gain() > 0 && self.lateral_gain() > 0
    }

    /// A renderer with the given gains, or `None` unless `omni > 0` and
    /// `lateral > 0`.
    pub fn new(omni: i16, lateral: i16, frontal: i16) -> (r: Option<Renderer>)
        ensures
            r is Some <==> (omni > 0 && lateral > 0),
            r matches Some(g) ==> g.valid() && g.omni_gain() == omni && g.lateral_gain() == lateral
                && g.frontal_gain() == frontal,
    {
        if omni > 0 && lateral > 0 {
            Some(Renderer { omni, lateral, frontal })
        } else {
            None
        }
    }

    pub fn omni(&self) -> (r: i16)
        ensures
            r as int == self.omni_gain(),
    {
        self.omni
    }

    pub fn lateral(&self) -> (r: i16)
        ensures
            r as int == self.lateral_gain(),
    {
        self.lateral
    }

    pub fn frontal(&self) -> (r: i16)
        ensures
            r as int == self.frontal_gain(),
    {
        self.frontal
    }

    /// Decodes one B-format sample whose channels are within what
    /// `MAX_SOURCES` sources can add up to.
    pub fn decode(&self, b: BSample) -> (r: StereoFrame)
        requires
            crate::bformat::field_bounded(b@, MAX_SOURCES * ENCODED_BOUND),
        ensures
            (r.left as int, r.right as int) == decoded(*self, b@),
    {
        let w = b.w;
        let x = b.x;
        let y = b.y;
        let o = self.omni as i64;
        let l = self.lateral as i64;
        let f = self.frontal as i64;
        proof {
            let m: int = MAX_SOURCES * ENCODED_BOUND;
            assert(m == 4398046511104);
            assert(-144115188075855872 <= w * o <= 144115188075855872) by (nonlinear_arith)
                requires -4398046511104 <= w <= 4398046511104, -32768 <= o <= 32767;
            assert(-144115188075855872 <= x * l <= 144115188075855872) by (nonlinear_arith)
                requires -4398046511104 <= x <= 4398046511104, -32768 <= l <= 32767;
            assert(-144115188075855872 <= y * f <= 144115188075855872) by (nonlinear_arith)
                requires -4398046511104 <= y <= 4398046511104, -32768 <= f <= 32767;
        }
        let wo = w * o;
        let xl = x * l;
        let yf = y * f;
        StereoFrame { left: wo - xl + yf, right: wo + xl + yf }
    }

    /// Produces the next stereo frame: pulls one composite sample from
    /// `mixer` and decodes it.
    pub fn next_stereo_frame<P: MonoSource>(&self, mixer: &mut Mixer<P>) -> (r: StereoFrame)
        requires
            old(mixer).valid(),
        ensures
            final(mixer).valid(),
            final(mixer).rate() == old(mixer).rate(),
            exists|pulled: Seq<Option<i16>>|
                {
                    &&& pulled.len() == old(mixer)@.len()
                    &&& forall|j: int| 0 <= j < pulled.len() && (#[trigger] old(mixer)@[j]).stopped ==> pulled[j] is None
                    &&& (r.left as int, r.right as int) == decoded(*self, composite(old(mixer)@, pulled))
                    &&& final(mixer)@ == crate::mixer::survivors(old(mixer)@, pulled)
                },
    {
        let b = mixer.next_composite_sample();
        let ghost pulled = choose|pulled: Seq<Option<i16>>|
            {
                &&& pulled.len() == old(mixer)@.len()
                &&& forall|j: int| 0 <= j < pulled.len() && (#[trigger] old(mixer)@[j]).stopped ==> pulled[j] is None
                &&& b@ == composite(old(mixer)@, pulled)
                &&& mixer@ == crate::mixer::survivors(old(mixer)@, pulled)
            };
        proof {
            assert(old(mixer)@.len() <= MAX_SOURCES);
            lemma_composite_within(old(mixer)@, pulled);
        }
        self.decode(b)
    }
}

/// Silence: a frame with no sources is the silent field, and every renderer
/// decodes it to `(0, 0)`.
pub proof fn lemma_silence(g: Renderer, pulled: Seq<Option<i16>>)
    requires
        pulled.len() == 0,
    ensures
        composite(Seq::<SourceState>::empty(), pulled) == silent_field(),
        decoded(g, composite(Seq::<SourceState>::empty(), pulled)) == (0int, 0int),
{
    let f = composite(Seq::<SourceState>::empty(), pulled);
    assert(f == silent_field());
    assert(decoded(g, f) == (0int, 0int)) by (nonlinear_arith)
        requires
            f == (0int, 0int, 0int, 0int),
            decoded(g, f) == (
                f.0 * g.omni_gain() - f.1 * g.lateral_gain() + f.2 * g.frontal_gain(),
                f.0 * g.omni_gain() + f.1 * g.lateral_gain() + f.2 * g.frontal_gain(),
            );
}

/// Routing: a nonzero sample from straight right, `(UNIT, 0, 0)`, comes out
/// louder on the right than on the left.
pub proof fn lemma_directional_routing(g: Renderer, s: i16)
    requires
        g.valid(),
        s != 0,
    ensures
        abs(decoded(g, encoded(s as int, Direction { x: UNIT, y: 0, z: 0 })).1) > abs(
            decoded(g, encoded(s as int, Direction { x: UNIT, y: 0, z: 0 })).0,
        ),
{
    let a = crate::bformat::OMNI_GAIN * g.omni_gain();
    let b = UNIT * g.lateral_gain();
    let si = s as int;
    let f = encoded(si, Direction { x: UNIT, y: 0, z: 0 });
    assert(decoded(g, f).0 == si * a - si * b) by (nonlinear_arith)
        requires
            f == (si * crate::bformat::OMNI_GAIN, si * UNIT, si * 0, si * 0),
            decoded(g, f).0 == f.0 * g.omni_gain() - f.1 * g.lateral_gain() + f.2 * g.frontal_gain(),
            a == crate::bformat::OMNI_GAIN * g.omni_gain(),
            b == UNIT * g.lateral_gain();
    assert(decoded(g, f).1 == si * a + si * b) by (nonlinear_arith)
        requires
            f == (si * crate::bformat::OMNI_GAIN, si * UNIT, si * 0, si * 0),
            decoded(g, f).1 == f.0 * g.omni_gain() + f.1 * g.lateral_gain() + f.2 * g.frontal_gain(),
            a == crate::bformat::OMNI_GAIN * g.omni_gain(),
            b == UNIT * g.lateral_gain();
    assert(a > 0 && b > 0) by (nonlinear_arith)
        requires
            a == crate::bformat::OMNI_GAIN * g.omni_gain(),
            b == UNIT * g.lateral_gain(),
            g.omni_gain() > 0,
            g.lateral_gain() > 0;
    let p = si * a;
    let q = si * b;
    if si > 0 {
        assert(p > 0 && q > 0) by (nonlinear_arith)
            requires p == si * a, q == si * b, si > 0, a > 0, b > 0;
    } else {
        assert(p < 0 && q < 0) by (nonlinear_arith)
            requires p == si * a, q == si * b, si < 0, a > 0, b > 0;
    }
    assert(abs(p + q) > abs(p - q));
    assert(decoded(g, f).1 == p + q && decoded(g, f).0 == p - q);
}

/// Symmetry: a sample from the centre, `(0, 0, 0)`, comes out the same on
/// both channels.
pub proof fn lemma_centered_symmetry(g: Renderer, s: i16)
    ensures
        decoded(g, encoded(s as int, Direction { x: 0, y: 0, z: 0 })).0 == decoded(
            g,
            encoded(s as int, Direction { x: 0, y: 0, z: 0 }),
        ).1,
{
    let f = encoded(s as int, Direction { x: 0, y: 0, z: 0 });
    assert(f.1 == 0 && f.2 == 0) by (nonlinear_arith)
        requires f == (s as int * crate::bformat::OMNI_GAIN, s as int * 0, s as int * 0, s as int * 0);
}

} // verus!
