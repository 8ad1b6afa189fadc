//! Meter as nested periodic pulse sets, time signatures, grouping, and the
//! relation between two simultaneous metric layers.
use crate::algebra::{
    gcd, gcd_u128, lemma_q_view, lemma_rat_eq_refl_symm, lemma_step_add, lemma_step_mul, rat_add,
    rat_eq, rat_le, rat_lt, rat_mul, reduce, Q,
};
use crate::error::TimeError;
use crate::text::{decimal, decimal_text};
use vstd::string::StringExecFns;
use crate::time::beat::{
    lemma_duration_view, lemma_span_view, BeatDuration, BeatSpan, BeatTime, Beats,
};
use crate::time::rhythm::{insert_sorted, strictly_increasing};
use vstd::prelude::*;
use vstd::std_specs::convert::FromSpec;

verus! {

broadcast use {lemma_q_view, lemma_span_view, lemma_duration_view};

/// The declared convention for numbering metrical levels.
#[derive(Debug, Clone, Copy, PartialEq, Eq, Hash, Structural)]
pub enum LevelNumbering {
    /// Level 0 is the finest pulse; higher indices are coarser.
    FinestIsZero,
    /// Level 0 is the coarsest level; higher indices are finer.
    CoarsestIsZero,
}

/// A power of two.
pub open spec fn is_power_of_two(d: u32) -> bool {
    d != 0 && d & ((d - 1) as u32) == 0
}

/// Every signature has a positive numerator over a power of two.
pub broadcast proof fn lemma_signature_view(s: TimeSignature)
    ensures
        #![trigger s@]
        s@.0 > 0,
        is_power_of_two(s@.1),
        s@.1 > 0,
{
    assert(is_power_of_two(1u32)) by (bit_vector);
}

/// A notated time signature: a positive numerator over a power-of-two
/// denominator.
#[derive(Debug, Clone, Copy, PartialEq, Eq, Hash, Structural)]
pub struct TimeSignature {
    numerator: u32,
    denominator: u32,
}

impl View for TimeSignature {
    type V = (u32, u32);

    closed spec fn view(&self) -> (u32, u32) {
        if self.numerator > 0 && is_power_of_two(self.denominator) {
            (self.numerator, self.denominator)
        } else {
            (1, 1)
        }
    }
}

impl TimeSignature {
    #[verifier::type_invariant]
    spec fn inv(self) -> bool {
        self.numerator > 0 && is_power_of_two(self.denominator)
    }

    /// Builds a time signature.
    pub fn new(numerator: u32, denominator: u32) -> (r: Result<TimeSignature, TimeError>)
        ensures
            numerator == 0 || !is_power_of_two(denominator) ==> r == Err::<
                TimeSignature,
                TimeError,
            >(TimeError::InvalidTimeSignature { numerator, denominator }),
            numerator > 0 && is_power_of_two(denominator) ==> (r matches Ok(s) && s@ == (
                numerator,
                denominator,
            )),
    {
        if numerator == 0 || denominator == 0 || denominator & (denominator - 1) != 0 {
            return Err(TimeError::InvalidTimeSignature { numerator, denominator });
        }
        Ok(TimeSignature { numerator, denominator })
    }

    /// The signature as text: numerator, a slash, denominator.
    pub fn to_string(self) -> (r: String)
        ensures
            r@ == decimal(self@.0 as nat) + seq!['/'] + decimal(self@.1 as nat),
    {
        proof {
            use_type_invariant(self);
            reveal_strlit("/");
        }
        let mut text = decimal_text(self.numerator);
        text.append("/");
        let below = decimal_text(self.denominator);
        text.append(below.as_str());
        text
    }

    /// The upper number.
    pub fn numerator(self) -> (r: u32)
        ensures
            r == self@.0,
            r > 0,
    {
        proof {
            use_type_invariant(self);
        }
        self.numerator
    }

    /// The lower number.
    pub fn denominator(self) -> (r: u32)
        ensures
            r == self@.1,
            r > 0,
    {
        proof {
            use_type_invariant(self);
        }
        self.denominator
    }

    /// The duration of one notated pulse: `4 / denominator` beats.
    pub fn pulse_duration(self) -> (r: BeatDuration)
        ensures
            rat_eq(r@, (4int, self@.1 as int)),
    {
        proof {
            use_type_invariant(self);
        }
        let q = Q::new(4, self.denominator as i64);
        proof {
            assert(q@.0 > 0) by (nonlinear_arith)
                requires
                    q@.0 * (self.denominator as int) == 4 * q@.1,
                    q@.1 > 0,
                    self.denominator > 0,
            ;
        }
        match BeatDuration::new(q) {
            Ok(d) => d,
            Err(_) => BeatDuration::one(),
        }
    }

    /// The duration of one bar: `4 * numerator / denominator` beats.
    pub fn bar_duration(self) -> (r: BeatDuration)
        ensures
            rat_eq(r@, (4 * self@.0, self@.1 as int)),
    {
        proof {
            use_type_invariant(self);
        }
        let q = Q::new(4 * (self.numerator as i64), self.denominator as i64);
        proof {
            assert(q@.0 > 0) by (nonlinear_arith)
                requires
                    q@.0 * (self.denominator as int) == 4 * self.numerator * q@.1,
                    q@.1 > 0,
                    self.denominator > 0,
                    self.numerator > 0,
            ;
        }
        match BeatDuration::new(q) {
            Ok(d) => d,
            Err(_) => BeatDuration::one(),
        }
    }
}

/// The full pulse lattice `0, 1, ..., pulses - 1`.
pub open spec fn lattice(pulses: u32) -> Seq<u32> {
    Seq::new(pulses as nat, |i: int| i as u32)
}

/// The coarser levels are in range and each is contained in the one below.
pub open spec fn levels_valid(pulses: u32, coarser: Seq<Vec<u32>>) -> bool {
    &&& pulses > 0
    &&& forall|k: int, i: int|
        0 <= k < coarser.len() && 0 <= i < coarser[k]@.len() ==> #[trigger] coarser[k]@[i] < pulses
    &&& forall|k: int, i: int|
        1 <= k < coarser.len() && 0 <= i < coarser[k]@.len() ==> coarser[k - 1]@.contains(
            #[trigger] coarser[k]@[i],
        )
}

/// `index` is the least entry of coarser level `k` outside a cycle of
/// `pulses` pulses, and the levels before it are valid.
pub open spec fn first_outside_level(pulses: u32, coarser: Seq<Vec<u32>>, k: int, index: u32) -> bool {
    &&& 0 <= k < coarser.len()
    &&& levels_valid(pulses, coarser.take(k))
    &&& coarser[k]@.contains(index)
    &&& index >= pulses
    &&& forall|x: u32| coarser[k]@.contains(x) && x >= pulses ==> index <= x
}

/// A metrical hierarchy: nested periodic point sets over one period, stored
/// finest first, with level 0 the full pulse lattice.
#[derive(Debug, Clone, PartialEq, Eq)]
pub struct Meter {
    signature: Option<TimeSignature>,
    pulse: BeatDuration,
    pulses: u32,
    levels: Vec<Vec<u32>>,
    numbering: LevelNumbering,
}

impl Meter {
    /// The notated signature, if any.
    pub closed spec fn signature_view(self) -> Option<TimeSignature> {
        self.signature
    }

    /// The pulse duration.
    pub closed spec fn pulse_view(self) -> BeatDuration {
        self.pulse
    }

    /// The number of pulses in one period.
    pub closed spec fn pulses_view(self) -> u32 {
        self.pulses
    }

    /// The stored levels, finest first.
    pub closed spec fn levels_view(self) -> Seq<Seq<u32>> {
        self.levels@.map_values(|l: Vec<u32>| l@)
    }

    /// The declared numbering.
    pub closed spec fn numbering_view(self) -> LevelNumbering {
        self.numbering
    }

    /// The hierarchy is well formed: level 0 is the lattice and every level is
    /// sorted, in range and contained in the one below.
    pub open spec fn well_formed(self) -> bool {
        &&& self.pulses_view() > 0
        &&& self.levels_view().len() >= 1
        &&& self.levels_view()[0] == lattice(self.pulses_view())
        &&& forall|k: int| 0 <= k < self.levels_view().len() ==> strictly_increasing(#[trigger] self.levels_view()[k])
        &&& forall|k: int, i: int|
            0 <= k < self.levels_view().len() && 0 <= i < self.levels_view()[k].len()
                ==> #[trigger] self.levels_view()[k][i] < self.pulses_view()
        &&& forall|k: int, i: int|
            1 <= k < self.levels_view().len() && 0 <= i < self.levels_view()[k].len()
                ==> self.levels_view()[k - 1].contains(#[trigger] self.levels_view()[k][i])
    }

    /// Builds a hierarchy from explicit coarser levels; level 0 is filled in
    /// as the full pulse lattice, and each supplied level is sorted and
    /// deduplicated.
    #[verifier::loop_isolation(false)]
    #[verifier::rlimit(60)]
    #[verifier::spinoff_prover]
    pub fn new(pulse: BeatDuration, pulses: u32, coarser_levels: &[Vec<u32>], numbering: LevelNumbering) -> (r:
        Result<Meter, TimeError>)
        ensures
            pulses == 0 ==> r == Err::<Meter, TimeError>(TimeError::EmptyCycle),
            r is Ok <==> levels_valid(pulses, coarser_levels@),
            r matches Ok(m) ==> m.well_formed() && m.signature_view() is None && m.pulse_view()
                == pulse && m.pulses_view() == pulses && m.numbering_view() == numbering
                && m.levels_view().len() == coarser_levels@.len() + 1 && forall|k: int, x: u32|
                0 <= k < coarser_levels@.len() ==> (m.levels_view()[k + 1].contains(x) <==> #[trigger] coarser_levels@[k]@.contains(x)),
            r matches Err(TimeError::OnsetOutsideCycle { index, pulses: p }) ==> p == pulses
                && exists|k: int| #[trigger] first_outside_level(pulses, coarser_levels@, k, index),
            r matches Err(TimeError::LevelNotNested { level }) ==> 1 <= level
                <= coarser_levels@.len() && levels_valid(pulses, coarser_levels@.take(level - 1))
                && (forall|x: u32| #[trigger] coarser_levels@[level - 1]@.contains(x) ==> x < pulses)
                && exists|i: int|
                0 <= i < coarser_levels@[level - 1]@.len() && !(if level == 1 {
                    lattice(pulses)
                } else {
                    coarser_levels@[level - 2]@
                }).contains(#[trigger] coarser_levels@[level - 1]@[i]),
            r matches Err(e) ==> e is EmptyCycle || e is OnsetOutsideCycle || e is LevelNotNested,
    {
        if pulses == 0 {
            return Err(TimeError::EmptyCycle);
        }
        let mut full: Vec<u32> = Vec::new();
        let mut p: u32 = 0;
        while p < pulses
            invariant
                p <= pulses,
                full@ == lattice(p),
            decreases pulses - p,
        {
            full.push(p);
            p += 1;
            proof {
                assert(full@ =~= lattice(p));
            }
        }
        let mut levels: Vec<Vec<u32>> = Vec::new();
        levels.push(full);
        let mut offset: usize = 0;
        while offset < coarser_levels.len()
            invariant
                pulses > 0,
                offset <= coarser_levels@.len(),
                levels@.len() == offset + 1,
                levels@[0]@ == lattice(pulses),
                forall|k: int| 0 <= k < levels@.len() ==> strictly_increasing(#[trigger] levels@[k]@),
                forall|k: int, i: int|
                    0 <= k < levels@.len() && 0 <= i < levels@[k]@.len() ==> #[trigger] levels@[k]@[i]
                        < pulses,
                forall|k: int, i: int|
                    1 <= k < levels@.len() && 0 <= i < levels@[k]@.len() ==> levels@[k - 1]@.contains(
                        #[trigger] levels@[k]@[i],
                    ),
                forall|k: int, x: u32|
                    0 <= k < offset ==> (levels@[k + 1]@.contains(x) <==> #[trigger] coarser_levels@[k]@.contains(x)),
                levels_valid(pulses, coarser_levels@.take(offset as int)),
            decreases coarser_levels@.len() - offset,
        {
            let level = &coarser_levels[offset];
            let mut points: Vec<u32> = Vec::new();
            let mut j: usize = 0;
            while j < level.len()
                invariant
                    j <= level@.len(),
                    strictly_increasing(points@),
                    forall|x: u32| points@.contains(x) <==> level@.take(j as int).contains(x),
                decreases level@.len() - j,
            {
                insert_sorted(&mut points, level[j]);
                proof {
                    assert forall|x: u32| points@.contains(x) <==> level@.take(j + 1).contains(x) by {
                        if level@.take(j + 1).contains(x) {
                            let t = choose|t: int| 0 <= t < j + 1 && #[trigger] level@.take(j + 1)[t] == x;
                            if t < j {
                                assert(level@.take(j as int)[t] == x);
                            }
                        }
                        if level@.take(j as int).contains(x) {
                            let t = choose|t: int| 0 <= t < j && #[trigger] level@.take(j as int)[t] == x;
                            assert(level@.take(j + 1)[t] == x);
                        }
                        if x == level@[j as int] {
                            assert(level@.take(j + 1)[j as int] == x);
                        }
                    }
                }
                j += 1;
            }
            proof {
                assert(level@.take(level@.len() as int) =~= level@);
            }
            let mut t: usize = 0;
            while t < points.len()
                invariant
                    t <= points@.len(),
                    forall|i: int| 0 <= i < t ==> points@[i] < pulses,
                decreases points@.len() - t,
            {
                if points[t] >= pulses {
                    proof {
                        assert(points@.contains(points@[t as int]));
                        let i = choose|i: int| 0 <= i < level@.len() && level@[i] == points@[t as int];
                        assert(coarser_levels@[offset as int]@[i] == points@[t as int]);
                        assert forall|x: u32| coarser_levels@[offset as int]@.contains(x) && x >= pulses
                            implies points@[t as int] <= x by {
                            assert(points@.contains(x));
                            let s2 = choose|s2: int| 0 <= s2 < points@.len() && points@[s2] == x;
                            if s2 < t {
                                assert(points@[s2] < pulses);
                            } else if s2 > t {
                                assert(points@[t as int] < points@[s2]);
                            }
                        }
                        assert(first_outside_level(pulses, coarser_levels@, offset as int, points@[t as int]));
                    }
                    let index = points[t];
                    let result = Err(TimeError::OnsetOutsideCycle { index, pulses });
                    proof {
                        assert(first_outside_level(pulses, coarser_levels@, offset as int, index));
                        assert(result matches Err(TimeError::OnsetOutsideCycle { index: i2, pulses: p })
                            && p == pulses && first_outside_level(pulses, coarser_levels@, offset as int, i2));
                    }
                    return result;
                }
                t += 1;
            }
            proof {
                assert forall|x: u32| #[trigger] coarser_levels@[offset as int]@.contains(x) implies x < pulses by {
                    assert(points@.contains(x));
                }
            }
            let finer = &levels[offset];
            let mut u: usize = 0;
            while u < points.len()
                invariant
                    u <= points@.len(),
                    forall|i: int| 0 <= i < u ==> finer@.contains(points@[i]),
                decreases points@.len() - u,
            {
                let mut found = false;
                let mut w: usize = 0;
                while w < finer.len()
                    invariant
                        w <= finer@.len(),
                        found == (exists|i: int| 0 <= i < w && finer@[i] == points@[u as int]),
                    decreases finer@.len() - w,
                {
                    if finer[w] == points[u] {
                        found = true;
                    }
                    w += 1;
                }
                if !found {
                    let lv: usize = offset + 1;
                    proof {
                        let y = points@[u as int];
                        assert(!finer@.contains(y));
                        assert(y < pulses);
                        if offset == 0 {
                            assert(finer@[y as int] == y);
                            assert(false);
                        }
                        assert(points@.contains(y));
                        assert(level@.contains(y));
                        let i = choose|i: int| 0 <= i < level@.len() && level@[i] == y;
                        assert(coarser_levels@[offset as int]@[i] == y);
                        assert(levels@[(offset - 1) + 1]@.contains(y) <==> coarser_levels@[offset - 1]@.contains(y));
                        assert(!coarser_levels@[offset - 1]@.contains(y));
                        assert(!levels_valid(pulses, coarser_levels@));
                        assert(coarser_levels@[lv - 1]@[i] == y);
                        assert(!(if lv == 1 { lattice(pulses) } else { coarser_levels@[lv - 2]@ }).contains(coarser_levels@[lv - 1]@[i]));
                        assert(exists|ii: int| 0 <= ii < coarser_levels@[lv - 1]@.len() && !(if lv == 1 { lattice(pulses) } else { coarser_levels@[lv - 2]@ }).contains(#[trigger] coarser_levels@[lv - 1]@[ii]));
                    }
                    let result = Err(TimeError::LevelNotNested { level: lv });
                    proof {
                        assert(result matches Err(TimeError::LevelNotNested { level }) && level == lv);
                    }
                    return result;
                }
                u += 1;
            }
            let ghost old_levels = levels@;
            levels.push(points);
            proof {
                assert forall|k: int, i: int|
                    1 <= k < levels@.len() && 0 <= i < levels@[k]@.len() implies levels@[k - 1]@.contains(
                        #[trigger] levels@[k]@[i],
                    ) by {
                    if k < levels@.len() - 1 {
                        assert(levels@[k] == old_levels[k] && levels@[k - 1] == old_levels[k - 1]);
                    }
                }
                let pre = coarser_levels@.take(offset as int);
                let post = coarser_levels@.take(offset + 1);
                assert forall|k: int, i: int|
                    0 <= k < post.len() && 0 <= i < post[k]@.len() implies #[trigger] post[k]@[i] < pulses by {
                    if k < offset {
                        assert(post[k] == pre[k]);
                    } else {
                        assert(levels@[k + 1]@.contains(post[k]@[i]));
                    }
                }
                assert forall|k: int, i: int|
                    1 <= k < post.len() && 0 <= i < post[k]@.len() implies post[k - 1]@.contains(
                        #[trigger] post[k]@[i],
                    ) by {
                    if k < offset {
                        assert(post[k] == pre[k] && post[k - 1] == pre[k - 1]);
                    } else {
                        assert(levels@[k + 1]@.contains(post[k]@[i]));
                        let y = post[k]@[i];
                        assert(levels@[k]@.contains(y));
                        assert(levels@[(k - 1) + 1]@.contains(y) <==> coarser_levels@[k - 1]@.contains(y));
                    }
                }
            }
            offset += 1;
        }
        proof {
            assert(coarser_levels@.take(coarser_levels@.len() as int) =~= coarser_levels@);
        }
        let m = Meter { signature: None, pulse, pulses, levels, numbering };
        proof {
            assert(m.levels_view().len() == levels@.len());
            assert forall|k: int| 0 <= k < m.levels_view().len() implies m.levels_view()[k] == levels@[k]@ by {}
        }
        Ok(m)
    }
}

impl Meter {
    /// A simple meter: every notated pulse is a primary beat, on a lattice
    /// one subdivision finer than the notated denominator. 3/4 becomes six
    /// eighth-note pulses with primary beats at 0, 2 and 4.
    pub fn simple(signature: TimeSignature) -> (r: Result<Meter, TimeError>)
        ensures
            signature@.0 > i32::MAX ==> r == Err::<Meter, TimeError>(TimeError::Overflow),
            signature@.0 <= i32::MAX ==> (r matches Ok(m) && m.well_formed()
                && m.signature_view() == Some(signature) && m.pulses_view() == 2 * signature@.0
                && m.levels_view().len() == 3 && m.levels_view()[1] == Seq::new(
                signature@.0 as nat,
                |k: int| (2 * k) as u32,
            ) && m.levels_view()[2] == seq![0u32] && rat_eq(
                m.pulse_view()@,
                (4int, 2 * signature@.1 as int),
            ) && m.numbering_view() == LevelNumbering::FinestIsZero),
    {
        let n = signature.numerator();
        if n > 0x7fff_ffff {
            return Err(TimeError::Overflow);
        }
        let pulses = n * 2;
        let mut primaries: Vec<u32> = Vec::new();
        let mut k: u32 = 0;
        while k < n
            invariant
                k <= n,
                n <= 0x7fff_ffff,
                primaries@ == Seq::new(k as nat, |j: int| (2 * j) as u32),
            decreases n - k,
        {
            primaries.push(2 * k);
            k += 1;
            proof {
                assert(primaries@ =~= Seq::new(k as nat, |j: int| (2 * j) as u32));
            }
        }
        let downbeat: Vec<u32> = vec![0u32];
        let coarser: Vec<Vec<u32>> = vec![primaries, downbeat];
        let d = signature.denominator();
        let half_pulse = Q::new(4, 2 * (d as i64));
        proof {
            assert(half_pulse@.0 > 0) by (nonlinear_arith)
                requires
                    half_pulse@.0 * (2 * d as int) == 4 * half_pulse@.1,
                    half_pulse@.1 > 0,
                    d > 0,
            ;
        }
        let pulse = match BeatDuration::new(half_pulse) {
            Ok(p) => p,
            Err(e) => {
                return Err(e);
            },
        };
        proof {
            assert(coarser@[0]@[0] == 0u32);
            assert(levels_valid(pulses, coarser@)) by {
                assert forall|kk: int, i: int|
                    1 <= kk < coarser@.len() && 0 <= i < coarser@[kk]@.len() implies coarser@[kk - 1]@.contains(
                        #[trigger] coarser@[kk]@[i],
                    ) by {
                    assert(coarser@[0]@[0] == 0);
                }
            }
        }
        let mut meter = match Self::new(pulse, pulses, coarser.as_slice(), LevelNumbering::FinestIsZero) {
            Ok(m) => m,
            Err(e) => {
                return Err(e);
            },
        };
        meter.signature = Some(signature);
        proof {
            assert forall|x: u32| meter.levels_view()[1].contains(x) <==> Seq::new(n as nat, |j: int| (2 * j) as u32).contains(x) by {
                assert(coarser@[0]@ == Seq::new(n as nat, |j: int| (2 * j) as u32));
            }
            assert forall|x: u32| meter.levels_view()[2].contains(x) <==> seq![0u32].contains(x) by {
                assert(coarser@[1]@ == seq![0u32]);
            }
            lemma_sorted_set_eq(meter.levels_view()[1], Seq::new(n as nat, |j: int| (2 * j) as u32));
            lemma_sorted_set_eq(meter.levels_view()[2], seq![0u32]);
        }
        Ok(meter)
    }

    /// A compound meter: notated pulses grouped in threes. 6/8 becomes six
    /// eighth-note pulses with primary beats at 0 and 3.
    pub fn compound(signature: TimeSignature) -> (r: Result<Meter, TimeError>)
        ensures
            signature@.0 % 3 != 0 ==> r == Err::<Meter, TimeError>(
                TimeError::InvalidTimeSignature { numerator: signature@.0, denominator: signature@.1 },
            ),
            signature@.0 % 3 == 0 ==> (r matches Ok(m) && m.well_formed()
                && m.signature_view() == Some(signature) && m.pulses_view() == signature@.0
                && m.levels_view().len() == 3 && m.levels_view()[1] == Seq::new(
                (signature@.0 / 3) as nat,
                |k: int| (3 * k) as u32,
            ) && m.levels_view()[2] == seq![0u32] && rat_eq(
                m.pulse_view()@,
                (4int, signature@.1 as int),
            ) && m.numbering_view() == LevelNumbering::FinestIsZero),
    {
        let n = signature.numerator();
        if n % 3 != 0 {
            return Err(
                TimeError::InvalidTimeSignature {
                    numerator: signature.numerator(),
                    denominator: signature.denominator(),
                },
            );
        }
        let groups = n / 3;
        let mut primaries: Vec<u32> = Vec::new();
        let mut k: u32 = 0;
        while k < groups
            invariant
                k <= groups,
                groups == n / 3,
                primaries@ == Seq::new(k as nat, |j: int| (3 * j) as u32),
            decreases groups - k,
        {
            primaries.push(3 * k);
            k += 1;
            proof {
                assert(primaries@ =~= Seq::new(k as nat, |j: int| (3 * j) as u32));
            }
        }
        let downbeat: Vec<u32> = vec![0u32];
        let coarser: Vec<Vec<u32>> = vec![primaries, downbeat];
        let pulse = signature.pulse_duration();
        proof {
            assert(levels_valid(n, coarser@)) by {
                assert forall|kk: int, i: int|
                    1 <= kk < coarser@.len() && 0 <= i < coarser@[kk]@.len() implies coarser@[kk - 1]@.contains(
                        #[trigger] coarser@[kk]@[i],
                    ) by {
                    assert(coarser@[0]@[0] == 0);
                }
            }
        }
        let mut meter = match Self::new(pulse, n, coarser.as_slice(), LevelNumbering::FinestIsZero) {
            Ok(m) => m,
            Err(e) => {
                return Err(e);
            },
        };
        meter.signature = Some(signature);
        proof {
            assert forall|x: u32| meter.levels_view()[1].contains(x) <==> Seq::new(groups as nat, |j: int| (3 * j) as u32).contains(x) by {
                assert(coarser@[0]@ == Seq::new(groups as nat, |j: int| (3 * j) as u32));
            }
            assert forall|x: u32| meter.levels_view()[2].contains(x) <==> seq![0u32].contains(x) by {
                assert(coarser@[1]@ == seq![0u32]);
            }
            lemma_sorted_set_eq(meter.levels_view()[1], Seq::new(groups as nat, |j: int| (3 * j) as u32));
            lemma_sorted_set_eq(meter.levels_view()[2], seq![0u32]);
        }
        Ok(meter)
    }

    /// An additive meter such as 2+2+3: the primary beats sit at the
    /// cumulative group boundaries.
    pub fn additive(pulse: BeatDuration, groups: &[u32]) -> (r: Result<Meter, TimeError>)
        ensures
            groups@.len() == 0 ==> r == Err::<Meter, TimeError>(TimeError::EmptyDivision),
            groups@.len() > 0 && groups@.contains(0) ==> r == Err::<Meter, TimeError>(
                TimeError::NonPositiveWeight,
            ),
            groups@.len() > 0 && !groups@.contains(0) && group_total(groups@, groups@.len() as int)
                > u32::MAX ==> r == Err::<Meter, TimeError>(TimeError::Overflow),
            groups@.len() > 0 && !groups@.contains(0) && group_total(groups@, groups@.len() as int)
                <= u32::MAX ==> (r matches Ok(m) && m.well_formed() && m.signature_view() is None
                && m.pulse_view() == pulse && m.pulses_view() == group_total(
                groups@,
                groups@.len() as int,
            ) && m.levels_view().len() == 3 && m.levels_view()[1] == Seq::new(
                groups@.len(),
                |k: int| group_total(groups@, k) as u32,
            ) && m.levels_view()[2] == seq![0u32]),
    {
        if groups.len() == 0 {
            return Err(TimeError::EmptyDivision);
        }
        let mut z: usize = 0;
        while z < groups.len()
            invariant
                z <= groups@.len(),
                forall|i: int| 0 <= i < z ==> groups@[i] != 0,
            decreases groups@.len() - z,
        {
            if groups[z] == 0 {
                proof {
                    assert(groups@[z as int] == 0);
                }
                return Err(TimeError::NonPositiveWeight);
            }
            z += 1;
        }
        proof {
            assert(!groups@.contains(0));
        }
        let mut primaries: Vec<u32> = Vec::new();
        let mut cumulative: u64 = 0;
        let mut k: usize = 0;
        while k < groups.len()
            invariant
                k <= groups@.len(),
                forall|i: int| 0 <= i < groups@.len() ==> groups@[i] != 0,
                cumulative == group_total(groups@, k as int),
                cumulative <= u32::MAX,
                primaries@ == Seq::new(k as nat, |j: int| group_total(groups@, j) as u32),
                forall|j: int| 0 <= j <= k ==> group_total(groups@, j) <= cumulative,
                forall|j: int, l: int| 0 <= j < l <= k ==> group_total(groups@, j) < group_total(groups@, l),
            decreases groups@.len() - k,
        {
            primaries.push(cumulative as u32);
            cumulative = cumulative + groups[k] as u64;
            k += 1;
            proof {
                assert(primaries@ =~= Seq::new(k as nat, |j: int| group_total(groups@, j) as u32));
                lemma_group_total_monotone(groups@, k as int);
            }
            if cumulative > 0xffff_ffff {
                proof {
                    lemma_group_total_monotone(groups@, groups@.len() as int);
                    assert(cumulative == group_total(groups@, k as int));
                    if k < groups@.len() {
                        assert(group_total(groups@, k as int) < group_total(groups@, groups@.len() as int));
                    }
                }
                return Err(TimeError::Overflow);
            }
        }
        let pulses = cumulative as u32;
        let downbeat: Vec<u32> = vec![0u32];
        let coarser: Vec<Vec<u32>> = vec![primaries, downbeat];
        proof {
            assert(group_total(groups@, 0) == 0);
            assert(coarser@[0]@[0] == 0);
            assert(levels_valid(pulses, coarser@)) by {
                assert forall|kk: int, i: int|
                    0 <= kk < coarser@.len() && 0 <= i < coarser@[kk]@.len() implies #[trigger] coarser@[kk]@[i] < pulses by {
                    if kk == 0 {
                        assert(group_total(groups@, i) < group_total(groups@, groups@.len() as int));
                    }
                }
                assert forall|kk: int, i: int|
                    1 <= kk < coarser@.len() && 0 <= i < coarser@[kk]@.len() implies coarser@[kk - 1]@.contains(
                        #[trigger] coarser@[kk]@[i],
                    ) by {
                    assert(coarser@[0]@[0] == 0);
                }
            }
            assert(strictly_increasing(coarser@[0]@));
        }
        let meter = match Self::new(pulse, pulses, coarser.as_slice(), LevelNumbering::FinestIsZero) {
            Ok(m) => m,
            Err(e) => {
                return Err(e);
            },
        };
        proof {
            let target = Seq::new(groups@.len(), |j: int| group_total(groups@, j) as u32);
            assert forall|x: u32| meter.levels_view()[1].contains(x) <==> target.contains(x) by {
                assert(coarser@[0]@ == target);
            }
            assert forall|x: u32| meter.levels_view()[2].contains(x) <==> seq![0u32].contains(x) by {
                assert(coarser@[1]@ == seq![0u32]);
            }
            lemma_sorted_set_eq(meter.levels_view()[1], target);
            lemma_sorted_set_eq(meter.levels_view()[2], seq![0u32]);
        }
        Ok(meter)
    }

    /// The notated signature, where the meter came from one.
    pub fn signature(&self) -> (r: Option<TimeSignature>)
        ensures
            r == self.signature_view(),
    {
        self.signature
    }

    /// The declared level-numbering convention.
    pub fn numbering(&self) -> (r: LevelNumbering)
        ensures
            r == self.numbering_view(),
    {
        self.numbering
    }

    /// The duration of one pulse.
    pub fn pulse(&self) -> (r: &BeatDuration)
        ensures
            *r == self.pulse_view(),
    {
        &self.pulse
    }

    /// Pulses in one period.
    pub fn pulse_count(&self) -> (r: u32)
        ensures
            r == self.pulses_view(),
    {
        self.pulses
    }

    /// The total duration of one period: the pulse times the pulse count.
    pub fn period(&self) -> (r: Option<Beats>)
        ensures
            r is Some <==> crate::algebra::fits(
                reduce(rat_mul(self.pulse_view()@, (self.pulses_view() as int, 1int))),
            ),
            r matches Some(b) ==> b@ == reduce(
                rat_mul(self.pulse_view()@, (self.pulses_view() as int, 1int)),
            ),
    {
        self.pulse.to_beats().scale(&Q::integer(self.pulses as i64))
    }

    /// How many levels the hierarchy has, including the full pulse lattice.
    pub fn level_count(&self) -> (r: usize)
        ensures
            r == self.levels_view().len(),
    {
        self.levels.len()
    }

    /// The pulse indices at a level, finest first; level 0 is the lattice.
    pub fn level(&self, index: usize) -> (r: Option<&[u32]>)
        ensures
            index < self.levels_view().len() ==> (r matches Some(l) && l@ == self.levels_view()[index as int]),
            index >= self.levels_view().len() ==> r is None,
    {
        if index < self.levels.len() {
            Some(self.levels[index].as_slice())
        } else {
            None
        }
    }

    /// The primary beats: the level immediately above the pulse lattice.
    pub fn primary_beat_pulses(&self) -> (r: &[u32])
        ensures
            self.levels_view().len() > 1 ==> r@ == self.levels_view()[1],
            self.levels_view().len() <= 1 ==> r@.len() == 0,
    {
        if self.levels.len() > 1 {
            self.levels[1].as_slice()
        } else {
            &[]
        }
    }

    /// The metrical weight of a pulse: how many levels contain it.
    pub fn weight(&self, pulse: u32) -> (r: usize)
        ensures
            r == levels_containing(self.levels_view(), pulse, self.levels_view().len() as int),
    {
        let mut count: usize = 0;
        let mut k: usize = 0;
        while k < self.levels.len()
            invariant
                k <= self.levels@.len(),
                count <= k,
                count == levels_containing(self.levels_view(), pulse, k as int),
            decreases self.levels@.len() - k,
        {
            let level = &self.levels[k];
            let mut found = false;
            let mut i: usize = 0;
            while i < level.len()
                invariant
                    i <= level@.len(),
                    found == (exists|j: int| 0 <= j < i && level@[j] == pulse),
                decreases level@.len() - i,
            {
                if level[i] == pulse {
                    found = true;
                }
                i += 1;
            }
            proof {
                assert(self.levels_view()[k as int] == level@);
                assert(found == level@.contains(pulse));
            }
            if found {
                count += 1;
            }
            k += 1;
        }
        count
    }

    /// The exact time of a pulse within a bar starting at `origin`.
    pub fn pulse_time(&self, origin: &BeatTime, pulse: u32) -> (r: Option<BeatTime>)
        ensures
            r is Some <==> crate::algebra::fits(reduce(rat_mul(self.pulse_view()@, (pulse as int, 1int))))
                && crate::algebra::fits(
                reduce(rat_add(origin@, rat_mul(self.pulse_view()@, (pulse as int, 1int)))),
            ),
            r matches Some(t) ==> t@ == reduce(
                rat_add(origin@, rat_mul(self.pulse_view()@, (pulse as int, 1int))),
            ),
            r matches Some(t) ==> rat_eq(
                t@,
                rat_add(origin@, rat_mul(self.pulse_view()@, (pulse as int, 1int))),
            ),
    {
        let ghost m = rat_mul(self.pulse_view()@, (pulse as int, 1int));
        proof {
            crate::algebra::lemma_den_product(self.pulse_view()@.1, 1);
            crate::algebra::lemma_reduce_eq(m);
            lemma_rat_eq_refl_symm(origin@, origin@);
            crate::algebra::lemma_rat_add_congruent(origin@, reduce(m), origin@, m);
            crate::algebra::lemma_den_product(origin@.1, reduce(m).1);
            crate::algebra::lemma_den_product(origin@.1, m.1);
            crate::algebra::lemma_reduce_unique(rat_add(origin@, reduce(m)), rat_add(origin@, m));
        }
        let offset = self.pulse.to_beats().scale(&Q::integer(pulse as i64))?;
        let t = origin.translate(&offset)?;
        proof {
            let m = rat_mul(self.pulse_view()@, (pulse as int, 1int));
            lemma_rat_eq_refl_symm(self.pulse_view()@, self.pulse_view()@);
            lemma_rat_eq_refl_symm((pulse as int, 1int), (pulse as int, 1int));
            lemma_step_mul(offset@, self.pulse_view()@, (pulse as int, 1int), self.pulse_view()@, (pulse as int, 1int));
            lemma_rat_eq_refl_symm(origin@, origin@);
            crate::algebra::lemma_den_product(self.pulse_view()@.1, 1);
            lemma_step_add(t@, origin@, offset@, origin@, m);
        }
        Some(t)
    }

    /// The span of one bar starting at `origin`.
    pub fn bar_span(&self, origin: &BeatTime) -> (r: Option<BeatSpan>)
        ensures
            r is Some <==> crate::algebra::fits(
                reduce(rat_mul(self.pulse_view()@, (self.pulses_view() as int, 1int))),
            ) && crate::algebra::fits(
                reduce(rat_add(origin@, rat_mul(self.pulse_view()@, (self.pulses_view() as int, 1int)))),
            ),
            r matches Some(s) ==> s@.1 == reduce(
                rat_add(origin@, rat_mul(self.pulse_view()@, (self.pulses_view() as int, 1int))),
            ),
            r matches Some(s) ==> s@.0 == origin@ && rat_eq(
                s@.1,
                rat_add(origin@, rat_mul(self.pulse_view()@, (self.pulses_view() as int, 1int))),
            ),
    {
        let end = self.pulse_time(origin, self.pulses)?;
        proof {
            let m = rat_mul(self.pulse_view()@, (self.pulses_view() as int, 1int));
            crate::algebra::lemma_den_product(self.pulse_view()@.1, 1);
            assert(m.0 >= 0) by (nonlinear_arith)
                requires
                    self.pulse_view()@.0 > 0,
                    m == rat_mul(self.pulse_view()@, (self.pulses_view() as int, 1int)),
            ;
            let a = rat_add(origin@, m);
            crate::algebra::lemma_den_product(origin@.1, m.1);
            assert(rat_le(origin@, end@)) by (nonlinear_arith)
                requires
                    end@.0 * a.1 == a.0 * end@.1,
                    a == rat_add(origin@, m),
                    m.0 >= 0,
                    m.1 > 0,
                    origin@.1 > 0,
                    end@.1 > 0,
            ;
        }
        match BeatSpan::new(*origin, end) {
            Ok(s) => Some(s),
            Err(_) => None,
        }
    }
}

/// The number of the first `k` levels that contain `pulse`.
pub open spec fn levels_containing(levels: Seq<Seq<u32>>, pulse: u32, k: int) -> nat
    decreases k,
{
    if k <= 0 {
        0
    } else {
        levels_containing(levels, pulse, k - 1) + if levels[k - 1].contains(pulse) {
            1nat
        } else {
            0nat
        }
    }
}

/// The sum of the first `k` groups.
pub open spec fn group_total(groups: Seq<u32>, k: int) -> nat
    decreases k,
{
    if k <= 0 {
        0
    } else {
        group_total(groups, k - 1) + groups[k - 1] as nat
    }
}

/// Group totals of non-zero groups strictly increase.
pub proof fn lemma_group_total_monotone(groups: Seq<u32>, k: int)
    requires
        0 <= k <= groups.len(),
        forall|i: int| 0 <= i < groups.len() ==> groups[i] != 0,
    ensures
        forall|j: int, l: int| 0 <= j < l <= k ==> group_total(groups, j) < group_total(groups, l),
    decreases k,
{
    if k > 0 {
        lemma_group_total_monotone(groups, k - 1);
        assert forall|j: int, l: int| 0 <= j < l <= k implies group_total(groups, j) < group_total(groups, l) by {
            if l == k && j < k - 1 {
                assert(group_total(groups, j) < group_total(groups, k - 1));
            }
        }
    }
}

/// Two strictly increasing sequences with the same elements are equal.
pub proof fn lemma_sorted_set_eq(a: Seq<u32>, b: Seq<u32>)
    requires
        strictly_increasing(a),
        strictly_increasing(b),
        forall|x: u32| a.contains(x) <==> b.contains(x),
    ensures
        a == b,
    decreases a.len() + b.len(),
{
    if a.len() == 0 {
        if b.len() > 0 {
            assert(b.contains(b[0]));
        }
        assert(a =~= b);
    } else if b.len() == 0 {
        assert(a.contains(a[0]));
    } else {
        let x = a.last();
        let y = b.last();
        assert(a.contains(x));
        assert(b.contains(y));
        let ix = choose|i: int| 0 <= i < b.len() && b[i] == x;
        let iy = choose|i: int| 0 <= i < a.len() && a[i] == y;
        assert(x == y) by {
            if x < y {
                assert(a[iy] == y && a[iy] <= a.last());
            } else if y < x {
                assert(b[ix] == x && b[ix] <= b.last());
            }
        }
        let a2 = a.drop_last();
        let b2 = b.drop_last();
        assert forall|z: u32| a2.contains(z) <==> b2.contains(z) by {
            if a2.contains(z) {
                let i = choose|i: int| 0 <= i < a2.len() && a2[i] == z;
                assert(a.contains(z));
                assert(z < x);
                let j = choose|j: int| 0 <= j < b.len() && b[j] == z;
                assert(j != b.len() - 1);
                assert(b2[j] == z);
            }
            if b2.contains(z) {
                let i = choose|i: int| 0 <= i < b2.len() && b2[i] == z;
                assert(b.contains(z));
                assert(z < y);
                let j = choose|j: int| 0 <= j < a.len() && a[j] == z;
                assert(j != a.len() - 1);
                assert(a2[j] == z);
            }
        }
        lemma_sorted_set_eq(a2, b2);
        assert(a =~= a2.push(x));
        assert(b =~= b2.push(y));
    }
}

/// A grouping structure: a span, an optional label and ordered subgroups
/// that lie inside it and do not overlap.
#[derive(Debug, PartialEq, Eq)]
pub struct Grouping {
    span: BeatSpan,
    label: Option<String>,
    children: Vec<Grouping>,
}

impl Grouping {
    /// The span this group covers.
    pub closed spec fn span_view(self) -> BeatSpan {
        self.span
    }

    /// The group's label.
    pub closed spec fn label_view(self) -> Option<Seq<char>> {
        match self.label {
            Some(l) => Some(l@),
            None => None,
        }
    }

    /// The ordered subgroups.
    pub closed spec fn children_view(self) -> Seq<Grouping> {
        self.children@
    }

    /// A group covering a span, with no subdivision.
    pub fn leaf(span: BeatSpan) -> (r: Grouping)
        ensures
            r.span_view() == span,
            r.label_view() is None,
            r.children_view().len() == 0,
    {
        Grouping { span, label: None, children: Vec::new() }
    }

    /// Names this group.
    pub fn labelled(self, label: &str) -> (r: Grouping)
        ensures
            r.span_view() == self.span_view(),
            r.label_view() == Some(label@),
            r.children_view() == self.children_view(),
    {
        let name = label.to_owned();
        Grouping { span: self.span, label: Some(name), children: self.children }
    }

    /// A group with ordered subgroups, which must lie inside the parent span
    /// and must not overlap; they need not tile it.
    #[verifier::rlimit(40)]
    pub fn with_children(span: BeatSpan, children: Vec<Grouping>) -> (r: Result<Grouping, TimeError>)
        ensures
            r is Ok <==> children_inside(span, children@) && children_disjoint(children@),
            !children_inside(span, children@) ==> r == Err::<Grouping, TimeError>(
                TimeError::GroupOutsideParent,
            ),
            children_inside(span, children@) && !children_disjoint(children@) ==> r == Err::<
                Grouping,
                TimeError,
            >(TimeError::OverlappingGroups),
            r matches Ok(g) ==> g.span_view() == span && g.label_view() is None
                && g.children_view() == children@,
    {
        let mut i: usize = 0;
        while i < children.len()
            invariant
                i <= children@.len(),
                forall|j: int| 0 <= j < i ==> child_inside(span, #[trigger] children@[j]),
            decreases children@.len() - i,
        {
            let s = children[i].span;
            if !span.contains(&s.start()) || !span.contains(&s.end()) {
                return Err(TimeError::GroupOutsideParent);
            }
            i += 1;
        }
        let mut k: usize = 0;
        while k < children.len() && children.len() - k > 1
            invariant
                k <= children@.len(),
                children_inside(span, children@),
                forall|j: int| 0 <= j < k && j + 1 < children@.len() ==> rat_le(
                    (#[trigger] children@[j]).span@.1,
                    children@[j + 1].span@.0,
                ),
            decreases children@.len() - k,
        {
            let a = children[k].span;
            let b = children[k + 1].span;
            if b.start().precedes(&a.end()) {
                return Err(TimeError::OverlappingGroups);
            }
            k += 1;
        }
        Ok(Grouping { span, label: None, children })
    }

    /// The span this group covers.
    pub fn span(&self) -> (r: &BeatSpan)
        ensures
            *r == self.span_view(),
    {
        &self.span
    }

    /// The group's label, if it has one.
    pub fn label(&self) -> (r: Option<&str>)
        ensures
            match r {
                Some(l) => self.label_view() == Some(l@),
                None => self.label_view() is None,
            },
    {
        match &self.label {
            Some(l) => Some(l.as_str()),
            None => None,
        }
    }

    /// The ordered subgroups.
    pub fn children(&self) -> (r: &[Grouping])
        ensures
            r@ == self.children_view(),
    {
        self.children.as_slice()
    }

    /// Whether this group starts strictly before a metrical reference and
    /// ends strictly after it: an anacrusis to it.
    pub fn is_anacrusis_to(&self, reference: &BeatTime) -> (r: bool)
        ensures
            r == (rat_lt(self.span_view()@.0, reference@) && rat_lt(reference@, self.span_view()@.1)),
    {
        self.span.start().precedes(reference) && reference.precedes(&self.span.end())
    }
}

/// A child group lies inside a parent span.
pub open spec fn child_inside(span: BeatSpan, child: Grouping) -> bool {
    &&& rat_le(span@.0, child.span_view()@.0)
    &&& rat_le(child.span_view()@.0, span@.1)
    &&& rat_le(span@.0, child.span_view()@.1)
    &&& rat_le(child.span_view()@.1, span@.1)
}

/// Every child lies inside the parent span.
pub open spec fn children_inside(span: BeatSpan, children: Seq<Grouping>) -> bool {
    forall|j: int| 0 <= j < children.len() ==> child_inside(span, #[trigger] children[j])
}

/// Consecutive children do not overlap.
pub open spec fn children_disjoint(children: Seq<Grouping>) -> bool {
    forall|j: int|
        0 <= j < children.len() - 1 ==> rat_le(
            (#[trigger] children[j]).span_view()@.1,
            children[j + 1].span_view()@.0,
        )
}

/// Whether two layers differ in period or only in internal organization.
#[derive(Debug, Clone, Copy, PartialEq, Eq, Hash, Structural)]
pub enum LayerRelation {
    /// Equal periods, different internal pulse organization.
    Polyrhythm,
    /// Different periods.
    Polymeter,
}

/// Two simultaneous metric layers on one timeline.
#[derive(Debug, Clone, PartialEq, Eq)]
pub struct MetricLayering {
    lower: Meter,
    upper: Meter,
}

/// The exact period of a meter: pulse times pulse count.
pub open spec fn period_of(m: Meter) -> (int, int) {
    rat_mul(m.pulse_view()@, (m.pulses_view() as int, 1int))
}

/// Least common multiple of naturals.
pub open spec fn lcm(a: nat, b: nat) -> nat {
    if a == 0 || b == 0 {
        0
    } else {
        (a / gcd(a, b)) * b
    }
}

impl MetricLayering {
    /// Pairs two metric layers.
    pub fn new(lower: Meter, upper: Meter) -> (r: MetricLayering)
        ensures
            r.lower_view() == lower,
            r.upper_view() == upper,
    {
        MetricLayering { lower, upper }
    }

    /// The lower layer.
    pub closed spec fn lower_view(self) -> Meter {
        self.lower
    }

    /// The upper layer.
    pub closed spec fn upper_view(self) -> Meter {
        self.upper
    }

    /// The lower layer.
    pub fn lower(&self) -> (r: &Meter)
        ensures
            *r == self.lower_view(),
    {
        &self.lower
    }

    /// The upper layer.
    pub fn upper(&self) -> (r: &Meter)
        ensures
            *r == self.upper_view(),
    {
        &self.upper
    }

    /// Polyrhythm when the periods are equal, polymeter otherwise.
    pub fn relation(&self) -> (r: Option<LayerRelation>)
        ensures
            r is Some <==> crate::algebra::fits(reduce(period_of(self.lower_view())))
                && crate::algebra::fits(reduce(period_of(self.upper_view()))),
            r matches Some(rel) ==> (rel == LayerRelation::Polyrhythm <==> rat_eq(
                period_of(self.lower_view()),
                period_of(self.upper_view()),
            )),
    {
        let a = self.lower.period()?;
        let b = self.upper.period()?;
        proof {
            crate::algebra::lemma_reduce_eq(period_of(self.lower_view()));
            crate::algebra::lemma_reduce_eq(period_of(self.upper_view()));
            crate::algebra::lemma_den_product(self.lower.pulse@.1, 1);
            crate::algebra::lemma_den_product(self.upper.pulse@.1, 1);
            if rat_eq(a@, b@) {
                crate::algebra::lemma_rat_eq_trans(period_of(self.lower_view()), a@, b@);
                crate::algebra::lemma_rat_eq_trans(period_of(self.lower_view()), b@, period_of(self.upper_view()));
            }
            if rat_eq(period_of(self.lower_view()), period_of(self.upper_view())) {
                crate::algebra::lemma_rat_eq_trans(a@, period_of(self.lower_view()), period_of(self.upper_view()));
                crate::algebra::lemma_rat_eq_trans(a@, period_of(self.upper_view()), b@);
            }
        }
        if a.same_value(&b) {
            Some(LayerRelation::Polyrhythm)
        } else {
            Some(LayerRelation::Polymeter)
        }
    }

    /// The least common period, `lcm(p, r) / gcd(q, s)` for reduced periods
    /// `p/q` and `r/s`: the duration after which both layers begin a period
    /// together.
    pub fn realignment_period(&self) -> (r: Option<Beats>)
        ensures
            r is Some <==> ({
                let a = reduce(period_of(self.lower_view()));
                let b = reduce(period_of(self.upper_view()));
                &&& crate::algebra::fits(a)
                &&& crate::algebra::fits(b)
                &&& (a.0 == 0 || b.0 == 0 || lcm(
                    crate::algebra::abs_int(a.0) as nat,
                    crate::algebra::abs_int(b.0) as nat,
                ) <= i64::MAX)
            }),
            r matches Some(t) ==> ({
                let a = reduce(period_of(self.lower_view()));
                let b = reduce(period_of(self.upper_view()));
                if a.0 == 0 || b.0 == 0 {
                    t@ == (0int, 1int)
                } else {
                    t@ == reduce(
                        (
                            lcm(crate::algebra::abs_int(a.0) as nat, crate::algebra::abs_int(b.0) as nat) as int,
                            gcd(a.1 as nat, b.1 as nat) as int,
                        ),
                    )
                }
            }),
    {
        let a = self.lower.period()?;
        let b = self.upper.period()?;
        if a.is_zero() || b.is_zero() {
            return Some(Beats::zero());
        }
        let an = a.0.numer();
        let bn = b.0.numer();
        let ad = a.0.denom();
        let bd = b.0.denom();
        let am: u128 = if an < 0 {
            (-(an as i128)) as u128
        } else {
            an as u128
        };
        let bm: u128 = if bn < 0 {
            (-(bn as i128)) as u128
        } else {
            bn as u128
        };
        let g = gcd_u128(am, bm);
        proof {
            crate::algebra::lemma_gcd_positive(am as nat, bm as nat);
        }
        proof {
            vstd::arithmetic::div_mod::lemma_div_is_ordered_by_denominator(am as int, 1, g as int);
            let qa = am as int / g as int;
            assert(qa * (bm as int) <= 0x4000_0000_0000_0000_0000_0000_0000_0000) by (nonlinear_arith)
                requires
                    0 <= qa <= 0x8000_0000_0000_0000,
                    0 <= bm <= 0x8000_0000_0000_0000,
            ;
        }
        let l = (am / g) * bm;
        let dg = gcd_u128(ad as u128, bd as u128);
        proof {
            crate::algebra::lemma_gcd_positive(ad as nat, bd as nat);
            crate::algebra::lemma_gcd_divides(ad as nat, bd as nat);
            let k = choose|k: int| #[trigger] (dg as int * k) == ad as int;
            assert(dg <= ad) by (nonlinear_arith)
                requires
                    dg as int * k == ad as int,
                    dg > 0,
                    ad > 0,
            ;
        }
        if l > 0x7fff_ffff_ffff_ffff {
            return None;
        }
        let q = Q::new(l as i64, dg as i64);
        proof {
            assert(q@ == reduce((l as int, dg as int)));
        }
        Some(Beats(q))
    }
}


impl Meter {
    /// The stored levels, as the vector that holds them.
    pub closed spec fn levels_vec(self) -> Vec<Vec<u32>> {
        self.levels
    }
}

/// A meter in wire form, revalidated on the way in.
#[derive(Debug, Clone)]
pub struct RawMeter {
    /// The notated signature, where there is one.
    pub signature: Option<TimeSignature>,
    /// The duration of one pulse.
    pub pulse: BeatDuration,
    /// Pulses in one period.
    pub pulses: u32,
    /// Pulse indices at each level, finest first.
    pub levels: Vec<Vec<u32>>,
    /// The declared level-numbering convention.
    pub numbering: LevelNumbering,
}

/// The levels above the finest one: the finest level of a wire form is
/// always rebuilt as the full pulse lattice, so it is not read.
pub open spec fn coarser_of(levels: Seq<Vec<u32>>) -> Seq<Vec<u32>> {
    if levels.len() == 0 {
        Seq::empty()
    } else {
        levels.subrange(1, levels.len() as int)
    }
}

/// `m` is what revalidating `v` gives: a well-formed hierarchy with the
/// signature, pulse, pulse count and numbering of `v`, the full lattice as
/// its finest level, and above it the coarser levels of `v` sorted with
/// repeats removed.
pub open spec fn revalidated_meter(v: RawMeter, m: Meter) -> bool {
    &&& m.well_formed()
    &&& m.signature_view() == v.signature
    &&& m.pulse_view() == v.pulse
    &&& m.pulses_view() == v.pulses
    &&& m.numbering_view() == v.numbering
    &&& m.levels_view().len() == coarser_of(v.levels@).len() + 1
    &&& forall|k: int, x: u32|
        0 <= k < coarser_of(v.levels@).len() ==> (m.levels_view()[k + 1].contains(x)
            <==> #[trigger] coarser_of(v.levels@)[k]@.contains(x))
}

impl TryFrom<RawMeter> for Meter {
    type Error = TimeError;

    fn try_from(value: RawMeter) -> (r: Result<Meter, TimeError>)
        ensures
            r is Ok <==> levels_valid(value.pulses, coarser_of(value.levels@)),
            r matches Ok(m) ==> revalidated_meter(value, m),
            value.pulses == 0 ==> r == Err::<Meter, TimeError>(TimeError::EmptyCycle),
            r matches Err(TimeError::OnsetOutsideCycle { index, pulses: p }) ==> p == value.pulses
                && index >= value.pulses && exists|k: int, i: int|
                0 <= k < coarser_of(value.levels@).len() && 0 <= i < coarser_of(value.levels@)[k]@.len()
                    && #[trigger] coarser_of(value.levels@)[k]@[i] == index,
            r matches Err(TimeError::LevelNotNested { level }) ==> 1 <= level
                <= coarser_of(value.levels@).len() && exists|i: int|
                0 <= i < coarser_of(value.levels@)[level - 1]@.len() && !(if level == 1 {
                    lattice(value.pulses)
                } else {
                    coarser_of(value.levels@)[level - 2]@
                }).contains(#[trigger] coarser_of(value.levels@)[level - 1]@[i]),
            r matches Err(e) ==> e is EmptyCycle || e is OnsetOutsideCycle || e is LevelNotNested,
    {
        let n = value.levels.len();
        let coarser: &[Vec<u32>] = if n == 0 {
            value.levels.as_slice()
        } else {
            vstd::slice::slice_subrange(value.levels.as_slice(), 1, n)
        };
        proof {
            assert(coarser@ == coarser_of(value.levels@));
        }
        let mut meter = Meter::new(value.pulse, value.pulses, coarser, value.numbering)?;
        meter.signature = value.signature;
        Ok(meter)
    }
}

/// Revalidation rebuilds every level vector, so its result is not claimed as
/// a value of the model here; `try_from` states what it returns.
impl vstd::std_specs::convert::TryFromSpecImpl<RawMeter> for Meter {
    open spec fn obeys_try_from_spec() -> bool {
        false
    }

    open spec fn try_from_spec(v: RawMeter) -> Result<Meter, TimeError> {
        vstd::pervasive::arbitrary()
    }
}

impl From<Meter> for RawMeter {
    fn from(value: Meter) -> (r: RawMeter)
        ensures
            r.signature == value.signature_view(),
            r.pulse == value.pulse_view(),
            r.pulses == value.pulses_view(),
            r.levels@.map_values(|l: Vec<u32>| l@) == value.levels_view(),
            r.numbering == value.numbering_view(),
    {
        RawMeter {
            signature: value.signature,
            pulse: value.pulse,
            pulses: value.pulses,
            levels: value.levels,
            numbering: value.numbering,
        }
    }
}

impl vstd::std_specs::convert::FromSpecImpl<Meter> for RawMeter {
    open spec fn obeys_from_spec() -> bool {
        true
    }

    open spec fn from_spec(v: Meter) -> RawMeter {
        RawMeter {
            signature: v.signature_view(),
            pulse: v.pulse_view(),
            pulses: v.pulses_view(),
            levels: v.levels_vec(),
            numbering: v.numbering_view(),
        }
    }
}

/// A meter written to its wire form and read back is the same meter: the
/// wire form of a well-formed meter passes revalidation, and whatever
/// revalidation builds from it has the same signature, pulse, pulse count,
/// numbering and levels.
pub proof fn law_meter_wire_form_round_trips(m: Meter, back: Meter)
    requires
        m.well_formed(),
        revalidated_meter(<RawMeter as FromSpec<Meter>>::from_spec(m), back),
    ensures
        levels_valid(m.pulses_view(), coarser_of(<RawMeter as FromSpec<Meter>>::from_spec(m).levels@)),
        back.signature_view() == m.signature_view(),
        back.pulse_view() == m.pulse_view(),
        back.pulses_view() == m.pulses_view(),
        back.numbering_view() == m.numbering_view(),
        back.levels_view() == m.levels_view(),
{
    let raw = <RawMeter as FromSpec<Meter>>::from_spec(m);
    let lv = m.levels_view();
    let c = coarser_of(raw.levels@);
    assert(raw.levels@.map_values(|l: Vec<u32>| l@) == lv);
    assert(c.len() + 1 == lv.len());
    assert forall|k: int| 0 <= k < c.len() implies #[trigger] c[k]@ == lv[k + 1] by {
        assert(c[k] == raw.levels@[k + 1]);
    }
    assert forall|k: int, i: int| 0 <= k < c.len() && 0 <= i < c[k]@.len() implies #[trigger] c[k]@[i]
        < m.pulses_view() by {
        assert(c[k]@ == lv[k + 1]);
        assert(lv[k + 1][i] < m.pulses_view());
    }
    assert forall|k: int, i: int| 1 <= k < c.len() && 0 <= i < c[k]@.len() implies c[k - 1]@.contains(
        #[trigger] c[k]@[i],
    ) by {
        assert(c[k]@ == lv[k + 1]);
        assert(c[k - 1]@ == lv[k]);
        assert(lv[k].contains(lv[k + 1][i]));
    }
    let bv = back.levels_view();
    assert forall|k: int| 0 <= k < lv.len() implies #[trigger] bv[k] == lv[k] by {
        if k == 0 {
        } else {
            assert(c[k - 1]@ == lv[k]);
            assert forall|x: u32| bv[k].contains(x) <==> lv[k].contains(x) by {
                assert(bv[(k - 1) + 1].contains(x) <==> c[k - 1]@.contains(x));
            }
            lemma_sorted_set_eq(bv[k], lv[k]);
        }
    }
    assert(bv =~= lv);
}


/// The levels among the first `k` that contain `pulse`, as a set of level
/// indices.
pub open spec fn levels_holding(levels: Seq<Seq<u32>>, pulse: u32, k: int) -> Set<int> {
    Set::new(|i: int| 0 <= i < k && levels[i].contains(pulse))
}

/// The weight of a pulse is the number of levels that contain it: the size
/// of the set of level indices whose pulses include it. So a pulse on every
/// level weighs as many as there are levels, and one on no level weighs
/// nothing.
pub proof fn law_weight_counts_the_levels_holding_the_pulse(m: Meter, pulse: u32)
    ensures
        levels_holding(m.levels_view(), pulse, m.levels_view().len() as int).finite(),
        levels_containing(m.levels_view(), pulse, m.levels_view().len() as int) == levels_holding(
            m.levels_view(),
            pulse,
            m.levels_view().len() as int,
        ).len(),
        (forall|i: int| 0 <= i < m.levels_view().len() ==> #[trigger] m.levels_view()[i].contains(pulse))
            ==> levels_containing(m.levels_view(), pulse, m.levels_view().len() as int)
            == m.levels_view().len(),
        (forall|i: int| 0 <= i < m.levels_view().len() ==> !#[trigger] m.levels_view()[i].contains(pulse))
            ==> levels_containing(m.levels_view(), pulse, m.levels_view().len() as int) == 0,
{
    let levels = m.levels_view();
    let n = levels.len() as int;
    lemma_levels_holding(levels, pulse, n);
    if forall|i: int| 0 <= i < n ==> #[trigger] levels[i].contains(pulse) {
        assert(levels_holding(levels, pulse, n) =~= Set::new(|i: int| 0 <= i < n));
        lemma_levels_all(levels, pulse, n);
    }
    if forall|i: int| 0 <= i < n ==> !#[trigger] levels[i].contains(pulse) {
        assert(levels_holding(levels, pulse, n) =~= Set::empty());
    }
}

proof fn lemma_levels_all(levels: Seq<Seq<u32>>, pulse: u32, k: int)
    requires
        0 <= k <= levels.len(),
        forall|i: int| 0 <= i < k ==> #[trigger] levels[i].contains(pulse),
    ensures
        levels_containing(levels, pulse, k) == k,
    decreases k,
{
    if k > 0 {
        lemma_levels_all(levels, pulse, k - 1);
    }
}

proof fn lemma_levels_holding(levels: Seq<Seq<u32>>, pulse: u32, k: int)
    requires
        0 <= k <= levels.len(),
    ensures
        levels_holding(levels, pulse, k).finite(),
        levels_containing(levels, pulse, k) == levels_holding(levels, pulse, k).len(),
    decreases k,
{
    if k == 0 {
        assert(levels_holding(levels, pulse, 0) =~= Set::empty());
    } else {
        lemma_levels_holding(levels, pulse, k - 1);
        let before = levels_holding(levels, pulse, k - 1);
        if levels[k - 1].contains(pulse) {
            assert(levels_holding(levels, pulse, k) =~= before.insert(k - 1));
            assert(!before.contains(k - 1));
        } else {
            assert(levels_holding(levels, pulse, k) =~= before);
        }
    }
}
} // verus!
