//! The layers of the realization pipeline, and the vocabulary a
//! realization record uses for round trips and device saturation.
use vstd::prelude::*;

verus! {

/// A layer of the pipeline, from notation down to device representation.
#[derive(Debug, Clone, Copy, PartialEq, Eq, Hash, PartialOrd, Ord)]
pub enum Layer {
    /// Notation: spelled symbols, ties, tuplet brackets.
    L0Notation,
    /// Exact semantic structure: exact ratios, rational durations.
    L1Exact,
    /// Structural classes: tempered classes, image lattices, meter.
    L2Quotient,
    /// Real metric realization: tuning curves, tempo maps.
    L3Metric,
    /// Device representation: ticks, control words.
    L4Device,
}

/// A layer's position in pipeline order.
pub open spec fn layer_rank(l: Layer) -> int {
    match l {
        Layer::L0Notation => 0,
        Layer::L1Exact => 1,
        Layer::L2Quotient => 2,
        Layer::L3Metric => 3,
        Layer::L4Device => 4,
    }
}

/// The layer at a position in pipeline order.
pub open spec fn layer_at(k: int) -> Layer {
    if k <= 0 {
        Layer::L0Notation
    } else if k == 1 {
        Layer::L1Exact
    } else if k == 2 {
        Layer::L2Quotient
    } else if k == 3 {
        Layer::L3Metric
    } else {
        Layer::L4Device
    }
}

/// The layers strictly between two others, in pipeline order.
pub open spec fn layers_between(from: Layer, to: Layer) -> Seq<Layer> {
    let count = if layer_rank(to) > layer_rank(from) {
        layer_rank(to) - layer_rank(from) - 1
    } else {
        0
    };
    Seq::new(count as nat, |k: int| layer_at(layer_rank(from) + 1 + k))
}

fn rank_of(l: Layer) -> (r: u8)
    ensures
        r as int == layer_rank(l),
{
    match l {
        Layer::L0Notation => 0,
        Layer::L1Exact => 1,
        Layer::L2Quotient => 2,
        Layer::L3Metric => 3,
        Layer::L4Device => 4,
    }
}

impl Layer {
    /// The layers strictly between two others, in pipeline order; empty
    /// when the two are adjacent or out of order.
    pub fn between(from: Layer, to: Layer) -> (r: Vec<Layer>)
        ensures
            r@ == layers_between(from, to),
    {
        let order = [
            Layer::L0Notation,
            Layer::L1Exact,
            Layer::L2Quotient,
            Layer::L3Metric,
            Layer::L4Device,
        ];
        let low = rank_of(from);
        let high = rank_of(to);
        let mut out: Vec<Layer> = Vec::new();
        let mut k: usize = 0;
        while k < 5
            invariant
                k <= 5,
                order@ == seq![
                    Layer::L0Notation,
                    Layer::L1Exact,
                    Layer::L2Quotient,
                    Layer::L3Metric,
                    Layer::L4Device,
                ],
                low as int == layer_rank(from),
                high as int == layer_rank(to),
                out@ == Seq::new(
                    (if k > low + 1 && high > low {
                        if k < high { k - low - 1 } else { high - low - 1 }
                    } else {
                        0
                    }) as nat,
                    |j: int| layer_at(layer_rank(from) + 1 + j),
                ),
            decreases 5 - k,
        {
            let l = order[k];
            let rank = rank_of(l);
            proof {
                assert(l == layer_at(k as int));
                assert(rank == k);
            }
            if low < rank && rank < high {
                out.push(l);
            }
            proof {
                let n = (if k + 1 > low + 1 && high > low {
                    if k + 1 < high { k + 1 - low - 1 } else { high - low - 1 }
                } else {
                    0
                }) as nat;
                assert(out@ =~= Seq::new(n, |j: int| layer_at(layer_rank(from) + 1 + j)));
            }
            k = k + 1;
        }
        proof {
            assert(out@ =~= layers_between(from, to));
        }
        out
    }
}

/// What justifies a claim that a realization can be reversed.
#[derive(Debug, Clone, PartialEq, Eq, Hash)]
pub enum RoundTripBasis {
    /// The realization map is injective on the represented domain, so the
    /// result determines its source.
    InjectiveOnDomain {
        /// What domain injectivity was established on.
        domain: String,
    },
    /// The source object is retained alongside the result.
    SourceRetained,
    /// Neither holds, so the realization is not losslessly reversible.
    NotReversible,
}

/// What a device does with a value outside its range.
#[derive(Debug, Clone, PartialEq, Eq, Hash)]
pub enum SaturationBehaviour {
    /// Values outside the range are clamped to the nearest representable one.
    Clamp,
    /// Values outside the range are refused.
    Reject,
    /// Values outside the range wrap around.
    Wrap,
    /// Something else, declared by the adapter.
    Declared(String),
}

} // verus!
