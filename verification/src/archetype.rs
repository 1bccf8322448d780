//! Classification of agents by the shape of their persistence barcodes.
use vstd::prelude::*;

verus! {

/// Agent archetype classification based on persistence signatures.
#[derive(Clone, Copy, Debug, PartialEq, Eq)]
pub enum AgentArchetype {
    /// Clustered: many persistent H0 features (distinct clusters).
    Clustered,
    /// Connected: single dominant H0, no higher features (well-connected).
    Connected,
    /// Looped: persistent H1 features (cyclic behavior patterns).
    Looped,
    /// Complex: significant H1 and H2 features (complex topology).
    Complex,
    /// Sparse: few features, low persistence.
    Sparse,
}

/// What the classification reads of a barcode: its dimension, its number of bars, and
/// its number of essential (never-ending) bars.
#[derive(Clone, Copy, Debug, PartialEq, Eq)]
pub struct BarcodeSummary {
    /// Dimension of the homology.
    pub dim: usize,
    /// Number of bars.
    pub num_bars: usize,
    /// Number of bars that never end.
    pub num_essential: usize,
}

/// The first barcode of dimension `d`, if any.
pub open spec fn first_of_dim(bs: Seq<BarcodeSummary>, d: usize) -> Option<BarcodeSummary>
    decreases bs.len(),
{
    if bs.len() == 0 {
        None
    } else if bs[0].dim == d {
        Some(bs[0])
    } else {
        first_of_dim(bs.drop_first(), d)
    }
}

/// Bars of the first barcode of dimension `d`, or zero.
pub open spec fn bars_of_dim(bs: Seq<BarcodeSummary>, d: usize) -> nat {
    match first_of_dim(bs, d) {
        Some(b) => b.num_bars as nat,
        None => 0,
    }
}

/// Essential bars of the first barcode of dimension `d`, or zero.
pub open spec fn essential_of_dim(bs: Seq<BarcodeSummary>, d: usize) -> nat {
    match first_of_dim(bs, d) {
        Some(b) => b.num_essential as nat,
        None => 0,
    }
}

/// Bars over all barcodes.
pub open spec fn bar_total(bs: Seq<BarcodeSummary>) -> nat
    decreases bs.len(),
{
    if bs.len() == 0 {
        0
    } else {
        bs[0].num_bars as nat + bar_total(bs.drop_first())
    }
}

/// The archetype rule: any H2 bar makes an agent complex; otherwise any H1 bar makes
/// it looped; otherwise more than two essential H0 bars make it clustered; a lone
/// essential H0 bar and nothing else is connected; no bars at all is sparse; anything
/// else is connected.
pub open spec fn archetype_of(bs: Seq<BarcodeSummary>) -> AgentArchetype {
    if bars_of_dim(bs, 2) > 0 {
        AgentArchetype::Complex
    } else if bars_of_dim(bs, 1) > 0 {
        AgentArchetype::Looped
    } else if essential_of_dim(bs, 0) > 2 {
        AgentArchetype::Clustered
    } else if essential_of_dim(bs, 0) == 1 && bar_total(bs) == 1 {
        AgentArchetype::Connected
    } else if bar_total(bs) == 0 {
        AgentArchetype::Sparse
    } else {
        AgentArchetype::Connected
    }
}

/// Barcode `i` is the first one of dimension `d`.
pub open spec fn first_at(bs: Seq<BarcodeSummary>, i: int, d: usize) -> bool {
    &&& 0 <= i < bs.len()
    &&& bs[i].dim == d
    &&& forall|j: int| 0 <= j < i ==> #[trigger] bs[j].dim != d
}

/// The first barcode of dimension `d` is found where it stands.
proof fn lemma_first_at(bs: Seq<BarcodeSummary>, d: usize)
    ensures
        forall|i: int| #[trigger] first_at(bs, i, d) ==> first_of_dim(bs, d) == Some(bs[i]),
        first_of_dim(bs, d) is Some ==> exists|i: int| #[trigger] first_at(bs, i, d),
    decreases bs.len(),
{
    if bs.len() > 0 {
        let rest = bs.drop_first();
        lemma_first_at(rest, d);
        assert forall|i: int| #[trigger] first_at(bs, i, d) implies first_of_dim(bs, d) == Some(bs[i]) by {
            if i > 0 {
                assert(bs[0].dim != d);
                assert(first_at(rest, i - 1, d)) by {
                    assert forall|j: int| 0 <= j < i - 1 implies #[trigger] rest[j].dim != d by {
                        assert(rest[j] == bs[j + 1]);
                    }
                }
                assert(rest[i - 1] == bs[i]);
            }
        }
        if first_of_dim(bs, d) is Some {
            if bs[0].dim == d {
                assert(first_at(bs, 0, d));
            } else {
                let k = choose|k: int| #[trigger] first_at(rest, k, d);
                assert(first_at(bs, k + 1, d)) by {
                    assert forall|j: int| 0 <= j < k + 1 implies #[trigger] bs[j].dim != d by {
                        if j > 0 {
                            assert(rest[j - 1] == bs[j]);
                        }
                    }
                    assert(rest[k] == bs[k + 1]);
                }
            }
        }
    }
}

/// The bar total is zero exactly when no barcode has a bar.
proof fn lemma_bar_total_zero(bs: Seq<BarcodeSummary>)
    ensures
        (bar_total(bs) == 0) <==> forall|i: int| 0 <= i < bs.len() ==> #[trigger] bs[i].num_bars == 0,
    decreases bs.len(),
{
    if bs.len() > 0 {
        let rest = bs.drop_first();
        lemma_bar_total_zero(rest);
        if bar_total(bs) == 0 {
            assert forall|i: int| 0 <= i < bs.len() implies #[trigger] bs[i].num_bars == 0 by {
                if i > 0 {
                    assert(rest[i - 1] == bs[i]);
                }
            }
        }
        if forall|i: int| 0 <= i < bs.len() ==> #[trigger] bs[i].num_bars == 0 {
            assert forall|i: int| 0 <= i < rest.len() implies #[trigger] rest[i].num_bars == 0 by {
                assert(rest[i] == bs[i + 1]);
            }
            assert(bs[0].num_bars == 0);
        }
    }
}

/// The first barcode of dimension `d`, if any.
fn find_dim(barcodes: &[BarcodeSummary], d: usize) -> (r: Option<BarcodeSummary>)
    ensures
        r == first_of_dim(barcodes@, d),
{
    let mut i: usize = 0;
    assert(barcodes@.skip(0) =~= barcodes@);
    while i < barcodes.len()
        invariant
            i <= barcodes@.len(),
            first_of_dim(barcodes@, d) == first_of_dim(barcodes@.skip(i as int), d),
        decreases barcodes@.len() - i,
    {
        assert(barcodes@.skip(i as int).drop_first() =~= barcodes@.skip(i + 1));
        if barcodes[i].dim == d {
            return Some(barcodes[i]);
        }
        i = i + 1;
    }
    None
}

/// Classify agent behavior from the summaries of its persistence barcodes.
pub fn classify_agent(barcodes: &[BarcodeSummary]) -> (a: AgentArchetype)
    requires
        bars_of_dim(barcodes@, 2) == 0 && bars_of_dim(barcodes@, 1) == 0 && essential_of_dim(barcodes@, 0)
            <= 2 ==> bar_total(barcodes@) <= usize::MAX,
    ensures
        a == archetype_of(barcodes@),
        // an H2 bar in the first barcode of dimension 2 makes the agent complex, whatever
        // the other barcodes hold
        forall|i: int|
            #[trigger] first_at(barcodes@, i, 2) && barcodes@[i].num_bars > 0 ==> a == AgentArchetype::Complex,
        // with no H2 bar, any bar, finite or essential, in the first barcode of
        // dimension 1 makes the agent looped
        (forall|i: int| #[trigger] first_at(barcodes@, i, 2) ==> barcodes@[i].num_bars == 0) ==> forall|i: int|
            #[trigger] first_at(barcodes@, i, 1) && barcodes@[i].num_bars > 0 ==> a == AgentArchetype::Looped,
        // the agent is complex only for an H2 bar, and looped only for an H1 bar
        a == AgentArchetype::Complex ==> exists|i: int| #[trigger] first_at(barcodes@, i, 2) && barcodes@[i].num_bars > 0,
        a == AgentArchetype::Looped ==> exists|i: int| #[trigger] first_at(barcodes@, i, 1) && barcodes@[i].num_bars > 0,
        // with no H2 or H1 bar: more than two essential H0 bars make the agent clustered,
        // and otherwise no bar at all makes it sparse
        a == AgentArchetype::Clustered <==> (forall|i: int| #[trigger] first_at(barcodes@, i, 2) ==> barcodes@[i].num_bars
            == 0) && (forall|i: int| #[trigger] first_at(barcodes@, i, 1) ==> barcodes@[i].num_bars == 0) && exists|i: int|
            #[trigger] first_at(barcodes@, i, 0) && barcodes@[i].num_essential > 2,
        a == AgentArchetype::Sparse <==> (forall|i: int| #[trigger] first_at(barcodes@, i, 2) ==> barcodes@[i].num_bars == 0)
            && (forall|i: int| #[trigger] first_at(barcodes@, i, 1) ==> barcodes@[i].num_bars == 0) && (forall|i: int|
            #[trigger] first_at(barcodes@, i, 0) ==> barcodes@[i].num_essential <= 2) && (forall|i: int|
            0 <= i < barcodes@.len() ==> #[trigger] barcodes@[i].num_bars == 0),
{
    proof {
        lemma_first_at(barcodes@, 0);
        lemma_first_at(barcodes@, 1);
        lemma_first_at(barcodes@, 2);
        lemma_bar_total_zero(barcodes@);
    }
    let h0 = find_dim(barcodes, 0);
    let h1 = find_dim(barcodes, 1);
    let h2 = find_dim(barcodes, 2);
    let h1_bars = match h1 {
        Some(b) => b.num_bars,
        None => 0,
    };
    let h2_bars = match h2 {
        Some(b) => b.num_bars,
        None => 0,
    };
    let h0_essential = match h0 {
        Some(b) => b.num_essential,
        None => 0,
    };
    if h2_bars > 0 {
        return AgentArchetype::Complex;
    }
    if h1_bars > 0 {
        return AgentArchetype::Looped;
    }
    if h0_essential > 2 {
        return AgentArchetype::Clustered;
    }
    let mut total_bars: usize = 0;
    let mut i: usize = 0;
    assert(barcodes@.skip(0) =~= barcodes@);
    while i < barcodes.len()
        invariant
            i <= barcodes@.len(),
            bar_total(barcodes@) <= usize::MAX,
            total_bars as nat + bar_total(barcodes@.skip(i as int)) == bar_total(barcodes@),
        decreases barcodes@.len() - i,
    {
        assert(barcodes@.skip(i as int).drop_first() =~= barcodes@.skip(i + 1));
        total_bars = total_bars + barcodes[i].num_bars;
        i = i + 1;
    }
    if h0_essential == 1 && total_bars == 1 {
        return AgentArchetype::Connected;
    }
    if total_bars == 0 {
        return AgentArchetype::Sparse;
    }
    AgentArchetype::Connected
}

} // verus!
