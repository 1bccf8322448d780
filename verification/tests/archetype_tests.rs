use persistent_agent::{classify_agent, AgentArchetype, BarcodeSummary};

fn summary(dim: usize, num_bars: usize, num_essential: usize) -> BarcodeSummary {
    BarcodeSummary { dim, num_bars, num_essential }
}

#[test]
fn test_agent_archetype_classification() {
    // Connected: 1 essential H0, no H1
    assert_eq!(classify_agent(&[summary(0, 1, 1)]), AgentArchetype::Connected);
    // Clustered: 3+ essential H0
    assert_eq!(classify_agent(&[summary(0, 3, 3)]), AgentArchetype::Clustered);
    // Looped: H1 features
    assert_eq!(
        classify_agent(&[summary(0, 1, 1), summary(1, 1, 1)]),
        AgentArchetype::Looped
    );
    // Complex: H2 features
    assert_eq!(
        classify_agent(&[summary(0, 1, 1), summary(2, 1, 1)]),
        AgentArchetype::Complex
    );
}

#[test]
fn sparse_and_default_connected() {
    assert_eq!(classify_agent(&[]), AgentArchetype::Sparse);
    assert_eq!(classify_agent(&[summary(0, 0, 0)]), AgentArchetype::Sparse);
    // two essential components and a finite bar: not clustered, not a lone bar
    assert_eq!(classify_agent(&[summary(0, 3, 2)]), AgentArchetype::Connected);
}

#[test]
fn only_the_first_barcode_of_a_dimension_counts() {
    let bs = [summary(1, 0, 0), summary(1, 5, 5), summary(0, 1, 1)];
    // the first H1 barcode has no bars, so the agent is not looped; with six bars in
    // all it is not the lone-bar case either
    assert_eq!(classify_agent(&bs), AgentArchetype::Connected);
    assert_eq!(classify_agent(&[summary(2, 0, 0), summary(0, 4, 4)]), AgentArchetype::Clustered);
}
