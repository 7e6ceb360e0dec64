use layoffs::graph::LayoffsGraph;

#[test]
fn graph_test_add_company() {
    let mut graph = LayoffsGraph::new();
    let company_name = "Test Company".to_string();
    let industry_name = "Tech".to_string();
    let year = 2021;
    let layoffs = 100;

    graph.add_company(company_name.clone(), industry_name.clone(), year, layoffs);

    assert!(graph.has_industry(&industry_name));
    assert!(graph.industry_has_company(&industry_name, &company_name));

    assert!(graph.get_company_fact(&company_name).is_some());
    assert_eq!(graph.get_company_fact(&company_name).unwrap(), (layoffs, year));
}

#[test]
fn readding_a_company_keeps_membership_and_overwrites_facts() {
    let mut graph = LayoffsGraph::new();
    graph.add_company("A".to_string(), "Tech".to_string(), 2020, 10);
    graph.add_company("A".to_string(), "Retail".to_string(), 2021, 25);

    // membership is additive: the company stays listed under both
    assert!(graph.industry_has_company(&"Tech".to_string(), &"A".to_string()));
    assert!(graph.industry_has_company(&"Retail".to_string(), &"A".to_string()));

    // the fact tuple is overwritten: the last write wins
    assert_eq!(graph.get_company_fact(&"A".to_string()), Some((25, 2021)));
}

#[test]
fn degree_centrality_counts_companies_per_industry() {
    let mut graph = LayoffsGraph::new();
    graph.add_company("A".to_string(), "Tech".to_string(), 2021, 1);
    graph.add_company("B".to_string(), "Tech".to_string(), 2021, 2);
    graph.add_company("C".to_string(), "Retail".to_string(), 2020, 3);

    let centrality = graph.calculate_degree_centrality();
    assert_eq!(centrality.len(), 2);
    let tech = centrality.iter().find(|e| e.0 == "Tech").unwrap();
    let retail = centrality.iter().find(|e| e.0 == "Retail").unwrap();
    assert_eq!(tech.1, 2);
    assert_eq!(retail.1, 1);
}

#[test]
fn adjacency_list_pairs_companies_with_layoffs() {
    let mut graph = LayoffsGraph::new();
    graph.add_company("A".to_string(), "Tech".to_string(), 2021, 7);
    graph.add_company("B".to_string(), "Tech".to_string(), 2021, 9);

    let adjacency = graph.to_adjacency_list();
    assert_eq!(adjacency.len(), 1);
    assert_eq!(adjacency[0].0, "Tech");
    let mut pairs = adjacency[0].1.clone();
    pairs.sort();
    assert_eq!(pairs, vec![("A".to_string(), 7), ("B".to_string(), 9)]);
}
