use layoffs::graph::LayoffsGraph;
use layoffs::ratio::Ratio;
use layoffs::stats::calculate_median;

fn as_f64(r: Ratio) -> f64 {
    r.num as f64 / r.den as f64
}

#[test]
fn test_test_add_company() {
    let mut graph = LayoffsGraph::new();
    let company_name = "Test Company".to_string();
    let industry_name = "Tech".to_string();
    let year = 2021;
    let layoffs = 100;

    graph.add_company(company_name.clone(), industry_name.clone(), year, layoffs);

    assert!(graph.has_industry(&industry_name));
    assert!(graph.industry_has_company(&industry_name, &company_name));

    assert!(graph.get_company_fact(&company_name).is_some());
    assert_eq!(graph.get_company_fact(&company_name).unwrap(), (layoffs, year));
}

#[test]
fn empty_ledger_yields_empty_or_zero_summaries() {
    let graph = LayoffsGraph::new();
    assert!(graph.get_industry_summary().is_empty());
    assert!(graph.calculate_average_year_per_industry().is_empty());
    assert!(graph.calculate_median_per_industry(&graph.industries).is_empty());
    assert!(graph.calculate_mode_per_industry(&graph.industries).is_empty());
    assert!(graph.calculate_std_deviation_per_industry(&graph.industries).is_empty());

    // only the synthetic overall entry remains, and it is exactly zero
    let per_year = graph.average_layoffs_per_year();
    assert_eq!(per_year.len(), 1);
    assert_eq!(per_year[0].0, 0);
    assert_eq!(as_f64(per_year[0].1), 0.0);
}

#[test]
fn median_of_odd_and_even_samples() {
    assert_eq!(as_f64(calculate_median(&vec![100, 200, 300])), 200.0);
    assert_eq!(as_f64(calculate_median(&vec![100, 200])), 150.0);
    assert_eq!(as_f64(calculate_median(&vec![])), 0.0);
}

#[test]
fn median_per_industry_sorts_before_taking_the_middle() {
    let mut graph = LayoffsGraph::new();
    graph.add_company("A".to_string(), "Tech".to_string(), 2021, 300);
    graph.add_company("B".to_string(), "Tech".to_string(), 2021, 100);
    graph.add_company("C".to_string(), "Tech".to_string(), 2021, 200);
    graph.add_company("D".to_string(), "Retail".to_string(), 2021, 200);
    graph.add_company("E".to_string(), "Retail".to_string(), 2021, 100);

    let medians = graph.calculate_median_per_industry(&graph.industries);
    let tech = medians.iter().find(|e| e.0 == "Tech").unwrap();
    let retail = medians.iter().find(|e| e.0 == "Retail").unwrap();
    assert_eq!(as_f64(tech.1), 200.0);
    assert_eq!(as_f64(retail.1), 150.0);
}

#[test]
fn mode_picks_the_most_frequent_value() {
    let mut graph = LayoffsGraph::new();
    graph.add_company("A".to_string(), "Tech".to_string(), 2021, 50);
    graph.add_company("B".to_string(), "Tech".to_string(), 2021, 50);
    graph.add_company("C".to_string(), "Tech".to_string(), 2021, 75);

    let modes = graph.calculate_mode_per_industry(&graph.industries);
    assert_eq!(modes.len(), 1);
    assert_eq!(modes[0].1, 50);
}

#[test]
fn mode_breaks_frequency_ties_towards_the_smallest_value() {
    let mut graph = LayoffsGraph::new();
    graph.add_company("A".to_string(), "Tech".to_string(), 2021, 20);
    graph.add_company("B".to_string(), "Tech".to_string(), 2021, 10);
    graph.add_company("C".to_string(), "Tech".to_string(), 2021, 20);
    graph.add_company("D".to_string(), "Tech".to_string(), 2021, 10);

    let modes = graph.calculate_mode_per_industry(&graph.industries);
    assert_eq!(modes[0].1, 10);
}

#[test]
fn std_deviation_is_the_population_deviation() {
    let mut graph = LayoffsGraph::new();
    graph.add_company("A".to_string(), "Tech".to_string(), 2021, 10);
    graph.add_company("B".to_string(), "Tech".to_string(), 2021, 20);
    graph.add_company("C".to_string(), "Tech".to_string(), 2021, 30);

    let deviations = graph.calculate_std_deviation_per_industry(&graph.industries);
    assert_eq!(deviations.len(), 1);
    let variance = as_f64(deviations[0].1);
    assert!((variance - 66.6666).abs() < 1e-3);
    let std_dev = variance.sqrt();
    assert!((std_dev - 8.1649).abs() < 1e-3);
}

#[test]
fn year_zero_entities_are_excluded_from_year_buckets() {
    let mut graph = LayoffsGraph::new();
    graph.add_company("A".to_string(), "Tech".to_string(), 0, 100);
    graph.add_company("B".to_string(), "Tech".to_string(), 2020, 50);

    let per_year = graph.average_layoffs_per_year();
    // one real year plus the synthetic overall entry at the end
    assert_eq!(per_year.len(), 2);
    assert_eq!(per_year[0].0, 2020);
    assert_eq!(as_f64(per_year[0].1), 50.0);
    assert_eq!(per_year[1].0, 0);
    // the overall average counts only the entity with a known year
    assert_eq!(as_f64(per_year[1].1), 50.0);
}

#[test]
fn only_unknown_years_leave_the_overall_average_at_zero() {
    let mut graph = LayoffsGraph::new();
    graph.add_company("A".to_string(), "Tech".to_string(), 0, 100);

    let per_year = graph.average_layoffs_per_year();
    assert_eq!(per_year.len(), 1);
    assert_eq!(per_year[0].0, 0);
    assert_eq!(as_f64(per_year[0].1), 0.0);
}

#[test]
fn three_companies_summarise_by_industry() {
    let mut graph = LayoffsGraph::new();
    graph.add_company("A".to_string(), "Tech".to_string(), 2021, 100);
    graph.add_company("B".to_string(), "Tech".to_string(), 2021, 300);
    graph.add_company("C".to_string(), "Retail".to_string(), 2020, 50);

    let summary = graph.get_industry_summary();
    assert_eq!(summary.len(), 2);
    let tech = &summary.iter().find(|e| e.0 == "Tech").unwrap().1;
    let retail = &summary.iter().find(|e| e.0 == "Retail").unwrap().1;

    assert_eq!(tech.company_count, 2);
    assert_eq!(tech.total_layoffs, 400);
    assert_eq!(as_f64(tech.average_layoffs), 200.0);
    assert_eq!(as_f64(tech.average_year), 2021.0);

    assert_eq!(retail.company_count, 1);
    assert_eq!(retail.total_layoffs, 50);
    assert_eq!(as_f64(retail.average_layoffs), 50.0);
    assert_eq!(as_f64(retail.average_year), 2020.0);

    let avg_years = graph.calculate_average_year_per_industry();
    let tech_year = avg_years.iter().find(|e| e.0 == "Tech").unwrap();
    assert_eq!(as_f64(tech_year.1), 2021.0);
}

#[test]
fn companies_without_facts_count_in_the_divisor() {
    // a company listed by membership view but absent from the facts map
    // contributes nothing to totals yet still divides the average
    let mut graph = LayoffsGraph::new();
    graph.add_company("A".to_string(), "Tech".to_string(), 2021, 100);
    graph.add_company("B".to_string(), "Tech".to_string(), 2021, 200);
    let mut view = graph.industries.clone();
    view[0].1.push("Ghost Corp".to_string());

    let medians = graph.calculate_median_per_industry(&view);
    assert_eq!(as_f64(medians[0].1), 150.0);

    let deviations = graph.calculate_std_deviation_per_industry(&view);
    // mean over three companies is 100; squared deviations of the two
    // known samples are 0 and 10000, divided by three companies
    let variance = as_f64(deviations[0].1);
    assert!((variance - 3333.3333).abs() < 1e-2);
}
