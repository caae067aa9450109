use wo_routing::chains::resolve;
use wo_routing::finished_good::FinishedGood;
use wo_routing::order::{chain_before, fg_lt};
use wo_routing::report::{build_report, push_decimal, render};
use wo_routing::routing::{normalized_step, wo_chain};
use wo_routing::work_order::{RoutingError, WorkOrderData, WorkOrderRow};

fn fg(code: &str) -> FinishedGood {
    FinishedGood::parse(code).unwrap()
}

fn row(id: u64, code: &str, parent: Option<u64>, step: u64) -> WorkOrderRow {
    WorkOrderRow {
        work_order: id,
        fg: fg(code),
        parent,
        work_type: "Make".to_string(),
        sales_level: "1".to_string(),
        routing_step: step,
    }
}

fn codes(chain: &[FinishedGood]) -> Vec<String> {
    chain.iter().map(|f| f.code.clone()).collect()
}

#[test]
fn two_level_chain_renders_one_line() {
    let rows = vec![row(1, "X", None, 1), row(2, "Y", Some(1), 1)];
    let data = WorkOrderData::load(rows).unwrap();
    let chains = resolve(&vec![fg("Y")], &data).unwrap();
    assert_eq!(chains.len(), 1);
    assert_eq!(codes(&chains[0]), vec!["X", "Y"]);
    let text = render(&vec![fg("Y")], &data).unwrap();
    assert_eq!(
        text,
        "X\tRouting Step\tY\tRouting Step\tWork Type\tSales Level\n1\t1\t2\t1\tMake\t1\n\n"
    );
}

#[test]
fn absent_target_renders_empty_block() {
    let rows = vec![row(1, "X", None, 1)];
    let data = WorkOrderData::load(rows).unwrap();
    let chains = resolve(&vec![fg("Z")], &data).unwrap();
    assert_eq!(chains.len(), 1);
    assert_eq!(codes(&chains[0]), vec!["Z"]);
    let text = render(&vec![fg("Z")], &data).unwrap();
    assert_eq!(text, "Z\tRouting Step\tWork Type\tSales Level\n\n");
}

#[test]
fn later_step_shows_step_one_sibling() {
    let rows = vec![row(1, "X", None, 1), row(2, "Y-1", Some(1), 1), row(3, "Y-2", Some(1), 9)];
    let data = WorkOrderData::load(rows).unwrap();
    assert_eq!(normalized_step(&data, 2), Ok(1));
    assert_eq!(normalized_step(&data, 1), Ok(1));
    assert_eq!(normalized_step(&data, 0), Ok(1));
    let text = render(&vec![fg("Y-2")], &data).unwrap();
    assert_eq!(
        text,
        "X\tRouting Step\tY-2\tRouting Step\tWork Type\tSales Level\n1\t1\t3\t1\tMake\t1\n\n"
    );
}

#[test]
fn normalizing_twice_gives_the_same_step() {
    let rows = vec![row(1, "X", None, 4), row(2, "Y-1", Some(1), 3), row(3, "Y-2", Some(1), 9)];
    let data = WorkOrderData::load(rows).unwrap();
    let once: Vec<u64> = (0..3).map(|i| normalized_step(&data, i).unwrap()).collect();
    assert_eq!(once, vec![4, 3, 3]);
    let rows2 = vec![
        row(1, "X", None, once[0]),
        row(2, "Y-1", Some(1), once[1]),
        row(3, "Y-2", Some(1), once[2]),
    ];
    let data2 = WorkOrderData::load(rows2).unwrap();
    let twice: Vec<u64> = (0..3).map(|i| normalized_step(&data2, i).unwrap()).collect();
    assert_eq!(once, twice);
}

#[test]
fn missing_step_one_is_refused() {
    let rows = vec![row(1, "X", None, 1), row(3, "Y-2", Some(1), 9)];
    let data = WorkOrderData::load(rows).unwrap();
    assert_eq!(normalized_step(&data, 1), Err(RoutingError::MissingStepOne(3)));
    assert_eq!(render(&vec![fg("Y-2")], &data), Err(RoutingError::MissingStepOne(3)));
}

#[test]
fn broken_reference_stops_the_report() {
    let rows = vec![row(1, "X", None, 1), row(2, "Y", Some(999), 1)];
    assert_eq!(WorkOrderData::load(rows).unwrap_err(), RoutingError::BrokenReference(999));
    let rows = vec![row(1, "X", None, 1), row(2, "Y", Some(999), 1)];
    assert_eq!(build_report(rows, &vec![fg("Y")]), Err(RoutingError::BrokenReference(999)));
}

#[test]
fn invalid_token_is_dropped() {
    assert!(FinishedGood::parse("").is_none());
    assert!(FinishedGood::parse("A B").is_none());
    assert!(FinishedGood::parse("A,B").is_none());
    let targets: Vec<FinishedGood> = ["", "Y"].iter().filter_map(|t| FinishedGood::parse(t)).collect();
    assert_eq!(targets.len(), 1);
    let rows = vec![row(1, "X", None, 1), row(2, "Y", Some(1), 1)];
    let text = build_report(rows, &targets).unwrap();
    assert_eq!(
        text,
        "X\tRouting Step\tY\tRouting Step\tWork Type\tSales Level\n1\t1\t2\t1\tMake\t1\n\n"
    );
}

#[test]
fn empty_table_and_no_targets_give_no_data() {
    assert_eq!(WorkOrderData::load(vec![]).unwrap_err(), RoutingError::NoData);
    assert_eq!(build_report(vec![], &vec![fg("Y")]), Err(RoutingError::NoData));
    let data = WorkOrderData::load(vec![row(1, "X", None, 1)]).unwrap();
    assert_eq!(render(&vec![], &data), Err(RoutingError::NoData));
}

#[test]
fn duplicate_identifier_is_refused() {
    let rows = vec![row(1, "X", None, 1), row(1, "Y", None, 1)];
    assert_eq!(WorkOrderData::load(rows).unwrap_err(), RoutingError::DuplicateWorkOrder(1));
}

#[test]
fn parent_cycle_is_refused() {
    let rows = vec![row(1, "X", Some(2), 1), row(2, "Y", Some(1), 1)];
    let data = WorkOrderData::load(rows).unwrap();
    assert_eq!(resolve(&vec![fg("Y")], &data), Err(RoutingError::CyclicRouting));
    assert_eq!(wo_chain(&data, 0), Err(RoutingError::CyclicRouting));
}

#[test]
fn fan_out_gives_one_chain_per_parent() {
    let rows = vec![
        row(1, "B", None, 1),
        row(2, "A", None, 1),
        row(3, "C", Some(1), 2),
        row(4, "C", Some(2), 1),
    ];
    let data = WorkOrderData::load(rows).unwrap();
    let chains = resolve(&vec![fg("C")], &data).unwrap();
    assert_eq!(chains.len(), 2);
    assert_eq!(codes(&chains[0]), vec!["A", "C"]);
    assert_eq!(codes(&chains[1]), vec!["B", "C"]);
    let text = render(&vec![fg("C")], &data).unwrap();
    let block = "\tRouting Step\tC\tRouting Step\tWork Type\tSales Level\n";
    let lines = "2\t1\t4\t1\tMake\t1\n1\t1\t3\t2\tMake\t1\n\n";
    assert_eq!(text, format!("A{}{}B{}{}", block, lines, block, lines));
}

#[test]
fn resolved_chain_heads_have_no_parents() {
    let rows = vec![
        row(1, "A", None, 1),
        row(2, "B", Some(1), 1),
        row(3, "C", Some(2), 1),
        row(4, "D", None, 1),
    ];
    let data = WorkOrderData::load(rows).unwrap();
    let chains = resolve(&vec![fg("C"), fg("D"), fg("C")], &data).unwrap();
    assert_eq!(chains.len(), 2);
    assert_eq!(codes(&chains[0]), vec!["A", "B", "C"]);
    assert_eq!(codes(&chains[1]), vec!["D"]);
    for chain in &chains {
        assert!(data.parent_fgs(&chain[0]).is_empty());
    }
}

#[test]
fn resolution_is_deterministic() {
    let make = || {
        vec![
            row(1, "B", None, 1),
            row(2, "A", None, 1),
            row(3, "C", Some(1), 2),
            row(4, "C", Some(2), 1),
        ]
    };
    let first = build_report(make(), &vec![fg("C")]).unwrap();
    let second = build_report(make(), &vec![fg("C")]).unwrap();
    assert_eq!(first, second);
}

#[test]
fn work_order_chain_depth_matches_chain() {
    let rows = vec![row(1, "A", None, 1), row(2, "B", Some(1), 1), row(3, "C", Some(2), 1)];
    let data = WorkOrderData::load(rows).unwrap();
    let chains = resolve(&vec![fg("C")], &data).unwrap();
    assert_eq!(chains[0].len(), 3);
    let wc = wo_chain(&data, 2).unwrap();
    assert_eq!(wc, vec![0, 1, 2]);
    assert_eq!(wc.len(), chains[0].len());
    let kids = data.rows_for_target(&fg("C"));
    assert_eq!(kids, vec![2]);
}

#[test]
fn rows_for_target_sort_by_step_then_id() {
    let rows = vec![
        row(9, "C", None, 2),
        row(5, "C", None, 1),
        row(3, "C", None, 2),
        row(4, "D", None, 0),
    ];
    let data = WorkOrderData::load(rows).unwrap();
    assert_eq!(data.rows_for_target(&fg("C")), vec![1, 2, 0]);
    assert_eq!(data.lookup(3), Some(2));
    assert_eq!(data.lookup(7), None);
}

#[test]
fn step_markers_are_recognized() {
    assert_eq!(fg("ABC-2").step(), Some(2));
    assert!(fg("ABC-2").is_step_number(2));
    assert!(!fg("ABC-2").is_step_number(1));
    assert_eq!(fg("ABC-10").step(), Some(10));
    assert_eq!(fg("ABC").step(), None);
    assert!(!fg("ABC").is_step());
    assert_eq!(fg("-2").step(), None);
    assert_eq!(fg("A-").step(), None);
    assert_eq!(fg("A2").step(), None);
    assert_eq!(fg("A-18446744073709551615").step(), Some(u64::MAX));
    assert_eq!(fg("A-18446744073709551616").step(), None);
}

#[test]
fn codes_and_chains_order_lexicographically() {
    assert!(fg_lt(&fg("A"), &fg("AB")));
    assert!(fg_lt(&fg("AB"), &fg("B")));
    assert!(!fg_lt(&fg("B"), &fg("B")));
    assert!(chain_before(&vec![fg("A"), fg("C")], &vec![fg("B"), fg("A")]));
    assert!(chain_before(&vec![fg("A")], &vec![fg("A"), fg("B")]));
    assert!(!chain_before(&vec![fg("A"), fg("B")], &vec![fg("A"), fg("B")]));
}

#[test]
fn decimal_text() {
    let mut s = String::from("n=");
    push_decimal(&mut s, 0);
    assert_eq!(s, "n=0");
    let mut s = String::new();
    push_decimal(&mut s, 12045);
    assert_eq!(s, "12045");
    let mut s = String::new();
    push_decimal(&mut s, u64::MAX);
    assert_eq!(s, "18446744073709551615");
}
