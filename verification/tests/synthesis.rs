use sds_core::aggregated_data::ConsolidateParameters;
use sds_core::aggregator::Aggregator;
use sds_core::data_block::{DataBlock, DataBlockRecord, DataBlockValue};
use sds_core::from_aggregates::FromAggregatesSynthesizer;
use sds_core::reporting::ReportProgress;
use sds_core::value_combination::ValueCombination;

struct RecordingReporter {
    values: Vec<u64>,
}

impl ReportProgress for RecordingReporter {
    fn report(&mut self, percentage: u64) {
        self.values.push(percentage);
    }
}

fn row(values: &[&str]) -> DataBlockRecord {
    DataBlockRecord { values: values.iter().map(|v| v.to_string()).collect() }
}

fn test_block() -> DataBlock {
    DataBlock::new(
        vec!["A".to_string(), "B".to_string(), "C".to_string(), "D".to_string()],
        vec![
            row(&["a1", "b1", "c1", "d1"]),
            row(&["a2", "b2", "", "d2"]),
            row(&["a1", "b2", "", "d3"]),
        ],
    )
    .unwrap()
}

fn value(col: usize, text: &str) -> DataBlockValue {
    DataBlockValue::new(col, text.to_string())
}

fn combo(attrs: Vec<DataBlockValue>) -> ValueCombination {
    ValueCombination::new(attrs)
}

fn aggregate_block(db: DataBlock, reporting_length: usize) -> sds_core::aggregated_data::AggregatedData {
    let mut reporter: Option<RecordingReporter> = None;
    Aggregator::new(db).aggregate(reporting_length, &mut reporter)
}

#[test]
fn value_combination_is_order_independent() {
    let c1 = combo(vec![value(1, "b2"), value(0, "a1"), value(3, "d3")]);
    let c2 = combo(vec![value(3, "d3"), value(0, "a1"), value(1, "b2")]);
    assert!(c1.eq_combination(&c2));
    assert_eq!(c1.attrs[0].column_index, 0);
    assert_eq!(c1.attrs[1].column_index, 1);
    assert_eq!(c1.attrs[2].column_index, 3);
    assert!(c1.contains_value(&value(0, "a1")));
    assert!(c1.contains_value(&value(3, "d3")));
    assert!(!c1.contains_value(&value(3, "a1")));
    assert!(!c2.contains_value(&value(2, "c1")));
}

#[test]
fn aggregate_counts_single_and_paired_attributes() {
    let agg = aggregate_block(test_block(), 2);
    assert_eq!(agg.reporting_length, 2);
    assert_eq!(agg.count_for(&combo(vec![value(0, "a1")])), 2);
    assert_eq!(agg.count_for(&combo(vec![value(1, "b2")])), 2);
    assert_eq!(agg.count_for(&combo(vec![value(2, "c1")])), 1);
    assert_eq!(agg.count_for(&combo(vec![value(0, "a1"), value(1, "b2")])), 1);
    assert_eq!(agg.count_for(&combo(vec![value(0, "a1"), value(1, "b1")])), 1);
    assert_eq!(agg.count_for(&combo(vec![value(0, "a2"), value(1, "b1")])), 0);
}

#[test]
fn aggregate_counts_are_order_independent() {
    let agg1 = aggregate_block(test_block(), 3);
    let reordered = DataBlock::new(
        vec!["A".to_string(), "B".to_string(), "C".to_string(), "D".to_string()],
        vec![
            row(&["a1", "b2", "", "d3"]),
            row(&["a1", "b1", "c1", "d1"]),
            row(&["a2", "b2", "", "d2"]),
        ],
    )
    .unwrap();
    let agg2 = aggregate_block(reordered, 3);
    assert_eq!(agg1.aggregates_count.len(), agg2.aggregates_count.len());
    for (c, n) in &agg1.aggregates_count {
        assert_eq!(agg2.count_for(c), *n, "count differs for a combination");
    }
}

fn synthesizer(db: DataBlock, resolution: usize) -> FromAggregatesSynthesizer {
    let agg = aggregate_block(db.clone_block(), 2);
    FromAggregatesSynthesizer::new(db, resolution, 16, ConsolidateParameters::new(agg))
}

#[test]
fn run_on_empty_data_block_returns_empty_and_reports_nothing() {
    let db = DataBlock::new(vec!["A".to_string()], vec![]).unwrap();
    let mut s = synthesizer(db, 2);
    let mut reporter = Some(RecordingReporter { values: Vec::new() });
    let records = s.run(&mut reporter);
    assert!(records.is_empty());
    assert!(reporter.unwrap().values.is_empty());
}

#[test]
fn run_produces_protected_number_of_records() {
    let mut s = synthesizer(test_block(), 2);
    let mut reporter: Option<RecordingReporter> = None;
    let records = s.run(&mut reporter);
    assert_eq!(records.len(), 2);
}

#[test]
fn consolidated_records_never_repeat_a_column() {
    let mut s = synthesizer(test_block(), 1);
    let mut reporter: Option<RecordingReporter> = None;
    let records = s.run(&mut reporter);
    assert_eq!(records.len(), 3);
    for record in &records {
        for i in 0..record.attrs.len() {
            for j in (i + 1)..record.attrs.len() {
                assert_ne!(record.attrs[i].column_index, record.attrs[j].column_index);
            }
        }
    }
}

fn occurrences(records: &[ValueCombination], col: usize, text: &str) -> usize {
    records
        .iter()
        .filter(|r| r.attrs.iter().any(|a| a.column_index == col && a.value == text))
        .count()
}

#[test]
fn suppression_keeps_occurrences_within_protected_counts() {
    let mut s = synthesizer(test_block(), 2);
    let mut reporter: Option<RecordingReporter> = None;
    let records = s.run(&mut reporter);
    // with resolution 2, attributes occurring twice keep at most two
    // occurrences and attributes occurring once are suppressed entirely
    assert!(occurrences(&records, 0, "a1") <= 2);
    assert!(occurrences(&records, 1, "b2") <= 2);
    assert_eq!(occurrences(&records, 2, "c1"), 0);
    assert_eq!(occurrences(&records, 3, "d1"), 0);
    assert_eq!(occurrences(&records, 0, "a2"), 0);
}

#[test]
fn fully_suppressed_records_are_kept_empty() {
    let mut s = synthesizer(test_block(), 3);
    let mut reporter: Option<RecordingReporter> = None;
    let records = s.run(&mut reporter);
    // every single-attribute count is below the resolution, so every
    // occurrence is suppressed; the record set keeps its size
    assert_eq!(records.len(), 3);
    for record in &records {
        assert!(record.attrs.is_empty());
    }
}

#[test]
fn overall_progress_reaches_one_hundred_percent() {
    let mut s = synthesizer(test_block(), 1);
    let mut reporter = Some(RecordingReporter { values: Vec::new() });
    let records = s.run(&mut reporter);
    assert_eq!(records.len(), 3);
    let values = reporter.unwrap().values;
    assert!(!values.is_empty());
    // consolidation alone caps at 70; both phases done give exactly 100
    assert_eq!(*values.last().unwrap(), 100);
    assert!(values.iter().all(|v| *v <= 100));
}

#[test]
fn number_of_records_matches_ingested_rows() {
    assert_eq!(test_block().number_of_records(), 3);
    let db = DataBlock::new(vec!["A".to_string()], vec![row(&["x"]), row(&["y"])]).unwrap();
    assert_eq!(db.number_of_records(), 2);
}

#[test]
fn protected_count_is_a_multiple_below_the_total() {
    let db = test_block();
    for resolution in 1..5usize {
        let p = db.protected_number_of_records(resolution);
        assert_eq!(p % resolution, 0);
        assert!(p <= db.number_of_records());
    }
    assert_eq!(db.protected_number_of_records(1), 3);
    assert_eq!(db.protected_number_of_records(3), 3);
    assert_eq!(db.protected_number_of_records(4), 0);
}
