use tricord::quantity::Quantity;
use tricord::record::{
    format_hms, BenchmarkRecord, TickRecord, TRACE_TSV_HEADER, TSV_HEADER,
};

fn q(value: f64) -> Quantity {
    Quantity::from_bits(value.to_bits())
}

fn some(value: f64) -> Option<Quantity> {
    Some(q(value))
}

#[test]
fn header_matches_snakemake() {
    assert_eq!(
        TSV_HEADER,
        "s\th:m:s\tmax_rss\tmax_vms\tmax_uss\tmax_pss\tio_in\tio_out\tmean_load\tcpu_time"
    );
}

#[test]
fn hms_zero() {
    assert_eq!(format_hms(q(0.0)), "0:00:00");
}

#[test]
fn hms_seconds() {
    assert_eq!(format_hms(q(7.9)), "0:00:07");
    assert_eq!(format_hms(q(59.0)), "0:00:59");
}

#[test]
fn hms_minutes_hours() {
    assert_eq!(format_hms(q(60.0)), "0:01:00");
    assert_eq!(format_hms(q(3661.0)), "1:01:01");
}

#[test]
fn hms_days_singular_and_plural() {
    assert_eq!(format_hms(q(86400.0)), "1 day, 0:00:00");
    assert_eq!(format_hms(q(176461.0)), "2 days, 1:01:01");
}

#[test]
fn hms_of_negative_and_huge_amounts() {
    assert_eq!(format_hms(q(-5.0)), "0:00:00");
    assert_eq!(format_hms(q(86399.0)), "23:59:59");
    assert_eq!(
        format_hms(q(1e30)),
        "213503982334601 days, 7:00:15"
    );
    assert_eq!(format_hms(q(f64::INFINITY)), "213503982334601 days, 7:00:15");
    assert_eq!(format_hms(q(f64::NAN)), "0:00:00");
    assert_eq!(format_hms(q(f64::NEG_INFINITY)), "0:00:00");
}

#[test]
fn tsv_row_no_data_uses_na_placeholders() {
    let record = BenchmarkRecord {
        running_time: q(0.1234),
        data_collected: false,
        ..Default::default()
    };
    assert_eq!(record.to_tsv_row(), "0.1234\t0:00:00\tNA\tNA\tNA\tNA\tNA\tNA\tNA\tNA");
}

#[test]
fn tsv_row_full_data() {
    let record = BenchmarkRecord {
        running_time: q(12.3456),
        max_rss: some(101.5),
        max_vms: some(2048.0),
        max_uss: some(95.2),
        max_pss: some(96.0),
        io_in: some(1.25),
        io_out: some(0.5),
        mean_load: q(175.0),
        cpu_time: q(21.6),
        data_collected: true,
        ..Default::default()
    };
    assert_eq!(
        record.to_tsv_row(),
        "12.3456\t0:00:12\t101.50\t2048.00\t95.20\t96.00\t1.25\t0.50\t175.00\t21.60"
    );
}

#[test]
fn tsv_row_missing_io_renders_dash() {
    let record = BenchmarkRecord {
        running_time: q(1.0),
        max_rss: some(10.0),
        max_vms: some(20.0),
        max_uss: some(8.0),
        max_pss: None,
        io_in: None,
        io_out: None,
        mean_load: q(0.0),
        cpu_time: q(0.0),
        data_collected: true,
        ..Default::default()
    };
    assert_eq!(record.to_tsv_row(), "1.0000\t0:00:01\t10.00\t20.00\t8.00\t-\t-\t-\t0.00\t0.00");
}

#[test]
fn tsv_document_has_header_and_row() {
    let record =
        BenchmarkRecord { running_time: q(0.5), data_collected: false, ..Default::default() };
    let doc = record.to_tsv_document();
    let mut lines = doc.lines();
    assert_eq!(lines.next(), Some(TSV_HEADER));
    assert!(lines.next().is_some_and(|line| line.starts_with("0.5000\t")));
    assert_eq!(lines.next(), None);
    assert!(doc.ends_with('\n'));
}

#[test]
fn trace_header_lists_per_tick_columns() {
    assert_eq!(TRACE_TSV_HEADER, "s\trss\tvms\tuss\tpss\tio_in\tio_out\tcpu_time\tn_procs");
}

#[test]
fn tick_row_full_data() {
    let tick = TickRecord {
        elapsed: q(0.5012),
        rss: q(102.3),
        vms: q(2048.0),
        uss: some(95.2),
        pss: some(96.0),
        io_in: some(1.25),
        io_out: some(0.5),
        cpu_time: q(0.75),
        n_procs: 3,
        ..Default::default()
    };
    assert_eq!(tick.to_tsv_row(), "0.5012\t102.30\t2048.00\t95.20\t96.00\t1.25\t0.50\t0.75\t3");
}

#[test]
fn tick_row_missing_optionals_render_as_dash() {
    let tick = TickRecord {
        elapsed: q(1.0),
        rss: q(10.0),
        vms: q(20.0),
        uss: None,
        pss: None,
        io_in: None,
        io_out: None,
        cpu_time: q(0.0),
        n_procs: 1,
        ..Default::default()
    };
    assert_eq!(tick.to_tsv_row(), "1.0000\t10.00\t20.00\t-\t-\t-\t-\t0.00\t1");
}

#[test]
fn wall_time_of_fifty_microseconds_rounds_as_its_double_does() {
    let record = BenchmarkRecord { running_time: q(0.00005), ..Default::default() };
    assert!(record.to_tsv_row().starts_with("0.0001\t0:00:00\tNA"));
}

#[test]
fn every_row_has_the_columns_of_its_header() {
    let columns = TSV_HEADER.split('\t').count();
    assert_eq!(columns, 10);
    let empty = BenchmarkRecord::default();
    assert_eq!(empty.to_tsv_row().split('\t').count(), columns);
    let full = BenchmarkRecord { data_collected: true, ..Default::default() };
    assert_eq!(full.to_tsv_row().split('\t').count(), columns);
    assert_eq!(
        TickRecord::default().to_tsv_row().split('\t').count(),
        TRACE_TSV_HEADER.split('\t').count()
    );
}

#[test]
fn summary_line_names_each_value_with_its_unit() {
    let record = BenchmarkRecord {
        running_time: q(12.3456),
        max_rss: some(101.5),
        max_uss: some(95.2),
        io_in: some(1.25),
        io_out: None,
        mean_load: q(175.5),
        cpu_time: q(21.6),
        data_collected: true,
        ..Default::default()
    };
    assert_eq!(
        record.summary_line(),
        "wall=12.35s cpu=21.60s mean_load=176% max_rss=101.5MiB max_uss=95.2MiB io_in=1.2MiB io_out=-"
    );
}

#[test]
fn default_records_hold_nothing() {
    let record = BenchmarkRecord::default();
    assert!(!record.data_collected);
    assert!(record.max_rss.is_none() && record.page_cache_end.is_none());
    assert_eq!(record.peak_n_procs, 0);
    assert_eq!(record.running_time.to_fixed(1), "0.0");
    let tick = TickRecord::default();
    assert!(tick.uss.is_none() && tick.n_threads.is_none());
    assert_eq!(tick.n_procs, 0);
}
