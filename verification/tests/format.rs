use tricord::format::{to_markdown_document, write_to, OutputFormat};
use tricord::quantity::Quantity;
use tricord::record::BenchmarkRecord;

fn q(value: f64) -> Quantity {
    Quantity::from_bits(value.to_bits())
}

fn sample_record() -> BenchmarkRecord {
    BenchmarkRecord {
        running_time: q(0.5),
        max_rss: Some(q(8.0)),
        max_vms: Some(q(64.0)),
        max_uss: Some(q(7.0)),
        max_pss: Some(q(7.5)),
        io_in: Some(q(1.0)),
        io_out: Some(q(0.25)),
        mean_load: q(100.0),
        cpu_time: q(0.5),
        data_collected: true,
        ..Default::default()
    }
}

fn json_of(record: &BenchmarkRecord) -> String {
    let mut fields = serde_json::Map::new();
    fields.insert(
        "data_collected".to_string(),
        serde_json::Value::Bool(record.data_collected),
    );
    serde_json::Value::Object(fields).to_string()
}

#[test]
fn tsv_writer_emits_header_and_data_row() {
    let mut text = String::new();
    write_to(&sample_record(), &mut text, OutputFormat::Tsv, "");
    let lines: Vec<&str> = text.lines().collect();
    assert_eq!(lines.len(), 2);
    assert!(lines[0].starts_with("s\th:m:s\t"));
    assert!(lines[1].starts_with("0.5000\t"));
    assert!(text.ends_with('\n'));
}

#[test]
fn json_writer_emits_one_object_per_line() {
    let mut buf = String::new();
    write_to(&sample_record(), &mut buf, OutputFormat::Json, &json_of(&sample_record()));
    let text = buf.trim_end();
    let value: serde_json::Value = serde_json::from_str(text).unwrap();
    assert!(value.is_object());
    assert_eq!(value["data_collected"], true);
}

#[test]
fn json_writer_puts_no_newline_behind_the_object() {
    let mut buf = String::new();
    write_to(&sample_record(), &mut buf, OutputFormat::Json, "{}");
    assert_eq!(buf, "{}");
}

#[test]
fn writers_append_to_what_is_there() {
    let mut buf = "before\n".to_string();
    write_to(&sample_record(), &mut buf, OutputFormat::Tsv, "");
    assert_eq!(buf, format!("before\n{}", sample_record().to_tsv_document()));
}

#[test]
fn extensions_name_the_format() {
    assert_eq!(OutputFormat::Tsv.extension(), "tsv");
    assert_eq!(OutputFormat::Json.extension(), "json");
}

#[test]
fn markdown_table_has_header_rule_and_row() {
    let text = to_markdown_document(&sample_record());
    let lines: Vec<&str> = text.lines().collect();
    assert_eq!(
        lines[0],
        "| s | h:m:s | max_rss | max_vms | max_uss | max_pss | io_in | io_out | mean_load | cpu_time |"
    );
    assert_eq!(
        lines[1],
        "| --- | --- | --- | --- | --- | --- | --- | --- | --- | --- |"
    );
    assert_eq!(
        lines[2],
        "| 0.5000 | 0:00:00 | 8.00 | 64.00 | 7.00 | 7.50 | 1.00 | 0.25 | 100.00 | 0.50 |"
    );
    assert_eq!(lines.len(), 3);
    assert!(text.ends_with('\n'));
}
