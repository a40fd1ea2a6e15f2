use fuzz_analyzer::artifact::{artifact_name, contract_id_of};
use fuzz_analyzer::decimal::push_decimal;
use fuzz_analyzer::store::{deserialize, read_row, serialize, StoreError};
use fuzz_analyzer::types::StatsEntry;

fn entry(instructions: u64, branches: u64, time: u64) -> StatsEntry {
    StatsEntry {
        instructions_covered: instructions,
        branches_covered: branches,
        time_taken_millis: time,
    }
}

#[test]
fn a_series_is_written_with_header_and_one_record_per_sample() {
    let bytes = serialize(&vec![entry(5, 2, 500), entry(10, 3, 1500)]);
    assert_eq!(
        String::from_utf8(bytes).unwrap(),
        "instructions_covered,branches_covered,time_taken_millis\n5,2,500\n10,3,1500\n"
    );
}

#[test]
fn an_empty_series_has_an_empty_artifact() {
    assert_eq!(serialize(&vec![]), Vec::<u8>::new());
    assert_eq!(deserialize(b""), Ok(vec![]));
}

#[test]
fn store_then_load_gives_the_series_back() {
    let series = vec![
        entry(0, 0, 0),
        entry(957, 49, 100),
        entry(18446744073709551615, 18446744073709551615, 18446744073709551615),
        entry(1000, 10, 7),
    ];
    assert_eq!(deserialize(&serialize(&series)), Ok(series));
}

#[test]
fn an_artifact_without_final_line_feed_is_read() {
    let text = "instructions_covered,branches_covered,time_taken_millis\n5,2,500";
    assert_eq!(deserialize(text.as_bytes()), Ok(vec![entry(5, 2, 500)]));
}

#[test]
fn a_header_alone_holds_no_sample() {
    let text = "instructions_covered,branches_covered,time_taken_millis\n";
    assert_eq!(deserialize(text.as_bytes()), Ok(vec![]));
}

#[test]
fn a_wrong_header_is_refused() {
    let text = "instructions_covered,branches_covered,time_taken_nanos\n5,2,500\n";
    assert_eq!(deserialize(text.as_bytes()), Err(StoreError::BadHeader));
    assert_eq!(deserialize(b"5,2,500\n"), Err(StoreError::BadHeader));
    assert_eq!(deserialize(b"\n"), Err(StoreError::BadHeader));
}

#[test]
fn a_corrupt_record_is_refused_with_its_line_number() {
    let text = "instructions_covered,branches_covered,time_taken_millis\n5,2,500\n5,x,500\n";
    assert_eq!(deserialize(text.as_bytes()), Err(StoreError::BadRecord { line: 3 }));
    let text = "instructions_covered,branches_covered,time_taken_millis\n5,2\n";
    assert_eq!(deserialize(text.as_bytes()), Err(StoreError::BadRecord { line: 2 }));
    let text = "instructions_covered,branches_covered,time_taken_millis\n1,2,3\n\n4,5,6\n";
    assert_eq!(deserialize(text.as_bytes()), Err(StoreError::BadRecord { line: 3 }));
}

#[test]
fn read_row_takes_three_numbers_and_nothing_else() {
    assert_eq!(read_row(b"5,2,500"), Some(entry(5, 2, 500)));
    assert_eq!(read_row(b"005,02,0500"), Some(entry(5, 2, 500)));
    assert_eq!(read_row(b"5,2,500,"), None);
    assert_eq!(read_row(b"5,2,500 "), None);
    assert_eq!(read_row(b",2,500"), None);
    assert_eq!(read_row(b"5,,500"), None);
    assert_eq!(read_row(b"5,2,"), None);
    assert_eq!(read_row(b""), None);
    assert_eq!(read_row(b"5,2,18446744073709551616"), None);
    assert_eq!(read_row(b"-5,2,3"), None);
}

#[test]
fn decimal_spelling() {
    let mut out = b"n=".to_vec();
    push_decimal(&mut out, 0);
    out.push(b';');
    push_decimal(&mut out, 1749625856722);
    out.push(b';');
    push_decimal(&mut out, u64::MAX);
    assert_eq!(String::from_utf8(out).unwrap(), "n=0;1749625856722;18446744073709551615");
}

#[test]
fn artifact_names_lead_back_to_their_targets() {
    assert_eq!(artifact_name("c1"), "c1.instructions.stats.csv");
    assert_eq!(contract_id_of("c1.instructions.stats.csv"), Some("c1".to_string()));
    assert_eq!(contract_id_of(&artifact_name("2018-ab")), Some("2018-ab".to_string()));
    assert_eq!(contract_id_of(".instructions.stats.csv"), Some(String::new()));
    assert_eq!(contract_id_of("c1.instructions.stats.csv.bak"), None);
    assert_eq!(contract_id_of("c1.csv"), None);
    assert_eq!(contract_id_of(""), None);
    assert_eq!(contract_id_of("zähler.instructions.stats.csv"), Some("zähler".to_string()));
}
