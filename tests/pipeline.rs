use heart_rate_proxy::{
    classify, device_id_or_default, encode_records, escape_device_id, int_to_text, join_lines,
    pair_records, parse_heart_rate_data, parse_sample, parse_chinese_datetime, prepare_batch,
    to_influxdb_line, Config, ParseError, HeartRateRecord, Sample,
};

fn sample(text: &str) -> Sample {
    parse_sample(text).expect("a sample")
}

fn stamps_of(records: &[HeartRateRecord]) -> Vec<i64> {
    records.iter().map(|r| r.timestamp_ms).collect()
}

const T_2128: i64 = 1748870880000;
const T_2129: i64 = 1748870940000;

#[test]
fn equal_counts_keep_every_pair_in_time_order() {
    let text = "80\n2025年6月2日 21:30\n72\n2025年6月2日 21:28\n75\n2025年6月2日 21:29\n";
    let records = parse_heart_rate_data(text).unwrap();
    assert_eq!(records.len(), 3);
    assert_eq!(stamps_of(&records), vec![T_2128, T_2129, T_2129 + 60000]);
    let values: Vec<String> = records.iter().map(|r| r.value.to_text()).collect();
    assert_eq!(values, vec!["72", "75", "80"]);
}

#[test]
fn unequal_counts_pair_up_to_the_shorter() {
    let text = "72\n75\n99\n2025年6月2日 21:29\n2025年6月2日 21:28\n";
    let records = parse_heart_rate_data(text).unwrap();
    assert_eq!(records.len(), 2);
    assert_eq!(stamps_of(&records), vec![T_2128, T_2129]);
    assert_eq!(records[0].value.to_text(), "75");
    assert_eq!(records[1].value.to_text(), "72");

    let more_stamps = "60\n2025年6月2日 21:28\n2025年6月2日 21:29\n2025年6月2日 21:30\n";
    let records = parse_heart_rate_data(more_stamps).unwrap();
    assert_eq!(records.len(), 1);
    assert_eq!(records[0].timestamp_ms, T_2128);
}

#[test]
fn equal_instants_keep_their_pairing_order() {
    let samples = vec![sample("90"), sample("70"), sample("80")];
    let stamps = vec![T_2129, T_2128, T_2128];
    let records = pair_records(&samples, &stamps);
    let values: Vec<String> = records.iter().map(|r| r.value.to_text()).collect();
    assert_eq!(values, vec!["70", "80", "90"]);
}

#[test]
fn encoding_twice_gives_the_same_line() {
    let records = parse_heart_rate_data("72\n2025年6月2日 21:28").unwrap();
    let a = to_influxdb_line(&records[0], "watch 1");
    let b = to_influxdb_line(&records[0], "watch 1");
    assert_eq!(a, b);
    assert_eq!(a, "heart_rate,device_id=watch\\ 1 value=72 1748870880000");
}

#[test]
fn known_instant_reads_as_utc() {
    let m = parse_chinese_datetime("2025年6月2日 21:28").unwrap();
    assert_eq!(m, T_2128);
    assert_eq!(m % 60000, 0);
}

#[test]
fn sample_range_bounds_are_inclusive() {
    assert!(parse_sample("29.9").is_none());
    assert!(parse_sample("220.1").is_none());
    assert_eq!(parse_sample("30.0").unwrap().to_text(), "30");
    assert_eq!(parse_sample("220.0").unwrap().to_text(), "220");
    assert_eq!(parse_sample("220").unwrap().to_text(), "220");
    assert!(parse_sample("220.0001").is_none());
}

#[test]
fn device_id_spaces_and_commas_are_escaped() {
    assert_eq!(escape_device_id("my watch, 2"), "my\\ watch\\,\\ 2");
    let records = parse_heart_rate_data("72\n2025年6月2日 21:28").unwrap();
    let line = to_influxdb_line(&records[0], "my watch, 2");
    assert_eq!(line, "heart_rate,device_id=my\\ watch\\,\\ 2 value=72 1748870880000");
}

#[test]
fn end_to_end_two_records() {
    for text in [
        "72\n2025年6月2日 21:28\n75\n2025年6月2日 21:29",
        "72\n75\n2025年6月2日 21:28\n2025年6月2日 21:29",
        "2025年6月2日 21:28\n2025年6月2日 21:29\n72\n75\n",
    ] {
        let (samples, stamps) = classify(text);
        let values: Vec<String> = samples.iter().map(|s| s.to_text()).collect();
        assert_eq!(values, vec!["72", "75"]);
        assert_eq!(stamps, vec![T_2128, T_2129]);
        let lines = prepare_batch(text, "apple-watch").unwrap();
        assert_eq!(
            lines,
            vec![
                "heart_rate,device_id=apple-watch value=72 1748870880000".to_string(),
                "heart_rate,device_id=apple-watch value=75 1748870940000".to_string(),
            ]
        );
        assert_eq!(T_2129 - T_2128, 60000);
    }
}

#[test]
fn unrecognized_text_gives_no_valid_pairs() {
    let text = "Heart Rate\nsome note\n5.0\n\n   \n2025-06-02 21:28\n";
    assert_eq!(parse_heart_rate_data(text).err(), Some(ParseError::NoValidPairs));
    assert_eq!(prepare_batch(text, "apple-watch").err(), Some(ParseError::NoValidPairs));
    assert_eq!(parse_heart_rate_data("").err(), Some(ParseError::NoValidPairs));
    assert_eq!(parse_heart_rate_data("72\n80").err(), Some(ParseError::NoValidPairs));
}

#[test]
fn out_of_range_number_is_dropped() {
    let (samples, stamps) = classify("5.0\n300\n-72\n72");
    assert_eq!(samples.len(), 1);
    assert!(stamps.is_empty());
}

#[test]
fn sample_text_is_shortest_decimal() {
    assert_eq!(sample("72.50").to_text(), "72.5");
    assert_eq!(sample("+072").to_text(), "72");
    assert_eq!(sample("72.").to_text(), "72");
}

#[test]
fn malformed_numbers_are_not_samples() {
    assert!(parse_sample(".").is_none());
    assert!(parse_sample("7 2").is_none());
    assert!(parse_sample("72.5.1").is_none());
    assert!(parse_sample("").is_none());
    assert!(parse_sample("abc").is_none());
}

#[test]
fn invalid_calendar_values_are_not_instants() {
    assert_eq!(parse_chinese_datetime("2025年13月2日 21:28"), None);
    assert_eq!(parse_chinese_datetime("2025年6月32日 21:28"), None);
    assert_eq!(parse_chinese_datetime("2025年2月29日 10:00"), None);
    assert_eq!(parse_chinese_datetime("2025年6月2日 24:00"), None);
    assert_eq!(parse_chinese_datetime("2025年6月2日 21:60"), None);
    assert_eq!(parse_chinese_datetime("2025年6月2日21:28"), None);
    assert_eq!(parse_chinese_datetime("2024年2月29日 08:00"), Some(1709164800000));
}

#[test]
fn instant_is_found_inside_a_longer_line() {
    assert_eq!(parse_chinese_datetime("at 2025年6月2日  21:28 local"), Some(T_2128));
    assert_eq!(parse_chinese_datetime("2025年06月02日 21:28:59"), Some(T_2128));
    assert_eq!(parse_chinese_datetime("2025年6月2日\t9:05"), Some(T_2128 - 12 * 3600000 - 23 * 60000));
}

#[test]
fn instants_before_the_epoch_are_negative() {
    let m = parse_chinese_datetime("1969年12月31日 10:00").unwrap();
    assert_eq!(m, -79200000);
    assert_eq!(int_to_text(m), "-79200000");
    assert_eq!(int_to_text(0), "0");
    assert_eq!(int_to_text(i64::MIN), "-9223372036854775808");
}

#[test]
fn lines_are_trimmed_and_carriage_returns_ignored() {
    let text = "  72  \r\n\t2025年6月2日 21:28\r\n";
    let records = parse_heart_rate_data(text).unwrap();
    assert_eq!(records.len(), 1);
    assert_eq!(records[0].value.to_text(), "72");
}

#[test]
fn batch_lines_and_body() {
    let records = parse_heart_rate_data("72\n2025年6月2日 21:28\n75\n2025年6月2日 21:29").unwrap();
    let lines = encode_records(&records, "w");
    assert_eq!(lines.len(), 2);
    let body = join_lines(&lines);
    assert_eq!(
        body,
        "heart_rate,device_id=w value=72 1748870880000\nheart_rate,device_id=w value=75 1748870940000"
    );
    assert_eq!(join_lines(&Vec::new()), "");
}

#[test]
fn write_url_and_default_device() {
    let c = Config::new("http://127.0.0.1".to_string(), "heartbeat_test".to_string());
    assert_eq!(
        c.write_url(),
        "http://127.0.0.1/v1/influxdb/api/v2/write?db=heartbeat_test&precision=ms"
    );
    assert_eq!(device_id_or_default(None), "apple-watch");
    assert_eq!(device_id_or_default(Some("w".to_string())), "w");
}

#[test]
fn exponent_notation_is_read() {
    assert_eq!(sample("7.2e1").to_text(), "72");
    assert_eq!(sample("3E1").to_text(), "30");
    assert_eq!(sample("2.2e2").to_text(), "220");
    assert_eq!(sample("22e+1").to_text(), "220");
    assert_eq!(sample("2200e-1").to_text(), "220");
    assert_eq!(sample("0.0000725e6").to_text(), "72.5");
    assert_eq!(sample("+72.50e0").to_text(), "72.5");
    assert!(parse_sample("2.205e2").is_none());
    assert!(parse_sample("2.99e1").is_none());
    assert!(parse_sample("72e").is_none());
    assert!(parse_sample("e5").is_none());
    assert!(parse_sample("72e+").is_none());
    assert!(parse_sample("1e400").is_none());
    assert!(parse_sample("72e-99999999999999999999").is_none());
    assert!(parse_sample(".5").is_none());
    assert!(parse_sample("-72").is_none());
}

#[test]
fn leftmost_written_instant_is_taken() {
    assert_eq!(parse_chinese_datetime("12025年6月2日 21:28"), Some(T_2128));
    assert_eq!(
        parse_chinese_datetime("2025年6月2日 21:28 2025年6月2日 21:29"),
        Some(T_2128)
    );
    assert_eq!(parse_chinese_datetime("2025年123月2日 21:28"), None);
    assert_eq!(parse_chinese_datetime("2025年6月2日 123:28"), None);
}

#[test]
fn interleaving_of_kinds_does_not_change_records() {
    let a = parse_heart_rate_data("72\n2025年6月2日 21:28\n75\n2025年6月2日 21:29").unwrap();
    let b = parse_heart_rate_data("72\nnote\n75\n2025年6月2日 21:28\n2025年6月2日 21:29").unwrap();
    assert_eq!(a.len(), 2);
    assert_eq!(b.len(), a.len());
    for (x, y) in a.iter().zip(b.iter()) {
        assert_eq!(x.value.to_text(), y.value.to_text());
        assert_eq!(x.timestamp_ms, y.timestamp_ms);
    }
    assert_eq!(stamps_of(&a), vec![T_2128, T_2129]);
}
