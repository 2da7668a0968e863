use kvs::decimal::{parse_u64, to_decimal};
use kvs::engines::logfiles::{log_file_gen_of, log_file_name, sorted_gen_list};

#[test]
fn decimal_text_of_numbers() {
    assert_eq!(to_decimal(0), "0");
    assert_eq!(to_decimal(7), "7");
    assert_eq!(to_decimal(10), "10");
    assert_eq!(to_decimal(1234567890), "1234567890");
    assert_eq!(to_decimal(u64::MAX), "18446744073709551615");
}

#[test]
fn parse_accepts_what_str_parse_accepts() {
    for s in ["0", "7", "+7", "007", "18446744073709551615", "", "+", "-1", "1a", " 1", "18446744073709551616", "99999999999999999999999", "١"] {
        assert_eq!(parse_u64(s), s.parse::<u64>().ok(), "input {:?}", s);
    }
}

#[test]
fn parse_reads_back_decimal_text() {
    for n in [0u64, 1, 9, 10, 99, 100, 4096, u64::MAX - 1, u64::MAX] {
        assert_eq!(parse_u64(&to_decimal(n)), Some(n));
    }
}

#[test]
fn log_file_name_of_generation() {
    assert_eq!(log_file_name(1), "1.log");
    assert_eq!(log_file_name(42), "42.log");
    assert_eq!(log_file_name(0), "0.log");
}

#[test]
fn log_file_name_round_trip() {
    for g in [0u64, 1, 2, 17, 1000, u64::MAX] {
        assert_eq!(log_file_gen_of(&log_file_name(g)), Some(g));
    }
}

#[test]
fn generations_of_file_names() {
    assert_eq!(log_file_gen_of("5.log"), Some(5));
    assert_eq!(log_file_gen_of("05.log"), Some(5));
    assert_eq!(log_file_gen_of("+5.log"), Some(5));
    assert_eq!(log_file_gen_of("5.log.log"), Some(5));
    assert_eq!(log_file_gen_of(".log"), None);
    assert_eq!(log_file_gen_of("a.log"), None);
    assert_eq!(log_file_gen_of("-5.log"), None);
    assert_eq!(log_file_gen_of("5.txt"), None);
    assert_eq!(log_file_gen_of("5"), None);
    assert_eq!(log_file_gen_of("5.LOG"), None);
    assert_eq!(log_file_gen_of(".log.log"), None);
    assert_eq!(log_file_gen_of("18446744073709551616.log"), None);
    assert_eq!(log_file_gen_of("engine"), None);
}

#[test]
fn sorted_generation_list() {
    let names: Vec<String> = ["3.log", "engine", "1.log", "10.log", "2.log", "x.log", "2.txt"]
        .iter()
        .map(|s| s.to_string())
        .collect();
    assert_eq!(sorted_gen_list(&names), vec![1, 2, 3, 10]);
}

#[test]
fn sorted_generation_list_keeps_repeats() {
    let names: Vec<String> = ["7.log", "07.log", "3.log"].iter().map(|s| s.to_string()).collect();
    assert_eq!(sorted_gen_list(&names), vec![3, 7, 7]);
}

#[test]
fn sorted_generation_list_of_nothing() {
    assert_eq!(sorted_gen_list(&Vec::new()), Vec::<u64>::new());
}
