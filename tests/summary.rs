use station_stats::{parse_int, parse_value, process_task, push_tenths, ScanError, StationTable};

fn report_of(input: &[u8]) -> String {
    let table = process_task(input).expect("well-formed input");
    String::from_utf8(table.report()).unwrap()
}

fn tenths_text(t: i64) -> String {
    let mut out = Vec::new();
    push_tenths(&mut out, t);
    String::from_utf8(out).unwrap()
}

#[test]
fn three_records_two_keys() {
    assert_eq!(report_of(b"A;5.0\nB;-1.5\nA;3.0\n"), "{A=3.0/4.0/5.0,B=-1.5/-1.5/-1.5,}");
}

#[test]
fn single_zero_record() {
    assert_eq!(report_of(b"X;0.0\n"), "{X=0.0/0.0/0.0,}");
}

#[test]
fn empty_input() {
    assert_eq!(report_of(b""), "{}");
}

#[test]
fn trailing_blank_line_is_ignored() {
    assert_eq!(report_of(b"X;1.5\n\n"), "{X=1.5/1.5/1.5,}");
}

#[test]
fn split_at_line_terminator_matches_whole() {
    let whole = b"A;5.0\nB;-1.5\nA;3.0\nC;12.3\n";
    let mut merged = process_task(&whole[..13]).unwrap();
    let second = process_task(&whole[13..]).unwrap();
    assert!(merged.can_merge(&second));
    merged.merge(&second);
    let single = process_task(whole).unwrap();
    assert_eq!(merged.report(), single.report());
    assert_eq!(
        String::from_utf8(merged.report()).unwrap(),
        "{A=3.0/4.0/5.0,B=-1.5/-1.5/-1.5,C=12.3/12.3/12.3,}"
    );
}

#[test]
fn every_split_point_matches_whole() {
    let whole: &[u8] = b"k1;1.0\nk2;-2.5\nk1;9.9\nk3;0.1\nk2;-0.4\n";
    let expected = process_task(whole).unwrap().report();
    for cut in 0..=whole.len() {
        if cut > 0 && whole[cut - 1] != b'\n' {
            continue;
        }
        let mut left = process_task(&whole[..cut]).unwrap();
        let right = process_task(&whole[cut..]).unwrap();
        left.merge(&right);
        assert_eq!(left.report(), expected);
    }
}

#[test]
fn merge_with_empty_is_unchanged() {
    let base = process_task(b"A;1.0\nB;2.0\nA;-3.0\n").unwrap();
    let before = base.report();
    let mut left = process_task(b"A;1.0\nB;2.0\nA;-3.0\n").unwrap();
    left.merge(&StationTable::new());
    assert_eq!(left.report(), before);
    let mut right = StationTable::new();
    right.merge(&base);
    assert_eq!(right.report(), before);
}

#[test]
fn merge_combines_shared_keys() {
    let mut a = process_task(b"A;1.0\nA;2.0\n").unwrap();
    let b = process_task(b"A;-4.0\nB;7.5\n").unwrap();
    a.merge(&b);
    let s = a.get(b"A").unwrap();
    assert_eq!((s.min, s.max, s.sum, s.count), (-40, 20, -10, 3));
    assert_eq!(a.len(), 2);
    assert!(a.get(b"C").is_none());
}

#[test]
fn keys_come_out_in_byte_order() {
    let out = report_of(b"b;1.0\nab;1.0\na;1.0\nB;1.0\n");
    assert_eq!(out, "{B=1.0/1.0/1.0,a=1.0/1.0/1.0,ab=1.0/1.0/1.0,b=1.0/1.0/1.0,}");
}

#[test]
fn mean_lies_between_extremes() {
    let table = process_task(b"S;-99.9\nS;99.9\nS;0.1\nT;3.3\nT;3.4\n").unwrap();
    for key in [&b"S"[..], &b"T"[..]] {
        let s = table.get(key).unwrap();
        assert!(s.count >= 1);
        assert!(s.min <= s.mean() && s.mean() <= s.max);
    }
}

#[test]
fn mean_rounds_half_up() {
    assert_eq!(report_of(b"H;0.0\nH;0.1\n"), "{H=0.0/0.1/0.1,}");
    assert_eq!(report_of(b"N;0.0\nN;-0.1\n"), "{N=-0.1/0.0/0.0,}");
    assert_eq!(report_of(b"M;1.0\nM;1.1\n"), "{M=1.0/1.1/1.1,}");
    assert_eq!(report_of(b"Q;-1.0\nQ;-1.1\n"), "{Q=-1.1/-1.0/-1.0,}");
    assert_eq!(report_of(b"R;1.0\nR;1.0\nR;1.1\n"), "{R=1.0/1.0/1.1,}");
}

#[test]
fn formatting_round_trips_through_parser() {
    for t in -999i64..=999 {
        let text = tenths_text(t);
        assert_eq!(parse_value(text.as_bytes()), Some(t), "{}", text);
    }
}

#[test]
fn formatting_exact_values() {
    assert_eq!(tenths_text(0), "0.0");
    assert_eq!(tenths_text(-5), "-0.5");
    assert_eq!(tenths_text(123), "12.3");
    assert_eq!(tenths_text(-999), "-99.9");
    assert_eq!(tenths_text(10000), "1000.0");
}

#[test]
fn parse_int_reads_digits() {
    assert_eq!(parse_int(b"0"), Ok(0));
    assert_eq!(parse_int(b"42"), Ok(42));
    assert_eq!(parse_int(b"1234567890123456789"), Ok(1234567890123456789));
    assert_eq!(parse_int(b""), Ok(0));
}

#[test]
fn parse_int_rejects_non_digit() {
    assert_eq!(parse_int(b"4x"), Err(ScanError::InvalidDigit));
    assert_eq!(parse_int(b"-1"), Err(ScanError::InvalidDigit));
}

#[test]
fn parse_value_shapes() {
    assert_eq!(parse_value(b"5.0"), Some(50));
    assert_eq!(parse_value(b"-1.5"), Some(-15));
    assert_eq!(parse_value(b"99.9"), Some(999));
    assert_eq!(parse_value(b"-0.0"), Some(0));
    assert_eq!(parse_value(b"100.0"), None);
    assert_eq!(parse_value(b"1.25"), None);
    assert_eq!(parse_value(b"1"), None);
    assert_eq!(parse_value(b"1,5"), None);
    assert_eq!(parse_value(b"a.5"), None);
    assert_eq!(parse_value(b"1.x"), None);
    assert_eq!(parse_value(b""), None);
}

#[test]
fn malformed_records_report_their_offset() {
    assert_eq!(process_task(b"A;1.0\nB;1.0").err(), Some(ScanError::MalformedRecord(6)));
    assert_eq!(process_task(b"A;1.0\nB;x.0\n").err(), Some(ScanError::MalformedRecord(6)));
    assert_eq!(process_task(b"A;1.00\n").err(), Some(ScanError::MalformedRecord(0)));
    assert_eq!(process_task(b"A;10\n").err(), Some(ScanError::MalformedRecord(0)));
    assert_eq!(process_task(b"junk\nA;1.0\n").err(), Some(ScanError::MalformedRecord(0)));
}

#[test]
fn can_merge_accepts_small_counts() {
    let a = process_task(b"A;1.0\n").unwrap();
    let b = process_task(b"A;2.0\nB;3.0\n").unwrap();
    assert!(a.can_merge(&b));
}
