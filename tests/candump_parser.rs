use canutil::candump_parser::{dump_entry, CanFrame, DumpEntry, ParseError, Timestamp};

#[test]
fn it_works() {
    let exp = DumpEntry {
        timestamp: Timestamp {
            seconds: 1547046014,
            nanos: 597158,
        },
        can_interface: "vcan0".to_string(),
        can_frame: CanFrame {
            frame_id: 123,
            frame_body: 455,
        },
    };
    assert_eq!(
        dump_entry("(1547046014.597158) vcan0 7B#1C7"),
        Ok(("", exp))
    );
}

#[test]
fn getters_return_fields() {
    let (_, e) = dump_entry("(1547046014.597158) vcan0 7B#1C7").unwrap();
    assert_eq!(e.timestamp().seconds, 1547046014);
    assert_eq!(e.timestamp().nanos, 597158);
    assert_eq!(e.can_interface(), "vcan0");
    assert_eq!(e.can_frame().frame_id, 0x7B);
    assert_eq!(e.can_frame().frame_body, 0x1C7);
}

#[test]
fn garbage_is_rejected() {
    assert_eq!(dump_entry("garbage"), Err(ParseError));
    assert_eq!(dump_entry(""), Err(ParseError));
}

#[test]
fn trailing_input_is_returned() {
    let (rest, e) = dump_entry("(1.2) can0 1#FF rest").unwrap();
    assert_eq!(rest, " rest");
    assert_eq!(e.can_frame().frame_body, 0xFF);
    let (rest, _) = dump_entry("(1.2) can0 1#F×").unwrap();
    assert_eq!(rest, "×");
}

#[test]
fn spaces_are_optional() {
    let (rest, e) = dump_entry("(10.000020)can1\t 7b#aB").unwrap();
    assert_eq!(rest, "");
    assert_eq!(e.timestamp().seconds, 10);
    assert_eq!(e.timestamp().nanos, 20);
    assert_eq!(e.can_interface(), "can1");
    assert_eq!(e.can_frame().frame_id, 0x7b);
    assert_eq!(e.can_frame().frame_body, 0xab);
}

#[test]
fn nanos_keep_all_digits() {
    let (_, e) = dump_entry("(0.12345678901) vcan0 1#1").unwrap();
    assert_eq!(e.timestamp().nanos, 12345678901);
}

#[test]
fn numbers_must_fit() {
    assert!(dump_entry("(18446744073709551615.0) vcan0 1#1").is_ok());
    assert_eq!(dump_entry("(18446744073709551616.0) vcan0 1#1"), Err(ParseError));
    let (_, e) = dump_entry("(1.0) vcan0 FFFFFFFF#FFFFFFFFFFFFFFFF").unwrap();
    assert_eq!(e.can_frame().frame_id, u32::MAX);
    assert_eq!(e.can_frame().frame_body, u64::MAX);
    assert_eq!(dump_entry("(1.0) vcan0 100000000#1"), Err(ParseError));
    assert_eq!(dump_entry("(1.0) vcan0 1#10000000000000000"), Err(ParseError));
}

#[test]
fn each_rule_must_match() {
    assert_eq!(dump_entry("1547046014.597158) vcan0 7B#1C7"), Err(ParseError));
    assert_eq!(dump_entry("(.597158) vcan0 7B#1C7"), Err(ParseError));
    assert_eq!(dump_entry("(1547046014,597158) vcan0 7B#1C7"), Err(ParseError));
    assert_eq!(dump_entry("(1547046014.) vcan0 7B#1C7"), Err(ParseError));
    assert_eq!(dump_entry("(1547046014.597158 vcan0 7B#1C7"), Err(ParseError));
    assert_eq!(dump_entry("(1547046014.597158) 7B#1C7"), Err(ParseError));
    assert_eq!(dump_entry("(1547046014.597158) vcan0 #1C7"), Err(ParseError));
    assert_eq!(dump_entry("(1547046014.597158) vcan0 7B1C7"), Err(ParseError));
    assert_eq!(dump_entry("(1547046014.597158) vcan0 7B#"), Err(ParseError));
    assert_eq!(dump_entry("(1547046014.597158) vcan0 7B#xyz"), Err(ParseError));
}
