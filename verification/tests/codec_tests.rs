use seating::codec::{decode, encode_find, encode_purchase, encode_reserve, parse_u32, tokenize, u32_to_string, Command, ParseError};
use seating::seating::SeatRef;

#[test]
fn tokenize_splits_on_whitespace() {
    let toks = tokenize("  find   VIP\t3 \r\n");
    assert_eq!(toks, vec!["find".to_string(), "VIP".to_string(), "3".to_string()]);
    assert!(tokenize("").is_empty());
    assert!(tokenize("   \t ").is_empty());
    assert_eq!(tokenize("reserve"), vec!["reserve".to_string()]);
}

#[test]
fn parse_u32_accepts_numerals_only() {
    assert_eq!(parse_u32("0"), Some(0));
    assert_eq!(parse_u32("42"), Some(42));
    assert_eq!(parse_u32("007"), Some(7));
    assert_eq!(parse_u32("4294967295"), Some(u32::MAX));
    assert_eq!(parse_u32("4294967296"), None);
    assert_eq!(parse_u32(""), None);
    assert_eq!(parse_u32("12a"), None);
    assert_eq!(parse_u32("-1"), None);
    assert_eq!(parse_u32("1 2"), None);
}

#[test]
fn u32_to_string_renders_decimal() {
    assert_eq!(u32_to_string(0), "0");
    assert_eq!(u32_to_string(7), "7");
    assert_eq!(u32_to_string(10), "10");
    assert_eq!(u32_to_string(305), "305");
    assert_eq!(u32_to_string(u32::MAX), "4294967295");
}

#[test]
fn decode_find() {
    match decode(&tokenize("find VIP 3")) {
        Ok(Command::Find { category, count }) => {
            assert_eq!(category, "VIP");
            assert_eq!(count, 3);
        },
        _ => panic!("expected a find command"),
    }
}

#[test]
fn decode_reserve_and_purchase() {
    match decode(&tokenize("reserve VIP ZonaA 1 1 2 3")) {
        Ok(Command::Reserve { category, zone, row, seats }) => {
            assert_eq!(category, "VIP");
            assert_eq!(zone, "ZonaA");
            assert_eq!(row, 1);
            assert_eq!(seats, vec![1, 2, 3]);
        },
        _ => panic!("expected a reserve command"),
    }
    match decode(&tokenize("purchase General ZonaD 2 4")) {
        Ok(Command::Purchase { category, zone, row, seats }) => {
            assert_eq!(category, "General");
            assert_eq!(zone, "ZonaD");
            assert_eq!(row, 2);
            assert_eq!(seats, vec![4]);
        },
        _ => panic!("expected a purchase command"),
    }
}

#[test]
fn decode_rejects_unknown_commands() {
    assert_eq!(decode(&tokenize("")), Err(ParseError::UnknownCommand));
    assert_eq!(decode(&tokenize("hello VIP 3")), Err(ParseError::UnknownCommand));
    assert_eq!(decode(&tokenize("FIND VIP 3")), Err(ParseError::UnknownCommand));
}

#[test]
fn decode_rejects_bad_find() {
    assert_eq!(decode(&tokenize("find VIP")), Err(ParseError::InvalidFind));
    assert_eq!(decode(&tokenize("find VIP 3 4")), Err(ParseError::InvalidFind));
    assert_eq!(decode(&tokenize("find VIP three")), Err(ParseError::InvalidFind));
    assert_eq!(decode(&tokenize("find VIP 0")), Err(ParseError::InvalidFind));
    assert_eq!(decode(&tokenize("find VIP 4294967296")), Err(ParseError::InvalidFind));
}

#[test]
fn decode_rejects_bad_reserve_and_purchase() {
    assert_eq!(decode(&tokenize("reserve VIP ZonaA 1")), Err(ParseError::InvalidReserve));
    assert_eq!(decode(&tokenize("reserve VIP ZonaA one 1")), Err(ParseError::InvalidReserve));
    assert_eq!(decode(&tokenize("reserve VIP ZonaA 0 1")), Err(ParseError::InvalidReserve));
    assert_eq!(decode(&tokenize("reserve VIP ZonaA 1 0")), Err(ParseError::InvalidReserve));
    assert_eq!(decode(&tokenize("reserve VIP ZonaA 1 2 x")), Err(ParseError::InvalidReserve));
    assert_eq!(decode(&tokenize("purchase VIP ZonaA 1")), Err(ParseError::InvalidPurchase));
    assert_eq!(decode(&tokenize("purchase VIP ZonaA 1 zero")), Err(ParseError::InvalidPurchase));
}

#[test]
fn error_messages_name_the_expected_shape() {
    assert_eq!(ParseError::UnknownCommand.message(), "Unknown command");
    assert_eq!(
        ParseError::InvalidFind.message(),
        "Invalid request. Expected: find <category> <count>"
    );
    assert_eq!(
        ParseError::InvalidReserve.message(),
        "Invalid request. Expected: reserve <category> <zone> <row> <seat> [<seat> ...]"
    );
    assert_eq!(
        ParseError::InvalidPurchase.message(),
        "Invalid request. Expected: purchase <category> <zone> <row> <seat> [<seat> ...]"
    );
}

#[test]
fn encode_find_formats_each_seat_line() {
    let found = vec![
        SeatRef { zone: "ZonaA".to_string(), row: 1, number: 1 },
        SeatRef { zone: "ZonaA".to_string(), row: 1, number: 2 },
        SeatRef { zone: "ZonaA".to_string(), row: 12, number: 30 },
    ];
    assert_eq!(
        encode_find(&found),
        "Zone: ZonaA, Row: 1, Seat: 1\nZone: ZonaA, Row: 1, Seat: 2\nZone: ZonaA, Row: 12, Seat: 30"
    );
    assert_eq!(encode_find(&Vec::new()), "No free seats found");
}

#[test]
fn encode_outcomes() {
    assert_eq!(encode_reserve(true), "Seats reserved successfully");
    assert_eq!(encode_reserve(false), "Failed to reserve seats");
    assert_eq!(encode_purchase(true), "Seats purchased successfully");
    assert_eq!(encode_purchase(false), "Failed to purchase seats");
}
