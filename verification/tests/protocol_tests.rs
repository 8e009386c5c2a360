use seating::handler::handle_request;
use seating::seating::{SeatStatus, SeatingStructure};

#[test]
fn end_to_end_find_reserve_repeat() {
    let mut inv = SeatingStructure::new();
    let resp = handle_request(&mut inv, "find VIP 3");
    assert_eq!(
        resp,
        "Zone: ZonaA, Row: 1, Seat: 1\nZone: ZonaA, Row: 1, Seat: 2\nZone: ZonaA, Row: 1, Seat: 3"
    );
    assert_eq!(handle_request(&mut inv, "reserve VIP ZonaA 1 1 2 3"), "Seats reserved successfully");
    assert_eq!(handle_request(&mut inv, "reserve VIP ZonaA 1 1 2 3"), "Failed to reserve seats");
}

#[test]
fn end_to_end_purchase_unreserved_fails() {
    let mut inv = SeatingStructure::new();
    assert_eq!(handle_request(&mut inv, "purchase VIP ZonaA 1 1 2"), "Failed to purchase seats");
    // The seats were left Free by the failed purchase.
    assert_eq!(inv.categories[0].zones[0].rows[0].seats[0].status, SeatStatus::Free);
    assert_eq!(inv.categories[0].zones[0].rows[0].seats[1].status, SeatStatus::Free);
    assert_eq!(handle_request(&mut inv, "reserve VIP ZonaA 1 1 2"), "Seats reserved successfully");
    assert_eq!(handle_request(&mut inv, "purchase VIP ZonaA 1 1 2"), "Seats purchased successfully");
}

#[test]
fn end_to_end_oversized_find_reports_no_seats() {
    let mut inv = SeatingStructure::new();
    assert_eq!(handle_request(&mut inv, "find General 99"), "No free seats found");
}

#[test]
fn end_to_end_unknown_category_reports_no_seats() {
    let mut inv = SeatingStructure::new();
    assert_eq!(handle_request(&mut inv, "find Balcony 1"), "No free seats found");
}

#[test]
fn end_to_end_decode_errors() {
    let mut inv = SeatingStructure::new();
    assert_eq!(handle_request(&mut inv, "hello there"), "Unknown command");
    assert_eq!(handle_request(&mut inv, ""), "Unknown command");
    assert_eq!(
        handle_request(&mut inv, "find VIP"),
        "Invalid request. Expected: find <category> <count>"
    );
    assert_eq!(
        handle_request(&mut inv, "reserve VIP ZonaA 1"),
        "Invalid request. Expected: reserve <category> <zone> <row> <seat> [<seat> ...]"
    );
    assert_eq!(
        handle_request(&mut inv, "purchase VIP ZonaA"),
        "Invalid request. Expected: purchase <category> <zone> <row> <seat> [<seat> ...]"
    );
    // A malformed line never mutates: the full ZonaA row is still free.
    assert_eq!(handle_request(&mut inv, "reserve VIP ZonaA 1 1 2 3 4 5"), "Seats reserved successfully");
}

#[test]
fn end_to_end_find_skips_reserved_zone() {
    let mut inv = SeatingStructure::new();
    // VIP ZonaC is pre-seeded Reserved; General ZonaC is free, so the same
    // zone name under another category still serves requests.
    assert_eq!(
        handle_request(&mut inv, "find General 2"),
        "Zone: ZonaC, Row: 1, Seat: 1\nZone: ZonaC, Row: 1, Seat: 2"
    );
    assert_eq!(handle_request(&mut inv, "reserve General ZonaC 1 1 2"), "Seats reserved successfully");
    // The VIP ZonaC block stays Reserved and cannot be reserved again.
    assert_eq!(handle_request(&mut inv, "reserve VIP ZonaC 1 1"), "Failed to reserve seats");
}

#[test]
fn responses_follow_requests_in_order() {
    let mut inv = SeatingStructure::new();
    let script = [
        ("find VIP 2", "Zone: ZonaA, Row: 1, Seat: 1\nZone: ZonaA, Row: 1, Seat: 2"),
        ("reserve VIP ZonaA 1 1 2", "Seats reserved successfully"),
        ("find VIP 2", "Zone: ZonaA, Row: 1, Seat: 3\nZone: ZonaA, Row: 1, Seat: 4"),
        ("reserve VIP ZonaA 1 3 4", "Seats reserved successfully"),
        ("find VIP 2", "Zone: ZonaA, Row: 2, Seat: 1\nZone: ZonaA, Row: 2, Seat: 2"),
        ("purchase VIP ZonaA 1 1 2 3 4", "Seats purchased successfully"),
        ("purchase VIP ZonaA 1 1 2 3 4", "Failed to purchase seats"),
    ];
    for (req, expected) in script {
        assert_eq!(handle_request(&mut inv, req), expected, "request {req}");
    }
}
