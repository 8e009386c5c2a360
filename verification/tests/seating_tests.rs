use seating::seating::{Row, Seat, SeatRef, SeatStatus, SeatingStructure, Zone, Category};

fn seat(number: u32, status: SeatStatus) -> Seat {
    Seat { status, vision_percentage: 50, number }
}

fn refs(zone: &str, row: u32, numbers: &[u32]) -> Vec<SeatRef> {
    numbers
        .iter()
        .map(|n| SeatRef { zone: zone.to_string(), row, number: *n })
        .collect()
}

fn seat_status(inv: &SeatingStructure, cat: &str, zone: &str, row: u32, number: u32) -> SeatStatus {
    for c in &inv.categories {
        if c.name == cat {
            for z in &c.zones {
                if z.name == zone {
                    for r in &z.rows {
                        if r.number == row {
                            for s in &r.seats {
                                if s.number == number {
                                    return s.status;
                                }
                            }
                        }
                    }
                }
            }
        }
    }
    panic!("seat not found");
}

#[test]
fn fixture_layout() {
    let inv = SeatingStructure::new();
    assert_eq!(inv.categories.len(), 2);
    assert_eq!(inv.categories[0].name, "VIP");
    assert_eq!(inv.categories[1].name, "General");
    let vip = &inv.categories[0];
    assert_eq!(vip.zones.len(), 3);
    assert_eq!(vip.zones[0].name, "ZonaA");
    assert_eq!(vip.zones[1].name, "ZonaB");
    assert_eq!(vip.zones[2].name, "ZonaC");
    for z in &vip.zones {
        assert_eq!(z.rows.len(), 5);
        for (ri, r) in z.rows.iter().enumerate() {
            assert_eq!(r.number, ri as u32 + 1);
            assert_eq!(r.seats.len(), 5);
            for (si, s) in r.seats.iter().enumerate() {
                assert_eq!(s.number, si as u32 + 1);
            }
        }
    }
    // Every VIP ZonaC seat is pre-seeded Reserved; everything else is Free.
    for s in &vip.zones[2].rows[0].seats {
        assert_eq!(s.status, SeatStatus::Reserved);
    }
    for s in &vip.zones[0].rows[0].seats {
        assert_eq!(s.status, SeatStatus::Free);
    }
    // Vision rules: ZonaA favours seat 1; ZonaB every third seat.
    assert_eq!(vip.zones[0].rows[0].seats[0].vision_percentage, 100);
    assert_eq!(vip.zones[0].rows[0].seats[1].vision_percentage, 50);
    assert_eq!(vip.zones[1].rows[0].seats[2].vision_percentage, 100);
    assert_eq!(vip.zones[1].rows[0].seats[0].vision_percentage, 50);
    let gen = &inv.categories[1];
    assert_eq!(gen.zones[0].name, "ZonaC");
    assert_eq!(gen.zones[1].name, "ZonaD");
    assert_eq!(gen.zones[2].name, "ZonaE");
    assert_eq!(gen.zones[1].rows[0].seats[4].vision_percentage, 100);
    assert_eq!(gen.zones[2].rows[0].seats[4].vision_percentage, 75);
}

#[test]
fn free_seats_counts_only_free() {
    let row = Row {
        number: 1,
        seats: vec![
            seat(1, SeatStatus::Free),
            seat(2, SeatStatus::Reserved),
            seat(3, SeatStatus::Free),
            seat(4, SeatStatus::Purchased),
            seat(5, SeatStatus::Free),
        ],
    };
    assert_eq!(row.free_seats(), 3);
    let empty = Row { number: 2, seats: vec![] };
    assert_eq!(empty.free_seats(), 0);
}

#[test]
fn find_returns_first_run_of_exact_count() {
    let inv = SeatingStructure::new();
    let found = inv.find_available("VIP", 3);
    assert_eq!(found.len(), 3);
    for (k, r) in found.iter().enumerate() {
        assert_eq!(r.zone, "ZonaA");
        assert_eq!(r.row, 1);
        assert_eq!(r.number, k as u32 + 1);
    }
}

#[test]
fn find_unknown_category_is_empty() {
    let inv = SeatingStructure::new();
    assert!(inv.find_available("Balcony", 1).is_empty());
}

#[test]
fn find_does_not_mutate() {
    let mut inv = SeatingStructure::new();
    for _ in 0..10 {
        let found = inv.find_available("VIP", 4);
        assert_eq!(found.len(), 4);
    }
    // The seats proposed ten times over are all still Free.
    assert!(inv.reserve("VIP", &refs("ZonaA", 1, &[1, 2, 3, 4])));
}

#[test]
fn contiguity_skips_broken_runs() {
    // A row holding Free,Free,Reserved,Free,Free has no run of three; the
    // search must move on to the next row rather than stitch 1,2,4 together.
    let broken = Row {
        number: 1,
        seats: vec![
            seat(1, SeatStatus::Free),
            seat(2, SeatStatus::Free),
            seat(3, SeatStatus::Reserved),
            seat(4, SeatStatus::Free),
            seat(5, SeatStatus::Free),
        ],
    };
    let full = Row {
        number: 2,
        seats: (1..=5).map(|n| seat(n, SeatStatus::Free)).collect(),
    };
    let inv = SeatingStructure {
        categories: vec![Category {
            name: "VIP".to_string(),
            zones: vec![Zone { name: "Z1".to_string(), rows: vec![broken, full] }],
        }],
    };
    let found = inv.find_available("VIP", 3);
    assert_eq!(found.len(), 3);
    for (k, r) in found.iter().enumerate() {
        assert_eq!(r.zone, "Z1");
        assert_eq!(r.row, 2, "must not take non-contiguous seats from row 1");
        assert_eq!(r.number, k as u32 + 1);
    }
    // With no second row the same request finds nothing at all.
    let inv2 = SeatingStructure {
        categories: vec![Category {
            name: "VIP".to_string(),
            zones: vec![Zone {
                name: "Z1".to_string(),
                rows: vec![Row {
                    number: 1,
                    seats: vec![
                        seat(1, SeatStatus::Free),
                        seat(2, SeatStatus::Free),
                        seat(3, SeatStatus::Reserved),
                        seat(4, SeatStatus::Free),
                        seat(5, SeatStatus::Free),
                    ],
                }],
            }],
        }],
    };
    assert!(inv2.find_available("VIP", 3).is_empty());
    assert_eq!(inv2.find_available("VIP", 2).iter().map(|r| r.number).collect::<Vec<_>>(), vec![1, 2]);
}

#[test]
fn contiguity_requires_adjacent_numbers() {
    // Seat numbers 1,2,5,6: free throughout, but 2 and 5 are not adjacent.
    let inv = SeatingStructure {
        categories: vec![Category {
            name: "VIP".to_string(),
            zones: vec![Zone {
                name: "Z1".to_string(),
                rows: vec![Row {
                    number: 1,
                    seats: vec![
                        seat(1, SeatStatus::Free),
                        seat(2, SeatStatus::Free),
                        seat(5, SeatStatus::Free),
                        seat(6, SeatStatus::Free),
                    ],
                }],
            }],
        }],
    };
    assert!(inv.find_available("VIP", 3).is_empty());
    let two = inv.find_available("VIP", 2);
    assert_eq!(two.iter().map(|r| r.number).collect::<Vec<_>>(), vec![1, 2]);
}

#[test]
fn scenario_find_reserve_rereserve() {
    let mut inv = SeatingStructure::new();
    let found = inv.find_available("VIP", 3);
    assert_eq!(found.len(), 3);
    assert_eq!(found[0].zone, "ZonaA");
    assert_eq!(found[0].row, 1);
    assert_eq!(
        found.iter().map(|r| r.number).collect::<Vec<_>>(),
        vec![1, 2, 3]
    );
    assert!(inv.reserve("VIP", &found));
    // The identical batch can never be reserved twice.
    assert!(!inv.reserve("VIP", &found));
}

#[test]
fn overlapping_reserves_cannot_both_succeed() {
    let mut inv = SeatingStructure::new();
    let first = refs("ZonaA", 1, &[1, 2]);
    let second = refs("ZonaA", 1, &[2, 3]);
    assert!(inv.reserve("VIP", &first));
    assert!(!inv.reserve("VIP", &second));
    // Seat 3 was left untouched by the failed overlapping batch.
    assert_eq!(seat_status(&inv, "VIP", "ZonaA", 1, 3), SeatStatus::Free);
}

#[test]
fn all_or_nothing_reserve() {
    let mut inv = SeatingStructure::new();
    assert!(inv.reserve("VIP", &refs("ZonaA", 1, &[1])));
    // One Free seat and one already-Reserved seat: the whole batch fails
    // and the Free seat stays Free.
    assert!(!inv.reserve("VIP", &refs("ZonaA", 1, &[2, 1])));
    assert_eq!(seat_status(&inv, "VIP", "ZonaA", 1, 2), SeatStatus::Free);
    assert_eq!(seat_status(&inv, "VIP", "ZonaA", 1, 1), SeatStatus::Reserved);
}

#[test]
fn reserve_nonexistent_seat_fails() {
    let mut inv = SeatingStructure::new();
    assert!(!inv.reserve("VIP", &refs("ZonaA", 1, &[6])));
    assert!(!inv.reserve("VIP", &refs("ZonaX", 1, &[1])));
    assert!(!inv.reserve("VIP", &refs("ZonaA", 9, &[1])));
    assert!(!inv.reserve("Balcony", &refs("ZonaA", 1, &[1])));
    assert_eq!(seat_status(&inv, "VIP", "ZonaA", 1, 1), SeatStatus::Free);
}

#[test]
fn purchase_requires_reserved() {
    let mut inv = SeatingStructure::new();
    // Never-reserved seats cannot be purchased, and stay Free.
    assert!(!inv.purchase("VIP", &refs("ZonaA", 1, &[1, 2])));
    assert_eq!(seat_status(&inv, "VIP", "ZonaA", 1, 1), SeatStatus::Free);
    assert_eq!(seat_status(&inv, "VIP", "ZonaA", 1, 2), SeatStatus::Free);
    assert!(inv.reserve("VIP", &refs("ZonaA", 1, &[1, 2])));
    assert!(inv.purchase("VIP", &refs("ZonaA", 1, &[1, 2])));
    assert_eq!(seat_status(&inv, "VIP", "ZonaA", 1, 1), SeatStatus::Purchased);
    // Purchased is terminal: no second purchase, no reserve, no release.
    assert!(!inv.purchase("VIP", &refs("ZonaA", 1, &[1])));
    assert!(!inv.reserve("VIP", &refs("ZonaA", 1, &[1])));
    assert!(!inv.release("VIP", &refs("ZonaA", 1, &[1])));
}

#[test]
fn release_returns_seats_to_free() {
    let mut inv = SeatingStructure::new();
    assert!(inv.reserve("VIP", &refs("ZonaA", 2, &[3, 4])));
    assert!(inv.release("VIP", &refs("ZonaA", 2, &[3, 4])));
    assert_eq!(seat_status(&inv, "VIP", "ZonaA", 2, 3), SeatStatus::Free);
    // Released seats can be reserved again.
    assert!(inv.reserve("VIP", &refs("ZonaA", 2, &[3, 4])));
    // Free seats cannot be released.
    assert!(!inv.release("VIP", &refs("ZonaA", 2, &[5])));
}

#[test]
fn reserved_fixture_zone_has_no_free_seats() {
    let inv = SeatingStructure::new();
    // VIP ZonaA and ZonaB qualify before ZonaC, which is all Reserved.
    let mut inv2 = inv;
    // Exhaust ZonaA and ZonaB (5 rows of 5 each).
    for zone in ["ZonaA", "ZonaB"] {
        for row in 1..=5 {
            assert!(inv2.reserve("VIP", &refs(zone, row, &[1, 2, 3, 4, 5])));
        }
    }
    // Nothing Free is left anywhere under VIP.
    assert!(inv2.find_available("VIP", 1).is_empty());
}
