//! The seat inventory: a tree of categories, zones, rows and seats, with
//! the queries and the all-or-nothing batch transitions that act on it.

use vstd::prelude::*;
use vstd::string::StrSliceExecFns;

verus! {

/// The life cycle of one seat: Free -> Reserved (reserve),
/// Reserved -> Purchased (purchase), Reserved -> Free (release).
#[derive(Clone, Copy, PartialEq, Eq, Structural, Debug)]
pub enum SeatStatus {
    Free,
    Reserved,
    Purchased,
}

/// One seat: a number unique within its row, a status, and a vision
/// percentage between 0 and 100.
#[derive(Clone, Copy, PartialEq, Eq, Structural, Debug)]
pub struct Seat {
    pub status: SeatStatus,
    pub vision_percentage: u8,
    pub number: u32,
}

/// A row of seats, ordered by strictly ascending seat number.
#[derive(Clone, Debug)]
pub struct Row {
    pub number: u32,
    pub seats: Vec<Seat>,
}

/// A named zone holding rows with pairwise distinct row numbers.
#[derive(Clone, Debug)]
pub struct Zone {
    pub name: String,
    pub rows: Vec<Row>,
}

/// A named category holding zones with pairwise distinct zone names.
#[derive(Clone, Debug)]
pub struct Category {
    pub name: String,
    pub zones: Vec<Zone>,
}

/// The whole inventory: categories with pairwise distinct names.
#[derive(Debug)]
pub struct SeatingStructure {
    pub categories: Vec<Category>,
}

/// A reference to one seat inside a category: the zone name, the row
/// number and the seat number.  The category is named separately by the
/// operation that takes the references.
#[derive(Clone, Debug)]
pub struct SeatRef {
    pub zone: String,
    pub row: u32,
    pub number: u32,
}

/// True when (ci, zi, ri, si) indexes an existing seat of `v`.
pub open spec fn valid_path(v: Seq<Category>, ci: int, zi: int, ri: int, si: int) -> bool {
    0 <= ci < v.len() && 0 <= zi < v[ci].zones@.len() && 0 <= ri < v[ci].zones@[zi].rows@.len()
        && 0 <= si < v[ci].zones@[zi].rows@[ri].seats@.len()
}

pub open spec fn zone_of(v: Seq<Category>, ci: int, zi: int) -> Zone {
    v[ci].zones@[zi]
}

pub open spec fn row_of(v: Seq<Category>, ci: int, zi: int, ri: int) -> Row {
    v[ci].zones@[zi].rows@[ri]
}

pub open spec fn seat_at(v: Seq<Category>, ci: int, zi: int, ri: int, si: int) -> Seat {
    v[ci].zones@[zi].rows@[ri].seats@[si]
}

/// A well-formed row: a positive row number, positive seat numbers in
/// strictly ascending order, and vision percentages of at most 100.
pub open spec fn wf_row(r: Row) -> bool {
    &&& r.number >= 1
    &&& forall|i: int|
        0 <= i < r.seats@.len() ==> 1 <= (#[trigger] r.seats@[i]).number
            && r.seats@[i].vision_percentage <= 100
    &&& forall|i: int, j: int|
        0 <= i < j < r.seats@.len() ==> #[trigger] r.seats@[i].number
            < #[trigger] r.seats@[j].number
}

/// A well-formed zone: well-formed rows with pairwise distinct numbers.
pub open spec fn wf_zone(z: Zone) -> bool {
    &&& forall|i: int| 0 <= i < z.rows@.len() ==> wf_row(#[trigger] z.rows@[i])
    &&& forall|i: int, j: int|
        0 <= i < j < z.rows@.len() ==> #[trigger] z.rows@[i].number != #[trigger] z.rows@[j].number
}

/// A well-formed category: well-formed zones with pairwise distinct names.
pub open spec fn wf_cat(c: Category) -> bool {
    &&& forall|i: int| 0 <= i < c.zones@.len() ==> wf_zone(#[trigger] c.zones@[i])
    &&& forall|i: int, j: int|
        0 <= i < j < c.zones@.len() ==> (#[trigger] c.zones@[i]).name@ != (
        #[trigger] c.zones@[j]).name@
}

/// The inventory invariant: well-formed categories with pairwise distinct
/// names.  Together with the inner conditions it makes every
/// (category, zone, row, seat number) identity unique.
pub open spec fn wf(v: Seq<Category>) -> bool {
    &&& forall|i: int| 0 <= i < v.len() ==> wf_cat(#[trigger] v[i])
    &&& forall|i: int, j: int|
        0 <= i < j < v.len() ==> (#[trigger] v[i]).name@ != (#[trigger] v[j]).name@
}

/// How many of the seats are Free.
pub open spec fn count_free(seats: Seq<Seat>) -> nat
    decreases seats.len(),
{
    if seats.len() == 0 {
        0
    } else {
        count_free(seats.drop_last()) + if seats.last().status == SeatStatus::Free {
            1nat
        } else {
            0nat
        }
    }
}

/// Character-by-character string comparison; true exactly when the two
/// views are equal.
pub fn str_eq(a: &str, b: &str) -> (r: bool)
    ensures
        r == (a@ == b@),
{
    let la = a.unicode_len();
    let lb = b.unicode_len();
    if la != lb {
        return false;
    }
    let mut i: usize = 0;
    while i < la
        invariant
            la == a@.len(),
            la == b@.len(),
            i <= la,
            forall|j: int| 0 <= j < i ==> a@[j] == b@[j],
        decreases la - i,
    {
        if a.get_char(i) != b.get_char(i) {
            return false;
        }
        i += 1;
    }
    proof {
        assert(a@ =~= b@);
    }
    true
}

impl Row {
    /// The number of Free seats in this row.
    pub fn free_seats(&self) -> (n: u32)
        requires
            self.seats@.len() <= u32::MAX,
        ensures
            n as nat == count_free(self.seats@),
    {
        let mut n: u32 = 0;
        let mut i: usize = 0;
        while i < self.seats.len()
            invariant
                i <= self.seats@.len(),
                self.seats@.len() <= u32::MAX,
                n as nat == count_free(self.seats@.take(i as int)),
                n <= i,
            decreases self.seats@.len() - i,
        {
            proof {
                assert(self.seats@.take(i + 1).drop_last() =~= self.seats@.take(i as int));
                assert(self.seats@.take(i + 1).last() == self.seats@[i as int]);
            }
            if self.seats[i].status == SeatStatus::Free {
                n = n + 1;
            }
            i += 1;
        }
        proof {
            assert(self.seats@.take(self.seats@.len() as int) =~= self.seats@);
        }
        n
    }
}

/// Index of the first category whose name equals `name`, if any.
fn find_cat_idx(cats: &Vec<Category>, name: &str) -> (r: Option<usize>)
    ensures
        match r {
            Some(i) => 0 <= i < cats@.len() && cats@[i as int].name@ == name@ && (forall|j: int|
                0 <= j < i ==> (#[trigger] cats@[j]).name@ != name@),
            None => forall|j: int| 0 <= j < cats@.len() ==> (#[trigger] cats@[j]).name@ != name@,
        },
{
    let mut i: usize = 0;
    while i < cats.len()
        invariant
            i <= cats@.len(),
            forall|j: int| 0 <= j < i ==> (#[trigger] cats@[j]).name@ != name@,
        decreases cats@.len() - i,
    {
        if str_eq(cats[i].name.as_str(), name) {
            return Some(i);
        }
        i += 1;
    }
    None
}

/// Index of the first zone whose name equals `name`, if any.
fn find_zone_idx(zones: &Vec<Zone>, name: &String) -> (r: Option<usize>)
    ensures
        match r {
            Some(i) => 0 <= i < zones@.len() && zones@[i as int].name@ == name@ && (forall|j: int|
                0 <= j < i ==> (#[trigger] zones@[j]).name@ != name@),
            None => forall|j: int| 0 <= j < zones@.len() ==> (#[trigger] zones@[j]).name@ != name@,
        },
{
    let mut i: usize = 0;
    while i < zones.len()
        invariant
            i <= zones@.len(),
            forall|j: int| 0 <= j < i ==> (#[trigger] zones@[j]).name@ != name@,
        decreases zones@.len() - i,
    {
        if str_eq(zones[i].name.as_str(), name.as_str()) {
            return Some(i);
        }
        i += 1;
    }
    None
}

/// Index of the first row whose number equals `number`, if any.
fn find_row_idx(rows: &Vec<Row>, number: u32) -> (r: Option<usize>)
    ensures
        match r {
            Some(i) => 0 <= i < rows@.len() && rows@[i as int].number == number && (forall|j: int|
                0 <= j < i ==> (#[trigger] rows@[j]).number != number),
            None => forall|j: int| 0 <= j < rows@.len() ==> (#[trigger] rows@[j]).number != number,
        },
{
    let mut i: usize = 0;
    while i < rows.len()
        invariant
            i <= rows@.len(),
            forall|j: int| 0 <= j < i ==> (#[trigger] rows@[j]).number != number,
        decreases rows@.len() - i,
    {
        if rows[i].number == number {
            return Some(i);
        }
        i += 1;
    }
    None
}

/// Index of the first seat whose number equals `number`, if any.
fn find_seat_idx(seats: &Vec<Seat>, number: u32) -> (r: Option<usize>)
    ensures
        match r {
            Some(i) => 0 <= i < seats@.len() && seats@[i as int].number == number && (forall|j: int|
                0 <= j < i ==> (#[trigger] seats@[j]).number != number),
            None => forall|j: int| 0 <= j < seats@.len() ==> (#[trigger] seats@[j]).number != number,
        },
{
    let mut i: usize = 0;
    while i < seats.len()
        invariant
            i <= seats@.len(),
            forall|j: int| 0 <= j < i ==> (#[trigger] seats@[j]).number != number,
        decreases seats@.len() - i,
    {
        if seats[i].number == number {
            return Some(i);
        }
        i += 1;
    }
    None
}

} // verus!

verus! {

/// `rf` names the seat at (ci, zi, ri, si) under category name `cname`,
/// and that seat currently has status `from`.
pub open spec fn ref_resolves_at(
    v: Seq<Category>,
    cname: Seq<char>,
    rf: SeatRef,
    from: SeatStatus,
    ci: int,
    zi: int,
    ri: int,
    si: int,
) -> bool {
    &&& valid_path(v, ci, zi, ri, si)
    &&& v[ci].name@ == cname
    &&& zone_of(v, ci, zi).name@ == rf.zone@
    &&& row_of(v, ci, zi, ri).number == rf.row
    &&& seat_at(v, ci, zi, ri, si).number == rf.number
    &&& seat_at(v, ci, zi, ri, si).status == from
}

/// Some seat of `v` under category name `cname` is named by `rf` and has
/// status `from`.
pub open spec fn ref_resolves(
    v: Seq<Category>,
    cname: Seq<char>,
    rf: SeatRef,
    from: SeatStatus,
) -> bool {
    exists|ci: int, zi: int, ri: int, si: int|
        ref_resolves_at(v, cname, rf, from, ci, zi, ri, si)
}

/// A batch transition succeeds exactly when the category exists and every
/// referenced seat exists under it with status `from`.
pub open spec fn can_transition(
    v: Seq<Category>,
    cname: Seq<char>,
    refs: Seq<SeatRef>,
    from: SeatStatus,
) -> bool {
    &&& exists|ci: int| 0 <= ci < v.len() && (#[trigger] v[ci]).name@ == cname
    &&& forall|k: int| 0 <= k < refs.len() ==> ref_resolves(v, cname, #[trigger] refs[k], from)
}

/// The seat at (ci, zi, ri, si) is named by some reference of the batch.
pub open spec fn is_target(
    v: Seq<Category>,
    cname: Seq<char>,
    refs: Seq<SeatRef>,
    ci: int,
    zi: int,
    ri: int,
    si: int,
) -> bool {
    &&& v[ci].name@ == cname
    &&& exists|k: int|
        0 <= k < refs.len() && (#[trigger] refs[k]).zone@ == zone_of(v, ci, zi).name@
            && refs[k].row == row_of(v, ci, zi, ri).number && refs[k].number == seat_at(
            v,
            ci,
            zi,
            ri,
            si,
        ).number
}

/// `w` has the same tree of names, numbers and vision percentages as `v`;
/// only seat statuses may differ.
pub open spec fn same_shape(v: Seq<Category>, w: Seq<Category>) -> bool {
    &&& v.len() == w.len()
    &&& forall|ci: int|
        0 <= ci < v.len() ==> (#[trigger] w[ci]).name@ == v[ci].name@ && w[ci].zones@.len()
            == v[ci].zones@.len()
    &&& forall|ci: int, zi: int|
        0 <= ci < v.len() && 0 <= zi < v[ci].zones@.len() ==> (#[trigger] zone_of(w, ci, zi)).name@
            == zone_of(v, ci, zi).name@ && zone_of(w, ci, zi).rows@.len() == zone_of(
            v,
            ci,
            zi,
        ).rows@.len()
    &&& forall|ci: int, zi: int, ri: int|
        0 <= ci < v.len() && 0 <= zi < v[ci].zones@.len() && 0 <= ri < zone_of(
            v,
            ci,
            zi,
        ).rows@.len() ==> (#[trigger] row_of(w, ci, zi, ri)).number == row_of(v, ci, zi, ri).number
            && row_of(w, ci, zi, ri).seats@.len() == row_of(v, ci, zi, ri).seats@.len()
    &&& forall|ci: int, zi: int, ri: int, si: int|
        valid_path(v, ci, zi, ri, si) ==> (#[trigger] seat_at(w, ci, zi, ri, si)).number == seat_at(
            v,
            ci,
            zi,
            ri,
            si,
        ).number && seat_at(w, ci, zi, ri, si).vision_percentage == seat_at(
            v,
            ci,
            zi,
            ri,
            si,
        ).vision_percentage
}

/// `w` is `v` after the batch: every targeted seat has status `to`, every
/// other seat keeps its status, and nothing else changes.
pub open spec fn transitioned(
    v: Seq<Category>,
    w: Seq<Category>,
    cname: Seq<char>,
    refs: Seq<SeatRef>,
    to: SeatStatus,
) -> bool {
    &&& same_shape(v, w)
    &&& forall|ci: int, zi: int, ri: int, si: int|
        valid_path(v, ci, zi, ri, si) ==> (#[trigger] seat_at(w, ci, zi, ri, si)).status == (
        if is_target(v, cname, refs, ci, zi, ri, si) {
            to
        } else {
            seat_at(v, ci, zi, ri, si).status
        })
}

/// Well-formedness depends only on the tree of names, numbers and vision
/// percentages, so it survives any status-only change.
pub proof fn lemma_same_shape_wf(v: Seq<Category>, w: Seq<Category>)
    requires
        wf(v),
        same_shape(v, w),
    ensures
        wf(w),
{
    assert forall|i: int| 0 <= i < w.len() implies wf_cat(#[trigger] w[i]) by {
        assert(wf_cat(v[i]));
        assert forall|zi: int| 0 <= zi < w[i].zones@.len() implies wf_zone(
            #[trigger] w[i].zones@[zi],
        ) by {
            assert(wf_zone(v[i].zones@[zi]));
            assert(zone_of(w, i, zi) == w[i].zones@[zi]);
            assert forall|ri: int| 0 <= ri < w[i].zones@[zi].rows@.len() implies wf_row(
                #[trigger] w[i].zones@[zi].rows@[ri],
            ) by {
                assert(row_of(w, i, zi, ri) == w[i].zones@[zi].rows@[ri]);
                assert(wf_row(v[i].zones@[zi].rows@[ri]));
                let rv = v[i].zones@[zi].rows@[ri];
                let rw = w[i].zones@[zi].rows@[ri];
                assert forall|si: int| 0 <= si < rw.seats@.len() implies 1 <= (
                #[trigger] rw.seats@[si]).number && rw.seats@[si].vision_percentage <= 100 by {
                    assert(seat_at(w, i, zi, ri, si) == rw.seats@[si]);
                    assert(seat_at(v, i, zi, ri, si) == rv.seats@[si]);
                }
                assert forall|s1: int, s2: int| 0 <= s1 < s2 < rw.seats@.len() implies (
                #[trigger] rw.seats@[s1].number) < (#[trigger] rw.seats@[s2].number) by {
                    assert(seat_at(w, i, zi, ri, s1) == rw.seats@[s1]);
                    assert(seat_at(w, i, zi, ri, s2) == rw.seats@[s2]);
                    assert(seat_at(v, i, zi, ri, s1) == rv.seats@[s1]);
                    assert(seat_at(v, i, zi, ri, s2) == rv.seats@[s2]);
                }
            }
            assert forall|r1: int, r2: int|
                0 <= r1 < r2 < w[i].zones@[zi].rows@.len() implies (
            #[trigger] w[i].zones@[zi].rows@[r1]).number != (
            #[trigger] w[i].zones@[zi].rows@[r2]).number by {
                assert(row_of(w, i, zi, r1) == w[i].zones@[zi].rows@[r1]);
                assert(row_of(w, i, zi, r2) == w[i].zones@[zi].rows@[r2]);
                assert(row_of(v, i, zi, r1).number != row_of(v, i, zi, r2).number);
            }
        }
        assert forall|z1: int, z2: int| 0 <= z1 < z2 < w[i].zones@.len() implies (
        #[trigger] w[i].zones@[z1]).name@ != (#[trigger] w[i].zones@[z2]).name@ by {
            assert(zone_of(w, i, z1) == w[i].zones@[z1]);
            assert(zone_of(w, i, z2) == w[i].zones@[z2]);
            assert(zone_of(v, i, z1).name@ != zone_of(v, i, z2).name@);
        }
    }
}

/// Uniqueness of seat identity: in a well-formed inventory two index paths
/// that carry the same (category name, zone name, row number, seat number)
/// quadruple are the same path.
pub proof fn lemma_seat_identity_unique(
    v: Seq<Category>,
    ci1: int,
    zi1: int,
    ri1: int,
    si1: int,
    ci2: int,
    zi2: int,
    ri2: int,
    si2: int,
)
    requires
        wf(v),
        valid_path(v, ci1, zi1, ri1, si1),
        valid_path(v, ci2, zi2, ri2, si2),
        v[ci1].name@ == v[ci2].name@,
        zone_of(v, ci1, zi1).name@ == zone_of(v, ci2, zi2).name@,
        row_of(v, ci1, zi1, ri1).number == row_of(v, ci2, zi2, ri2).number,
        seat_at(v, ci1, zi1, ri1, si1).number == seat_at(v, ci2, zi2, ri2, si2).number,
    ensures
        ci1 == ci2,
        zi1 == zi2,
        ri1 == ri2,
        si1 == si2,
{
    if ci1 < ci2 {
        assert(v[ci1].name@ != v[ci2].name@);
    }
    if ci2 < ci1 {
        assert(v[ci2].name@ != v[ci1].name@);
    }
    assert(ci1 == ci2);
    assert(wf_cat(v[ci1]));
    if zi1 < zi2 {
        assert(v[ci1].zones@[zi1].name@ != v[ci1].zones@[zi2].name@);
    }
    if zi2 < zi1 {
        assert(v[ci1].zones@[zi2].name@ != v[ci1].zones@[zi1].name@);
    }
    assert(zi1 == zi2);
    assert(wf_zone(v[ci1].zones@[zi1]));
    if ri1 < ri2 {
        assert(v[ci1].zones@[zi1].rows@[ri1].number != v[ci1].zones@[zi1].rows@[ri2].number);
    }
    if ri2 < ri1 {
        assert(v[ci1].zones@[zi1].rows@[ri2].number != v[ci1].zones@[zi1].rows@[ri1].number);
    }
    assert(ri1 == ri2);
    assert(wf_row(v[ci1].zones@[zi1].rows@[ri1]));
    let seats = v[ci1].zones@[zi1].rows@[ri1].seats@;
    if si1 < si2 {
        assert(seats[si1].number < seats[si2].number);
    }
    if si2 < si1 {
        assert(seats[si2].number < seats[si1].number);
    }
}

} // verus!

verus! {

/// (zi, ri, si) indexes a seat of category `c` whose zone name, row number
/// and seat number are the ones `rf` names.
pub open spec fn cat_path_matches(c: Category, rf: SeatRef, zi: int, ri: int, si: int) -> bool {
    &&& 0 <= zi < c.zones@.len()
    &&& 0 <= ri < c.zones@[zi].rows@.len()
    &&& 0 <= si < c.zones@[zi].rows@[ri].seats@.len()
    &&& c.zones@[zi].name@ == rf.zone@
    &&& c.zones@[zi].rows@[ri].number == rf.row
    &&& c.zones@[zi].rows@[ri].seats@[si].number == rf.number
}

/// Locate the seat `rf` names inside category `c`, if it exists.
fn seat_path(c: &Category, rf: &SeatRef) -> (r: Option<(usize, usize, usize)>)
    requires
        wf_cat(*c),
    ensures
        match r {
            Some(p) => cat_path_matches(*c, *rf, p.0 as int, p.1 as int, p.2 as int),
            None => forall|zi: int, ri: int, si: int| !cat_path_matches(*c, *rf, zi, ri, si),
        },
{
    let zi = match find_zone_idx(&c.zones, &rf.zone) {
        Some(zi) => zi,
        None => {
            proof {
                assert forall|zi: int, ri: int, si: int| !cat_path_matches(*c, *rf, zi, ri, si) by {
                    if cat_path_matches(*c, *rf, zi, ri, si) {
                        assert(c.zones@[zi].name@ != rf.zone@);
                    }
                }
            }
            return None;
        },
    };
    let ri = match find_row_idx(&c.zones[zi].rows, rf.row) {
        Some(ri) => ri,
        None => {
            proof {
                assert forall|z2: int, r2: int, s2: int| !cat_path_matches(*c, *rf, z2, r2, s2) by {
                    if cat_path_matches(*c, *rf, z2, r2, s2) {
                        if z2 < zi as int {
                            assert(c.zones@[z2].name@ != c.zones@[zi as int].name@);
                        }
                        if (zi as int) < z2 {
                            assert(c.zones@[zi as int].name@ != c.zones@[z2].name@);
                        }
                        assert(z2 == zi as int);
                        assert(c.zones@[zi as int].rows@[r2].number != rf.row);
                    }
                }
            }
            return None;
        },
    };
    let si = match find_seat_idx(&c.zones[zi].rows[ri].seats, rf.number) {
        Some(si) => si,
        None => {
            proof {
                assert(wf_zone(c.zones@[zi as int]));
                assert forall|z2: int, r2: int, s2: int| !cat_path_matches(*c, *rf, z2, r2, s2) by {
                    if cat_path_matches(*c, *rf, z2, r2, s2) {
                        if z2 < zi as int {
                            assert(c.zones@[z2].name@ != c.zones@[zi as int].name@);
                        }
                        if (zi as int) < z2 {
                            assert(c.zones@[zi as int].name@ != c.zones@[z2].name@);
                        }
                        assert(z2 == zi as int);
                        if r2 < ri as int {
                            assert(c.zones@[zi as int].rows@[r2].number != c.zones@[zi as int].rows@[ri as int].number);
                        }
                        if (ri as int) < r2 {
                            assert(c.zones@[zi as int].rows@[ri as int].number != c.zones@[zi as int].rows@[r2].number);
                        }
                        assert(r2 == ri as int);
                        assert(c.zones@[zi as int].rows@[ri as int].seats@[s2].number != rf.number);
                    }
                }
            }
            return None;
        },
    };
    Some((zi, ri, si))
}

impl SeatingStructure {
    /// Overwrite the status of the seat at (ci, zi, ri, si), and nothing
    /// else.
    fn set_seat_status(&mut self, ci: usize, zi: usize, ri: usize, si: usize, to: SeatStatus)
        requires
            valid_path(old(self).categories@, ci as int, zi as int, ri as int, si as int),
        ensures
            same_shape(old(self).categories@, final(self).categories@),
            forall|c2: int, z2: int, r2: int, s2: int|
                valid_path(old(self).categories@, c2, z2, r2, s2) ==> (#[trigger] seat_at(
                    final(self).categories@,
                    c2,
                    z2,
                    r2,
                    s2,
                )) == (if c2 == ci && z2 == zi && r2 == ri && s2 == si {
                    (Seat { status: to, ..seat_at(old(self).categories@, c2, z2, r2, s2) })
                } else {
                    seat_at(old(self).categories@, c2, z2, r2, s2)
                }),
    {
        let ghost v0 = old(self).categories@;
        let mut cat = self.categories.remove(ci);
        let mut zone = cat.zones.remove(zi);
        let mut row = zone.rows.remove(ri);
        let mut seat = row.seats.remove(si);
        let ghost seat0 = v0[ci as int].zones@[zi as int].rows@[ri as int].seats@[si as int];
        seat.status = to;
        row.seats.insert(si, seat);
        zone.rows.insert(ri, row);
        cat.zones.insert(zi, zone);
        self.categories.insert(ci, cat);
        proof {
            let v1 = self.categories@;
            let cat0 = v0[ci as int];
            let zone0 = cat0.zones@[zi as int];
            let row0 = zone0.rows@[ri as int];
            assert(v1 =~= v0.update(ci as int, v1[ci as int]));
            assert(v1[ci as int].name@ == cat0.name@);
            assert(v1[ci as int].zones@ =~= cat0.zones@.update(zi as int, v1[ci as int].zones@[zi as int]));
            let zone1 = v1[ci as int].zones@[zi as int];
            assert(zone1.name@ == zone0.name@);
            assert(zone1.rows@ =~= zone0.rows@.update(ri as int, zone1.rows@[ri as int]));
            let row1 = zone1.rows@[ri as int];
            assert(row1.number == row0.number);
            assert(row1.seats@ =~= row0.seats@.update(si as int, Seat { status: to, ..seat0 }));
            assert forall|c2: int, z2: int, r2: int, s2: int|
                valid_path(v0, c2, z2, r2, s2) implies (#[trigger] seat_at(v1, c2, z2, r2, s2))
                == (if c2 == ci && z2 == zi && r2 == ri && s2 == si {
                    (Seat { status: to, ..seat_at(v0, c2, z2, r2, s2) })
                } else {
                    seat_at(v0, c2, z2, r2, s2)
                }) by {
                if c2 == ci as int {
                    if z2 == zi as int {
                        if r2 == ri as int {
                        } else {
                            assert(zone1.rows@[r2] == zone0.rows@[r2]);
                        }
                    } else {
                        assert(v1[ci as int].zones@[z2] == cat0.zones@[z2]);
                    }
                } else {
                    assert(v1[c2] == v0[c2]);
                }
            }
            assert(same_shape(v0, v1));
        }
    }
}

/// A path into `v` is a path into any same-shaped `w`.
pub proof fn lemma_same_shape_valid_path(
    v: Seq<Category>,
    w: Seq<Category>,
    ci: int,
    zi: int,
    ri: int,
    si: int,
)
    requires
        same_shape(v, w),
        valid_path(v, ci, zi, ri, si),
    ensures
        valid_path(w, ci, zi, ri, si),
{
    assert(w[ci].zones@.len() == v[ci].zones@.len());
    assert(zone_of(w, ci, zi).rows@.len() == zone_of(v, ci, zi).rows@.len());
    assert(row_of(w, ci, zi, ri).seats@.len() == row_of(v, ci, zi, ri).seats@.len());
}

/// Transitivity of the shape relation.
pub proof fn lemma_same_shape_trans(v: Seq<Category>, w: Seq<Category>, x: Seq<Category>)
    requires
        same_shape(v, w),
        same_shape(w, x),
    ensures
        same_shape(v, x),
{
    assert forall|ci: int| 0 <= ci < v.len() implies (#[trigger] x[ci]).name@ == v[ci].name@
        && x[ci].zones@.len() == v[ci].zones@.len() by {
        assert(w[ci].name@ == v[ci].name@);
    }
    assert forall|ci: int, zi: int|
        0 <= ci < v.len() && 0 <= zi < v[ci].zones@.len() implies (#[trigger] zone_of(
        x,
        ci,
        zi,
    )).name@ == zone_of(v, ci, zi).name@ && zone_of(x, ci, zi).rows@.len() == zone_of(
        v,
        ci,
        zi,
    ).rows@.len() by {
        assert(zone_of(w, ci, zi).name@ == zone_of(v, ci, zi).name@);
    }
    assert forall|ci: int, zi: int, ri: int|
        0 <= ci < v.len() && 0 <= zi < v[ci].zones@.len() && 0 <= ri < zone_of(
            v,
            ci,
            zi,
        ).rows@.len() implies (#[trigger] row_of(x, ci, zi, ri)).number == row_of(
        v,
        ci,
        zi,
        ri,
    ).number && row_of(x, ci, zi, ri).seats@.len() == row_of(v, ci, zi, ri).seats@.len() by {
        assert(row_of(w, ci, zi, ri).number == row_of(v, ci, zi, ri).number);
    }
    assert forall|ci: int, zi: int, ri: int, si: int|
        valid_path(v, ci, zi, ri, si) implies (#[trigger] seat_at(x, ci, zi, ri, si)).number
        == seat_at(v, ci, zi, ri, si).number && seat_at(x, ci, zi, ri, si).vision_percentage
        == seat_at(v, ci, zi, ri, si).vision_percentage by {
        lemma_same_shape_valid_path(v, w, ci, zi, ri, si);
        assert(seat_at(w, ci, zi, ri, si).number == seat_at(v, ci, zi, ri, si).number);
    }
}

} // verus!

verus! {

impl SeatingStructure {
    /// All-or-nothing batch transition: if the category exists and every
    /// referenced seat exists under it with status `from`, move exactly
    /// those seats to `to`; otherwise change nothing and report failure.
    fn transition(&mut self, category: &str, refs: &Vec<SeatRef>, from: SeatStatus, to: SeatStatus) -> (r: bool)
        requires
            wf(old(self).categories@),
        ensures
            r == can_transition(old(self).categories@, category@, refs@, from),
            r ==> transitioned(old(self).categories@, final(self).categories@, category@, refs@, to),
            !r ==> final(self).categories@ == old(self).categories@,
            wf(final(self).categories@),
    {
        let ghost v0 = old(self).categories@;
        let ci = match find_cat_idx(&self.categories, category) {
            Some(ci) => ci,
            None => {
                proof {
                    assert(!can_transition(v0, category@, refs@, from));
                }
                return false;
            },
        };
        // Validation pass: nothing is written until every reference has
        // been checked against the live state.
        let mut k: usize = 0;
        while k < refs.len()
            invariant
                wf(v0),
                self.categories@ == v0,
                k <= refs@.len(),
                ci < v0.len(),
                v0[ci as int].name@ == category@,
                forall|kk: int|
                    0 <= kk < k ==> ref_resolves(v0, category@, #[trigger] refs@[kk], from),
            decreases refs@.len() - k,
        {
            let rf = &refs[k];
            proof {
                assert(wf_cat(v0[ci as int]));
            }
            match seat_path(&self.categories[ci], rf) {
                None => {
                    proof {
                        if ref_resolves(v0, category@, refs@[k as int], from) {
                            let (c2, z2, r2, s2) = choose|c2: int, z2: int, r2: int, s2: int|
                                ref_resolves_at(v0, category@, refs@[k as int], from, c2, z2, r2, s2);
                            if c2 < ci as int {
                                assert(v0[c2].name@ != v0[ci as int].name@);
                            }
                            if (ci as int) < c2 {
                                assert(v0[ci as int].name@ != v0[c2].name@);
                            }
                            assert(c2 == ci as int);
                            assert(cat_path_matches(v0[ci as int], refs@[k as int], z2, r2, s2));
                        }
                        assert(!ref_resolves(v0, category@, refs@[k as int], from));
                        assert(!can_transition(v0, category@, refs@, from));
                    }
                    return false;
                },
                Some((zi, ri, si)) => {
                    if self.categories[ci].zones[zi].rows[ri].seats[si].status != from {
                        proof {
                            if ref_resolves(v0, category@, refs@[k as int], from) {
                                let (c2, z2, r2, s2) = choose|c2: int, z2: int, r2: int, s2: int|
                                    ref_resolves_at(v0, category@, refs@[k as int], from, c2, z2, r2, s2);
                                if c2 < ci as int {
                                    assert(v0[c2].name@ != v0[ci as int].name@);
                                }
                                if (ci as int) < c2 {
                                    assert(v0[ci as int].name@ != v0[c2].name@);
                                }
                                assert(c2 == ci as int);
                                lemma_seat_identity_unique(
                                    v0,
                                    ci as int, zi as int, ri as int, si as int,
                                    c2, z2, r2, s2,
                                );
                                assert(seat_at(v0, ci as int, zi as int, ri as int, si as int).status == from);
                            }
                            assert(!ref_resolves(v0, category@, refs@[k as int], from));
                            assert(!can_transition(v0, category@, refs@, from));
                        }
                        return false;
                    }
                    proof {
                        assert(ref_resolves_at(
                            v0, category@, refs@[k as int], from,
                            ci as int, zi as int, ri as int, si as int,
                        ));
                    }
                },
            }
            k += 1;
        }
        // Commit pass: every reference is known valid, so each one is
        // located again (names never change) and flipped to `to`.
        let mut k: usize = 0;
        while k < refs.len()
            invariant
                wf(v0),
                k <= refs@.len(),
                ci < v0.len(),
                v0[ci as int].name@ == category@,
                forall|kk: int|
                    0 <= kk < refs@.len() ==> ref_resolves(v0, category@, #[trigger] refs@[kk], from),
                same_shape(v0, self.categories@),
                wf(self.categories@),
                forall|c2: int, z2: int, r2: int, s2: int|
                    valid_path(v0, c2, z2, r2, s2) ==> (#[trigger] seat_at(
                        self.categories@,
                        c2,
                        z2,
                        r2,
                        s2,
                    )).status == (if is_target(v0, category@, refs@.take(k as int), c2, z2, r2, s2) {
                        to
                    } else {
                        seat_at(v0, c2, z2, r2, s2).status
                    }),
            decreases refs@.len() - k,
        {
            let ghost vcur = self.categories@;
            let rf = &refs[k];
            proof {
                assert(wf_cat(self.categories@[ci as int]));
            }
            match seat_path(&self.categories[ci], rf) {
                None => {
                    proof {
                        assert(ref_resolves(v0, category@, refs@[k as int], from));
                        let (c2, z2, r2, s2) = choose|c2: int, z2: int, r2: int, s2: int|
                            ref_resolves_at(v0, category@, refs@[k as int], from, c2, z2, r2, s2);
                        if c2 < ci as int {
                            assert(v0[c2].name@ != v0[ci as int].name@);
                        }
                        if (ci as int) < c2 {
                            assert(v0[ci as int].name@ != v0[c2].name@);
                        }
                        assert(c2 == ci as int);
                        // The same path still matches in the current state,
                        // because the shape never changes.
                        lemma_same_shape_valid_path(v0, vcur, c2, z2, r2, s2);
                        assert(zone_of(vcur, c2, z2).name@ == zone_of(v0, c2, z2).name@);
                        assert(row_of(vcur, c2, z2, r2).number == row_of(v0, c2, z2, r2).number);
                        assert(seat_at(vcur, c2, z2, r2, s2).number == seat_at(v0, c2, z2, r2, s2).number);
                        assert(cat_path_matches(vcur[ci as int], refs@[k as int], z2, r2, s2));
                        assert(false);
                    }
                },
                Some((zi, ri, si)) => {
                    proof {
                        assert(valid_path(vcur, ci as int, zi as int, ri as int, si as int));
                    }
                    self.set_seat_status(ci, zi, ri, si, to);
                    proof {
                        let vnew = self.categories@;
                        lemma_same_shape_trans(v0, vcur, vnew);
                        lemma_same_shape_wf(v0, vnew);
                        let refs_k1 = refs@.take(k as int + 1);
                        let refs_k = refs@.take(k as int);
                        assert forall|c2: int, z2: int, r2: int, s2: int|
                            valid_path(v0, c2, z2, r2, s2) implies (#[trigger] seat_at(
                                vnew,
                                c2,
                                z2,
                                r2,
                                s2,
                            )).status == (if is_target(v0, category@, refs_k1, c2, z2, r2, s2) {
                                to
                            } else {
                                seat_at(v0, c2, z2, r2, s2).status
                            }) by {
                            lemma_same_shape_valid_path(v0, vcur, c2, z2, r2, s2);
                            if c2 == ci as int && z2 == zi as int && r2 == ri as int && s2 == si as int {
                                // The flipped seat is targeted by reference k.
                                assert(refs_k1[k as int] == refs@[k as int]);
                                assert(zone_of(v0, c2, z2).name@ == zone_of(vcur, c2, z2).name@);
                                assert(row_of(v0, c2, z2, r2).number == row_of(vcur, c2, z2, r2).number);
                                assert(seat_at(v0, c2, z2, r2, s2).number == seat_at(vcur, c2, z2, r2, s2).number);
                                assert(refs@[k as int].zone@ == zone_of(v0, c2, z2).name@);
                                assert(is_target(v0, category@, refs_k1, c2, z2, r2, s2));
                            } else {
                                assert(seat_at(vnew, c2, z2, r2, s2) == seat_at(vcur, c2, z2, r2, s2));
                                if is_target(v0, category@, refs_k1, c2, z2, r2, s2) {
                                    let kk = choose|kk: int|
                                        0 <= kk < refs_k1.len() && (#[trigger] refs_k1[kk]).zone@
                                            == zone_of(v0, c2, z2).name@ && refs_k1[kk].row == row_of(
                                            v0, c2, z2, r2,
                                        ).number && refs_k1[kk].number == seat_at(v0, c2, z2, r2, s2).number;
                                    if kk == k as int {
                                        // Reference k names both this seat and the
                                        // flipped one; identities are unique.
                                        assert(zone_of(v0, ci as int, zi as int).name@ == zone_of(vcur, ci as int, zi as int).name@);
                                        assert(row_of(v0, ci as int, zi as int, ri as int).number == row_of(vcur, ci as int, zi as int, ri as int).number);
                                        assert(seat_at(v0, ci as int, zi as int, ri as int, si as int).number == seat_at(vcur, ci as int, zi as int, ri as int, si as int).number);
                                        lemma_seat_identity_unique(
                                            v0,
                                            c2, z2, r2, s2,
                                            ci as int, zi as int, ri as int, si as int,
                                        );
                                        assert(false);
                                    } else {
                                        assert(refs_k[kk] == refs_k1[kk]);
                                        assert(is_target(v0, category@, refs_k, c2, z2, r2, s2));
                                    }
                                } else {
                                    if is_target(v0, category@, refs_k, c2, z2, r2, s2) {
                                        let kk = choose|kk: int|
                                            0 <= kk < refs_k.len() && (#[trigger] refs_k[kk]).zone@
                                                == zone_of(v0, c2, z2).name@ && refs_k[kk].row == row_of(
                                                v0, c2, z2, r2,
                                            ).number && refs_k[kk].number == seat_at(v0, c2, z2, r2, s2).number;
                                        assert(refs_k1[kk] == refs_k[kk]);
                                        assert(is_target(v0, category@, refs_k1, c2, z2, r2, s2));
                                    }
                                }
                            }
                        }
                    }
                },
            }
            k += 1;
        }
        proof {
            assert(refs@.take(refs@.len() as int) =~= refs@);
            assert(can_transition(v0, category@, refs@, from));
        }
        true
    }

    /// Reserve the referenced seats: succeeds exactly when the category
    /// exists and every referenced seat exists and is Free, and then moves
    /// exactly those seats to Reserved.  On failure nothing changes.
    pub fn reserve(&mut self, category: &str, refs: &Vec<SeatRef>) -> (r: bool)
        requires
            wf(old(self).categories@),
        ensures
            r == can_transition(old(self).categories@, category@, refs@, SeatStatus::Free),
            r ==> transitioned(
                old(self).categories@,
                final(self).categories@,
                category@,
                refs@,
                SeatStatus::Reserved,
            ),
            !r ==> final(self).categories@ == old(self).categories@,
            wf(final(self).categories@),
    {
        self.transition(category, refs, SeatStatus::Free, SeatStatus::Reserved)
    }

    /// Purchase the referenced seats: succeeds exactly when the category
    /// exists and every referenced seat exists and is Reserved, and then
    /// moves exactly those seats to Purchased.  On failure nothing changes.
    pub fn purchase(&mut self, category: &str, refs: &Vec<SeatRef>) -> (r: bool)
        requires
            wf(old(self).categories@),
        ensures
            r == can_transition(old(self).categories@, category@, refs@, SeatStatus::Reserved),
            r ==> transitioned(
                old(self).categories@,
                final(self).categories@,
                category@,
                refs@,
                SeatStatus::Purchased,
            ),
            !r ==> final(self).categories@ == old(self).categories@,
            wf(final(self).categories@),
    {
        self.transition(category, refs, SeatStatus::Reserved, SeatStatus::Purchased)
    }

    /// Release reserved seats back to Free (the cancellation hook):
    /// succeeds exactly when the category exists and every referenced seat
    /// exists and is Reserved.  On failure nothing changes.
    pub fn release(&mut self, category: &str, refs: &Vec<SeatRef>) -> (r: bool)
        requires
            wf(old(self).categories@),
        ensures
            r == can_transition(old(self).categories@, category@, refs@, SeatStatus::Reserved),
            r ==> transitioned(
                old(self).categories@,
                final(self).categories@,
                category@,
                refs@,
                SeatStatus::Free,
            ),
            !r ==> final(self).categories@ == old(self).categories@,
            wf(final(self).categories@),
    {
        self.transition(category, refs, SeatStatus::Reserved, SeatStatus::Free)
    }
}

} // verus!

verus! {

/// `n` adjacently-numbered Free seats start at index `j` of the row's
/// (ascending) seat sequence: a contiguous free run.
pub open spec fn run_at(seats: Seq<Seat>, j: int, n: int) -> bool {
    &&& 0 <= j
    &&& j + n <= seats.len()
    &&& forall|t: int|
        0 <= t < n ==> (#[trigger] seats[j + t]).status == SeatStatus::Free && seats[j
            + t].number == seats[j].number + t
}

pub open spec fn row_has_run(r: Row, n: int) -> bool {
    exists|j: int| run_at(r.seats@, j, n)
}

pub open spec fn zone_has_run(z: Zone, n: int) -> bool {
    exists|ri: int| 0 <= ri < z.rows@.len() && row_has_run(#[trigger] z.rows@[ri], n)
}

pub open spec fn cat_has_run(c: Category, n: int) -> bool {
    exists|zi: int| 0 <= zi < c.zones@.len() && zone_has_run(#[trigger] c.zones@[zi], n)
}

/// Some row of the named category holds a contiguous free run of length `n`.
pub open spec fn findable(v: Seq<Category>, cname: Seq<char>, n: int) -> bool {
    exists|ci: int| 0 <= ci < v.len() && (#[trigger] v[ci]).name@ == cname && cat_has_run(v[ci], n)
}

/// (ci, zi, ri, j) is the first qualifying run in scan order: zones in
/// definition order, rows in definition order, seats ascending.
pub open spec fn found_at(
    v: Seq<Category>,
    cname: Seq<char>,
    n: int,
    ci: int,
    zi: int,
    ri: int,
    j: int,
) -> bool {
    &&& 0 <= ci < v.len() && v[ci].name@ == cname
    &&& 0 <= zi < v[ci].zones@.len()
    &&& 0 <= ri < zone_of(v, ci, zi).rows@.len()
    &&& run_at(row_of(v, ci, zi, ri).seats@, j, n)
    &&& forall|z2: int| 0 <= z2 < zi ==> !zone_has_run(#[trigger] v[ci].zones@[z2], n)
    &&& forall|r2: int| 0 <= r2 < ri ==> !row_has_run(#[trigger] zone_of(v, ci, zi).rows@[r2], n)
    &&& forall|j2: int| 0 <= j2 < j ==> !run_at(row_of(v, ci, zi, ri).seats@, j2, n)
}

/// The full contract of the availability search: an empty result exactly
/// when no row of the category has a free run of length `n`; otherwise
/// exactly `n` references to the first such run in scan order.
pub open spec fn find_post(v: Seq<Category>, cname: Seq<char>, n: int, out: Seq<SeatRef>) -> bool {
    &&& (out.len() == 0 <==> !findable(v, cname, n))
    &&& out.len() != 0 ==> out.len() == n && (exists|ci: int, zi: int, ri: int, j: int|
        #[trigger] found_at(v, cname, n, ci, zi, ri, j) && (forall|k: int|
            0 <= k < n ==> (#[trigger] out[k]).zone@ == zone_of(v, ci, zi).name@ && out[k].row
                == row_of(v, ci, zi, ri).number && out[k].number == seat_at(
                v,
                ci,
                zi,
                ri,
                j + k,
            ).number))
}

/// Index of the first contiguous free run of length `n` in a row's seats,
/// if any.
fn row_first_run(seats: &Vec<Seat>, n: u32) -> (r: Option<usize>)
    requires
        n >= 1,
    ensures
        match r {
            Some(j) => run_at(seats@, j as int, n as int) && (forall|j2: int|
                0 <= j2 < j ==> !run_at(seats@, j2, n as int)),
            None => forall|j2: int| !run_at(seats@, j2, n as int),
        },
{
    let mut i: usize = 0;
    let mut start: usize = 0;
    while i < seats.len()
        invariant
            n >= 1,
            start <= i,
            i <= seats@.len(),
            i - start < n,
            forall|t: int|
                start <= t < i ==> (#[trigger] seats@[t]).status == SeatStatus::Free && seats@[t].number
                    == seats@[start as int].number + (t - start),
            forall|j2: int| 0 <= j2 && j2 + n <= i ==> !run_at(seats@, j2, n as int),
            start > 0 ==> (seats@[start - 1].status != SeatStatus::Free || (start < seats@.len()
                && seats@[start as int].number != seats@[start - 1].number + 1)),
        decreases seats@.len() - i,
    {
        if seats[i].status != SeatStatus::Free {
            proof {
                assert forall|j2: int| 0 <= j2 && j2 + n <= i + 1 implies !run_at(
                    seats@,
                    j2,
                    n as int,
                ) by {
                    if j2 + n > i && run_at(seats@, j2, n as int) {
                        assert(seats@[j2 + (i - j2)].status == SeatStatus::Free);
                    }
                }
            }
            start = i + 1;
        } else {
            if i > start {
                let prev = seats[i - 1].number;
                if prev == u32::MAX || seats[i].number != prev + 1 {
                    start = i;
                }
            }
            if (i - start) + 1 >= n as usize {
                proof {
                    assert forall|t: int| 0 <= t < n implies (#[trigger] seats@[start + t]).status
                        == SeatStatus::Free && seats@[start + t].number == seats@[start as int].number
                        + t by {
                        if start + t < i {
                            assert(seats@[start + t].status == SeatStatus::Free);
                        }
                    }
                    assert(run_at(seats@, start as int, n as int));
                }
                return Some(start);
            }
            proof {
                assert forall|j2: int| 0 <= j2 && j2 + n <= i + 1 implies !run_at(
                    seats@,
                    j2,
                    n as int,
                ) by {
                    if j2 + n > i && run_at(seats@, j2, n as int) {
                        // the window ends at i + 1 and begins strictly before
                        // `start`, so it straddles the defect recorded there
                        assert(j2 == i + 1 - n);
                        assert(j2 < start);
                        if seats@[start - 1].status != SeatStatus::Free {
                            assert(seats@[j2 + (start - 1 - j2)].status == SeatStatus::Free);
                        } else {
                            assert(seats@[j2 + (start - j2)].number == seats@[j2].number + (start
                                - j2));
                            assert(seats@[j2 + (start - 1 - j2)].number == seats@[j2].number + (
                            start - 1 - j2));
                        }
                    }
                }
            }
        }
        i += 1;
    }
    proof {
        assert forall|j2: int| !run_at(seats@, j2, n as int) by {
            if 0 <= j2 && j2 + n <= seats@.len() {
                assert(!run_at(seats@, j2, n as int));
            }
        }
    }
    None
}

impl SeatingStructure {
    /// Scan the named category for the first contiguous run of `count`
    /// Free seats (zones, then rows, in definition order; seats ascending)
    /// and return exactly `count` references from the start of that run.
    /// An empty result means no row qualifies; nothing is ever marked.
    pub fn find_available(&self, category: &str, count: u32) -> (res: Vec<SeatRef>)
        requires
            wf(self.categories@),
            count >= 1,
        ensures
            find_post(self.categories@, category@, count as int, res@),
    {
        let ghost gv = self.categories@;
        let ci = match find_cat_idx(&self.categories, category) {
            Some(ci) => ci,
            None => {
                proof {
                    assert(!findable(gv, category@, count as int));
                }
                return Vec::new();
            },
        };
        let mut zi: usize = 0;
        while zi < self.categories[ci].zones.len()
            invariant
                wf(gv),
                self.categories@ == gv,
                ci < gv.len(),
                gv[ci as int].name@ == category@,
                count >= 1,
                zi <= gv[ci as int].zones@.len(),
                forall|z2: int|
                    0 <= z2 < zi ==> !zone_has_run(#[trigger] gv[ci as int].zones@[z2], count as int),
            decreases gv[ci as int].zones@.len() - zi,
        {
            let mut ri: usize = 0;
            while ri < self.categories[ci].zones[zi].rows.len()
                invariant
                    wf(gv),
                    self.categories@ == gv,
                    ci < gv.len(),
                    gv[ci as int].name@ == category@,
                    count >= 1,
                    zi < gv[ci as int].zones@.len(),
                    ri <= zone_of(gv, ci as int, zi as int).rows@.len(),
                    forall|z2: int|
                        0 <= z2 < zi ==> !zone_has_run(
                            #[trigger] gv[ci as int].zones@[z2],
                            count as int,
                        ),
                    forall|r2: int|
                        0 <= r2 < ri ==> !row_has_run(
                            #[trigger] zone_of(gv, ci as int, zi as int).rows@[r2],
                            count as int,
                        ),
                decreases zone_of(gv, ci as int, zi as int).rows@.len() - ri,
            {
                match row_first_run(&self.categories[ci].zones[zi].rows[ri].seats, count) {
                    Some(j) => {
                        let ghost seats = row_of(gv, ci as int, zi as int, ri as int).seats@;
                        let slen = self.categories[ci].zones[zi].rows[ri].seats.len();
                        let mut out: Vec<SeatRef> = Vec::new();
                        let mut k: usize = 0;
                        while k < count as usize
                            invariant
                                self.categories@ == gv,
                                ci < gv.len(),
                                zi < gv[ci as int].zones@.len(),
                                ri < zone_of(gv, ci as int, zi as int).rows@.len(),
                                seats == row_of(gv, ci as int, zi as int, ri as int).seats@,
                                run_at(seats, j as int, count as int),
                                slen == seats.len(),
                                j + count <= slen,
                                k <= count,
                                out@.len() == k,
                                forall|kk: int|
                                    0 <= kk < k ==> (#[trigger] out@[kk]).zone@ == zone_of(
                                        gv,
                                        ci as int,
                                        zi as int,
                                    ).name@ && out@[kk].row == row_of(
                                        gv,
                                        ci as int,
                                        zi as int,
                                        ri as int,
                                    ).number && out@[kk].number == seat_at(
                                        gv,
                                        ci as int,
                                        zi as int,
                                        ri as int,
                                        j + kk,
                                    ).number,
                            decreases count - k,
                        {
                            let zone_name = self.categories[ci].zones[zi].name.clone();
                            let row_number = self.categories[ci].zones[zi].rows[ri].number;
                            let seat_number = self.categories[ci].zones[zi].rows[ri].seats[j + k].number;
                            out.push(SeatRef { zone: zone_name, row: row_number, number: seat_number });
                            k += 1;
                        }
                        proof {
                            assert(found_at(
                                gv,
                                category@,
                                count as int,
                                ci as int,
                                zi as int,
                                ri as int,
                                j as int,
                            ));
                            assert(cat_has_run(gv[ci as int], count as int)) by {
                                assert(row_has_run(
                                    zone_of(gv, ci as int, zi as int).rows@[ri as int],
                                    count as int,
                                ));
                                assert(zone_has_run(gv[ci as int].zones@[zi as int], count as int));
                            }
                            assert(findable(gv, category@, count as int));
                        }
                        return out;
                    },
                    None => {
                        proof {
                            assert(!row_has_run(
                                zone_of(gv, ci as int, zi as int).rows@[ri as int],
                                count as int,
                            )) by {
                                if row_has_run(
                                    zone_of(gv, ci as int, zi as int).rows@[ri as int],
                                    count as int,
                                ) {
                                    let j2 = choose|j2: int|
                                        run_at(
                                            zone_of(gv, ci as int, zi as int).rows@[ri as int].seats@,
                                            j2,
                                            count as int,
                                        );
                                    assert(false);
                                }
                            }
                        }
                    },
                }
                ri += 1;
            }
            proof {
                assert(!zone_has_run(gv[ci as int].zones@[zi as int], count as int));
            }
            zi += 1;
        }
        proof {
            assert(!cat_has_run(gv[ci as int], count as int));
            assert(!findable(gv, category@, count as int)) by {
                if findable(gv, category@, count as int) {
                    let c2 = choose|c2: int|
                        0 <= c2 < gv.len() && (#[trigger] gv[c2]).name@ == category@ && cat_has_run(
                            gv[c2],
                            count as int,
                        );
                    if c2 < ci as int {
                        assert(gv[c2].name@ != gv[ci as int].name@);
                    }
                    if (ci as int) < c2 {
                        assert(gv[ci as int].name@ != gv[c2].name@);
                    }
                }
            }
        }
        Vec::new()
    }
}

} // verus!

verus! {

/// Vision percentage of seat `n` in a fixture zone: with `m == 0` only the
/// first seat gets `hi`, otherwise every seat whose number is a multiple
/// of `m` gets `hi`; all other seats get `lo`.
pub open spec fn fixture_vision(m: u32, hi: u8, lo: u8, n: u32) -> u8 {
    if m == 0 {
        if n == 1 {
            hi
        } else {
            lo
        }
    } else {
        if n % m == 0 {
            hi
        } else {
            lo
        }
    }
}

/// `z` is a fixture zone: `nrows` rows numbered from 1, each with `nseats`
/// seats numbered from 1, all carrying `status` and the vision rule
/// (m, hi, lo).
pub open spec fn fixture_zone_at(
    z: Zone,
    name: Seq<char>,
    status: SeatStatus,
    nrows: int,
    nseats: int,
    m: u32,
    hi: u8,
    lo: u8,
) -> bool {
    &&& z.name@ == name
    &&& z.rows@.len() == nrows
    &&& forall|ri: int|
        0 <= ri < nrows ==> (#[trigger] z.rows@[ri]).number == ri + 1 && z.rows@[ri].seats@.len()
            == nseats
    &&& forall|ri: int, si: int|
        0 <= ri < nrows && 0 <= si < nseats ==> (#[trigger] z.rows@[ri].seats@[si]) == (Seat {
            status,
            vision_percentage: fixture_vision(m, hi, lo, (si + 1) as u32),
            number: (si + 1) as u32,
        })
}

/// The fixed venue layout built at start-up: a VIP category (ZonaA and
/// ZonaB free, ZonaC pre-seeded Reserved to exercise the "no free seats"
/// path) and a General category (ZonaC, ZonaD, ZonaE free), every zone
/// with 5 rows of 5 seats.
pub open spec fn is_fixture(v: Seq<Category>) -> bool {
    &&& v.len() == 2
    &&& v[0].name@ == "VIP"@
    &&& v[1].name@ == "General"@
    &&& v[0].zones@.len() == 3
    &&& v[1].zones@.len() == 3
    &&& fixture_zone_at(v[0].zones@[0], "ZonaA"@, SeatStatus::Free, 5, 5, 0, 100, 50)
    &&& fixture_zone_at(v[0].zones@[1], "ZonaB"@, SeatStatus::Free, 5, 5, 3, 100, 50)
    &&& fixture_zone_at(v[0].zones@[2], "ZonaC"@, SeatStatus::Reserved, 5, 5, 4, 100, 25)
    &&& fixture_zone_at(v[1].zones@[0], "ZonaC"@, SeatStatus::Free, 5, 5, 4, 100, 50)
    &&& fixture_zone_at(v[1].zones@[1], "ZonaD"@, SeatStatus::Free, 5, 5, 5, 100, 25)
    &&& fixture_zone_at(v[1].zones@[2], "ZonaE"@, SeatStatus::Free, 5, 5, 6, 100, 75)
}

/// Build one fixture zone.
fn build_zone(name: &str, status: SeatStatus, nrows: u32, nseats: u32, m: u32, hi: u8, lo: u8) -> (z: Zone)
    requires
        nrows < u32::MAX,
        nseats < u32::MAX,
    ensures
        fixture_zone_at(z, name@, status, nrows as int, nseats as int, m, hi, lo),
{
    let mut rows: Vec<Row> = Vec::new();
    let mut rn: u32 = 0;
    while rn < nrows
        invariant
            rn <= nrows,
            nrows < u32::MAX,
            nseats < u32::MAX,
            rows@.len() == rn,
            forall|ri: int|
                0 <= ri < rn ==> (#[trigger] rows@[ri]).number == ri + 1
                    && rows@[ri].seats@.len() == nseats,
            forall|ri: int, si: int|
                0 <= ri < rn && 0 <= si < nseats ==> (#[trigger] rows@[ri].seats@[si]) == (Seat {
                    status,
                    vision_percentage: fixture_vision(m, hi, lo, (si + 1) as u32),
                    number: (si + 1) as u32,
                }),
        decreases nrows - rn,
    {
        let mut seats: Vec<Seat> = Vec::new();
        let mut sn: u32 = 0;
        while sn < nseats
            invariant
                sn <= nseats,
                nseats < u32::MAX,
                seats@.len() == sn,
                forall|si: int|
                    0 <= si < sn ==> (#[trigger] seats@[si]) == (Seat {
                        status,
                        vision_percentage: fixture_vision(m, hi, lo, (si + 1) as u32),
                        number: (si + 1) as u32,
                    }),
            decreases nseats - sn,
        {
            let number = sn + 1;
            let vis = if m == 0 {
                if number == 1 {
                    hi
                } else {
                    lo
                }
            } else {
                if number % m == 0 {
                    hi
                } else {
                    lo
                }
            };
            seats.push(Seat { status, vision_percentage: vis, number });
            sn += 1;
        }
        rows.push(Row { number: rn + 1, seats });
        rn += 1;
    }
    Zone { name: name.to_owned(), rows }
}

impl SeatingStructure {
    /// Build the fixed start-up inventory.  Every seat starts Free except
    /// the VIP ZonaC block, which is pre-seeded Reserved.
    pub fn new() -> (s: SeatingStructure)
        ensures
            is_fixture(s.categories@),
            wf(s.categories@),
    {
        let mut vip_zones: Vec<Zone> = Vec::new();
        vip_zones.push(build_zone("ZonaA", SeatStatus::Free, 5, 5, 0, 100, 50));
        vip_zones.push(build_zone("ZonaB", SeatStatus::Free, 5, 5, 3, 100, 50));
        vip_zones.push(build_zone("ZonaC", SeatStatus::Reserved, 5, 5, 4, 100, 25));
        let mut gen_zones: Vec<Zone> = Vec::new();
        gen_zones.push(build_zone("ZonaC", SeatStatus::Free, 5, 5, 4, 100, 50));
        gen_zones.push(build_zone("ZonaD", SeatStatus::Free, 5, 5, 5, 100, 25));
        gen_zones.push(build_zone("ZonaE", SeatStatus::Free, 5, 5, 6, 100, 75));
        let mut categories: Vec<Category> = Vec::new();
        categories.push(Category { name: "VIP".to_owned(), zones: vip_zones });
        categories.push(Category { name: "General".to_owned(), zones: gen_zones });
        let s = SeatingStructure { categories };
        proof {
            let v = s.categories@;
            assert(is_fixture(v));
            lemma_fixture_wf(v);
        }
        s
    }
}

/// The fixture layout satisfies the inventory invariant.
pub proof fn lemma_fixture_wf(v: Seq<Category>)
    requires
        is_fixture(v),
    ensures
        wf(v),
{
    reveal_strlit("VIP");
    reveal_strlit("General");
    reveal_strlit("ZonaA");
    reveal_strlit("ZonaB");
    reveal_strlit("ZonaC");
    reveal_strlit("ZonaD");
    reveal_strlit("ZonaE");
    assert("VIP"@ != "General"@) by {
        assert("VIP"@.len() == 3);
        assert("General"@.len() == 7);
    }
    assert("ZonaA"@ != "ZonaB"@) by {
        assert("ZonaA"@[4] == 'A');
        assert("ZonaB"@[4] == 'B');
    }
    assert("ZonaA"@ != "ZonaC"@) by {
        assert("ZonaA"@[4] == 'A');
        assert("ZonaC"@[4] == 'C');
    }
    assert("ZonaB"@ != "ZonaC"@) by {
        assert("ZonaB"@[4] == 'B');
        assert("ZonaC"@[4] == 'C');
    }
    assert("ZonaC"@ != "ZonaD"@) by {
        assert("ZonaC"@[4] == 'C');
        assert("ZonaD"@[4] == 'D');
    }
    assert("ZonaC"@ != "ZonaE"@) by {
        assert("ZonaC"@[4] == 'C');
        assert("ZonaE"@[4] == 'E');
    }
    assert("ZonaD"@ != "ZonaE"@) by {
        assert("ZonaD"@[4] == 'D');
        assert("ZonaE"@[4] == 'E');
    }
    assert forall|i: int| 0 <= i < v.len() implies wf_cat(#[trigger] v[i]) by {
        assert forall|zi: int| 0 <= zi < v[i].zones@.len() implies wf_zone(
            #[trigger] v[i].zones@[zi],
        ) by {
            let z = v[i].zones@[zi];
            assert forall|ri: int| 0 <= ri < z.rows@.len() implies wf_row(
                #[trigger] z.rows@[ri],
            ) by {
                let r = z.rows@[ri];
                assert forall|s1: int, s2: int| 0 <= s1 < s2 < r.seats@.len() implies (
                #[trigger] r.seats@[s1].number) < (#[trigger] r.seats@[s2].number) by {
                    assert(r.seats@[s1].number == s1 + 1);
                    assert(r.seats@[s2].number == s2 + 1);
                }
                assert forall|s1: int| 0 <= s1 < r.seats@.len() implies 1 <= (
                #[trigger] r.seats@[s1]).number && r.seats@[s1].vision_percentage <= 100 by {
                    assert(r.seats@[s1].number == s1 + 1);
                }
            }
        }
    }
}

} // verus!

verus! {

/// Monotonic status law: under the three protocol edges
/// (Free -> Reserved by reserve, Reserved -> Purchased by purchase,
/// Reserved -> Free by release) a successful batch changes each seat
/// either not at all or exactly along the edge taken; no seat ever skips a
/// state, and a Purchased seat is never moved.
pub proof fn lemma_transition_monotonic(
    v: Seq<Category>,
    w: Seq<Category>,
    cname: Seq<char>,
    refs: Seq<SeatRef>,
    from: SeatStatus,
    to: SeatStatus,
)
    requires
        wf(v),
        can_transition(v, cname, refs, from),
        transitioned(v, w, cname, refs, to),
        (from == SeatStatus::Free && to == SeatStatus::Reserved) || (from == SeatStatus::Reserved
            && to == SeatStatus::Purchased) || (from == SeatStatus::Reserved && to
            == SeatStatus::Free),
    ensures
        forall|ci: int, zi: int, ri: int, si: int|
            valid_path(v, ci, zi, ri, si) ==> (#[trigger] seat_at(w, ci, zi, ri, si)).status
                == seat_at(v, ci, zi, ri, si).status || (seat_at(v, ci, zi, ri, si).status == from
                && seat_at(w, ci, zi, ri, si).status == to),
{
    assert forall|ci: int, zi: int, ri: int, si: int|
        valid_path(v, ci, zi, ri, si) implies (#[trigger] seat_at(w, ci, zi, ri, si)).status
        == seat_at(v, ci, zi, ri, si).status || (seat_at(v, ci, zi, ri, si).status == from
        && seat_at(w, ci, zi, ri, si).status == to) by {
        if is_target(v, cname, refs, ci, zi, ri, si) {
            let k = choose|k: int|
                0 <= k < refs.len() && (#[trigger] refs[k]).zone@ == zone_of(v, ci, zi).name@
                    && refs[k].row == row_of(v, ci, zi, ri).number && refs[k].number == seat_at(
                    v,
                    ci,
                    zi,
                    ri,
                    si,
                ).number;
            assert(ref_resolves(v, cname, refs[k], from));
            let (c2, z2, r2, s2) = choose|c2: int, z2: int, r2: int, s2: int|
                ref_resolves_at(v, cname, refs[k], from, c2, z2, r2, s2);
            lemma_seat_identity_unique(v, ci, zi, ri, si, c2, z2, r2, s2);
            assert(seat_at(v, ci, zi, ri, si).status == from);
        }
    }
}

/// No double booking: after one reserve batch succeeds, a second reserve
/// batch that names any seat of the first (same zone, row and seat number
/// under the same category) can no longer succeed.
pub proof fn lemma_no_double_booking(
    v: Seq<Category>,
    w: Seq<Category>,
    cname: Seq<char>,
    refs1: Seq<SeatRef>,
    refs2: Seq<SeatRef>,
    k1: int,
    k2: int,
)
    requires
        wf(v),
        can_transition(v, cname, refs1, SeatStatus::Free),
        transitioned(v, w, cname, refs1, SeatStatus::Reserved),
        0 <= k1 < refs1.len(),
        0 <= k2 < refs2.len(),
        refs1[k1].zone@ == refs2[k2].zone@,
        refs1[k1].row == refs2[k2].row,
        refs1[k1].number == refs2[k2].number,
    ensures
        !can_transition(w, cname, refs2, SeatStatus::Free),
{
    assert(ref_resolves(v, cname, refs1[k1], SeatStatus::Free));
    let (ci, zi, ri, si) = choose|ci: int, zi: int, ri: int, si: int|
        ref_resolves_at(v, cname, refs1[k1], SeatStatus::Free, ci, zi, ri, si);
    // The shared seat is a target of the first batch, so it is Reserved in w.
    assert(is_target(v, cname, refs1, ci, zi, ri, si));
    assert(seat_at(w, ci, zi, ri, si).status == SeatStatus::Reserved);
    if can_transition(w, cname, refs2, SeatStatus::Free) {
        assert(ref_resolves(w, cname, refs2[k2], SeatStatus::Free));
        let (c2, z2, r2, s2) = choose|c2: int, z2: int, r2: int, s2: int|
            ref_resolves_at(w, cname, refs2[k2], SeatStatus::Free, c2, z2, r2, s2);
        // Pull the path back into v: same shape, same names and numbers.
        assert(valid_path(v, c2, z2, r2, s2)) by {
            assert(w[c2].zones@.len() == v[c2].zones@.len());
            assert(zone_of(w, c2, z2).rows@.len() == zone_of(v, c2, z2).rows@.len());
            assert(row_of(w, c2, z2, r2).seats@.len() == row_of(v, c2, z2, r2).seats@.len());
        }
        assert(v[c2].name@ == cname);
        assert(zone_of(v, c2, z2).name@ == refs1[k1].zone@);
        assert(row_of(v, c2, z2, r2).number == refs1[k1].row);
        assert(seat_at(v, c2, z2, r2, s2).number == refs1[k1].number);
        lemma_seat_identity_unique(v, ci, zi, ri, si, c2, z2, r2, s2);
        assert(seat_at(w, ci, zi, ri, si).status == SeatStatus::Free);
    }
}

/// All-or-nothing: a batch that names even one seat that exists but is not
/// Free cannot reserve; with the reserve contract this leaves every seat
/// of the batch, Free ones included, unchanged.
pub proof fn lemma_all_or_nothing(
    v: Seq<Category>,
    cname: Seq<char>,
    refs: Seq<SeatRef>,
    k: int,
    ci: int,
    zi: int,
    ri: int,
    si: int,
)
    requires
        wf(v),
        0 <= k < refs.len(),
        valid_path(v, ci, zi, ri, si),
        v[ci].name@ == cname,
        zone_of(v, ci, zi).name@ == refs[k].zone@,
        row_of(v, ci, zi, ri).number == refs[k].row,
        seat_at(v, ci, zi, ri, si).number == refs[k].number,
        seat_at(v, ci, zi, ri, si).status != SeatStatus::Free,
    ensures
        !can_transition(v, cname, refs, SeatStatus::Free),
{
    if can_transition(v, cname, refs, SeatStatus::Free) {
        assert(ref_resolves(v, cname, refs[k], SeatStatus::Free));
        let (c2, z2, r2, s2) = choose|c2: int, z2: int, r2: int, s2: int|
            ref_resolves_at(v, cname, refs[k], SeatStatus::Free, c2, z2, r2, s2);
        lemma_seat_identity_unique(v, ci, zi, ri, si, c2, z2, r2, s2);
    }
}

} // verus!
