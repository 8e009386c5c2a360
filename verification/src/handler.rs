//! One request, one response: decode a protocol line, run the inventory
//! operation it names, and encode the outcome.  This is the whole of a
//! connection handler's work between one read and one write; the caller
//! holds the inventory lock for the duration of the call.

use vstd::prelude::*;
use vstd::string::StringExecFns;
use crate::codec::Command;
use crate::codec::digits_val;
use crate::codec::encode_find;
use crate::codec::encode_purchase;
use crate::codec::encode_reserve;
use crate::codec::decode;
use crate::codec::error_text;
use crate::codec::expected_error;
use crate::codec::lemma_keywords_distinct;
use crate::codec::render_find;
use crate::codec::token_views;
use crate::codec::tokenize;
use crate::codec::tokens_of;
use crate::codec::tokens_well_formed;
use crate::seating::SeatRef;
use crate::seating::SeatStatus;
use crate::seating::SeatingStructure;
use crate::seating::can_transition;
use crate::seating::find_post;
use crate::seating::transitioned;
use crate::seating::wf;
use crate::seating::Category;

verus! {

/// `refs` is the seat-reference batch a reserve or purchase token list
/// names: one reference per seat token, all in the named zone and row.
pub open spec fn batch_matches(ts: Seq<Seq<char>>, refs: Seq<SeatRef>) -> bool {
    &&& refs.len() == ts.len() - 4
    &&& forall|k: int|
        0 <= k < refs.len() ==> (#[trigger] refs[k]).zone@ == ts[2] && refs[k].row as nat
            == digits_val(ts[3]) && refs[k].number as nat == digits_val(ts[4 + k])
}

/// The request/response relation: `w` and `resp` are the inventory state
/// and the response text owed after one request line against state `v`.
pub open spec fn handled(
    v: Seq<Category>,
    w: Seq<Category>,
    line: Seq<char>,
    resp: Seq<char>,
) -> bool {
    let ts = tokens_of(line);
    if !tokens_well_formed(ts) {
        w == v && resp == error_text(expected_error(ts))
    } else if ts[0] == "find"@ {
        w == v && exists|out: Seq<SeatRef>|
            #[trigger] find_post(v, ts[1], digits_val(ts[2]) as int, out) && resp == render_find(
                out,
            )
    } else if ts[0] == "reserve"@ {
        exists|refs: Seq<SeatRef>|
            #[trigger] batch_matches(ts, refs) && if can_transition(
                v,
                ts[1],
                refs,
                SeatStatus::Free,
            ) {
                transitioned(v, w, ts[1], refs, SeatStatus::Reserved) && resp
                    == "Seats reserved successfully"@
            } else {
                w == v && resp == "Failed to reserve seats"@
            }
    } else {
        exists|refs: Seq<SeatRef>|
            #[trigger] batch_matches(ts, refs) && if can_transition(
                v,
                ts[1],
                refs,
                SeatStatus::Reserved,
            ) {
                transitioned(v, w, ts[1], refs, SeatStatus::Purchased) && resp
                    == "Seats purchased successfully"@
            } else {
                w == v && resp == "Failed to purchase seats"@
            }
    }
}

/// Turn a decoded zone/row/seat-list into one reference per seat.
fn build_refs(zone: &String, row: u32, seats: &Vec<u32>) -> (refs: Vec<SeatRef>)
    ensures
        refs@.len() == seats@.len(),
        forall|k: int|
            0 <= k < refs@.len() ==> (#[trigger] refs@[k]).zone@ == zone@ && refs@[k].row == row
                && refs@[k].number == seats@[k],
{
    let mut refs: Vec<SeatRef> = Vec::new();
    let mut k: usize = 0;
    while k < seats.len()
        invariant
            k <= seats@.len(),
            refs@.len() == k,
            forall|kk: int|
                0 <= kk < k ==> (#[trigger] refs@[kk]).zone@ == zone@ && refs@[kk].row == row
                    && refs@[kk].number == seats@[kk],
        decreases seats@.len() - k,
    {
        refs.push(SeatRef { zone: zone.clone(), row, number: seats[k] });
        k += 1;
    }
    refs
}

/// Serve one request line: decode it, execute the named operation against
/// the inventory, and return the response text.  A malformed line or a
/// failed batch leaves the inventory untouched; a find never mutates it.
pub fn handle_request(inv: &mut SeatingStructure, line: &str) -> (resp: String)
    requires
        wf(old(inv).categories@),
    ensures
        wf(final(inv).categories@),
        handled(old(inv).categories@, final(inv).categories@, line@, resp@),
{
    let ghost v0 = old(inv).categories@;
    let tokens = tokenize(line);
    let ghost ts = tokens_of(line@);
    proof {
        lemma_keywords_distinct();
        assert(token_views(tokens@) == ts);
    }
    match decode(&tokens) {
        Err(e) => {
            let resp = e.message().to_owned();
            resp
        },
        Ok(Command::Find { category, count }) => {
            let res = inv.find_available(category.as_str(), count);
            proof {
                assert(find_post(v0, ts[1], digits_val(ts[2]) as int, res@));
            }
            encode_find(&res)
        },
        Ok(Command::Reserve { category, zone, row, seats }) => {
            let refs = build_refs(&zone, row, &seats);
            proof {
                assert(batch_matches(ts, refs@));
            }
            let ok = inv.reserve(category.as_str(), &refs);
            encode_reserve(ok)
        },
        Ok(Command::Purchase { category, zone, row, seats }) => {
            let refs = build_refs(&zone, row, &seats);
            proof {
                assert(batch_matches(ts, refs@));
            }
            let ok = inv.purchase(category.as_str(), &refs);
            encode_purchase(ok)
        },
    }
}

} // verus!
