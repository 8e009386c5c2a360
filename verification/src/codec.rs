//! The text protocol codec: one whitespace-tokenized request line decodes
//! to a typed command (or a parse error naming the expected shape), and
//! every operation result encodes to its fixed response text.

use vstd::prelude::*;
use vstd::string::StrSliceExecFns;
use vstd::string::StringExecFns;
use crate::seating::SeatRef;
use crate::seating::str_eq;

verus! {

/// The whitespace that separates tokens on a request line.
pub open spec fn is_space_char(c: char) -> bool {
    c == ' ' || c == '\t' || c == '\r' || c == '\n'
}

/// Length of the leading token (maximal non-space prefix) of `s`.
pub open spec fn token_len(s: Seq<char>) -> nat
    decreases s.len(),
{
    if s.len() == 0 || is_space_char(s[0]) {
        0
    } else {
        1 + token_len(s.skip(1))
    }
}

proof fn lemma_token_len_le(s: Seq<char>)
    ensures
        token_len(s) <= s.len(),
    decreases s.len(),
{
    if s.len() != 0 && !is_space_char(s[0]) {
        lemma_token_len_le(s.skip(1));
    }
}

/// The whitespace-separated tokens of `s`, in order.
pub open spec fn tokens_of(s: Seq<char>) -> Seq<Seq<char>>
    decreases s.len(),
    when s.len() >= 0
    via tokens_of_decreases
{
    if s.len() == 0 {
        Seq::empty()
    } else if is_space_char(s[0]) {
        tokens_of(s.skip(1))
    } else {
        seq![s.take(token_len(s) as int)] + tokens_of(s.skip(token_len(s) as int))
    }
}

#[via_fn]
proof fn tokens_of_decreases(s: Seq<char>)
{
    if s.len() != 0 && !is_space_char(s[0]) {
        lemma_token_len_le(s);
    }
}

/// The leading token has length `m` when the first `m` characters are
/// non-space and a space (or the end) follows.
proof fn lemma_token_len_eq(s: Seq<char>, m: int)
    requires
        0 <= m <= s.len(),
        forall|t: int| 0 <= t < m ==> !is_space_char(#[trigger] s[t]),
        m == s.len() || is_space_char(s[m]),
    ensures
        token_len(s) == m,
    decreases m,
{
    if m == 0 {
    } else {
        assert(!is_space_char(s[0]));
        let s1 = s.skip(1);
        assert forall|t: int| 0 <= t < m - 1 implies !is_space_char(#[trigger] s1[t]) by {
            assert(s1[t] == s[t + 1]);
        }
        if m < s.len() {
            assert(s1[m - 1] == s[m]);
        }
        lemma_token_len_eq(s1, m - 1);
    }
}

/// The views of a token list.
pub open spec fn token_views(ts: Seq<String>) -> Seq<Seq<char>> {
    ts.map(|i: int, t: String| t@)
}

fn is_space(c: char) -> (r: bool)
    ensures
        r == is_space_char(c),
{
    c == ' ' || c == '\t' || c == '\r' || c == '\n'
}

/// Split a request line into its whitespace-separated tokens.
pub fn tokenize(line: &str) -> (tokens: Vec<String>)
    ensures
        token_views(tokens@) == tokens_of(line@),
{
    let len = line.unicode_len();
    let mut tokens: Vec<String> = Vec::new();
    let mut i: usize = 0;
    proof {
        assert(line@.skip(0) =~= line@);
        assert(token_views(tokens@) + tokens_of(line@.skip(0)) =~= tokens_of(line@));
    }
    while i < len
        invariant
            len == line@.len(),
            i <= len,
            token_views(tokens@) + tokens_of(line@.skip(i as int)) == tokens_of(line@),
        decreases len - i,
    {
        let c = line.get_char(i);
        if is_space(c) {
            proof {
                let suf = line@.skip(i as int);
                assert(suf[0] == line@[i as int]);
                assert(suf.skip(1) =~= line@.skip(i + 1));
                assert(token_views(tokens@) + tokens_of(line@.skip(i + 1)) =~= tokens_of(line@));
            }
            i += 1;
        } else {
            let start = i;
            i += 1;
            while i < len && !is_space(line.get_char(i))
                invariant
                    len == line@.len(),
                    start < i <= len,
                    forall|t: int| start <= t < i ==> !is_space_char(#[trigger] line@[t]),
                decreases len - i,
            {
                i += 1;
            }
            let tok = line.substring_char(start, i).to_owned();
            proof {
                let suf = line@.skip(start as int);
                let m = i - start;
                assert forall|t: int| 0 <= t < m implies !is_space_char(#[trigger] suf[t]) by {
                    assert(suf[t] == line@[start + t]);
                }
                if i < len {
                    assert(suf[m] == line@[i as int]);
                }
                lemma_token_len_eq(suf, m);
                assert(suf.take(m) =~= line@.subrange(start as int, i as int));
                assert(suf.skip(m) =~= line@.skip(i as int));
                assert(tokens_of(suf) == seq![tok@] + tokens_of(line@.skip(i as int)));
                assert(token_views(tokens@.push(tok)) =~= token_views(tokens@) + seq![tok@]);
                assert(token_views(tokens@.push(tok)) + tokens_of(line@.skip(i as int))
                    =~= tokens_of(line@));
            }
            tokens.push(tok);
        }
    }
    proof {
        assert(line@.skip(len as int) =~= Seq::<char>::empty());
        assert(token_views(tokens@) + tokens_of(line@.skip(len as int)) =~= token_views(tokens@));
    }
    tokens
}

/// Decimal digit characters.
pub open spec fn is_digit(c: char) -> bool {
    48 <= c as u32 <= 57
}

pub open spec fn digit_val(c: char) -> nat {
    if c as u32 >= 48 {
        (c as u32 - 48) as nat
    } else {
        0
    }
}

pub open spec fn all_digits(s: Seq<char>) -> bool {
    forall|i: int| 0 <= i < s.len() ==> is_digit(#[trigger] s[i])
}

/// The numeric value of a digit string, most significant digit first.
pub open spec fn digits_val(s: Seq<char>) -> nat
    decreases s.len(),
{
    if s.len() == 0 {
        0
    } else {
        digits_val(s.drop_last()) * 10 + digit_val(s.last())
    }
}

/// `s` is a decimal numeral whose value fits in a u32.
pub open spec fn valid_u32(s: Seq<char>) -> bool {
    s.len() >= 1 && all_digits(s) && digits_val(s) <= u32::MAX
}

proof fn lemma_digits_val_prefix(s: Seq<char>, m: int)
    requires
        0 <= m <= s.len(),
    ensures
        digits_val(s) >= digits_val(s.take(m)),
    decreases s.len() - m,
{
    if m == s.len() {
        assert(s.take(m) =~= s);
    } else {
        assert(s.take(m + 1).drop_last() =~= s.take(m));
        assert(digits_val(s.take(m + 1)) == digits_val(s.take(m)) * 10 + digit_val(
            s.take(m + 1).last(),
        ));
        lemma_digits_val_prefix(s, m + 1);
    }
}

/// Parse a decimal numeral; `None` exactly when `t` is not a numeral or
/// its value does not fit in a u32.
pub fn parse_u32(t: &str) -> (r: Option<u32>)
    ensures
        match r {
            Some(v) => valid_u32(t@) && v as nat == digits_val(t@),
            None => !valid_u32(t@),
        },
{
    let len = t.unicode_len();
    if len == 0 {
        return None;
    }
    let mut acc: u32 = 0;
    let mut i: usize = 0;
    proof {
        assert(t@.take(0) =~= Seq::<char>::empty());
    }
    while i < len
        invariant
            len == t@.len(),
            i <= len,
            all_digits(t@.take(i as int)),
            acc as nat == digits_val(t@.take(i as int)),
        decreases len - i,
    {
        let c = t.get_char(i);
        let code = c as u32;
        proof {
            assert(t@.take(i + 1).drop_last() =~= t@.take(i as int));
            assert(t@.take(i + 1).last() == t@[i as int]);
        }
        if code < 48 || code > 57 {
            proof {
                assert(!is_digit(t@[i as int]));
            }
            return None;
        }
        let d = code - 48;
        if acc > (u32::MAX - d) / 10 {
            proof {
                assert(digits_val(t@.take(i + 1)) == acc * 10 + d);
                assert(acc * 10 + d > u32::MAX) by {
                    let q = ((u32::MAX - d) / 10) as int;
                    assert(q * 10 + ((u32::MAX - d) as int % 10) == u32::MAX - d);
                    assert(acc >= q + 1);
                    assert(acc * 10 >= (q + 1) * 10);
                }
                lemma_digits_val_prefix(t@, i + 1);
            }
            return None;
        }
        acc = acc * 10 + d;
        proof {
            assert(all_digits(t@.take(i + 1)));
        }
        i += 1;
    }
    proof {
        assert(t@.take(len as int) =~= t@);
    }
    Some(acc)
}

/// The character of a decimal digit value.
pub open spec fn dec_digit_char(d: int) -> char {
    ((d + 48) as u8) as char
}

/// The decimal numeral of `n`, most significant digit first, no leading
/// zeros (a single "0" for zero).
pub open spec fn dec_rep(n: int) -> Seq<char>
    decreases n,
{
    if n < 10 {
        seq![dec_digit_char(n)]
    } else {
        dec_rep(n / 10).push(dec_digit_char(n % 10))
    }
}

fn digit_str(d: u32) -> (s: &'static str)
    requires
        d < 10,
    ensures
        s@ == seq![dec_digit_char(d as int)],
{
    let s: &'static str = match d {
        0 => "0",
        1 => "1",
        2 => "2",
        3 => "3",
        4 => "4",
        5 => "5",
        6 => "6",
        7 => "7",
        8 => "8",
        _ => "9",
    };
    proof {
        reveal_strlit("0");
        reveal_strlit("1");
        reveal_strlit("2");
        reveal_strlit("3");
        reveal_strlit("4");
        reveal_strlit("5");
        reveal_strlit("6");
        reveal_strlit("7");
        reveal_strlit("8");
        reveal_strlit("9");
        assert(s@ =~= seq![dec_digit_char(d as int)]);
    }
    s
}

/// Render `n` in decimal.
pub fn u32_to_string(n: u32) -> (s: String)
    ensures
        s@ == dec_rep(n as int),
    decreases n,
{
    if n < 10 {
        digit_str(n).to_owned()
    } else {
        let mut s = u32_to_string(n / 10);
        s.append(digit_str(n % 10));
        proof {
            assert(s@ =~= dec_rep((n / 10) as int).push(dec_digit_char((n % 10) as int)));
        }
        s
    }
}

} // verus!

verus! {

/// A decoded protocol command.
#[derive(Debug, PartialEq)]
pub enum Command {
    Find { category: String, count: u32 },
    Reserve { category: String, zone: String, row: u32, seats: Vec<u32> },
    Purchase { category: String, zone: String, row: u32, seats: Vec<u32> },
}

/// A decode failure, naming the command shape that was expected.
#[derive(Clone, Copy, PartialEq, Eq, Structural, Debug)]
pub enum ParseError {
    UnknownCommand,
    InvalidFind,
    InvalidReserve,
    InvalidPurchase,
}

/// The human-readable text of each decode failure.
pub open spec fn error_text(e: ParseError) -> Seq<char> {
    match e {
        ParseError::UnknownCommand => "Unknown command"@,
        ParseError::InvalidFind => "Invalid request. Expected: find <category> <count>"@,
        ParseError::InvalidReserve => "Invalid request. Expected: reserve <category> <zone> <row> <seat> [<seat> ...]"@,
        ParseError::InvalidPurchase => "Invalid request. Expected: purchase <category> <zone> <row> <seat> [<seat> ...]"@,
    }
}

impl ParseError {
    /// The response line for this decode failure.
    pub fn message(&self) -> (s: &'static str)
        ensures
            s@ == error_text(*self),
    {
        match self {
            ParseError::UnknownCommand => "Unknown command",
            ParseError::InvalidFind => "Invalid request. Expected: find <category> <count>",
            ParseError::InvalidReserve => "Invalid request. Expected: reserve <category> <zone> <row> <seat> [<seat> ...]",
            ParseError::InvalidPurchase => "Invalid request. Expected: purchase <category> <zone> <row> <seat> [<seat> ...]",
        }
    }
}

/// Token shape of a well-formed find command: `find <category> <count>`
/// with a positive count.
pub open spec fn find_tokens_ok(ts: Seq<Seq<char>>) -> bool {
    ts.len() == 3 && valid_u32(ts[2]) && digits_val(ts[2]) >= 1
}

/// Token shape of a well-formed reserve or purchase command:
/// `<keyword> <category> <zone> <row> <seat> [<seat> ...]` with positive
/// row and seat numbers.
pub open spec fn multi_tokens_ok(ts: Seq<Seq<char>>) -> bool {
    &&& ts.len() >= 5
    &&& valid_u32(ts[3]) && digits_val(ts[3]) >= 1
    &&& forall|k: int|
        4 <= k < ts.len() ==> valid_u32(#[trigger] ts[k]) && digits_val(ts[k]) >= 1
}

/// The token list parses as some command.
pub open spec fn tokens_well_formed(ts: Seq<Seq<char>>) -> bool {
    ts.len() >= 1 && ((ts[0] == "find"@ && find_tokens_ok(ts)) || (ts[0] == "reserve"@
        && multi_tokens_ok(ts)) || (ts[0] == "purchase"@ && multi_tokens_ok(ts)))
}

/// The decode failure owed to a malformed token list.
pub open spec fn expected_error(ts: Seq<Seq<char>>) -> ParseError {
    if ts.len() == 0 {
        ParseError::UnknownCommand
    } else if ts[0] == "find"@ {
        ParseError::InvalidFind
    } else if ts[0] == "reserve"@ {
        ParseError::InvalidReserve
    } else if ts[0] == "purchase"@ {
        ParseError::InvalidPurchase
    } else {
        ParseError::UnknownCommand
    }
}

/// `c` is the command the token list spells.
pub open spec fn command_matches(ts: Seq<Seq<char>>, c: Command) -> bool {
    match c {
        Command::Find { category, count } => {
            &&& ts.len() == 3
            &&& ts[0] == "find"@
            &&& category@ == ts[1]
            &&& valid_u32(ts[2])
            &&& count as nat == digits_val(ts[2])
            &&& count >= 1
        },
        Command::Reserve { category, zone, row, seats } => {
            &&& ts.len() >= 5
            &&& ts[0] == "reserve"@
            &&& category@ == ts[1]
            &&& zone@ == ts[2]
            &&& valid_u32(ts[3])
            &&& row as nat == digits_val(ts[3])
            &&& row >= 1
            &&& seats@.len() == ts.len() - 4
            &&& forall|k: int|
                0 <= k < seats@.len() ==> valid_u32(ts[4 + k]) && (#[trigger] seats@[k]) as nat
                    == digits_val(ts[4 + k]) && seats@[k] >= 1
        },
        Command::Purchase { category, zone, row, seats } => {
            &&& ts.len() >= 5
            &&& ts[0] == "purchase"@
            &&& category@ == ts[1]
            &&& zone@ == ts[2]
            &&& valid_u32(ts[3])
            &&& row as nat == digits_val(ts[3])
            &&& row >= 1
            &&& seats@.len() == ts.len() - 4
            &&& forall|k: int|
                0 <= k < seats@.len() ==> valid_u32(ts[4 + k]) && (#[trigger] seats@[k]) as nat
                    == digits_val(ts[4 + k]) && seats@[k] >= 1
        },
    }
}

/// Parse the `<row> <seat> [<seat> ...]` tail shared by reserve and
/// purchase: `None` exactly when some numeral is malformed or zero, or the
/// arity is short.
fn parse_multi_args(tokens: &Vec<String>) -> (r: Option<(u32, Vec<u32>)>)
    ensures
        match r {
            Some(p) => {
                &&& token_views(tokens@).len() >= 5
                &&& valid_u32(token_views(tokens@)[3])
                &&& p.0 as nat == digits_val(token_views(tokens@)[3])
                &&& p.0 >= 1
                &&& p.1@.len() == token_views(tokens@).len() - 4
                &&& forall|k: int|
                    4 <= k < token_views(tokens@).len() ==> valid_u32(
                        #[trigger] token_views(tokens@)[k],
                    ) && digits_val(token_views(tokens@)[k]) >= 1
                &&& forall|k: int|
                    0 <= k < p.1@.len() ==> (#[trigger] p.1@[k]) as nat == digits_val(
                        token_views(tokens@)[4 + k],
                    ) && p.1@[k] >= 1
            },
            None => !multi_tokens_ok(token_views(tokens@)),
        },
{
    let ghost ts = token_views(tokens@);
    proof {
        assert(ts.len() == tokens@.len());
        assert forall|k: int| 0 <= k < tokens@.len() implies #[trigger] ts[k] == tokens@[k]@ by {}
    }
    if tokens.len() < 5 {
        return None;
    }
    let row = match parse_u32(tokens[3].as_str()) {
        Some(v) => v,
        None => {
            proof {
                assert(!valid_u32(ts[3]));
            }
            return None;
        },
    };
    if row == 0 {
        proof {
            assert(digits_val(ts[3]) == 0);
        }
        return None;
    }
    let mut seats: Vec<u32> = Vec::new();
    let mut i: usize = 4;
    while i < tokens.len()
        invariant
            ts == token_views(tokens@),
            ts.len() == tokens@.len(),
            forall|k: int| 0 <= k < tokens@.len() ==> #[trigger] ts[k] == tokens@[k]@,
            4 <= i <= tokens@.len(),
            tokens@.len() >= 5,
            seats@.len() == i - 4,
            forall|k: int|
                4 <= k < i ==> valid_u32(#[trigger] ts[k]) && digits_val(ts[k]) >= 1,
            forall|k: int|
                0 <= k < seats@.len() ==> (#[trigger] seats@[k]) as nat == digits_val(ts[4 + k])
                    && seats@[k] >= 1,
        decreases tokens@.len() - i,
    {
        match parse_u32(tokens[i].as_str()) {
            Some(v) => {
                if v == 0 {
                    proof {
                        if multi_tokens_ok(ts) {
                            assert(valid_u32(ts[i as int]) && digits_val(ts[i as int]) >= 1);
                        }
                    }
                    return None;
                }
                let ghost seats0 = seats@;
                seats.push(v);
                proof {
                    assert(valid_u32(ts[i as int]) && digits_val(ts[i as int]) >= 1);
                    assert forall|k: int|
                        0 <= k < seats@.len() implies (#[trigger] seats@[k]) as nat == digits_val(
                        ts[4 + k],
                    ) && seats@[k] >= 1 by {
                        if k < seats0.len() {
                            assert(seats@[k] == seats0[k]);
                        } else {
                            assert(seats@[k] == v);
                            assert(ts[4 + k] == tokens@[i as int]@);
                        }
                    }
                }
            },
            None => {
                proof {
                    if multi_tokens_ok(ts) {
                        assert(valid_u32(ts[i as int]) && digits_val(ts[i as int]) >= 1);
                    }
                }
                return None;
            },
        }
        i += 1;
    }
    Some((row, seats))
}

/// The three command keywords are pairwise distinct.
pub proof fn lemma_keywords_distinct()
    ensures
        "find"@ != "reserve"@,
        "find"@ != "purchase"@,
        "reserve"@ != "purchase"@,
{
    reveal_strlit("find");
    reveal_strlit("reserve");
    reveal_strlit("purchase");
    assert("find"@.len() == 4);
    assert("reserve"@.len() == 7);
    assert("purchase"@.len() == 8);
}

/// Decode a token list into a command, or the decode error the grammar
/// owes for it.
pub fn decode(tokens: &Vec<String>) -> (r: Result<Command, ParseError>)
    ensures
        (r is Ok) == tokens_well_formed(token_views(tokens@)),
        match r {
            Ok(c) => command_matches(token_views(tokens@), c),
            Err(e) => e == expected_error(token_views(tokens@)),
        },
{
    let ghost ts = token_views(tokens@);
    proof {
        lemma_keywords_distinct();
        assert(ts.len() == tokens@.len());
        assert forall|k: int| 0 <= k < tokens@.len() implies #[trigger] ts[k] == tokens@[k]@ by {}
    }
    if tokens.len() == 0 {
        return Err(ParseError::UnknownCommand);
    }
    if str_eq(tokens[0].as_str(), "find") {
        if tokens.len() != 3 {
            return Err(ParseError::InvalidFind);
        }
        match parse_u32(tokens[2].as_str()) {
            Some(count) => {
                if count == 0 {
                    return Err(ParseError::InvalidFind);
                }
                Ok(Command::Find { category: tokens[1].clone(), count })
            },
            None => Err(ParseError::InvalidFind),
        }
    } else if str_eq(tokens[0].as_str(), "reserve") {
        match parse_multi_args(tokens) {
            Some((row, seats)) => {
                proof {
                    assert(multi_tokens_ok(ts));
                }
                Ok(Command::Reserve {
                    category: tokens[1].clone(),
                    zone: tokens[2].clone(),
                    row,
                    seats,
                })
            },
            None => Err(ParseError::InvalidReserve),
        }
    } else if str_eq(tokens[0].as_str(), "purchase") {
        match parse_multi_args(tokens) {
            Some((row, seats)) => {
                proof {
                    assert(multi_tokens_ok(ts));
                }
                Ok(Command::Purchase {
                    category: tokens[1].clone(),
                    zone: tokens[2].clone(),
                    row,
                    seats,
                })
            },
            None => Err(ParseError::InvalidPurchase),
        }
    } else {
        Err(ParseError::UnknownCommand)
    }
}

/// One response line for one found seat.
pub open spec fn render_ref(r: SeatRef) -> Seq<char> {
    "Zone: "@ + r.zone@ + ", Row: "@ + dec_rep(r.row as int) + ", Seat: "@ + dec_rep(
        r.number as int,
    )
}

/// The newline-joined lines for a non-empty result.
pub open spec fn render_lines(rs: Seq<SeatRef>) -> Seq<char>
    decreases rs.len(),
{
    if rs.len() == 0 {
        Seq::empty()
    } else if rs.len() == 1 {
        render_ref(rs[0])
    } else {
        render_lines(rs.drop_last()) + "\n"@ + render_ref(rs.last())
    }
}

/// The full find response: the joined seat lines, or the fixed text for an
/// empty result.
pub open spec fn render_find(rs: Seq<SeatRef>) -> Seq<char> {
    if rs.len() == 0 {
        "No free seats found"@
    } else {
        render_lines(rs)
    }
}

/// Encode a find result.
pub fn encode_find(res: &Vec<SeatRef>) -> (s: String)
    ensures
        s@ == render_find(res@),
{
    if res.len() == 0 {
        return "No free seats found".to_owned();
    }
    let mut s = String::new();
    let mut i: usize = 0;
    proof {
        assert(res@.take(0) =~= Seq::<SeatRef>::empty());
    }
    while i < res.len()
        invariant
            i <= res@.len(),
            s@ == render_lines(res@.take(i as int)),
        decreases res@.len() - i,
    {
        if i > 0 {
            s.append("\n");
        }
        s.append("Zone: ");
        s.append(res[i].zone.as_str());
        s.append(", Row: ");
        let row_str = u32_to_string(res[i].row);
        s.append(row_str.as_str());
        s.append(", Seat: ");
        let seat_str = u32_to_string(res[i].number);
        s.append(seat_str.as_str());
        proof {
            assert(res@.take(i + 1).drop_last() =~= res@.take(i as int));
            assert(res@.take(i + 1).last() == res@[i as int]);
        }
        i += 1;
    }
    proof {
        assert(res@.take(res@.len() as int) =~= res@);
    }
    s
}

/// Encode a reserve outcome.
pub fn encode_reserve(ok: bool) -> (s: String)
    ensures
        ok ==> s@ == "Seats reserved successfully"@,
        !ok ==> s@ == "Failed to reserve seats"@,
{
    if ok {
        "Seats reserved successfully".to_owned()
    } else {
        "Failed to reserve seats".to_owned()
    }
}

/// Encode a purchase outcome.
pub fn encode_purchase(ok: bool) -> (s: String)
    ensures
        ok ==> s@ == "Seats purchased successfully"@,
        !ok ==> s@ == "Failed to purchase seats"@,
{
    if ok {
        "Seats purchased successfully".to_owned()
    } else {
        "Failed to purchase seats".to_owned()
    }
}

} // verus!
