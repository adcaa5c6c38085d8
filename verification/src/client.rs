//! Client-side ballot building: parsing a typed rank, showing the choices
//! with their current ranks, and turning the chosen ranks into a ballot.
//! The interactive prompts around these live outside the library; they hand
//! in plain strings and indices and take plain values back.

use vstd::prelude::*;

use crate::ballot::{Ballot, EntryV, Rank, spec_insert};
use crate::codec::{digit_val, is_digit, push_char, push_decimal, spec_dec};
use crate::election_info::Choice;

verus! {

/// Why a typed rank was rejected.
#[derive(Clone, Copy, Debug, PartialEq, Eq, Structural)]
pub enum ClientError {
    /// The text is not digits optionally split by one `-`.
    ParseFailure,
    /// The bounds read `low-high` with `low > high`.
    BadRank,
}

impl ClientError {
    /// A short account of the error.
    pub fn description(&self) -> (r: &'static str)
        ensures
            (self is ParseFailure ==> r@ == "Parsing failed"@) && (self is BadRank ==> r@
                == "Rank is incorrect"@),
    {
        match self {
            ClientError::ParseFailure => "Parsing failed",
            ClientError::BadRank => "Rank is incorrect",
        }
    }
}

/// Reads rank text character by character: digits accumulate into the low
/// bound until a `-` switches to the high bound. A second `-`, any other
/// character, or a bound over 64 bits fails.
pub open spec fn rank_scan(s: Seq<char>, in_high: bool, low: u64, high: u64) -> Result<
    (bool, u64, u64),
    ClientError,
>
    decreases s.len(),
{
    if s.len() == 0 {
        Ok((in_high, low, high))
    } else {
        let c = s[0];
        if is_digit(c) {
            let v = if in_high {
                high as int
            } else {
                low as int
            };
            if 10 * v + digit_val(c) as int <= u64::MAX as int {
                let v2 = (10 * v + digit_val(c) as int) as u64;
                if in_high {
                    rank_scan(s.drop_first(), in_high, low, v2)
                } else {
                    rank_scan(s.drop_first(), in_high, v2, high)
                }
            } else {
                Err(ClientError::ParseFailure)
            }
        } else if c == '-' {
            if !in_high {
                rank_scan(s.drop_first(), true, low, high)
            } else {
                Err(ClientError::ParseFailure)
            }
        } else {
            Err(ClientError::ParseFailure)
        }
    }
}

/// What parsing rank text returns: without a `-` the single-position rank
/// `(low, low)` (empty text gives `(0, 0)`); with one, `(low, high)` if
/// `low <= high` and `BadRank` otherwise.
pub open spec fn spec_parse_rank(s: Seq<char>) -> Result<(u64, u64), ClientError> {
    match rank_scan(s, false, 0, 0) {
        Ok((in_high, low, high)) => {
            if !in_high {
                Ok((low, low))
            } else if low <= high {
                Ok((low, high))
            } else {
                Err(ClientError::BadRank)
            }
        },
        Err(e) => Err(e),
    }
}

/// Parses the rank a voter typed: `7` for a single position, `2-5` for a
/// tie spanning a range.
pub fn parse_rank(string: String) -> (r: Result<Rank, ClientError>)
    ensures
        match r {
            Ok(rank) => spec_parse_rank(string@) == Ok::<_, ClientError>(rank@),
            Err(e) => spec_parse_rank(string@) == Err::<(u64, u64), _>(e),
        },
{
    let s = string.as_str();
    let len = s.unicode_len();
    let mut in_high = false;
    let mut low: u64 = 0;
    let mut high: u64 = 0;
    let mut i: usize = 0;
    proof {
        assert(string@.skip(0) =~= string@);
    }
    while i < len
        invariant
            len == string@.len(),
            i <= len,
            s@ == string@,
            rank_scan(string@, false, 0, 0) == rank_scan(
                string@.skip(i as int),
                in_high,
                low,
                high,
            ),
        decreases len - i,
    {
        let c = s.get_char(i);
        proof {
            assert(string@.skip(i as int)[0] == string@[i as int]);
            assert(string@.skip(i as int).drop_first() =~= string@.skip(i + 1));
        }
        let u = c as u32;
        if 48 <= u && u <= 57 {
            let d = (u - 48) as u64;
            let v = if in_high {
                high
            } else {
                low
            };
            match v.checked_mul(10) {
                Some(m) => match m.checked_add(d) {
                    Some(v2) => {
                        if in_high {
                            high = v2;
                        } else {
                            low = v2;
                        }
                    },
                    None => {
                        return Err(ClientError::ParseFailure);
                    },
                },
                None => {
                    return Err(ClientError::ParseFailure);
                },
            }
        } else if c == '-' {
            if !in_high {
                in_high = true;
            } else {
                return Err(ClientError::ParseFailure);
            }
        } else {
            return Err(ClientError::ParseFailure);
        }
        i += 1;
    }
    proof {
        assert(string@.skip(len as int) =~= Seq::<char>::empty());
    }
    if !in_high {
        match Rank::new(low, low) {
            Some(rank) => Ok(rank),
            None => {
                proof {
                    assert(false);
                }
                Err(ClientError::ParseFailure)
            },
        }
    } else {
        match Rank::new(low, high) {
            Some(rank) => Ok(rank),
            None => Err(ClientError::BadRank),
        }
    }
}

/// The text a rank shows as: the single position, or `low-high` for a range.
pub open spec fn rank_text(r: (u64, u64)) -> Seq<char> {
    if r.0 == r.1 {
        spec_dec(r.0)
    } else {
        spec_dec(r.0) + seq!['-'] + spec_dec(r.1)
    }
}

/// The line a choice shows as while building a ballot: its name, its
/// current rank or `UNRANKED`, and its description.
pub open spec fn choice_entry_text(name: Seq<char>, rank: Option<(u64, u64)>, desc: Seq<char>) -> Seq<char> {
    match rank {
        Some(r) => name + ", "@ + rank_text(r) + ": "@ + desc,
        None => name + ", "@ + "UNRANKED"@ + ": "@ + desc,
    }
}

/// The rank a possibly unranked choice holds, as specifications see it.
pub open spec fn rank_opt_view(o: Option<Rank>) -> Option<(u64, u64)> {
    match o {
        Some(r) => Some(r@),
        None => None,
    }
}

/// Formats one choice with its current rank for the ballot-building menu.
pub fn format_choice(entry: &(Choice, Option<Rank>)) -> (r: String)
    ensures
        r@ == choice_entry_text(entry.0@.0, rank_opt_view(entry.1), entry.0@.1),
{
    let mut out = entry.0.name();
    out.append(", ");
    match &entry.1 {
        Some(rank) => {
            let lo = rank.low();
            let hi = rank.high();
            push_decimal(&mut out, lo);
            if lo != hi {
                push_char(&mut out, '-');
                push_decimal(&mut out, hi);
            }
        },
        None => {
            out.append("UNRANKED");
        },
    }
    out.append(": ");
    out.append(entry.0.description().as_str());
    proof {
        assert(out@ =~= choice_entry_text(entry.0@.0, rank_opt_view(entry.1), entry.0@.1));
    }
    out
}

/// The entries of a ballot built from ranked choices: each ranked choice
/// inserted in order, unranked ones absent.
pub open spec fn spec_vec_to_ballot(s: Seq<((Seq<char>, Seq<char>), Option<(u64, u64)>)>) -> Seq<
    EntryV,
>
    decreases s.len(),
{
    if s.len() == 0 {
        Seq::empty()
    } else {
        let p = spec_vec_to_ballot(s.drop_last());
        match s.last().1 {
            Some(r) => spec_insert(p, s.last().0.0, r),
            None => p,
        }
    }
}

/// The choices-with-ranks list, as specifications see it.
pub open spec fn choices_view(s: Seq<(Choice, Option<Rank>)>) -> Seq<
    ((Seq<char>, Seq<char>), Option<(u64, u64)>),
> {
    s.map_values(|e: (Choice, Option<Rank>)| (e.0@, rank_opt_view(e.1)))
}

/// Collects the ranked choices into a ballot; unranked choices are absent.
pub fn vec_to_ballot(alternatives: Vec<(Choice, Option<Rank>)>) -> (r: Ballot)
    ensures
        r@ == spec_vec_to_ballot(choices_view(alternatives@)),
{
    let mut ballot = Ballot::new();
    let n = alternatives.len();
    let mut i: usize = 0;
    while i < n
        invariant
            n == alternatives@.len(),
            i <= n,
            ballot@ == spec_vec_to_ballot(choices_view(alternatives@).take(i as int)),
        decreases n - i,
    {
        let ghost cv = choices_view(alternatives@);
        proof {
            assert(cv.take(i + 1).drop_last() =~= cv.take(i as int));
            assert(cv.take(i + 1).last() == cv[i as int]);
        }
        match &alternatives[i].1 {
            Some(rank) => {
                ballot.insert(alternatives[i].0.name(), *rank);
            },
            None => {},
        }
        i += 1;
    }
    proof {
        assert(choices_view(alternatives@).take(n as int) =~= choices_view(alternatives@));
    }
    ballot
}

/// The ballot-building menu: `Done` first, then one line per choice.
pub fn wizard_menu(list: &Vec<(Choice, Option<Rank>)>) -> (r: Vec<String>)
    ensures
        r@.len() == list@.len() + 1,
        r@[0]@ == "Done"@,
        forall|k: int|
            0 <= k < list@.len() ==> (#[trigger] r@[k + 1])@ == choice_entry_text(
                list@[k].0@.0,
                rank_opt_view(list@[k].1),
                list@[k].0@.1,
            ),
{
    let mut out: Vec<String> = Vec::new();
    let done: &str = "Done";
    out.push(done.to_owned());
    let n = list.len();
    let mut i: usize = 0;
    while i < n
        invariant
            n == list@.len(),
            i <= n,
            out@.len() == i + 1,
            out@[0]@ == "Done"@,
            forall|k: int|
                0 <= k < i ==> (#[trigger] out@[k + 1])@ == choice_entry_text(
                    list@[k].0@.0,
                    rank_opt_view(list@[k].1),
                    list@[k].0@.1,
                ),
        decreases n - i,
    {
        out.push(format_choice(&list[i]));
        i += 1;
    }
    out
}

/// Applies the rank a voter typed for choice `i`: `U` clears the rank, rank
/// text sets it, and bad text changes nothing and reports why.
pub fn apply_rank_input(list: &mut Vec<(Choice, Option<Rank>)>, i: usize, input: String) -> (r:
    Result<(), ClientError>)
    requires
        i < old(list)@.len(),
    ensures
        final(list)@.len() == old(list)@.len(),
        forall|k: int|
            0 <= k < old(list)@.len() && k != i ==> final(list)@[k] == (#[trigger] old(
                list,
            )@[k]),
        final(list)@[i as int].0@ == old(list)@[i as int].0@,
        match r {
            Ok(()) => {
                if input@ == seq!['U'] {
                    rank_opt_view(final(list)@[i as int].1) is None
                } else {
                    spec_parse_rank(input@) == Ok::<_, ClientError>(
                        rank_opt_view(final(list)@[i as int].1)->Some_0,
                    ) && rank_opt_view(final(list)@[i as int].1) is Some
                }
            },
            Err(e) => {
                final(list)@[i as int] == old(list)@[i as int] && input@ != seq!['U']
                    && spec_parse_rank(input@) == Err::<(u64, u64), _>(e)
            },
        },
{
    let is_u = input.as_str().unicode_len() == 1 && input.as_str().get_char(0) == 'U';
    proof {
        if input@.len() == 1 && input@[0] == 'U' {
            assert(input@ =~= seq!['U']);
        }
        if input@ == seq!['U'] {
            assert(input@.len() == 1 && input@[0] == 'U');
        }
    }
    let choice = list[i].0.clone();
    if is_u {
        list.set(i, (choice, None));
        Ok(())
    } else {
        match parse_rank(input) {
            Ok(rank) => {
                list.set(i, (choice, Some(rank)));
                Ok(())
            },
            Err(e) => Err(e),
        }
    }
}

} // verus!
