//! The accept-states line, shared by both grammars: a comma-separated list of
//! state indices, each of which must parse and lie below the state count.
//! Unlike destination lists inside a transition row, empty fields here are
//! not skipped: each field must parse.

use vstd::prelude::*;

use bit_vec::BitVec;

use crate::bits::bits_of;
use crate::bits::all_false;
use crate::bits::bv_from_elem;
use crate::bits::bv_set;
use crate::errors::LoadError;
use crate::errors::LoadErrorKind;
use crate::text::digits_val;
use crate::text::parse_usize;
use crate::text::parse_usize_ok;
use crate::text::split_on;
use crate::text::split_exec;

verus! {

/// Fold the accept-list fields from index `e` on into the accept set `bits`.
pub open spec fn parse_accept_entries(
    entries: Seq<Seq<char>>,
    n: nat,
    e: nat,
    bits: Seq<bool>,
) -> Result<Seq<bool>, LoadErrorKind>
    decreases entries.len() - e,
{
    if e >= entries.len() {
        Ok(bits)
    } else if !parse_usize_ok(entries[e as int]) {
        Err(LoadErrorKind::ParseInt)
    } else if digits_val(entries[e as int]) >= n {
        Err(LoadErrorKind::FileFormat)
    } else {
        parse_accept_entries(
            entries,
            n,
            e + 1,
            bits.update(digits_val(entries[e as int]) as int, true),
        )
    }
}

/// The accept set a stripped accept-states line denotes, over `n` states.
pub open spec fn parse_accept_line(line: Seq<char>, n: nat) -> Result<Seq<bool>, LoadErrorKind> {
    parse_accept_entries(split_on(line, ','), n, 0, all_false(n))
}

pub(crate) fn load_accept(line: &Vec<char>, n: usize) -> (r: Result<BitVec, LoadError>)
    ensures
        (match r {
            Ok(b) => parse_accept_line(line@, n as nat) == Ok::<Seq<bool>, LoadErrorKind>(bits_of(b))
                && bits_of(b).len() == n,
            Err(e) => parse_accept_line(line@, n as nat) == Err::<Seq<bool>, LoadErrorKind>(
                e.kind(),
            ),
        }),
{
    let entries = split_exec(line, ',');
    let ghost es = entries@.map_values(|p: Vec<char>| p@);
    let mut bits = bv_from_elem(n, false);
    proof {
        assert(bits_of(bits) =~= all_false(n as nat));
    }
    let mut e: usize = 0;
    while e < entries.len()
        invariant
            e <= entries.len(),
            es == entries@.map_values(|p: Vec<char>| p@),
            bits_of(bits).len() == n,
            parse_accept_line(line@, n as nat) == parse_accept_entries(
                es,
                n as nat,
                e as nat,
                bits_of(bits),
            ),
        decreases entries.len() - e,
    {
        proof {
            assert(es[e as int] == entries@[e as int]@);
        }
        match parse_usize(&entries[e]) {
            None => {
                return Err(LoadError::ParseInt);
            },
            Some(s) => {
                if s >= n {
                    return Err(LoadError::file_format("Accept state out of range"));
                }
                bv_set(&mut bits, s, true);
            },
        }
        e += 1;
    }
    Ok(bits)
}

} // verus!
