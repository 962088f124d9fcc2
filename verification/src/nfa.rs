//! A nondeterministic finite automaton with epsilon moves.
//!
//! The transition table is total: one bit set per (state, symbol-index) pair,
//! built eagerly at load time, so running never meets a missing entry.  The
//! symbol at index 0 is always the epsilon symbol `_`, and every epsilon row
//! contains its own state (the reflexive seed).  Execution applies a single
//! layer of epsilon expansion before each consumed symbol and once after the
//! last one — one application, not a fixpoint closure — which reproduces the
//! documented semantics of the file format.

use vstd::prelude::*;

use bit_vec::BitVec;

use crate::bits::bits_of;
use crate::bits::bv_and;
use crate::bits::bv_any;
use crate::bits::bv_from_elem;
use crate::bits::bv_get;
use crate::bits::bv_or;
use crate::bits::bv_set;
use crate::accept_set::load_accept;
use crate::accept_set::parse_accept_line;
use crate::errors::LoadError;
use crate::errors::LoadErrorKind;
use crate::text::find_last;
use crate::text::find_last_idx;
use crate::text::lemma_find_last_idx;
use crate::text::line_at;
use crate::text::parse_usize;
use crate::text::parse_usize_ok;
use crate::text::digits_val;
use crate::text::is_end_line;
use crate::text::is_end_line_exec;
use crate::text::get_line;
use crate::text::get_line_sum;
use crate::text::split_exec;
use crate::text::split_on;
use crate::text::str_to_chars;
use vstd::string::StrSliceExecFns;

verus! {

/// Mathematical model of a loaded NFA.
#[verifier::ext_equal]
pub struct NfaView {
    /// Number of states; states are `0 .. states`.
    pub states: nat,
    /// The input alphabet, epsilon (`_`) at index 0, then the declared
    /// symbols in declared order.
    pub alphabet: Seq<char>,
    /// `transitions[s][j][t]`: from state `s`, on the symbol at alphabet
    /// index `j`, state `t` is reachable.
    pub transitions: Seq<Seq<Seq<bool>>>,
    /// The start state.
    pub start: nat,
    /// `accept[t]`: state `t` is accepting.
    pub accept: Seq<bool>,
}

impl NfaView {
    /// Structural validity: the table is total over `states × alphabet`,
    /// every referenced state is in range, and every epsilon row contains its
    /// own state.
    pub open spec fn wf(self) -> bool {
        &&& self.alphabet.len() >= 1
        &&& self.alphabet[0] == '_'
        &&& self.transitions.len() == self.states
        &&& (forall|s: int|
            0 <= s < self.states ==> (#[trigger] self.transitions[s]).len() == self.alphabet.len())
        &&& (forall|s: int, j: int|
            0 <= s < self.states && 0 <= j < self.alphabet.len() ==> (
            #[trigger] self.transitions[s][j]).len() == self.states)
        &&& self.accept.len() == self.states
        &&& self.start < self.states
        &&& (forall|s: int, j: int|
            0 <= s < self.states && 0 <= j < self.alphabet.len() && self.alphabet[j] == '_'
                ==> #[trigger] self.transitions[s][j][s])
    }
}

/// The alphabet index that a symbol lookup uses: the last position of the
/// symbol in the alphabet.
pub open spec fn sym_index(v: NfaView, c: char) -> int {
    find_last_idx(v.alphabet, c).unwrap()
}

/// The index of the epsilon symbol.
pub open spec fn eps_index(v: NfaView) -> int {
    sym_index(v, '_')
}

/// One set-update step: all states reachable from `cur` on the symbol at
/// alphabet index `j`.
pub open spec fn step_union(v: NfaView, cur: Seq<bool>, j: int) -> Seq<bool> {
    Seq::new(
        v.states,
        |t: int| exists|s: int| 0 <= s < v.states && cur[s] && v.transitions[s][j][t],
    )
}

/// The active-state set after consuming `input` from `cur`, including the
/// final epsilon step; `None` when some input character is the epsilon
/// literal or not a member of the alphabet.
pub open spec fn nfa_run(v: NfaView, cur: Seq<bool>, input: Seq<char>) -> Option<Seq<bool>>
    decreases input.len(),
{
    if input.len() == 0 {
        Some(step_union(v, cur, eps_index(v)))
    } else if input[0] == '_' || !v.alphabet.contains(input[0]) {
        None
    } else {
        nfa_run(
            v,
            step_union(v, step_union(v, cur, eps_index(v)), sym_index(v, input[0])),
            input.drop_first(),
        )
    }
}

/// The initial active-state set: exactly the start state.
pub open spec fn initial_set(v: NfaView) -> Seq<bool> {
    Seq::new(v.states, |t: int| t == v.start)
}

/// Language membership: the automaton accepts `input` exactly when the final
/// active set meets the accept set.
pub open spec fn nfa_accepts(v: NfaView, input: Seq<char>) -> bool {
    nfa_run(v, initial_set(v), input) is Some && exists|t: int|
        0 <= t < v.states && nfa_run(v, initial_set(v), input).unwrap()[t] && v.accept[t]
}

/// The seed of the destination set for the group at alphabet index `j` of
/// state `i`: empty, except that an epsilon group always contains its own
/// state.
pub open spec fn row_base(alphabet: Seq<char>, n: nat, i: nat, j: int) -> Seq<bool> {
    Seq::new(n, |t: int| alphabet[j] == '_' && t == i)
}

/// Fold the comma-separated fields of one group, from index `e` on, into the
/// destination set `bits`.  Empty fields are skipped; every other field must
/// be a state index below `n`.
pub open spec fn nfa_parse_entries(
    entries: Seq<Seq<char>>,
    n: nat,
    e: nat,
    bits: Seq<bool>,
) -> Result<Seq<bool>, LoadErrorKind>
    decreases entries.len() - e,
{
    if e >= entries.len() {
        Ok(bits)
    } else if entries[e as int].len() == 0 {
        nfa_parse_entries(entries, n, e + 1, bits)
    } else if !parse_usize_ok(entries[e as int]) {
        Err(LoadErrorKind::ParseInt)
    } else if digits_val(entries[e as int]) >= n {
        Err(LoadErrorKind::FileFormat)
    } else {
        nfa_parse_entries(entries, n, e + 1, bits.update(digits_val(entries[e as int]) as int, true))
    }
}

/// Parse the slash-delimited groups of state `i`'s row, from group `j` on;
/// one group per alphabet symbol, epsilon first.
pub open spec fn nfa_parse_groups(
    groups: Seq<Seq<char>>,
    alphabet: Seq<char>,
    n: nat,
    i: nat,
    j: nat,
    acc: Seq<Seq<bool>>,
) -> Result<Seq<Seq<bool>>, LoadErrorKind>
    decreases alphabet.len() - j,
{
    if j >= alphabet.len() {
        Ok(acc)
    } else {
        match nfa_parse_entries(
            split_on(groups[j as int], ','),
            n,
            0,
            row_base(alphabet, n, i, j as int),
        ) {
            Err(k) => Err(k),
            Ok(bits) => nfa_parse_groups(groups, alphabet, n, i, j + 1, acc.push(bits)),
        }
    }
}

/// Parse the row line of state `i`: a label that must read `i`, a colon, and
/// `|alphabet|` slash-delimited destination groups.
pub open spec fn nfa_parse_row(line: Seq<char>, alphabet: Seq<char>, n: nat, i: nat) -> Result<
    Seq<Seq<bool>>,
    LoadErrorKind,
> {
    let parts = split_on(line, ':');
    if !parse_usize_ok(parts[0]) {
        Err(LoadErrorKind::ParseInt)
    } else if digits_val(parts[0]) != i {
        Err(LoadErrorKind::FileFormat)
    } else if parts.len() != 2 {
        Err(LoadErrorKind::FileFormat)
    } else {
        let groups = split_on(parts[1], '/');
        if groups.len() != alphabet.len() {
            Err(LoadErrorKind::FileFormat)
        } else {
            nfa_parse_groups(groups, alphabet, n, i, 0, Seq::empty())
        }
    }
}

/// Parse the row lines of states `i .. n`, at lines `2 + i` on.
pub open spec fn nfa_parse_rows(
    lines: Seq<Seq<char>>,
    alphabet: Seq<char>,
    n: nat,
    i: nat,
    acc: Seq<Seq<Seq<bool>>>,
) -> Result<Seq<Seq<Seq<bool>>>, LoadErrorKind>
    decreases n - i,
{
    if i >= n {
        Ok(acc)
    } else {
        match nfa_parse_row(line_at(lines, 2 + i as int), alphabet, n, i) {
            Err(k) => Err(k),
            Ok(row) => nfa_parse_rows(lines, alphabet, n, i + 1, acc.push(row)),
        }
    }
}

/// The NFA description a text denotes, or the exact error that loading it
/// reports.  The text is split into lines, each stripped of whitespace: state
/// count, alphabet, one row line per state, start state, accept states, and
/// the terminating `END` line.
pub open spec fn nfa_parse(text: Seq<char>) -> Result<NfaView, LoadErrorKind> {
    let lines = split_on(text, '\n');
    let l0 = line_at(lines, 0);
    if !parse_usize_ok(l0) {
        Err(LoadErrorKind::ParseInt)
    } else {
        let n = digits_val(l0);
        let alphabet = seq!['_'] + line_at(lines, 1);
        match nfa_parse_rows(lines, alphabet, n, 0, Seq::empty()) {
            Err(k) => Err(k),
            Ok(transitions) => {
                let ls = line_at(lines, 2 + n as int);
                if !parse_usize_ok(ls) {
                    Err(LoadErrorKind::ParseInt)
                } else if digits_val(ls) >= n {
                    Err(LoadErrorKind::FileFormat)
                } else {
                    match parse_accept_line(line_at(lines, 3 + n as int), n) {
                        Err(k) => Err(k),
                        Ok(accept) => {
                            if !is_end_line(line_at(lines, 4 + n as int)) {
                                Err(LoadErrorKind::MissingEnd)
                            } else {
                                Ok(
                                    NfaView {
                                        states: n,
                                        alphabet: alphabet,
                                        transitions: transitions,
                                        start: digits_val(ls),
                                        accept: accept,
                                    },
                                )
                            }
                        },
                    }
                }
            },
        }
    }
}

/// The model of a vector of per-state transition rows.
pub open spec fn rows_view(t: Seq<Vec<BitVec>>) -> Seq<Seq<Seq<bool>>> {
    t.map_values(|row: Vec<BitVec>| row@.map_values(|b: BitVec| bits_of(b)))
}

/// A nondeterministic finite automaton, immutable once loaded.
#[derive(Debug)]
pub struct NFA {
    state_num: usize,
    alphabet: Vec<char>,
    transitions: Vec<Vec<BitVec>>,
    start_state: usize,
    accept_states: BitVec,
}

impl View for NFA {
    type V = NfaView;

    closed spec fn view(&self) -> NfaView {
        NfaView {
            states: self.state_num as nat,
            alphabet: self.alphabet@,
            transitions: rows_view(self.transitions@),
            start: self.start_state as nat,
            accept: bits_of(self.accept_states),
        }
    }
}

impl NFA {
    /// An automaton with no states, no alphabet and no transitions.
    pub fn new() -> (r: NFA)
        ensures
            r@.states == 0,
            r@.alphabet == Seq::<char>::empty(),
            r@.transitions == Seq::<Seq<Seq<bool>>>::empty(),
            r@.start == 0,
            r@.accept == Seq::<bool>::empty(),
    {
        let r = NFA {
            state_num: 0,
            alphabet: Vec::new(),
            transitions: Vec::new(),
            start_state: 0,
            accept_states: bv_from_elem(0, false),
        };
        proof {
            assert(r@.alphabet =~= Seq::<char>::empty());
            assert(r@.transitions =~= Seq::<Seq<Seq<bool>>>::empty());
            assert(r@.accept =~= Seq::<bool>::empty());
        }
        r
    }

    /// Fold the fields of one destination group into `bits`.
    fn load_group_entries(group: &Vec<char>, n: usize, bits: &mut BitVec) -> (r: Result<
        (),
        LoadError,
    >)
        requires
            bits_of(*old(bits)).len() == n,
        ensures
            (match r {
                Ok(u) => nfa_parse_entries(split_on(group@, ','), n as nat, 0, bits_of(*old(bits)))
                    == Ok::<Seq<bool>, LoadErrorKind>(bits_of(*final(bits))) && bits_of(
                    *final(bits),
                ).len() == n && (forall|t: int|
                    0 <= t < n && bits_of(*old(bits))[t] ==> bits_of(*final(bits))[t]),
                Err(e) => nfa_parse_entries(split_on(group@, ','), n as nat, 0, bits_of(*old(bits)))
                    == Err::<Seq<bool>, LoadErrorKind>(e.kind()),
            }),
    {
        let entries = split_exec(group, ',');
        let ghost es = entries@.map_values(|p: Vec<char>| p@);
        let mut e: usize = 0;
        while e < entries.len()
            invariant
                e <= entries.len(),
                es == entries@.map_values(|p: Vec<char>| p@),
                es == split_on(group@, ','),
                bits_of(*bits).len() == n,
                nfa_parse_entries(es, n as nat, 0, bits_of(*old(bits))) == nfa_parse_entries(
                    es,
                    n as nat,
                    e as nat,
                    bits_of(*bits),
                ),
                forall|t: int| 0 <= t < n && bits_of(*old(bits))[t] ==> bits_of(*bits)[t],
            decreases entries.len() - e,
        {
            proof {
                assert(es[e as int] == entries@[e as int]@);
            }
            if entries[e].len() > 0 {
                match parse_usize(&entries[e]) {
                    None => {
                        return Err(LoadError::ParseInt);
                    },
                    Some(s) => {
                        if s >= n {
                            return Err(LoadError::file_format("Next state out of range"));
                        }
                        bv_set(bits, s, true);
                    },
                }
            }
            e += 1;
        }
        Ok(())
    }

    /// Load the row line of state `i`.
    fn load_row(line: &Vec<char>, alphabet: &Vec<char>, n: usize, i: usize) -> (r: Result<
        Vec<BitVec>,
        LoadError,
    >)
        requires
            i < n,
        ensures
            (match r {
                Ok(row) => {
                    &&& nfa_parse_row(line@, alphabet@, n as nat, i as nat) == Ok::<
                        Seq<Seq<bool>>,
                        LoadErrorKind,
                    >(row@.map_values(|b: BitVec| bits_of(b)))
                    &&& row@.len() == alphabet@.len()
                    &&& (forall|j: int|
                        0 <= j < row@.len() ==> bits_of(#[trigger] row@[j]).len() == n)
                    &&& (forall|j: int|
                        0 <= j < row@.len() && alphabet@[j] == '_' ==> bits_of(
                            #[trigger] row@[j],
                        )[i as int])
                },
                Err(e) => nfa_parse_row(line@, alphabet@, n as nat, i as nat) == Err::<
                    Seq<Seq<bool>>,
                    LoadErrorKind,
                >(e.kind()),
            }),
    {
        let parts = split_exec(line, ':');
        let ghost ps = parts@.map_values(|p: Vec<char>| p@);
        proof {
            crate::text::lemma_split_on_len(line@, ':');
            assert(ps[0] == parts@[0]@);
        }
        let x = match parse_usize(&parts[0]) {
            None => {
                return Err(LoadError::ParseInt);
            },
            Some(x) => x,
        };
        if x != i {
            return Err(LoadError::file_format("State number mismatch"));
        }
        if parts.len() != 2 {
            return Err(LoadError::file_format("Wrong number of colons in line"));
        }
        proof {
            assert(ps[1] == parts@[1]@);
        }
        let groups = split_exec(&parts[1], '/');
        let ghost gs = groups@.map_values(|p: Vec<char>| p@);
        if groups.len() != alphabet.len() {
            return Err(LoadError::file_format("Wrong number of transitions"));
        }
        let mut row: Vec<BitVec> = Vec::new();
        proof {
            assert(row@.map_values(|b: BitVec| bits_of(b)) =~= Seq::<Seq<bool>>::empty());
        }
        let mut j: usize = 0;
        while j < groups.len()
            invariant
                j <= groups.len(),
                j == row@.len(),
                i < n,
                groups@.len() == alphabet@.len(),
                gs == groups@.map_values(|p: Vec<char>| p@),
                nfa_parse_row(line@, alphabet@, n as nat, i as nat) == nfa_parse_groups(
                    gs,
                    alphabet@,
                    n as nat,
                    i as nat,
                    j as nat,
                    row@.map_values(|b: BitVec| bits_of(b)),
                ),
                forall|q: int| 0 <= q < j ==> bits_of(#[trigger] row@[q]).len() == n,
                forall|q: int|
                    0 <= q < j && alphabet@[q] == '_' ==> bits_of(#[trigger] row@[q])[i as int],
            decreases groups.len() - j,
        {
            let mut bits = bv_from_elem(n, false);
            if alphabet[j] == '_' {
                bv_set(&mut bits, i, true);
            }
            proof {
                assert(bits_of(bits) =~= row_base(alphabet@, n as nat, i as nat, j as int));
                assert(gs[j as int] == groups@[j as int]@);
            }
            let ghost m0 = row@.map_values(|b: BitVec| bits_of(b));
            match Self::load_group_entries(&groups[j], n, &mut bits) {
                Err(e) => {
                    return Err(e);
                },
                Ok(u) => {},
            }
            row.push(bits);
            proof {
                assert(row@.map_values(|b: BitVec| bits_of(b)) =~= m0.push(bits_of(bits)));
            }
            j += 1;
        }
        Ok(row)
    }

    /// Load an NFA description from its text.
    ///
    /// The result is exactly what [`nfa_parse`] says of the text: a
    /// well-formed automaton on success, and on failure the error whose kind [`nfa_parse`] names, with no partial automaton returned.
    pub fn load(text: &str) -> (r: Result<NFA, LoadError>)
        ensures
            (match r {
                Ok(m) => nfa_parse(text@) == Ok::<NfaView, LoadErrorKind>(m@) && m@.wf(),
                Err(e) => nfa_parse(text@) == Err::<NfaView, LoadErrorKind>(e.kind()),
            }),
    {
        let chars = str_to_chars(text);
        let lines = split_exec(&chars, '\n');
        let ghost lns = lines@.map_values(|p: Vec<char>| p@);
        let l0 = get_line(&lines, 0);
        let n = match parse_usize(&l0) {
            None => {
                return Err(LoadError::ParseInt);
            },
            Some(n) => n,
        };
        let mut alphabet = get_line(&lines, 1);
        alphabet.insert(0, '_');
        let ghost al = alphabet@;
        proof {
            assert(al =~= seq!['_'] + line_at(lns, 1));
        }
        let mut transitions: Vec<Vec<BitVec>> = Vec::new();
        proof {
            assert(rows_view(transitions@) =~= Seq::<Seq<Seq<bool>>>::empty());
        }
        let mut i: usize = 0;
        while i < n
            invariant
                i <= n,
                al == alphabet@,
                al.len() >= 1,
                al[0] == '_',
                al == seq!['_'] + line_at(lns, 1),
                lns == lines@.map_values(|p: Vec<char>| p@),
                lns == split_on(chars@, '\n'),
                chars@ == text@,
                l0@ == line_at(lns, 0),
                parse_usize_ok(l0@) && digits_val(l0@) == n as nat,
                transitions@.len() == i,
                nfa_parse_rows(lns, al, n as nat, 0, Seq::empty()) == nfa_parse_rows(
                    lns,
                    al,
                    n as nat,
                    i as nat,
                    rows_view(transitions@),
                ),
                forall|s: int| 0 <= s < i ==> (#[trigger] transitions@[s])@.len() == al.len(),
                forall|s: int, j: int|
                    0 <= s < i && 0 <= j < al.len() ==> bits_of(
                        #[trigger] transitions@[s]@[j],
                    ).len() == n,
                forall|s: int, j: int|
                    0 <= s < i && 0 <= j < al.len() && al[j] == '_' ==> bits_of(
                        #[trigger] transitions@[s]@[j],
                    )[s],
            decreases n - i,
        {
            let line = get_line_sum(&lines, 2, i);
            let ghost m0 = rows_view(transitions@);
            match Self::load_row(&line, &alphabet, n, i) {
                Err(e) => {
                    return Err(e);
                },
                Ok(row) => {
                    transitions.push(row);
                    proof {
                        assert(rows_view(transitions@) =~~= m0.push(
                            row@.map_values(|b: BitVec| bits_of(b)),
                        ));
                    }
                },
            }
            i += 1;
        }
        let lstart = get_line_sum(&lines, 2, n);
        let start = match parse_usize(&lstart) {
            None => {
                return Err(LoadError::ParseInt);
            },
            Some(s) => s,
        };
        if start >= n {
            return Err(LoadError::file_format("Start state out of range"));
        }
        let laccept = get_line_sum(&lines, 3, n);
        let accept_states = match load_accept(&laccept, n) {
            Err(e) => {
                return Err(e);
            },
            Ok(b) => b,
        };
        let lend = get_line_sum(&lines, 4, n);
        if !is_end_line_exec(&lend) {
            return Err(LoadError::MissingEnd);
        }
        let m = NFA { state_num: n, alphabet, transitions, start_state: start, accept_states };
        proof {
            assert(m@.wf());
            assert(nfa_parse(text@) == Ok::<NfaView, LoadErrorKind>(m@));
        }
        Ok(m)
    }

    /// One set-update step over the whole table column `j`.
    fn union_step(&self, cur: &BitVec, j: usize) -> (r: BitVec)
        requires
            self@.wf(),
            bits_of(*cur).len() == self@.states,
            j < self@.alphabet.len(),
        ensures
            bits_of(r) == step_union(self@, bits_of(*cur), j as int),
    {
        let ghost v = self@;
        let n = self.state_num;
        let mut next = bv_from_elem(n, false);
        let mut s: usize = 0;
        while s < n
            invariant
                s <= n,
                n == v.states,
                v == self@,
                v.wf(),
                j < v.alphabet.len(),
                bits_of(*cur).len() == n,
                bits_of(next) =~= Seq::new(
                    n as nat,
                    |t: int|
                        exists|u: int| 0 <= u < s && bits_of(*cur)[u] && v.transitions[u][j as int][t],
                ),
            decreases n - s,
        {
            let ghost pre = bits_of(next);
            if bv_get(cur, s) {
                proof {
                    assert(v.transitions[s as int] == self.transitions@[s as int]@.map_values(
                        |b: BitVec| bits_of(b),
                    ));
                    assert(v.transitions[s as int][j as int] == bits_of(
                        self.transitions@[s as int]@[j as int],
                    ));
                }
                bv_or(&mut next, &self.transitions[s][j]);
            }
            proof {
                assert forall|t: int| 0 <= t < n implies bits_of(next)[t] == (exists|u: int|
                    0 <= u < s + 1 && bits_of(*cur)[u] && v.transitions[u][j as int][t]) by {
                    if bits_of(next)[t] {
                        if pre[t] {
                            let u = choose|u: int|
                                0 <= u < s && bits_of(*cur)[u] && v.transitions[u][j as int][t];
                            assert(0 <= u < s + 1 && bits_of(*cur)[u] && v.transitions[u][j as int][t]);
                        } else {
                            assert(bits_of(*cur)[s as int] && v.transitions[s as int][j as int][t]);
                        }
                    } else {
                        if exists|u: int|
                            0 <= u < s + 1 && bits_of(*cur)[u] && v.transitions[u][j as int][t] {
                            let u = choose|u: int|
                                0 <= u < s + 1 && bits_of(*cur)[u] && v.transitions[u][j as int][t];
                            if u < s {
                                assert(pre[t]);
                                assert(bits_of(next)[t]);
                            } else {
                                assert(bits_of(*cur)[s as int]);
                                assert(bits_of(next)[t]);
                            }
                        }
                    }
                }
                assert(bits_of(next) =~= Seq::new(
                    n as nat,
                    |t: int|
                        exists|u: int|
                            0 <= u < s + 1 && bits_of(*cur)[u] && v.transitions[u][j as int][t],
                ));
            }
            s += 1;
        }
        proof {
            assert(bits_of(next) =~= step_union(v, bits_of(*cur), j as int));
        }
        next
    }

    /// Whether the automaton accepts `input`.
    ///
    /// An input character that is the epsilon literal `_`, or that is not a
    /// member of the alphabet, makes the whole string rejected.
    pub fn is_accepted(&self, input: &str) -> (r: bool)
        requires
            self@.wf(),
        ensures
            r == nfa_accepts(self@, input@),
    {
        let ghost v = self@;
        let n = self.state_num;
        let mut cur = bv_from_elem(n, false);
        bv_set(&mut cur, self.start_state, true);
        proof {
            assert(bits_of(cur) =~= initial_set(v));
        }
        proof {
            lemma_find_last_idx(self.alphabet@, '_');
            assert(v.alphabet[0] == '_');
            assert(v.alphabet.contains('_'));
        }
        let eps_j = match find_last(&self.alphabet, '_') {
            Some(j) => j,
            None => {
                proof {
                    assert(false);
                }
                vstd::pervasive::unreached()
            },
        };
        let len = input.unicode_len();
        proof {
            assert(input@.subrange(0, len as int) =~= input@);
        }
        let mut k: usize = 0;
        while k < len
            invariant
                k <= len,
                len == input@.len(),
                v == self@,
                v.wf(),
                n == v.states,
                eps_j < v.alphabet.len(),
                eps_j as int == eps_index(v),
                bits_of(cur).len() == n,
                nfa_run(v, bits_of(cur), input@.subrange(k as int, len as int)) == nfa_run(
                    v,
                    initial_set(v),
                    input@,
                ),
            decreases len - k,
        {
            let ghost rest = input@.subrange(k as int, len as int);
            proof {
                assert(rest[0] == input@[k as int]);
                assert(rest.drop_first() =~= input@.subrange(k as int + 1, len as int));
            }
            let c = input.get_char(k);
            if c == '_' {
                return false;
            }
            proof {
                lemma_find_last_idx(self.alphabet@, c);
            }
            let j = match find_last(&self.alphabet, c) {
                Some(j) => j,
                None => {
                    proof {
                        assert(!v.alphabet.contains(c));
                        assert(nfa_run(v, bits_of(cur), rest) is None);
                    }
                    return false;
                },
            };
            let after_eps = self.union_step(&cur, eps_j);
            cur = self.union_step(&after_eps, j);
            k += 1;
        }
        proof {
            assert(input@.subrange(k as int, len as int) =~= Seq::<char>::empty());
        }
        let mut fin = self.union_step(&cur, eps_j);
        proof {
            assert(nfa_run(v, initial_set(v), input@) == Some(bits_of(fin)));
            assert(bits_of(fin).len() == n);
        }
        let ghost fbits = bits_of(fin);
        proof {
            assert(nfa_run(v, initial_set(v), input@) == Some(fbits));
        }
        bv_and(&mut fin, &self.accept_states);
        let r = bv_any(&fin);
        proof {
            if r {
                let i = choose|i: int| 0 <= i < bits_of(fin).len() && bits_of(fin)[i];
                assert(0 <= i < v.states);
                assert(fbits[i] && v.accept[i]);
                assert(exists|t: int| 0 <= t < v.states && fbits[t] && v.accept[t]);
                assert(nfa_accepts(v, input@));
            }
            if nfa_accepts(v, input@) {
                let t = choose|t: int| 0 <= t < v.states && fbits[t] && v.accept[t];
                assert(bits_of(fin)[t]);
            }
        }
        r
    }
}


/// Loading is deterministic: two automata that the same text describes are
/// structurally identical.
pub proof fn lemma_nfa_load_deterministic(text: Seq<char>, a: NfaView, b: NfaView)
    requires
        nfa_parse(text) == Ok::<NfaView, LoadErrorKind>(a),
        nfa_parse(text) == Ok::<NfaView, LoadErrorKind>(b),
    ensures
        a == b,
{
}

proof fn lemma_nfa_run_foreign(v: NfaView, cur: Seq<bool>, input: Seq<char>, i: int)
    requires
        0 <= i < input.len(),
        input[i] == '_' || !v.alphabet.contains(input[i]),
    ensures
        nfa_run(v, cur, input) is None,
    decreases input.len(),
{
    if input[0] == '_' || !v.alphabet.contains(input[0]) {
    } else {
        assert(input.drop_first()[i - 1] == input[i]);
        lemma_nfa_run_foreign(
            v,
            step_union(v, step_union(v, cur, eps_index(v)), sym_index(v, input[0])),
            input.drop_first(),
            i - 1,
        );
    }
}

/// An input string that contains the epsilon literal `_`, or any character
/// that is not a member of the alphabet, is always rejected.
pub proof fn lemma_nfa_rejects_foreign(v: NfaView, input: Seq<char>, i: int)
    requires
        0 <= i < input.len(),
        input[i] == '_' || !v.alphabet.contains(input[i]),
    ensures
        !nfa_accepts(v, input),
{
    lemma_nfa_run_foreign(v, initial_set(v), input, i);
}

/// The empty input is accepted by any well-formed automaton whose start
/// state is accepting: the reflexive epsilon seed keeps the start state in
/// the active set.
pub proof fn lemma_nfa_empty_accepting_start(v: NfaView)
    requires
        v.wf(),
        v.accept[v.start as int],
    ensures
        nfa_accepts(v, Seq::empty()),
{
    assert(v.alphabet[0] == '_');
    assert(v.alphabet.contains('_'));
    lemma_find_last_idx(v.alphabet, '_');
    let j = eps_index(v);
    assert(0 <= j < v.alphabet.len() && v.alphabet[j] == '_');
    let f = step_union(v, initial_set(v), j);
    assert(initial_set(v)[v.start as int]);
    assert(v.transitions[v.start as int][j][v.start as int]);
    assert(f[v.start as int]);
    assert(nfa_run(v, initial_set(v), Seq::empty()) == Some(f));
    assert(nfa_accepts(v, Seq::empty()));
}

/// The empty input is rejected when no single epsilon step from the start
/// state reaches an accepting state.  The hypothesis is needed: a start
/// state with an epsilon move into an accepting state accepts the empty
/// string even though the start state itself does not accept.
pub proof fn lemma_nfa_empty_rejecting(v: NfaView)
    requires
        v.wf(),
        forall|t: int|
            0 <= t < v.states && #[trigger] v.transitions[v.start as int][eps_index(v)][t]
                ==> !v.accept[t],
    ensures
        !nfa_accepts(v, Seq::empty()),
{
    let f = step_union(v, initial_set(v), eps_index(v));
    assert(nfa_run(v, initial_set(v), Seq::empty()) == Some(f));
    if nfa_accepts(v, Seq::empty()) {
        let t = choose|t: int|
            0 <= t < v.states && nfa_run(v, initial_set(v), Seq::empty()).unwrap()[t]
                && v.accept[t];
        assert(f[t]);
        let s = choose|s: int|
            0 <= s < v.states && initial_set(v)[s] && v.transitions[s][eps_index(v)][t];
        assert(s == v.start);
        assert(!v.accept[t]);
        assert(false);
    }
}

/// A description whose terminator line does not read `END` fails with the
/// missing-terminator error, however well-formed every preceding section is.
pub proof fn lemma_nfa_missing_end(text: Seq<char>)
    requires
        ({
            let lines = split_on(text, '\n');
            let l0 = line_at(lines, 0);
            let n = digits_val(l0);
            let alphabet = seq!['_'] + line_at(lines, 1);
            &&& parse_usize_ok(l0)
            &&& nfa_parse_rows(lines, alphabet, n, 0, Seq::empty()) is Ok
            &&& parse_usize_ok(line_at(lines, 2 + n as int))
            &&& digits_val(line_at(lines, 2 + n as int)) < n
            &&& parse_accept_line(line_at(lines, 3 + n as int), n) is Ok
            &&& !is_end_line(line_at(lines, 4 + n as int))
        }),
    ensures
        nfa_parse(text) == Err::<NfaView, LoadErrorKind>(LoadErrorKind::MissingEnd),
{
}

} // verus!
