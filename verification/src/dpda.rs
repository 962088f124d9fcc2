//! A deterministic pushdown automaton with an explicit symbol stack.
//!
//! The stack always carries the bottom marker `$`, declared first in the
//! stack alphabet; a run that would drain the stack before the input ends
//! rejects.  A transition consumes one input character (or none, through the
//! epsilon-input fallback), pops the stack top, and pushes a sequence of
//! stack symbols, the last listed symbol ending on top.  Loading enforces the
//! determinism invariant: for one state and one stack-top symbol, an
//! epsilon-input rule excludes every other rule.

use vstd::prelude::*;

use bit_vec::BitVec;

use crate::accept_set::load_accept;
use crate::accept_set::parse_accept_line;
use crate::bits::bits_of;
use crate::bits::bv_from_elem;
use crate::bits::bv_get;
use crate::errors::LoadError;
use crate::errors::LoadErrorKind;
use crate::text::all_in_alphabet;
use crate::text::canonical_dec;
use crate::text::contains_char;
use crate::text::digits_val;
use crate::text::get_line;
use crate::text::get_line_sum;
use crate::text::is_canonical_dec;
use crate::text::is_end_line;
use crate::text::is_end_line_exec;
use crate::text::line_at;
use crate::text::parse_usize;
use crate::text::parse_usize_ok;
use crate::text::split_exec;
use crate::text::split_on;
use crate::text::str_to_chars;
use crate::text::subvec;
use vstd::string::StrSliceExecFns;

verus! {

/// Mathematical model of one transition rule.
#[verifier::ext_equal]
pub struct RuleV {
    /// The input symbol consumed, or `_` for an epsilon-input rule.
    pub input: char,
    /// The stack symbol popped.
    pub pop: char,
    /// The next state.
    pub next: nat,
    /// The stack symbols pushed, the last one ending on top.
    pub push: Seq<char>,
}

/// Mathematical model of a loaded DPDA.
#[verifier::ext_equal]
pub struct DpdaView {
    /// Number of states; states are `0 .. states`.
    pub states: nat,
    /// The input alphabet, epsilon (`_`) at index 0.
    pub input_alphabet: Seq<char>,
    /// The stack alphabet, the bottom marker `$` first.
    pub stack_alphabet: Seq<char>,
    /// The rules of each state.
    pub rules: Seq<Seq<RuleV>>,
    /// The start state.
    pub start: nat,
    /// `accept[t]`: state `t` is accepting.
    pub accept: Seq<bool>,
}

impl DpdaView {
    /// Structural validity: alphabets carry their reserved first symbols,
    /// there is one rule list per state, and every referenced state is in
    /// range.
    pub open spec fn wf(self) -> bool {
        &&& self.input_alphabet.len() >= 1
        &&& self.input_alphabet[0] == '_'
        &&& self.stack_alphabet.len() >= 1
        &&& self.stack_alphabet[0] == '$'
        &&& self.rules.len() == self.states
        &&& self.accept.len() == self.states
        &&& self.start < self.states
        &&& (forall|s: int, x: int|
            0 <= s < self.rules.len() && 0 <= x < self.rules[s].len() ==> (
            #[trigger] self.rules[s][x]).next < self.states)
    }

    /// The determinism invariant: two distinct rules of one state that share
    /// a stack-top symbol must consume distinct input letters, and neither
    /// may be an epsilon-input rule.
    pub open spec fn deterministic(self) -> bool {
        forall|s: int|
            0 <= s < self.rules.len() ==> det_rules(#[trigger] self.rules[s])
    }
}

/// Determinism of one state's rule list.
pub open spec fn det_rules(rules: Seq<RuleV>) -> bool {
    forall|a: int, b: int|
        0 <= a < rules.len() && 0 <= b < rules.len() && a != b && (#[trigger] rules[a]).pop == (
        #[trigger] rules[b]).pop ==> rules[a].input != rules[b].input && rules[a].input != '_'
            && rules[b].input != '_'
}

/// The first rule with the key `(input, pop)`, if any.
pub open spec fn find_key_idx(rules: Seq<RuleV>, input: char, pop: char) -> Option<int>
    decreases rules.len(),
{
    if rules.len() == 0 {
        None
    } else if rules[0].input == input && rules[0].pop == pop {
        Some(0int)
    } else {
        match find_key_idx(rules.drop_first(), input, pop) {
            None => None,
            Some(i) => Some(i + 1),
        }
    }
}

/// The rule looked up for the key `(input, pop)`.
pub open spec fn lookup_rule(rules: Seq<RuleV>, input: char, pop: char) -> Option<RuleV> {
    match find_key_idx(rules, input, pop) {
        None => None,
        Some(i) => Some(rules[i]),
    }
}

proof fn lemma_map_view_push(s: Seq<Rule>, x: Rule)
    ensures
        (s.push(x)).map_values(|r: Rule| r@) == s.map_values(|r: Rule| r@).push(x@),
{
    assert((s.push(x)).map_values(|r: Rule| r@) =~= s.map_values(|r: Rule| r@).push(x@));
}

proof fn lemma_map_view_update(s: Seq<Rule>, i: int, x: Rule)
    requires
        0 <= i < s.len(),
    ensures
        (s.update(i, x)).map_values(|r: Rule| r@) == s.map_values(|r: Rule| r@).update(i, x@),
{
    assert((s.update(i, x)).map_values(|r: Rule| r@) =~= s.map_values(|r: Rule| r@).update(
        i,
        x@,
    ));
}

/// Declaring a non-conflicting rule keeps a rule list deterministic.
proof fn lemma_det_insert(rules: Seq<RuleV>, ia: Seq<char>, nr: RuleV)
    requires
        det_rules(rules),
        !rule_conflict(rules, ia, nr.input, nr.pop),
        nr.input == '_' ==> (forall|x: int|
            0 <= x < rules.len() ==> ia.contains((#[trigger] rules[x]).input)),
    ensures
        det_rules(insert_rule(rules, nr)),
{
    lemma_find_key_idx(rules, nr.input, nr.pop);
    let fk = find_key_idx(rules, nr.input, nr.pop);
    if fk is Some {
        let f = fk.unwrap();
        let rv1 = rules.update(f, nr);
        assert forall|a: int, b: int|
            0 <= a < rv1.len() && 0 <= b < rv1.len() && a != b && (#[trigger] rv1[a]).pop == (
            #[trigger] rv1[b]).pop implies rv1[a].input != rv1[b].input && rv1[a].input != '_'
            && rv1[b].input != '_' by {
            assert(rules[f].input == nr.input && rules[f].pop == nr.pop);
            assert(rv1[a].input == rules[a].input && rv1[a].pop == rules[a].pop);
            assert(rv1[b].input == rules[b].input && rv1[b].pop == rules[b].pop);
        }
        assert(det_rules(rv1));
    } else {
        let rv1 = rules.push(nr);
        assert forall|a: int, b: int|
            0 <= a < rv1.len() && 0 <= b < rv1.len() && a != b && (#[trigger] rv1[a]).pop == (
            #[trigger] rv1[b]).pop implies rv1[a].input != rv1[b].input && rv1[a].input != '_'
            && rv1[b].input != '_' by {
            if a < rules.len() && b < rules.len() {
                assert(rv1[a] == rules[a] && rv1[b] == rules[b]);
            } else {
                let o = if a < rules.len() {
                    a
                } else {
                    b
                };
                assert(0 <= o < rules.len());
                assert(rv1[o] == rules[o]);
                assert(rv1[rules.len() as int] == nr);
                assert(rules[o].pop == nr.pop);
                if nr.input == '_' {
                    assert(ia.contains(rules[o].input));
                    assert(rule_conflict(rules, ia, nr.input, nr.pop));
                    assert(false);
                } else {
                    if rules[o].input == '_' {
                        assert(rule_conflict(rules, ia, nr.input, nr.pop));
                        assert(false);
                    }
                    assert(rules[o].input != nr.input);
                }
            }
        }
        assert(det_rules(rv1));
    }
}

/// Every element of `insert_rule(rules, nr)` is `nr` or an element of
/// `rules`.
proof fn lemma_insert_rule_members(rules: Seq<RuleV>, nr: RuleV)
    ensures
        forall|x: int|
            0 <= x < insert_rule(rules, nr).len() ==> (#[trigger] insert_rule(rules, nr)[x]) == nr
                || (0 <= x < rules.len() && insert_rule(rules, nr)[x] == rules[x]),
{
    lemma_find_key_idx(rules, nr.input, nr.pop);
}

pub proof fn lemma_find_key_idx(rules: Seq<RuleV>, input: char, pop: char)
    ensures
        (find_key_idx(rules, input, pop) matches Some(i) ==> 0 <= i < rules.len() && rules[i].input
            == input && rules[i].pop == pop && (forall|j: int|
            0 <= j < i ==> !((#[trigger] rules[j]).input == input && rules[j].pop == pop))),
        (find_key_idx(rules, input, pop) is None ==> forall|j: int|
            0 <= j < rules.len() ==> !((#[trigger] rules[j]).input == input && rules[j].pop
                == pop)),
    decreases rules.len(),
{
    if rules.len() > 0 && !(rules[0].input == input && rules[0].pop == pop) {
        let sub = rules.drop_first();
        lemma_find_key_idx(sub, input, pop);
        assert(forall|j: int| 0 <= j < sub.len() ==> #[trigger] sub[j] == rules[j + 1]);
        match find_key_idx(sub, input, pop) {
            Some(i) => {
                assert(rules[i + 1] == sub[i]);
                assert forall|j: int| 0 <= j < i + 1 implies !((#[trigger] rules[j]).input == input
                    && rules[j].pop == pop) by {
                    if j > 0 {
                        assert(rules[j] == sub[j - 1]);
                    }
                }
            },
            None => {
                assert forall|j: int|
                    0 <= j < rules.len() implies !((#[trigger] rules[j]).input == input
                    && rules[j].pop == pop) by {
                    if j > 0 {
                        assert(rules[j] == sub[j - 1]);
                    }
                }
            },
        }
    }
}

pub proof fn lemma_find_key_idx_first(rules: Seq<RuleV>, input: char, pop: char, k: int)
    requires
        0 <= k < rules.len(),
        rules[k].input == input && rules[k].pop == pop,
        forall|j: int| 0 <= j < k ==> !((#[trigger] rules[j]).input == input && rules[j].pop == pop),
    ensures
        find_key_idx(rules, input, pop) == Some(k),
    decreases k,
{
    if !(rules[0].input == input && rules[0].pop == pop) {
        assert(forall|j: int|
            0 <= j < rules.drop_first().len() ==> #[trigger] rules.drop_first()[j] == rules[j + 1]);
        lemma_find_key_idx_first(rules.drop_first(), input, pop, k - 1);
    }
}

pub proof fn lemma_find_key_idx_none(rules: Seq<RuleV>, input: char, pop: char)
    requires
        forall|j: int|
            0 <= j < rules.len() ==> !((#[trigger] rules[j]).input == input && rules[j].pop == pop),
    ensures
        find_key_idx(rules, input, pop) is None,
    decreases rules.len(),
{
    if rules.len() > 0 {
        assert(forall|j: int|
            0 <= j < rules.drop_first().len() ==> #[trigger] rules.drop_first()[j] == rules[j + 1]);
        lemma_find_key_idx_none(rules.drop_first(), input, pop);
    }
}

/// Whether the automaton, in state `st` with stack `stack`, accepts the rest
/// of the input.  With the input consumed, acceptance needs the stack reduced
/// to the bottom marker alone and an accepting state.  A foreign or epsilon
/// input character, a missing transition, and a drained stack all reject.
pub open spec fn dpda_run(v: DpdaView, st: nat, stack: Seq<char>, input: Seq<char>) -> bool
    decreases input.len(),
{
    if input.len() == 0 {
        stack.len() == 1 && stack[0] == '$' && v.accept[st as int]
    } else if input[0] == '_' || !v.input_alphabet.contains(input[0]) {
        false
    } else if stack.len() == 0 {
        false
    } else {
        let found = if lookup_rule(v.rules[st as int], input[0], stack.last()) is Some {
            lookup_rule(v.rules[st as int], input[0], stack.last())
        } else {
            lookup_rule(v.rules[st as int], '_', stack.last())
        };
        match found {
            None => false,
            Some(rule) => {
                let new_stack = stack.drop_last() + rule.push;
                if new_stack.len() == 0 {
                    false
                } else {
                    dpda_run(v, rule.next, new_stack, input.drop_first())
                }
            },
        }
    }
}

/// Language membership: a run from the start state over the stack `[$]`.
pub open spec fn dpda_accepts(v: DpdaView, input: Seq<char>) -> bool {
    dpda_run(v, v.start, seq!['$'], input)
}

/// Whether declaring a rule with the key `(input, pop)` collides with an
/// already declared rule: an epsilon-input rule excludes every rule that pops
/// the same symbol, in either direction.
pub open spec fn rule_conflict(
    rules: Seq<RuleV>,
    input_alphabet: Seq<char>,
    input: char,
    pop: char,
) -> bool {
    if input == '_' {
        exists|i: int|
            0 <= i < rules.len() && (#[trigger] rules[i]).pop == pop && input_alphabet.contains(
                rules[i].input,
            )
    } else {
        exists|i: int|
            0 <= i < rules.len() && (#[trigger] rules[i]).pop == pop && rules[i].input == '_'
    }
}

/// Declare a rule: the rule with the same key is replaced, a fresh key is
/// appended.
pub open spec fn insert_rule(rules: Seq<RuleV>, r: RuleV) -> Seq<RuleV> {
    match find_key_idx(rules, r.input, r.pop) {
        Some(i) => rules.update(i, r),
        None => rules.push(r),
    }
}

/// Parse one rule line against the rules declared so far for its state: a
/// parenthesised, four-field record `(input, pop, nextState, pushSequence)`,
/// where a push sequence of the lone `_` pushes nothing.
pub open spec fn dpda_parse_rule_line(
    line: Seq<char>,
    ia: Seq<char>,
    sa: Seq<char>,
    n: nat,
    rules: Seq<RuleV>,
) -> Result<Seq<RuleV>, LoadErrorKind> {
    if line.len() < 1 || line[0] != '(' || line[line.len() - 1] != ')' {
        Err(LoadErrorKind::FileFormat)
    } else {
        let fields = split_on(line.subrange(1, line.len() - 1), ',');
        if fields.len() != 4 {
            Err(LoadErrorKind::FileFormat)
        } else if fields[0].len() != 1 {
            Err(LoadErrorKind::ParseChar)
        } else if fields[1].len() != 1 {
            Err(LoadErrorKind::ParseChar)
        } else if !parse_usize_ok(fields[2]) {
            Err(LoadErrorKind::ParseInt)
        } else if !ia.contains(fields[0][0]) {
            Err(LoadErrorKind::FileFormat)
        } else if !sa.contains(fields[1][0]) {
            Err(LoadErrorKind::FileFormat)
        } else if digits_val(fields[2]) >= n {
            Err(LoadErrorKind::FileFormat)
        } else if !((forall|q: int|
            0 <= q < fields[3].len() ==> sa.contains(#[trigger] fields[3][q])) || (fields[3].len()
            == 1 && fields[3][0] == '_')) {
            Err(LoadErrorKind::FileFormat)
        } else if rule_conflict(rules, ia, fields[0][0], fields[1][0]) {
            Err(LoadErrorKind::IncorrectDPDA)
        } else {
            let push = if fields[3].len() == 1 && fields[3][0] == '_' {
                Seq::<char>::empty()
            } else {
                fields[3]
            };
            Ok(
                insert_rule(
                    rules,
                    RuleV {
                        input: fields[0][0],
                        pop: fields[1][0],
                        next: digits_val(fields[2]),
                        push: push,
                    },
                ),
            )
        }
    }
}

/// Parse `k` rule lines starting at line `li`, folding them into `rules`;
/// the result carries the line index past the block.
pub open spec fn dpda_parse_rules(
    lines: Seq<Seq<char>>,
    ia: Seq<char>,
    sa: Seq<char>,
    n: nat,
    k: nat,
    li: nat,
    rules: Seq<RuleV>,
) -> Result<(Seq<RuleV>, nat), LoadErrorKind>
    decreases k,
{
    if k == 0 {
        Ok((rules, li))
    } else {
        match dpda_parse_rule_line(line_at(lines, li as int), ia, sa, n, rules) {
            Err(e) => Err(e),
            Ok(rules2) => dpda_parse_rules(lines, ia, sa, n, (k - 1) as nat, li + 1, rules2),
        }
    }
}

/// Parse the blocks of states `i .. n`, each a header line `i:<k>` (the label
/// must read exactly `i`) followed by `k` rule lines, starting at line `li`.
pub open spec fn dpda_parse_states(
    lines: Seq<Seq<char>>,
    ia: Seq<char>,
    sa: Seq<char>,
    n: nat,
    i: nat,
    li: nat,
    acc: Seq<Seq<RuleV>>,
) -> Result<(Seq<Seq<RuleV>>, nat), LoadErrorKind>
    decreases n - i,
{
    if i >= n {
        Ok((acc, li))
    } else {
        let parts = split_on(line_at(lines, li as int), ':');
        if parts.len() != 2 {
            Err(LoadErrorKind::FileFormat)
        } else if !canonical_dec(parts[0], i) {
            Err(LoadErrorKind::FileFormat)
        } else if !parse_usize_ok(parts[1]) {
            Err(LoadErrorKind::ParseInt)
        } else {
            match dpda_parse_rules(lines, ia, sa, n, digits_val(parts[1]), li + 1, Seq::empty()) {
                Err(e) => Err(e),
                Ok((rules, li2)) => dpda_parse_states(lines, ia, sa, n, i + 1, li2, acc.push(rules)),
            }
        }
    }
}

/// The DPDA description a text denotes, or the exact error that loading it
/// reports: state count, input alphabet, stack alphabet led by `$`, one block
/// per state, start state, accept states, and the terminating `END` line.
pub open spec fn dpda_parse(text: Seq<char>) -> Result<DpdaView, LoadErrorKind> {
    let lines = split_on(text, '\n');
    let l0 = line_at(lines, 0);
    if !parse_usize_ok(l0) {
        Err(LoadErrorKind::ParseInt)
    } else {
        let n = digits_val(l0);
        let ia = seq!['_'] + line_at(lines, 1);
        let sa = line_at(lines, 2);
        if sa.len() == 0 || sa[0] != '$' {
            Err(LoadErrorKind::FileFormat)
        } else {
            match dpda_parse_states(lines, ia, sa, n, 0, 3, Seq::empty()) {
                Err(k) => Err(k),
                Ok((rules, li)) => {
                    let ls = line_at(lines, li as int);
                    if !parse_usize_ok(ls) {
                        Err(LoadErrorKind::ParseInt)
                    } else if digits_val(ls) >= n {
                        Err(LoadErrorKind::FileFormat)
                    } else {
                        match parse_accept_line(line_at(lines, li + 1 as int), n) {
                            Err(k) => Err(k),
                            Ok(accept) => {
                                if !is_end_line(line_at(lines, li + 2 as int)) {
                                    Err(LoadErrorKind::MissingEnd)
                                } else {
                                    Ok(
                                        DpdaView {
                                            states: n,
                                            input_alphabet: ia,
                                            stack_alphabet: sa,
                                            rules: rules,
                                            start: digits_val(ls),
                                            accept: accept,
                                        },
                                    )
                                }
                            },
                        }
                    }
                },
            }
        }
    }
}

/// One transition rule: on `input` (or `_` for epsilon), pop `pop`, enter
/// `next` and push `push`, its last symbol ending on top.
#[derive(Debug)]
struct Rule {
    input: char,
    pop: char,
    next: usize,
    push: Vec<char>,
}

impl View for Rule {
    type V = RuleV;

    closed spec fn view(&self) -> RuleV {
        RuleV { input: self.input, pop: self.pop, next: self.next as nat, push: self.push@ }
    }
}

/// The model of a vector of per-state rule lists.
pub(crate) open spec fn rules_view(t: Seq<Vec<Rule>>) -> Seq<Seq<RuleV>> {
    t.map_values(|row: Vec<Rule>| row@.map_values(|x: Rule| x@))
}

/// A deterministic pushdown automaton, immutable once loaded.
#[derive(Debug)]
pub struct DPDA {
    state_num: usize,
    input_alphabet: Vec<char>,
    stack_alphabet: Vec<char>,
    transitions: Vec<Vec<Rule>>,
    start_state: usize,
    accept_states: BitVec,
}

impl View for DPDA {
    type V = DpdaView;

    closed spec fn view(&self) -> DpdaView {
        DpdaView {
            states: self.state_num as nat,
            input_alphabet: self.input_alphabet@,
            stack_alphabet: self.stack_alphabet@,
            rules: rules_view(self.transitions@),
            start: self.start_state as nat,
            accept: bits_of(self.accept_states),
        }
    }
}

impl DPDA {
    /// An automaton with no states, no alphabets and no rules.
    pub fn new() -> (r: DPDA)
        ensures
            r@.states == 0,
            r@.input_alphabet == Seq::<char>::empty(),
            r@.stack_alphabet == Seq::<char>::empty(),
            r@.rules == Seq::<Seq<RuleV>>::empty(),
            r@.start == 0,
            r@.accept == Seq::<bool>::empty(),
    {
        let r = DPDA {
            state_num: 0,
            input_alphabet: Vec::new(),
            stack_alphabet: Vec::new(),
            transitions: Vec::new(),
            start_state: 0,
            accept_states: bv_from_elem(0, false),
        };
        proof {
            assert(r@.input_alphabet =~= Seq::<char>::empty());
            assert(r@.stack_alphabet =~= Seq::<char>::empty());
            assert(r@.rules =~= Seq::<Seq<RuleV>>::empty());
            assert(r@.accept =~= Seq::<bool>::empty());
        }
        r
    }

    /// The index of the first rule with the key `(input, pop)`.
    fn find_rule(rules: &Vec<Rule>, input: char, pop: char) -> (r: Option<usize>)
        ensures
            (match r {
                Some(i) => i < rules@.len() && find_key_idx(
                    rules@.map_values(|x: Rule| x@),
                    input,
                    pop,
                ) == Some(i as int),
                None => find_key_idx(rules@.map_values(|x: Rule| x@), input, pop) is None,
            }),
    {
        let ghost rs = rules@.map_values(|x: Rule| x@);
        let mut k: usize = 0;
        while k < rules.len()
            invariant
                k <= rules.len(),
                rs == rules@.map_values(|x: Rule| x@),
                forall|j: int|
                    0 <= j < k ==> !((#[trigger] rs[j]).input == input && rs[j].pop == pop),
            decreases rules.len() - k,
        {
            let rule = &rules[k];
            if rule.input == input && rule.pop == pop {
                proof {
                    assert(rs[k as int] == rules@[k as int]@);
                    lemma_find_key_idx_first(rs, input, pop, k as int);
                }
                return Some(k);
            }
            proof {
                assert(rs[k as int] == rules@[k as int]@);
            }
            k += 1;
        }
        proof {
            lemma_find_key_idx_none(rs, input, pop);
        }
        None
    }

    /// Whether declaring `(input, pop)` collides with a declared rule.
    fn has_conflict(rules: &Vec<Rule>, input_alphabet: &Vec<char>, input: char, pop: char) -> (r:
        bool)
        ensures
            r == rule_conflict(rules@.map_values(|x: Rule| x@), input_alphabet@, input, pop),
    {
        let ghost rs = rules@.map_values(|x: Rule| x@);
        let eps = input == '_';
        let mut k: usize = 0;
        while k < rules.len()
            invariant
                k <= rules.len(),
                eps == (input == '_'),
                rs == rules@.map_values(|x: Rule| x@),
                eps ==> forall|j: int|
                    0 <= j < k ==> !((#[trigger] rs[j]).pop == pop && input_alphabet@.contains(
                        rs[j].input,
                    )),
                !eps ==> forall|j: int|
                    0 <= j < k ==> !((#[trigger] rs[j]).pop == pop && rs[j].input == '_'),
            decreases rules.len() - k,
        {
            proof {
                assert(rs[k as int] == rules@[k as int]@);
            }
            let rule = &rules[k];
            if rule.pop == pop {
                if eps {
                    if contains_char(input_alphabet, rule.input) {
                        return true;
                    }
                } else {
                    if rule.input == '_' {
                        return true;
                    }
                }
            }
            k += 1;
        }
        false
    }

    /// Parse one rule line and fold it into the rules of the current state.
    #[verifier::rlimit(60)]
    fn load_rule_line(
        line: &Vec<char>,
        input_alphabet: &Vec<char>,
        stack_alphabet: &Vec<char>,
        n: usize,
        rules0: Vec<Rule>,
    ) -> (r: Result<Vec<Rule>, LoadError>)
        requires
            input_alphabet@.len() >= 1,
            input_alphabet@[0] == '_',
            det_rules(rules0@.map_values(|x: Rule| x@)),
            forall|x: int|
                0 <= x < rules0@.len() ==> input_alphabet@.contains(
                    (#[trigger] rules0@[x]@).input,
                ),
            forall|x: int| 0 <= x < rules0@.len() ==> (#[trigger] rules0@[x]@).next < n,
        ensures
            (match r {
                Ok(rules2) => {
                    &&& dpda_parse_rule_line(
                        line@,
                        input_alphabet@,
                        stack_alphabet@,
                        n as nat,
                        rules0@.map_values(|x: Rule| x@),
                    ) == Ok::<Seq<RuleV>, LoadErrorKind>(rules2@.map_values(|x: Rule| x@))
                    &&& line@.len() >= 1
                    &&& det_rules(rules2@.map_values(|x: Rule| x@))
                    &&& (forall|x: int|
                        0 <= x < rules2@.len() ==> input_alphabet@.contains(
                            (#[trigger] rules2@[x]@).input,
                        ))
                    &&& (forall|x: int|
                        0 <= x < rules2@.len() ==> (#[trigger] rules2@[x]@).next < n)
                },
                Err(e) => dpda_parse_rule_line(
                    line@,
                    input_alphabet@,
                    stack_alphabet@,
                    n as nat,
                    rules0@.map_values(|x: Rule| x@),
                ) == Err::<Seq<RuleV>, LoadErrorKind>(e.kind()),
            }),
    {
        let mut rules = rules0;
        let ghost rv0 = rules@.map_values(|x: Rule| x@);
        if line.len() < 1 || line[0] != '(' || line[line.len() - 1] != ')' {
            return Err(LoadError::file_format("Parenthesis mismatch"));
        }
        let inner = subvec(line, 1, line.len() - 1);
        let mut fields = split_exec(&inner, ',');
        let ghost fs = fields@.map_values(|p: Vec<char>| p@);
        if fields.len() != 4 {
            return Err(LoadError::file_format("Wrong number of commas in line"));
        }
        proof {
            assert(fs[0] == fields@[0]@);
            assert(fs[1] == fields@[1]@);
            assert(fs[2] == fields@[2]@);
            assert(fs[3] == fields@[3]@);
        }
        if fields[0].len() != 1 {
            return Err(LoadError::ParseChar);
        }
        if fields[1].len() != 1 {
            return Err(LoadError::ParseChar);
        }
        let input = fields[0][0];
        let pop = fields[1][0];
        let next = match parse_usize(&fields[2]) {
            None => {
                return Err(LoadError::ParseInt);
            },
            Some(x) => x,
        };
        if !contains_char(input_alphabet, input) {
            return Err(LoadError::file_format("Input letter not in alphabet"));
        }
        if !contains_char(stack_alphabet, pop) {
            return Err(LoadError::file_format("Pop letter not in alphabet"));
        }
        if next >= n {
            return Err(LoadError::file_format("Next state out of range"));
        }
        let is_eps_push = fields[3].len() == 1 && fields[3][0] == '_';
        if !(all_in_alphabet(&fields[3], stack_alphabet) || is_eps_push) {
            return Err(LoadError::file_format("Wrong format of push letter"));
        }
        if Self::has_conflict(&rules, input_alphabet, input, pop) {
            return Err(LoadError::IncorrectDPDA);
        }
        let push: Vec<char> = if is_eps_push {
            Vec::new()
        } else {
            match fields.pop() {
                Some(p) => p,
                None => {
                    proof {
                        assert(false);
                    }
                    vstd::pervasive::unreached()
                },
            }
        };
        proof {
            if is_eps_push {
                assert(push@ =~= Seq::<char>::empty());
            } else {
                assert(push@ == fs[3]);
            }
        }
        let ghost nr = RuleV { input: input, pop: pop, next: next as nat, push: push@ };
        let rule = Rule { input: input, pop: pop, next: next, push: push };
        proof {
            assert(rule@ == nr);
            lemma_find_key_idx(rv0, input, pop);
        }
        let ghost pre = rules@;
        match Self::find_rule(&rules, input, pop) {
            Some(f) => {
                rules.set(f, rule);
                proof {
                    assert(rules@ == pre.update(f as int, rule));
                    lemma_map_view_update(pre, f as int, rule);
                    assert(rules@.map_values(|x: Rule| x@) == rv0.update(f as int, nr));
                    assert(insert_rule(rv0, nr) == rv0.update(f as int, nr));
                }
            },
            None => {
                rules.push(rule);
                proof {
                    assert(rules@ == pre.push(rule));
                    lemma_map_view_push(pre, rule);
                    assert(rules@.map_values(|x: Rule| x@) == rv0.push(nr));
                    assert(insert_rule(rv0, nr) == rv0.push(nr));
                }
            },
        }
        proof {
            lemma_det_insert(rv0, input_alphabet@, nr);
            assert(det_rules(rules@.map_values(|x: Rule| x@)));
            lemma_insert_rule_members(rv0, nr);
            assert forall|x: int|
                0 <= x < rules@.len() implies input_alphabet@.contains(
                (#[trigger] rules@[x]@).input,
            ) && rules@[x]@.next < n by {
                assert(rules@[x]@ == insert_rule(rv0, nr)[x]);
                assert(insert_rule(rv0, nr)[x] == nr || (0 <= x < rv0.len() && insert_rule(
                    rv0,
                    nr,
                )[x] == rv0[x]));
                if insert_rule(rv0, nr)[x] == nr {
                } else {
                    assert(rv0[x] == rules0@[x]@);
                }
            }
        }
        Ok(rules)
    }

    /// Load a block of `tr_num` rule lines starting at line `li0`; the result
    /// carries the rules and the line index past the block.
    fn load_rules_block(
        lines: &Vec<Vec<char>>,
        input_alphabet: &Vec<char>,
        stack_alphabet: &Vec<char>,
        n: usize,
        tr_num: usize,
        li0: usize,
    ) -> (r: Result<(Vec<Rule>, usize), LoadError>)
        requires
            input_alphabet@.len() >= 1,
            input_alphabet@[0] == '_',
        ensures
            (match r {
                Ok(p) => {
                    &&& dpda_parse_rules(
                        lines@.map_values(|q: Vec<char>| q@),
                        input_alphabet@,
                        stack_alphabet@,
                        n as nat,
                        tr_num as nat,
                        li0 as nat,
                        Seq::empty(),
                    ) == Ok::<(Seq<RuleV>, nat), LoadErrorKind>(
                        (p.0@.map_values(|x: Rule| x@), p.1 as nat),
                    )
                    &&& det_rules(p.0@.map_values(|x: Rule| x@))
                    &&& (forall|x: int|
                        0 <= x < p.0@.len() ==> (#[trigger] p.0@[x]@).next < n)
                },
                Err(e) => dpda_parse_rules(
                    lines@.map_values(|q: Vec<char>| q@),
                    input_alphabet@,
                    stack_alphabet@,
                    n as nat,
                    tr_num as nat,
                    li0 as nat,
                    Seq::empty(),
                ) == Err::<(Seq<RuleV>, nat), LoadErrorKind>(e.kind()),
            }),
    {
        let ghost lns = lines@.map_values(|q: Vec<char>| q@);
        let nlines = lines.len();
        let mut rules: Vec<Rule> = Vec::new();
        proof {
            assert(rules@.map_values(|x: Rule| x@) =~= Seq::<RuleV>::empty());
        }
        let mut li = li0;
        let mut t: usize = 0;
        while t < tr_num
            invariant
                t <= tr_num,
                nlines == lns.len(),
                lns == lines@.map_values(|q: Vec<char>| q@),
                input_alphabet@.len() >= 1,
                input_alphabet@[0] == '_',
                det_rules(rules@.map_values(|x: Rule| x@)),
                forall|x: int|
                    0 <= x < rules@.len() ==> input_alphabet@.contains(
                        (#[trigger] rules@[x]@).input,
                    ),
                forall|x: int| 0 <= x < rules@.len() ==> (#[trigger] rules@[x]@).next < n,
                dpda_parse_rules(
                    lns,
                    input_alphabet@,
                    stack_alphabet@,
                    n as nat,
                    tr_num as nat,
                    li0 as nat,
                    Seq::empty(),
                ) == dpda_parse_rules(
                    lns,
                    input_alphabet@,
                    stack_alphabet@,
                    n as nat,
                    (tr_num - t) as nat,
                    li as nat,
                    rules@.map_values(|x: Rule| x@),
                ),
            decreases tr_num - t,
        {
            let line = get_line(lines, li);
            match Self::load_rule_line(&line, input_alphabet, stack_alphabet, n, rules) {
                Err(e) => {
                    return Err(e);
                },
                Ok(rules2) => {
                    rules = rules2;
                },
            }
            proof {
                if li >= lns.len() {
                    assert(line@ == Seq::<char>::empty());
                    assert(false);
                }
            }
            li += 1;
            t += 1;
        }
        Ok((rules, li))
    }

    /// Load a DPDA description from its text.
    ///
    /// The result is exactly what [`dpda_parse`] says of the text: a
    /// well-formed, deterministic automaton on success, and on failure the error whose kind [`dpda_parse`]
    /// names, with no partial automaton
    /// returned.
    pub fn load(text: &str) -> (r: Result<DPDA, LoadError>)
        ensures
            (match r {
                Ok(m) => dpda_parse(text@) == Ok::<DpdaView, LoadErrorKind>(m@) && m@.wf()
                    && m@.deterministic(),
                Err(e) => dpda_parse(text@) == Err::<DpdaView, LoadErrorKind>(e.kind()),
            }),
    {
        let chars = str_to_chars(text);
        let lines = split_exec(&chars, '\n');
        let ghost lns = lines@.map_values(|p: Vec<char>| p@);
        let nlines = lines.len();
        let l0 = get_line(&lines, 0);
        let n = match parse_usize(&l0) {
            None => {
                return Err(LoadError::ParseInt);
            },
            Some(n) => n,
        };
        let mut input_alphabet = get_line(&lines, 1);
        input_alphabet.insert(0, '_');
        let ghost ia = input_alphabet@;
        proof {
            assert(ia =~= seq!['_'] + line_at(lns, 1));
        }
        let stack_alphabet = get_line(&lines, 2);
        let ghost sa = stack_alphabet@;
        if stack_alphabet.len() == 0 || stack_alphabet[0] != '$' {
            return Err(LoadError::file_format("The first stack alphabet must be $"));
        }
        let mut transitions: Vec<Vec<Rule>> = Vec::new();
        proof {
            assert(rules_view(transitions@) =~= Seq::<Seq<RuleV>>::empty());
        }
        let mut li: usize = 3;
        let mut i: usize = 0;
        while i < n
            invariant
                i <= n,
                ia == input_alphabet@,
                ia.len() >= 1,
                ia[0] == '_',
                ia == seq!['_'] + line_at(lns, 1),
                sa == stack_alphabet@,
                sa.len() >= 1,
                sa[0] == '$',
                sa == line_at(lns, 2),
                lns == lines@.map_values(|p: Vec<char>| p@),
                lns == split_on(chars@, '\n'),
                chars@ == text@,
                nlines == lns.len(),
                l0@ == line_at(lns, 0),
                parse_usize_ok(l0@) && digits_val(l0@) == n as nat,
                transitions@.len() == i,
                dpda_parse_states(lns, ia, sa, n as nat, 0, 3, Seq::empty()) == dpda_parse_states(
                    lns,
                    ia,
                    sa,
                    n as nat,
                    i as nat,
                    li as nat,
                    rules_view(transitions@),
                ),
                forall|s: int| 0 <= s < i ==> det_rules(#[trigger] rules_view(transitions@)[s]),
                forall|s: int, x: int|
                    0 <= s < i && 0 <= x < rules_view(transitions@)[s].len() ==> (
                    #[trigger] rules_view(transitions@)[s][x]).next < n,
            decreases n - i,
        {
            let header = get_line(&lines, li);
            let parts = split_exec(&header, ':');
            let ghost ps = parts@.map_values(|p: Vec<char>| p@);
            if parts.len() != 2 {
                return Err(LoadError::file_format("Wrong number of colons in line"));
            }
            proof {
                assert(ps[0] == parts@[0]@);
                assert(ps[1] == parts@[1]@);
            }
            if !is_canonical_dec(&parts[0], i) {
                return Err(LoadError::file_format("State number mismatch"));
            }
            let tr_num = match parse_usize(&parts[1]) {
                None => {
                    return Err(LoadError::ParseInt);
                },
                Some(x) => x,
            };
            proof {
                if li >= lns.len() {
                    assert(header@ == Seq::<char>::empty());
                    assert(split_on(Seq::<char>::empty(), ':') =~= seq![Seq::<char>::empty()]);
                    assert(ps =~= seq![Seq::<char>::empty()]);
                    assert(false);
                }
            }
            let hli = li;
            li += 1;
            let ghost m0 = rules_view(transitions@);
            match Self::load_rules_block(
                &lines,
                &input_alphabet,
                &stack_alphabet,
                n,
                tr_num,
                li,
            ) {
                Err(e) => {
                    return Err(e);
                },
                Ok(p) => {
                    let (rules, li2) = p;
                    transitions.push(rules);
                    li = li2;
                    proof {
                        assert(rules_view(transitions@) =~~= m0.push(
                            transitions@.last()@.map_values(|x: Rule| x@),
                        ));
                    }
                },
            }
            i += 1;
        }
        let lstart = get_line_sum(&lines, li, 0);
        let start = match parse_usize(&lstart) {
            None => {
                return Err(LoadError::ParseInt);
            },
            Some(s) => s,
        };
        if start >= n {
            return Err(LoadError::file_format("Start state out of range"));
        }
        let laccept = get_line_sum(&lines, li, 1);
        let accept_states = match load_accept(&laccept, n) {
            Err(e) => {
                return Err(e);
            },
            Ok(b) => b,
        };
        let lend = get_line_sum(&lines, li, 2);
        if !is_end_line_exec(&lend) {
            return Err(LoadError::MissingEnd);
        }
        let m = DPDA {
            state_num: n,
            input_alphabet,
            stack_alphabet,
            transitions,
            start_state: start,
            accept_states,
        };
        proof {
            assert(m@.wf());
            assert(m@.deterministic());
            assert(dpda_parse(text@) == Ok::<DpdaView, LoadErrorKind>(m@));
        }
        Ok(m)
    }

    /// Whether the automaton accepts `input`.
    ///
    /// An input character that is the epsilon literal `_`, or that is not a
    /// member of the input alphabet, makes the whole string rejected, as do a
    /// missing transition and a drained stack.
    pub fn is_accepted(&self, input: &str) -> (r: bool)
        requires
            self@.wf(),
        ensures
            r == dpda_accepts(self@, input@),
    {
        let ghost v = self@;
        let mut stack: Vec<char> = Vec::new();
        stack.push('$');
        proof {
            assert(stack@ =~= seq!['$']);
        }
        let mut st = self.start_state;
        let len = input.unicode_len();
        proof {
            assert(input@.subrange(0, len as int) =~= input@);
        }
        let mut k: usize = 0;
        while k < len
            invariant
                k <= len,
                len == input@.len(),
                v == self@,
                v.wf(),
                st < self.state_num,
                stack@.len() >= 1,
                dpda_run(v, st as nat, stack@, input@.subrange(k as int, len as int))
                    == dpda_accepts(v, input@),
            decreases len - k,
        {
            let ghost rest = input@.subrange(k as int, len as int);
            proof {
                assert(rest[0] == input@[k as int]);
                assert(rest.drop_first() =~= input@.subrange(k as int + 1, len as int));
            }
            let c = input.get_char(k);
            if c == '_' {
                return false;
            }
            if !contains_char(&self.input_alphabet, c) {
                return false;
            }
            let top = stack[stack.len() - 1];
            proof {
                assert(top == stack@.last());
                assert(v.rules[st as int] == self.transitions@[st as int]@.map_values(
                    |x: Rule| x@,
                ));
            }
            let row = &self.transitions[st];
            let found = match Self::find_rule(row, c, top) {
                Some(i) => Some(i),
                None => Self::find_rule(row, '_', top),
            };
            let ri = match found {
                None => {
                    return false;
                },
                Some(i) => i,
            };
            let rule = &row[ri];
            proof {
                assert(rule@ == v.rules[st as int][ri as int]);
            }
            st = rule.next;
            let ghost pre = stack@;
            stack.pop();
            proof {
                assert(stack@ =~= pre.drop_last());
            }
            let ghost popped = stack@;
            let mut p: usize = 0;
            while p < rule.push.len()
                invariant
                    p <= rule.push.len(),
                    stack@ == popped + rule.push@.subrange(0, p as int),
                decreases rule.push.len() - p,
            {
                stack.push(rule.push[p]);
                proof {
                    assert(stack@ =~= popped + rule.push@.subrange(0, p as int + 1));
                }
                p += 1;
            }
            proof {
                assert(stack@ =~= popped + rule@.push);
            }
            if stack.len() == 0 {
                return false;
            }
            k += 1;
        }
        proof {
            assert(input@.subrange(k as int, len as int) =~= Seq::<char>::empty());
        }
        let r = stack.len() == 1 && stack[0] == '$' && bv_get(&self.accept_states, st);
        r
    }
}

/// Loading is deterministic: two automata that the same text describes are
/// structurally identical.
pub proof fn lemma_dpda_load_deterministic(text: Seq<char>, a: DpdaView, b: DpdaView)
    requires
        dpda_parse(text) == Ok::<DpdaView, LoadErrorKind>(a),
        dpda_parse(text) == Ok::<DpdaView, LoadErrorKind>(b),
    ensures
        a == b,
{
}

proof fn lemma_dpda_run_foreign(v: DpdaView, st: nat, stack: Seq<char>, input: Seq<char>, i: int)
    requires
        0 <= i < input.len(),
        input[i] == '_' || !v.input_alphabet.contains(input[i]),
    ensures
        !dpda_run(v, st, stack, input),
    decreases input.len(),
{
    if input[0] == '_' || !v.input_alphabet.contains(input[0]) {
    } else if stack.len() == 0 {
    } else {
        assert(input.drop_first()[i - 1] == input[i]);
        let found = if lookup_rule(v.rules[st as int], input[0], stack.last()) is Some {
            lookup_rule(v.rules[st as int], input[0], stack.last())
        } else {
            lookup_rule(v.rules[st as int], '_', stack.last())
        };
        match found {
            None => {},
            Some(rule) => {
                let new_stack = stack.drop_last() + rule.push;
                if new_stack.len() != 0 {
                    lemma_dpda_run_foreign(v, rule.next, new_stack, input.drop_first(), i - 1);
                }
            },
        }
    }
}

/// An input string that contains the epsilon literal `_`, or any character
/// that is not a member of the input alphabet, is always rejected.
pub proof fn lemma_dpda_rejects_foreign(v: DpdaView, input: Seq<char>, i: int)
    requires
        0 <= i < input.len(),
        input[i] == '_' || !v.input_alphabet.contains(input[i]),
    ensures
        !dpda_accepts(v, input),
{
    lemma_dpda_run_foreign(v, v.start, seq!['$'], input, i);
}

/// With the empty input no transition fires, so acceptance is exactly: the
/// start state is accepting.
pub proof fn lemma_dpda_empty_input(v: DpdaView)
    ensures
        dpda_accepts(v, Seq::empty()) == v.accept[v.start as int],
{
    assert(seq!['$'].len() == 1 && seq!['$'][0] == '$');
}

/// A description whose terminator line does not read `END` fails with the
/// missing-terminator error, however well-formed every preceding section is.
pub proof fn lemma_dpda_missing_end(text: Seq<char>)
    requires
        ({
            let lines = split_on(text, '\n');
            let l0 = line_at(lines, 0);
            let n = digits_val(l0);
            let ia = seq!['_'] + line_at(lines, 1);
            let sa = line_at(lines, 2);
            let st = dpda_parse_states(lines, ia, sa, n, 0, 3, Seq::empty());
            &&& parse_usize_ok(l0)
            &&& sa.len() > 0
            &&& sa[0] == '$'
            &&& st is Ok
            &&& parse_usize_ok(line_at(lines, st.unwrap().1 as int))
            &&& digits_val(line_at(lines, st.unwrap().1 as int)) < n
            &&& parse_accept_line(line_at(lines, st.unwrap().1 + 1 as int), n) is Ok
            &&& !is_end_line(line_at(lines, st.unwrap().1 + 2 as int))
        }),
    ensures
        dpda_parse(text) == Err::<DpdaView, LoadErrorKind>(LoadErrorKind::MissingEnd),
{
}

} // verus!
