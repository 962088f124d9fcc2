use automata::dpda::DPDA;
use automata::nfa::NFA;
use automata::LoadErrorKind;

const NFA_AB: &str = "2\nab\n0:0/0/1\n1://\n0\n1\nEND\n";
const DPDA_PARENS: &str = "1\n()\n$X\n0:3\n((,$,0,$X)\n((,X,0,XX)\n(),X,0,_)\n0\n0\nEND\n";

#[test]
fn nfa_example_accepts_ab() {
    let nfa = NFA::load(NFA_AB).unwrap();
    assert!(nfa.is_accepted("ab"));
}

#[test]
fn nfa_example_rejects_ba() {
    let nfa = NFA::load(NFA_AB).unwrap();
    assert!(!nfa.is_accepted("ba"));
}

#[test]
fn nfa_self_loop_consumes_repeats() {
    let nfa = NFA::load(NFA_AB).unwrap();
    assert!(nfa.is_accepted("aaab"));
    assert!(!nfa.is_accepted("abb"));
    assert!(!nfa.is_accepted("a"));
}

#[test]
fn nfa_empty_input_accepting_start() {
    let nfa = NFA::load("1\na\n0:0/\n0\n0\nEND\n").unwrap();
    assert!(nfa.is_accepted(""));
}

#[test]
fn nfa_empty_input_rejecting_start() {
    let nfa = NFA::load(NFA_AB).unwrap();
    assert!(!nfa.is_accepted(""));
}

#[test]
fn nfa_epsilon_expansion_is_single_layer() {
    // A chain of two epsilon moves is not traversed in one step: from the
    // start only one epsilon layer is applied, so state 2 stays out of reach.
    let nfa = NFA::load("3\na\n0:1/\n1:2/\n2:/\n0\n2\nEND\n").unwrap();
    assert!(!nfa.is_accepted(""));
    let direct = NFA::load("3\na\n0:1/\n1:2/\n2:/\n0\n1\nEND\n").unwrap();
    assert!(direct.is_accepted(""));
}

#[test]
fn nfa_empty_input_epsilon_reaches_accept() {
    // A single epsilon layer runs before the accept check, so an epsilon
    // move from a non-accepting start state into an accepting state makes
    // the empty string accepted.
    let nfa = NFA::load("2\na\n0:1/\n1:/\n0\n1\nEND\n").unwrap();
    assert!(nfa.is_accepted(""));
}

#[test]
fn nfa_rejects_foreign_character() {
    let nfa = NFA::load(NFA_AB).unwrap();
    assert!(!nfa.is_accepted("az"));
    assert!(!nfa.is_accepted("a_b"));
}

#[test]
fn nfa_load_deterministic() {
    let first = NFA::load(NFA_AB).unwrap();
    let second = NFA::load(NFA_AB).unwrap();
    for input in ["", "a", "b", "ab", "ba", "aab", "abab"] {
        assert_eq!(first.is_accepted(input), second.is_accepted(input));
    }
}

#[test]
fn nfa_missing_end_line() {
    let err = NFA::load("2\nab\n0:0/0/1\n1://\n0\n1\n").unwrap_err();
    assert_eq!(err.kind_of(), LoadErrorKind::MissingEnd);
}

#[test]
fn nfa_end_line_ignores_whitespace() {
    assert!(NFA::load("2\nab\n0:0/0/1\n1://\n0\n1\n  END  \n").is_ok());
}

#[test]
fn nfa_malformed_state_count() {
    let err = NFA::load("x\nab\nEND\n").unwrap_err();
    assert_eq!(err.kind_of(), LoadErrorKind::ParseInt);
}

#[test]
fn nfa_start_state_out_of_range() {
    let err = NFA::load("2\nab\n0:0/0/1\n1://\n5\n1\nEND\n").unwrap_err();
    assert_eq!(err.kind_of(), LoadErrorKind::FileFormat);
}

#[test]
fn nfa_state_label_mismatch() {
    let err = NFA::load("2\nab\n1:0/0/1\n1://\n0\n1\nEND\n").unwrap_err();
    assert_eq!(err.kind_of(), LoadErrorKind::FileFormat);
}

#[test]
fn nfa_destination_out_of_range() {
    let err = NFA::load("2\nab\n0:0/0/7\n1://\n0\n1\nEND\n").unwrap_err();
    assert_eq!(err.kind_of(), LoadErrorKind::FileFormat);
}

#[test]
fn nfa_wrong_group_count() {
    let err = NFA::load("2\nab\n0:0/0\n1://\n0\n1\nEND\n").unwrap_err();
    assert_eq!(err.kind_of(), LoadErrorKind::FileFormat);
}

#[test]
fn nfa_whitespace_is_stripped() {
    let nfa = NFA::load(" 2 \n a b \n 0 : 0 / 0 / 1 \n 1 : / / \n 0 \n 1 \nEND\n").unwrap();
    assert!(nfa.is_accepted("ab"));
    assert!(!nfa.is_accepted("ba"));
}

#[test]
fn dpda_example_accepts_balanced() {
    let dpda = DPDA::load(DPDA_PARENS).unwrap();
    assert!(dpda.is_accepted("(())"));
    assert!(dpda.is_accepted("()()"));
}

#[test]
fn dpda_example_rejects_unbalanced_open() {
    let dpda = DPDA::load(DPDA_PARENS).unwrap();
    assert!(!dpda.is_accepted("(()"));
}

#[test]
fn dpda_example_rejects_close_first() {
    let dpda = DPDA::load(DPDA_PARENS).unwrap();
    assert!(!dpda.is_accepted(")("));
}

#[test]
fn dpda_empty_input_accepting_start() {
    let dpda = DPDA::load(DPDA_PARENS).unwrap();
    assert!(dpda.is_accepted(""));
}

#[test]
fn dpda_empty_input_rejecting_start() {
    let dpda = DPDA::load("2\n()\n$X\n0:1\n((,$,1,$)\n1:0\n0\n1\nEND\n").unwrap();
    assert!(!dpda.is_accepted(""));
    assert!(dpda.is_accepted("("));
}

#[test]
fn dpda_rejects_foreign_character() {
    let dpda = DPDA::load(DPDA_PARENS).unwrap();
    assert!(!dpda.is_accepted("(z)"));
    assert!(!dpda.is_accepted("_"));
}

#[test]
fn dpda_load_deterministic() {
    let first = DPDA::load(DPDA_PARENS).unwrap();
    let second = DPDA::load(DPDA_PARENS).unwrap();
    for input in ["", "(", ")", "()", "(())", "(()", ")(", "()()("] {
        assert_eq!(first.is_accepted(input), second.is_accepted(input));
    }
}

#[test]
fn dpda_nondeterministic_rules_refused() {
    let err =
        DPDA::load("1\n()\n$X\n0:2\n((,$,0,$X)\n(_,$,0,_)\nEND\n").unwrap_err();
    assert_eq!(err.kind_of(), LoadErrorKind::IncorrectDPDA);
}

#[test]
fn dpda_epsilon_rule_then_letter_rule_refused() {
    let err =
        DPDA::load("1\n()\n$X\n0:2\n(_,$,0,$)\n((,$,0,$X)\nEND\n").unwrap_err();
    assert_eq!(err.kind_of(), LoadErrorKind::IncorrectDPDA);
}

#[test]
fn dpda_letter_rules_on_distinct_tops_allowed() {
    assert!(DPDA::load(DPDA_PARENS).is_ok());
}

#[test]
fn dpda_missing_end_line() {
    let err = DPDA::load("1\n()\n$X\n0:0\n0\n0\n").unwrap_err();
    assert_eq!(err.kind_of(), LoadErrorKind::MissingEnd);
}

#[test]
fn dpda_stack_alphabet_must_start_with_dollar() {
    let err = DPDA::load("1\n()\nX$\n0:0\n0\n0\nEND\n").unwrap_err();
    assert_eq!(err.kind_of(), LoadErrorKind::FileFormat);
}

#[test]
fn dpda_malformed_char_field() {
    let err = DPDA::load("1\n()\n$X\n0:1\n(ab,$,0,_)\n0\n0\nEND\n").unwrap_err();
    assert_eq!(err.kind_of(), LoadErrorKind::ParseChar);
}

#[test]
fn dpda_malformed_rule_count() {
    let err = DPDA::load("1\n()\n$X\n0:x\n0\n0\nEND\n").unwrap_err();
    assert_eq!(err.kind_of(), LoadErrorKind::ParseInt);
}

#[test]
fn dpda_parenthesis_mismatch() {
    let err = DPDA::load("1\n()\n$X\n0:1\n(,$,0,_\n0\n0\nEND\n").unwrap_err();
    assert_eq!(err.kind_of(), LoadErrorKind::FileFormat);
}

#[test]
fn dpda_epsilon_fallback_consumes_input() {
    // The epsilon-input rule substitutes for a missing letter rule but the
    // character is still consumed: one 'x' per fallback step.
    let dpda = DPDA::load("2\nx\n$\n0:1\n(_,$,1,$)\n1:1\n(x,$,1,$)\n0\n1\nEND\n").unwrap();
    assert!(dpda.is_accepted("xx"));
    assert!(!dpda.is_accepted(""));
}

#[test]
fn dpda_push_sequence_last_symbol_on_top() {
    // The rule pushes "$X": X ends on top, so a following ')' can pop it.
    let dpda = DPDA::load(DPDA_PARENS).unwrap();
    assert!(dpda.is_accepted("()"));
}

#[test]
fn dpda_accept_needs_empty_stack() {
    // In the accepting state with symbols left above '$', the run rejects.
    let dpda = DPDA::load(DPDA_PARENS).unwrap();
    assert!(!dpda.is_accepted("(("));
}
