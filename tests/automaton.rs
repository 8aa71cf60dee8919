use levenshtein::deterministic::{Automaton as DeterministicAutomaton, BuildError};
use levenshtein::nondeterministic::Automaton as NondeterministicAutomaton;

/// Edit distance by the textbook dynamic program, as a yardstick.
fn edit_distance(a: &str, b: &str) -> usize {
    let a: Vec<char> = a.chars().collect();
    let b: Vec<char> = b.chars().collect();
    let mut prev: Vec<usize> = (0..=b.len()).collect();
    for i in 1..=a.len() {
        let mut cur = vec![i; b.len() + 1];
        for j in 1..=b.len() {
            let cost = if a[i - 1] == b[j - 1] { 0 } else { 1 };
            cur[j] = (prev[j] + 1).min(cur[j - 1] + 1).min(prev[j - 1] + cost);
        }
        prev = cur;
    }
    prev[b.len()]
}

#[test]
fn hello_matches_both_automatons() {
    let nfa = NondeterministicAutomaton::new("Hello", 2);
    let dfa = DeterministicAutomaton::new(&nfa).unwrap();
    assert!(nfa.is_match("Hello"));
    assert!(dfa.is_match("Hello"));
}

#[test]
fn simulated_agrees_with_edit_distance_on_hello_targets() {
    let nfa = NondeterministicAutomaton::new("Hello", 2);
    for target in ["Hello", "Hello,", "Hello,,", "Hello       ,"] {
        assert_eq!(nfa.is_match(target), edit_distance("Hello", target) <= 2, "{target}");
    }
    assert_eq!(edit_distance("Hello", "Hello,,"), 2);
    assert_eq!(edit_distance("Hello", "Hello       ,"), 8);
}

#[test]
fn compiled_results_on_hello_targets() {
    let nfa = NondeterministicAutomaton::new("Hello", 2);
    let dfa = DeterministicAutomaton::new(&nfa).unwrap();
    assert!(dfa.is_match("Hello,"));
    assert!(!dfa.is_match("Hello,,"));
    assert!(!dfa.is_match("Hello       ,"));
}

#[test]
fn automatons_diverge_on_two_trailing_characters() {
    let nfa = NondeterministicAutomaton::new("Hello", 2);
    let dfa = DeterministicAutomaton::new(&nfa).unwrap();
    assert!(nfa.is_match("Hello,,"));
    assert!(!dfa.is_match("Hello,,"));
}

#[test]
fn automatons_agree_on_hello_prefix_targets() {
    let nfa = NondeterministicAutomaton::new("Hello", 2);
    let dfa = DeterministicAutomaton::new(&nfa).unwrap();
    for target in ["Hello", "Hello,", "Hello       ,", "", "Hell"] {
        assert_eq!(nfa.is_match(target), dfa.is_match(target), "{target}");
    }
}

#[test]
fn compiled_accepts_only_prefix_matches() {
    let nfa = NondeterministicAutomaton::new("Hello", 2);
    let dfa = DeterministicAutomaton::new(&nfa).unwrap();
    assert!(!dfa.is_match("Hallo"));
    assert!(!dfa.is_match("Hllo"));
    assert!(!dfa.is_match("xHello"));
}

#[test]
fn compiled_with_larger_budget_absorbs_more_trailing_characters() {
    let nfa = NondeterministicAutomaton::new("Hello", 3);
    let dfa = DeterministicAutomaton::new(&nfa).unwrap();
    assert!(dfa.is_match("Hello,,"));
    assert!(!dfa.is_match("Hello,,,"));
}

#[test]
fn compiled_with_budget_one_rejects_everything() {
    let nfa = NondeterministicAutomaton::new("Hello", 1);
    let dfa = DeterministicAutomaton::new(&nfa).unwrap();
    assert!(!dfa.is_match("Hello"));
    assert!(!dfa.is_match("Hello,"));
    assert!(!dfa.is_match(""));
}

#[test]
fn pattern_matches_itself_with_budget_two() {
    for pattern in ["a", "abc", "Hello", "ünïcödé"] {
        let nfa = NondeterministicAutomaton::new(pattern, 2);
        assert!(nfa.is_match(pattern), "{pattern}");
    }
}

#[test]
fn pattern_does_not_match_itself_with_budget_below_two() {
    assert!(!NondeterministicAutomaton::new("abc", 0).is_match("abc"));
    assert!(!NondeterministicAutomaton::new("abc", 1).is_match("abc"));
}

#[test]
fn simulated_single_edits_inside_the_pattern() {
    // An edit inside the pattern leaves the last pattern character to be
    // reached by a deletion that the budget must still cover.
    let nfa = NondeterministicAutomaton::new("Hello", 2);
    assert!(!nfa.is_match("Hallo"));
    assert!(!nfa.is_match("Hxello"));
    assert!(!nfa.is_match("Helo"));
    let wider = NondeterministicAutomaton::new("Hello", 3);
    assert!(wider.is_match("Hallo"));
    assert!(wider.is_match("Hxello"));
    assert!(wider.is_match("Helo"));
    let dfa = DeterministicAutomaton::new(&wider).unwrap();
    assert!(!dfa.is_match("Hallo"));
}

#[test]
fn repeated_queries_give_the_same_result() {
    let nfa = NondeterministicAutomaton::new("Hello", 2);
    let dfa = DeterministicAutomaton::new(&nfa).unwrap();
    for target in ["Hello", "Hello,,", "World"] {
        assert_eq!(nfa.is_match(target), nfa.is_match(target));
        assert_eq!(dfa.is_match(target), dfa.is_match(target));
    }
}

#[test]
fn empty_target_is_rejected() {
    assert!(!NondeterministicAutomaton::new("abc", 0).is_match(""));
    assert!(!NondeterministicAutomaton::new("abc", 5).is_match(""));
    assert!(!NondeterministicAutomaton::new("", 5).is_match(""));
    let dfa = DeterministicAutomaton::new(&NondeterministicAutomaton::new("abc", 2)).unwrap();
    assert!(!dfa.is_match(""));
}

#[test]
fn empty_pattern_accepts_within_budget() {
    let nfa = NondeterministicAutomaton::new("", 1);
    assert!(nfa.is_match("a"));
    assert!(!nfa.is_match("ab"));
    let wider = NondeterministicAutomaton::new("", 3);
    assert!(wider.is_match("abc"));
    assert!(!wider.is_match("abcd"));
    assert!(!NondeterministicAutomaton::new("", 0).is_match("a"));
}

#[test]
fn compiled_construction_with_budget_zero_fails() {
    let nfa = NondeterministicAutomaton::new("Hello", 0);
    assert!(matches!(DeterministicAutomaton::new(&nfa), Err(BuildError::ErrorsOverBudget)));
}

#[test]
fn compiled_construction_with_empty_pattern_fails() {
    let nfa = NondeterministicAutomaton::new("", 2);
    assert!(matches!(DeterministicAutomaton::new(&nfa), Err(BuildError::PatternIndexOutOfRange)));
    let none = NondeterministicAutomaton::new("", 0);
    assert!(matches!(DeterministicAutomaton::new(&none), Err(BuildError::PatternIndexOutOfRange)));
}

#[test]
fn compiled_construction_with_positive_budget_succeeds() {
    for budget in [1, 2, 7, u32::MAX] {
        let nfa = NondeterministicAutomaton::new("abc", budget);
        assert!(DeterministicAutomaton::new(&nfa).is_ok());
    }
}

#[test]
fn compiled_handles_multibyte_characters() {
    let nfa = NondeterministicAutomaton::new("ünï", 2);
    let dfa = DeterministicAutomaton::new(&nfa).unwrap();
    assert!(dfa.is_match("ünï"));
    assert!(dfa.is_match("ünïx"));
    assert!(!dfa.is_match("uni"));
}
