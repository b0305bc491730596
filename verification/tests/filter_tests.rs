use cti_engine::filter::{compile, Conjunction, FilterExpression, FilterTerm};

fn tags(xs: &[&str]) -> Vec<String> {
    xs.iter().map(|s| s.to_string()).collect()
}

#[test]
fn compile_same_string_twice_is_equal() {
    let a = compile("windows+!linux,aws");
    let b = compile("windows+!linux,aws");
    assert_eq!(a, b);
}

#[test]
fn compile_structure() {
    let e = compile("windows+!linux,aws");
    assert_eq!(
        e,
        FilterExpression {
            conjs: vec![
                Conjunction {
                    terms: vec![
                        FilterTerm { tag: "windows".to_string(), negated: false },
                        FilterTerm { tag: "linux".to_string(), negated: true },
                    ],
                },
                Conjunction { terms: vec![FilterTerm { tag: "aws".to_string(), negated: false }] },
            ],
        }
    );
}

#[test]
fn negated_term_matches_iff_absent() {
    let e = compile("!x");
    assert!(!e.matches(&tags(&["x", "y"])));
    assert!(e.matches(&tags(&["y"])));
    assert!(e.matches(&tags(&[])));
}

#[test]
fn conjunction_needs_both_tags() {
    let e = compile("a+b");
    assert!(e.matches(&tags(&["a", "b", "c"])));
    assert!(!e.matches(&tags(&["a"])));
    assert!(!e.matches(&tags(&["b"])));
    assert!(!e.matches(&tags(&[])));
}

#[test]
fn comma_is_disjunction() {
    let e = compile("a,b");
    assert!(e.matches(&tags(&["b"])));
    assert!(e.matches(&tags(&["a"])));
    assert!(!e.matches(&tags(&[])));
}

#[test]
fn empty_filter_matches_everything() {
    let e = compile("");
    assert_eq!(e.conjs.len(), 0);
    assert!(e.matches(&tags(&[])));
    assert!(e.matches(&tags(&["anything"])));
}

#[test]
fn label_filter_scenario() {
    let e = compile("windows+!linux,aws");
    assert!(e.matches(&tags(&["windows"])));
    assert!(!e.matches(&tags(&["windows", "linux"])));
    assert!(e.matches(&tags(&["aws"])));
}

#[test]
fn terms_are_case_folded() {
    let e = compile("WINDOWS");
    assert_eq!(e.conjs[0].terms[0].tag, "windows");
    assert!(e.matches(&tags(&["windows"])));
    assert!(!e.matches(&tags(&["WINDOWS"])));
}

#[test]
fn space_separates_terms_and_blanks_are_trimmed() {
    let e = compile(" a b ");
    assert_eq!(e.conjs.len(), 1);
    assert_eq!(e.conjs[0].terms.len(), 2);
    assert_eq!(e.conjs[0].terms[0].tag, "a");
    assert_eq!(e.conjs[0].terms[1].tag, "b");
}

#[test]
fn empty_segments_are_discarded() {
    let e = compile(",a,,b,");
    assert_eq!(e.conjs.len(), 2);
    assert!(e.matches(&tags(&["b"])));
    assert!(!e.matches(&tags(&["c"])));
}

#[test]
fn empty_terms_are_discarded_without_killing_the_conjunction() {
    let e = compile("a++b");
    assert_eq!(e.conjs.len(), 1);
    assert_eq!(e.conjs[0].terms.len(), 2);
}

#[test]
fn bare_negation_is_discarded() {
    let e = compile("!");
    assert_eq!(e.conjs.len(), 1);
    assert_eq!(e.conjs[0].terms.len(), 0);
    // a conjunction without terms constrains nothing
    assert!(e.matches(&tags(&[])));
}

#[test]
fn whitespace_only_input_yields_unconstrained_conjunctions() {
    let e = compile("   ");
    assert_eq!(e.conjs.len(), 1);
    assert_eq!(e.conjs[0].terms.len(), 0);
    assert!(e.matches(&tags(&["anything"])));
}
