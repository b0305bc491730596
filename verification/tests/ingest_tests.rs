use cti_engine::ingest::{group_matches_actor_row, link_technique_refs};
use cti_engine::models::{GroupTech, Tactic, Technique, TechniqueMitreVec};

fn tags(xs: &[&str]) -> Vec<String> {
    xs.iter().map(|s| s.to_string()).collect()
}

fn technique(mid: &str, tactics: &[&str]) -> Technique {
    Technique {
        mid: mid.to_string(),
        name: mid.to_string(),
        description: None,
        labels: vec![],
        tactics: tags(tactics),
        platforms: vec![],
    }
}

fn tactic(mid: &str, shortname: &str) -> Tactic {
    Tactic {
        mid: mid.to_string(),
        name: mid.to_string(),
        shortname: shortname.to_string(),
        technique_refs: vec![],
        description: None,
    }
}

#[test]
fn known_mids_skips_unresolvable_references() {
    let file = TechniqueMitreVec {
        techniques: vec![
            GroupTech { mid: "T1".to_string(), comment: None },
            GroupTech { mid: "GONE".to_string(), comment: Some("stale".to_string()) },
            GroupTech { mid: "T2".to_string(), comment: None },
        ],
    };
    let snapshot = vec![technique("T1", &[]), technique("T2", &[])];
    assert_eq!(file.known_mids(&snapshot), tags(&["T1", "T2"]));
}

#[test]
fn linking_fills_technique_refs_by_shortname() {
    let tactics = vec![tactic("TA1", "impact"), tactic("TA2", "persistence")];
    let techniques = vec![
        technique("T1", &["impact"]),
        technique("T2", &["impact", "persistence"]),
        technique("T3", &["discovery"]),
    ];
    let linked = link_technique_refs(&tactics, &techniques);
    assert_eq!(linked.len(), 2);
    assert_eq!(linked[0].technique_refs, tags(&["T1", "T2"]));
    assert_eq!(linked[1].technique_refs, tags(&["T2"]));
}

#[test]
fn linking_feeds_only_the_first_tactic_of_a_shortname() {
    let tactics = vec![tactic("TA1", "impact"), tactic("TA9", "impact")];
    let techniques = vec![technique("T1", &["impact"])];
    let linked = link_technique_refs(&tactics, &techniques);
    assert_eq!(linked[0].technique_refs, tags(&["T1"]));
    assert_eq!(linked[1].technique_refs.len(), 0);
}

#[test]
fn actor_rows_match_by_name_or_alias() {
    let aliases = tags(&["Fancy Bear", "APT28"]);
    assert!(group_matches_actor_row("Sofacy", "Sofacy", &aliases));
    assert!(group_matches_actor_row("APT28", "Sofacy", &aliases));
    assert!(!group_matches_actor_row("Lazarus", "Sofacy", &aliases));
}
