use cti_engine::models::{CveRecord, Group, Technique};
use cti_engine::parser::{GroupResult, InputData};
use cti_engine::utils::{target_countries, target_sectors};

fn tags(xs: &[&str]) -> Vec<String> {
    xs.iter().map(|s| s.to_string()).collect()
}

fn group(mid: &str, techniques: &[&str], sectors: &[&str], countries: &[&str]) -> Group {
    Group {
        mid: mid.to_string(),
        name: mid.to_string(),
        description: None,
        labels: vec![],
        techniques: tags(techniques),
        sectors: tags(sectors),
        countries: tags(countries),
    }
}

fn technique(mid: &str, labels: &[&str], tactics: &[&str], platforms: &[&str]) -> Technique {
    Technique {
        mid: mid.to_string(),
        name: mid.to_string(),
        description: None,
        labels: tags(labels),
        tactics: tags(tactics),
        platforms: tags(platforms),
    }
}

fn input(countries: &[&str], sectors: &[&str], os: &[&str], software: &[&str]) -> InputData {
    InputData {
        countries: tags(countries),
        sectors: tags(sectors),
        operating_systems: tags(os),
        software: tags(software),
    }
}

#[test]
fn ranking_puts_higher_counts_first() {
    let g1 = group("G1", &["T1", "T2"], &["finance"], &[]);
    let g2 = group("G2", &["T1"], &["finance"], &[]);
    let ts = vec![
        technique("T1", &[], &[], &[]),
        technique("T2", &[], &[], &[]),
    ];
    let inp = input(&[], &["finance"], &[], &[]);
    let matched = vec![g1, g2];
    let ranked = inp.techniques(&matched, &ts);
    assert_eq!(ranked.len(), 2);
    assert_eq!(ranked[0].technique.mid, "T1");
    assert_eq!(ranked[0].count, 2);
    assert_eq!(ranked[1].technique.mid, "T2");
    assert_eq!(ranked[1].count, 1);
}

#[test]
fn ranking_breaks_count_ties_by_identifier() {
    let g1 = group("G1", &["T9", "T2"], &[], &[]);
    let ts = vec![
        technique("T9", &[], &[], &[]),
        technique("T2", &[], &[], &[]),
    ];
    let inp = input(&[], &[], &[], &[]);
    let ranked = inp.techniques(&vec![g1], &ts);
    assert_eq!(ranked.len(), 2);
    assert_eq!(ranked[0].technique.mid, "T2");
    assert_eq!(ranked[1].technique.mid, "T9");
}

#[test]
fn ranking_skips_unresolvable_references() {
    let g1 = group("G1", &["T1", "GONE"], &[], &[]);
    let ts = vec![technique("T1", &[], &[], &[])];
    let inp = input(&[], &[], &[], &[]);
    let ranked = inp.techniques(&vec![g1], &ts);
    assert_eq!(ranked.len(), 1);
    assert_eq!(ranked[0].technique.mid, "T1");
}

#[test]
fn tactic_fan_out_duplicates_per_tactic() {
    let g1 = group("G1", &["T1"], &[], &[]);
    let ts = vec![technique("T1", &[], &["impact", "persistence"], &[])];
    let inp = input(&[], &[], &[], &[]);
    let ranked = inp.techniques(&vec![g1], &ts);
    let fan = inp.tactics(&ranked);
    assert_eq!(fan.len(), 2);
    let impact = fan.iter().find(|e| e.0 == "impact").unwrap();
    let persistence = fan.iter().find(|e| e.0 == "persistence").unwrap();
    assert_eq!(impact.1.len(), 1);
    assert_eq!(persistence.1.len(), 1);
    assert_eq!(impact.1[0].mid, "T1");
    assert_eq!(persistence.1[0].mid, "T1");
}

#[test]
fn group_matching_by_sector_and_country() {
    let g1 = group("G1", &[], &["finance"], &["italy"]);
    let g2 = group("G2", &[], &["energy"], &["france"]);
    let ts: Vec<Technique> = vec![];
    let inp = input(&["italy"], &["finance", "health"], &[], &[]);
    let res = inp.groups(&vec![g1, g2], &ts);
    assert_eq!(res.sectors.len(), 1);
    assert_eq!(res.sectors[0].0, "finance");
    assert_eq!(res.sectors[0].1.len(), 1);
    assert_eq!(res.sectors[0].1[0].mid, "G1");
    assert_eq!(res.countries.len(), 1);
    assert_eq!(res.countries[0].0, "italy");
    assert_eq!(res.keywords.len(), 0);
}

#[test]
fn keyword_match_needs_label_inside_software_name() {
    // the label must be a substring of the lower-cased software name,
    // not the other way round
    let g = group("G1", &["T1"], &[], &[]);
    let ts = vec![technique("T1", &["cms"], &[], &[])];
    let inp = input(&[], &[], &[], &["Wordpress"]);
    let res = inp.groups(&vec![g], &ts);
    assert_eq!(res.keywords.len(), 0);

    let g2 = group("G1", &["T1"], &[], &[]);
    let ts2 = vec![technique("T1", &["press"], &[], &[])];
    let res2 = inp.groups(&vec![g2], &ts2);
    assert_eq!(res2.keywords.len(), 1);
    assert_eq!(res2.keywords[0].0, "press");
    assert_eq!(res2.keywords[0].1[0].mid, "G1");
}

#[test]
fn matched_groups_are_united_without_duplicates() {
    let g1 = group("G1", &[], &["finance"], &["italy"]);
    let result = GroupResult {
        countries: vec![("italy".to_string(), vec![g1.clone()])],
        sectors: vec![("finance".to_string(), vec![g1.clone()])],
        keywords: vec![],
    };
    let union = result.groups();
    assert_eq!(union.len(), 1);
    assert_eq!(union[0].mid, "G1");
}

#[test]
fn cve_correlation_is_case_insensitive_substring() {
    let cves = vec![
        CveRecord { id: "CVE-1".to_string(), description: "WordPress plugin flaw".to_string() },
        CveRecord { id: "CVE-2".to_string(), description: "kernel bug".to_string() },
    ];
    let inp = input(&[], &[], &[], &["wordpress"]);
    let m = inp.cves(&cves);
    assert_eq!(m.len(), 1);
    assert_eq!(m[0].0, "wordpress");
    assert_eq!(m[0].1.len(), 1);
    assert_eq!(m[0].1[0].id, "CVE-1");
}

#[test]
fn platform_matching_is_case_insensitive() {
    let ts = vec![
        technique("T1", &[], &[], &["windows"]),
        technique("T2", &[], &[], &["macos"]),
    ];
    let inp = input(&[], &[], &["Windows"], &[]);
    let on = inp.platform_techniques(&ts);
    assert_eq!(on.len(), 1);
    assert_eq!(on[0].mid, "T1");
}

#[test]
fn analyze_assembles_the_report() {
    let g1 = group("G1", &["T1", "T2"], &["finance"], &["italy"]);
    let g2 = group("G2", &["T1"], &[], &["italy"]);
    let ts = vec![
        technique("T1", &[], &["impact"], &[]),
        technique("T2", &[], &["impact", "persistence"], &[]),
    ];
    let cves = vec![CveRecord {
        id: "CVE-1".to_string(),
        description: "nginx overflow".to_string(),
    }];
    let inp = input(&["italy"], &["finance"], &[], &["nginx"]);
    let report = inp.analyze(&vec![g1, g2], &ts, &cves);
    assert_eq!(report.groups.countries.len(), 1);
    assert_eq!(report.groups.countries[0].1.len(), 2);
    assert_eq!(report.groups.sectors.len(), 1);
    assert_eq!(report.techniques.len(), 2);
    assert_eq!(report.techniques[0].technique.mid, "T1");
    assert_eq!(report.techniques[0].count, 2);
    assert_eq!(report.tactics.len(), 2);
    assert_eq!(report.cves.len(), 1);
    assert_eq!(report.procedures.len(), 0);
    assert_eq!(report.mitigations.len(), 0);
}

#[test]
fn catalog_lists_are_sorted_and_distinct() {
    let gs = vec![
        group("G1", &[], &["finance", "energy"], &["italy", "germany"]),
        group("G2", &[], &["finance"], &["france", "italy"]),
    ];
    assert_eq!(target_countries(&gs), tags(&["france", "germany", "italy"]));
    assert_eq!(target_sectors(&gs), tags(&["energy", "finance"]));
}

#[test]
fn checked_analyze_runs_within_the_counter_bound() {
    let g1 = group("G1", &["T1"], &["finance"], &[]);
    let ts = vec![technique("T1", &[], &["impact"], &[])];
    let inp = input(&[], &["finance"], &[], &[]);
    let report = inp.checked_analyze(&vec![g1], &ts, &vec![]).unwrap();
    assert_eq!(report.techniques.len(), 1);
    assert_eq!(report.techniques[0].count, 1);
}
