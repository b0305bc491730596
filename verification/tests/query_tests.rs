use cti_engine::query::{
    logic_filter, AndClause, CveQuery, GroupQuery, OrClause, QueryClause, QueryDoc, TacticQuery,
    TagCondition, TechniqueQuery,
};
use cti_engine::score::{CmpOp, ScoreValue};

fn cond(field: &str, tag: &str, negated: bool) -> TagCondition {
    TagCondition { field: field.to_string(), tag: tag.to_string(), negated }
}

#[test]
fn logic_filter_builds_or_of_ands() {
    let r = logic_filter("windows+!linux,aws", "labels");
    assert_eq!(
        r,
        vec![OrClause {
            alternatives: vec![
                AndClause {
                    conditions: vec![
                        cond("labels", "windows", false),
                        cond("labels", "linux", true),
                    ],
                },
                AndClause { conditions: vec![cond("labels", "aws", false)] },
            ],
        }]
    );
}

#[test]
fn logic_filter_of_empty_input_is_empty() {
    assert_eq!(logic_filter("", "labels"), vec![]);
    assert_eq!(logic_filter(",,", "techniques"), vec![]);
}

#[test]
fn score_filter_greater_than() {
    let q = CveQuery {
        id: None,
        keywords: None,
        base_score: Some(">7.5".to_string()),
    };
    let doc = q.to_doc();
    assert_eq!(doc.clauses.len(), 1);
    match &doc.clauses[0] {
        QueryClause::Score { field, op, value } => {
            assert_eq!(field, "impact.baseMetricV3.cvssV3.baseScore");
            assert_eq!(*op, CmpOp::Gt);
            assert_eq!(*value, ScoreValue { mantissa: 75, scale: 1 });
        },
        other => panic!("unexpected clause: {:?}", other),
    }
}

#[test]
fn score_filter_lenient_fallback() {
    let q = CveQuery {
        id: None,
        keywords: None,
        base_score: Some("abc".to_string()),
    };
    let doc = q.to_doc();
    match &doc.clauses[0] {
        QueryClause::Score { op, value, .. } => {
            assert_eq!(*op, CmpOp::Eq);
            assert_eq!(*value, ScoreValue { mantissa: 0, scale: 0 });
        },
        other => panic!("unexpected clause: {:?}", other),
    }
}

#[test]
fn score_filter_less_than_and_plain() {
    let less = CveQuery { id: None, keywords: None, base_score: Some("<3".to_string()) }.to_doc();
    match &less.clauses[0] {
        QueryClause::Score { op, value, .. } => {
            assert_eq!(*op, CmpOp::Lt);
            assert_eq!(*value, ScoreValue { mantissa: 3, scale: 0 });
        },
        other => panic!("unexpected clause: {:?}", other),
    }
    let plain = CveQuery { id: None, keywords: None, base_score: Some("4.25".to_string()) }.to_doc();
    match &plain.clauses[0] {
        QueryClause::Score { op, value, .. } => {
            assert_eq!(*op, CmpOp::Eq);
            assert_eq!(*value, ScoreValue { mantissa: 425, scale: 2 });
        },
        other => panic!("unexpected clause: {:?}", other),
    }
}

#[test]
fn cve_query_text_fields() {
    let q = CveQuery {
        id: Some("CVE-2021".to_string()),
        keywords: Some("wordpress".to_string()),
        base_score: None,
    };
    let doc = q.to_doc();
    assert_eq!(
        doc,
        QueryDoc {
            clauses: vec![
                QueryClause::Regex { field: "id".to_string(), pattern: "CVE-2021".to_string() },
                QueryClause::Regex {
                    field: "cve.description.description_data.value".to_string(),
                    pattern: "wordpress".to_string(),
                },
            ],
        }
    );
}

#[test]
fn group_query_combines_constraints() {
    let q = GroupQuery {
        mid: None,
        desc: Some("apt".to_string()),
        techs: None,
        labels: Some("windows+!linux,aws".to_string()),
        sectors: None,
        countries: None,
    };
    let doc = q.to_doc();
    assert_eq!(doc.clauses.len(), 2);
    assert!(matches!(&doc.clauses[0], QueryClause::Regex { field, pattern }
        if field == "description" && pattern == "apt"));
    match &doc.clauses[1] {
        QueryClause::TagFilter { filter } => {
            assert_eq!(filter.alternatives.len(), 2);
            assert_eq!(filter.alternatives[0].conditions[0], cond("labels", "windows", false));
            assert_eq!(filter.alternatives[0].conditions[1], cond("labels", "linux", true));
            assert_eq!(filter.alternatives[1].conditions[0], cond("labels", "aws", false));
        },
        other => panic!("unexpected clause: {:?}", other),
    }
}

#[test]
fn technique_query_splits_platforms_and_folds_description() {
    let q = TechniqueQuery {
        mid: Some("T1003".to_string()),
        desc: Some("Credential Dumping".to_string()),
        platforms: Some("Windows,Linux".to_string()),
        labels: None,
        tactics: None,
    };
    let doc = q.to_doc();
    assert_eq!(doc.clauses.len(), 3);
    assert!(matches!(&doc.clauses[0], QueryClause::Regex { field, pattern }
        if field == "description" && pattern == "credential dumping"));
    assert!(matches!(&doc.clauses[1], QueryClause::Regex { field, pattern }
        if field == "mid" && pattern == "T1003"));
    match &doc.clauses[2] {
        QueryClause::AnyOf { field, values } => {
            assert_eq!(field, "platforms");
            assert_eq!(values, &vec!["Windows".to_string(), "Linux".to_string()]);
        },
        other => panic!("unexpected clause: {:?}", other),
    }
}

#[test]
fn tactic_query_translates_technique_refs() {
    let q = TacticQuery { mid: None, techs: Some("T1003+!T1004,T1005".to_string()) };
    let doc = q.to_doc();
    assert_eq!(doc.clauses.len(), 1);
    match &doc.clauses[0] {
        QueryClause::TagFilter { filter } => {
            assert_eq!(filter.alternatives.len(), 2);
            assert_eq!(
                filter.alternatives[0].conditions[0],
                cond("technique_refs", "t1003", false)
            );
            assert_eq!(filter.alternatives[0].conditions[1], cond("technique_refs", "t1004", true));
            assert_eq!(filter.alternatives[1].conditions[0], cond("technique_refs", "t1005", false));
        },
        other => panic!("unexpected clause: {:?}", other),
    }
}

#[test]
fn default_queries_have_no_constraints() {
    assert_eq!(CveQuery::default().to_doc().clauses.len(), 0);
    assert_eq!(GroupQuery::default().to_doc().clauses.len(), 0);
    assert_eq!(TechniqueQuery::default().to_doc().clauses.len(), 0);
}

#[test]
fn degenerate_tag_filter_constrains_nothing() {
    let q = GroupQuery {
        mid: None,
        desc: None,
        techs: Some("".to_string()),
        labels: None,
        sectors: None,
        countries: None,
    };
    let doc = q.to_doc();
    assert_eq!(doc.clauses.len(), 1);
    match &doc.clauses[0] {
        QueryClause::TagFilter { filter } => assert_eq!(filter.alternatives.len(), 0),
        other => panic!("unexpected clause: {:?}", other),
    }
}

#[test]
fn score_filter_requires_digits_around_the_dot() {
    let half = CveQuery { id: None, keywords: None, base_score: Some("7.".to_string()) }.to_doc();
    match &half.clauses[0] {
        QueryClause::Score { value, .. } => {
            assert_eq!(*value, ScoreValue { mantissa: 0, scale: 0 });
        },
        other => panic!("unexpected clause: {:?}", other),
    }
    let lead = CveQuery { id: None, keywords: None, base_score: Some(".5".to_string()) }.to_doc();
    match &lead.clauses[0] {
        QueryClause::Score { value, .. } => {
            assert_eq!(*value, ScoreValue { mantissa: 0, scale: 0 });
        },
        other => panic!("unexpected clause: {:?}", other),
    }
}
