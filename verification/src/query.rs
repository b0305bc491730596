//! Translation of query parameters into store query documents.
//!
//! The store expects boolean query composition: a tag filter becomes an OR
//! of AND-clauses of per-field membership tests, and the other declared
//! constraints (substring match, list membership, numeric comparison) are
//! combined with it.  The documents built here are a plain, store-agnostic
//! form of that composition; an adapter encodes them for a concrete store.

use vstd::prelude::*;

use crate::filter::{compile, compile_spec, split_chars, split_spec, FilterExpression, TermView};
use crate::score::{parse_score_filter, score_op_spec, score_value_spec, CmpOp, ScoreValue};
use crate::text::{from_chars, to_chars};

verus! {

/// One membership test of a tag filter: the entity field must hold the tag
/// (or must not, when `negated`).
#[derive(Debug, Clone, PartialEq, Eq)]
pub struct TagCondition {
    pub field: String,
    pub tag: String,
    pub negated: bool,
}

/// Mathematical model of a [`TagCondition`].
pub struct CondView {
    pub field: Seq<char>,
    pub tag: Seq<char>,
    pub negated: bool,
}

impl View for TagCondition {
    type V = CondView;

    open spec fn view(&self) -> CondView {
        CondView { field: self.field@, tag: self.tag@, negated: self.negated }
    }
}

impl DeepView for TagCondition {
    type V = CondView;

    open spec fn deep_view(&self) -> CondView {
        self@
    }
}

/// An AND of membership tests: every condition must hold.
#[derive(Debug, Clone, PartialEq, Eq)]
pub struct AndClause {
    pub conditions: Vec<TagCondition>,
}

impl View for AndClause {
    type V = Seq<CondView>;

    open spec fn view(&self) -> Seq<CondView> {
        self.conditions.deep_view()
    }
}

impl DeepView for AndClause {
    type V = Seq<CondView>;

    open spec fn deep_view(&self) -> Seq<CondView> {
        self@
    }
}

/// An OR of AND-clauses: the store form of a compiled filter expression.
#[derive(Debug, Clone, PartialEq, Eq)]
pub struct OrClause {
    pub alternatives: Vec<AndClause>,
}

impl View for OrClause {
    type V = Seq<Seq<CondView>>;

    open spec fn view(&self) -> Seq<Seq<CondView>> {
        self.alternatives.deep_view()
    }
}

impl DeepView for OrClause {
    type V = Seq<Seq<CondView>>;

    open spec fn deep_view(&self) -> Seq<Seq<CondView>> {
        self@
    }
}

/// The store form of a compiled expression: each term becomes a membership
/// test on `key`.
pub open spec fn attach_key(e: Seq<Seq<TermView>>, key: Seq<char>) -> Seq<Seq<CondView>> {
    e.map(
        |i: int, c: Seq<TermView>|
            c.map(
                |j: int, t: TermView| CondView { field: key, tag: t.tag, negated: t.negated },
            ),
    )
}

/// Compiles a filter string and translates it for the store: one OR-clause
/// over the conjunctions, each term a membership test on `key`.  An
/// expression with no conjunction yields no clause at all (no constraint).
pub fn logic_filter(expressions: &str, key: &str) -> (r: Vec<OrClause>)
    ensures
        compile_spec(expressions@).len() == 0 ==> r@.len() == 0,
        compile_spec(expressions@).len() > 0 ==> r@.len() == 1 && r@[0]@ == attach_key(
            compile_spec(expressions@),
            key@,
        ),
{
    let expr = compile(expressions);
    let or = expression_clauses(&expr, key);
    let mut r: Vec<OrClause> = Vec::new();
    if expr.conjs.len() > 0 {
        r.push(or);
    }
    r
}

/// The OR-clause a compiled expression translates to, each term a
/// membership test on `key`.
pub fn expression_clauses(expr: &FilterExpression, key: &str) -> (r: OrClause)
    ensures
        r@ == attach_key(expr@, key@),
{
    let ghost e = expr@;
    let mut alternatives: Vec<AndClause> = Vec::new();
    let mut i: usize = 0;
    while i < expr.conjs.len()
        invariant
            i <= expr.conjs@.len(),
            e == expr@,
            alternatives.deep_view() =~= attach_key(e, key@).take(i as int),
        decreases expr.conjs@.len() - i,
    {
        let conj = &expr.conjs[i];
        let mut conditions: Vec<TagCondition> = Vec::new();
        let mut j: usize = 0;
        while j < conj.terms.len()
            invariant
                j <= conj.terms@.len(),
                conj@ == e[i as int],
                i < e.len(),
                e == expr@,
                conditions.deep_view() =~= attach_key(e, key@)[i as int].take(j as int),
            decreases conj.terms@.len() - j,
        {
            let t = &conj.terms[j];
            let ghost old_conds = conditions.deep_view();
            let cond = TagCondition { field: key.to_owned(), tag: t.tag.clone(), negated: t.negated };
            let ghost cv = cond@;
            conditions.push(cond);
            proof {
                assert(conditions.deep_view() =~= old_conds.push(cv));
                assert(cv == attach_key(e, key@)[i as int][j as int]);
                assert(conditions.deep_view() =~= attach_key(e, key@)[i as int].take(j + 1 as int));
            }
            j += 1;
        }
        let ghost old_alts = alternatives.deep_view();
        let clause = AndClause { conditions };
        let ghost clv = clause@;
        alternatives.push(clause);
        proof {
            assert(clv =~= attach_key(e, key@)[i as int]);
            assert(alternatives.deep_view() =~= old_alts.push(clv));
            assert(alternatives.deep_view() =~= attach_key(e, key@).take(i + 1 as int));
        }
        i += 1;
    }
    proof {
        assert(attach_key(e, key@).take(e.len() as int) =~= attach_key(e, key@));
    }
    OrClause { alternatives }
}

/// One constraint of a store query document.
#[derive(Debug, Clone, PartialEq, Eq)]
pub enum QueryClause {
    /// The text field must contain the pattern, case-insensitively.
    Regex { field: String, pattern: String },
    /// The compiled tag filter, as an OR of AND-clauses.
    TagFilter { filter: OrClause },
    /// The field must hold at least one of the values.
    AnyOf { field: String, values: Vec<String> },
    /// The numeric field must compare against the value under `op`.
    Score { field: String, op: CmpOp, value: ScoreValue },
}

/// Mathematical model of a [`QueryClause`].
pub enum ClauseView {
    Regex { field: Seq<char>, pattern: Seq<char> },
    TagFilter { filter: Seq<Seq<CondView>> },
    AnyOf { field: Seq<char>, values: Seq<Seq<char>> },
    Score { field: Seq<char>, op: CmpOp, value: ScoreValue },
}

impl View for QueryClause {
    type V = ClauseView;

    open spec fn view(&self) -> ClauseView {
        match self {
            QueryClause::Regex { field, pattern } => ClauseView::Regex {
                field: field@,
                pattern: pattern@,
            },
            QueryClause::TagFilter { filter } => ClauseView::TagFilter { filter: filter@ },
            QueryClause::AnyOf { field, values } => ClauseView::AnyOf {
                field: field@,
                values: values.deep_view(),
            },
            QueryClause::Score { field, op, value } => ClauseView::Score {
                field: field@,
                op: *op,
                value: *value,
            },
        }
    }
}

impl DeepView for QueryClause {
    type V = ClauseView;

    open spec fn deep_view(&self) -> ClauseView {
        self@
    }
}

/// A store query document: the conjunction of its clauses.
#[derive(Debug, Clone, PartialEq, Eq)]
pub struct QueryDoc {
    pub clauses: Vec<QueryClause>,
}

impl View for QueryDoc {
    type V = Seq<ClauseView>;

    open spec fn view(&self) -> Seq<ClauseView> {
        self.clauses.deep_view()
    }
}

/// Query parameters for CVE records.
#[derive(Debug, Clone, PartialEq, Eq)]
pub struct CveQuery {
    pub id: Option<String>,
    pub keywords: Option<String>,
    pub base_score: Option<String>,
}

impl Default for CveQuery {
    fn default() -> (r: Self)
        ensures
            r.id is None && r.keywords is None && r.base_score is None,
    {
        CveQuery { id: None, keywords: None, base_score: None }
    }
}

/// The query document a [`CveQuery`] translates to: a case-insensitive
/// substring constraint per text field, and a numeric comparison for the
/// base score, in declaration order.
pub open spec fn cve_doc_spec(
    id: Option<Seq<char>>,
    keywords: Option<Seq<char>>,
    base_score: Option<Seq<char>>,
) -> Seq<ClauseView> {
    let s0 = Seq::<ClauseView>::empty();
    let s1 = match id {
        Some(v) => s0.push(ClauseView::Regex { field: "id"@, pattern: v }),
        None => s0,
    };
    let s2 = match keywords {
        Some(v) => s1.push(
            ClauseView::Regex { field: "cve.description.description_data.value"@, pattern: v },
        ),
        None => s1,
    };
    match base_score {
        Some(v) => s2.push(
            ClauseView::Score {
                field: "impact.baseMetricV3.cvssV3.baseScore"@,
                op: score_op_spec(v),
                value: score_value_spec(v),
            },
        ),
        None => s2,
    }
}

impl CveQuery {
    /// Translates the query parameters into a store query document.
    pub fn to_doc(&self) -> (r: QueryDoc)
        ensures
            r@ == cve_doc_spec(
                self.id.deep_view(),
                self.keywords.deep_view(),
                self.base_score.deep_view(),
            ),
    {
        let mut clauses: Vec<QueryClause> = Vec::new();
        if let Some(v) = &self.id {
            clauses.push(QueryClause::Regex { field: "id".to_owned(), pattern: v.clone() });
        }
        if let Some(v) = &self.keywords {
            clauses.push(
                QueryClause::Regex {
                    field: "cve.description.description_data.value".to_owned(),
                    pattern: v.clone(),
                },
            );
        }
        if let Some(v) = &self.base_score {
            let (op, value) = parse_score_filter(v.as_str());
            clauses.push(
                QueryClause::Score {
                    field: "impact.baseMetricV3.cvssV3.baseScore".to_owned(),
                    op,
                    value,
                },
            );
        }
        let r = QueryDoc { clauses };
        proof {
            assert(r@ =~= cve_doc_spec(
                self.id.deep_view(),
                self.keywords.deep_view(),
                self.base_score.deep_view(),
            ));
        }
        r
    }
}

/// Query parameters for threat-actor groups.
#[derive(Debug, Clone, PartialEq, Eq)]
pub struct GroupQuery {
    pub mid: Option<String>,
    pub desc: Option<String>,
    pub techs: Option<String>,
    pub labels: Option<String>,
    pub sectors: Option<String>,
    pub countries: Option<String>,
}

impl Default for GroupQuery {
    fn default() -> (r: Self)
        ensures
            r.mid is None && r.desc is None && r.techs is None && r.labels is None && r.sectors
                is None && r.countries is None,
    {
        GroupQuery {
            mid: None,
            desc: None,
            techs: None,
            labels: None,
            sectors: None,
            countries: None,
        }
    }
}

/// The query document a [`GroupQuery`] translates to: substring constraints
/// on description and identifier, then one compiled tag filter per
/// tag-bearing field, in declaration order.
pub open spec fn group_doc_spec(
    mid: Option<Seq<char>>,
    desc: Option<Seq<char>>,
    techs: Option<Seq<char>>,
    labels: Option<Seq<char>>,
    sectors: Option<Seq<char>>,
    countries: Option<Seq<char>>,
) -> Seq<ClauseView> {
    let s0 = Seq::<ClauseView>::empty();
    let s1 = match desc {
        Some(v) => s0.push(ClauseView::Regex { field: "description"@, pattern: v }),
        None => s0,
    };
    let s2 = match mid {
        Some(v) => s1.push(ClauseView::Regex { field: "mid"@, pattern: v }),
        None => s1,
    };
    let s3 = match techs {
        Some(v) => s2.push(
            ClauseView::TagFilter { filter: attach_key(compile_spec(v), "techniques"@) },
        ),
        None => s2,
    };
    let s4 = match labels {
        Some(v) => s3.push(ClauseView::TagFilter { filter: attach_key(compile_spec(v), "labels"@) }),
        None => s3,
    };
    let s5 = match sectors {
        Some(v) => s4.push(
            ClauseView::TagFilter { filter: attach_key(compile_spec(v), "sectors"@) },
        ),
        None => s4,
    };
    match countries {
        Some(v) => s5.push(
            ClauseView::TagFilter { filter: attach_key(compile_spec(v), "countries"@) },
        ),
        None => s5,
    }
}

impl GroupQuery {
    /// Translates the query parameters into a store query document.
    pub fn to_doc(&self) -> (r: QueryDoc)
        ensures
            r@ == group_doc_spec(
                self.mid.deep_view(),
                self.desc.deep_view(),
                self.techs.deep_view(),
                self.labels.deep_view(),
                self.sectors.deep_view(),
                self.countries.deep_view(),
            ),
    {
        let mut clauses: Vec<QueryClause> = Vec::new();
        if let Some(v) = &self.desc {
            clauses.push(
                QueryClause::Regex { field: "description".to_owned(), pattern: v.clone() },
            );
        }
        if let Some(v) = &self.mid {
            clauses.push(QueryClause::Regex { field: "mid".to_owned(), pattern: v.clone() });
        }
        if let Some(v) = &self.techs {
            let expr = compile(v.as_str());
            clauses.push(QueryClause::TagFilter { filter: expression_clauses(&expr, "techniques") });
        }
        if let Some(v) = &self.labels {
            let expr = compile(v.as_str());
            clauses.push(QueryClause::TagFilter { filter: expression_clauses(&expr, "labels") });
        }
        if let Some(v) = &self.sectors {
            let expr = compile(v.as_str());
            clauses.push(QueryClause::TagFilter { filter: expression_clauses(&expr, "sectors") });
        }
        if let Some(v) = &self.countries {
            let expr = compile(v.as_str());
            clauses.push(QueryClause::TagFilter { filter: expression_clauses(&expr, "countries") });
        }
        let r = QueryDoc { clauses };
        proof {
            assert(r@ =~= group_doc_spec(
                self.mid.deep_view(),
                self.desc.deep_view(),
                self.techs.deep_view(),
                self.labels.deep_view(),
                self.sectors.deep_view(),
                self.countries.deep_view(),
            ));
        }
        r
    }
}

/// Query parameters for tactics.
#[derive(Debug, Clone, PartialEq, Eq)]
pub struct TacticQuery {
    pub mid: Option<String>,
    pub techs: Option<String>,
}

/// The query document a [`TacticQuery`] translates to.
pub open spec fn tactic_doc_spec(mid: Option<Seq<char>>, techs: Option<Seq<char>>) -> Seq<
    ClauseView,
> {
    let s0 = Seq::<ClauseView>::empty();
    let s1 = match mid {
        Some(v) => s0.push(ClauseView::Regex { field: "mid"@, pattern: v }),
        None => s0,
    };
    match techs {
        Some(v) => s1.push(
            ClauseView::TagFilter { filter: attach_key(compile_spec(v), "technique_refs"@) },
        ),
        None => s1,
    }
}

impl TacticQuery {
    /// Translates the query parameters into a store query document.
    pub fn to_doc(&self) -> (r: QueryDoc)
        ensures
            r@ == tactic_doc_spec(self.mid.deep_view(), self.techs.deep_view()),
    {
        let mut clauses: Vec<QueryClause> = Vec::new();
        if let Some(v) = &self.mid {
            clauses.push(QueryClause::Regex { field: "mid".to_owned(), pattern: v.clone() });
        }
        if let Some(v) = &self.techs {
            let expr = compile(v.as_str());
            clauses.push(
                QueryClause::TagFilter { filter: expression_clauses(&expr, "technique_refs") },
            );
        }
        let r = QueryDoc { clauses };
        proof {
            assert(r@ =~= tactic_doc_spec(self.mid.deep_view(), self.techs.deep_view()));
        }
        r
    }
}

/// Query parameters for techniques.
#[derive(Debug, Clone, PartialEq, Eq)]
pub struct TechniqueQuery {
    pub mid: Option<String>,
    pub desc: Option<String>,
    pub platforms: Option<String>,
    pub labels: Option<String>,
    pub tactics: Option<String>,
}

impl Default for TechniqueQuery {
    fn default() -> (r: Self)
        ensures
            r.mid is None && r.desc is None && r.platforms is None && r.labels is None && r.tactics
                is None,
    {
        TechniqueQuery { mid: None, desc: None, platforms: None, labels: None, tactics: None }
    }
}

/// The query document a [`TechniqueQuery`] translates to: the description
/// pattern is case-folded, the platform list is split at commas into a
/// membership alternative, and labels and tactics become tag filters, in
/// declaration order.
pub open spec fn technique_doc_spec(
    mid: Option<Seq<char>>,
    desc: Option<Seq<char>>,
    platforms: Option<Seq<char>>,
    labels: Option<Seq<char>>,
    tactics: Option<Seq<char>>,
) -> Seq<ClauseView> {
    let s0 = Seq::<ClauseView>::empty();
    let s1 = match desc {
        Some(v) => s0.push(
            ClauseView::Regex { field: "description"@, pattern: crate::text::lower_of(v) },
        ),
        None => s0,
    };
    let s2 = match mid {
        Some(v) => s1.push(ClauseView::Regex { field: "mid"@, pattern: v }),
        None => s1,
    };
    let s3 = match platforms {
        Some(v) => s2.push(ClauseView::AnyOf { field: "platforms"@, values: split_spec(v, true) }),
        None => s2,
    };
    let s4 = match labels {
        Some(v) => s3.push(ClauseView::TagFilter { filter: attach_key(compile_spec(v), "labels"@) }),
        None => s3,
    };
    match tactics {
        Some(v) => s4.push(
            ClauseView::TagFilter { filter: attach_key(compile_spec(v), "tactics"@) },
        ),
        None => s4,
    }
}

/// Splits a comma-separated list into its pieces, kept verbatim.
fn split_list(s: &str) -> (r: Vec<String>)
    ensures
        r.deep_view() == split_spec(s@, true),
{
    let chars = to_chars(s);
    let pieces = split_chars(&chars, true);
    let ghost pv = pieces.deep_view();
    let mut r: Vec<String> = Vec::new();
    let mut i: usize = 0;
    while i < pieces.len()
        invariant
            i <= pieces@.len(),
            pv == pieces.deep_view(),
            pv == split_spec(s@, true),
            r.deep_view() =~= pv.take(i as int),
        decreases pieces@.len() - i,
    {
        proof {
            assert(pieces@[i as int]@ =~= pv[i as int]);
        }
        let piece = from_chars(pieces[i].as_slice());
        let ghost piece_v = piece@;
        r.push(piece);
        proof {
            assert(r.deep_view() =~= pv.take(i as int).push(piece_v));
            assert(pv.take(i + 1 as int) =~= pv.take(i as int).push(pv[i as int]));
        }
        i += 1;
    }
    proof {
        assert(pv.take(pv.len() as int) =~= pv);
    }
    r
}

impl TechniqueQuery {
    /// Translates the query parameters into a store query document.
    pub fn to_doc(&self) -> (r: QueryDoc)
        ensures
            r@ == technique_doc_spec(
                self.mid.deep_view(),
                self.desc.deep_view(),
                self.platforms.deep_view(),
                self.labels.deep_view(),
                self.tactics.deep_view(),
            ),
    {
        let mut clauses: Vec<QueryClause> = Vec::new();
        if let Some(v) = &self.desc {
            clauses.push(
                QueryClause::Regex {
                    field: "description".to_owned(),
                    pattern: crate::text::to_lower(v.as_str()),
                },
            );
        }
        if let Some(v) = &self.mid {
            clauses.push(QueryClause::Regex { field: "mid".to_owned(), pattern: v.clone() });
        }
        if let Some(v) = &self.platforms {
            clauses.push(
                QueryClause::AnyOf { field: "platforms".to_owned(), values: split_list(v.as_str()) },
            );
        }
        if let Some(v) = &self.labels {
            let expr = compile(v.as_str());
            clauses.push(QueryClause::TagFilter { filter: expression_clauses(&expr, "labels") });
        }
        if let Some(v) = &self.tactics {
            let expr = compile(v.as_str());
            clauses.push(QueryClause::TagFilter { filter: expression_clauses(&expr, "tactics") });
        }
        let r = QueryDoc { clauses };
        proof {
            assert(r@ =~= technique_doc_spec(
                self.mid.deep_view(),
                self.desc.deep_view(),
                self.platforms.deep_view(),
                self.labels.deep_view(),
                self.tactics.deep_view(),
            ));
        }
        r
    }
}

} // verus!
