//! Entity models: the stored domain objects the correlation engine reads.
//!
//! Each entity carries a stable MITRE identifier (`mid`), a display name,
//! an optional description, and tag-bearing fields modeled as vectors of
//! normalized tags.  Persistence-only attributes of the backing store stay
//! with the store adapter; the engine works on these plain records.

use vstd::prelude::*;

verus! {

/// Copies a tag list; the copy holds equal strings.
pub fn clone_strings(v: &Vec<String>) -> (r: Vec<String>)
    ensures
        r@ == v@,
{
    let mut r: Vec<String> = Vec::new();
    let mut i: usize = 0;
    while i < v.len()
        invariant
            i <= v@.len(),
            r@ == v@.take(i as int),
        decreases v@.len() - i,
    {
        r.push(v[i].clone());
        proof {
            assert(v@.take(i + 1 as int) =~= v@.take(i as int).push(v@[i as int]));
        }
        i += 1;
    }
    proof {
        assert(v@.take(v@.len() as int) =~= v@);
    }
    r
}

/// Copies an optional string; the copy holds an equal value.
pub fn clone_opt_string(v: &Option<String>) -> (r: Option<String>)
    ensures
        r == *v,
{
    match v {
        Some(s) => Some(s.clone()),
        None => None,
    }
}

/// A threat-actor group.
#[derive(Debug, Clone, PartialEq, Eq)]
pub struct Group {
    /// Stable MITRE identifier, unique per group.
    pub mid: String,
    pub name: String,
    pub description: Option<String>,
    /// Normalized label tags generated from the group's descriptions.
    pub labels: Vec<String>,
    /// MITRE identifiers of the techniques the group uses.
    pub techniques: Vec<String>,
    /// Sectors the group targets.
    pub sectors: Vec<String>,
    /// Countries the group targets.
    pub countries: Vec<String>,
}

/// Mathematical model of a [`Group`].
pub struct GroupView {
    pub mid: Seq<char>,
    pub name: Seq<char>,
    pub description: Option<Seq<char>>,
    pub labels: Seq<Seq<char>>,
    pub techniques: Seq<Seq<char>>,
    pub sectors: Seq<Seq<char>>,
    pub countries: Seq<Seq<char>>,
}

impl View for Group {
    type V = GroupView;

    open spec fn view(&self) -> GroupView {
        GroupView {
            mid: self.mid@,
            name: self.name@,
            description: self.description.deep_view(),
            labels: self.labels.deep_view(),
            techniques: self.techniques.deep_view(),
            sectors: self.sectors.deep_view(),
            countries: self.countries.deep_view(),
        }
    }
}

impl DeepView for Group {
    type V = GroupView;

    open spec fn deep_view(&self) -> GroupView {
        self@
    }
}

impl Group {
    /// A copy of the record, equal under the model.
    pub fn duplicate(&self) -> (r: Group)
        ensures
            r@ == self@,
    {
        Group {
            mid: self.mid.clone(),
            name: self.name.clone(),
            description: clone_opt_string(&self.description),
            labels: clone_strings(&self.labels),
            techniques: clone_strings(&self.techniques),
            sectors: clone_strings(&self.sectors),
            countries: clone_strings(&self.countries),
        }
    }
}

/// An attack technique.
#[derive(Debug, Clone, PartialEq, Eq)]
pub struct Technique {
    /// Stable MITRE identifier, unique per technique.
    pub mid: String,
    pub name: String,
    pub description: Option<String>,
    /// Normalized label tags generated from the description and detection
    /// texts, plus the platform tags.
    pub labels: Vec<String>,
    /// Shortnames of the tactics the technique serves.
    pub tactics: Vec<String>,
    /// Platforms the technique applies to, lower-cased at ingestion.
    pub platforms: Vec<String>,
}

/// Mathematical model of a [`Technique`].
pub struct TechniqueView {
    pub mid: Seq<char>,
    pub name: Seq<char>,
    pub description: Option<Seq<char>>,
    pub labels: Seq<Seq<char>>,
    pub tactics: Seq<Seq<char>>,
    pub platforms: Seq<Seq<char>>,
}

impl View for Technique {
    type V = TechniqueView;

    open spec fn view(&self) -> TechniqueView {
        TechniqueView {
            mid: self.mid@,
            name: self.name@,
            description: self.description.deep_view(),
            labels: self.labels.deep_view(),
            tactics: self.tactics.deep_view(),
            platforms: self.platforms.deep_view(),
        }
    }
}

impl DeepView for Technique {
    type V = TechniqueView;

    open spec fn deep_view(&self) -> TechniqueView {
        self@
    }
}

impl Technique {
    /// A copy of the record, equal under the model.
    pub fn duplicate(&self) -> (r: Technique)
        ensures
            r@ == self@,
    {
        Technique {
            mid: self.mid.clone(),
            name: self.name.clone(),
            description: clone_opt_string(&self.description),
            labels: clone_strings(&self.labels),
            tactics: clone_strings(&self.tactics),
            platforms: clone_strings(&self.platforms),
        }
    }
}

/// A tactic: a phase of the attack kill chain.
#[derive(Debug, Clone, PartialEq, Eq)]
pub struct Tactic {
    /// Stable MITRE identifier, unique per tactic.
    pub mid: String,
    pub name: String,
    /// Kill-chain shortname; techniques reference tactics by it.
    pub shortname: String,
    /// MITRE identifiers of the techniques under this tactic.
    pub technique_refs: Vec<String>,
    pub description: Option<String>,
}

/// Mathematical model of a [`Tactic`].
pub struct TacticView {
    pub mid: Seq<char>,
    pub name: Seq<char>,
    pub shortname: Seq<char>,
    pub technique_refs: Seq<Seq<char>>,
    pub description: Option<Seq<char>>,
}

impl View for Tactic {
    type V = TacticView;

    open spec fn view(&self) -> TacticView {
        TacticView {
            mid: self.mid@,
            name: self.name@,
            shortname: self.shortname@,
            technique_refs: self.technique_refs.deep_view(),
            description: self.description.deep_view(),
        }
    }
}

impl DeepView for Tactic {
    type V = TacticView;

    open spec fn deep_view(&self) -> TacticView {
        self@
    }
}

/// A CVE record, reduced to what the correlation engine reads: the CVE
/// identifier and the free-text description.
#[derive(Debug, Clone, PartialEq, Eq)]
pub struct CveRecord {
    pub id: String,
    pub description: String,
}

/// Mathematical model of a [`CveRecord`].
pub struct CveRecordView {
    pub id: Seq<char>,
    pub description: Seq<char>,
}

impl View for CveRecord {
    type V = CveRecordView;

    open spec fn view(&self) -> CveRecordView {
        CveRecordView { id: self.id@, description: self.description@ }
    }
}

impl DeepView for CveRecord {
    type V = CveRecordView;

    open spec fn deep_view(&self) -> CveRecordView {
        self@
    }
}

impl CveRecord {
    /// An equal copy of the record.
    pub fn duplicate(&self) -> (r: CveRecord)
        ensures
            r == *self,
    {
        CveRecord { id: self.id.clone(), description: self.description.clone() }
    }
}

/// One technique reference in a group's technique file.
#[derive(Debug, Clone, PartialEq, Eq)]
pub struct GroupTech {
    pub mid: String,
    pub comment: Option<String>,
}

/// Mathematical model of a [`GroupTech`].
pub struct GroupTechView {
    pub mid: Seq<char>,
    pub comment: Option<Seq<char>>,
}

impl View for GroupTech {
    type V = GroupTechView;

    open spec fn view(&self) -> GroupTechView {
        GroupTechView { mid: self.mid@, comment: self.comment.deep_view() }
    }
}

impl DeepView for GroupTech {
    type V = GroupTechView;

    open spec fn deep_view(&self) -> GroupTechView {
        self@
    }
}

/// The technique references listed for one group.
#[derive(Debug, Clone, PartialEq, Eq)]
pub struct TechniqueMitreVec {
    pub techniques: Vec<GroupTech>,
}

} // verus!
