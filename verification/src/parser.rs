//! The canonical input shape of the correlation pipeline and the report it
//! produces.
//!
//! Infrastructure descriptions arrive in several file formats; each format
//! is parsed into its own structure and converted into [`InputData`], the
//! store-agnostic description of an attack surface.  The pipeline's result
//! is an [`OutputData`] report.

use vstd::prelude::*;

use crate::models::{clone_strings, CveRecord, CveRecordView, Group, GroupView, Technique,
    TechniqueView};

verus! {

/// The kinds of infrastructure configuration files the service can parse.
#[derive(Debug, Clone, Copy, PartialEq, Eq)]
pub enum DataType {
    Custom,
    Terraform,
    SaltStack,
}

impl DataType {
    /// Every supported configuration file kind, in declaration order.
    pub fn all() -> (r: Vec<DataType>)
        ensures
            r@ =~= seq![DataType::Custom, DataType::Terraform, DataType::SaltStack],
    {
        let mut r: Vec<DataType> = Vec::new();
        r.push(DataType::Custom);
        r.push(DataType::Terraform);
        r.push(DataType::SaltStack);
        r
    }
}

/// The attack-surface description every parser converts into: the
/// countries and sectors the infrastructure belongs to, and the operating
/// systems and software it runs.
#[derive(Debug, Clone, PartialEq, Eq)]
pub struct InputData {
    pub countries: Vec<String>,
    pub sectors: Vec<String>,
    pub operating_systems: Vec<String>,
    pub software: Vec<String>,
}

/// Mathematical model of an [`InputData`].
pub struct InputView {
    pub countries: Seq<Seq<char>>,
    pub sectors: Seq<Seq<char>>,
    pub operating_systems: Seq<Seq<char>>,
    pub software: Seq<Seq<char>>,
}

impl View for InputData {
    type V = InputView;

    open spec fn view(&self) -> InputView {
        InputView {
            countries: self.countries.deep_view(),
            sectors: self.sectors.deep_view(),
            operating_systems: self.operating_systems.deep_view(),
            software: self.software.deep_view(),
        }
    }
}

/// Conversion of a format-specific structure into the canonical input.
pub trait ToInputData {
    fn to_input_data(&self) -> InputData;
}

/// An infrastructure description already in the canonical field layout,
/// as the custom YAML format carries it.
#[derive(Debug, Clone, PartialEq, Eq)]
pub struct CustomData {
    pub countries: Vec<String>,
    pub sectors: Vec<String>,
    pub operating_systems: Vec<String>,
    pub software: Vec<String>,
}

impl CustomData {
    /// Packs the four tag lists.
    pub fn new(
        countries: Vec<String>,
        sectors: Vec<String>,
        operating_systems: Vec<String>,
        software: Vec<String>,
    ) -> (r: Self)
        ensures
            r.countries == countries,
            r.sectors == sectors,
            r.operating_systems == operating_systems,
            r.software == software,
    {
        CustomData { countries, sectors, operating_systems, software }
    }
}

impl ToInputData for CustomData {
    /// The fields carry over unchanged.
    fn to_input_data(&self) -> (r: InputData)
        ensures
            r.countries@ == self.countries@,
            r.sectors@ == self.sectors@,
            r.operating_systems@ == self.operating_systems@,
            r.software@ == self.software@,
    {
        InputData {
            countries: clone_strings(&self.countries),
            sectors: clone_strings(&self.sectors),
            operating_systems: clone_strings(&self.operating_systems),
            software: clone_strings(&self.software),
        }
    }
}

/// What the correlation pipeline reads from a Terraform state file: the
/// named outputs (each a list of strings) and the names of the root
/// module's resources.
#[derive(Debug, Clone, PartialEq, Eq)]
pub struct TerraformData {
    pub outputs: Vec<(String, Vec<String>)>,
    pub resource_names: Vec<String>,
}

/// The value of the first output named `name`, or the empty list when
/// there is none.
pub open spec fn first_output(
    outputs: Seq<(Seq<char>, Seq<Seq<char>>)>,
    name: Seq<char>,
) -> Seq<Seq<char>>
    decreases outputs.len(),
{
    if outputs.len() == 0 {
        Seq::<Seq<char>>::empty()
    } else if outputs[0].0 == name {
        outputs[0].1
    } else {
        first_output(outputs.drop_first(), name)
    }
}

proof fn lemma_first_output_at(
    outputs: Seq<(Seq<char>, Seq<Seq<char>>)>,
    name: Seq<char>,
    i: int,
)
    requires
        0 <= i < outputs.len(),
        outputs[i].0 == name,
        forall|j: int| 0 <= j < i ==> (#[trigger] outputs[j]).0 != name,
    ensures
        first_output(outputs, name) == outputs[i].1,
    decreases i,
{
    if i > 0 {
        lemma_first_output_at(outputs.drop_first(), name, i - 1);
    }
}

proof fn lemma_first_output_none(outputs: Seq<(Seq<char>, Seq<Seq<char>>)>, name: Seq<char>)
    requires
        forall|j: int| 0 <= j < outputs.len() ==> (#[trigger] outputs[j]).0 != name,
    ensures
        first_output(outputs, name) == Seq::<Seq<char>>::empty(),
    decreases outputs.len(),
{
    if outputs.len() > 0 {
        lemma_first_output_none(outputs.drop_first(), name);
    }
}

impl TerraformData {
    /// The value of the first output named `name`, copied; empty when no
    /// output carries that name.
    fn output_named(&self, name: &str) -> (r: Vec<String>)
        ensures
            r.deep_view() == first_output(self.outputs.deep_view(), name@),
    {
        let ghost ov = self.outputs.deep_view();
        let mut i: usize = 0;
        while i < self.outputs.len()
            invariant
                i <= self.outputs@.len(),
                ov == self.outputs.deep_view(),
                forall|j: int| 0 <= j < i ==> (#[trigger] ov[j]).0 != name@,
            decreases self.outputs@.len() - i,
        {
            if crate::text::str_eq(self.outputs[i].0.as_str(), name) {
                let r = clone_strings(&self.outputs[i].1);
                proof {
                    assert(ov[i as int].0 == name@);
                    lemma_first_output_at(ov, name@, i as int);
                    assert(r.deep_view() =~= ov[i as int].1);
                }
                return r;
            }
            i += 1;
        }
        proof {
            lemma_first_output_none(ov, name@);
        }
        Vec::new()
    }
}

impl ToInputData for TerraformData {
    /// Countries and sectors come from the outputs of those names, the
    /// software list from the resource names; no operating systems are
    /// carried by a state file.
    fn to_input_data(&self) -> (r: InputData)
        ensures
            r.countries.deep_view() == first_output(self.outputs.deep_view(), "countries"@),
            r.sectors.deep_view() == first_output(self.outputs.deep_view(), "sectors"@),
            r.operating_systems@.len() == 0,
            r.software@ == self.resource_names@,
    {
        InputData {
            countries: self.output_named("countries"),
            sectors: self.output_named("sectors"),
            operating_systems: Vec::new(),
            software: clone_strings(&self.resource_names),
        }
    }
}

/// A technique together with how many matched groups reference it.
#[derive(Debug, Clone, PartialEq, Eq)]
pub struct TechniqueCount {
    pub technique: Technique,
    pub count: u32,
}

/// Mathematical model of a [`TechniqueCount`].
pub struct TechniqueCountView {
    pub technique: TechniqueView,
    pub count: u32,
}

impl View for TechniqueCount {
    type V = TechniqueCountView;

    open spec fn view(&self) -> TechniqueCountView {
        TechniqueCountView { technique: self.technique@, count: self.count }
    }
}

impl DeepView for TechniqueCount {
    type V = TechniqueCountView;

    open spec fn deep_view(&self) -> TechniqueCountView {
        self@
    }
}

impl TechniqueCount {
    /// Pairs a technique with its occurrence count.
    pub fn new(technique: Technique, count: u32) -> (r: Self)
        ensures
            r@.technique == technique@,
            r@.count == count,
    {
        TechniqueCount { technique, count }
    }
}

/// The group correlation result: one mapping per dimension, kept separate.
#[derive(Debug, Clone, PartialEq, Eq)]
pub struct GroupResult {
    pub countries: Vec<(String, Vec<Group>)>,
    pub sectors: Vec<(String, Vec<Group>)>,
    pub keywords: Vec<(String, Vec<Group>)>,
}

/// Whether some group in the list carries this `mid`.
pub open spec fn lists_mid(gs: Seq<GroupView>, mid: Seq<char>) -> bool {
    exists|j: int| 0 <= j < gs.len() && (#[trigger] gs[j]).mid == mid
}

/// Whether some value list of the mapping mentions this `mid`.
pub open spec fn map_mentions_mid(
    m: Seq<(Seq<char>, Seq<GroupView>)>,
    mid: Seq<char>,
) -> bool {
    exists|i: int| 0 <= i < m.len() && lists_mid((#[trigger] m[i]).1, mid)
}

/// Whether some value list of the mapping holds this very group.
pub open spec fn map_holds_group(m: Seq<(Seq<char>, Seq<GroupView>)>, g: GroupView) -> bool {
    exists|i: int| 0 <= i < m.len() && (#[trigger] m[i]).1.contains(g)
}

/// Whether the group list holds pairwise distinct `mid`s.
pub open spec fn mids_distinct(gs: Seq<GroupView>) -> bool {
    forall|i: int, j: int|
        0 <= i < j < gs.len() ==> (#[trigger] gs[i]).mid != (#[trigger] gs[j]).mid
}

/// What [`GroupResult::groups`] returns: one group per distinct `mid`
/// mentioned anywhere in the three mappings, each a record held by one of
/// the mappings.
pub open spec fn union_ok(r: Seq<GroupView>, gr: GroupResultView) -> bool {
    &&& mids_distinct(r)
    &&& forall|mid: Seq<char>|
        #![trigger lists_mid(r, mid)]
        lists_mid(r, mid) <==> (map_mentions_mid(gr.countries, mid) || map_mentions_mid(
            gr.sectors,
            mid,
        ) || map_mentions_mid(gr.keywords, mid))
    &&& forall|i: int|
        0 <= i < r.len() ==> (map_holds_group(gr.countries, #[trigger] r[i]) || map_holds_group(
            gr.sectors,
            r[i],
        ) || map_holds_group(gr.keywords, r[i]))
}

/// Mathematical model of a [`GroupResult`].
pub struct GroupResultView {
    pub countries: Seq<(Seq<char>, Seq<GroupView>)>,
    pub sectors: Seq<(Seq<char>, Seq<GroupView>)>,
    pub keywords: Seq<(Seq<char>, Seq<GroupView>)>,
}

impl View for GroupResult {
    type V = GroupResultView;

    open spec fn view(&self) -> GroupResultView {
        GroupResultView {
            countries: self.countries.deep_view(),
            sectors: self.sectors.deep_view(),
            keywords: self.keywords.deep_view(),
        }
    }
}

/// Appends to `out` every group of the mapping's value lists whose `mid`
/// is not yet represented there.
fn add_groups(m: &Vec<(String, Vec<Group>)>, out: &mut Vec<Group>)
    requires
        mids_distinct(old(out).deep_view()),
    ensures
        mids_distinct(final(out).deep_view()),
        forall|mid: Seq<char>|
            #![trigger lists_mid(final(out).deep_view(), mid)]
            lists_mid(final(out).deep_view(), mid) <==> (lists_mid(old(out).deep_view(), mid)
                || map_mentions_mid(m.deep_view(), mid)),
        forall|k: int|
            0 <= k < final(out).deep_view().len() ==> (old(out).deep_view().contains(
                #[trigger] final(out).deep_view()[k],
            ) || map_holds_group(m.deep_view(), final(out).deep_view()[k])),
{
    let ghost mv = m.deep_view();
    let ghost out0 = out.deep_view();
    let mut i: usize = 0;
    while i < m.len()
        invariant
            i <= m@.len(),
            mv == m.deep_view(),
            mids_distinct(out.deep_view()),
            forall|mid: Seq<char>|
                #![trigger lists_mid(out.deep_view(), mid)]
                lists_mid(out.deep_view(), mid) <==> (lists_mid(out0, mid) || exists|i2: int|
                    0 <= i2 < i && lists_mid((#[trigger] mv[i2]).1, mid)),
            forall|k: int|
                0 <= k < out.deep_view().len() ==> (out0.contains(
                    #[trigger] out.deep_view()[k],
                ) || map_holds_group(mv, out.deep_view()[k])),
        decreases m@.len() - i,
    {
        let entry_groups = &m[i].1;
        let ghost ev = mv[i as int].1;
        proof {
            assert(ev == entry_groups.deep_view());
        }
        let mut j: usize = 0;
        while j < entry_groups.len()
            invariant
                j <= entry_groups@.len(),
                i < m@.len(),
                mv == m.deep_view(),
                ev == entry_groups.deep_view(),
                ev == mv[i as int].1,
                mids_distinct(out.deep_view()),
                forall|mid: Seq<char>|
                    #![trigger lists_mid(out.deep_view(), mid)]
                    lists_mid(out.deep_view(), mid) <==> (lists_mid(out0, mid) || (exists|i2: int|
                        0 <= i2 < i && lists_mid((#[trigger] mv[i2]).1, mid)) || lists_mid(
                        ev.take(j as int),
                        mid,
                    )),
                forall|k: int|
                    0 <= k < out.deep_view().len() ==> (out0.contains(
                        #[trigger] out.deep_view()[k],
                    ) || map_holds_group(mv, out.deep_view()[k])),
            decreases entry_groups@.len() - j,
        {
            let g = &entry_groups[j];
            proof {
                assert(g@ == ev[j as int]);
            }
            let mut present = false;
            let mut k: usize = 0;
            while k < out.len()
                invariant
                    k <= out@.len(),
                    j < entry_groups@.len(),
                    g@ == ev[j as int],
                    present <==> exists|k2: int|
                        0 <= k2 < k && (#[trigger] out.deep_view()[k2]).mid == g@.mid,
                decreases out@.len() - k,
            {
                if crate::text::str_eq(out[k].mid.as_str(), g.mid.as_str()) {
                    proof {
                        assert(out.deep_view()[k as int].mid == g@.mid);
                    }
                    present = true;
                }
                k += 1;
            }
            let ghost out_before = out.deep_view();
            if !present {
                let d = g.duplicate();
                let ghost dv = d@;
                out.push(d);
                proof {
                    assert(out.deep_view() =~= out_before.push(dv));
                    assert(dv == ev[j as int]);
                    assert(map_holds_group(mv, dv)) by {
                        assert(mv[i as int].1.contains(dv)) by {
                            assert(ev[j as int] == dv);
                        }
                    }
                }
            }
            proof {
                let outv = out.deep_view();
                assert(ev.take(j + 1 as int).drop_last() =~= ev.take(j as int));
                assert(ev.take(j + 1 as int).last() == ev[j as int]);
                assert forall|mid: Seq<char>| #![trigger lists_mid(outv, mid)]
                    lists_mid(outv, mid) <==> (lists_mid(out0, mid) || (exists|i2: int|
                        0 <= i2 < i && lists_mid((#[trigger] mv[i2]).1, mid)) || lists_mid(
                        ev.take(j + 1 as int),
                        mid,
                    )) by {
                    if lists_mid(outv, mid) {
                        let w = choose|w: int| 0 <= w < outv.len() && outv[w].mid == mid;
                        if w < out_before.len() {
                            assert(lists_mid(out_before, mid));
                        } else {
                            assert(outv[w] == ev[j as int]);
                            assert(lists_mid(ev.take(j + 1 as int), mid)) by {
                                assert(ev.take(j + 1 as int)[j as int] == ev[j as int]);
                            }
                        }
                    }
                    if lists_mid(ev.take(j + 1 as int), mid) {
                        let w = choose|w: int|
                            0 <= w < j + 1 && (#[trigger] ev.take(j + 1 as int)[w]).mid == mid;
                        if w < j {
                            assert(lists_mid(ev.take(j as int), mid)) by {
                                assert(ev.take(j as int)[w] == ev.take(j + 1 as int)[w]);
                            }
                        } else {
                            // the current group carries this mid
                            if !present {
                                assert(outv[outv.len() - 1].mid == mid);
                                assert(lists_mid(outv, mid));
                            } else {
                                let k2 = choose|k2: int|
                                    0 <= k2 < out_before.len() && (#[trigger] out_before[k2]).mid
                                        == g@.mid;
                                assert(outv[k2].mid == mid);
                                assert(lists_mid(outv, mid));
                            }
                        }
                    }
                    if lists_mid(out_before, mid) {
                        let w = choose|w: int|
                            0 <= w < out_before.len() && (#[trigger] out_before[w]).mid == mid;
                        assert(outv[w].mid == mid);
                        assert(lists_mid(outv, mid));
                    }
                }
            }
            j += 1;
        }
        proof {
            assert(ev.take(ev.len() as int) =~= ev);
            assert forall|mid: Seq<char>| #![trigger lists_mid(out.deep_view(), mid)]
                lists_mid(out.deep_view(), mid) <==> (lists_mid(out0, mid) || exists|i2: int|
                    0 <= i2 < i + 1 && lists_mid((#[trigger] mv[i2]).1, mid)) by {
                if exists|i2: int| 0 <= i2 < i + 1 && lists_mid((#[trigger] mv[i2]).1, mid) {
                    let w = choose|w: int| 0 <= w < i + 1 && lists_mid((#[trigger] mv[w]).1, mid);
                    if w == i {
                        assert(lists_mid(ev, mid));
                    }
                }
            }
        }
        i += 1;
    }
    proof {
        assert forall|mid: Seq<char>| #![trigger lists_mid(out.deep_view(), mid)]
            lists_mid(out.deep_view(), mid) <==> (lists_mid(out0, mid) || map_mentions_mid(
                mv,
                mid,
            )) by {
            if map_mentions_mid(mv, mid) {
                let w = choose|w: int| 0 <= w < mv.len() && lists_mid((#[trigger] mv[w]).1, mid);
                assert(exists|i2: int| 0 <= i2 < m@.len() && lists_mid((#[trigger] mv[i2]).1, mid));
            }
        }
    }
}

impl GroupResult {
    /// The matched-groups set: one record per distinct `mid` across all
    /// three mappings.
    pub fn groups(&self) -> (r: Vec<Group>)
        ensures
            union_ok(r.deep_view(), self@),
    {
        let mut out: Vec<Group> = Vec::new();
        add_groups(&self.countries, &mut out);
        let ghost o1 = out.deep_view();
        add_groups(&self.sectors, &mut out);
        let ghost o2 = out.deep_view();
        add_groups(&self.keywords, &mut out);
        proof {
            assert forall|i: int|
                0 <= i < out.deep_view().len() implies (map_holds_group(
                self@.countries,
                #[trigger] out.deep_view()[i],
            ) || map_holds_group(self@.sectors, out.deep_view()[i]) || map_holds_group(
                self@.keywords,
                out.deep_view()[i],
            )) by {
                let x = out.deep_view()[i];
                if o2.contains(x) {
                    let k2 = choose|k2: int| 0 <= k2 < o2.len() && o2[k2] == x;
                    assert(o1.contains(o2[k2]) || map_holds_group(self@.sectors, o2[k2]));
                    if o1.contains(x) {
                        let k1 = choose|k1: int| 0 <= k1 < o1.len() && o1[k1] == x;
                        assert(map_holds_group(self@.countries, o1[k1]));
                    }
                }
            }
        }
        out
    }
}

/// The correlation report: the group mappings, the ranked technique list,
/// the tactic fan-out, the CVE mapping, and two reserved fields for future
/// procedure and mitigation correlation.
#[derive(Debug, Clone, PartialEq, Eq)]
pub struct OutputData {
    pub groups: GroupResult,
    pub techniques: Vec<TechniqueCount>,
    pub tactics: Vec<(String, Vec<Technique>)>,
    pub cves: Vec<(String, Vec<CveRecord>)>,
    pub procedures: Vec<String>,
    pub mitigations: Vec<String>,
}

} // verus!
