//! The decisions of the store-population pipeline.
//!
//! Populating the store reads data files and writes collections — that
//! belongs to the store adapter.  What it decides on the way is owned and
//! verified here: which technique references of a group's technique file
//! resolve in the store, which tactic a technique's kill-chain tag links
//! it to, and which stored group a row of the supplementary threat-actor
//! table describes.

use vstd::prelude::*;

use crate::analyze::{find_technique, find_technique_spec};
use crate::models::{clone_strings, GroupTechView, Tactic, TacticView, Technique, TechniqueMitreVec,
    TechniqueView};
use crate::text::str_eq;

verus! {

/// The referenced technique identifiers, in file order.
pub open spec fn ref_mids(refs: Seq<GroupTechView>) -> Seq<Seq<char>> {
    refs.map_values(|t: GroupTechView| t.mid)
}

impl TechniqueMitreVec {
    /// The referenced technique identifiers that resolve in the snapshot,
    /// in file order; a reference the store no longer holds is skipped.
    pub fn known_mids(&self, snapshot: &Vec<Technique>) -> (r: Vec<String>)
        ensures
            r.deep_view() == ref_mids(self.techniques.deep_view()).filter(
                |m: Seq<char>| find_technique_spec(snapshot.deep_view(), m) is Some,
            ),
    {
        let ghost rv = self.techniques.deep_view();
        let ghost sv = snapshot.deep_view();
        let ghost p = |m: Seq<char>| find_technique_spec(sv, m) is Some;
        let mut r: Vec<String> = Vec::new();
        let mut i: usize = 0;
        proof {
            reveal(Seq::filter);
            assert(rv.take(0).map_values(|t: GroupTechView| t.mid) =~= Seq::<Seq<char>>::empty());
        }
        while i < self.techniques.len()
            invariant
                i <= self.techniques@.len(),
                rv == self.techniques.deep_view(),
                sv == snapshot.deep_view(),
                p == (|m: Seq<char>| find_technique_spec(sv, m) is Some),
                r.deep_view() =~= ref_mids(rv.take(i as int)).filter(p),
            decreases self.techniques@.len() - i,
        {
            let mid = &self.techniques[i].mid;
            proof {
                assert(mid@ == rv[i as int].mid);
            }
            let ghost before = r.deep_view();
            let hit = find_technique(snapshot, mid.as_str());
            if hit.is_some() {
                let ghost mv = mid@;
                r.push(mid.clone());
                proof {
                    assert(r.deep_view() =~= before.push(mv));
                }
            }
            proof {
                reveal(Seq::filter);
                let m1 = ref_mids(rv.take(i as int));
                let m2 = ref_mids(rv.take(i + 1 as int));
                assert(m2.drop_last() =~= m1);
                assert(m2.last() == rv[i as int].mid);
                assert(r.deep_view() =~= m2.filter(p));
            }
            i += 1;
        }
        proof {
            assert(rv.take(rv.len() as int) =~= rv);
            assert(ref_mids(rv.take(rv.len() as int)) =~= ref_mids(rv));
        }
        r
    }
}

/// Whether no earlier tactic shares this tactic's shortname: kill-chain
/// tags link a technique to the first tactic carrying the shortname.
pub open spec fn first_with_shortname(ts: Seq<TacticView>, i: int) -> bool {
    forall|j: int| 0 <= j < i ==> (#[trigger] ts[j]).shortname != ts[i].shortname
}

/// The identifiers of the techniques whose kill-chain tags name this
/// shortname, in store order, each once.
pub open spec fn techniques_under_shortname(
    techniques: Seq<TechniqueView>,
    shortname: Seq<char>,
) -> Seq<Seq<char>> {
    techniques.filter(|t: TechniqueView| t.tactics.contains(shortname)).map_values(
        |t: TechniqueView| t.mid,
    )
}

/// Collects the identifiers of the techniques carrying this shortname.
fn techniques_under_shortname_exec(techniques: &Vec<Technique>, shortname: &str) -> (r: Vec<
    String,
>)
    ensures
        r.deep_view() == techniques_under_shortname(techniques.deep_view(), shortname@),
{
    let ghost tv = techniques.deep_view();
    let ghost p = |t: TechniqueView| t.tactics.contains(shortname@);
    let mut r: Vec<String> = Vec::new();
    let mut i: usize = 0;
    proof {
        reveal(Seq::filter);
        assert(tv.take(0).filter(p) =~= Seq::<TechniqueView>::empty());
        assert(r.deep_view() =~= tv.take(0).filter(p).map_values(|t: TechniqueView| t.mid));
    }
    while i < techniques.len()
        invariant
            i <= techniques@.len(),
            tv == techniques.deep_view(),
            p == (|t: TechniqueView| t.tactics.contains(shortname@)),
            r.deep_view() =~= tv.take(i as int).filter(p).map_values(|t: TechniqueView| t.mid),
        decreases techniques@.len() - i,
    {
        let ghost before = r.deep_view();
        if crate::filter::tagset_contains(&techniques[i].tactics, shortname) {
            let ghost mv = tv[i as int].mid;
            r.push(techniques[i].mid.clone());
            proof {
                assert(r.deep_view() =~= before.push(mv));
            }
        }
        proof {
            reveal(Seq::filter);
            assert(tv.take(i + 1 as int).drop_last() =~= tv.take(i as int));
            assert(tv.take(i + 1 as int).last() == tv[i as int]);
            assert(r.deep_view() =~= tv.take(i + 1 as int).filter(p).map_values(
                |t: TechniqueView| t.mid,
            ));
        }
        i += 1;
    }
    proof {
        assert(tv.take(tv.len() as int) =~= tv);
    }
    r
}

/// Fills the tactics' technique reference lists from the techniques'
/// kill-chain tags: the first tactic of each shortname receives, appended
/// to its list, the identifiers of the techniques naming that shortname;
/// a tactic behind an earlier one of the same shortname receives nothing.
pub fn link_technique_refs(tactics: &Vec<Tactic>, techniques: &Vec<Technique>) -> (r: Vec<Tactic>)
    ensures
        r.deep_view().len() == tactics.deep_view().len(),
        forall|i: int|
            #![trigger r.deep_view()[i]]
            0 <= i < tactics.deep_view().len() ==> {
                let old_t = tactics.deep_view()[i];
                let new_t = r.deep_view()[i];
                &&& new_t.mid == old_t.mid
                &&& new_t.name == old_t.name
                &&& new_t.shortname == old_t.shortname
                &&& new_t.description == old_t.description
                &&& new_t.technique_refs == old_t.technique_refs + (if first_with_shortname(
                    tactics.deep_view(),
                    i,
                ) {
                    techniques_under_shortname(techniques.deep_view(), old_t.shortname)
                } else {
                    Seq::<Seq<char>>::empty()
                })
            },
{
    let ghost tav = tactics.deep_view();
    let ghost tev = techniques.deep_view();
    let mut r: Vec<Tactic> = Vec::new();
    let mut i: usize = 0;
    while i < tactics.len()
        invariant
            i <= tactics@.len(),
            tav == tactics.deep_view(),
            tev == techniques.deep_view(),
            r.deep_view().len() == i,
            forall|e: int|
                #![trigger r.deep_view()[e]]
                0 <= e < i ==> {
                    let old_t = tav[e];
                    let new_t = r.deep_view()[e];
                    &&& new_t.mid == old_t.mid
                    &&& new_t.name == old_t.name
                    &&& new_t.shortname == old_t.shortname
                    &&& new_t.description == old_t.description
                    &&& new_t.technique_refs == old_t.technique_refs + (if first_with_shortname(
                        tav,
                        e,
                    ) {
                        techniques_under_shortname(tev, old_t.shortname)
                    } else {
                        Seq::<Seq<char>>::empty()
                    })
                },
        decreases tactics@.len() - i,
    {
        let t = &tactics[i];
        proof {
            assert(t@ == tav[i as int]);
        }
        // is this the first tactic with its shortname?
        let mut first = true;
        let mut j: usize = 0;
        while j < i && first
            invariant
                j <= i <= tactics@.len(),
                tav == tactics.deep_view(),
                t@ == tav[i as int],
                first ==> forall|j2: int|
                    0 <= j2 < j ==> (#[trigger] tav[j2]).shortname != tav[i as int].shortname,
                !first ==> exists|j2: int|
                    0 <= j2 < i && (#[trigger] tav[j2]).shortname == tav[i as int].shortname,
            decreases i - j + (if first {
                1int
            } else {
                0int
            }),
        {
            if str_eq(tactics[j].shortname.as_str(), t.shortname.as_str()) {
                proof {
                    assert(tav[j as int].shortname == tav[i as int].shortname);
                }
                first = false;
            } else {
                j += 1;
            }
        }
        let mut refs = clone_strings(&t.technique_refs);
        let ghost base = refs.deep_view();
        proof {
            assert(base =~= tav[i as int].technique_refs);
        }
        if first {
            let mut linked = techniques_under_shortname_exec(techniques, t.shortname.as_str());
            let ghost lv = linked.deep_view();
            refs.append(&mut linked);
            proof {
                assert(refs.deep_view() =~~= base + lv);
            }
        } else {
            proof {
                assert(refs.deep_view() =~= base + Seq::<Seq<char>>::empty());
            }
        }
        let ghost before = r.deep_view();
        let new_t = Tactic {
            mid: t.mid.clone(),
            name: t.name.clone(),
            shortname: t.shortname.clone(),
            technique_refs: refs,
            description: crate::models::clone_opt_string(&t.description),
        };
        let ghost ntv = new_t@;
        r.push(new_t);
        proof {
            assert(r.deep_view() =~~= before.push(ntv));
            if first {
                assert(first_with_shortname(tav, i as int));
            } else {
                assert(!first_with_shortname(tav, i as int)) by {
                    let w = choose|j2: int|
                        0 <= j2 < i && (#[trigger] tav[j2]).shortname == tav[i as int].shortname;
                }
            }
        }
        i += 1;
    }
    r
}

/// Whether a stored group is the one a row of the supplementary
/// threat-actor table describes: the row names the group directly or
/// through one of its aliases.
pub fn group_matches_actor_row(group_name: &str, name: &str, aliases: &Vec<String>) -> (r: bool)
    ensures
        r == (group_name@ == name@ || aliases.deep_view().contains(group_name@)),
{
    if str_eq(group_name, name) {
        return true;
    }
    let mut i: usize = 0;
    while i < aliases.len()
        invariant
            i <= aliases@.len(),
            forall|j: int| 0 <= j < i ==> #[trigger] aliases.deep_view()[j] != group_name@,
        decreases aliases@.len() - i,
    {
        if str_eq(aliases[i].as_str(), group_name) {
            proof {
                assert(aliases.deep_view()[i as int] == group_name@);
            }
            return true;
        }
        i += 1;
    }
    false
}

} // verus!
