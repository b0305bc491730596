//! The correlation engine: matches an infrastructure description against
//! snapshots of the entity store and assembles the relevance report.
//!
//! Every stage is a pure function of the input description and the store
//! snapshots handed in: group matching per dimension, technique ranking,
//! tactic fan-out, and CVE correlation.  A technique reference that no
//! longer resolves in the snapshot is skipped, never a pipeline abort.

use vstd::prelude::*;

use crate::models::{CveRecord, CveRecordView, Group, GroupView, Technique, TechniqueView};
use crate::parser::{GroupResult, InputData, OutputData, TechniqueCount, TechniqueCountView};
use crate::text::{contains_sub, is_substring, lex_le, lower_of, str_eq, to_chars, to_lower};
use crate::filter::tagset_contains;

verus! {

/// Whether the mapping holds an entry under this key.
pub open spec fn has_key<V>(m: Seq<(Seq<char>, V)>, k: Seq<char>) -> bool {
    exists|i: int| 0 <= i < m.len() && (#[trigger] m[i]).0 == k
}

/// Whether the mapping's keys are pairwise distinct.
pub open spec fn keys_distinct<V>(m: Seq<(Seq<char>, V)>) -> bool {
    forall|i: int, j: int| 0 <= i < j < m.len() ==> (#[trigger] m[i]).0 != (#[trigger] m[j]).0
}

/// Whether the mapping holds an entry whose key equals `k`, compared
/// character by character.
fn map_has_key<T: DeepView>(m: &Vec<(String, Vec<T>)>, k: &str) -> (r: bool)
    ensures
        r == has_key(m.deep_view(), k@),
{
    let mut i: usize = 0;
    while i < m.len()
        invariant
            i <= m@.len(),
            forall|j: int| 0 <= j < i ==> (#[trigger] m.deep_view()[j]).0 != k@,
        decreases m@.len() - i,
    {
        if str_eq(m[i].0.as_str(), k) {
            proof {
                assert(m.deep_view()[i as int].0 == k@);
            }
            return true;
        }
        i += 1;
    }
    false
}

/// The first technique of the snapshot carrying this `mid`, if any: the
/// single-entity lookup the ranking stage resolves references through.
pub open spec fn find_technique_spec(ts: Seq<TechniqueView>, mid: Seq<char>) -> Option<
    TechniqueView,
>
    decreases ts.len(),
{
    if ts.len() == 0 {
        None
    } else if ts[0].mid == mid {
        Some(ts[0])
    } else {
        find_technique_spec(ts.drop_first(), mid)
    }
}

proof fn lemma_find_technique_at(ts: Seq<TechniqueView>, mid: Seq<char>, i: int)
    requires
        0 <= i < ts.len(),
        ts[i].mid == mid,
        forall|j: int| 0 <= j < i ==> (#[trigger] ts[j]).mid != mid,
    ensures
        find_technique_spec(ts, mid) == Some(ts[i]),
    decreases i,
{
    if i > 0 {
        lemma_find_technique_at(ts.drop_first(), mid, i - 1);
    }
}

proof fn lemma_find_technique_none(ts: Seq<TechniqueView>, mid: Seq<char>)
    requires
        forall|j: int| 0 <= j < ts.len() ==> (#[trigger] ts[j]).mid != mid,
    ensures
        find_technique_spec(ts, mid) is None,
    decreases ts.len(),
{
    if ts.len() > 0 {
        lemma_find_technique_none(ts.drop_first(), mid);
    }
}

proof fn lemma_find_mid(ts: Seq<TechniqueView>, mid: Seq<char>)
    ensures
        match find_technique_spec(ts, mid) {
            Some(t) => t.mid == mid,
            None => true,
        },
    decreases ts.len(),
{
    if ts.len() > 0 && ts[0].mid != mid {
        lemma_find_mid(ts.drop_first(), mid);
    }
}

/// Looks a technique up by its MITRE identifier; `None` when the snapshot
/// no longer holds it.
pub fn find_technique(ts: &Vec<Technique>, mid: &str) -> (r: Option<Technique>)
    ensures
        r.deep_view() == find_technique_spec(ts.deep_view(), mid@),
{
    let ghost tv = ts.deep_view();
    let mut i: usize = 0;
    while i < ts.len()
        invariant
            i <= ts@.len(),
            tv == ts.deep_view(),
            forall|j: int| 0 <= j < i ==> (#[trigger] tv[j]).mid != mid@,
        decreases ts@.len() - i,
    {
        if str_eq(ts[i].mid.as_str(), mid) {
            proof {
                assert(tv[i as int].mid == mid@);
                lemma_find_technique_at(tv, mid@, i as int);
            }
            return Some(ts[i].duplicate());
        }
        i += 1;
    }
    proof {
        lemma_find_technique_none(tv, mid@);
    }
    None
}

/// The groups whose sector (or country, with `by_country`) tag set holds
/// `t`, in store order.
pub open spec fn groups_with_tag(gs: Seq<GroupView>, t: Seq<char>, by_country: bool) -> Seq<
    GroupView,
> {
    if by_country {
        gs.filter(|g: GroupView| g.countries.contains(t))
    } else {
        gs.filter(|g: GroupView| g.sectors.contains(t))
    }
}

/// Collects the groups matching one requested tag in one dimension.
fn groups_with_tag_exec(gs: &Vec<Group>, t: &str, by_country: bool) -> (r: Vec<Group>)
    ensures
        r.deep_view() == groups_with_tag(gs.deep_view(), t@, by_country),
{
    let ghost gsv = gs.deep_view();
    let mut r: Vec<Group> = Vec::new();
    let mut i: usize = 0;
    proof {
        reveal(Seq::filter);
        assert(gsv.take(0) =~= Seq::<GroupView>::empty());
    }
    while i < gs.len()
        invariant
            i <= gs@.len(),
            gsv == gs.deep_view(),
            r.deep_view() =~= groups_with_tag(gsv.take(i as int), t@, by_country),
        decreases gs@.len() - i,
    {
        let hit = if by_country {
            tagset_contains(&gs[i].countries, t)
        } else {
            tagset_contains(&gs[i].sectors, t)
        };
        let ghost before = r.deep_view();
        if hit {
            let d = gs[i].duplicate();
            let ghost dv = d@;
            r.push(d);
            proof {
                assert(r.deep_view() =~~= before.push(dv));
            }
        }
        proof {
            reveal(Seq::filter);
            assert(gsv.take(i + 1 as int).drop_last() =~= gsv.take(i as int));
            assert(gsv.take(i + 1 as int).last() == gsv[i as int]);
            assert(r.deep_view() =~= groups_with_tag(gsv.take(i + 1 as int), t@, by_country));
        }
        i += 1;
    }
    proof {
        assert(gsv.take(gsv.len() as int) =~= gsv);
    }
    r
}

/// The per-dimension group mapping: one entry per distinct requested tag
/// that at least one group matches, in first-occurrence order, each valued
/// with the matching groups in store order.
pub open spec fn tag_group_map(
    keys: Seq<Seq<char>>,
    gs: Seq<GroupView>,
    by_country: bool,
) -> Seq<(Seq<char>, Seq<GroupView>)>
    decreases keys.len(),
{
    if keys.len() == 0 {
        Seq::<(Seq<char>, Seq<GroupView>)>::empty()
    } else {
        let rest = tag_group_map(keys.drop_last(), gs, by_country);
        let k = keys.last();
        let matching = groups_with_tag(gs, k, by_country);
        if has_key(rest, k) || matching.len() == 0 {
            rest
        } else {
            rest.push((k, matching))
        }
    }
}

/// Builds one dimension of the group correlation: sectors, or countries
/// with `by_country`.
fn groups_by_dimension(keys: &Vec<String>, gs: &Vec<Group>, by_country: bool) -> (r: Vec<
    (String, Vec<Group>),
>)
    ensures
        r.deep_view() == tag_group_map(keys.deep_view(), gs.deep_view(), by_country),
{
    let ghost kv = keys.deep_view();
    let ghost gsv = gs.deep_view();
    let mut r: Vec<(String, Vec<Group>)> = Vec::new();
    let mut i: usize = 0;
    proof {
        assert(kv.take(0) =~= Seq::<Seq<char>>::empty());
    }
    while i < keys.len()
        invariant
            i <= keys@.len(),
            kv == keys.deep_view(),
            gsv == gs.deep_view(),
            r.deep_view() =~= tag_group_map(kv.take(i as int), gsv, by_country),
        decreases keys@.len() - i,
    {
        proof {
            assert(kv.take(i + 1 as int).drop_last() =~= kv.take(i as int));
            assert(kv.take(i + 1 as int).last() == kv[i as int]);
            assert(keys@[i as int]@ == kv[i as int]);
        }
        let key = &keys[i];
        if !map_has_key(&r, key.as_str()) {
            let matching = groups_with_tag_exec(gs, key.as_str(), by_country);
            if matching.len() > 0 {
                let ghost before = r.deep_view();
                let ghost mv = matching.deep_view();
                r.push((key.clone(), matching));
                proof {
                    assert(r.deep_view() =~~= before.push((kv[i as int], mv)));
                }
            }
        }
        i += 1;
    }
    proof {
        assert(kv.take(kv.len() as int) =~= kv);
    }
    r
}

/// The CVE records whose description contains the software name as a
/// case-insensitive substring, in store order.
pub open spec fn cves_matching(cves: Seq<CveRecordView>, software: Seq<char>) -> Seq<
    CveRecordView,
> {
    cves.filter(|c: CveRecordView| is_substring(lower_of(software), lower_of(c.description)))
}

/// Collects the CVE records matching one software name.
fn cves_matching_exec(cves: &Vec<CveRecord>, software: &str) -> (r: Vec<CveRecord>)
    ensures
        r.deep_view() == cves_matching(cves.deep_view(), software@),
{
    let ghost cv = cves.deep_view();
    let needle_s = to_lower(software);
    let needle = to_chars(needle_s.as_str());
    let mut r: Vec<CveRecord> = Vec::new();
    let mut i: usize = 0;
    proof {
        reveal(Seq::filter);
        assert(cv.take(0) =~= Seq::<CveRecordView>::empty());
    }
    while i < cves.len()
        invariant
            i <= cves@.len(),
            cv == cves.deep_view(),
            needle@ == lower_of(software@),
            r.deep_view() =~= cves_matching(cv.take(i as int), software@),
        decreases cves@.len() - i,
    {
        let hay_s = to_lower(cves[i].description.as_str());
        let hay = to_chars(hay_s.as_str());
        let ghost before = r.deep_view();
        if contains_sub(&hay, &needle) {
            let d = cves[i].duplicate();
            let ghost dv = d@;
            r.push(d);
            proof {
                assert(r.deep_view() =~~= before.push(dv));
            }
        }
        proof {
            reveal(Seq::filter);
            assert(cv.take(i + 1 as int).drop_last() =~= cv.take(i as int));
            assert(cv.take(i + 1 as int).last() == cv[i as int]);
            assert(r.deep_view() =~= cves_matching(cv.take(i + 1 as int), software@));
        }
        i += 1;
    }
    proof {
        assert(cv.take(cv.len() as int) =~= cv);
    }
    r
}

/// The CVE correlation mapping: one entry per distinct requested software
/// name that matches at least one record, in first-occurrence order.
pub open spec fn cve_map(software: Seq<Seq<char>>, cves: Seq<CveRecordView>) -> Seq<
    (Seq<char>, Seq<CveRecordView>),
>
    decreases software.len(),
{
    if software.len() == 0 {
        Seq::<(Seq<char>, Seq<CveRecordView>)>::empty()
    } else {
        let rest = cve_map(software.drop_last(), cves);
        let k = software.last();
        let matching = cves_matching(cves, k);
        if has_key(rest, k) || matching.len() == 0 {
            rest
        } else {
            rest.push((k, matching))
        }
    }
}

/// Whether the technique lists some platform equal, case-insensitively, to
/// some requested operating system.
pub open spec fn on_platform(t: TechniqueView, os_list: Seq<Seq<char>>) -> bool {
    exists|i: int, j: int|
        0 <= i < os_list.len() && 0 <= j < t.platforms.len() && lower_of(#[trigger] t.platforms[j])
            == lower_of(#[trigger] os_list[i])
}

/// Whether this technique runs on one of the requested operating systems.
fn on_platform_exec(t: &Technique, os_list: &Vec<String>) -> (r: bool)
    ensures
        r == on_platform(t@, os_list.deep_view()),
{
    let ghost ov = os_list.deep_view();
    let mut i: usize = 0;
    while i < os_list.len()
        invariant
            i <= os_list@.len(),
            ov == os_list.deep_view(),
            forall|i2: int, j: int|
                0 <= i2 < i && 0 <= j < t@.platforms.len() ==> lower_of(
                    #[trigger] t@.platforms[j],
                ) != lower_of(#[trigger] ov[i2]),
        decreases os_list@.len() - i,
    {
        let os_low = to_lower(os_list[i].as_str());
        let mut j: usize = 0;
        while j < t.platforms.len()
            invariant
                j <= t.platforms@.len(),
                i < os_list@.len(),
                ov == os_list.deep_view(),
                os_low@ == lower_of(ov[i as int]),
                forall|j2: int|
                    0 <= j2 < j ==> lower_of(#[trigger] t@.platforms[j2]) != lower_of(
                        ov[i as int],
                    ),
            decreases t.platforms@.len() - j,
        {
            let p_low = to_lower(t.platforms[j].as_str());
            if str_eq(p_low.as_str(), os_low.as_str()) {
                proof {
                    assert(lower_of(t@.platforms[j as int]) == lower_of(ov[i as int]));
                }
                return true;
            }
            j += 1;
        }
        i += 1;
    }
    false
}

/// Whether the label occurs as a substring of some requested software
/// name, lower-cased: the keyword match of the group correlation.
pub open spec fn keyword_matches_software(k: Seq<char>, software: Seq<Seq<char>>) -> bool {
    exists|i: int| 0 <= i < software.len() && is_substring(k, lower_of(#[trigger] software[i]))
}

/// Whether the technique this `mid` resolves to carries the label `k`;
/// false when the reference does not resolve.
pub open spec fn label_of_ref(ts: Seq<TechniqueView>, mid: Seq<char>, k: Seq<char>) -> bool {
    match find_technique_spec(ts, mid) {
        Some(t) => t.labels.contains(k),
        None => false,
    }
}

/// Whether the group has `k` as a matched keyword: `k` labels one of its
/// resolved technique references and matches some requested software name.
pub open spec fn group_has_keyword(
    g: GroupView,
    ts: Seq<TechniqueView>,
    software: Seq<Seq<char>>,
    k: Seq<char>,
) -> bool {
    keyword_matches_software(k, software) && exists|ri: int|
        0 <= ri < g.techniques.len() && label_of_ref(ts, #[trigger] g.techniques[ri], k)
}

/// As [`group_has_keyword`], over the first `n` technique references only.
pub open spec fn ref_prefix_has_keyword(
    g: GroupView,
    ts: Seq<TechniqueView>,
    software: Seq<Seq<char>>,
    k: Seq<char>,
    n: int,
) -> bool {
    keyword_matches_software(k, software) && exists|ri: int|
        0 <= ri < n && label_of_ref(ts, #[trigger] g.techniques[ri], k)
}

/// The groups having `k` as a matched keyword, in store order.
pub open spec fn groups_with_keyword(
    gs: Seq<GroupView>,
    ts: Seq<TechniqueView>,
    software: Seq<Seq<char>>,
    k: Seq<char>,
) -> Seq<GroupView> {
    gs.filter(|g: GroupView| group_has_keyword(g, ts, software, k))
}

/// What the keyword dimension of the group correlation must satisfy: keys
/// are pairwise distinct, a key is present exactly when some group has it
/// as a matched keyword, and each value lists exactly the groups with that
/// keyword, in store order.
pub open spec fn keyword_map_ok(
    m: Seq<(Seq<char>, Seq<GroupView>)>,
    software: Seq<Seq<char>>,
    gs: Seq<GroupView>,
    ts: Seq<TechniqueView>,
) -> bool {
    &&& keys_distinct(m)
    &&& forall|k: Seq<char>|
        #![trigger has_key(m, k)]
        has_key(m, k) <==> exists|gi: int|
            0 <= gi < gs.len() && group_has_keyword(#[trigger] gs[gi], ts, software, k)
    &&& forall|i: int|
        0 <= i < m.len() ==> (#[trigger] m[i]).1 == groups_with_keyword(gs, ts, software, m[i].0)
}

/// Whether the label matches some requested software name.
fn keyword_matches_software_exec(k: &str, software: &Vec<String>) -> (r: bool)
    ensures
        r == keyword_matches_software(k@, software.deep_view()),
{
    let ghost sv = software.deep_view();
    let needle = to_chars(k);
    let mut i: usize = 0;
    while i < software.len()
        invariant
            i <= software@.len(),
            sv == software.deep_view(),
            needle@ == k@,
            forall|i2: int| 0 <= i2 < i ==> !is_substring(k@, lower_of(#[trigger] sv[i2])),
        decreases software@.len() - i,
    {
        let hay_s = to_lower(software[i].as_str());
        let hay = to_chars(hay_s.as_str());
        if contains_sub(&hay, &needle) {
            proof {
                assert(is_substring(k@, lower_of(sv[i as int])));
            }
            return true;
        }
        i += 1;
    }
    false
}

/// Whether this group has `k` as a matched keyword.
fn group_has_keyword_exec(
    g: &Group,
    ts: &Vec<Technique>,
    software: &Vec<String>,
    k: &str,
) -> (r: bool)
    ensures
        r == group_has_keyword(g@, ts.deep_view(), software.deep_view(), k@),
{
    if !keyword_matches_software_exec(k, software) {
        return false;
    }
    let ghost tsv = ts.deep_view();
    let mut ri: usize = 0;
    while ri < g.techniques.len()
        invariant
            ri <= g.techniques@.len(),
            tsv == ts.deep_view(),
            keyword_matches_software(k@, software.deep_view()),
            forall|r2: int| 0 <= r2 < ri ==> !label_of_ref(tsv, #[trigger] g@.techniques[r2], k@),
        decreases g.techniques@.len() - ri,
    {
        proof {
            assert(g@.techniques[ri as int] == g.techniques@[ri as int]@);
        }
        match find_technique(ts, g.techniques[ri].as_str()) {
            Some(t) => {
                if tagset_contains(&t.labels, k) {
                    proof {
                        assert(find_technique_spec(tsv, g@.techniques[ri as int]) == Some(t@));
                        assert(t@.labels.contains(k@));
                        assert(label_of_ref(tsv, g@.techniques[ri as int], k@));
                        assert(keyword_matches_software(k@, software.deep_view()));
                        assert(exists|r2: int|
                            0 <= r2 < g@.techniques.len() && label_of_ref(
                                tsv,
                                #[trigger] g@.techniques[r2],
                                k@,
                            ));
                        assert(group_has_keyword(g@, tsv, software.deep_view(), k@));
                    }
                    return true;
                }
            },
            None => {},
        }
        ri += 1;
    }
    false
}

/// Collects the groups having `k` as a matched keyword.
fn groups_with_keyword_exec(
    gs: &Vec<Group>,
    ts: &Vec<Technique>,
    software: &Vec<String>,
    k: &str,
) -> (r: Vec<Group>)
    ensures
        r.deep_view() == groups_with_keyword(gs.deep_view(), ts.deep_view(), software.deep_view(), k@),
{
    let ghost gsv = gs.deep_view();
    let ghost tsv = ts.deep_view();
    let ghost sv = software.deep_view();
    let mut r: Vec<Group> = Vec::new();
    let mut i: usize = 0;
    proof {
        reveal(Seq::filter);
        assert(gsv.take(0) =~= Seq::<GroupView>::empty());
    }
    while i < gs.len()
        invariant
            i <= gs@.len(),
            gsv == gs.deep_view(),
            tsv == ts.deep_view(),
            sv == software.deep_view(),
            r.deep_view() =~= groups_with_keyword(gsv.take(i as int), tsv, sv, k@),
        decreases gs@.len() - i,
    {
        let ghost before = r.deep_view();
        if group_has_keyword_exec(&gs[i], ts, software, k) {
            let d = gs[i].duplicate();
            let ghost dv = d@;
            r.push(d);
            proof {
                assert(r.deep_view() =~~= before.push(dv));
            }
        }
        proof {
            reveal(Seq::filter);
            assert(gsv.take(i + 1 as int).drop_last() =~= gsv.take(i as int));
            assert(gsv.take(i + 1 as int).last() == gsv[i as int]);
            assert(r.deep_view() =~= groups_with_keyword(gsv.take(i + 1 as int), tsv, sv, k@));
        }
        i += 1;
    }
    proof {
        assert(gsv.take(gsv.len() as int) =~= gsv);
    }
    r
}

/// Builds the keyword dimension of the group correlation: for every group,
/// every label of every resolved technique reference that matches a
/// requested software name becomes a key, valued with every group having
/// that keyword.
fn groups_by_keyword(
    software: &Vec<String>,
    gs: &Vec<Group>,
    ts: &Vec<Technique>,
) -> (r: Vec<(String, Vec<Group>)>)
    ensures
        keyword_map_ok(r.deep_view(), software.deep_view(), gs.deep_view(), ts.deep_view()),
{
    let ghost gsv = gs.deep_view();
    let ghost tsv = ts.deep_view();
    let ghost sv = software.deep_view();
    let mut r: Vec<(String, Vec<Group>)> = Vec::new();
    let mut gi: usize = 0;
    while gi < gs.len()
        invariant
            gi <= gs@.len(),
            gsv == gs.deep_view(),
            tsv == ts.deep_view(),
            sv == software.deep_view(),
            keys_distinct(r.deep_view()),
            forall|k: Seq<char>|
                #![trigger has_key(r.deep_view(), k)]
                has_key(r.deep_view(), k) <==> exists|g2: int|
                    0 <= g2 < gi && group_has_keyword(#[trigger] gsv[g2], tsv, sv, k),
            forall|e: int|
                0 <= e < r.deep_view().len() ==> (#[trigger] r.deep_view()[e]).1
                    == groups_with_keyword(gsv, tsv, sv, r.deep_view()[e].0),
        decreases gs@.len() - gi,
    {
        let g = &gs[gi];
        proof {
            assert(g@ == gsv[gi as int]);
        }
        let mut ri: usize = 0;
        while ri < g.techniques.len()
            invariant
                ri <= g.techniques@.len(),
                gi < gs@.len(),
                g@ == gsv[gi as int],
                gsv == gs.deep_view(),
                tsv == ts.deep_view(),
                sv == software.deep_view(),
                keys_distinct(r.deep_view()),
                forall|k: Seq<char>|
                    #![trigger has_key(r.deep_view(), k)]
                    has_key(r.deep_view(), k) <==> ((exists|g2: int|
                        0 <= g2 < gi && group_has_keyword(#[trigger] gsv[g2], tsv, sv, k))
                        || ref_prefix_has_keyword(g@, tsv, sv, k, ri as int)),
                forall|e: int|
                    0 <= e < r.deep_view().len() ==> (#[trigger] r.deep_view()[e]).1
                        == groups_with_keyword(gsv, tsv, sv, r.deep_view()[e].0),
            decreases g.techniques@.len() - ri,
        {
            let found = find_technique(ts, g.techniques[ri].as_str());
            match found {
                Some(t) => {
                    let ghost t_v = t@;
                    proof {
                        assert(find_technique_spec(tsv, g@.techniques[ri as int]) == Some(t_v));
                    }
                    let mut li: usize = 0;
                    while li < t.labels.len()
                        invariant
                            li <= t.labels@.len(),
                            ri < g.techniques@.len(),
                            gi < gs@.len(),
                            g@ == gsv[gi as int],
                            t@ == t_v,
                            gsv == gs.deep_view(),
                            tsv == ts.deep_view(),
                            sv == software.deep_view(),
                            find_technique_spec(tsv, g@.techniques[ri as int]) == Some(t_v),
                            keys_distinct(r.deep_view()),
                            forall|k: Seq<char>|
                                #![trigger has_key(r.deep_view(), k)]
                                has_key(r.deep_view(), k) <==> ((exists|g2: int|
                                    0 <= g2 < gi && group_has_keyword(
                                        #[trigger] gsv[g2],
                                        tsv,
                                        sv,
                                        k,
                                    )) || ref_prefix_has_keyword(g@, tsv, sv, k, ri as int) || (
                                keyword_matches_software(k, sv) && t_v.labels.take(
                                    li as int,
                                ).contains(k))),
                            forall|e: int|
                                0 <= e < r.deep_view().len() ==> (#[trigger] r.deep_view()[e]).1
                                    == groups_with_keyword(gsv, tsv, sv, r.deep_view()[e].0),
                        decreases t.labels@.len() - li,
                    {
                        let k = &t.labels[li];
                        proof {
                            assert(k@ == t_v.labels[li as int]);
                        }
                        let ghost before = r.deep_view();
                        if keyword_matches_software_exec(k.as_str(), software) && !map_has_key(
                            &r,
                            k.as_str(),
                        ) {
                            let value = groups_with_keyword_exec(gs, ts, software, k.as_str());
                            let ghost vv = value.deep_view();
                            r.push((k.clone(), value));
                            proof {
                                assert(r.deep_view() =~~= before.push((k@, vv)));
                                assert(has_key(r.deep_view(), k@)) by {
                                    assert(r.deep_view()[before.len() as int].0 == k@);
                                }
                            }
                        }
                        proof {
                            let rv = r.deep_view();
                            assert(t_v.labels.take(li + 1 as int).drop_last() =~= t_v.labels.take(
                                li as int,
                            ));
                            assert forall|k2: Seq<char>| #![trigger has_key(rv, k2)]
                                has_key(rv, k2) <==> ((exists|g2: int|
                                    0 <= g2 < gi && group_has_keyword(
                                        #[trigger] gsv[g2],
                                        tsv,
                                        sv,
                                        k2,
                                    )) || ref_prefix_has_keyword(g@, tsv, sv, k2, ri as int) || (
                                keyword_matches_software(k2, sv) && t_v.labels.take(
                                    li + 1 as int,
                                ).contains(k2))) by {
                                if has_key(rv, k2) {
                                    let w = choose|w: int|
                                        0 <= w < rv.len() && (#[trigger] rv[w]).0 == k2;
                                    if w < before.len() {
                                        assert(has_key(before, k2)) by {
                                            assert(before[w].0 == k2);
                                        }
                                    } else {
                                        // the freshly pushed key
                                        assert(rv[w].0 == t_v.labels[li as int]);
                                        assert(t_v.labels.take(li + 1 as int)[li as int]
                                            == t_v.labels[li as int]);
                                        assert(t_v.labels.take(li + 1 as int).contains(k2));
                                    }
                                }
                                if keyword_matches_software(k2, sv) && t_v.labels.take(
                                    li + 1 as int,
                                ).contains(k2) {
                                    let w = choose|w: int|
                                        0 <= w < li + 1 && #[trigger] t_v.labels.take(
                                            li + 1 as int,
                                        )[w] == k2;
                                    if w < li {
                                        assert(t_v.labels.take(li as int)[w] == k2);
                                        assert(t_v.labels.take(li as int).contains(k2));
                                        assert(has_key(before, k2));
                                        assert(has_key(rv, k2)) by {
                                            let w2 = choose|w2: int|
                                                0 <= w2 < before.len() && (#[trigger] before[w2]).0
                                                    == k2;
                                            assert(rv[w2].0 == k2);
                                        }
                                    } else {
                                        // the label just examined
                                        assert(k2 == t_v.labels[li as int]);
                                        if has_key(before, k2) {
                                            let w2 = choose|w2: int|
                                                0 <= w2 < before.len() && (#[trigger] before[w2]).0
                                                    == k2;
                                            assert(rv[w2].0 == k2);
                                            assert(has_key(rv, k2));
                                        } else {
                                            assert(has_key(rv, k2));
                                        }
                                    }
                                }
                                if (exists|g2: int|
                                    0 <= g2 < gi && group_has_keyword(
                                        #[trigger] gsv[g2],
                                        tsv,
                                        sv,
                                        k2,
                                    )) || ref_prefix_has_keyword(g@, tsv, sv, k2, ri as int) {
                                    assert(has_key(before, k2));
                                    let w2 = choose|w2: int|
                                        0 <= w2 < before.len() && (#[trigger] before[w2]).0 == k2;
                                    assert(rv[w2].0 == k2);
                                }
                            }
                        }
                        li += 1;
                    }
                    proof {
                        assert(t_v.labels.take(t_v.labels.len() as int) =~= t_v.labels);
                        assert forall|k2: Seq<char>| #![trigger has_key(r.deep_view(), k2)]
                            has_key(r.deep_view(), k2) <==> ((exists|g2: int|
                                0 <= g2 < gi && group_has_keyword(#[trigger] gsv[g2], tsv, sv, k2))
                                || ref_prefix_has_keyword(g@, tsv, sv, k2, ri + 1 as int)) by {
                            if ref_prefix_has_keyword(g@, tsv, sv, k2, ri + 1 as int) {
                                let w = choose|w: int|
                                    0 <= w < ri + 1 && label_of_ref(
                                        tsv,
                                        #[trigger] g@.techniques[w],
                                        k2,
                                    );
                                if w < ri {
                                    assert(ref_prefix_has_keyword(g@, tsv, sv, k2, ri as int));
                                } else {
                                    assert(t_v.labels.contains(k2));
                                }
                            }
                            if ref_prefix_has_keyword(g@, tsv, sv, k2, ri as int) {
                                let w = choose|w: int|
                                    0 <= w < ri && label_of_ref(
                                        tsv,
                                        #[trigger] g@.techniques[w],
                                        k2,
                                    );
                                assert(ref_prefix_has_keyword(g@, tsv, sv, k2, ri + 1 as int));
                            }
                            if keyword_matches_software(k2, sv) && t_v.labels.contains(k2) {
                                assert(label_of_ref(tsv, g@.techniques[ri as int], k2));
                                assert(ref_prefix_has_keyword(g@, tsv, sv, k2, ri + 1 as int));
                            }
                        }
                    }
                },
                None => {
                    proof {
                        assert(find_technique_spec(tsv, g@.techniques[ri as int]) is None);
                        assert forall|k2: Seq<char>| #![trigger has_key(r.deep_view(), k2)]
                            has_key(r.deep_view(), k2) <==> ((exists|g2: int|
                                0 <= g2 < gi && group_has_keyword(#[trigger] gsv[g2], tsv, sv, k2))
                                || ref_prefix_has_keyword(g@, tsv, sv, k2, ri + 1 as int)) by {
                            if ref_prefix_has_keyword(g@, tsv, sv, k2, ri + 1 as int) {
                                let w = choose|w: int|
                                    0 <= w < ri + 1 && label_of_ref(
                                        tsv,
                                        #[trigger] g@.techniques[w],
                                        k2,
                                    );
                                assert(w < ri);
                                assert(ref_prefix_has_keyword(g@, tsv, sv, k2, ri as int));
                            }
                            if ref_prefix_has_keyword(g@, tsv, sv, k2, ri as int) {
                                let w = choose|w: int|
                                    0 <= w < ri && label_of_ref(
                                        tsv,
                                        #[trigger] g@.techniques[w],
                                        k2,
                                    );
                                assert(ref_prefix_has_keyword(g@, tsv, sv, k2, ri + 1 as int));
                            }
                        }
                    }
                },
            }
            ri += 1;
        }
        proof {
            assert forall|k2: Seq<char>| #![trigger has_key(r.deep_view(), k2)]
                has_key(r.deep_view(), k2) <==> (exists|g2: int|
                    0 <= g2 < gi + 1 && group_has_keyword(#[trigger] gsv[g2], tsv, sv, k2)) by {
                if ref_prefix_has_keyword(g@, tsv, sv, k2, g.techniques@.len() as int) {
                    assert(group_has_keyword(gsv[gi as int], tsv, sv, k2));
                }
                if exists|g2: int|
                    0 <= g2 < gi + 1 && group_has_keyword(#[trigger] gsv[g2], tsv, sv, k2) {
                    let w = choose|w: int|
                        0 <= w < gi + 1 && group_has_keyword(#[trigger] gsv[w], tsv, sv, k2);
                    if w == gi {
                        assert(ref_prefix_has_keyword(
                            g@,
                            tsv,
                            sv,
                            k2,
                            g.techniques@.len() as int,
                        ));
                    }
                }
            }
        }
        gi += 1;
    }
    r
}

/// How often `mid` occurs in a reference list.
pub open spec fn count_occ(refs: Seq<Seq<char>>, mid: Seq<char>) -> nat
    decreases refs.len(),
{
    if refs.len() == 0 {
        0
    } else {
        count_occ(refs.drop_last(), mid) + (if refs.last() == mid {
            1nat
        } else {
            0nat
        })
    }
}

/// How often the matched groups reference `mid`, occurrences included.
pub open spec fn total_count(gs: Seq<GroupView>, mid: Seq<char>) -> nat
    decreases gs.len(),
{
    if gs.len() == 0 {
        0
    } else {
        total_count(gs.drop_last(), mid) + count_occ(gs.last().techniques, mid)
    }
}

/// How many technique references the groups carry in all.
pub open spec fn total_refs(gs: Seq<GroupView>) -> nat
    decreases gs.len(),
{
    if gs.len() == 0 {
        0
    } else {
        total_refs(gs.drop_last()) + gs.last().techniques.len()
    }
}

proof fn lemma_count_occ_le(refs: Seq<Seq<char>>, mid: Seq<char>)
    ensures
        count_occ(refs, mid) <= refs.len(),
    decreases refs.len(),
{
    if refs.len() > 0 {
        lemma_count_occ_le(refs.drop_last(), mid);
    }
}

proof fn lemma_count_occ_prefix(refs: Seq<Seq<char>>, mid: Seq<char>, j: int)
    requires
        0 <= j <= refs.len(),
    ensures
        count_occ(refs.take(j), mid) <= count_occ(refs, mid),
    decreases refs.len() - j,
{
    if j < refs.len() {
        lemma_count_occ_prefix(refs, mid, j + 1);
        assert(refs.take(j + 1).drop_last() =~= refs.take(j));
    } else {
        assert(refs.take(j) =~= refs);
    }
}

proof fn lemma_total_count_le(gs: Seq<GroupView>, mid: Seq<char>)
    ensures
        total_count(gs, mid) <= total_refs(gs),
    decreases gs.len(),
{
    if gs.len() > 0 {
        lemma_total_count_le(gs.drop_last(), mid);
        lemma_count_occ_le(gs.last().techniques, mid);
    }
}

proof fn lemma_total_refs_prefix(gs: Seq<GroupView>, i: int)
    requires
        0 <= i <= gs.len(),
    ensures
        total_refs(gs.take(i)) <= total_refs(gs),
    decreases gs.len() - i,
{
    if i < gs.len() {
        lemma_total_refs_prefix(gs, i + 1);
        assert(gs.take(i + 1).drop_last() =~= gs.take(i));
    } else {
        assert(gs.take(i) =~= gs);
    }
}

/// The count an association list holds for `k`; 0 when `k` has no entry.
pub open spec fn assoc_count(m: Seq<(Seq<char>, u32)>, k: Seq<char>) -> nat
    decreases m.len(),
{
    if m.len() == 0 {
        0
    } else if m.last().0 == k {
        m.last().1 as nat
    } else {
        assoc_count(m.drop_last(), k)
    }
}

proof fn lemma_assoc_at(m: Seq<(Seq<char>, u32)>, e: int, k: Seq<char>)
    requires
        keys_distinct(m),
        0 <= e < m.len(),
        m[e].0 == k,
    ensures
        assoc_count(m, k) == m[e].1 as nat,
    decreases m.len(),
{
    if e < m.len() - 1 {
        assert(m[m.len() - 1].0 != k);
        assert(keys_distinct(m.drop_last()));
        lemma_assoc_at(m.drop_last(), e, k);
    }
}

proof fn lemma_assoc_update(m: Seq<(Seq<char>, u32)>, e: int, v: u32, k: Seq<char>)
    requires
        keys_distinct(m),
        0 <= e < m.len(),
    ensures
        assoc_count(m.update(e, (m[e].0, v)), k) == (if k == m[e].0 {
            v as nat
        } else {
            assoc_count(m, k)
        }),
    decreases m.len(),
{
    let m2 = m.update(e, (m[e].0, v));
    if e == m.len() - 1 {
        assert(m2.drop_last() =~= m.drop_last());
    } else {
        assert(m[m.len() - 1].0 != m[e].0);
        assert(m2.drop_last() =~= m.drop_last().update(e, (m[e].0, v)));
        assert(keys_distinct(m.drop_last()));
        lemma_assoc_update(m.drop_last(), e, v, k);
    }
}

proof fn lemma_assoc_has_key(m: Seq<(Seq<char>, u32)>, k: Seq<char>)
    requires
        forall|e: int| 0 <= e < m.len() ==> (#[trigger] m[e]).1 >= 1,
    ensures
        has_key(m, k) <==> assoc_count(m, k) >= 1,
    decreases m.len(),
{
    if m.len() > 0 {
        assert(forall|e: int|
            0 <= e < m.drop_last().len() ==> (#[trigger] m.drop_last()[e]).1 >= 1);
        lemma_assoc_has_key(m.drop_last(), k);
        if m.last().0 == k {
            assert(m[m.len() - 1].1 >= 1);
            assert(has_key(m, k));
        } else {
            if has_key(m, k) {
                let w = choose|w: int| 0 <= w < m.len() && (#[trigger] m[w]).0 == k;
                assert(m.drop_last()[w].0 == k);
                assert(has_key(m.drop_last(), k));
            }
            if has_key(m.drop_last(), k) {
                let w = choose|w: int|
                    0 <= w < m.drop_last().len() && (#[trigger] m.drop_last()[w]).0 == k;
                assert(m[w].0 == k);
                assert(has_key(m, k));
            }
        }
    }
}

/// Counts, per technique `mid`, how many references the matched groups
/// hold to it.
fn count_refs_exec(matched: &Vec<Group>) -> (counts: Vec<(String, u32)>)
    requires
        total_refs(matched.deep_view()) <= u32::MAX,
    ensures
        keys_distinct(counts.deep_view()),
        forall|k: Seq<char>|
            #[trigger] assoc_count(counts.deep_view(), k) == total_count(matched.deep_view(), k),
        forall|e: int| 0 <= e < counts.deep_view().len() ==> (#[trigger] counts.deep_view()[e]).1
            >= 1,
{
    let ghost gv = matched.deep_view();
    let mut counts: Vec<(String, u32)> = Vec::new();
    let mut gi: usize = 0;
    proof {
        assert(gv.take(0) =~= Seq::<GroupView>::empty());
    }
    while gi < matched.len()
        invariant
            gi <= matched@.len(),
            gv == matched.deep_view(),
            total_refs(gv) <= u32::MAX,
            keys_distinct(counts.deep_view()),
            forall|k: Seq<char>|
                #[trigger] assoc_count(counts.deep_view(), k) == total_count(gv.take(gi as int), k),
            forall|e: int|
                0 <= e < counts.deep_view().len() ==> (#[trigger] counts.deep_view()[e]).1 >= 1,
        decreases matched@.len() - gi,
    {
        let g = &matched[gi];
        let ghost curv = gv[gi as int];
        proof {
            assert(g@ == curv);
        }
        let mut rj: usize = 0;
        proof {
            assert(curv.techniques.take(0) =~= Seq::<Seq<char>>::empty());
        }
        while rj < g.techniques.len()
            invariant
                rj <= g.techniques@.len(),
                gi < matched@.len(),
                g@ == curv,
                curv == gv[gi as int],
                gv == matched.deep_view(),
                total_refs(gv) <= u32::MAX,
                keys_distinct(counts.deep_view()),
                forall|k: Seq<char>|
                    #[trigger] assoc_count(counts.deep_view(), k) == total_count(
                        gv.take(gi as int),
                        k,
                    ) + count_occ(curv.techniques.take(rj as int), k),
                forall|e: int|
                    0 <= e < counts.deep_view().len() ==> (#[trigger] counts.deep_view()[e]).1 >= 1,
            decreases g.techniques@.len() - rj,
        {
            let mid = &g.techniques[rj];
            let ghost midv = curv.techniques[rj as int];
            proof {
                assert(mid@ == midv);
                assert(curv.techniques.take(rj + 1 as int).drop_last() =~= curv.techniques.take(
                    rj as int,
                ));
                assert(curv.techniques.take(rj + 1 as int).last() == midv);
            }
            // find the entry for this mid, if any
            let mut e: usize = 0;
            let mut found = false;
            while e < counts.len() && !found
                invariant
                    e <= counts@.len(),
                    mid@ == midv,
                    !found ==> forall|e2: int|
                        0 <= e2 < e ==> (#[trigger] counts.deep_view()[e2]).0 != midv,
                    found ==> e < counts@.len() && counts.deep_view()[e as int].0 == midv,
                decreases counts@.len() - e + (if found {
                    0int
                } else {
                    1int
                }),
            {
                if str_eq(counts[e].0.as_str(), mid.as_str()) {
                    proof {
                        assert(counts.deep_view()[e as int].0 == midv);
                    }
                    found = true;
                } else {
                    e += 1;
                }
            }
            let ghost before = counts.deep_view();
            if found {
                let c = counts[e].1;
                proof {
                    lemma_assoc_at(before, e as int, midv);
                    // the incremented count stays within u32
                    lemma_count_occ_prefix(curv.techniques, midv, rj + 1 as int);
                    assert(total_count(gv.take(gi + 1 as int), midv) == total_count(
                        gv.take(gi as int),
                        midv,
                    ) + count_occ(curv.techniques, midv)) by {
                        assert(gv.take(gi + 1 as int).drop_last() =~= gv.take(gi as int));
                        assert(gv.take(gi + 1 as int).last() == curv);
                    }
                    lemma_total_count_le(gv.take(gi + 1 as int), midv);
                    lemma_total_refs_prefix(gv, gi + 1 as int);
                }
                let key = counts[e].0.clone();
                counts.set(e, (key, c + 1));
                proof {
                    assert(counts.deep_view() =~= before.update(e as int, (midv, (c + 1) as u32)));
                    assert((midv, (c + 1) as u32) == (before[e as int].0, (c + 1) as u32));
                    assert forall|k: Seq<char>|
                        #[trigger] assoc_count(counts.deep_view(), k) == total_count(
                            gv.take(gi as int),
                            k,
                        ) + count_occ(curv.techniques.take(rj + 1 as int), k) by {
                        lemma_assoc_update(before, e as int, (c + 1) as u32, k);
                    }
                    assert(keys_distinct(counts.deep_view()));
                    assert forall|e2: int|
                        0 <= e2 < counts.deep_view().len() implies (
                    #[trigger] counts.deep_view()[e2]).1 >= 1 by {
                        if e2 != e {
                            assert(counts.deep_view()[e2] == before[e2]);
                        }
                    }
                }
            } else {
                proof {
                    lemma_assoc_has_key(before, midv);
                    assert(!has_key(before, midv)) by {
                        if has_key(before, midv) {
                            let w = choose|w: int|
                                0 <= w < before.len() && (#[trigger] before[w]).0 == midv;
                        }
                    }
                    assert(assoc_count(before, midv) == 0);
                }
                counts.push((mid.clone(), 1));
                proof {
                    assert(counts.deep_view() =~= before.push((midv, 1u32)));
                    assert forall|k: Seq<char>|
                        #[trigger] assoc_count(counts.deep_view(), k) == total_count(
                            gv.take(gi as int),
                            k,
                        ) + count_occ(curv.techniques.take(rj + 1 as int), k) by {
                        assert(counts.deep_view().drop_last() =~= before);
                        assert(assoc_count(before, k) == total_count(gv.take(gi as int), k)
                            + count_occ(curv.techniques.take(rj as int), k));
                    }
                    assert forall|i2: int, j2: int|
                        0 <= i2 < j2 < counts.deep_view().len() implies (
                    #[trigger] counts.deep_view()[i2]).0 != (
                    #[trigger] counts.deep_view()[j2]).0 by {
                        if j2 == counts.deep_view().len() - 1 {
                            assert(counts.deep_view()[i2] == before[i2]);
                        } else {
                            assert(counts.deep_view()[i2] == before[i2]);
                            assert(counts.deep_view()[j2] == before[j2]);
                        }
                    }
                }
            }
            rj += 1;
        }
        proof {
            assert(curv.techniques.take(curv.techniques.len() as int) =~= curv.techniques);
            assert(gv.take(gi + 1 as int).drop_last() =~= gv.take(gi as int));
            assert(gv.take(gi + 1 as int).last() == curv);
        }
        gi += 1;
    }
    proof {
        assert(gv.take(gv.len() as int) =~= gv);
    }
    counts
}

/// A ranked entry is sound: its technique is what its `mid` resolves to in
/// the snapshot, and its count is the reference count over the matched
/// groups.
pub open spec fn entry_ok(e: TechniqueCountView, gs: Seq<GroupView>, ts: Seq<TechniqueView>) -> bool {
    &&& find_technique_spec(ts, e.technique.mid) == Some(e.technique)
    &&& e.count as nat == total_count(gs, e.technique.mid)
    &&& e.count >= 1
}

/// Whether the ranked entries carry pairwise distinct technique `mid`s.
pub open spec fn entry_mids_distinct(s: Seq<TechniqueCountView>) -> bool {
    forall|i: int, j: int|
        0 <= i < j < s.len() ==> (#[trigger] s[i]).technique.mid != (#[trigger] s[j]).technique.mid
}

/// Ranking order: more references first; equal counts are ordered by
/// technique identifier, ascending, the documented deterministic
/// tie-break.
pub open spec fn rank_le(a: TechniqueCountView, b: TechniqueCountView) -> bool {
    a.count > b.count || (a.count == b.count && lex_le(a.technique.mid, b.technique.mid))
}

/// Whether the list is sorted under the ranking order.
pub open spec fn sorted_rank(s: Seq<TechniqueCountView>) -> bool {
    forall|i: int, j: int| 0 <= i < j < s.len() ==> rank_le(#[trigger] s[i], #[trigger] s[j])
}

proof fn lemma_rank_total(a: TechniqueCountView, b: TechniqueCountView)
    ensures
        rank_le(a, b) || rank_le(b, a),
{
    if a.count == b.count {
        crate::text::lemma_lex_le_total(a.technique.mid, b.technique.mid);
    }
}

proof fn lemma_rank_trans(a: TechniqueCountView, b: TechniqueCountView, c: TechniqueCountView)
    requires
        rank_le(a, b),
        rank_le(b, c),
    ensures
        rank_le(a, c),
{
    if a.count == b.count && b.count == c.count {
        crate::text::lemma_lex_le_trans(a.technique.mid, b.technique.mid, c.technique.mid);
    }
}

/// What the ranking stage must satisfy: sound entries with pairwise
/// distinct technique identifiers, one entry for every counted `mid` that
/// still resolves in the snapshot, sorted by count descending with the
/// identifier as tie-break.
/// Whether some ranked entry carries this technique `mid`.
pub open spec fn lists_entry_mid(s: Seq<TechniqueCountView>, mid: Seq<char>) -> bool {
    exists|i: int| 0 <= i < s.len() && (#[trigger] s[i]).technique.mid == mid
}

pub open spec fn ranking_ok(
    r: Seq<TechniqueCountView>,
    gs: Seq<GroupView>,
    ts: Seq<TechniqueView>,
) -> bool {
    &&& entry_mids_distinct(r)
    &&& forall|i: int| 0 <= i < r.len() ==> entry_ok(#[trigger] r[i], gs, ts)
    &&& forall|mid: Seq<char>|
        #![trigger total_count(gs, mid)]
        (total_count(gs, mid) >= 1 && find_technique_spec(ts, mid) is Some) ==> lists_entry_mid(
            r,
            mid,
        )
    &&& sorted_rank(r)
}

/// Whether `a` ranks at or before `b`.
fn rank_before(a: &TechniqueCount, b: &TechniqueCount) -> (r: bool)
    ensures
        r == rank_le(a@, b@),
{
    if a.count > b.count {
        true
    } else if a.count < b.count {
        false
    } else {
        crate::text::str_lex_le(a.technique.mid.as_str(), b.technique.mid.as_str())
    }
}

/// Sorts ranked entries by insertion, preserving the entry set.
fn sort_ranked(v: &Vec<TechniqueCount>) -> (r: Vec<TechniqueCount>)
    requires
        entry_mids_distinct(v.deep_view()),
    ensures
        sorted_rank(r.deep_view()),
        entry_mids_distinct(r.deep_view()),
        forall|x: TechniqueCountView|
            #![trigger r.deep_view().contains(x)]
            r.deep_view().contains(x) <==> v.deep_view().contains(x),
{
    let ghost vv = v.deep_view();
    let mut out: Vec<TechniqueCount> = Vec::new();
    let mut i: usize = 0;
    proof {
        assert(vv.take(0) =~= Seq::<TechniqueCountView>::empty());
    }
    while i < v.len()
        invariant
            i <= v@.len(),
            vv == v.deep_view(),
            entry_mids_distinct(vv),
            sorted_rank(out.deep_view()),
            forall|x: TechniqueCountView|
                #![trigger out.deep_view().contains(x)]
                out.deep_view().contains(x) <==> vv.take(i as int).contains(x),
            forall|e: int|
                0 <= e < out.deep_view().len() ==> exists|w: int|
                    0 <= w < i && vv[w] == #[trigger] out.deep_view()[e],
            entry_mids_distinct(out.deep_view()),
        decreases v@.len() - i,
    {
        let x = TechniqueCount { technique: v[i].technique.duplicate(), count: v[i].count };
        let ghost xv = x@;
        proof {
            assert(xv == vv[i as int]);
        }
        let mut p: usize = 0;
        while p < out.len() && rank_before(&out[p], &x)
            invariant
                p <= out@.len(),
                xv == x@,
                forall|k: int| 0 <= k < p ==> rank_le(#[trigger] out.deep_view()[k], xv),
            decreases out@.len() - p,
        {
            p += 1;
        }
        proof {
            if p < out.deep_view().len() {
                lemma_rank_total(out.deep_view()[p as int], xv);
                assert(rank_le(xv, out.deep_view()[p as int]));
            }
        }
        let ghost before = out.deep_view();
        out.insert(p, x);
        proof {
            before.insert_ensures(p as int, xv);
            assert(out.deep_view() =~= before.insert(p as int, xv));
            let ndv = out.deep_view();
            // sortedness of the extended list
            assert forall|a: int, b: int| 0 <= a < b < ndv.len() implies rank_le(
                #[trigger] ndv[a],
                #[trigger] ndv[b],
            ) by {
                if b < p {
                    assert(ndv[a] == before[a] && ndv[b] == before[b]);
                } else if b == p {
                    assert(ndv[a] == before[a]);
                    assert(rank_le(before[a], xv));
                } else {
                    // b > p
                    if a < p {
                        assert(ndv[a] == before[a] && ndv[b] == before[b - 1]);
                        if b - 1 == a {
                            assert(rank_le(before[a], xv));
                            assert(rank_le(xv, before[b - 1]) ==> rank_le(ndv[a], ndv[b]));
                            assert(rank_le(before[a], before[b - 1]) || b - 1 == a);
                            if p < before.len() {
                                lemma_rank_trans(before[a], xv, before[p as int]);
                            }
                            assert(rank_le(ndv[a], ndv[b]));
                        } else {
                            assert(rank_le(before[a], before[b - 1]));
                        }
                    } else if a == p {
                        assert(ndv[a] == xv && ndv[b] == before[b - 1]);
                        assert(rank_le(xv, before[p as int]));
                        if b - 1 > p {
                            lemma_rank_trans(xv, before[p as int], before[b - 1]);
                        }
                    } else {
                        assert(ndv[a] == before[a - 1] && ndv[b] == before[b - 1]);
                    }
                }
            }
            // the entry set only gains the inserted element
            assert forall|y: TechniqueCountView| #![trigger ndv.contains(y)]
                ndv.contains(y) <==> (vv.take(i + 1 as int).contains(y)) by {
                assert(vv.take(i + 1 as int).drop_last() =~= vv.take(i as int));
                assert(vv.take(i + 1 as int).last() == vv[i as int]);
                if ndv.contains(y) {
                    let w = choose|w: int| 0 <= w < ndv.len() && ndv[w] == y;
                    if w < p {
                        assert(before[w] == y);
                        assert(before.contains(y));
                        assert(vv.take(i as int).contains(y));
                        let w2 = choose|w2: int|
                            0 <= w2 < i && #[trigger] vv.take(i as int)[w2] == y;
                        assert(vv.take(i + 1 as int)[w2] == y);
                        assert(vv.take(i + 1 as int).contains(y));
                    } else if w == p {
                        assert(y == xv);
                        assert(vv.take(i + 1 as int)[i as int] == y);
                        assert(vv.take(i + 1 as int).contains(y));
                    } else {
                        assert(before[w - 1] == y);
                        assert(before.contains(y));
                        assert(vv.take(i as int).contains(y));
                        let w2 = choose|w2: int|
                            0 <= w2 < i && #[trigger] vv.take(i as int)[w2] == y;
                        assert(vv.take(i + 1 as int)[w2] == y);
                        assert(vv.take(i + 1 as int).contains(y));
                    }
                }
                if vv.take(i + 1 as int).contains(y) {
                    let w = choose|w: int|
                        0 <= w < i + 1 && #[trigger] vv.take(i + 1 as int)[w] == y;
                    if w < i {
                        assert(vv.take(i as int)[w] == y);
                        assert(vv.take(i as int).contains(y));
                        assert(before.contains(y));
                        let w2 = choose|w2: int| 0 <= w2 < before.len() && before[w2] == y;
                        if w2 < p {
                            assert(ndv[w2] == y);
                        } else {
                            assert(ndv[w2 + 1] == y);
                        }
                        assert(ndv.contains(y));
                    } else {
                        assert(y == xv);
                        assert(ndv[p as int] == y);
                        assert(ndv.contains(y));
                    }
                }
            }
            // provenance and distinctness
            assert forall|e: int|
                0 <= e < ndv.len() implies exists|w: int|
                0 <= w < i + 1 && vv[w] == #[trigger] ndv[e] by {
                if e < p {
                    assert(ndv[e] == before[e]);
                    let w = choose|w: int| 0 <= w < i && vv[w] == before[e];
                    assert(vv[w] == ndv[e]);
                } else if e == p {
                    assert(ndv[e] == xv);
                    assert(vv[i as int] == ndv[e]);
                } else {
                    assert(ndv[e] == before[e - 1]);
                    let w = choose|w: int| 0 <= w < i && vv[w] == before[e - 1];
                    assert(vv[w] == ndv[e]);
                }
            }
            assert forall|a: int, b: int| 0 <= a < b < ndv.len() implies (
            #[trigger] ndv[a]).technique.mid != (#[trigger] ndv[b]).technique.mid by {
                let wa = choose|w: int| 0 <= w < i + 1 && vv[w] == ndv[a];
                let wb = choose|w: int| 0 <= w < i + 1 && vv[w] == ndv[b];
                if wa == wb {
                    // both entries would be the same input element; but then
                    // that element would have been in the list before the
                    // insertion as well as inserted now
                    assert(ndv[a] == ndv[b]);
                    if a < p && b == p {
                        assert(before.contains(ndv[a]));
                        assert(vv.take(i as int).contains(xv));
                        let w2 = choose|w2: int|
                            0 <= w2 < i && #[trigger] vv.take(i as int)[w2] == xv;
                        assert(vv[w2] == vv[i as int]);
                        assert(false);
                    } else if a < p && b > p {
                        assert(ndv[a] == before[a] && ndv[b] == before[b - 1]);
                        assert(entry_mids_distinct(before));
                        assert(false);
                    } else if a == p {
                        assert(ndv[b] == before[b - 1]);
                        assert(before.contains(ndv[b]));
                        assert(vv.take(i as int).contains(xv));
                        let w2 = choose|w2: int|
                            0 <= w2 < i && #[trigger] vv.take(i as int)[w2] == xv;
                        assert(vv[w2] == vv[i as int]);
                        assert(false);
                    } else if b < p || (a > p && b > p) {
                        assert(entry_mids_distinct(before));
                        assert(false);
                    }
                } else {
                    let lo = if wa < wb {
                        wa
                    } else {
                        wb
                    };
                    let hi = if wa < wb {
                        wb
                    } else {
                        wa
                    };
                    assert(vv[lo].technique.mid != vv[hi].technique.mid);
                }
            }
        }
        i += 1;
    }
    proof {
        assert(vv.take(vv.len() as int) =~= vv);
    }
    out
}

/// The techniques of the ranked list, in rank order, that carry the
/// tactic tag `tac`.
pub open spec fn ranked_techniques_with_tactic(
    ranked: Seq<TechniqueCountView>,
    tac: Seq<char>,
) -> Seq<TechniqueView> {
    ranked.map_values(|tc: TechniqueCountView| tc.technique).filter(
        |t: TechniqueView| t.tactics.contains(tac),
    )
}

/// Whether some ranked technique carries this tactic tag.
pub open spec fn tactic_mentioned(ranked: Seq<TechniqueCountView>, tac: Seq<char>) -> bool {
    exists|i: int| 0 <= i < ranked.len() && (#[trigger] ranked[i]).technique.tactics.contains(tac)
}

/// What the tactic fan-out must satisfy: keys are pairwise distinct, a key
/// is present exactly when some ranked technique carries the tactic, and
/// each value lists exactly the ranked techniques under it, in rank order —
/// a technique with several tactic tags appears under each of them.
pub open spec fn fanout_ok(
    m: Seq<(Seq<char>, Seq<TechniqueView>)>,
    ranked: Seq<TechniqueCountView>,
) -> bool {
    &&& keys_distinct(m)
    &&& forall|k: Seq<char>| #![trigger has_key(m, k)] has_key(m, k) <==> tactic_mentioned(ranked, k)
    &&& forall|i: int|
        0 <= i < m.len() ==> (#[trigger] m[i]).1 == ranked_techniques_with_tactic(ranked, m[i].0)
}

/// Collects the ranked techniques carrying one tactic tag.
fn techniques_with_tactic_exec(ranked: &Vec<TechniqueCount>, tac: &str) -> (r: Vec<Technique>)
    ensures
        r.deep_view() == ranked_techniques_with_tactic(ranked.deep_view(), tac@),
{
    let ghost rv = ranked.deep_view();
    let ghost f = |tc: TechniqueCountView| tc.technique;
    let ghost p = |t: TechniqueView| t.tactics.contains(tac@);
    let mut r: Vec<Technique> = Vec::new();
    let mut i: usize = 0;
    proof {
        reveal(Seq::filter);
        assert(rv.take(0).map_values(f) =~= Seq::<TechniqueView>::empty());
    }
    while i < ranked.len()
        invariant
            i <= ranked@.len(),
            rv == ranked.deep_view(),
            f == (|tc: TechniqueCountView| tc.technique),
            p == (|t: TechniqueView| t.tactics.contains(tac@)),
            r.deep_view() =~= rv.take(i as int).map_values(f).filter(p),
        decreases ranked@.len() - i,
    {
        let ghost before = r.deep_view();
        if tagset_contains(&ranked[i].technique.tactics, tac) {
            let d = ranked[i].technique.duplicate();
            let ghost dv = d@;
            r.push(d);
            proof {
                assert(r.deep_view() =~~= before.push(dv));
            }
        }
        proof {
            reveal(Seq::filter);
            let m1 = rv.take(i as int).map_values(f);
            let m2 = rv.take(i + 1 as int).map_values(f);
            assert(m2.drop_last() =~= m1);
            assert(m2.last() == rv[i as int].technique);
            assert(r.deep_view() =~= m2.filter(p));
        }
        i += 1;
    }
    proof {
        assert(rv.take(rv.len() as int) =~= rv);
        assert(rv.take(rv.len() as int).map_values(f) =~= rv.map_values(f));
    }
    r
}

/// Every element a filter keeps is an element of the filtered sequence.
proof fn lemma_filter_subset<A>(s: Seq<A>, pred: spec_fn(A) -> bool)
    ensures
        forall|i: int|
            0 <= i < s.filter(pred).len() ==> s.contains(#[trigger] s.filter(pred)[i]),
    decreases s.len(),
{
    reveal(Seq::filter);
    if s.len() > 0 {
        lemma_filter_subset(s.drop_last(), pred);
        assert forall|i: int|
            0 <= i < s.filter(pred).len() implies s.contains(#[trigger] s.filter(pred)[i]) by {
            let fs = s.filter(pred);
            let sub = s.drop_last().filter(pred);
            if pred(s.last()) && i == fs.len() - 1 {
                assert(s[s.len() - 1] == fs[i]);
            } else {
                assert(fs[i] == sub[i]);
                assert(s.drop_last().contains(sub[i]));
                let w = choose|w: int| 0 <= w < s.drop_last().len() && s.drop_last()[w] == sub[i];
                assert(s[w] == fs[i]);
            }
        }
    }
}

/// Every value of a per-dimension group mapping is the matching-group list
/// of its key.
proof fn lemma_tag_group_map_values(keys: Seq<Seq<char>>, gs: Seq<GroupView>, by_country: bool)
    ensures
        forall|e: int|
            0 <= e < tag_group_map(keys, gs, by_country).len() ==> (#[trigger] tag_group_map(
                keys,
                gs,
                by_country,
            )[e]).1 == groups_with_tag(gs, tag_group_map(keys, gs, by_country)[e].0, by_country),
    decreases keys.len(),
{
    if keys.len() > 0 {
        lemma_tag_group_map_values(keys.drop_last(), gs, by_country);
        let rest = tag_group_map(keys.drop_last(), gs, by_country);
        let whole = tag_group_map(keys, gs, by_country);
        assert forall|e: int|
            0 <= e < whole.len() implies (#[trigger] whole[e]).1 == groups_with_tag(
            gs,
            whole[e].0,
            by_country,
        ) by {
            if e < rest.len() {
                assert(whole[e] == rest[e]);
            }
        }
    }
}

proof fn lemma_total_refs_remove(gs: Seq<GroupView>, k: int)
    requires
        0 <= k < gs.len(),
    ensures
        total_refs(gs) == total_refs(gs.remove(k)) + gs[k].techniques.len(),
    decreases gs.len(),
{
    if k == gs.len() - 1 {
        assert(gs.remove(k) =~= gs.drop_last());
    } else {
        assert(gs.remove(k).drop_last() =~= gs.drop_last().remove(k));
        assert(gs.remove(k).last() == gs.last());
        lemma_total_refs_remove(gs.drop_last(), k);
    }
}

/// A list of groups with pairwise distinct identifiers, each of which
/// occurs in the store snapshot, carries no more technique references than
/// the snapshot does.
proof fn lemma_total_refs_subset(sub: Seq<GroupView>, gs: Seq<GroupView>)
    requires
        crate::parser::mids_distinct(sub),
        forall|i: int| 0 <= i < sub.len() ==> gs.contains(#[trigger] sub[i]),
    ensures
        total_refs(sub) <= total_refs(gs),
    decreases sub.len(),
{
    if sub.len() > 0 {
        let g = sub.last();
        assert(gs.contains(g));
        let k = choose|k: int| 0 <= k < gs.len() && gs[k] == g;
        let gs2 = gs.remove(k);
        gs.remove_ensures(k);
        assert forall|i: int|
            0 <= i < sub.drop_last().len() implies gs2.contains(
            #[trigger] sub.drop_last()[i],
        ) by {
            let x = sub.drop_last()[i];
            assert(x == sub[i]);
            assert(gs.contains(x));
            let w = choose|w: int| 0 <= w < gs.len() && gs[w] == x;
            assert(x.mid != g.mid);
            assert(w != k);
            if w < k {
                assert(gs2[w] == gs[w]);
                assert(gs2.contains(x));
            } else {
                assert(gs2[w - 1] == gs[w]);
                assert(gs2.contains(x));
            }
        }
        assert(crate::parser::mids_distinct(sub.drop_last()));
        lemma_total_refs_subset(sub.drop_last(), gs2);
        lemma_total_refs_remove(gs, k);
    }
}

impl InputData {
    /// The platform technique working set: the techniques, in store order
    /// and each once, that run on one of the requested operating systems.
    /// Informational; later stages do not depend on it.
    pub fn platform_techniques(&self, all_techniques: &Vec<Technique>) -> (r: Vec<Technique>)
        ensures
            r.deep_view() == all_techniques.deep_view().filter(
                |t: TechniqueView| on_platform(t, self@.operating_systems),
            ),
    {
        let ghost tv = all_techniques.deep_view();
        let mut r: Vec<Technique> = Vec::new();
        let mut i: usize = 0;
        proof {
            reveal(Seq::filter);
            assert(tv.take(0) =~= Seq::<TechniqueView>::empty());
        }
        while i < all_techniques.len()
            invariant
                i <= all_techniques@.len(),
                tv == all_techniques.deep_view(),
                r.deep_view() =~= tv.take(i as int).filter(
                    |t: TechniqueView| on_platform(t, self@.operating_systems),
                ),
            decreases all_techniques@.len() - i,
        {
            let ghost before = r.deep_view();
            if on_platform_exec(&all_techniques[i], &self.operating_systems) {
                let d = all_techniques[i].duplicate();
                let ghost dv = d@;
                r.push(d);
                proof {
                    assert(r.deep_view() =~~= before.push(dv));
                }
            }
            proof {
                reveal(Seq::filter);
                assert(tv.take(i + 1 as int).drop_last() =~= tv.take(i as int));
                assert(tv.take(i + 1 as int).last() == tv[i as int]);
                assert(r.deep_view() =~= tv.take(i + 1 as int).filter(
                    |t: TechniqueView| on_platform(t, self@.operating_systems),
                ));
            }
            i += 1;
        }
        proof {
            assert(tv.take(tv.len() as int) =~= tv);
        }
        r
    }

    /// The group correlation: one mapping per dimension (country, sector,
    /// keyword), kept separate.
    pub fn groups(&self, all_groups: &Vec<Group>, all_techniques: &Vec<Technique>) -> (r:
        GroupResult)
        ensures
            r@.countries == tag_group_map(self@.countries, all_groups.deep_view(), true),
            r@.sectors == tag_group_map(self@.sectors, all_groups.deep_view(), false),
            keyword_map_ok(
                r@.keywords,
                self@.software,
                all_groups.deep_view(),
                all_techniques.deep_view(),
            ),
    {
        GroupResult {
            countries: groups_by_dimension(&self.countries, all_groups, true),
            sectors: groups_by_dimension(&self.sectors, all_groups, false),
            keywords: groups_by_keyword(&self.software, all_groups, all_techniques),
        }
    }

    /// The technique ranking: one entry per technique the matched groups
    /// reference, counted with multiplicity and resolved in the snapshot
    /// (unresolvable references are skipped), sorted by count descending
    /// with the identifier ascending as tie-break.
    pub fn techniques(&self, groups: &Vec<Group>, all_techniques: &Vec<Technique>) -> (r: Vec<
        TechniqueCount,
    >)
        requires
            total_refs(groups.deep_view()) <= u32::MAX,
        ensures
            ranking_ok(r.deep_view(), groups.deep_view(), all_techniques.deep_view()),
    {
        let ghost gsv = groups.deep_view();
        let ghost tsv = all_techniques.deep_view();
        let counts = count_refs_exec(groups);
        let ghost cv = counts.deep_view();
        let mut list: Vec<TechniqueCount> = Vec::new();
        let mut i: usize = 0;
        while i < counts.len()
            invariant
                i <= counts@.len(),
                cv == counts.deep_view(),
                gsv == groups.deep_view(),
                tsv == all_techniques.deep_view(),
                keys_distinct(cv),
                forall|k: Seq<char>| #[trigger] assoc_count(cv, k) == total_count(gsv, k),
                forall|e: int| 0 <= e < cv.len() ==> (#[trigger] cv[e]).1 >= 1,
                forall|e: int|
                    0 <= e < list.deep_view().len() ==> entry_ok(
                        #[trigger] list.deep_view()[e],
                        gsv,
                        tsv,
                    ),
                forall|e: int|
                    0 <= e < list.deep_view().len() ==> exists|w: int|
                        0 <= w < i && (#[trigger] list.deep_view()[e]).technique.mid == cv[w].0,
                entry_mids_distinct(list.deep_view()),
                forall|ci: int|
                    0 <= ci < i && find_technique_spec(tsv, (#[trigger] cv[ci]).0) is Some
                        ==> lists_entry_mid(list.deep_view(), cv[ci].0),
            decreases counts@.len() - i,
        {
            let key = &counts[i].0;
            let c = counts[i].1;
            proof {
                assert(key@ == cv[i as int].0);
                assert(c == cv[i as int].1);
            }
            let ghost before = list.deep_view();
            match find_technique(all_techniques, key.as_str()) {
                Some(t) => {
                    let ghost t_v = t@;
                    proof {
                        assert(find_technique_spec(tsv, cv[i as int].0) == Some(t_v));
                        assert(t_v.mid == cv[i as int].0) by {
                            lemma_find_mid(tsv, cv[i as int].0);
                        }
                        lemma_assoc_at(cv, i as int, cv[i as int].0);
                    }
                    let tc = TechniqueCount { technique: t, count: c };
                    let ghost tcv = tc@;
                    list.push(tc);
                    proof {
                        assert(list.deep_view() =~~= before.push(tcv));
                        assert(entry_ok(tcv, gsv, tsv));
                        assert forall|e: int|
                            0 <= e < list.deep_view().len() implies exists|w: int|
                            0 <= w < i + 1 && (#[trigger] list.deep_view()[e]).technique.mid
                                == cv[w].0 by {
                            if e < before.len() {
                                assert(list.deep_view()[e] == before[e]);
                                let w = choose|w: int|
                                    0 <= w < i && (#[trigger] before[e]).technique.mid == cv[w].0;
                            } else {
                                assert(list.deep_view()[e].technique.mid == cv[i as int].0);
                            }
                        }
                        assert forall|a: int, b: int|
                            0 <= a < b < list.deep_view().len() implies (
                        #[trigger] list.deep_view()[a]).technique.mid != (
                        #[trigger] list.deep_view()[b]).technique.mid by {
                            if b == list.deep_view().len() - 1 {
                                assert(list.deep_view()[a] == before[a]);
                                let w = choose|w: int|
                                    0 <= w < i && (#[trigger] before[a]).technique.mid == cv[w].0;
                                assert(cv[w].0 != cv[i as int].0);
                            } else {
                                assert(list.deep_view()[a] == before[a]);
                                assert(list.deep_view()[b] == before[b]);
                            }
                        }
                        assert forall|ci: int|
                            0 <= ci < i + 1 && find_technique_spec(
                                tsv,
                                (#[trigger] cv[ci]).0,
                            ) is Some implies lists_entry_mid(list.deep_view(), cv[ci].0) by {
                            if ci < i {
                                assert(lists_entry_mid(before, cv[ci].0));
                                let w = choose|w: int|
                                    0 <= w < before.len() && (#[trigger] before[w]).technique.mid
                                        == cv[ci].0;
                                assert(list.deep_view()[w].technique.mid == cv[ci].0);
                            } else {
                                assert(list.deep_view()[before.len() as int].technique.mid
                                    == cv[ci].0);
                            }
                        }
                    }
                },
                None => {
                    proof {
                        assert(find_technique_spec(tsv, cv[i as int].0) is None);
                        assert forall|ci: int|
                            0 <= ci < i + 1 && find_technique_spec(
                                tsv,
                                (#[trigger] cv[ci]).0,
                            ) is Some implies lists_entry_mid(list.deep_view(), cv[ci].0) by {
                            assert(ci < i);
                        }
                    }
                },
            }
            i += 1;
        }
        let sorted = sort_ranked(&list);
        proof {
            let sv = sorted.deep_view();
            let lv = list.deep_view();
            assert forall|e: int| 0 <= e < sv.len() implies entry_ok(#[trigger] sv[e], gsv, tsv) by {
                assert(sv.contains(sv[e]));
                assert(lv.contains(sv[e]));
                let w = choose|w: int| 0 <= w < lv.len() && lv[w] == sv[e];
            }
            assert forall|mid: Seq<char>|
                #![trigger total_count(gsv, mid)]
                (total_count(gsv, mid) >= 1 && find_technique_spec(tsv, mid) is Some)
                    implies lists_entry_mid(sv, mid) by {
                assert(assoc_count(cv, mid) == total_count(gsv, mid));
                lemma_assoc_has_key(cv, mid);
                assert(has_key(cv, mid));
                let ci = choose|ci: int| 0 <= ci < cv.len() && (#[trigger] cv[ci]).0 == mid;
                assert(lists_entry_mid(lv, cv[ci].0));
                let w = choose|w: int|
                    0 <= w < lv.len() && (#[trigger] lv[w]).technique.mid == mid;
                assert(lv.contains(lv[w]));
                assert(sv.contains(lv[w]));
                let w2 = choose|w2: int| 0 <= w2 < sv.len() && sv[w2] == lv[w];
                assert(sv[w2].technique.mid == mid);
            }
        }
        sorted
    }

    /// The tactic fan-out: for every ranked technique, every tactic tag it
    /// carries maps to the ranked techniques under that tactic.
    pub fn tactics(&self, techniques: &Vec<TechniqueCount>) -> (r: Vec<(String, Vec<Technique>)>)
        ensures
            fanout_ok(r.deep_view(), techniques.deep_view()),
    {
        let ghost rv = techniques.deep_view();
        let mut r: Vec<(String, Vec<Technique>)> = Vec::new();
        let mut i: usize = 0;
        while i < techniques.len()
            invariant
                i <= techniques@.len(),
                rv == techniques.deep_view(),
                keys_distinct(r.deep_view()),
                forall|k: Seq<char>|
                    #![trigger has_key(r.deep_view(), k)]
                    has_key(r.deep_view(), k) <==> tactic_mentioned(rv.take(i as int), k),
                forall|e: int|
                    0 <= e < r.deep_view().len() ==> (#[trigger] r.deep_view()[e]).1
                        == ranked_techniques_with_tactic(rv, r.deep_view()[e].0),
            decreases techniques@.len() - i,
        {
            let tc = &techniques[i];
            let ghost tcv = rv[i as int];
            proof {
                assert(tc@ == tcv);
            }
            let mut ti: usize = 0;
            while ti < tc.technique.tactics.len()
                invariant
                    ti <= tc.technique.tactics@.len(),
                    i < techniques@.len(),
                    tc@ == tcv,
                    tcv == rv[i as int],
                    rv == techniques.deep_view(),
                    keys_distinct(r.deep_view()),
                    forall|k: Seq<char>|
                        #![trigger has_key(r.deep_view(), k)]
                        has_key(r.deep_view(), k) <==> (tactic_mentioned(rv.take(i as int), k)
                            || tcv.technique.tactics.take(ti as int).contains(k)),
                    forall|e: int|
                        0 <= e < r.deep_view().len() ==> (#[trigger] r.deep_view()[e]).1
                            == ranked_techniques_with_tactic(rv, r.deep_view()[e].0),
                decreases tc.technique.tactics@.len() - ti,
            {
                let tac = &tc.technique.tactics[ti];
                proof {
                    assert(tac@ == tcv.technique.tactics[ti as int]);
                }
                let ghost before = r.deep_view();
                if !map_has_key(&r, tac.as_str()) {
                    let value = techniques_with_tactic_exec(techniques, tac.as_str());
                    let ghost vv = value.deep_view();
                    r.push((tac.clone(), value));
                    proof {
                        assert(r.deep_view() =~~= before.push((tac@, vv)));
                        assert(has_key(r.deep_view(), tac@)) by {
                            assert(r.deep_view()[before.len() as int].0 == tac@);
                        }
                        assert forall|a: int, b: int|
                            0 <= a < b < r.deep_view().len() implies (
                        #[trigger] r.deep_view()[a]).0 != (#[trigger] r.deep_view()[b]).0 by {
                            if b == r.deep_view().len() - 1 {
                                assert(r.deep_view()[a] == before[a]);
                                if r.deep_view()[a].0 == tac@ {
                                    assert(has_key(before, tac@));
                                }
                            } else {
                                assert(r.deep_view()[a] == before[a]);
                                assert(r.deep_view()[b] == before[b]);
                            }
                        }
                    }
                }
                proof {
                    let ndv = r.deep_view();
                    assert(tcv.technique.tactics.take(ti + 1 as int).drop_last()
                        =~= tcv.technique.tactics.take(ti as int));
                    assert(tcv.technique.tactics.take(ti + 1 as int).last()
                        == tcv.technique.tactics[ti as int]);
                    assert forall|k: Seq<char>| #![trigger has_key(ndv, k)]
                        has_key(ndv, k) <==> (tactic_mentioned(rv.take(i as int), k)
                            || tcv.technique.tactics.take(ti + 1 as int).contains(k)) by {
                        if has_key(ndv, k) {
                            let w = choose|w: int| 0 <= w < ndv.len() && (#[trigger] ndv[w]).0 == k;
                            if w < before.len() {
                                assert(has_key(before, k)) by {
                                    assert(before[w].0 == k);
                                }
                                if tcv.technique.tactics.take(ti as int).contains(k) {
                                    let w2 = choose|w2: int|
                                        0 <= w2 < ti && #[trigger] tcv.technique.tactics.take(
                                            ti as int,
                                        )[w2] == k;
                                    assert(tcv.technique.tactics.take(ti + 1 as int)[w2] == k);
                                    assert(tcv.technique.tactics.take(ti + 1 as int).contains(k));
                                }
                            } else {
                                assert(ndv[w].0 == tcv.technique.tactics[ti as int]);
                                assert(tcv.technique.tactics.take(ti + 1 as int)[ti as int] == k);
                                assert(tcv.technique.tactics.take(ti + 1 as int).contains(k));
                            }
                        }
                        if tcv.technique.tactics.take(ti + 1 as int).contains(k) {
                            let w = choose|w: int|
                                0 <= w < ti + 1 && #[trigger] tcv.technique.tactics.take(
                                    ti + 1 as int,
                                )[w] == k;
                            if w < ti {
                                assert(tcv.technique.tactics.take(ti as int)[w] == k);
                                assert(tcv.technique.tactics.take(ti as int).contains(k));
                                assert(has_key(before, k));
                                let w2 = choose|w2: int|
                                    0 <= w2 < before.len() && (#[trigger] before[w2]).0 == k;
                                assert(ndv[w2].0 == k);
                                assert(has_key(ndv, k));
                            } else {
                                assert(k == tcv.technique.tactics[ti as int]);
                                if has_key(before, k) {
                                    let w2 = choose|w2: int|
                                        0 <= w2 < before.len() && (#[trigger] before[w2]).0 == k;
                                    assert(ndv[w2].0 == k);
                                    assert(has_key(ndv, k));
                                } else {
                                    assert(has_key(ndv, k));
                                }
                            }
                        }
                        if tactic_mentioned(rv.take(i as int), k) {
                            assert(has_key(before, k));
                            let w2 = choose|w2: int|
                                0 <= w2 < before.len() && (#[trigger] before[w2]).0 == k;
                            assert(ndv[w2].0 == k);
                            assert(has_key(ndv, k));
                        }
                    }
                }
                ti += 1;
            }
            proof {
                assert(tcv.technique.tactics.take(tcv.technique.tactics.len() as int)
                    =~= tcv.technique.tactics);
                assert forall|k: Seq<char>| #![trigger has_key(r.deep_view(), k)]
                    has_key(r.deep_view(), k) <==> tactic_mentioned(rv.take(i + 1 as int), k) by {
                    assert(rv.take(i + 1 as int).drop_last() =~= rv.take(i as int));
                    assert(rv.take(i + 1 as int).last() == tcv);
                    if tactic_mentioned(rv.take(i as int), k) {
                        let w = choose|w: int|
                            0 <= w < i && (#[trigger] rv.take(i as int)[w]).technique.tactics.contains(
                                k,
                            );
                        assert(rv.take(i + 1 as int)[w].technique.tactics.contains(k));
                        assert(tactic_mentioned(rv.take(i + 1 as int), k));
                    }
                    if tcv.technique.tactics.contains(k) {
                        assert(rv.take(i + 1 as int)[i as int].technique.tactics.contains(k));
                        assert(tactic_mentioned(rv.take(i + 1 as int), k));
                    }
                    if tactic_mentioned(rv.take(i + 1 as int), k) {
                        let w = choose|w: int|
                            0 <= w < i + 1 && (#[trigger] rv.take(
                                i + 1 as int,
                            )[w]).technique.tactics.contains(k);
                        if w < i {
                            assert(rv.take(i as int)[w].technique.tactics.contains(k));
                            assert(tactic_mentioned(rv.take(i as int), k));
                        } else {
                            assert(tcv.technique.tactics.contains(k));
                        }
                    }
                }
            }
            i += 1;
        }
        proof {
            assert(rv.take(rv.len() as int) =~= rv);
        }
        r
    }

    /// Runs the correlation pipeline: group matching per dimension, the
    /// matched-group union, technique ranking, tactic fan-out, and CVE
    /// correlation, assembled into the report.  The procedure and
    /// mitigation fields are reserved and stay empty.
    pub fn analyze(
        &self,
        all_groups: &Vec<Group>,
        all_techniques: &Vec<Technique>,
        all_cves: &Vec<CveRecord>,
    ) -> (r: OutputData)
        requires
            total_refs(all_groups.deep_view()) <= u32::MAX,
        ensures
            r.groups@.countries == tag_group_map(self@.countries, all_groups.deep_view(), true),
            r.groups@.sectors == tag_group_map(self@.sectors, all_groups.deep_view(), false),
            keyword_map_ok(
                r.groups@.keywords,
                self@.software,
                all_groups.deep_view(),
                all_techniques.deep_view(),
            ),
            exists|matched: Seq<GroupView>|
                #![trigger crate::parser::union_ok(matched, r.groups@)]
                crate::parser::union_ok(matched, r.groups@) && ranking_ok(
                    r.techniques.deep_view(),
                    matched,
                    all_techniques.deep_view(),
                ),
            fanout_ok(r.tactics.deep_view(), r.techniques.deep_view()),
            r.cves.deep_view() == cve_map(self@.software, all_cves.deep_view()),
            r.procedures@.len() == 0,
            r.mitigations@.len() == 0,
    {
        let ghost gsv = all_groups.deep_view();
        let ghost tsv = all_techniques.deep_view();
        let groups_res = self.groups(all_groups, all_techniques);
        let matched = groups_res.groups();
        proof {
            let mv = matched.deep_view();
            // every matched group occurs in the snapshot, so the reference
            // total stays within the counter bound
            assert forall|i: int| 0 <= i < mv.len() implies gsv.contains(#[trigger] mv[i]) by {
                let x = mv[i];
                if crate::parser::map_holds_group(groups_res@.countries, x) {
                    let e = choose|e: int|
                        0 <= e < groups_res@.countries.len() && (
                        #[trigger] groups_res@.countries[e]).1.contains(x);
                    lemma_tag_group_map_values(self@.countries, gsv, true);
                    assert(groups_res@.countries[e].1 == groups_with_tag(
                        gsv,
                        groups_res@.countries[e].0,
                        true,
                    ));
                    lemma_filter_subset(gsv, |g: GroupView| g.countries.contains(
                        groups_res@.countries[e].0,
                    ));
                    let w = choose|w: int|
                        0 <= w < groups_res@.countries[e].1.len() && groups_res@.countries[e].1[w]
                            == x;
                    assert(gsv.contains(x));
                } else if crate::parser::map_holds_group(groups_res@.sectors, x) {
                    let e = choose|e: int|
                        0 <= e < groups_res@.sectors.len() && (
                        #[trigger] groups_res@.sectors[e]).1.contains(x);
                    lemma_tag_group_map_values(self@.sectors, gsv, false);
                    assert(groups_res@.sectors[e].1 == groups_with_tag(
                        gsv,
                        groups_res@.sectors[e].0,
                        false,
                    ));
                    lemma_filter_subset(gsv, |g: GroupView| g.sectors.contains(
                        groups_res@.sectors[e].0,
                    ));
                    let w = choose|w: int|
                        0 <= w < groups_res@.sectors[e].1.len() && groups_res@.sectors[e].1[w]
                            == x;
                    assert(gsv.contains(x));
                } else {
                    assert(crate::parser::map_holds_group(groups_res@.keywords, x));
                    let e = choose|e: int|
                        0 <= e < groups_res@.keywords.len() && (
                        #[trigger] groups_res@.keywords[e]).1.contains(x);
                    assert(groups_res@.keywords[e].1 == groups_with_keyword(
                        gsv,
                        tsv,
                        self@.software,
                        groups_res@.keywords[e].0,
                    ));
                    lemma_filter_subset(gsv, |g: GroupView| group_has_keyword(
                        g,
                        tsv,
                        self@.software,
                        groups_res@.keywords[e].0,
                    ));
                    let w = choose|w: int|
                        0 <= w < groups_res@.keywords[e].1.len() && groups_res@.keywords[e].1[w]
                            == x;
                    assert(gsv.contains(x));
                }
            }
            lemma_total_refs_subset(mv, gsv);
        }
        let ranked = self.techniques(&matched, all_techniques);
        let tactics = self.tactics(&ranked);
        let cves = self.cves(all_cves);
        let ghost matched_v = matched.deep_view();
        let r = OutputData {
            groups: groups_res,
            techniques: ranked,
            tactics,
            cves,
            procedures: Vec::new(),
            mitigations: Vec::new(),
        };
        proof {
            assert(crate::parser::union_ok(matched_v, r.groups@) && ranking_ok(
                r.techniques.deep_view(),
                matched_v,
                all_techniques.deep_view(),
            ));
        }
        r
    }

    /// As [`InputData::analyze`], for callers that cannot establish the
    /// counter bound themselves: counts the technique references first and
    /// returns `None` exactly when they would overflow the ranking counter.
    pub fn checked_analyze(
        &self,
        all_groups: &Vec<Group>,
        all_techniques: &Vec<Technique>,
        all_cves: &Vec<CveRecord>,
    ) -> (r: Option<OutputData>)
        ensures
            r is Some <==> total_refs(all_groups.deep_view()) <= u32::MAX,
            match r {
                Some(out) => {
                    &&& out.groups@.countries == tag_group_map(
                        self@.countries,
                        all_groups.deep_view(),
                        true,
                    )
                    &&& out.groups@.sectors == tag_group_map(
                        self@.sectors,
                        all_groups.deep_view(),
                        false,
                    )
                    &&& keyword_map_ok(
                        out.groups@.keywords,
                        self@.software,
                        all_groups.deep_view(),
                        all_techniques.deep_view(),
                    )
                    &&& exists|matched: Seq<GroupView>|
                        #![trigger crate::parser::union_ok(matched, out.groups@)]
                        crate::parser::union_ok(matched, out.groups@) && ranking_ok(
                            out.techniques.deep_view(),
                            matched,
                            all_techniques.deep_view(),
                        )
                    &&& fanout_ok(out.tactics.deep_view(), out.techniques.deep_view())
                    &&& out.cves.deep_view() == cve_map(self@.software, all_cves.deep_view())
                    &&& out.procedures@.len() == 0
                    &&& out.mitigations@.len() == 0
                },
                None => true,
            },
    {
        let ghost gsv = all_groups.deep_view();
        let mut total: u128 = 0;
        let mut i: usize = 0;
        proof {
            assert(gsv.take(0) =~= Seq::<GroupView>::empty());
        }
        while i < all_groups.len()
            invariant
                i <= all_groups@.len(),
                gsv == all_groups.deep_view(),
                total == total_refs(gsv.take(i as int)),
                total <= (i as u128) * (usize::MAX as u128),
            decreases all_groups@.len() - i,
        {
            proof {
                assert(gsv.take(i + 1 as int).drop_last() =~= gsv.take(i as int));
                assert(gsv.take(i + 1 as int).last() == gsv[i as int]);
                assert((i as u128 + 1) * (usize::MAX as u128) == (i as u128) * (usize::MAX as u128)
                    + (usize::MAX as u128)) by (nonlinear_arith);
                assert((i as u128) * (usize::MAX as u128) <= (usize::MAX as u128) * (
                usize::MAX as u128)) by (nonlinear_arith)
                    requires
                        i <= usize::MAX,
                ;
            }
            let n = all_groups[i].techniques.len();
            proof {
                assert(gsv[i as int].techniques.len() == n);
            }
            total = total + n as u128;
            i += 1;
        }
        proof {
            assert(gsv.take(gsv.len() as int) =~= gsv);
        }
        if total > u32::MAX as u128 {
            return None;
        }
        Some(self.analyze(all_groups, all_techniques, all_cves))
    }

    /// Stage E, independent of group matching: for every requested software
    /// name, the CVE records whose description contains it.
    pub fn cves(&self, all_cves: &Vec<CveRecord>) -> (r: Vec<(String, Vec<CveRecord>)>)
        ensures
            r.deep_view() == cve_map(self@.software, all_cves.deep_view()),
    {
        let ghost sv = self.software.deep_view();
        let ghost cv = all_cves.deep_view();
        let mut r: Vec<(String, Vec<CveRecord>)> = Vec::new();
        let mut i: usize = 0;
        proof {
            assert(sv.take(0) =~= Seq::<Seq<char>>::empty());
        }
        while i < self.software.len()
            invariant
                i <= self.software@.len(),
                sv == self.software.deep_view(),
                cv == all_cves.deep_view(),
                r.deep_view() =~= cve_map(sv.take(i as int), cv),
            decreases self.software@.len() - i,
        {
            proof {
                assert(sv.take(i + 1 as int).drop_last() =~= sv.take(i as int));
                assert(sv.take(i + 1 as int).last() == sv[i as int]);
                assert(self.software@[i as int]@ == sv[i as int]);
            }
            let key = &self.software[i];
            if !map_has_key(&r, key.as_str()) {
                let matching = cves_matching_exec(all_cves, key.as_str());
                if matching.len() > 0 {
                    let ghost before = r.deep_view();
                    let ghost mv = matching.deep_view();
                    r.push((key.clone(), matching));
                    proof {
                        assert(r.deep_view() =~~= before.push((sv[i as int], mv)));
                    }
                }
            }
            i += 1;
        }
        proof {
            assert(sv.take(sv.len() as int) =~= sv);
        }
        r
    }
}

} // verus!
