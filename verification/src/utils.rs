//! Catalog queries over the group store: the distinct target countries and
//! target sectors, sorted.

use vstd::prelude::*;

use crate::models::{Group, GroupView};
use crate::text::{lemma_lex_le_total, lemma_lex_le_trans, lex_le, str_eq, str_lex_le};

verus! {

/// The tag set of one dimension of a group: countries, or sectors.
pub open spec fn dimension_tags(g: GroupView, by_country: bool) -> Seq<Seq<char>> {
    if by_country {
        g.countries
    } else {
        g.sectors
    }
}

/// Whether some group lists `x` in the dimension.
pub open spec fn some_group_lists(gs: Seq<GroupView>, x: Seq<char>, by_country: bool) -> bool {
    exists|i: int| 0 <= i < gs.len() && dimension_tags(#[trigger] gs[i], by_country).contains(x)
}

/// Collects the distinct tags of one dimension over all groups, in
/// first-encounter order.
fn collect_tags(groups: &Vec<Group>, by_country: bool) -> (r: Vec<String>)
    ensures
        forall|a: int, b: int|
            0 <= a < b < r.deep_view().len() ==> r.deep_view()[a] != r.deep_view()[b],
        forall|x: Seq<char>|
            #![trigger r.deep_view().contains(x)]
            r.deep_view().contains(x) <==> some_group_lists(groups.deep_view(), x, by_country),
{
    let ghost gsv = groups.deep_view();
    let mut out: Vec<String> = Vec::new();
    let mut gi: usize = 0;
    while gi < groups.len()
        invariant
            gi <= groups@.len(),
            gsv == groups.deep_view(),
            forall|a: int, b: int|
                0 <= a < b < out.deep_view().len() ==> out.deep_view()[a] != out.deep_view()[b],
            forall|x: Seq<char>|
                #![trigger out.deep_view().contains(x)]
                out.deep_view().contains(x) <==> some_group_lists(
                    gsv.take(gi as int),
                    x,
                    by_country,
                ),
        decreases groups@.len() - gi,
    {
        let g = &groups[gi];
        let ghost gv = gsv[gi as int];
        proof {
            assert(g@ == gv);
        }
        let tags = if by_country {
            &g.countries
        } else {
            &g.sectors
        };
        proof {
            assert(tags.deep_view() == dimension_tags(gv, by_country));
        }
        let mut ti: usize = 0;
        while ti < tags.len()
            invariant
                ti <= tags@.len(),
                gi < groups@.len(),
                g@ == gv,
                gv == gsv[gi as int],
                gsv == groups.deep_view(),
                tags.deep_view() == dimension_tags(gv, by_country),
                forall|a: int, b: int|
                    0 <= a < b < out.deep_view().len() ==> out.deep_view()[a] != out.deep_view()[b],
                forall|x: Seq<char>|
                    #![trigger out.deep_view().contains(x)]
                    out.deep_view().contains(x) <==> (some_group_lists(
                        gsv.take(gi as int),
                        x,
                        by_country,
                    ) || dimension_tags(gv, by_country).take(ti as int).contains(x)),
            decreases tags@.len() - ti,
        {
            let t = &tags[ti];
            proof {
                assert(t@ == dimension_tags(gv, by_country)[ti as int]);
            }
            let ghost before = out.deep_view();
            let mut present = false;
            let mut k: usize = 0;
            while k < out.len()
                invariant
                    k <= out@.len(),
                    before == out.deep_view(),
                    present <==> exists|k2: int| 0 <= k2 < k && #[trigger] before[k2] == t@,
                decreases out@.len() - k,
            {
                if str_eq(out[k].as_str(), t.as_str()) {
                    proof {
                        assert(before[k as int] == t@);
                    }
                    present = true;
                }
                k += 1;
            }
            if !present {
                let ghost tv = t@;
                out.push(t.clone());
                proof {
                    assert(out.deep_view() =~= before.push(tv));
                }
            }
            proof {
                let ndv = out.deep_view();
                let dt = dimension_tags(gv, by_country);
                assert(dt.take(ti + 1 as int).drop_last() =~= dt.take(ti as int));
                assert(dt.take(ti + 1 as int).last() == dt[ti as int]);
                assert forall|x: Seq<char>| #![trigger ndv.contains(x)]
                    ndv.contains(x) <==> (some_group_lists(gsv.take(gi as int), x, by_country)
                        || dt.take(ti + 1 as int).contains(x)) by {
                    if ndv.contains(x) {
                        let q = choose|q: int| 0 <= q < ndv.len() && ndv[q] == x;
                        if q < before.len() {
                            assert(before.contains(x)) by {
                                assert(before[q] == x);
                            }
                            if dt.take(ti as int).contains(x) {
                                let w = choose|w: int|
                                    0 <= w < ti && #[trigger] dt.take(ti as int)[w] == x;
                                assert(dt.take(ti + 1 as int)[w] == x);
                                assert(dt.take(ti + 1 as int).contains(x));
                            }
                        } else {
                            assert(x == dt[ti as int]);
                            assert(dt.take(ti + 1 as int)[ti as int] == x);
                            assert(dt.take(ti + 1 as int).contains(x));
                        }
                    }
                    if dt.take(ti + 1 as int).contains(x) {
                        let w = choose|w: int|
                            0 <= w < ti + 1 && #[trigger] dt.take(ti + 1 as int)[w] == x;
                        if w < ti {
                            assert(dt.take(ti as int)[w] == x);
                            assert(dt.take(ti as int).contains(x));
                            assert(before.contains(x));
                            let q = choose|q: int| 0 <= q < before.len() && before[q] == x;
                            assert(ndv[q] == x);
                            assert(ndv.contains(x));
                        } else {
                            assert(x == dt[ti as int]);
                            if present {
                                let k2 = choose|k2: int|
                                    0 <= k2 < before.len() && #[trigger] before[k2] == x;
                                assert(ndv[k2] == x);
                                assert(ndv.contains(x));
                            } else {
                                assert(ndv[ndv.len() - 1] == x);
                                assert(ndv.contains(x));
                            }
                        }
                    }
                    if some_group_lists(gsv.take(gi as int), x, by_country) {
                        assert(before.contains(x));
                        let q = choose|q: int| 0 <= q < before.len() && before[q] == x;
                        assert(ndv[q] == x);
                        assert(ndv.contains(x));
                    }
                }
                assert forall|a: int, b: int| 0 <= a < b < ndv.len() implies ndv[a] != ndv[b] by {
                    if b == ndv.len() - 1 && ndv.len() == before.len() + 1 {
                        assert(ndv[a] == before[a]);
                        if ndv[a] == ndv[b] {
                            assert(before.contains(ndv[b])) by {
                                assert(before[a] == ndv[b]);
                            }
                        }
                    } else {
                        assert(ndv[a] == before[a]);
                        assert(ndv[b] == before[b]);
                    }
                }
            }
            ti += 1;
        }
        proof {
            let dt = dimension_tags(gv, by_country);
            assert(dt.take(dt.len() as int) =~= dt);
            assert forall|x: Seq<char>| #![trigger out.deep_view().contains(x)]
                out.deep_view().contains(x) <==> some_group_lists(
                    gsv.take(gi + 1 as int),
                    x,
                    by_country,
                ) by {
                assert(gsv.take(gi + 1 as int).drop_last() =~= gsv.take(gi as int));
                assert(gsv.take(gi + 1 as int).last() == gv);
                if some_group_lists(gsv.take(gi as int), x, by_country) {
                    let w = choose|w: int|
                        0 <= w < gi && dimension_tags(
                            #[trigger] gsv.take(gi as int)[w],
                            by_country,
                        ).contains(x);
                    assert(dimension_tags(gsv.take(gi + 1 as int)[w], by_country).contains(x));
                    assert(some_group_lists(gsv.take(gi + 1 as int), x, by_country));
                }
                if dt.contains(x) {
                    assert(dimension_tags(gsv.take(gi + 1 as int)[gi as int], by_country).contains(
                        x,
                    ));
                    assert(some_group_lists(gsv.take(gi + 1 as int), x, by_country));
                }
                if some_group_lists(gsv.take(gi + 1 as int), x, by_country) {
                    let w = choose|w: int|
                        0 <= w < gi + 1 && dimension_tags(
                            #[trigger] gsv.take(gi + 1 as int)[w],
                            by_country,
                        ).contains(x);
                    if w < gi {
                        assert(dimension_tags(gsv.take(gi as int)[w], by_country).contains(x));
                        assert(some_group_lists(gsv.take(gi as int), x, by_country));
                    } else {
                        assert(dt.contains(x));
                    }
                }
            }
        }
        gi += 1;
    }
    proof {
        assert(gsv.take(gsv.len() as int) =~= gsv);
    }
    out
}

/// Sorts distinct tags lexicographically by insertion.
fn sort_tags(v: &Vec<String>) -> (r: Vec<String>)
    requires
        forall|a: int, b: int|
            0 <= a < b < v.deep_view().len() ==> v.deep_view()[a] != v.deep_view()[b],
    ensures
        forall|a: int, b: int|
            0 <= a < b < r.deep_view().len() ==> lex_le(
                #[trigger] r.deep_view()[a],
                #[trigger] r.deep_view()[b],
            ),
        forall|a: int, b: int|
            0 <= a < b < r.deep_view().len() ==> r.deep_view()[a] != r.deep_view()[b],
        forall|x: Seq<char>|
            #![trigger r.deep_view().contains(x)]
            r.deep_view().contains(x) <==> v.deep_view().contains(x),
{
    let ghost vv = v.deep_view();
    let mut out: Vec<String> = Vec::new();
    let mut i: usize = 0;
    proof {
        assert(vv.take(0) =~= Seq::<Seq<char>>::empty());
    }
    while i < v.len()
        invariant
            i <= v@.len(),
            vv == v.deep_view(),
            forall|a: int, b: int| 0 <= a < b < vv.len() ==> vv[a] != vv[b],
            forall|a: int, b: int|
                0 <= a < b < out.deep_view().len() ==> lex_le(
                    #[trigger] out.deep_view()[a],
                    #[trigger] out.deep_view()[b],
                ),
            forall|x: Seq<char>|
                #![trigger out.deep_view().contains(x)]
                out.deep_view().contains(x) <==> vv.take(i as int).contains(x),
            forall|a: int, b: int|
                0 <= a < b < out.deep_view().len() ==> out.deep_view()[a] != out.deep_view()[b],
        decreases v@.len() - i,
    {
        let x = v[i].clone();
        let ghost xv = x@;
        proof {
            assert(xv == vv[i as int]);
        }
        let mut p: usize = 0;
        while p < out.len() && str_lex_le(out[p].as_str(), x.as_str())
            invariant
                p <= out@.len(),
                xv == x@,
                forall|k: int| 0 <= k < p ==> lex_le(#[trigger] out.deep_view()[k], xv),
            decreases out@.len() - p,
        {
            p += 1;
        }
        proof {
            if p < out.deep_view().len() {
                lemma_lex_le_total(out.deep_view()[p as int], xv);
                assert(lex_le(xv, out.deep_view()[p as int]));
            }
        }
        let ghost before = out.deep_view();
        out.insert(p, x);
        proof {
            before.insert_ensures(p as int, xv);
            assert(out.deep_view() =~= before.insert(p as int, xv));
            let ndv = out.deep_view();
            assert forall|a: int, b: int| 0 <= a < b < ndv.len() implies lex_le(
                #[trigger] ndv[a],
                #[trigger] ndv[b],
            ) by {
                if b < p {
                    assert(ndv[a] == before[a] && ndv[b] == before[b]);
                } else if b == p {
                    assert(ndv[a] == before[a]);
                    assert(lex_le(before[a], xv));
                } else {
                    if a < p {
                        assert(ndv[a] == before[a] && ndv[b] == before[b - 1]);
                        if b - 1 == a {
                            if p < before.len() {
                                lemma_lex_le_trans(before[a], xv, before[p as int]);
                            }
                            assert(lex_le(ndv[a], ndv[b]));
                        } else {
                            assert(lex_le(before[a], before[b - 1]));
                        }
                    } else if a == p {
                        assert(ndv[a] == xv && ndv[b] == before[b - 1]);
                        assert(lex_le(xv, before[p as int]));
                        if b - 1 > p {
                            lemma_lex_le_trans(xv, before[p as int], before[b - 1]);
                        }
                    } else {
                        assert(ndv[a] == before[a - 1] && ndv[b] == before[b - 1]);
                    }
                }
            }
            assert forall|y: Seq<char>| #![trigger ndv.contains(y)]
                ndv.contains(y) <==> vv.take(i + 1 as int).contains(y) by {
                assert(vv.take(i + 1 as int).drop_last() =~= vv.take(i as int));
                assert(vv.take(i + 1 as int).last() == vv[i as int]);
                if ndv.contains(y) {
                    let w = choose|w: int| 0 <= w < ndv.len() && ndv[w] == y;
                    if w < p {
                        assert(before[w] == y);
                        assert(before.contains(y));
                        assert(vv.take(i as int).contains(y));
                        let w2 = choose|w2: int|
                            0 <= w2 < i && #[trigger] vv.take(i as int)[w2] == y;
                        assert(vv.take(i + 1 as int)[w2] == y);
                        assert(vv.take(i + 1 as int).contains(y));
                    } else if w == p {
                        assert(y == xv);
                        assert(vv.take(i + 1 as int)[i as int] == y);
                        assert(vv.take(i + 1 as int).contains(y));
                    } else {
                        assert(before[w - 1] == y);
                        assert(before.contains(y));
                        assert(vv.take(i as int).contains(y));
                        let w2 = choose|w2: int|
                            0 <= w2 < i && #[trigger] vv.take(i as int)[w2] == y;
                        assert(vv.take(i + 1 as int)[w2] == y);
                        assert(vv.take(i + 1 as int).contains(y));
                    }
                }
                if vv.take(i + 1 as int).contains(y) {
                    let w = choose|w: int|
                        0 <= w < i + 1 && #[trigger] vv.take(i + 1 as int)[w] == y;
                    if w < i {
                        assert(vv.take(i as int)[w] == y);
                        assert(vv.take(i as int).contains(y));
                        assert(before.contains(y));
                        let w2 = choose|w2: int| 0 <= w2 < before.len() && before[w2] == y;
                        if w2 < p {
                            assert(ndv[w2] == y);
                        } else {
                            assert(ndv[w2 + 1] == y);
                        }
                        assert(ndv.contains(y));
                    } else {
                        assert(y == xv);
                        assert(ndv[p as int] == y);
                        assert(ndv.contains(y));
                    }
                }
            }
            assert forall|a: int, b: int| 0 <= a < b < ndv.len() implies ndv[a] != ndv[b] by {
                let ya = ndv[a];
                let yb = ndv[b];
                if ya == yb {
                    // two equal entries: both stem from the distinct input,
                    // one of them being the fresh insertion
                    if a == p || b == p {
                        let other = if a == p {
                            yb
                        } else {
                            ya
                        };
                        assert(other == xv);
                        assert(before.contains(other));
                        assert(vv.take(i as int).contains(xv));
                        let w2 = choose|w2: int|
                            0 <= w2 < i && #[trigger] vv.take(i as int)[w2] == xv;
                        assert(vv[w2] == vv[i as int]);
                        assert(false);
                    } else {
                        let a2: int = if a < p {
                            a
                        } else {
                            a - 1
                        };
                        let b2: int = if b < p {
                            b
                        } else {
                            b - 1
                        };
                        assert(ndv[a] == before[a2] && ndv[b] == before[b2]);
                        assert(a2 != b2);
                        assert(false);
                    }
                }
            }
        }
        i += 1;
    }
    proof {
        assert(vv.take(vv.len() as int) =~= vv);
    }
    out
}

/// The distinct countries targeted by any group, sorted.
pub fn target_countries(groups: &Vec<Group>) -> (r: Vec<String>)
    ensures
        forall|a: int, b: int|
            0 <= a < b < r.deep_view().len() ==> lex_le(
                #[trigger] r.deep_view()[a],
                #[trigger] r.deep_view()[b],
            ),
        forall|a: int, b: int|
            0 <= a < b < r.deep_view().len() ==> r.deep_view()[a] != r.deep_view()[b],
        forall|x: Seq<char>|
            #![trigger r.deep_view().contains(x)]
            r.deep_view().contains(x) <==> some_group_lists(groups.deep_view(), x, true),
{
    let collected = collect_tags(groups, true);
    sort_tags(&collected)
}

/// The distinct sectors targeted by any group, sorted.
pub fn target_sectors(groups: &Vec<Group>) -> (r: Vec<String>)
    ensures
        forall|a: int, b: int|
            0 <= a < b < r.deep_view().len() ==> lex_le(
                #[trigger] r.deep_view()[a],
                #[trigger] r.deep_view()[b],
            ),
        forall|a: int, b: int|
            0 <= a < b < r.deep_view().len() ==> r.deep_view()[a] != r.deep_view()[b],
        forall|x: Seq<char>|
            #![trigger r.deep_view().contains(x)]
            r.deep_view().contains(x) <==> some_group_lists(groups.deep_view(), x, false),
{
    let collected = collect_tags(groups, false);
    sort_tags(&collected)
}

} // verus!
