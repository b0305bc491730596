//! The tag-filter expression engine.
//!
//! A filter string is a disjunction of conjunctions over tags: segments
//! separated by `,` are alternatives, terms within a segment are separated
//! by `+` or space, and a leading `!` negates a term.  [`compile`] turns a
//! filter string into a [`FilterExpression`]; compilation never fails, and
//! malformed pieces degrade to an expression with fewer terms.
//! [`FilterExpression::matches`] evaluates the compiled predicate against a
//! tag set.

use vstd::prelude::*;

use crate::text::{from_chars, lower_of, str_eq, to_chars, to_lower, trim_chars, trim_spec};

verus! {

/// Whether `c` separates segments (`comma` true) or terms (`comma` false).
pub open spec fn is_sep(c: char, comma: bool) -> bool {
    if comma {
        c == ','
    } else {
        c == '+' || c == ' '
    }
}

/// The pieces of `s` between separators, in order.  A separator at either
/// end or two adjacent separators yield empty pieces; the result always
/// holds at least one piece.
pub open spec fn split_spec(s: Seq<char>, comma: bool) -> Seq<Seq<char>>
    decreases s.len(),
{
    if s.len() == 0 {
        seq![Seq::<char>::empty()]
    } else {
        let rest = split_spec(s.drop_last(), comma);
        if is_sep(s.last(), comma) {
            rest.push(Seq::<char>::empty())
        } else {
            rest.update(rest.len() - 1, rest.last().push(s.last()))
        }
    }
}

pub proof fn lemma_split_spec_nonempty(s: Seq<char>, comma: bool)
    ensures
        split_spec(s, comma).len() >= 1,
    decreases s.len(),
{
    if s.len() > 0 {
        lemma_split_spec_nonempty(s.drop_last(), comma);
    }
}

fn is_sep_char(c: char, comma: bool) -> (r: bool)
    ensures
        r == is_sep(c, comma),
{
    if comma {
        c == ','
    } else {
        c == '+' || c == ' '
    }
}

/// Splits `s` at every separator; empty pieces are kept.
pub fn split_chars(s: &Vec<char>, comma: bool) -> (r: Vec<Vec<char>>)
    ensures
        r.deep_view() == split_spec(s@, comma),
{
    let mut done: Vec<Vec<char>> = Vec::new();
    let mut cur: Vec<char> = Vec::new();
    let mut i: usize = 0;
    proof {
        assert(s@.take(0) =~= Seq::<char>::empty());
        assert(done.deep_view().push(cur@) =~= split_spec(s@.take(0), comma));
    }
    while i < s.len()
        invariant
            i <= s@.len(),
            split_spec(s@.take(i as int), comma) == done.deep_view().push(cur@),
        decreases s@.len() - i,
    {
        let ghost prev = split_spec(s@.take(i as int), comma);
        proof {
            assert(s@.take(i + 1 as int).drop_last() =~= s@.take(i as int));
            assert(s@.take(i + 1 as int).last() == s@[i as int]);
        }
        if is_sep_char(s[i], comma) {
            let ghost old_done = done.deep_view();
            let ghost cur_v = cur@;
            done.push(cur);
            cur = Vec::new();
            proof {
                assert(done.deep_view() =~~= old_done.push(cur_v));
                assert(done.deep_view().push(cur@) =~= prev.push(Seq::<char>::empty()));
            }
        } else {
            let ghost cur_v = cur@;
            cur.push(s[i]);
            proof {
                lemma_split_spec_nonempty(s@.take(i as int), comma);
                assert(prev.last() == cur_v);
                assert(done.deep_view().push(cur@) =~= prev.update(
                    prev.len() - 1,
                    prev.last().push(s@[i as int]),
                ));
            }
        }
        i += 1;
    }
    proof {
        assert(s@.take(s@.len() as int) =~= s@);
    }
    let ghost old_done = done.deep_view();
    let ghost cur_v = cur@;
    done.push(cur);
    proof {
        assert(done.deep_view() =~~= old_done.push(cur_v));
    }
    done
}

/// One filter term: a normalized tag, possibly negated.
#[derive(Debug, Clone, PartialEq, Eq)]
pub struct FilterTerm {
    pub tag: String,
    pub negated: bool,
}

/// Mathematical model of a [`FilterTerm`].
pub struct TermView {
    pub tag: Seq<char>,
    pub negated: bool,
}

impl View for FilterTerm {
    type V = TermView;

    open spec fn view(&self) -> TermView {
        TermView { tag: self.tag@, negated: self.negated }
    }
}

impl DeepView for FilterTerm {
    type V = TermView;

    open spec fn deep_view(&self) -> TermView {
        self@
    }
}

/// An AND-combination of filter terms.
#[derive(Debug, Clone, PartialEq, Eq)]
pub struct Conjunction {
    pub terms: Vec<FilterTerm>,
}

impl View for Conjunction {
    type V = Seq<TermView>;

    open spec fn view(&self) -> Seq<TermView> {
        self.terms.deep_view()
    }
}

impl DeepView for Conjunction {
    type V = Seq<TermView>;

    open spec fn deep_view(&self) -> Seq<TermView> {
        self@
    }
}

/// An OR-combination of conjunctions: the compiled form of a filter string.
#[derive(Debug, Clone, PartialEq, Eq)]
pub struct FilterExpression {
    pub conjs: Vec<Conjunction>,
}

impl View for FilterExpression {
    type V = Seq<Seq<TermView>>;

    open spec fn view(&self) -> Seq<Seq<TermView>> {
        self.conjs.deep_view()
    }
}

/// What a raw term between separators compiles to: surrounding whitespace
/// is trimmed, a leading `!` marks negation, the rest is case-folded.
/// A term whose tag would be empty is discarded.
pub open spec fn parse_term_spec(raw: Seq<char>) -> Option<TermView> {
    let t = trim_spec(raw);
    if t.len() > 0 && t[0] == '!' {
        if t.len() == 1 {
            None
        } else {
            Some(TermView { tag: lower_of(t.drop_first()), negated: true })
        }
    } else if t.len() == 0 {
        None
    } else {
        Some(TermView { tag: lower_of(t), negated: false })
    }
}

/// The terms of one conjunction, built from the raw terms of a segment.
pub open spec fn conj_spec(raws: Seq<Seq<char>>) -> Seq<TermView>
    decreases raws.len(),
{
    if raws.len() == 0 {
        Seq::<TermView>::empty()
    } else {
        let rest = conj_spec(raws.drop_last());
        match parse_term_spec(raws.last()) {
            Some(t) => rest.push(t),
            None => rest,
        }
    }
}

/// The conjunctions built from the comma-separated segments; empty
/// segments are discarded.
pub open spec fn compile_segments(segs: Seq<Seq<char>>) -> Seq<Seq<TermView>>
    decreases segs.len(),
{
    if segs.len() == 0 {
        Seq::<Seq<TermView>>::empty()
    } else {
        let rest = compile_segments(segs.drop_last());
        if segs.last().len() == 0 {
            rest
        } else {
            rest.push(conj_spec(split_spec(segs.last(), false)))
        }
    }
}

/// What [`compile`] returns for a filter string.
pub open spec fn compile_spec(input: Seq<char>) -> Seq<Seq<TermView>> {
    compile_segments(split_spec(input, true))
}

/// Parses one raw term; returns `None` when the term is empty after
/// trimming and negation stripping.
pub fn parse_term(raw: &Vec<char>) -> (r: Option<FilterTerm>)
    ensures
        r.deep_view() == parse_term_spec(raw@),
{
    let t = trim_chars(raw);
    if t.len() > 0 && t[0] == '!' {
        if t.len() == 1 {
            None
        } else {
            let mut body: Vec<char> = Vec::new();
            let mut i: usize = 1;
            while i < t.len()
                invariant
                    1 <= i <= t@.len(),
                    body@ == t@.subrange(1, i as int),
                decreases t@.len() - i,
            {
                body.push(t[i]);
                proof {
                    assert(t@.subrange(1, i + 1 as int) =~= t@.subrange(1, i as int).push(
                        t@[i as int],
                    ));
                }
                i += 1;
            }
            proof {
                assert(body@ =~= trim_spec(raw@).drop_first());
            }
            let s = from_chars(body.as_slice());
            Some(FilterTerm { tag: to_lower(s.as_str()), negated: true })
        }
    } else if t.len() == 0 {
        None
    } else {
        let s = from_chars(t.as_slice());
        Some(FilterTerm { tag: to_lower(s.as_str()), negated: false })
    }
}

/// Builds the conjunction a segment denotes.
pub fn parse_conjunction(seg: &Vec<char>) -> (r: Conjunction)
    ensures
        r@ == conj_spec(split_spec(seg@, false)),
{
    let raws = split_chars(seg, false);
    let ghost raws_v = raws.deep_view();
    let mut terms: Vec<FilterTerm> = Vec::new();
    let mut i: usize = 0;
    proof {
        assert(raws_v.take(0) =~= Seq::<Seq<char>>::empty());
    }
    while i < raws.len()
        invariant
            i <= raws@.len(),
            raws_v == raws.deep_view(),
            raws_v == split_spec(seg@, false),
            terms.deep_view() == conj_spec(raws_v.take(i as int)),
        decreases raws@.len() - i,
    {
        proof {
            assert(raws_v.take(i + 1 as int).drop_last() =~= raws_v.take(i as int));
            assert(raws_v.take(i + 1 as int).last() == raws_v[i as int]);
            assert(raws@[i as int]@ == raws_v[i as int]);
        }
        let ghost old_terms = terms.deep_view();
        match parse_term(&raws[i]) {
            Some(t) => {
                let ghost tv = t@;
                terms.push(t);
                proof {
                    assert(terms.deep_view() =~= old_terms.push(tv));
                }
            },
            None => {},
        }
        i += 1;
    }
    proof {
        assert(raws_v.take(raws_v.len() as int) =~= raws_v);
    }
    Conjunction { terms }
}

/// Compiles a filter string into a [`FilterExpression`].  Compilation never
/// fails: empty segments and empty terms are discarded, so malformed input
/// degrades to a smaller (possibly empty) expression.
pub fn compile(input: &str) -> (r: FilterExpression)
    ensures
        r@ == compile_spec(input@),
{
    let chars = to_chars(input);
    let segs = split_chars(&chars, true);
    let ghost segs_v = segs.deep_view();
    let mut conjs: Vec<Conjunction> = Vec::new();
    let mut i: usize = 0;
    proof {
        assert(segs_v.take(0) =~= Seq::<Seq<char>>::empty());
    }
    while i < segs.len()
        invariant
            i <= segs@.len(),
            segs_v == segs.deep_view(),
            segs_v == split_spec(input@, true),
            conjs.deep_view() == compile_segments(segs_v.take(i as int)),
        decreases segs@.len() - i,
    {
        proof {
            assert(segs_v.take(i + 1 as int).drop_last() =~= segs_v.take(i as int));
            assert(segs_v.take(i + 1 as int).last() == segs_v[i as int]);
            assert(segs@[i as int]@ == segs_v[i as int]);
        }
        if segs[i].len() > 0 {
            let ghost old_conjs = conjs.deep_view();
            let c = parse_conjunction(&segs[i]);
            let ghost cv = c@;
            conjs.push(c);
            proof {
                assert(conjs.deep_view() =~= old_conjs.push(cv));
            }
        }
        i += 1;
    }
    proof {
        assert(segs_v.take(segs_v.len() as int) =~= segs_v);
    }
    FilterExpression { conjs }
}

/// A term holds of a tag set iff its tag is present (positive term) or
/// absent (negated term).
pub open spec fn term_holds(t: TermView, tags: Seq<Seq<char>>) -> bool {
    if t.negated {
        !tags.contains(t.tag)
    } else {
        tags.contains(t.tag)
    }
}

/// A conjunction matches iff every one of its terms holds.
pub open spec fn conj_matches(c: Seq<TermView>, tags: Seq<Seq<char>>) -> bool {
    forall|i: int| 0 <= i < c.len() ==> term_holds(#[trigger] c[i], tags)
}

/// An expression matches iff it has no conjunction (no constraint) or at
/// least one of its conjunctions matches.
pub open spec fn expr_matches(e: Seq<Seq<TermView>>, tags: Seq<Seq<char>>) -> bool {
    e.len() == 0 || exists|i: int| 0 <= i < e.len() && conj_matches(#[trigger] e[i], tags)
}

/// Whether the tag set holds `tag`, compared character by character.
pub fn tagset_contains(tags: &Vec<String>, tag: &str) -> (r: bool)
    ensures
        r == tags.deep_view().contains(tag@),
{
    let mut i: usize = 0;
    while i < tags.len()
        invariant
            i <= tags@.len(),
            forall|j: int| 0 <= j < i ==> tags.deep_view()[j] != tag@,
        decreases tags@.len() - i,
    {
        if str_eq(tags[i].as_str(), tag) {
            proof {
                assert(tags.deep_view()[i as int] == tag@);
            }
            return true;
        }
        i += 1;
    }
    false
}

impl Conjunction {
    /// Whether every term of this conjunction holds of the tag set.
    pub fn satisfied_by(&self, tags: &Vec<String>) -> (r: bool)
        ensures
            r == conj_matches(self@, tags.deep_view()),
    {
        let mut i: usize = 0;
        while i < self.terms.len()
            invariant
                i <= self.terms@.len(),
                forall|j: int| 0 <= j < i ==> term_holds(#[trigger] self@[j], tags.deep_view()),
            decreases self.terms@.len() - i,
        {
            let t = &self.terms[i];
            let present = tagset_contains(tags, t.tag.as_str());
            if t.negated == present {
                proof {
                    assert(!term_holds(self@[i as int], tags.deep_view()));
                }
                return false;
            }
            i += 1;
        }
        true
    }
}

impl FilterExpression {
    /// In-memory evaluation of the compiled predicate: true iff the
    /// expression has no conjunction or some conjunction is satisfied.
    pub fn matches(&self, tags: &Vec<String>) -> (r: bool)
        ensures
            r == expr_matches(self@, tags.deep_view()),
    {
        if self.conjs.len() == 0 {
            return true;
        }
        let mut i: usize = 0;
        while i < self.conjs.len()
            invariant
                i <= self.conjs@.len(),
                forall|j: int| 0 <= j < i ==> !conj_matches(#[trigger] self@[j], tags.deep_view()),
            decreases self.conjs@.len() - i,
        {
            if self.conjs[i].satisfied_by(tags) {
                proof {
                    assert(conj_matches(self@[i as int], tags.deep_view()));
                }
                return true;
            }
            i += 1;
        }
        false
    }

    /// An expression with no conjunctions, the compiled form of an empty
    /// or fully degenerate filter string; it matches every tag set.
    pub fn empty() -> (r: FilterExpression)
        ensures
            r@ == Seq::<Seq<TermView>>::empty(),
    {
        FilterExpression { conjs: Vec::new() }
    }
}

/// Law: compilation is deterministic — two compilations of the same filter
/// string yield structurally equal expressions.
pub proof fn lemma_compile_idempotent(
    input: Seq<char>,
    e1: Seq<Seq<TermView>>,
    e2: Seq<Seq<TermView>>,
)
    requires
        e1 == compile_spec(input),
        e2 == compile_spec(input),
    ensures
        e1 == e2,
{
}

/// Law: an expression holding a single negated term matches a tag set iff
/// the tag is absent from it.
pub proof fn lemma_negated_term(tag: Seq<char>, tags: Seq<Seq<char>>)
    ensures
        expr_matches(seq![seq![(TermView { tag, negated: true })]], tags) <==> !tags.contains(tag),
{
    let e = seq![seq![(TermView { tag, negated: true })]];
    if !tags.contains(tag) {
        assert(conj_matches(e[0], tags)) by {
            assert(forall|i: int| 0 <= i < e[0].len() ==> term_holds(#[trigger] e[0][i], tags));
        }
    }
    if expr_matches(e, tags) {
        assert(conj_matches(e[0], tags));
        assert(term_holds(e[0][0], tags));
    }
}

/// Law: a conjunction of two positive terms matches a tag set iff both
/// tags are present in it.
pub proof fn lemma_conjunction_of_two(a: Seq<char>, b: Seq<char>, tags: Seq<Seq<char>>)
    ensures
        expr_matches(
            seq![seq![(TermView { tag: a, negated: false }), (TermView { tag: b, negated: false })]],
            tags,
        ) <==> (tags.contains(a) && tags.contains(b)),
{
    let c = seq![(TermView { tag: a, negated: false }), (TermView { tag: b, negated: false })];
    let e = seq![c];
    if tags.contains(a) && tags.contains(b) {
        assert(e[0] == c);
        assert(conj_matches(e[0], tags)) by {
            assert(forall|i: int| 0 <= i < c.len() ==> term_holds(#[trigger] c[i], tags));
        }
        assert(expr_matches(e, tags));
    }
    if expr_matches(e, tags) {
        assert(conj_matches(e[0], tags));
        assert(term_holds(c[0], tags));
        assert(term_holds(c[1], tags));
    }
}

/// Law: the empty filter string compiles to the empty expression, which
/// matches every tag set, the empty one included.
pub proof fn lemma_empty_filter_matches_all(tags: Seq<Seq<char>>)
    ensures
        compile_spec(Seq::<char>::empty()).len() == 0,
        expr_matches(compile_spec(Seq::<char>::empty()), tags),
{
    let segs = split_spec(Seq::<char>::empty(), true);
    assert(segs =~= seq![Seq::<char>::empty()]);
    assert(segs.drop_last() =~= Seq::<Seq<char>>::empty());
    assert(segs.last().len() == 0);
    assert(compile_segments(Seq::<Seq<char>>::empty()) =~= Seq::<Seq<TermView>>::empty());
    assert(compile_segments(segs) =~= Seq::<Seq<TermView>>::empty());
}

} // verus!
