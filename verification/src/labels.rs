//! Label generation support.
//!
//! Labels are produced by a natural-language keyword extractor, an outside
//! collaborator: it ranks terms from an entity's descriptive texts.  The
//! logic owned here is what turns extracted terms and platform tags into
//! an entity's label set — lower-cased and de-duplicated — and the stop
//! word list the extractor is configured with.

use vstd::prelude::*;

use crate::text::{lower_of, str_eq, to_lower};

verus! {

/// The stop word list this crate's word lists hold for a language code.
pub uninterp spec fn stop_words_of(lang: Seq<char>) -> Seq<Seq<char>>;

/// Relies on `stop_words::get`: the English stop word list, a fixed table
/// compiled into that crate.
#[verifier::external_body]
fn english_stop_words() -> (r: Vec<String>)
    ensures
        r.deep_view() == stop_words_of("en"@),
{
    stop_words::get(stop_words::Language::English).iter().map(|w| w.to_string()).collect()
}

/// Configuration of the natural-language label generator: the stop words
/// the keyword extraction is run with.
#[derive(Debug, Clone, PartialEq, Eq)]
pub struct NlpGenerator {
    pub stop_words: Vec<String>,
}

impl Default for NlpGenerator {
    /// The generator with the English stop word list alone.
    fn default() -> (r: Self)
        ensures
            r.stop_words.deep_view() == stop_words_of("en"@),
    {
        NlpGenerator { stop_words: english_stop_words() }
    }
}

impl NlpGenerator {
    /// The generator with the English stop word list followed by the given
    /// additional stop words.
    pub fn new(additional_stop_words: &[String]) -> (r: Self)
        ensures
            r.stop_words.deep_view() == stop_words_of("en"@) + additional_stop_words.deep_view(),
    {
        let mut generator = NlpGenerator::default();
        let mut i: usize = 0;
        proof {
            assert(generator.stop_words.deep_view() =~= stop_words_of("en"@)
                + additional_stop_words.deep_view().take(0));
        }
        while i < additional_stop_words.len()
            invariant
                i <= additional_stop_words@.len(),
                generator.stop_words.deep_view() =~= stop_words_of("en"@)
                    + additional_stop_words.deep_view().take(i as int),
            decreases additional_stop_words@.len() - i,
        {
            let ghost before = generator.stop_words.deep_view();
            generator.stop_words.push(additional_stop_words[i].clone());
            proof {
                assert(generator.stop_words.deep_view() =~~= before.push(
                    additional_stop_words.deep_view()[i as int],
                ));
                assert(generator.stop_words.deep_view() =~= stop_words_of("en"@)
                    + additional_stop_words.deep_view().take(i + 1 as int));
            }
            i += 1;
        }
        proof {
            assert(additional_stop_words.deep_view().take(additional_stop_words@.len() as int)
                =~= additional_stop_words.deep_view());
        }
        generator
    }

    /// The label set of an entity: every extracted term and every platform
    /// tag, lower-cased and de-duplicated.  A label is in the result
    /// exactly when it is the case folding of one of the inputs.
    pub fn label_set(&self, terms: &Vec<String>, platforms: &Vec<String>) -> (r: Vec<String>)
        ensures
            forall|i: int, j: int|
                0 <= i < j < r.deep_view().len() ==> r.deep_view()[i] != r.deep_view()[j],
            forall|x: Seq<char>|
                #![trigger r.deep_view().contains(x)]
                r.deep_view().contains(x) <==> exists|w: int|
                    0 <= w < terms.deep_view().len() + platforms.deep_view().len() && lower_of(
                        #[trigger] (terms.deep_view() + platforms.deep_view())[w],
                    ) == x,
    {
        let ghost all = terms.deep_view() + platforms.deep_view();
        let mut r: Vec<String> = Vec::new();
        let mut i: usize = 0;
        while i < terms.len()
            invariant
                i <= terms@.len(),
                all == terms.deep_view() + platforms.deep_view(),
                forall|a: int, b: int|
                    0 <= a < b < r.deep_view().len() ==> r.deep_view()[a] != r.deep_view()[b],
                forall|x: Seq<char>|
                    #![trigger r.deep_view().contains(x)]
                    r.deep_view().contains(x) <==> exists|w: int|
                        0 <= w < i && lower_of(#[trigger] all[w]) == x,
            decreases terms@.len() - i,
        {
            proof {
                assert(all[i as int] == terms.deep_view()[i as int]);
            }
            let low = to_lower(terms[i].as_str());
            push_unless_present(&mut r, low, Ghost(all), Ghost(i as int));
            i += 1;
        }
        let mut j: usize = 0;
        while j < platforms.len()
            invariant
                j <= platforms@.len(),
                i == terms@.len(),
                all == terms.deep_view() + platforms.deep_view(),
                forall|a: int, b: int|
                    0 <= a < b < r.deep_view().len() ==> r.deep_view()[a] != r.deep_view()[b],
                forall|x: Seq<char>|
                    #![trigger r.deep_view().contains(x)]
                    r.deep_view().contains(x) <==> exists|w: int|
                        0 <= w < i + j && lower_of(#[trigger] all[w]) == x,
            decreases platforms@.len() - j,
        {
            proof {
                assert(all[i + j as int] == platforms.deep_view()[j as int]);
            }
            let low = to_lower(platforms[j].as_str());
            push_unless_present(&mut r, low, Ghost(all), Ghost(i + j as int));
            j += 1;
        }
        r
    }
}

/// Appends `low` — the case folding of `all[w]` — unless an equal label is
/// already present, keeping the set semantics of the accumulator.
fn push_unless_present(r: &mut Vec<String>, low: String, all: Ghost<Seq<Seq<char>>>, w: Ghost<int>)
    requires
        0 <= w@ < all@.len(),
        low@ == lower_of(all@[w@]),
        forall|a: int, b: int|
            0 <= a < b < old(r).deep_view().len()
                ==> old(r).deep_view()[a] != old(r).deep_view()[b],
        forall|x: Seq<char>|
            #![trigger old(r).deep_view().contains(x)]
            old(r).deep_view().contains(x) <==> exists|w2: int|
                0 <= w2 < w@ && lower_of(#[trigger] all@[w2]) == x,
    ensures
        forall|a: int, b: int|
            0 <= a < b < final(r).deep_view().len()
                ==> final(r).deep_view()[a] != final(r).deep_view()[b],
        forall|x: Seq<char>|
            #![trigger final(r).deep_view().contains(x)]
            final(r).deep_view().contains(x) <==> exists|w2: int|
                0 <= w2 < w@ + 1 && lower_of(#[trigger] all@[w2]) == x,
{
    let ghost before = r.deep_view();
    let mut present = false;
    let mut k: usize = 0;
    while k < r.len()
        invariant
            k <= r@.len(),
            before == r.deep_view(),
            present <==> exists|k2: int| 0 <= k2 < k && #[trigger] before[k2] == low@,
        decreases r@.len() - k,
    {
        if str_eq(r[k].as_str(), low.as_str()) {
            proof {
                assert(before[k as int] == low@);
            }
            present = true;
        }
        k += 1;
    }
    if !present {
        let ghost lowv = low@;
        r.push(low);
        proof {
            assert(r.deep_view() =~= before.push(lowv));
        }
    }
    proof {
        let ndv = r.deep_view();
        assert forall|x: Seq<char>| #![trigger ndv.contains(x)]
            ndv.contains(x) <==> exists|w2: int|
                0 <= w2 < w@ + 1 && lower_of(#[trigger] all@[w2]) == x by {
            if ndv.contains(x) {
                let q = choose|q: int| 0 <= q < ndv.len() && ndv[q] == x;
                if q < before.len() {
                    assert(before.contains(x)) by {
                        assert(before[q] == x);
                    }
                    let w2 = choose|w2: int| 0 <= w2 < w@ && lower_of(#[trigger] all@[w2]) == x;
                } else {
                    assert(x == lower_of(all@[w@]));
                }
            }
            if exists|w2: int| 0 <= w2 < w@ + 1 && lower_of(#[trigger] all@[w2]) == x {
                let w2 = choose|w2: int| 0 <= w2 < w@ + 1 && lower_of(#[trigger] all@[w2]) == x;
                if w2 < w@ {
                    assert(before.contains(x));
                    let q = choose|q: int| 0 <= q < before.len() && before[q] == x;
                    assert(ndv[q] == x);
                    assert(ndv.contains(x));
                } else {
                    // x is the folding of the element just examined
                    if present {
                        let k2 = choose|k2: int| 0 <= k2 < before.len() && #[trigger] before[k2]
                            == x;
                        assert(ndv[k2] == x);
                        assert(ndv.contains(x));
                    } else {
                        assert(ndv[ndv.len() - 1] == x);
                        assert(ndv.contains(x));
                    }
                }
            }
        }
        assert forall|a: int, b: int| 0 <= a < b < ndv.len() implies ndv[a] != ndv[b] by {
            if b == ndv.len() - 1 && ndv.len() == before.len() + 1 {
                assert(ndv[a] == before[a]);
                if ndv[a] == ndv[b] {
                    assert(before.contains(ndv[b])) by {
                        assert(before[a] == ndv[b]);
                    }
                }
            } else {
                assert(ndv[a] == before[a]);
                assert(ndv[b] == before[b]);
            }
        }
    }
}

} // verus!
