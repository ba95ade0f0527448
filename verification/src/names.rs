//! "First Last" names from a first-name list and a last-name list.
use vstd::prelude::*;

use crate::rng::{below_outcome, lemma_below_in_range, Rng};
use crate::text::push_char;
use crate::validate::{
    lemma_list_outcome_validated, list_outcome, validate_list, validated, words, BuildError,
    SpecBuildError, Strictness,
};

verus! {

/// Generates "First Last" names by picking one entry from a first-name list
/// and one from a last-name list.
#[derive(Debug)]
pub struct NameGenerator {
    first_names: Vec<String>,
    last_names: Vec<String>,
    rng: Rng,
}

/// A `NameGenerator` as values: its two validated lists and the state of
/// its generator.
pub struct SpecNameGenerator {
    pub first_names: Seq<Seq<char>>,
    pub last_names: Seq<Seq<char>>,
    pub rng: u64,
}

impl View for NameGenerator {
    type V = SpecNameGenerator;

    closed spec fn view(&self) -> SpecNameGenerator {
        SpecNameGenerator {
            first_names: words(self.first_names@),
            last_names: words(self.last_names@),
            rng: self.rng@,
        }
    }
}

/// What building from these two lists gives: both lists validated, the
/// first-name list first, each under its own name.
pub open spec fn name_lists_outcome(
    first_names: Seq<Seq<char>>,
    last_names: Seq<Seq<char>>,
    strictness: Strictness,
) -> Result<(Seq<Seq<char>>, Seq<Seq<char>>), SpecBuildError> {
    match list_outcome("first_names"@, first_names, strictness) {
        Err(e) => Err(e),
        Ok(first) => match list_outcome("last_names"@, last_names, strictness) {
            Err(e) => Err(e),
            Ok(last) => Ok((first, last)),
        },
    }
}

/// One generated name and the generator state afterwards: a first name is
/// drawn, then a last name, and they are joined by a space.
pub open spec fn name_draw(g: SpecNameGenerator) -> (Seq<char>, u64) {
    let (s1, i) = below_outcome(g.rng, g.first_names.len() as u64);
    let (s2, j) = below_outcome(s1, g.last_names.len() as u64);
    (g.first_names[i as int].push(' ') + g.last_names[j as int], s2)
}

/// Both lists are non-empty, and their lengths fit in a `u64`.
pub open spec fn name_wf(g: SpecNameGenerator) -> bool {
    &&& 0 < g.first_names.len() <= u64::MAX
    &&& 0 < g.last_names.len() <= u64::MAX
}

impl NameGenerator {
    /// The generator's invariant: see `name_wf`.
    pub open spec fn wf(&self) -> bool {
        name_wf(self@)
    }

    /// Builds a generator, validating both lists under `Strictness::Strict`.
    pub fn new(first_names: Vec<String>, last_names: Vec<String>, rng: Rng) -> (r: Result<
        NameGenerator,
        BuildError,
    >)
        ensures
            match (r, name_lists_outcome(words(first_names@), words(last_names@), Strictness::Strict)) {
                (Ok(g), Ok((first, last))) => g.wf() && g@ == (SpecNameGenerator {
                    first_names: first,
                    last_names: last,
                    rng: rng@,
                }),
                (Err(e), Err(f)) => e@ == f,
                _ => false,
            },
            r matches Ok(g) ==> validated(words(first_names@), g@.first_names, Strictness::Strict)
                && validated(words(last_names@), g@.last_names, Strictness::Strict),
    {
        Self::with_strictness(first_names, last_names, rng, Strictness::Strict)
    }

    /// Builds a generator, validating both lists under the given
    /// `Strictness`.
    pub fn with_strictness(
        first_names: Vec<String>,
        last_names: Vec<String>,
        rng: Rng,
        strictness: Strictness,
    ) -> (r: Result<NameGenerator, BuildError>)
        ensures
            match (r, name_lists_outcome(words(first_names@), words(last_names@), strictness)) {
                (Ok(g), Ok((first, last))) => g.wf() && g@ == (SpecNameGenerator {
                    first_names: first,
                    last_names: last,
                    rng: rng@,
                }),
                (Err(e), Err(f)) => e@ == f,
                _ => false,
            },
            r matches Ok(g) ==> validated(words(first_names@), g@.first_names, strictness)
                && validated(words(last_names@), g@.last_names, strictness),
    {
        proof {
            lemma_name_lists_validated(words(first_names@), words(last_names@), strictness);
        }
        let first_names = match validate_list("first_names", first_names, strictness) {
            Ok(v) => v,
            Err(e) => return Err(e),
        };
        let last_names = match validate_list("last_names", last_names, strictness) {
            Ok(v) => v,
            Err(e) => return Err(e),
        };
        let _first_count = first_names.len();
        let _last_count = last_names.len();
        Ok(NameGenerator { first_names, last_names, rng })
    }

    /// Picks a random first name and last name and joins them with a space.
    pub fn generate(&mut self) -> (name: String)
        requires
            old(self).wf(),
        ensures
            final(self).wf(),
            final(self)@.first_names == old(self)@.first_names,
            final(self)@.last_names == old(self)@.last_names,
            (name@, final(self)@.rng) == name_draw(old(self)@),
    {
        let i = self.rng.below(self.first_names.len());
        let j = self.rng.below(self.last_names.len());
        let mut name = self.first_names[i].clone();
        push_char(&mut name, ' ');
        name.append(self.last_names[j].as_str());
        name
    }
}

/// Every generated name is an entry of the first-name list, a space, and an
/// entry of the last-name list.
pub proof fn lemma_name_from_lists(g: SpecNameGenerator)
    requires
        name_wf(g),
    ensures
        exists|i: int, j: int|
            0 <= i < g.first_names.len() && 0 <= j < g.last_names.len() && name_draw(g).0 == (
            #[trigger] g.first_names[i]).push(' ') + #[trigger] g.last_names[j],
{
    lemma_below_in_range(g.rng, g.first_names.len() as u64);
    let (s1, i) = below_outcome(g.rng, g.first_names.len() as u64);
    lemma_below_in_range(s1, g.last_names.len() as u64);
    let (s2, j) = below_outcome(s1, g.last_names.len() as u64);
    assert(name_draw(g).0 == g.first_names[i as int].push(' ') + g.last_names[j as int]);
}

/// The lists of an accepted generator are its input lists validated: under
/// strict validation the inputs themselves, under lenient validation their
/// repaired forms, with no empty, untrimmed or repeated entry either way.
pub proof fn lemma_name_lists_validated(
    first_names: Seq<Seq<char>>,
    last_names: Seq<Seq<char>>,
    strictness: Strictness,
)
    ensures
        name_lists_outcome(first_names, last_names, strictness) matches Ok((first, last)) ==> {
            &&& validated(first_names, first, strictness)
            &&& validated(last_names, last, strictness)
            &&& list_outcome("first_names"@, first_names, strictness) == Ok::<
                Seq<Seq<char>>,
                SpecBuildError,
            >(first)
            &&& list_outcome("last_names"@, last_names, strictness) == Ok::<
                Seq<Seq<char>>,
                SpecBuildError,
            >(last)
        },
{
    lemma_list_outcome_validated("first_names"@, first_names, strictness);
    lemma_list_outcome_validated("last_names"@, last_names, strictness);
}

/// A refused generator is refused for its first-name list if that list is
/// refused, and otherwise for its last-name list.
pub proof fn lemma_name_lists_error(
    first_names: Seq<Seq<char>>,
    last_names: Seq<Seq<char>>,
    strictness: Strictness,
)
    ensures
        name_lists_outcome(first_names, last_names, strictness) matches Err(e) ==> {
            ||| list_outcome("first_names"@, first_names, strictness) == Err::<
                Seq<Seq<char>>,
                SpecBuildError,
            >(e)
            ||| list_outcome("first_names"@, first_names, strictness) is Ok && list_outcome(
                "last_names"@,
                last_names,
                strictness,
            ) == Err::<Seq<Seq<char>>, SpecBuildError>(e)
        },
        (name_lists_outcome(first_names, last_names, strictness) is Ok) <==> (list_outcome(
            "first_names"@,
            first_names,
            strictness,
        ) is Ok && list_outcome("last_names"@, last_names, strictness) is Ok),
{
}

} // verus!
