//! Lists of words: membership, the check that answers are acceptable
//! guesses, the seeded shuffle, and the answer of a day.
use rand::seq::SliceRandom;
use rand::SeedableRng;
use vstd::prelude::*;
use vstd::string::*;

verus! {

/// The order in which the list `words` comes out of a shuffle seeded with `seed`.
pub uninterp spec fn shuffled(seed: u64, words: Seq<Seq<char>>) -> Seq<Seq<char>>;

/// Relies on rand's `StdRng::seed_from_u64` and `SliceRandom::shuffle`: the
/// generator is a function of the seed, and the shuffle only swaps elements,
/// so the result is a permutation fixed by the seed and the list.
#[verifier::external_body]
pub fn init_shuffle(seed: u64, final_words: &mut Vec<String>)
    ensures
        final(final_words).deep_view() == shuffled(seed, old(final_words).deep_view()),
        final(final_words).deep_view().to_multiset() == old(final_words).deep_view().to_multiset(),
{
    let mut rng = rand::rngs::StdRng::seed_from_u64(seed);
    final_words.shuffle(&mut rng);
}

/// Whether some word of `words` is `word`.
pub open spec fn listed(words: Seq<Seq<char>>, word: Seq<char>) -> bool {
    exists|i: int| 0 <= i < words.len() && words[i] == word
}

/// Whether two strings hold the same characters.
pub fn same_chars(a: &str, b: &str) -> (r: bool)
    ensures
        r == (a@ == b@),
{
    let len = a.unicode_len();
    if len != b.unicode_len() {
        return false;
    }
    for i in 0..len
        invariant
            len == a@.len(),
            len == b@.len(),
            forall|j: int| 0 <= j < i ==> a@[j] == b@[j],
    {
        if a.get_char(i) != b.get_char(i) {
            return false;
        }
    }
    assert(a@ =~= b@);
    true
}

/// Whether `word` is in `words`.
pub fn is_listed(words: &Vec<String>, word: &str) -> (r: bool)
    ensures
        r == listed(words.deep_view(), word@),
{
    for i in 0..words.len()
        invariant
            forall|j: int| 0 <= j < i ==> words.deep_view()[j] != word@,
    {
        assert(words.deep_view()[i as int] == words@[i as int]@);
        if same_chars(words[i].as_str(), word) {
            return true;
        }
    }
    false
}

/// Why the word lists cannot be used.
#[derive(Copy, Clone, PartialEq, Eq, Debug, Structural)]
pub enum WordListError {
    /// Some possible answer is not an acceptable guess.
    NotSubset,
}

/// Checks that every possible answer is an acceptable guess, then, for random
/// answers, shuffles the answers with `seed`.
pub fn prepare_word_lists(
    final_words: &mut Vec<String>,
    acceptable: &Vec<String>,
    random: bool,
    seed: u64,
) -> (r: Result<(), WordListError>)
    ensures
        r is Err <==> (exists|i: int|
            0 <= i < old(final_words)@.len() && !listed(
                acceptable.deep_view(),
                #[trigger] old(final_words).deep_view()[i],
            )),
        r is Err ==> final(final_words)@ == old(final_words)@,
        r is Ok && random ==> final(final_words).deep_view() == shuffled(
            seed,
            old(final_words).deep_view(),
        ),
        r is Ok && !random ==> final(final_words)@ == old(final_words)@,
{
    for i in 0..final_words.len()
        invariant
            forall|j: int| 0 <= j < i ==> listed(acceptable.deep_view(), #[trigger] final_words.deep_view()[j]),
    {
        assert(final_words.deep_view()[i as int] == final_words@[i as int]@);
        if !is_listed(acceptable, final_words[i].as_str()) {
            return Err(WordListError::NotSubset);
        }
    }
    if random {
        init_shuffle(seed, final_words);
    }
    Ok(())
}

/// The answer of day `day` (from one) in the answer list, going round the list
/// once it is used up; none for an empty list or day zero.
pub fn answer_for_day(final_words: &Vec<String>, day: usize) -> (r: Option<String>)
    ensures
        final_words@.len() == 0 || day == 0 ==> r is None,
        final_words@.len() > 0 && day > 0 ==> (r matches Some(w) && w@ == final_words@[(day - 1)
            % final_words@.len() as int]@),
{
    let len = final_words.len();
    if len == 0 || day == 0 {
        return None;
    }
    Some(final_words[(day - 1) % len].clone())
}

} // verus!
