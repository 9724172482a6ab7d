//! Scoring a guess against a secret, the keyboard of known letters, the
//! history of one round and the difficult-mode rule.
//!
//! Words are compared without regard to case: each letter stands for its index
//! in the alphabet (`letter_index`), and a keyboard is one status per index.
use vstd::prelude::*;
use vstd::math::min;
use vstd::string::*;

verus! {

/// Letters in every word of the game.
pub const WORD_LENGTH: usize = 5;

/// Guesses allowed in one round.
pub const MAX_ATTEMPTS: usize = 6;

/// Letters of the alphabet tracked by the keyboard.
pub const ALPHABET_SIZE: usize = 26;

/// How well a letter of a guess matches the secret.
#[derive(Copy, Clone, PartialEq, Eq, Debug, Structural)]
pub enum CharStatus {
    Correct,
    Misplaced,
    Wrong,
    Unknown,
}

impl CharStatus {
    /// One-letter form of the status for plain output: G, Y, R or X.
    pub fn symbol(&self) -> (r: char)
        ensures
            r == match *self {
                CharStatus::Correct => 'G',
                CharStatus::Misplaced => 'Y',
                CharStatus::Wrong => 'R',
                CharStatus::Unknown => 'X',
            },
    {
        match *self {
            CharStatus::Correct => 'G',
            CharStatus::Misplaced => 'Y',
            CharStatus::Wrong => 'R',
            CharStatus::Unknown => 'X',
        }
    }
}

/// Position of a status in the upgrade-only lattice:
/// Correct > Misplaced > Wrong > Unknown.
pub open spec fn rank(s: CharStatus) -> int {
    match s {
        CharStatus::Correct => 3,
        CharStatus::Misplaced => 2,
        CharStatus::Wrong => 1,
        CharStatus::Unknown => 0,
    }
}

/// Index of a letter in the alphabet, ignoring case; -1 for anything else.
pub open spec fn letter_index(c: char) -> int {
    if 'a' <= c && c <= 'z' {
        c as int - 'a' as int
    } else if 'A' <= c && c <= 'Z' {
        c as int - 'A' as int
    } else {
        -1
    }
}

/// Executable counterpart of `letter_index` for letters.
pub fn letter_of(c: char) -> (r: Option<usize>)
    ensures
        r matches Some(k) ==> k as int == letter_index(c) && k < ALPHABET_SIZE,
        r is None <==> letter_index(c) == -1,
{
    if 'a' <= c && c <= 'z' {
        Some((c as u32 - 'a' as u32) as usize)
    } else if 'A' <= c && c <= 'Z' {
        Some((c as u32 - 'A' as u32) as usize)
    } else {
        None
    }
}

/// Whether a sequence of characters is a word of the game:
/// exactly `WORD_LENGTH` letters, in either case.
pub open spec fn is_word(s: Seq<char>) -> bool {
    &&& s.len() == WORD_LENGTH
    &&& forall|i: int| 0 <= i < s.len() ==> 0 <= #[trigger] letter_index(s[i])
}

/// The word as alphabet indices, case folded.
pub open spec fn letters(s: Seq<char>) -> Seq<int> {
    Seq::new(s.len(), |i: int| letter_index(s[i]))
}

/// Positions `j < n` at which `a` holds letter `k`.
pub open spec fn occurrences(a: Seq<int>, k: int, n: int) -> nat
    decreases n,
{
    if n <= 0 {
        0
    } else {
        occurrences(a, k, n - 1) + if a[n - 1] == k { 1nat } else { 0nat }
    }
}

/// Positions `j < n` at which both `a` and `b` hold letter `k`.
pub open spec fn exact(a: Seq<int>, b: Seq<int>, k: int, n: int) -> nat
    decreases n,
{
    if n <= 0 {
        0
    } else {
        exact(a, b, k, n - 1) + if a[n - 1] == k && b[n - 1] == k { 1nat } else { 0nat }
    }
}

/// Positions `j < n` at which `a` holds letter `k` and `b` holds another letter.
pub open spec fn unmatched(a: Seq<int>, b: Seq<int>, k: int, n: int) -> nat
    decreases n,
{
    if n <= 0 {
        0
    } else {
        unmatched(a, b, k, n - 1) + if a[n - 1] == k && b[n - 1] != k { 1nat } else { 0nat }
    }
}

/// Status of position `i` of `guess` against `secret`: exact matches are Correct;
/// otherwise the letter is Misplaced while the secret still has an occurrence of it
/// that is neither matched exactly nor taken by an earlier misplaced position.
pub open spec fn status_at(secret: Seq<int>, guess: Seq<int>, i: int) -> CharStatus {
    if guess[i] == secret[i] {
        CharStatus::Correct
    } else if unmatched(guess, secret, guess[i], i) < unmatched(secret, guess, guess[i], secret.len() as int) {
        CharStatus::Misplaced
    } else {
        CharStatus::Wrong
    }
}

/// Status of every position of `guess` against `secret`.
pub open spec fn score_of(secret: Seq<int>, guess: Seq<int>) -> Seq<CharStatus> {
    Seq::new(guess.len(), |i: int| status_at(secret, guess, i))
}

/// Every status is Correct.
pub open spec fn all_correct(status: Seq<CharStatus>) -> bool {
    forall|i: int| 0 <= i < status.len() ==> status[i] == CharStatus::Correct
}

/// `n` copies of Unknown.
pub open spec fn unknowns(n: nat) -> Seq<CharStatus> {
    Seq::new(n, |i: int| CharStatus::Unknown)
}

/// The lattice maximum of two statuses.
pub open spec fn upgrade(a: CharStatus, b: CharStatus) -> CharStatus {
    if rank(b) > rank(a) {
        b
    } else {
        a
    }
}

/// Best status that the first `n` positions of a scored guess give letter `k`.
pub open spec fn best_status(word: Seq<int>, status: Seq<CharStatus>, k: int, n: int) -> CharStatus
    decreases n,
{
    if n <= 0 {
        CharStatus::Unknown
    } else if word[n - 1] == k {
        upgrade(best_status(word, status, k, n - 1), status[n - 1])
    } else {
        best_status(word, status, k, n - 1)
    }
}

/// The keyboard `kb` after a guess `word` scored `status`: each letter keeps the
/// better of what it had and what the guess showed of it.
pub open spec fn keyboard_after(kb: Seq<CharStatus>, word: Seq<int>, status: Seq<CharStatus>) -> Seq<CharStatus> {
    Seq::new(kb.len(), |k: int| upgrade(kb[k], best_status(word, status, k, word.len() as int)))
}

/// Letter `k` stands at least as high in `hi` as in `lo`, for every letter.
pub open spec fn dominates(hi: Seq<CharStatus>, lo: Seq<CharStatus>) -> bool {
    &&& hi.len() == lo.len()
    &&& forall|k: int| 0 <= k < lo.len() ==> rank(#[trigger] hi[k]) >= rank(lo[k])
}

proof fn lemma_occurrences_split(a: Seq<int>, b: Seq<int>, k: int, n: int)
    ensures
        occurrences(a, k, n) == exact(a, b, k, n) + unmatched(a, b, k, n),
        exact(a, b, k, n) == exact(b, a, k, n),
    decreases n,
{
    if n > 0 {
        lemma_occurrences_split(a, b, k, n - 1);
    }
}

proof fn lemma_occurrences_bound(a: Seq<int>, k: int, n: int)
    requires
        0 <= n,
    ensures
        occurrences(a, k, n) <= n,
    decreases n,
{
    if n > 0 {
        lemma_occurrences_bound(a, k, n - 1);
    }
}

proof fn lemma_exact_monotone(a: Seq<int>, b: Seq<int>, k: int, m: int, n: int)
    requires
        m <= n,
    ensures
        exact(a, b, k, m) <= exact(a, b, k, n),
    decreases n - m,
{
    if m < n {
        lemma_exact_monotone(a, b, k, m, n - 1);
    }
}

proof fn lemma_best_of_unknowns(word: Seq<int>, k: int, n: int)
    requires
        n <= word.len(),
    ensures
        best_status(word, unknowns(word.len()), k, n) == CharStatus::Unknown,
    decreases n,
{
    if n > 0 {
        lemma_best_of_unknowns(word, k, n - 1);
    }
}

/// Folding in a guess whose statuses are all Unknown leaves the keyboard as it was.
proof fn lemma_keyboard_after_unknowns(kb: Seq<CharStatus>, word: Seq<int>)
    ensures
        keyboard_after(kb, word, unknowns(word.len())) == kb,
{
    assert forall|k: int| 0 <= k < kb.len() implies #[trigger] keyboard_after(kb, word, unknowns(word.len()))[k] == kb[k] by {
        lemma_best_of_unknowns(word, k, word.len() as int);
    }
    assert(keyboard_after(kb, word, unknowns(word.len())) =~= kb);
}

fn rank_of(s: CharStatus) -> (r: u8)
    ensures
        r as int == rank(s),
{
    match s {
        CharStatus::Correct => 3,
        CharStatus::Misplaced => 2,
        CharStatus::Wrong => 1,
        CharStatus::Unknown => 0,
    }
}

/// The lattice maximum of two statuses.
pub fn upgrade_status(current: CharStatus, seen: CharStatus) -> (r: CharStatus)
    ensures
        r == upgrade(current, seen),
{
    if rank_of(seen) > rank_of(current) {
        seen
    } else {
        current
    }
}

/// Whether `s` is a word of the game.
pub fn is_valid_word(s: &str) -> (r: bool)
    ensures
        r == is_word(s@),
{
    let len = s.unicode_len();
    if len != WORD_LENGTH {
        return false;
    }
    for i in 0..len
        invariant
            len == s@.len(),
            forall|j: int| 0 <= j < i ==> 0 <= #[trigger] letter_index(s@[j]),
    {
        if letter_of(s.get_char(i)).is_none() {
            return false;
        }
    }
    true
}

/// `n` copies of Unknown.
fn unknown_statuses(n: usize) -> (r: Vec<CharStatus>)
    ensures
        r@ == unknowns(n as nat),
{
    let mut r: Vec<CharStatus> = Vec::new();
    for i in 0..n
        invariant
            r@ =~= unknowns(i as nat),
    {
        r.push(CharStatus::Unknown);
    }
    r
}

/// A copy of a status sequence.
fn copy_statuses(v: &Vec<CharStatus>) -> (r: Vec<CharStatus>)
    ensures
        r@ == v@,
{
    let mut r: Vec<CharStatus> = Vec::new();
    for i in 0..v.len()
        invariant
            r@ =~= v@.subrange(0, i as int),
    {
        r.push(v[i]);
    }
    assert(r@ =~= v@);
    r
}

/// One submitted guess: its letters, the status of each position, and what the
/// keyboard shows of every letter after it (`keyboard[k]` for the `k`-th letter
/// of the alphabet).
pub struct GuessResult {
    pub content: String,
    pub status: Vec<CharStatus>,
    pub keyboard: Vec<CharStatus>,
}

impl GuessResult {
    /// The shape every entry has: a word, one status per letter, one key per letter
    /// of the alphabet.
    pub open spec fn wf(&self) -> bool {
        &&& is_word(self.content@)
        &&& self.status@.len() == WORD_LENGTH
        &&& self.keyboard@.len() == ALPHABET_SIZE
    }

    /// A guess not yet scored, with a keyboard on which nothing is known.
    pub fn new(content: &str) -> (r: Self)
        ensures
            r.content@ == content@,
            r.status@ == unknowns(WORD_LENGTH as nat),
            r.keyboard@ == unknowns(ALPHABET_SIZE as nat),
    {
        GuessResult {
            content: String::from_str(content),
            status: unknown_statuses(WORD_LENGTH),
            keyboard: unknown_statuses(ALPHABET_SIZE),
        }
    }

    /// A guess not yet scored, carrying over this entry's keyboard.
    pub fn with_content(&self, content: &str) -> (r: Self)
        ensures
            r.content@ == content@,
            r.status@ == unknowns(WORD_LENGTH as nat),
            r.keyboard@ == self.keyboard@,
    {
        GuessResult {
            content: String::from_str(content),
            status: unknown_statuses(WORD_LENGTH),
            keyboard: copy_statuses(&self.keyboard),
        }
    }
}

/// Scores guesses against one secret word.
pub struct AnsChecker {
    ans: String,
    counts: Vec<u32>,
}

impl AnsChecker {
    /// The secret word.
    pub closed spec fn answer(&self) -> Seq<char> {
        self.ans@
    }

    /// The secret is a word and the letter table counts its letters.
    pub closed spec fn wf(&self) -> bool {
        &&& is_word(self.ans@)
        &&& self.counts@.len() == ALPHABET_SIZE
        &&& forall|k: int|
            0 <= k < ALPHABET_SIZE ==> #[trigger] self.counts@[k] == occurrences(
                letters(self.ans@),
                k,
                WORD_LENGTH as int,
            )
    }

    /// A checker for the secret `ans`, with the count of each of its letters.
    pub fn new(ans: &str) -> (r: Self)
        requires
            is_word(ans@),
        ensures
            r.wf(),
            r.answer() == ans@,
    {
        let ghost w = letters(ans@);
        let mut counts: Vec<u32> = Vec::new();
        for k in 0..ALPHABET_SIZE
            invariant
                counts@.len() == k,
                forall|j: int| 0 <= j < k ==> #[trigger] counts@[j] == 0,
        {
            counts.push(0);
        }
        for i in 0..WORD_LENGTH
            invariant
                is_word(ans@),
                w == letters(ans@),
                counts@.len() == ALPHABET_SIZE,
                forall|k: int|
                    0 <= k < ALPHABET_SIZE ==> #[trigger] counts@[k] == occurrences(w, k, i as int),
        {
            let c = ans.get_char(i);
            let k = letter_of(c).unwrap();
            assert(0 <= letter_index(ans@[i as int]));
            assert(w[i as int] == k);
            proof {
                assert forall|j: int| 0 <= j < ALPHABET_SIZE implies occurrences(w, j, i as int)
                    <= i by {
                    lemma_occurrences_bound(w, j, i as int);
                }
            }
            counts.set(k, counts[k] + 1);
        }
        AnsChecker { ans: String::from_str(ans), counts }
    }

    /// Scores `guess_result` against the secret: first the exact matches, each of
    /// which takes one occurrence of its letter from the secret, then, left to
    /// right, the other positions, which are Misplaced while an occurrence of their
    /// letter is left (taking it) and Wrong otherwise. The keyboard then takes the
    /// better of what it had and what this guess shows of each letter. Returns
    /// whether every position is Correct.
    pub fn check(&self, guess_result: &mut GuessResult) -> (won: bool)
        requires
            self.wf(),
            old(guess_result).wf(),
        ensures
            final(guess_result).wf(),
            final(guess_result).content == old(guess_result).content,
            final(guess_result).status@ == score_of(
                letters(self.answer()),
                letters(old(guess_result).content@),
            ),
            final(guess_result).keyboard@ == keyboard_after(
                old(guess_result).keyboard@,
                letters(old(guess_result).content@),
                final(guess_result).status@,
            ),
            won == all_correct(final(guess_result).status@),
    {
        let ghost sw = letters(self.ans@);
        let ghost gw = letters(guess_result.content@);
        let ghost n = WORD_LENGTH as int;
        let mut counts: Vec<u32> = Vec::new();
        for k in 0..ALPHABET_SIZE
            invariant
                self.wf(),
                counts@ =~= self.counts@.subrange(0, k as int),
        {
            counts.push(self.counts[k]);
        }
        let mut status = unknown_statuses(WORD_LENGTH);
        // exact matches
        for i in 0..WORD_LENGTH
            invariant
                self.wf(),
                sw == letters(self.ans@),
                gw == letters(guess_result.content@),
                n == WORD_LENGTH,
                is_word(guess_result.content@),
                counts@.len() == ALPHABET_SIZE,
                status@.len() == WORD_LENGTH,
                forall|k: int|
                    0 <= k < ALPHABET_SIZE ==> #[trigger] counts@[k] == occurrences(sw, k, n) - exact(
                        sw,
                        gw,
                        k,
                        i as int,
                    ),
                forall|j: int|
                    0 <= j < WORD_LENGTH ==> #[trigger] status@[j] == if j < i && gw[j] == sw[j] {
                        CharStatus::Correct
                    } else {
                        CharStatus::Unknown
                    },
        {
            let sk = letter_of(self.ans.as_str().get_char(i)).unwrap();
            let gk = letter_of(guess_result.content.as_str().get_char(i)).unwrap();
            assert(0 <= letter_index(self.ans@[i as int]));
            assert(0 <= letter_index(guess_result.content@[i as int]));
            assert(sw[i as int] == sk && gw[i as int] == gk);
            proof {
                assert forall|k: int| 0 <= k < ALPHABET_SIZE implies exact(sw, gw, k, i + 1) <= occurrences(sw, k, n) by {
                    lemma_exact_monotone(sw, gw, k, i + 1, n);
                    lemma_occurrences_split(sw, gw, k, n);
                }
            }
            if sk == gk {
                status.set(i, CharStatus::Correct);
                counts.set(sk, counts[sk] - 1);
            }
        }
        proof {
            assert forall|k: int| 0 <= k < ALPHABET_SIZE implies #[trigger] counts@[k] == unmatched(sw, gw, k, n) by {
                lemma_occurrences_split(sw, gw, k, n);
            }
        }
        // misplaced and absent letters, left to right
        for i in 0..WORD_LENGTH
            invariant
                self.wf(),
                sw == letters(self.ans@),
                gw == letters(guess_result.content@),
                n == WORD_LENGTH,
                is_word(guess_result.content@),
                counts@.len() == ALPHABET_SIZE,
                status@.len() == WORD_LENGTH,
                forall|k: int|
                    0 <= k < ALPHABET_SIZE ==> #[trigger] counts@[k] == if unmatched(gw, sw, k, i as int) < unmatched(sw, gw, k, n) {
                        unmatched(sw, gw, k, n) - unmatched(gw, sw, k, i as int)
                    } else {
                        0
                    },
                forall|j: int|
                    0 <= j < WORD_LENGTH ==> #[trigger] status@[j] == if j < i {
                        status_at(sw, gw, j)
                    } else if gw[j] == sw[j] {
                        CharStatus::Correct
                    } else {
                        CharStatus::Unknown
                    },
        {
            let gk = letter_of(guess_result.content.as_str().get_char(i)).unwrap();
            assert(0 <= letter_index(guess_result.content@[i as int]));
            assert(gw[i as int] == gk);
            if status[i] == CharStatus::Unknown {
                if counts[gk] > 0 {
                    status.set(i, CharStatus::Misplaced);
                    counts.set(gk, counts[gk] - 1);
                } else {
                    status.set(i, CharStatus::Wrong);
                }
            }
        }
        assert(status@ =~= score_of(sw, gw));
        // keyboard
        let ghost kb0 = guess_result.keyboard@;
        let mut keyboard = copy_statuses(&guess_result.keyboard);
        for i in 0..WORD_LENGTH
            invariant
                gw == letters(guess_result.content@),
                is_word(guess_result.content@),
                kb0 == guess_result.keyboard@,
                kb0.len() == ALPHABET_SIZE,
                status@.len() == WORD_LENGTH,
                keyboard@.len() == ALPHABET_SIZE,
                forall|k: int|
                    0 <= k < ALPHABET_SIZE ==> #[trigger] keyboard@[k] == upgrade(
                        kb0[k],
                        best_status(gw, status@, k, i as int),
                    ),
        {
            let gk = letter_of(guess_result.content.as_str().get_char(i)).unwrap();
            assert(0 <= letter_index(guess_result.content@[i as int]));
            assert(gw[i as int] == gk);
            let up = upgrade_status(keyboard[gk], status[i]);
            keyboard.set(gk, up);
        }
        assert(keyboard@ =~= keyboard_after(kb0, gw, status@));
        let mut won = true;
        for i in 0..WORD_LENGTH
            invariant
                status@.len() == WORD_LENGTH,
                won == (forall|j: int| 0 <= j < i ==> status@[j] == CharStatus::Correct),
        {
            if status[i] != CharStatus::Correct {
                won = false;
            }
        }
        guess_result.status = status;
        guess_result.keyboard = keyboard;
        won
    }
}

/// Malformed input to the scorer.
#[derive(Copy, Clone, PartialEq, Eq, Debug, Structural)]
pub enum ScoreError {
    /// The secret or the guess is not exactly `WORD_LENGTH` letters.
    MalformedInput,
}

/// Scores `guess` against `secret`, both compared without regard to case.
pub fn score(secret: &str, guess: &str) -> (r: Result<Vec<CharStatus>, ScoreError>)
    ensures
        r is Err <==> !(is_word(secret@) && is_word(guess@)),
        r matches Ok(status) ==> status@ == score_of(letters(secret@), letters(guess@)),
{
    if !is_valid_word(secret) || !is_valid_word(guess) {
        return Err(ScoreError::MalformedInput);
    }
    let checker = AnsChecker::new(secret);
    let mut result = GuessResult::new(guess);
    checker.check(&mut result);
    Ok(result.status)
}

/// Positions `j < n` that a scored guess shows to hold letter `k`
/// (Correct or Misplaced).
pub open spec fn confirmed(word: Seq<int>, status: Seq<CharStatus>, k: int, n: int) -> nat
    decreases n,
{
    if n <= 0 {
        0
    } else {
        confirmed(word, status, k, n - 1) + if word[n - 1] == k && (status[n - 1]
            == CharStatus::Correct || status[n - 1] == CharStatus::Misplaced) {
            1nat
        } else {
            0nat
        }
    }
}

/// Whether `candidate` keeps what a previous guess `word`, scored `status`,
/// confirmed: each Correct letter in its place, and each letter at least as many
/// times as that guess had it Correct or Misplaced.
pub open spec fn keeps_confirmed(word: Seq<int>, status: Seq<CharStatus>, candidate: Seq<int>) -> bool {
    &&& forall|i: int|
        0 <= i < word.len() && status[i] == CharStatus::Correct ==> candidate[i] == word[i]
    &&& forall|k: int|
        0 <= k < ALPHABET_SIZE ==> confirmed(word, status, k, word.len() as int) <= occurrences(
            candidate,
            k,
            candidate.len() as int,
        )
}

/// Keyboard before entry `i` of a history: nothing known before the first.
pub open spec fn keyboard_before(h: Seq<GuessResult>, i: int) -> Seq<CharStatus> {
    if i == 0 {
        unknowns(ALPHABET_SIZE as nat)
    } else {
        h[i - 1].keyboard@
    }
}

/// The guesses of one round, oldest first.
pub struct Guess {
    pub history: Vec<GuessResult>,
}

impl Guess {
    /// Every entry is well formed and its keyboard is the previous one (or an
    /// empty keyboard) with the entry's own statuses folded in.
    pub open spec fn wf(&self) -> bool {
        forall|i: int|
            0 <= i < self.history@.len() ==> {
                &&& (#[trigger] self.history@[i]).wf()
                &&& self.history@[i].keyboard@ == keyboard_after(
                    keyboard_before(self.history@, i),
                    letters(self.history@[i].content@),
                    self.history@[i].status@,
                )
            }
    }

    /// Whether a candidate passes the difficult-mode rule against this history.
    pub open spec fn allows(&self, is_difficult: bool, guess: Seq<char>) -> bool {
        let h = self.history@;
        !is_difficult || h.len() == 0 || keeps_confirmed(
            letters(h.last().content@),
            h.last().status@,
            letters(guess),
        )
    }

    /// Whether the last entry is all Correct.
    pub open spec fn won(&self) -> bool {
        self.history@.len() > 0 && all_correct(self.history@.last().status@)
    }

    /// An empty history.
    pub fn new() -> (r: Self)
        ensures
            r.history@.len() == 0,
            r.wf(),
    {
        Guess { history: Vec::new() }
    }

    /// Adds `guess`, not yet scored, whose keyboard carries over that of the
    /// last entry (nothing known if there is none).
    pub fn append(&mut self, guess: &str)
        requires
            old(self).wf(),
            is_word(guess@),
        ensures
            final(self).wf(),
            final(self).history@.len() == old(self).history@.len() + 1,
            final(self).history@.subrange(0, old(self).history@.len() as int) == old(self).history@,
            final(self).history@.last().content@ == guess@,
            final(self).history@.last().status@ == unknowns(WORD_LENGTH as nat),
            final(self).history@.last().keyboard@ == keyboard_before(
                old(self).history@,
                old(self).history@.len() as int,
            ),
    {
        let len = self.history.len();
        let entry = if len == 0 {
            GuessResult::new(guess)
        } else {
            self.history[len - 1].with_content(guess)
        };
        proof {
            lemma_keyboard_after_unknowns(entry.keyboard@, letters(guess@));
        }
        self.history.push(entry);
        assert(self.history@.subrange(0, len as int) =~= old(self).history@);
        assert forall|i: int| 0 <= i < self.history@.len() implies keyboard_before(self.history@, i) == keyboard_before(old(self).history@, i) || i == len by {}
    }

    /// Scores the last entry with `checker`, folding its statuses into its
    /// keyboard. Returns whether every position is Correct.
    pub fn score_last(&mut self, checker: &AnsChecker) -> (won: bool)
        requires
            old(self).wf(),
            old(self).history@.len() > 0,
            old(self).history@.last().status@ == unknowns(WORD_LENGTH as nat),
            checker.wf(),
        ensures
            final(self).wf(),
            final(self).history@.len() == old(self).history@.len(),
            final(self).history@.drop_last() == old(self).history@.drop_last(),
            final(self).history@.last().content@ == old(self).history@.last().content@,
            final(self).history@.last().status@ == score_of(
                letters(checker.answer()),
                letters(old(self).history@.last().content@),
            ),
            won == final(self).won(),
    {
        let ghost h0 = self.history@;
        let ghost n = h0.len() as int;
        let mut entry = self.history.pop().unwrap();
        proof {
            lemma_keyboard_after_unknowns(keyboard_before(h0, n - 1), letters(entry.content@));
        }
        let won = checker.check(&mut entry);
        self.history.push(entry);
        assert(self.history@.drop_last() =~= h0.drop_last());
        assert forall|i: int| 0 <= i < n implies keyboard_before(self.history@, i) == keyboard_before(h0, i) by {}
        won
    }

    /// The most recent entry, if any.
    pub fn last(&self) -> (r: Option<&GuessResult>)
        ensures
            self.history@.len() == 0 ==> r is None,
            self.history@.len() > 0 ==> r == Some(&self.history@.last()),
    {
        let len = self.history.len();
        if len == 0 {
            None
        } else {
            Some(&self.history[len - 1])
        }
    }

    /// Whether the last entry is all Correct.
    pub fn is_won(&self) -> (r: bool)
        requires
            self.wf(),
        ensures
            r == self.won(),
    {
        let len = self.history.len();
        if len == 0 {
            return false;
        }
        let last = &self.history[len - 1];
        let mut all = true;
        for i in 0..last.status.len()
            invariant
                all == (forall|j: int| 0 <= j < i ==> last.status@[j] == CharStatus::Correct),
        {
            if last.status[i] != CharStatus::Correct {
                all = false;
            }
        }
        all
    }

    /// Whether `guess` may be played next: always outside difficult mode and
    /// on an empty history; otherwise only if it keeps what the last guess
    /// confirmed (not guesses before it).
    pub fn difficult_check(&self, is_difficult: bool, guess: &str) -> (r: bool)
        requires
            self.wf(),
            is_word(guess@),
        ensures
            r == self.allows(is_difficult, guess@),
    {
        if !is_difficult {
            return true;
        }
        let len = self.history.len();
        if len == 0 {
            return true;
        }
        let last = &self.history[len - 1];
        assert(self.history@.last() == *last);
        assert(last.wf());
        let ghost pw = letters(last.content@);
        let ghost gw = letters(guess@);
        let ghost ps = last.status@;
        let ghost n = WORD_LENGTH as int;
        let mut last_counts: Vec<u32> = Vec::new();
        let mut this_counts: Vec<u32> = Vec::new();
        for k in 0..ALPHABET_SIZE
            invariant
                last_counts@.len() == k,
                this_counts@.len() == k,
                forall|j: int| 0 <= j < k ==> #[trigger] last_counts@[j] == 0,
                forall|j: int| 0 <= j < k ==> #[trigger] this_counts@[j] == 0,
        {
            last_counts.push(0);
            this_counts.push(0);
        }
        for i in 0..WORD_LENGTH
            invariant
                is_difficult,
                self.history@.len() > 0,
                self.history@.last() == *last,
                last.wf(),
                is_word(guess@),
                pw == letters(last.content@),
                gw == letters(guess@),
                ps == last.status@,
                last_counts@.len() == ALPHABET_SIZE,
                this_counts@.len() == ALPHABET_SIZE,
                forall|j: int|
                    0 <= j < i && ps[j] == CharStatus::Correct ==> gw[j] == pw[j],
                forall|k: int|
                    0 <= k < ALPHABET_SIZE ==> #[trigger] last_counts@[k] == confirmed(pw, ps, k, i as int),
                forall|k: int|
                    0 <= k < ALPHABET_SIZE ==> #[trigger] this_counts@[k] == occurrences(gw, k, i as int),
        {
            let pk = letter_of(last.content.as_str().get_char(i)).unwrap();
            let gk = letter_of(guess.get_char(i)).unwrap();
            assert(0 <= letter_index(last.content@[i as int]));
            assert(0 <= letter_index(guess@[i as int]));
            assert(pw[i as int] == pk && gw[i as int] == gk);
            let st = last.status[i];
            if st == CharStatus::Correct && pk != gk {
                assert(ps[i as int] == CharStatus::Correct && gw[i as int] != pw[i as int]);
                assert(!keeps_confirmed(pw, ps, gw));
                return false;
            }
            proof {
                lemma_confirmed_bound(pw, ps, pk as int, i as int);
                lemma_occurrences_bound(gw, gk as int, i as int);
            }
            if st == CharStatus::Correct || st == CharStatus::Misplaced {
                last_counts.set(pk, last_counts[pk] + 1);
            }
            this_counts.set(gk, this_counts[gk] + 1);
        }
        for k in 0..ALPHABET_SIZE
            invariant
                is_difficult,
                self.history@.len() > 0,
                self.history@.last() == *last,
                last.wf(),
                is_word(guess@),
                pw == letters(last.content@),
                gw == letters(guess@),
                ps == last.status@,
                n == WORD_LENGTH,
                forall|j: int|
                    0 <= j < n && ps[j] == CharStatus::Correct ==> gw[j] == pw[j],
                last_counts@.len() == ALPHABET_SIZE,
                this_counts@.len() == ALPHABET_SIZE,
                forall|j: int|
                    0 <= j < k ==> confirmed(pw, ps, j, n) <= occurrences(gw, j, n),
                forall|k: int|
                    0 <= k < ALPHABET_SIZE ==> #[trigger] last_counts@[k] == confirmed(pw, ps, k, n),
                forall|k: int|
                    0 <= k < ALPHABET_SIZE ==> #[trigger] this_counts@[k] == occurrences(gw, k, n),
        {
            if last_counts[k] > this_counts[k] {
                assert(confirmed(pw, ps, k as int, pw.len() as int) > occurrences(gw, k as int, gw.len() as int));
                return false;
            }
        }
        true
    }
}

proof fn lemma_confirmed_bound(word: Seq<int>, status: Seq<CharStatus>, k: int, n: int)
    requires
        0 <= n,
    ensures
        confirmed(word, status, k, n) <= n,
    decreases n,
{
    if n > 0 {
        lemma_confirmed_bound(word, status, k, n - 1);
    }
}

/// A word scored against itself is all Correct.
pub proof fn lemma_score_self(word: Seq<char>)
    requires
        is_word(word),
    ensures
        all_correct(score_of(letters(word), letters(word))),
{
}

proof fn lemma_confirmed_prefix(sw: Seq<int>, gw: Seq<int>, k: int, m: int)
    requires
        sw.len() == gw.len(),
        0 <= m <= gw.len(),
    ensures
        confirmed(gw, score_of(sw, gw), k, m) == exact(gw, sw, k, m) + min(
            unmatched(gw, sw, k, m) as int,
            unmatched(sw, gw, k, sw.len() as int) as int,
        ),
    decreases m,
{
    if m > 0 {
        lemma_confirmed_prefix(sw, gw, k, m - 1);
    }
}

/// A letter is shown present (Correct or Misplaced) as many times as it occurs
/// in the guess or in the secret, whichever is fewer: never more often than the
/// secret holds it.
pub proof fn lemma_multiplicity(secret: Seq<char>, guess: Seq<char>, k: int)
    requires
        is_word(secret),
        is_word(guess),
    ensures
        confirmed(letters(guess), score_of(letters(secret), letters(guess)), k, WORD_LENGTH as int)
            == min(
            occurrences(letters(guess), k, WORD_LENGTH as int) as int,
            occurrences(letters(secret), k, WORD_LENGTH as int) as int,
        ),
        confirmed(letters(guess), score_of(letters(secret), letters(guess)), k, WORD_LENGTH as int)
            <= occurrences(letters(secret), k, WORD_LENGTH as int),
{
    let sw = letters(secret);
    let gw = letters(guess);
    let n = WORD_LENGTH as int;
    lemma_confirmed_prefix(sw, gw, k, n);
    lemma_occurrences_split(sw, gw, k, n);
    lemma_occurrences_split(gw, sw, k, n);
}

/// Folding a scored guess into a keyboard never lowers any letter.
pub proof fn lemma_keyboard_after_dominates(kb: Seq<CharStatus>, word: Seq<int>, status: Seq<CharStatus>)
    ensures
        dominates(keyboard_after(kb, word, status), kb),
{
}

/// Across a round's history the keyboard never goes down: every letter stands at
/// least as high after a later guess as after an earlier one, and at least as
/// high as on the empty keyboard.
pub proof fn lemma_keyboard_monotone(g: Guess, i: int, j: int)
    requires
        g.wf(),
        0 <= i <= j < g.history@.len(),
    ensures
        dominates(g.history@[j].keyboard@, g.history@[i].keyboard@),
        dominates(g.history@[i].keyboard@, unknowns(ALPHABET_SIZE as nat)),
    decreases j,
{
    let h = g.history@;
    assert(h[i].wf());
    if i == 0 {
        lemma_keyboard_after_dominates(keyboard_before(h, 0), letters(h[0].content@), h[0].status@);
    } else {
        lemma_keyboard_monotone(g, i - 1, i - 1);
        lemma_keyboard_after_dominates(keyboard_before(h, i), letters(h[i].content@), h[i].status@);
    }
    if j > i {
        assert(h[j].wf());
        lemma_keyboard_monotone(g, i, j - 1);
        lemma_keyboard_after_dominates(keyboard_before(h, j), letters(h[j].content@), h[j].status@);
    }
}

/// With difficult mode on, a candidate that drops a letter the last guess had
/// Correct at position `p` is refused; with it off, the same candidate passes.
pub proof fn lemma_difficult_gate(g: Guess, p: int, candidate: Seq<char>)
    requires
        g.wf(),
        g.history@.len() > 0,
        0 <= p < WORD_LENGTH,
        g.history@.last().status@[p] == CharStatus::Correct,
        letters(candidate)[p] != letters(g.history@.last().content@)[p],
        is_word(candidate),
    ensures
        !g.allows(true, candidate),
        g.allows(false, candidate),
{
    assert(g.history@.last().wf());
}

} // verus!
