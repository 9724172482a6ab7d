//! Statistics over many rounds, the ranking of guessed words, and the rounds
//! kept between runs.
use crate::game::Guess;
use vstd::prelude::*;
use vstd::string::*;

verus! {

/// What `str::to_lowercase` makes of a string.
pub uninterp spec fn lower_of(s: Seq<char>) -> Seq<char>;

/// Relies on `str::to_lowercase`: its result depends on the characters alone.
#[verifier::external_body]
fn to_lower(s: &str) -> (r: String)
    ensures
        r@ == lower_of(s@),
{
    s.to_lowercase()
}

/// What `str::to_uppercase` makes of a string.
pub uninterp spec fn upper_of(s: Seq<char>) -> Seq<char>;

/// Relies on `str::to_uppercase`: its result depends on the characters alone.
#[verifier::external_body]
fn to_upper(s: &str) -> (r: String)
    ensures
        r@ == upper_of(s@),
{
    s.to_uppercase()
}

/// Lexicographic order on character sequences, by code point; a proper prefix
/// comes first.
pub open spec fn lex_lt(a: Seq<char>, b: Seq<char>) -> bool
    decreases a.len(),
{
    if a.len() == 0 {
        b.len() > 0
    } else if b.len() == 0 {
        false
    } else if a[0] != b[0] {
        a[0] < b[0]
    } else {
        lex_lt(a.drop_first(), b.drop_first())
    }
}

proof fn lemma_lex_irreflexive(a: Seq<char>)
    ensures
        !lex_lt(a, a),
    decreases a.len(),
{
    if a.len() > 0 {
        lemma_lex_irreflexive(a.drop_first());
    }
}

proof fn lemma_lex_total(a: Seq<char>, b: Seq<char>)
    requires
        a != b,
    ensures
        lex_lt(a, b) || lex_lt(b, a),
        !(lex_lt(a, b) && lex_lt(b, a)),
    decreases a.len(),
{
    if a.len() == 0 && b.len() == 0 {
        assert(a =~= b);
    }
    if a.len() > 0 && b.len() > 0 && a[0] == b[0] {
        if a.drop_first() == b.drop_first() {
            assert(a.len() == b.drop_first().len() + 1);
            assert(a =~= b) by {
                assert forall|i: int| 0 <= i < a.len() implies a[i] == b[i] by {
                    if i > 0 {
                        assert(a[i] == a.drop_first()[i - 1]);
                        assert(b[i] == b.drop_first()[i - 1]);
                    }
                }
            }
        }
        lemma_lex_total(a.drop_first(), b.drop_first());
    }
}

proof fn lemma_lex_transitive(a: Seq<char>, b: Seq<char>, c: Seq<char>)
    requires
        lex_lt(a, b),
        lex_lt(b, c),
    ensures
        lex_lt(a, c),
    decreases a.len(),
{
    if a.len() > 0 && b.len() > 0 && c.len() > 0 && a[0] == b[0] && b[0] == c[0] {
        lemma_lex_transitive(a.drop_first(), b.drop_first(), c.drop_first());
    }
}

/// Whether `a` comes before `b` in lexicographic order.
pub fn str_less(a: &str, b: &str) -> (r: bool)
    ensures
        r == lex_lt(a@, b@),
{
    let la = a.unicode_len();
    let lb = b.unicode_len();
    let mut i: usize = 0;
    assert(a@.skip(0) =~= a@);
    assert(b@.skip(0) =~= b@);
    while i < la && i < lb
        invariant
            la == a@.len(),
            lb == b@.len(),
            i <= la,
            i <= lb,
            lex_lt(a@, b@) == lex_lt(a@.skip(i as int), b@.skip(i as int)),
        decreases la - i,
    {
        let ca = a.get_char(i);
        let cb = b.get_char(i);
        if ca != cb {
            assert(a@.skip(i as int)[0] == ca);
            assert(b@.skip(i as int)[0] == cb);
            return ca < cb;
        }
        assert(a@.skip(i as int).drop_first() =~= a@.skip(i + 1));
        assert(b@.skip(i as int).drop_first() =~= b@.skip(i + 1));
        i = i + 1;
    }
    i < lb
}

/// A tally of a guessed word comes before another when it is higher, or, on a
/// tie, when its word comes first lexicographically.
pub open spec fn ranks_before(a: (Seq<char>, nat), b: (Seq<char>, nat)) -> bool {
    a.1 > b.1 || (a.1 == b.1 && lex_lt(a.0, b.0))
}

/// `top` holds the best `n` tallies of `tallies` (all of them if there are fewer),
/// best first.
pub open spec fn is_top(tallies: Seq<(Seq<char>, nat)>, top: Seq<(Seq<char>, nat)>, n: nat) -> bool {
    &&& top.len() == if n < tallies.len() { n } else { tallies.len() }
    &&& forall|i: int| 0 <= i < top.len() ==> tallies.contains(#[trigger] top[i])
    &&& forall|i: int, j: int| 0 <= i < j < top.len() ==> ranks_before(top[i], top[j])
    &&& forall|i: int, j: int|
        0 <= i < top.len() && 0 <= j < tallies.len() && !top.contains(tallies[j]) ==> #[trigger] ranks_before(
            top[i],
            tallies[j],
        )
}

proof fn lemma_ranks_total(a: (Seq<char>, nat), b: (Seq<char>, nat))
    requires
        a.0 != b.0,
    ensures
        ranks_before(a, b) || ranks_before(b, a),
        !(ranks_before(a, b) && ranks_before(b, a)),
{
    lemma_lex_total(a.0, b.0);
}

proof fn lemma_ranks_transitive(a: (Seq<char>, nat), b: (Seq<char>, nat), c: (Seq<char>, nat))
    requires
        ranks_before(a, b),
        ranks_before(b, c),
    ensures
        ranks_before(a, c),
{
    if a.1 == b.1 && b.1 == c.1 {
        lemma_lex_transitive(a.0, b.0, c.0);
    }
}

proof fn lemma_ranks_irreflexive(a: (Seq<char>, nat))
    ensures
        !ranks_before(a, a),
{
    lemma_lex_irreflexive(a.0);
}

/// Where `w` stands among the tallies, or -1.
pub open spec fn index_of(t: Seq<(Seq<char>, nat)>, w: Seq<char>) -> int
    decreases t.len(),
{
    if t.len() == 0 {
        -1
    } else if t.last().0 == w {
        t.len() - 1
    } else {
        index_of(t.drop_last(), w)
    }
}

/// The tallies after one more guess of `w`: its tally goes up by one, or it
/// comes last with a tally of one.
pub open spec fn tally_one(t: Seq<(Seq<char>, nat)>, w: Seq<char>) -> Seq<(Seq<char>, nat)> {
    let i = index_of(t, w);
    if i >= 0 {
        t.update(i, (w, t[i].1 + 1))
    } else {
        t.push((w, 1nat))
    }
}

proof fn lemma_index_of(t: Seq<(Seq<char>, nat)>, w: Seq<char>, i: int)
    requires
        -1 <= i < t.len(),
        i >= 0 ==> t[i].0 == w,
        forall|j: int| 0 <= j < t.len() && j != i ==> (#[trigger] t[j]).0 != w,
    ensures
        index_of(t, w) == i,
    decreases t.len(),
{
    if t.len() > 0 && i != t.len() - 1 {
        assert(t.last() == t[t.len() - 1]);
        lemma_index_of(t.drop_last(), w, i);
    }
}

/// The tallies after guesses of `ws`, in order.
pub open spec fn tally_words(t: Seq<(Seq<char>, nat)>, ws: Seq<Seq<char>>) -> Seq<(Seq<char>, nat)>
    decreases ws.len(),
{
    if ws.len() == 0 {
        t
    } else {
        tally_one(tally_words(t, ws.drop_last()), lower_of(ws.last()))
    }
}

/// `k` more guesses can be tallied without a tally passing `u32::MAX`.
pub open spec fn fits(t: Seq<(Seq<char>, nat)>, k: nat) -> bool {
    &&& k <= u32::MAX
    &&& forall|i: int| 0 <= i < t.len() ==> #[trigger] t[i].1 + k <= u32::MAX
}

proof fn lemma_index_of_range(t: Seq<(Seq<char>, nat)>, w: Seq<char>)
    ensures
        -1 <= index_of(t, w) < t.len(),
        index_of(t, w) >= 0 ==> t[index_of(t, w)].0 == w,
    decreases t.len(),
{
    if t.len() > 0 {
        lemma_index_of_range(t.drop_last(), w);
    }
}

proof fn lemma_fits_after_one(t: Seq<(Seq<char>, nat)>, w: Seq<char>, k: nat)
    requires
        fits(t, k),
        k >= 1,
    ensures
        fits(tally_one(t, w), (k - 1) as nat),
{
    lemma_index_of_range(t, w);
}

/// Outcome of one round.
struct GameStat {
    win: bool,
    attempts: usize,
}

impl GameStat {
    fn new(win: bool, attempts: usize) -> (r: Self)
        ensures
            r.win == win,
            r.attempts == attempts,
    {
        GameStat { win, attempts }
    }
}

/// Number of won rounds among `games`.
pub open spec fn wins_in(games: Seq<(bool, nat)>) -> nat
    decreases games.len(),
{
    if games.len() == 0 {
        0
    } else {
        wins_in(games.drop_last()) + if games.last().0 { 1nat } else { 0nat }
    }
}

/// Sum of the attempts of the won rounds among `games`.
pub open spec fn win_attempts_in(games: Seq<(bool, nat)>) -> nat
    decreases games.len(),
{
    if games.len() == 0 {
        0
    } else {
        win_attempts_in(games.drop_last()) + if games.last().0 { games.last().1 } else { 0nat }
    }
}

/// Statistics over many rounds: each round's outcome, and how often each word
/// was guessed.
pub struct GameRecorder {
    games: Vec<GameStat>,
    tried_words: Vec<String>,
    tried_counts: Vec<u32>,
    win: u32,
    lose: u32,
}

impl GameRecorder {
    /// Each recorded round: whether it was won, and its attempts.
    pub closed spec fn games(&self) -> Seq<(bool, nat)> {
        self.games@.map_values(|g: GameStat| (g.win, g.attempts as nat))
    }

    /// Each guessed word with its tally, in the order first guessed.
    pub closed spec fn tallies(&self) -> Seq<(Seq<char>, nat)> {
        Seq::new(
            self.tried_words@.len(),
            |i: int| (self.tried_words@[i]@, self.tried_counts@[i] as nat),
        )
    }

    /// Won rounds.
    pub closed spec fn wins(&self) -> nat {
        self.win as nat
    }

    /// Lost rounds.
    pub closed spec fn losses(&self) -> nat {
        self.lose as nat
    }

    /// The counters agree with the rounds, and each word has one tally.
    pub closed spec fn wf(&self) -> bool {
        &&& self.tried_words@.len() == self.tried_counts@.len()
        &&& self.win as nat == wins_in(self.games())
        &&& self.win as nat + self.lose as nat == self.games@.len()
        &&& forall|i: int, j: int|
            0 <= i < j < self.tried_words@.len() ==> (#[trigger] self.tried_words@[i])@
                != (#[trigger] self.tried_words@[j])@
    }

    /// Another word can be tallied without a tally overflowing.
    pub closed spec fn has_room(&self) -> bool {
        forall|i: int| 0 <= i < self.tried_counts@.len() ==> #[trigger] self.tried_counts@[i] < u32::MAX
    }

    /// A recorder with nothing recorded.
    pub fn new() -> (r: Self)
        ensures
            r.wf(),
            r.has_room(),
            r.games() == Seq::<(bool, nat)>::empty(),
            r.tallies() == Seq::<(Seq<char>, nat)>::empty(),
            r.wins() == 0,
            r.losses() == 0,
    {
        let r = GameRecorder {
            games: Vec::new(),
            tried_words: Vec::new(),
            tried_counts: Vec::new(),
            win: 0,
            lose: 0,
        };
        assert(r.games() =~= Seq::<(bool, nat)>::empty());
        assert(r.tallies() =~= Seq::<(Seq<char>, nat)>::empty());
        r
    }

    /// Records a round that was won or lost after `attempts` guesses.
    pub fn add_game(&mut self, win: bool, attempts: usize)
        requires
            old(self).wf(),
            old(self).games().len() < u32::MAX,
        ensures
            final(self).wf(),
            final(self).games() == old(self).games().push((win, attempts as nat)),
            final(self).tallies() == old(self).tallies(),
            final(self).has_room() == old(self).has_room(),
            final(self).wins() == old(self).wins() + if win { 1nat } else { 0nat },
            final(self).losses() == old(self).losses() + if win { 0nat } else { 1nat },
    {
        self.games.push(GameStat::new(win, attempts));
        assert(self.games().drop_last() =~= old(self).games());
        assert(self.games() =~= old(self).games().push((win, attempts as nat)));
        if win {
            self.win = self.win + 1;
        } else {
            self.lose = self.lose + 1;
        }
        assert(self.tallies() =~= old(self).tallies());
    }

    proof fn lemma_fits_room(&self, k: nat)
        requires
            self.wf(),
            fits(self.tallies(), k),
            k >= 1,
        ensures
            self.has_room(),
    {
        assert forall|i: int| 0 <= i < self.tried_counts@.len() implies #[trigger] self.tried_counts@[i] < u32::MAX by {
            assert(self.tallies()[i].1 == self.tried_counts@[i]);
        }
    }

    /// Whether one more round and one more guessed word can be recorded
    /// without a counter overflowing.
    pub fn can_record(&self) -> (r: bool)
        requires
            self.wf(),
        ensures
            r == (self.has_room() && self.games().len() < u32::MAX),
    {
        if self.games.len() >= u32::MAX as usize {
            return false;
        }
        for i in 0..self.tried_counts.len()
            invariant
                forall|j: int| 0 <= j < i ==> #[trigger] self.tried_counts@[j] < u32::MAX,
        {
            if self.tried_counts[i] == u32::MAX {
                return false;
            }
        }
        true
    }

    /// Sum of the attempts over the won rounds.
    pub fn win_attempts(&self) -> (r: u128)
        requires
            self.wf(),
        ensures
            r == win_attempts_in(self.games()),
    {
        let ghost g = self.games();
        let mut sum: u128 = 0;
        for i in 0..self.games.len()
            invariant
                g == self.games(),
                g.len() == self.games@.len(),
                sum == win_attempts_in(g.subrange(0, i as int)),
                sum <= i * (usize::MAX as u128),
        {
            let st = &self.games[i];
            assert(g.subrange(0, i + 1).drop_last() =~= g.subrange(0, i as int));
            assert(g[i as int] == (st.win, st.attempts as nat));
            if st.win {
                assert(sum + st.attempts <= (i + 1) * (usize::MAX as u128)) by (nonlinear_arith)
                    requires
                        sum <= i * (usize::MAX as u128),
                        st.attempts <= usize::MAX,
                ;
                assert((i + 1) * (usize::MAX as u128) <= (usize::MAX as u128) * (usize::MAX as u128)) by (nonlinear_arith)
                    requires
                        i < usize::MAX,
                ;
                sum = sum + st.attempts as u128;
            } else {
                assert(sum <= (i + 1) * (usize::MAX as u128)) by (nonlinear_arith)
                    requires
                        sum <= i * (usize::MAX as u128),
                ;
            }
        }
        assert(g.subrange(0, g.len() as int) =~= g);
        sum
    }

    /// Won and lost rounds, the attempts summed over the won ones, and the `n`
    /// most guessed words.
    pub fn summary(&self, n: usize) -> (r: Summary)
        requires
            self.wf(),
        ensures
            r.wins == self.wins(),
            r.losses == self.losses(),
            r.win_attempts == win_attempts_in(self.games()),
            is_top(self.tallies(), tally_view(r.top_words@), n as nat),
    {
        Summary {
            wins: self.win,
            losses: self.lose,
            win_attempts: self.win_attempts(),
            top_words: self.top_words(n),
        }
    }

    /// Why past rounds `data` would be refused, if they would: one of them has no
    /// guesses, or else a counter could pass `u32::MAX`.
    pub closed spec fn saved_refusal(&self, data: &GameData) -> Option<RecordError> {
        if exists|i: int| 0 <= i < data.games@.len() && (#[trigger] data.games@[i]).guesses@.len() == 0 {
            Some(RecordError::EmptyGame)
        } else if self.games().len() + data.games@.len() >= u32::MAX || !fits(
            self.tallies(),
            saved_words(data.games@).len(),
        ) {
            Some(RecordError::Overflow)
        } else {
            None
        }
    }

    /// Adds past rounds: each as a round won when its last guess is its answer,
    /// with as many attempts as guesses, and each of its guesses as a guessed
    /// word. Refused, and nothing added, if a past round has no guesses or a
    /// counter could overflow.
    pub fn add_saved_games(&mut self, data: &GameData) -> (r: Result<(), RecordError>)
        requires
            old(self).wf(),
        ensures
            final(self).wf(),
            r is Err <==> (old(self).saved_refusal(data) is Some),
            r matches Err(e) ==> (old(self).saved_refusal(data) == Some(e)),
            r is Err ==> (final(self).games() == old(self).games() && final(self).tallies() == old(self).tallies()),
            r is Ok ==> final(self).games() == old(self).games() + saved_outcomes(data.games@)
                && final(self).tallies() == tally_words(old(self).tallies(), saved_words(data.games@)),
    {
        let ghost gs = data.games@;
        let ng = data.games.len();
        let mut total: u64 = 0;
        for i in 0..ng
            invariant
                self.wf(),
                gs == data.games@,
                ng == gs.len(),
                total == saved_words(gs.subrange(0, i as int)).len(),
                total <= u32::MAX,
                forall|j: int| 0 <= j < i ==> (#[trigger] gs[j]).guesses@.len() > 0,
        {
            let len = data.games[i].guesses.len();
            assert(gs.subrange(0, i + 1).drop_last() =~= gs.subrange(0, i as int));
            if len == 0 {
                return Err(RecordError::EmptyGame);
            }
            if len as u64 > u32::MAX as u64 - total {
                proof {
                    assert(saved_words(gs.subrange(0, i + 1)).len() > u32::MAX);
                    lemma_saved_words_prefix(gs, i + 1, gs.len() as int);
                    assert(gs.subrange(0, gs.len() as int) =~= gs);
                }
                for j in i + 1..ng
                    invariant
                        self.wf(),
                        gs == data.games@,
                        ng == gs.len(),
                        forall|k: int| 0 <= k < j ==> (#[trigger] gs[k]).guesses@.len() > 0,
                {
                    if data.games[j].guesses.len() == 0 {
                        return Err(RecordError::EmptyGame);
                    }
                }
                return Err(RecordError::Overflow);
            }
            total = total + len as u64;
        }
        assert(gs.subrange(0, ng as int) =~= gs);
        if ng >= u32::MAX as usize || self.games.len() >= u32::MAX as usize - ng {
            return Err(RecordError::Overflow);
        }
        for i in 0..self.tried_counts.len()
            invariant
                self.wf(),
                gs == data.games@,
                ng == gs.len(),
                forall|j: int| 0 <= j < ng ==> (#[trigger] gs[j]).guesses@.len() > 0,
                total == saved_words(gs).len(),
                total <= u32::MAX,
                forall|j: int| 0 <= j < i ==> #[trigger] self.tried_counts@[j] + total <= u32::MAX,
        {
            if self.tried_counts[i] as u64 > u32::MAX as u64 - total {
                assert(self.tallies()[i as int].1 == self.tried_counts@[i as int]);
                assert(!fits(self.tallies(), total as nat));
                return Err(RecordError::Overflow);
            }
        }
        assert forall|i: int| 0 <= i < self.tallies().len() implies #[trigger] self.tallies()[i].1 + total <= u32::MAX by {
            assert(self.tallies()[i].1 == self.tried_counts@[i]);
        }
        assert(fits(self.tallies(), total as nat));
        let ghost t0 = self.tallies();
        let ghost g0 = self.games();
        for i in 0..ng
            invariant
                gs == data.games@,
                ng == gs.len(),
                self.wf(),
                forall|j: int| 0 <= j < ng ==> (#[trigger] gs[j]).guesses@.len() > 0,
                g0.len() + ng < u32::MAX,
                self.games() == g0 + saved_outcomes(gs.subrange(0, i as int)),
                self.tallies() == tally_words(t0, saved_words(gs.subrange(0, i as int))),
                fits(self.tallies(), (saved_words(gs).len() - saved_words(gs.subrange(0, i as int)).len()) as nat),
                saved_words(gs.subrange(0, i as int)).len() <= saved_words(gs).len(),
        {
            let game = &data.games[i];
            let nw = game.guesses.len();
            let won = game.answer == game.guesses[nw - 1];
            let ghost done = saved_words(gs.subrange(0, i as int));
            let ghost ws = game.guesses@.map_values(|s: String| s@);
            proof {
                assert(gs.subrange(0, i + 1).drop_last() =~= gs.subrange(0, i as int));
                lemma_saved_words_prefix(gs, i + 1, gs.len() as int);
                assert(gs.subrange(0, gs.len() as int) =~= gs);
                assert(saved_outcomes(gs.subrange(0, i + 1)) =~= saved_outcomes(gs.subrange(0, i as int)).push(
                    (won, nw as nat),
                ));
            }
            self.add_game(won, nw);
            assert(self.games() =~= g0 + saved_outcomes(gs.subrange(0, i + 1)));
            for j in 0..nw
                invariant
                    self.wf(),
                    nw == game.guesses@.len(),
                    ws == game.guesses@.map_values(|s: String| s@),
                    self.tallies() == tally_words(t0, done + ws.subrange(0, j as int)),
                    fits(self.tallies(), (saved_words(gs).len() - done.len() - j) as nat),
                    done.len() + nw <= saved_words(gs).len(),
                    self.games() == g0 + saved_outcomes(gs.subrange(0, i + 1)),
            {
                let ghost before = self.tallies();
                proof {
                    self.lemma_fits_room((saved_words(gs).len() - done.len() - j) as nat);
                    lemma_fits_after_one(before, lower_of(ws[j as int]), (saved_words(gs).len() - done.len() - j) as nat);
                    assert((done + ws.subrange(0, j + 1)).drop_last() =~= done + ws.subrange(0, j as int));
                }
                self.add_tried_word(game.guesses[j].clone());
                assert(self.tallies() == tally_words(t0, done + ws.subrange(0, j + 1)));
            }
            assert(done + ws.subrange(0, nw as int) =~= saved_words(gs.subrange(0, i + 1)));
        }
        assert(gs.subrange(0, ng as int) =~= gs);
        Ok(())
    }

    fn ranks_first(&self, a: usize, b: usize) -> (r: bool)
        requires
            self.wf(),
            a < self.tallies().len(),
            b < self.tallies().len(),
        ensures
            r == ranks_before(self.tallies()[a as int], self.tallies()[b as int]),
    {
        let ca = self.tried_counts[a];
        let cb = self.tried_counts[b];
        if ca != cb {
            ca > cb
        } else {
            str_less(self.tried_words[a].as_str(), self.tried_words[b].as_str())
        }
    }

    /// The `n` most guessed words with their tallies, most guessed first, ties
    /// broken by lexicographic order of the words.
    pub fn top_words(&self, n: usize) -> (r: Vec<(String, u32)>)
        requires
            self.wf(),
        ensures
            is_top(self.tallies(), tally_view(r@), n as nat),
    {
        let ghost t = self.tallies();
        let len = self.tried_words.len();
        let want = if n < len { n } else { len };
        let mut taken: Vec<bool> = Vec::new();
        for k in 0..len
            invariant
                taken@ =~= Seq::new(k as nat, |j: int| false),
        {
            taken.push(false);
        }
        proof {
            lemma_untaken_all(taken@);
        }
        let mut r: Vec<(String, u32)> = Vec::new();
        let ghost mut picked: Seq<int> = Seq::empty();
        while r.len() < want
            invariant
                t == self.tallies(),
                self.wf(),
                len == t.len(),
                want <= len,
                want == if n < len { n } else { len },
                taken@.len() == len,
                untaken(taken@) == len - r@.len(),
                r@.len() == picked.len(),
                r@.len() <= want,
                forall|k: int|
                    0 <= k < picked.len() ==> 0 <= #[trigger] picked[k] < len && tally_view(r@)[k]
                        == t[picked[k]],
                forall|j: int| 0 <= j < len ==> (#[trigger] taken@[j] <==> picked.contains(j)),
                forall|a: int, b: int|
                    0 <= a < b < r@.len() ==> #[trigger] ranks_before(
                        tally_view(r@)[a],
                        tally_view(r@)[b],
                    ),
                forall|a: int, j: int|
                    0 <= a < r@.len() && 0 <= j < len && !taken@[j] ==> #[trigger] ranks_before(
                        tally_view(r@)[a],
                        t[j],
                    ),
            decreases want - r@.len(),
        {
            proof {
                lemma_untaken_witness(taken@);
            }
            let mut best: usize = len;
            let mut j: usize = 0;
            while j < len
                invariant
                    t == self.tallies(),
                    self.wf(),
                    len == t.len(),
                    taken@.len() == len,
                    j <= len,
                    best == len || (best < j && !taken@[best as int]),
                    forall|i: int|
                        0 <= i < j && !taken@[i] ==> best < len && (i == best || ranks_before(
                            t[best as int],
                            t[i],
                        )),
                decreases len - j,
            {
                if !taken[j] && (best == len || self.ranks_first(j, best)) {
                    proof {
                        assert forall|i: int|
                            0 <= i < j && !taken@[i] && i != best implies ranks_before(
                                t[j as int],
                                t[i],
                            ) by {
                            lemma_ranks_transitive(t[j as int], t[best as int], t[i]);
                        }
                    }
                    best = j;
                } else if !taken[j] {
                    proof {
                        assert(t[j as int].0 != t[best as int].0);
                        lemma_ranks_total(t[j as int], t[best as int]);
                    }
                }
                j = j + 1;
            }
            let ghost r0 = tally_view(r@);
            let ghost taken0 = taken@;
            r.push((self.tried_words[best].clone(), self.tried_counts[best]));
            taken.set(best, true);
            proof {
                lemma_untaken_mark(taken0, best as int);
                let p0 = picked;
                assert(taken0[best as int] <==> p0.contains(best as int));
                picked = picked.push(best as int);
                assert(tally_view(r@) =~= r0.push(t[best as int]));
                assert forall|j: int| 0 <= j < len implies (#[trigger] taken@[j] <==> picked.contains(j)) by {
                    if j == best {
                        assert(picked[picked.len() - 1] == j);
                    } else if taken0[j] {
                        assert(p0.contains(j));
                        let k = choose|k: int| 0 <= k < p0.len() && p0[k] == j;
                        assert(picked[k] == j);
                    } else {
                        assert(!picked.drop_last().contains(j));
                        assert(picked.drop_last() =~= picked.subrange(0, picked.len() - 1));
                        if picked.contains(j) {
                            let k = choose|k: int| 0 <= k < picked.len() && picked[k] == j;
                            assert(k < picked.len() - 1);
                            assert(picked.drop_last()[k] == j);
                        }
                    }
                }
                assert forall|a: int, b: int|
                    0 <= a < b < r@.len() implies #[trigger] ranks_before(
                        tally_view(r@)[a],
                        tally_view(r@)[b],
                    ) by {
                    if b == r@.len() - 1 {
                        assert(!taken0[best as int]);
                    }
                }
                assert forall|a: int, j: int|
                    0 <= a < r@.len() && 0 <= j < len && !taken@[j] implies #[trigger] ranks_before(
                        tally_view(r@)[a],
                        t[j],
                    ) by {
                    assert(!taken0[j]);
                    assert(j != best);
                }
            }
        }
        proof {
            let top = tally_view(r@);
            assert forall|i: int| 0 <= i < top.len() implies t.contains(#[trigger] top[i]) by {
                assert(t[picked[i]] == top[i]);
            }
            assert forall|i: int, j: int|
                0 <= i < top.len() && 0 <= j < t.len() && !top.contains(t[j]) implies #[trigger] ranks_before(
                top[i],
                t[j],
            ) by {
                if taken@[j] {
                    let k = choose|k: int| 0 <= k < picked.len() && picked[k] == j;
                    assert(top[k] == t[j]);
                }
            }
        }
        r
    }

    /// Tallies one more guess of `word`, in lower case.
    pub fn add_tried_word(&mut self, word: String)
        requires
            old(self).wf(),
            old(self).has_room(),
        ensures
            final(self).wf(),
            final(self).games() == old(self).games(),
            final(self).wins() == old(self).wins(),
            final(self).losses() == old(self).losses(),
            final(self).tallies() == tally_one(old(self).tallies(), lower_of(word@)),
    {
        let key = to_lower(word.as_str());
        let len = self.tried_words.len();
        let mut i: usize = 0;
        while i < len
            invariant
                len == self.tried_words@.len(),
                self.wf(),
                self.has_room(),
                key@ == lower_of(word@),
                self.games@ == old(self).games@,
                self.win == old(self).win,
                self.lose == old(self).lose,
                self.tried_words@ == old(self).tried_words@,
                self.tried_counts@ == old(self).tried_counts@,
                i <= len,
                forall|j: int| 0 <= j < i ==> (#[trigger] self.tried_words@[j])@ != key@,
            decreases len - i,
        {
            if self.tried_words[i] == key {
                let ghost t0 = self.tallies();
                let c = self.tried_counts[i];
                assert(self.tried_counts@[i as int] < u32::MAX);
                self.tried_counts.set(i, c + 1);
                assert(self.tallies() =~= t0.update(i as int, (key@, t0[i as int].1 + 1)));
                proof {
                    lemma_index_of(t0, key@, i as int);
                }
                assert(self.games() =~= old(self).games());
                return;
            }
            i = i + 1;
        }
        let ghost t0 = self.tallies();
        self.tried_words.push(key);
        self.tried_counts.push(1);
        assert(self.tallies() =~= t0.push((lower_of(word@), 1nat)));
        assert forall|i: int, j: int|
            0 <= i < j < self.tried_words@.len() implies (#[trigger] self.tried_words@[i])@
                != (#[trigger] self.tried_words@[j])@ by {
            if j == len {
                assert(old(self).tried_words@[i]@ != lower_of(word@));
            }
        }
        assert forall|i: int| 0 <= i < t0.len() implies (#[trigger] t0[i]).0 != key@ by {
            assert(old(self).tried_words@[i]@ != key@);
        }
        proof {
            lemma_index_of(t0, key@, -1);
        }
        assert(self.games() =~= old(self).games());
    }
}

/// What the statistics show after some rounds. The mean attempts over won
/// rounds is `win_attempts / wins`, or zero when none was won.
pub struct Summary {
    pub wins: u32,
    pub losses: u32,
    pub win_attempts: u128,
    pub top_words: Vec<(String, u32)>,
}

/// The words and answer of one past round, as kept between runs.
pub struct SingleGameData {
    pub answer: String,
    pub guesses: Vec<String>,
}

/// Past rounds, as kept between runs.
pub struct GameData {
    pub total_rounds: u32,
    pub games: Vec<SingleGameData>,
}

impl GameData {
    /// No past rounds.
    pub fn new() -> (r: Self)
        ensures
            r.total_rounds == 0,
            r.games@.len() == 0,
    {
        GameData { total_rounds: 0, games: Vec::new() }
    }

    /// Keeps a finished round: its answer and its guesses, in upper case.
    pub fn add_game(&mut self, guess_results: &Guess, ans: &str)
        requires
            old(self).total_rounds < u32::MAX,
        ensures
            final(self).total_rounds == old(self).total_rounds + 1,
            final(self).games@.len() == old(self).games@.len() + 1,
            final(self).games@.drop_last() == old(self).games@,
            final(self).games@.last().answer@ == upper_of(ans@),
            final(self).games@.last().guesses@.len() == guess_results.history@.len(),
            forall|i: int|
                0 <= i < guess_results.history@.len() ==> (#[trigger] final(self).games@.last().guesses@[i])@
                    == upper_of(guess_results.history@[i].content@),
    {
        self.total_rounds = self.total_rounds + 1;
        let mut guesses: Vec<String> = Vec::new();
        for i in 0..guess_results.history.len()
            invariant
                guesses@.len() == i,
                forall|j: int|
                    0 <= j < i ==> (#[trigger] guesses@[j])@ == upper_of(
                        guess_results.history@[j].content@,
                    ),
        {
            guesses.push(to_upper(guess_results.history[i].content.as_str()));
        }
        self.games.push(SingleGameData { answer: to_upper(ans), guesses });
        assert(self.games@.drop_last() =~= old(self).games@);
    }
}

proof fn lemma_saved_words_prefix(gs: Seq<SingleGameData>, i: int, n: int)
    requires
        0 <= i <= n <= gs.len(),
    ensures
        saved_words(gs.subrange(0, i)).len() <= saved_words(gs.subrange(0, n)).len(),
    decreases n - i,
{
    if i < n {
        lemma_saved_words_prefix(gs, i, n - 1);
        assert(gs.subrange(0, n).drop_last() =~= gs.subrange(0, n - 1));
    }
}

/// The outcome each past round stands for: won when its last guess is its
/// answer, with as many attempts as it had guesses.
pub open spec fn saved_outcomes(gs: Seq<SingleGameData>) -> Seq<(bool, nat)> {
    gs.map_values(
        |g: SingleGameData|
            (g.guesses@.len() > 0 && g.answer@ == g.guesses@.last()@, g.guesses@.len()),
    )
}

/// The guesses of past rounds, one after another.
pub open spec fn saved_words(gs: Seq<SingleGameData>) -> Seq<Seq<char>>
    decreases gs.len(),
{
    if gs.len() == 0 {
        Seq::empty()
    } else {
        saved_words(gs.drop_last()) + gs.last().guesses@.map_values(|s: String| s@)
    }
}

/// Why past rounds could not be added to a recorder.
#[derive(Copy, Clone, PartialEq, Eq, Debug, Structural)]
pub enum RecordError {
    /// A past round has no guesses.
    EmptyGame,
    /// A counter would pass `u32::MAX`.
    Overflow,
}

/// A ranking as plain values.
pub open spec fn tally_view(r: Seq<(String, u32)>) -> Seq<(Seq<char>, nat)> {
    r.map_values(|p: (String, u32)| (p.0@, p.1 as nat))
}

/// Entries still false.
spec fn untaken(s: Seq<bool>) -> nat
    decreases s.len(),
{
    if s.len() == 0 {
        0
    } else {
        untaken(s.drop_last()) + if s.last() { 0nat } else { 1nat }
    }
}

proof fn lemma_untaken_all(s: Seq<bool>)
    requires
        forall|j: int| 0 <= j < s.len() ==> !s[j],
    ensures
        untaken(s) == s.len(),
    decreases s.len(),
{
    if s.len() > 0 {
        lemma_untaken_all(s.drop_last());
    }
}

proof fn lemma_untaken_witness(s: Seq<bool>)
    requires
        untaken(s) > 0,
    ensures
        exists|j: int| 0 <= j < s.len() && !s[j],
    decreases s.len(),
{
    if s.len() > 0 && s.last() {
        lemma_untaken_witness(s.drop_last());
        let j = choose|j: int| 0 <= j < s.len() - 1 && !s.drop_last()[j];
        assert(!s[j]);
    }
}

proof fn lemma_untaken_mark(s: Seq<bool>, j: int)
    requires
        0 <= j < s.len(),
        !s[j],
    ensures
        untaken(s.update(j, true)) == untaken(s) - 1,
    decreases s.len(),
{
    if j < s.len() - 1 {
        lemma_untaken_mark(s.drop_last(), j);
        assert(s.update(j, true).drop_last() =~= s.drop_last().update(j, true));
    } else {
        assert(s.update(j, true).drop_last() =~= s.drop_last());
    }
}

} // verus!
