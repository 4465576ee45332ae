//! Scoring automata against word lists, comparing two automata on generated
//! words, and the generation of those words.
use vstd::prelude::*;
use rand_chacha::ChaCha8Rng;
use crate::automaton::Automaton;
use crate::text::{
    chars_of, string_of, lines_of, lines_chars, words_of, words_chars, parse_decimal,
    parse_decimal_chars,
};

verus! {

/// Words of every length below this are compared exhaustively.
pub const EXHAUSTIVE_LENGTHS: usize = 8;

/// How many random words are compared.
pub const RANDOM_WORDS: usize = 100000;

/// Random words are drawn with a length below this.
pub const RANDOM_LENGTHS: u64 = 25;

/// The seed of the generator that draws the random words.
pub const RANDOM_SEED: u64 = 42;

/// The base-`n` digits of `seed`, least significant first; zero has the one digit 0.
pub open spec fn digits(seed: nat, n: nat) -> Seq<nat>
    decreases seed,
    via digits_decreases
{
    if seed < n || n <= 1 {
        seq![seed]
    } else {
        seq![seed % n] + digits(seed / n, n)
    }
}

#[via_fn]
proof fn digits_decreases(seed: nat, n: nat) {
    if !(seed < n || n <= 1) {
        assert(seed / n < seed) by (nonlinear_arith)
            requires
                seed >= n,
                n >= 2,
        ;
    }
}

/// `w` padded with `c` up to `len` characters.
pub open spec fn pad(w: Seq<char>, c: char, len: nat) -> Seq<char> {
    if w.len() >= len {
        w
    } else {
        w + Seq::new((len - w.len()) as nat, |i: int| c)
    }
}

/// The characters that the digits of `seed` stand for in `alphabet`.
pub open spec fn spelled(seed: nat, alphabet: Seq<char>) -> Seq<char> {
    digits(seed, alphabet.len()).map_values(|d: nat| alphabet[d as int])
}

/// The word that `seed` stands for: its base-N digits (N the size of the alphabet),
/// least significant first, each written as that alphabet entry, padded with the
/// first entry up to `min_length` characters.
pub open spec fn word_of(seed: nat, min_length: nat, alphabet: Seq<char>) -> Seq<char> {
    pad(spelled(seed, alphabet), alphabet[0], min_length)
}

/// Whether `make_word` can run on `seed`: the alphabet is not empty, and with a
/// single symbol only seed zero has a finite expansion.
pub open spec fn word_defined(seed: nat, alphabet: Seq<char>) -> bool {
    alphabet.len() > 1 || (alphabet.len() == 1 && seed == 0)
}

proof fn lemma_digits_step(seed: nat, n: nat)
    requires
        n >= 2,
        seed >= n,
    ensures
        digits(seed, n) == seq![seed % n] + digits(seed / n, n),
{
}

/// The word that `seed` stands for over `alphabet`.
pub fn make_word(seed: u64, min_length: usize, alphabet: &[char]) -> (r: String)
    requires
        word_defined(seed as nat, alphabet@),
    ensures
        r@ == word_of(seed as nat, min_length as nat, alphabet@),
{
    let n = alphabet.len() as u64;
    let ghost alph = alphabet@;
    let ghost total = spelled(seed as nat, alph);
    let mut out: Vec<char> = Vec::new();
    let mut rest = seed;
    while rest >= n
        invariant
            n == alph.len(),
            alph == alphabet@,
            word_defined(seed as nat, alph),
            rest == seed || n >= 2,
            out@ + spelled(rest as nat, alph) == total,
        decreases rest,
    {
        proof {
            if rest == seed {
                assert(n >= 2);
            }
            lemma_digits_step(rest as nat, n as nat);
            assert(spelled(rest as nat, alph) =~= seq![alph[(rest % n) as int]] + spelled((rest / n) as nat, alph));
        }
        out.push(alphabet[(rest % n) as usize]);
        rest = rest / n;
        assert(out@ + spelled(rest as nat, alph) =~= total);
    }
    assert(spelled(rest as nat, alph) =~= seq![alph[rest as int]]);
    out.push(alphabet[rest as usize]);
    assert(out@ =~= total);
    let ghost unpadded = out@;
    while out.len() < min_length
        invariant
            alph == alphabet@,
            alph.len() >= 1,
            unpadded.len() <= out@.len(),
            out@.len() > unpadded.len() ==> out@.len() <= min_length,
            out@ == unpadded + Seq::new((out@.len() - unpadded.len()) as nat, |i: int| alph[0]),
        decreases min_length - out.len(),
    {
        out.push(alphabet[0]);
        assert(out@ =~= unpadded + Seq::new((out@.len() - unpadded.len()) as nat, |i: int| alph[0]));
    }
    proof {
        if unpadded.len() >= min_length {
            assert(out@ =~= unpadded);
        }
    }
    string_of(&out)
}

/// A word of length one per seed below the size of the alphabet: the seed's own
/// entry, in the alphabet's order.
pub proof fn lemma_single_symbol_words(seed: nat, alphabet: Seq<char>)
    requires
        seed < alphabet.len(),
    ensures
        word_of(seed, 0, alphabet) == seq![alphabet[seed as int]],
{
    assert(word_of(seed, 0, alphabet) =~= seq![alphabet[seed as int]]);
}

/// Whether the two automata agree on `w`.
pub open spec fn agree_on(a1: Automaton, a2: Automaton, w: Seq<char>) -> bool {
    a1.spec_accepts(w) == a2.spec_accepts(w)
}

/// How many of `lines` the automaton accepts.
pub open spec fn accepted_count(a: Automaton, lines: Seq<Seq<char>>) -> nat
    decreases lines.len(),
{
    if lines.len() == 0 {
        0
    } else {
        accepted_count(a, lines.drop_last()) + if a.spec_accepts(lines.last()) {
            1nat
        } else {
            0nat
        }
    }
}

proof fn lemma_count_bounded(a: Automaton, lines: Seq<Seq<char>>)
    ensures
        accepted_count(a, lines) <= lines.len(),
    decreases lines.len(),
{
    if lines.len() > 0 {
        lemma_count_bounded(a, lines.drop_last());
    }
}

/// The lines of `text`, as strings.
pub fn word_lines(text: &str) -> (r: Vec<String>)
    ensures
        r@.len() == lines_of(text@).len(),
        forall|i: int| 0 <= i < r@.len() ==> #[trigger] r@[i]@ == lines_of(text@)[i],
{
    let lines = lines_chars(&chars_of(text));
    let mut r: Vec<String> = Vec::new();
    let mut i: usize = 0;
    while i < lines.len()
        invariant
            i <= lines.len(),
            r@.len() == i,
            forall|j: int| 0 <= j < i ==> #[trigger] r@[j]@ == lines@[j]@,
        decreases lines.len() - i,
    {
        r.push(string_of(&lines[i]));
        i += 1;
    }
    r
}

/// How many lines of `wordlist` the automaton accepts, each line taken whole as a word.
pub fn fixed_test(automaton: &Automaton, wordlist: &str) -> (r: u64)
    ensures
        r == accepted_count(*automaton, lines_of(wordlist@)),
{
    let lines = word_lines(wordlist);
    let ghost ls = lines_of(wordlist@);
    let mut count: u64 = 0;
    let mut i: usize = 0;
    while i < lines.len()
        invariant
            i <= lines.len(),
            lines@.len() == ls.len(),
            forall|j: int| 0 <= j < lines@.len() ==> #[trigger] lines@[j]@ == ls[j],
            count == accepted_count(*automaton, ls.subrange(0, i as int)),
        decreases lines.len() - i,
    {
        assert(ls.subrange(0, i + 1).drop_last() =~= ls.subrange(0, i as int));
        proof { lemma_count_bounded(*automaton, ls.subrange(0, i as int)); }
        if automaton.accepts(lines[i].as_str()) {
            count = count + 1;
        }
        i += 1;
    }
    assert(ls.subrange(0, lines.len() as int) =~= ls);
    count
}

/// The points of one line `word points`: both, where the automata agree on the
/// word, else none of them, out of `points`; an empty line gives nothing, and a
/// line without a number of points gives `None`.
pub open spec fn line_score(a1: Automaton, a2: Automaton, line: Seq<char>) -> Option<(int, int)> {
    let ws = words_of(line);
    if ws.len() == 0 {
        Some((0, 0))
    } else if ws.len() < 2 {
        None
    } else {
        match parse_decimal(ws[1]) {
            Some(p) => Some((if agree_on(a1, a2, ws[0]) { p as int } else { 0 }, p as int)),
            None => None,
        }
    }
}

/// The points reached and the points possible over `lines`, or `None` if a line
/// is malformed.
pub open spec fn score_totals(a1: Automaton, a2: Automaton, lines: Seq<Seq<char>>) -> Option<(int, int)>
    decreases lines.len(),
{
    if lines.len() == 0 {
        Some((0, 0))
    } else {
        match (score_totals(a1, a2, lines.drop_last()), line_score(a1, a2, lines.last())) {
            (Some(t), Some(s)) => Some((t.0 + s.0, t.1 + s.1)),
            _ => None,
        }
    }
}

/// The points reached of some totals.
pub open spec fn reached_of(t: Option<(int, int)>) -> int {
    match t {
        Some(p) => p.0,
        None => 0,
    }
}

/// The points possible of some totals.
pub open spec fn possible_of(t: Option<(int, int)>) -> int {
    match t {
        Some(p) => p.1,
        None => 0,
    }
}

proof fn lemma_totals_grow(a1: Automaton, a2: Automaton, lines: Seq<Seq<char>>, j: int)
    requires
        0 <= j <= lines.len(),
        score_totals(a1, a2, lines) is Some,
    ensures
        score_totals(a1, a2, lines.subrange(0, j)) is Some,
        0 <= possible_of(score_totals(a1, a2, lines.subrange(0, j))) <= possible_of(score_totals(a1, a2, lines)),
    decreases lines.len() - j,
{
    if j < lines.len() {
        lemma_totals_grow(a1, a2, lines, j + 1);
        assert(lines.subrange(0, j + 1).drop_last() =~= lines.subrange(0, j));
        let next = lines.subrange(0, j + 1);
        let s = line_score(a1, a2, next.last());
        assert(s is Some);
        assert(possible_of(s) >= 0);
        assert(possible_of(score_totals(a1, a2, next)) == possible_of(score_totals(a1, a2, lines.subrange(0, j))) + possible_of(s));
        lemma_totals_nonneg(a1, a2, lines.subrange(0, j));
    } else {
        assert(lines.subrange(0, j) =~= lines);
        lemma_totals_nonneg(a1, a2, lines);
    }
}

proof fn lemma_totals_nonneg(a1: Automaton, a2: Automaton, lines: Seq<Seq<char>>)
    requires
        score_totals(a1, a2, lines) is Some,
    ensures
        0 <= reached_of(score_totals(a1, a2, lines)) <= possible_of(score_totals(a1, a2, lines)),
    decreases lines.len(),
{
    if lines.len() > 0 {
        lemma_totals_nonneg(a1, a2, lines.drop_last());
    }
}

/// The points of `word points` lines: a line's points are reached where both
/// automata agree on its word, and always count toward the possible total.
///
/// Returns `(reached, possible)`, or `None` where a line that is not empty has no
/// number of points after its word, or the possible total does not fit.
pub fn fixed_comparison(automaton1: &Automaton, automaton2: &Automaton, wordlist: &str) -> (r:
    Option<(u64, u64)>)
    ensures
        match r {
            Some(t) => score_totals(*automaton1, *automaton2, lines_of(wordlist@)) == Some(
                (t.0 as int, t.1 as int),
            ),
            None => match score_totals(*automaton1, *automaton2, lines_of(wordlist@)) {
                Some(t) => t.1 > u64::MAX,
                None => true,
            },
        },
{
    let lines = lines_chars(&chars_of(wordlist));
    let ghost ls = lines_of(wordlist@);
    let mut reached: u64 = 0;
    let mut max: u64 = 0;
    let mut i: usize = 0;
    while i < lines.len()
        invariant
            i <= lines.len(),
            lines@.len() == ls.len(),
            ls == lines_of(wordlist@),
            forall|j: int| 0 <= j < lines@.len() ==> #[trigger] lines@[j]@ == ls[j],
            score_totals(*automaton1, *automaton2, ls.subrange(0, i as int)) == Some(
                (reached as int, max as int),
            ),
            reached <= max,
        decreases lines.len() - i,
    {
        assert(ls.subrange(0, i + 1).drop_last() =~= ls.subrange(0, i as int));
        assert(ls.subrange(0, i + 1).last() == lines@[i as int]@);
        let ws = words_chars(&lines[i]);
        assert(words_of(ls[i as int]).len() == ws@.len());
        if ws.len() > 0 {
            assert(forall|j: int| 0 <= j < ws@.len() ==> #[trigger] ws@[j]@ == words_of(ls[i as int])[j]);
            if ws.len() < 2 {
                assert(line_score(*automaton1, *automaton2, ls[i as int]) is None);
                assert(score_totals(*automaton1, *automaton2, ls.subrange(0, i + 1)) is None);
                proof { lemma_prefix_fails(*automaton1, *automaton2, ls, i + 1); }
                return None;
            }
            let points = match parse_decimal_chars(&ws[1]) {
                Some(p) => p,
                None => {
                    assert(line_score(*automaton1, *automaton2, ls[i as int]) is None);
                    assert(score_totals(*automaton1, *automaton2, ls.subrange(0, i + 1)) is None);
                    proof { lemma_prefix_fails(*automaton1, *automaton2, ls, i + 1); }
                    return None;
                },
            };
            if max > u64::MAX - points {
                proof {
                    if score_totals(*automaton1, *automaton2, ls) is Some {
                        lemma_totals_grow(*automaton1, *automaton2, ls, i + 1);
                    }
                }
                return None;
            }
            let word = string_of(&ws[0]);
            if automaton1.accepts(word.as_str()) == automaton2.accepts(word.as_str()) {
                reached = reached + points;
            }
            max = max + points;
        }
        i += 1;
    }
    assert(ls.subrange(0, lines.len() as int) =~= ls);
    Some((reached, max))
}

/// A malformed line makes the totals of every longer list `None`.
proof fn lemma_prefix_fails(a1: Automaton, a2: Automaton, lines: Seq<Seq<char>>, j: int)
    requires
        0 <= j <= lines.len(),
        score_totals(a1, a2, lines.subrange(0, j)) is None,
    ensures
        score_totals(a1, a2, lines) is None,
    decreases lines.len() - j,
{
    if j < lines.len() {
        assert(lines.subrange(0, j + 1).drop_last() =~= lines.subrange(0, j));
        lemma_prefix_fails(a1, a2, lines, j + 1);
    } else {
        assert(lines.subrange(0, j) =~= lines);
    }
}

/// `n` to the power `l`, or `u64::MAX` where that is larger.
pub open spec fn seed_bound(n: nat, l: nat) -> nat
    decreases l,
{
    if l == 0 {
        1
    } else {
        let p = seed_bound(n, (l - 1) as nat);
        if p * n > u64::MAX {
            u64::MAX as nat
        } else {
            p * n
        }
    }
}

/// `n` to the power `l`, or `u64::MAX` where that is larger.
fn seed_bound_exec(n: u64, l: usize) -> (r: u64)
    ensures
        r == seed_bound(n as nat, l as nat),
{
    let mut p: u64 = 1;
    let mut i: usize = 0;
    while i < l
        invariant
            i <= l,
            p == seed_bound(n as nat, i as nat),
        decreases l - i,
    {
        if n != 0 && p > u64::MAX / n {
            assert(p * n > u64::MAX) by (nonlinear_arith)
                requires
                    n > 0,
                    p > u64::MAX / n,
            ;
            p = u64::MAX;
        } else {
            assert(p * n <= u64::MAX) by (nonlinear_arith)
                requires
                    n == 0 || p <= u64::MAX / n,
            ;
            p = p * n;
        }
        i += 1;
    }
    p
}

/// Whether the automata agree on the empty word and on every word that a seed
/// below the bound gives, for each length below `EXHAUSTIVE_LENGTHS`.
pub open spec fn exhaustive_agree(a1: Automaton, a2: Automaton, alphabet: Seq<char>) -> bool {
    &&& agree_on(a1, a2, Seq::empty())
    &&& forall|l: nat, seed: nat|
        l < EXHAUSTIVE_LENGTHS && seed < seed_bound(alphabet.len(), l) ==> #[trigger] agree_on(
            a1,
            a2,
            word_of(seed, l, alphabet),
        )
}

proof fn lemma_bound_one(l: nat)
    ensures
        seed_bound(1, l) == 1,
    decreases l,
{
    if l > 0 {
        lemma_bound_one((l - 1) as nat);
    }
}

/// Whether the automata agree on every short word that `alphabet` gives: the empty
/// word, and for each length `l` below `EXHAUSTIVE_LENGTHS`, the words of the seeds
/// below N^l.
pub fn exhaustive_agreement(automaton1: &Automaton, automaton2: &Automaton, alphabet: &[char]) -> (r: bool)
    requires
        alphabet@.len() >= 1,
    ensures
        r == exhaustive_agree(*automaton1, *automaton2, alphabet@),
{
    let empty = string_of(&Vec::new());
    if automaton1.accepts(empty.as_str()) != automaton2.accepts(empty.as_str()) {
        assert(empty@ =~= Seq::<char>::empty());
        return false;
    }
    assert(empty@ =~= Seq::<char>::empty());
    let n = alphabet.len() as u64;
    let mut l: usize = 0;
    while l < EXHAUSTIVE_LENGTHS
        invariant
            n == alphabet@.len(),
            n >= 1,
            l <= EXHAUSTIVE_LENGTHS,
            forall|l2: nat, seed: nat|
                l2 < l && seed < seed_bound(n as nat, l2) ==> #[trigger] agree_on(
                    *automaton1,
                    *automaton2,
                    word_of(seed, l2, alphabet@),
                ),
        decreases EXHAUSTIVE_LENGTHS - l,
    {
        let bound = seed_bound_exec(n, l);
        proof {
            if n == 1 {
                lemma_bound_one(l as nat);
            }
        }
        let mut seed: u64 = 0;
        while seed < bound
            invariant
                n == alphabet@.len(),
                n >= 1,
                l < EXHAUSTIVE_LENGTHS,
                bound == seed_bound(n as nat, l as nat),
                n == 1 ==> bound == 1,
                seed <= bound,
                forall|l2: nat, s: nat|
                    l2 < l && s < seed_bound(n as nat, l2) ==> #[trigger] agree_on(
                        *automaton1,
                        *automaton2,
                        word_of(s, l2, alphabet@),
                    ),
                forall|s: nat| s < seed ==> #[trigger] agree_on(
                    *automaton1,
                    *automaton2,
                    word_of(s, l as nat, alphabet@),
                ),
            decreases bound - seed,
        {
            let word = make_word(seed, l, alphabet);
            if automaton1.accepts(word.as_str()) != automaton2.accepts(word.as_str()) {
                assert(!agree_on(*automaton1, *automaton2, word_of(seed as nat, l as nat, alphabet@)));
                return false;
            }
            seed += 1;
        }
        l += 1;
    }
    true
}

/// Whether the automata agree on the word of every `(seed, length)` sample.
pub open spec fn samples_agree(a1: Automaton, a2: Automaton, alphabet: Seq<char>, samples: Seq<(u64, usize)>) -> bool {
    forall|i: int| 0 <= i < samples.len() ==> #[trigger] agree_on(
        a1,
        a2,
        word_of(samples[i].0 as nat, samples[i].1 as nat, alphabet),
    )
}

/// Whether `make_word` can run on every sample.
pub open spec fn samples_defined(alphabet: Seq<char>, samples: Seq<(u64, usize)>) -> bool {
    forall|i: int| 0 <= i < samples.len() ==> word_defined(#[trigger] samples[i].0 as nat, alphabet)
}

/// Whether the automata agree on the word of every `(seed, length)` sample.
pub fn sampled_agreement(
    automaton1: &Automaton,
    automaton2: &Automaton,
    alphabet: &[char],
    samples: &Vec<(u64, usize)>,
) -> (r: bool)
    requires
        samples_defined(alphabet@, samples@),
    ensures
        r == samples_agree(*automaton1, *automaton2, alphabet@, samples@),
{
    let mut i: usize = 0;
    while i < samples.len()
        invariant
            i <= samples.len(),
            samples_defined(alphabet@, samples@),
            forall|j: int| 0 <= j < i ==> #[trigger] agree_on(
                *automaton1,
                *automaton2,
                word_of(samples@[j].0 as nat, samples@[j].1 as nat, alphabet@),
            ),
        decreases samples.len() - i,
    {
        let (seed, len) = samples[i];
        assert(word_defined(samples@[i as int].0 as nat, alphabet@));
        let word = make_word(seed, len, alphabet);
        if automaton1.accepts(word.as_str()) != automaton2.accepts(word.as_str()) {
            assert(!agree_on(*automaton1, *automaton2, word_of(samples@[i as int].0 as nat, samples@[i as int].1 as nat, alphabet@)));
            return false;
        }
        i += 1;
    }
    true
}

/// The outcome of the generated comparison on given random samples: 1 where the
/// automata agree on every short word and on every sample, else 0.
pub open spec fn generated_outcome(a1: Automaton, a2: Automaton, samples: Seq<(u64, usize)>) -> u64 {
    if exhaustive_agree(a1, a2, a2.spec_alphabet()) && samples_agree(a1, a2, a2.spec_alphabet(), samples) {
        1
    } else {
        0
    }
}

/// Compares two automata on the words of `automaton2`'s alphabet: every short
/// word, then the word of each `(seed, length)` sample. Returns 1 where they agree
/// on all of them, else 0.
pub fn generated_comparison_on(
    automaton1: &Automaton,
    automaton2: &Automaton,
    samples: &Vec<(u64, usize)>,
) -> (r: u64)
    requires
        automaton2.spec_alphabet().len() >= 1,
        samples_defined(automaton2.spec_alphabet(), samples@),
    ensures
        r == generated_outcome(*automaton1, *automaton2, samples@),
{
    let alphabet = automaton2.alphabet();
    if exhaustive_agreement(automaton1, automaton2, alphabet.as_slice()) && sampled_agreement(
        automaton1,
        automaton2,
        alphabet.as_slice(),
        samples,
    ) {
        1
    } else {
        0
    }
}

/// Whether every sample has a length below `RANDOM_LENGTHS` and a seed below N to
/// that length (N the size of the alphabet, capped at `u64::MAX`).
pub open spec fn samples_in_range(n: nat, samples: Seq<(u64, usize)>) -> bool {
    forall|i: int| 0 <= i < samples.len() ==> (#[trigger] samples[i]).1 < RANDOM_LENGTHS
        && samples[i].0 < seed_bound(n, samples[i].1 as nat)
}

/// rand_chacha's ChaCha generator with eight rounds, carried through opaquely.
#[verifier::external_type_specification]
#[verifier::external_body]
pub struct ExChaCha8Rng(ChaCha8Rng);

/// The value that rand's `gen_range(0..bound)` gives on a `ChaCha8Rng` seeded by
/// `seed_from_u64(seed)`, after draws below each of `earlier`, in order.
pub uninterp spec fn chacha8_below(seed: u64, earlier: Seq<u64>, bound: u64) -> u64;

/// A ChaCha generator with eight rounds, with the seed it was made from and the
/// bounds of the draws asked of it so far.
pub struct SeededRng {
    rng: ChaCha8Rng,
    seed: Ghost<u64>,
    asked: Ghost<Seq<u64>>,
}

/// Relies on `SeedableRng::seed_from_u64` of rand_core, implemented by rand_chacha's
/// `ChaCha8Rng`: a generator whose output depends on the seed alone.
#[verifier::external_body]
fn seeded_rng(seed: u64) -> (r: SeededRng)
    ensures
        r.seed@ == seed,
        r.asked@ == Seq::<u64>::empty(),
{
    SeededRng {
        rng: <ChaCha8Rng as rand::SeedableRng>::seed_from_u64(seed),
        seed: Ghost(seed),
        asked: Ghost(Seq::empty()),
    }
}

/// Relies on `Rng::gen_range` of rand: a value of `0..bound`, which must not be
/// empty; on a seeded `ChaCha8Rng` it depends on the seed and the earlier draws alone.
#[verifier::external_body]
fn draw_below(g: &mut SeededRng, bound: u64) -> (r: u64)
    requires
        bound > 0,
    ensures
        r < bound,
        r == chacha8_below(old(g).seed@, old(g).asked@, bound),
        final(g).seed@ == old(g).seed@,
        final(g).asked@ == old(g).asked@.push(bound),
{
    rand::Rng::gen_range(&mut g.rng, 0..bound)
}

/// The first `count` samples drawn with the generator seeded by `RANDOM_SEED`, for
/// an alphabet of `n` symbols, and the bounds asked of the generator for them.
pub open spec fn seeded_draws(n: nat, count: nat) -> (Seq<(u64, usize)>, Seq<u64>)
    decreases count,
{
    if count == 0 {
        (Seq::empty(), Seq::empty())
    } else {
        let prev = seeded_draws(n, (count - 1) as nat);
        let len = chacha8_below(RANDOM_SEED, prev.1, RANDOM_LENGTHS);
        let asked = prev.1.push(RANDOM_LENGTHS);
        let bound = seed_bound(n, len as nat) as u64;
        let seed = chacha8_below(RANDOM_SEED, asked, bound);
        (prev.0.push((seed, len as usize)), asked.push(bound))
    }
}

/// The `RANDOM_WORDS` samples that the comparison draws for an alphabet of `n`
/// symbols: each a length, then a seed below `n` to that length.
pub open spec fn seeded_samples(n: nat) -> Seq<(u64, usize)> {
    seeded_draws(n, RANDOM_WORDS as nat).0
}

/// `RANDOM_WORDS` samples drawn from a generator seeded with `RANDOM_SEED`: each a
/// length below `RANDOM_LENGTHS`, then a seed below N to that length.
pub fn draw_samples(n: usize) -> (r: Vec<(u64, usize)>)
    requires
        n >= 1,
    ensures
        r@ == seeded_samples(n as nat),
        r@.len() == RANDOM_WORDS,
        samples_in_range(n as nat, r@),
{
    let mut rng = seeded_rng(RANDOM_SEED);
    let mut samples: Vec<(u64, usize)> = Vec::new();
    let mut i: usize = 0;
    while i < RANDOM_WORDS
        invariant
            i <= RANDOM_WORDS,
            n >= 1,
            samples@.len() == i,
            samples_in_range(n as nat, samples@),
            rng.seed@ == RANDOM_SEED,
            (samples@, rng.asked@) == seeded_draws(n as nat, i as nat),
        decreases RANDOM_WORDS - i,
    {
        let ghost asked0 = rng.asked@;
        let drawn = draw_below(&mut rng, RANDOM_LENGTHS);
        let len = drawn as usize;
        let bound = seed_bound_exec(n as u64, len);
        proof { lemma_bound_positive(n as nat, len as nat); }
        let seed = draw_below(&mut rng, bound);
        samples.push((seed, len));
        i += 1;
        assert(drawn == chacha8_below(RANDOM_SEED, asked0, RANDOM_LENGTHS));
    }
    samples
}

proof fn lemma_bound_positive(n: nat, l: nat)
    ensures
        n >= 1 ==> seed_bound(n, l) >= 1,
    decreases l,
{
    if l > 0 {
        lemma_bound_positive(n, (l - 1) as nat);
        let p = seed_bound(n, (l - 1) as nat);
        if n >= 1 {
            assert(p * n >= 1) by (nonlinear_arith)
                requires
                    p >= 1,
                    n >= 1,
            ;
        }
    }
}

proof fn lemma_samples_defined(alphabet: Seq<char>, samples: Seq<(u64, usize)>)
    requires
        alphabet.len() >= 1,
        samples_in_range(alphabet.len(), samples),
    ensures
        samples_defined(alphabet, samples),
{
    assert forall|i: int| 0 <= i < samples.len() implies word_defined(#[trigger] samples[i].0 as nat, alphabet) by {
        if alphabet.len() == 1 {
            lemma_bound_one(samples[i].1 as nat);
        }
    }
}

/// Compares two automata on generated words over `automaton2`'s alphabet: every
/// short word, then `RANDOM_WORDS` words drawn from a generator seeded with
/// `RANDOM_SEED`. Returns 1 where they agree on all of them, else 0.
pub fn generated_comparison(automaton1: &Automaton, automaton2: &Automaton) -> (r: u64)
    requires
        automaton2.spec_alphabet().len() >= 1,
    ensures
        r == generated_outcome(*automaton1, *automaton2, seeded_samples(automaton2.spec_alphabet().len())),
        (forall|w: Seq<char>| #[trigger] agree_on(*automaton1, *automaton2, w)) ==> r == 1,
{
    let samples = draw_samples(automaton2.alphabet().len());
    proof { lemma_samples_defined(automaton2.spec_alphabet(), samples@); }
    let r = generated_comparison_on(automaton1, automaton2, &samples);
    proof {
        if forall|w: Seq<char>| #[trigger] agree_on(*automaton1, *automaton2, w) {
            lemma_agreeing_pass(*automaton1, *automaton2, samples@);
        }
    }
    r
}

/// Automata that agree on every word pass the generated comparison, whatever the
/// samples.
pub proof fn lemma_agreeing_pass(a1: Automaton, a2: Automaton, samples: Seq<(u64, usize)>)
    requires
        forall|w: Seq<char>| #[trigger] agree_on(a1, a2, w),
    ensures
        generated_outcome(a1, a2, samples) == 1,
{
}

/// An automaton compared with itself passes the generated comparison.
pub proof fn lemma_generated_reflexive(a: Automaton, samples: Seq<(u64, usize)>)
    ensures
        generated_outcome(a, a, samples) == 1,
{
    lemma_agreeing_pass(a, a, samples);
}

/// The generated comparison does not depend on the order of the two automata,
/// where their alphabets are the same sequence and the samples are the same.
pub proof fn lemma_generated_symmetric(a1: Automaton, a2: Automaton, samples: Seq<(u64, usize)>)
    requires
        a1.spec_alphabet() == a2.spec_alphabet(),
    ensures
        generated_outcome(a1, a2, samples) == generated_outcome(a2, a1, samples),
{
    let alph = a2.spec_alphabet();
    if exhaustive_agree(a1, a2, alph) {
        assert forall|l: nat, seed: nat| l < EXHAUSTIVE_LENGTHS && seed < seed_bound(alph.len(), l) implies #[trigger] agree_on(a2, a1, word_of(seed, l, alph)) by {
            assert(agree_on(a1, a2, word_of(seed, l, alph)));
        }
    }
    if exhaustive_agree(a2, a1, alph) {
        assert forall|l: nat, seed: nat| l < EXHAUSTIVE_LENGTHS && seed < seed_bound(alph.len(), l) implies #[trigger] agree_on(a1, a2, word_of(seed, l, alph)) by {
            assert(agree_on(a2, a1, word_of(seed, l, alph)));
        }
    }
    if samples_agree(a1, a2, alph, samples) {
        assert forall|i: int| 0 <= i < samples.len() implies #[trigger] agree_on(a2, a1, word_of(samples[i].0 as nat, samples[i].1 as nat, alph)) by {
            assert(agree_on(a1, a2, word_of(samples[i].0 as nat, samples[i].1 as nat, alph)));
        }
    }
    if samples_agree(a2, a1, alph, samples) {
        assert forall|i: int| 0 <= i < samples.len() implies #[trigger] agree_on(a1, a2, word_of(samples[i].0 as nat, samples[i].1 as nat, alph)) by {
            assert(agree_on(a2, a1, word_of(samples[i].0 as nat, samples[i].1 as nat, alph)));
        }
    }
}

/// `generated_comparison` gives the same outcome whichever automaton comes first,
/// where their alphabets are the same sequence: both draw the same samples.
pub proof fn lemma_generated_comparison_symmetric(a1: Automaton, a2: Automaton)
    requires
        a1.spec_alphabet() == a2.spec_alphabet(),
    ensures
        generated_outcome(a1, a2, seeded_samples(a2.spec_alphabet().len())) == generated_outcome(
            a2,
            a1,
            seeded_samples(a1.spec_alphabet().len()),
        ),
{
    lemma_generated_symmetric(a1, a2, seeded_samples(a2.spec_alphabet().len()));
}

/// The combined score as a fraction: the fixed points reached plus the generated
/// outcome, over the fixed points possible plus one. `None` where the word list is
/// malformed or its total does not fit.
pub fn full_comparison_fraction(automaton1: &Automaton, automaton2: &Automaton, wordlist: &str) -> (r: Option<(u64, u64)>)
    requires
        automaton2.spec_alphabet().len() >= 1,
    ensures
        match score_totals(*automaton1, *automaton2, lines_of(wordlist@)) {
            Some(t) => if t.1 < u64::MAX {
                r matches Some(f) && f.1 == t.1 + 1 && f.0 == t.0 + generated_outcome(
                    *automaton1,
                    *automaton2,
                    seeded_samples(automaton2.spec_alphabet().len()),
                )
            } else {
                r is None
            },
            None => r is None,
        },
{
    let (reached, max) = match fixed_comparison(automaton1, automaton2, wordlist) {
        Some(t) => t,
        None => return None,
    };
    if max == u64::MAX {
        return None;
    }
    proof { lemma_totals_nonneg(*automaton1, *automaton2, lines_of(wordlist@)); }
    let generated = generated_comparison(automaton1, automaton2);
    Some((reached + generated, max + 1))
}

} // verus!
