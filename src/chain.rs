use vstd::prelude::*;
use crate::model::Model;
use crate::text::{is_word, join, join_range, lemma_words_are_tokens, space_char, strs, tokenize, words};
use crate::MarkovError;

verus! {

/// The model learnt from the first `n` tokens: for each `i` in `k..n`, the word `toks[i]` is
/// appended to the successors of the state `toks[i - k..i]`.
pub open spec fn chain_upto(toks: Seq<Seq<char>>, k: nat, n: nat) -> Map<
    Seq<char>,
    Seq<Seq<char>>,
>
    decreases n,
{
    if n <= k || n > toks.len() {
        Map::empty()
    } else {
        let m = chain_upto(toks, k, (n - 1) as nat);
        let key = join(toks.subrange(n - 1 - k, n - 1));
        m.insert(
            key,
            (if m.contains_key(key) {
                m[key]
            } else {
                seq![]
            }).push(toks[n - 1]),
        )
    }
}

/// The model learnt from the whole token sequence with states of `k` words.
pub open spec fn chain(toks: Seq<Seq<char>>, k: nat) -> Map<Seq<char>, Seq<Seq<char>>> {
    chain_upto(toks, k, toks.len())
}

/// Builds the model of `tokens` whose states are `state_size` consecutive tokens.
pub fn build_chain(tokens: &Vec<String>, state_size: usize) -> (r: Result<Model, MarkovError>)
    ensures
        state_size == 0 ==> r == Err::<Model, MarkovError>(MarkovError::InvalidConfiguration),
        state_size > 0 && tokens.len() <= state_size ==> r == Err::<Model, MarkovError>(
            MarkovError::InsufficientData,
        ),
        state_size > 0 && tokens.len() > state_size ==> (r matches Ok(m) && m.wf() && m@ == chain(
            strs(tokens@),
            state_size as nat,
        )),
{
    if state_size == 0 {
        return Err(MarkovError::InvalidConfiguration);
    }
    if tokens.len() <= state_size {
        return Err(MarkovError::InsufficientData);
    }
    let ghost toks = strs(tokens@);
    let mut model = Model::new();
    let mut i: usize = state_size;
    while i < tokens.len()
        invariant
            toks == strs(tokens@),
            0 < state_size <= i <= tokens.len(),
            model.wf(),
            model@ == chain_upto(toks, state_size as nat, i as nat),
        decreases tokens.len() - i,
    {
        let key = join_range(tokens, i - state_size, i);
        let word = tokens[i].clone();
        assert(word@ == toks[i as int]);
        model.push_successor(key, word);
        i += 1;
    }
    Ok(model)
}

/// Builds the model of the words of `input` (split at whitespace).
pub fn generate_markov_chain(input: &str, state_size: usize) -> (r: Result<Model, MarkovError>)
    ensures
        state_size == 0 ==> r == Err::<Model, MarkovError>(MarkovError::InvalidConfiguration),
        state_size > 0 && words(input@).len() <= state_size ==> r == Err::<Model, MarkovError>(
            MarkovError::InsufficientData,
        ),
        state_size > 0 && words(input@).len() > state_size ==> (r matches Ok(m) && m.wf() && m@
            == chain(words(input@), state_size as nat)),
        r matches Ok(m) ==> forall|key: Seq<char>| #[trigger] m@.contains_key(key) ==> m@[key].len()
            > 0 && words(key).len() == state_size,
{
    proof {
        lemma_words_are_tokens(input@);
        if state_size > 0 && words(input@).len() > state_size {
            lemma_chain_states(words(input@), state_size as nat);
        }
    }
    let tokens = tokenize(input);
    build_chain(&tokens, state_size)
}

proof fn lemma_words_single(b: Seq<char>)
    requires
        is_word(b),
    ensures
        words(b) == seq![b],
    decreases b.len(),
{
    let init = b.drop_last();
    if init.len() == 0 {
        assert(words(init) == Seq::<Seq<char>>::empty());
        assert(b =~= seq![b[0]]);
    } else {
        assert(!space_char(b[init.len() - 1]));
        assert(is_word(init)) by {
            assert forall|i: int| 0 <= i < init.len() implies !space_char(#[trigger] init[i]) by {
                assert(init[i] == b[i]);
            }
        }
        lemma_words_single(init);
        assert(!space_char(b[b.len() - 1]));
        assert(init.push(b.last()) =~= b);
        assert(seq![init].update(0, init.push(b.last())) =~= seq![b]);
    }
}

proof fn lemma_words_append(a: Seq<char>, b: Seq<char>)
    requires
        is_word(b),
    ensures
        words(a + seq![' '] + b) == words(a).push(b),
    decreases b.len(),
{
    let s = a + seq![' '] + b;
    let init = b.drop_last();
    assert(s.drop_last() =~= a + seq![' '] + init);
    assert(!space_char(b[b.len() - 1]));
    assert(s.last() == b.last());
    if init.len() == 0 {
        assert((a + seq![' ']).drop_last() =~= a);
        assert(s.drop_last() =~= a + seq![' ']);
        assert(s[s.len() - 2] == ' ');
        assert((a + seq![' ']).last() == ' ');
        assert(words(a + seq![' ']) == words(a));
        assert(b =~= seq![b.last()]);
    } else {
        assert(is_word(init)) by {
            assert forall|i: int| 0 <= i < init.len() implies !space_char(#[trigger] init[i]) by {
                assert(init[i] == b[i]);
            }
        }
        lemma_words_append(a, init);
        assert(s[s.len() - 2] == b[b.len() - 2]);
        assert(init.push(b.last()) =~= b);
        assert(words(a).push(init).update(words(a).len() as int, init.push(b.last())) =~= words(
            a,
        ).push(b));
    }
}

/// Splitting the spaced join of tokens at whitespace gives the tokens back.
pub proof fn lemma_words_join(ws: Seq<Seq<char>>)
    requires
        forall|i: int| 0 <= i < ws.len() ==> is_word(#[trigger] ws[i]),
    ensures
        words(join(ws)) == ws,
    decreases ws.len(),
{
    if ws.len() == 0 {
        assert(words(join(ws)) =~= ws);
    } else if ws.len() == 1 {
        lemma_words_single(ws[0]);
        assert(seq![ws[0]] =~= ws);
    } else {
        let init = ws.drop_last();
        lemma_words_join(init);
        lemma_words_append(join(init), ws.last());
        assert(init.push(ws.last()) =~= ws);
    }
}

proof fn lemma_chain_upto_states(toks: Seq<Seq<char>>, k: nat, n: nat)
    requires
        n <= toks.len(),
    ensures
        forall|key: Seq<char>| #[trigger] chain_upto(toks, k, n).contains_key(key) ==> chain_upto(
            toks,
            k,
            n,
        )[key].len() > 0 && exists|i: int|
            k <= i < n && key == #[trigger] join(toks.subrange(i - k, i)),
        n > k ==> chain_upto(toks, k, n).contains_key(join(toks.subrange(n - 1 - k, n - 1))),
    decreases n,
{
    if n > k {
        lemma_chain_upto_states(toks, k, (n - 1) as nat);
        let m = chain_upto(toks, k, n);
        let key = join(toks.subrange(n - 1 - k, n - 1));
        assert forall|q: Seq<char>| #[trigger] m.contains_key(q) implies m[q].len() > 0 && exists|
            i: int,
        | k <= i < n && q == #[trigger] join(toks.subrange(i - k, i)) by {
            if q != key {
                assert(chain_upto(toks, k, (n - 1) as nat).contains_key(q));
            } else {
                let i = n - 1;
                assert(q == join(toks.subrange(i - k, i)));
            }
        }
    }
}

/// In a model built from tokens, each state is `k` consecutive tokens joined by single spaces,
/// so it splits back into exactly `k` words, and each state has at least one successor.
pub proof fn lemma_chain_states(toks: Seq<Seq<char>>, k: nat)
    requires
        k >= 1,
        toks.len() >= k + 1,
        forall|i: int| 0 <= i < toks.len() ==> is_word(#[trigger] toks[i]),
    ensures
        chain(toks, k).contains_key(join(toks.subrange(toks.len() - 1 - k, toks.len() - 1))),
        forall|key: Seq<char>| #[trigger] chain(toks, k).contains_key(key) ==> chain(toks, k)[key].len()
            > 0 && words(key).len() == k,
{
    lemma_chain_upto_states(toks, k, toks.len());
    assert forall|key: Seq<char>| #[trigger] chain(toks, k).contains_key(key) implies chain(
        toks,
        k,
    )[key].len() > 0 && words(key).len() == k by {
        let i = choose|i: int| k <= i < toks.len() && key == #[trigger] join(toks.subrange(i - k, i));
        let ws = toks.subrange(i - k, i);
        assert forall|j: int| 0 <= j < ws.len() implies is_word(#[trigger] ws[j]) by {
            assert(ws[j] == toks[i - k + j]);
        }
        lemma_words_join(ws);
    }
}

} // verus!
