use vstd::prelude::*;
use vstd::string::StrSliceExecFns;
use rand::Rng;
use rand::rngs::StdRng;
use crate::model::Model;
use crate::text::{join, join_range, strs, tokenize, words};
use crate::MarkovError;

verus! {

/// A name for what `char::is_uppercase` says of a character (Unicode `Uppercase`).
pub uninterp spec fn upper_char(c: char) -> bool;

/// A name for what `char::is_alphabetic` says of a character (Unicode `Alphabetic`).
pub uninterp spec fn alpha_char(c: char) -> bool;

/// Relies on `char::is_uppercase`, which depends on the character alone.
#[verifier::external_body]
fn is_uppercase(c: char) -> (r: bool)
    ensures
        r == upper_char(c),
{
    c.is_uppercase()
}

/// Relies on `char::is_alphabetic`, which depends on the character alone.
#[verifier::external_body]
fn is_alphabetic(c: char) -> (r: bool)
    ensures
        r == alpha_char(c),
{
    c.is_alphabetic()
}

#[verifier::external_type_specification]
#[verifier::external_body]
pub struct ExStdRng(StdRng);

/// Relies on `Rng::random_range` over `0..len`: a draw below `len` (it panics on an empty
/// range, hence `len > 0`).
#[verifier::external_body]
fn random_index(rng: &mut StdRng, len: usize) -> (r: usize)
    requires
        len > 0,
    ensures
        r < len,
{
    rng.random_range(0..len)
}

/// `s` begins with an upper-case letter.
pub open spec fn capital(s: Seq<char>) -> bool {
    s.len() > 0 && upper_char(s[0]) && alpha_char(s[0])
}

/// A state that opens a sentence and whose last word (the `k`-th) is not capitalised.
pub open spec fn preferred(key: Seq<char>, k: nat) -> bool {
    capital(key) && k >= 1 && words(key).len() >= k && !capital(words(key)[k - 1])
}

/// `key` is a state that generation may start from: a preferred state if the model has one,
/// else a capitalised state if it has one, else any state.
pub open spec fn start_state(m: Map<Seq<char>, Seq<Seq<char>>>, k: nat, key: Seq<char>) -> bool {
    m.contains_key(key) && if exists|q: Seq<char>| m.contains_key(q) && #[trigger] preferred(q, k) {
        preferred(key, k)
    } else if exists|q: Seq<char>| m.contains_key(q) && #[trigger] capital(q) {
        capital(key)
    } else {
        true
    }
}

/// The state formed by the last `k` words of `w`.
pub open spec fn last_state(w: Seq<Seq<char>>, k: nat) -> Seq<char> {
    join(w.subrange(w.len() - k, w.len() as int))
}

/// Generation can go on after `w`: its last `k` words form a state with a successor.
pub open spec fn can_continue(m: Map<Seq<char>, Seq<Seq<char>>>, k: nat, w: Seq<Seq<char>>) -> bool {
    w.len() >= k && m.contains_key(last_state(w, k)) && m[last_state(w, k)].len() > 0
}

/// `w` starts with `start`, each later word is a successor of the `k` words before it, and
/// `w` ends at `max` words or where no successor is known.
pub open spec fn walk(
    m: Map<Seq<char>, Seq<Seq<char>>>,
    k: nat,
    max: nat,
    start: Seq<Seq<char>>,
    w: Seq<Seq<char>>,
) -> bool {
    &&& start.len() <= w.len()
    &&& w.take(start.len() as int) == start
    &&& forall|j: int|
        start.len() <= j < w.len() ==> j < max && can_continue(m, k, #[trigger] w.take(j))
            && m[last_state(w.take(j), k)].contains(w[j])
    &&& (w.len() >= max || !can_continue(m, k, w))
}

/// `w` is a text that generation can produce from `m`.
pub open spec fn generated(m: Map<Seq<char>, Seq<Seq<char>>>, k: nat, max: nat, w: Seq<Seq<char>>) -> bool {
    exists|st: Seq<char>| start_state(m, k, st) && walk(m, k, max, words(st), w)
}

/// Whether `s` begins with an upper-case letter.
pub fn is_capital(s: &str) -> (r: bool)
    ensures
        r == capital(s@),
{
    if s.is_empty() {
        return false;
    }
    let c = s.get_char(0);
    is_uppercase(c) && is_alphabetic(c)
}

/// Whether `key` opens a sentence and its `k`-th word is not capitalised.
pub fn is_preferred(key: &String, k: usize) -> (r: bool)
    ensures
        r == preferred(key@, k as nat),
{
    if k == 0 || !is_capital(key.as_str()) {
        return false;
    }
    let ws = tokenize(key.as_str());
    if ws.len() < k {
        return false;
    }
    assert(strs(ws@)[k - 1] == ws@[k - 1]@);
    !is_capital(ws[k - 1].as_str())
}

/// The states that generation may start from, each once.
pub fn start_candidates(model: &Model, state_size: usize) -> (r: Vec<String>)
    requires
        model.wf(),
    ensures
        strs(r@).no_duplicates(),
        forall|key: Seq<char>| #[trigger] strs(r@).contains(key) <==> start_state(
            model@,
            state_size as nat,
            key,
        ),
{
    let keys = model.keys();
    let ghost m = model@;
    let ghost k = state_size as nat;
    let mut pref: Vec<String> = Vec::new();
    let mut caps: Vec<String> = Vec::new();
    let mut i: usize = 0;
    while i < keys.len()
        invariant
            m == model@,
            k == state_size as nat,
            i <= keys.len(),
            strs(keys@).no_duplicates(),
            forall|q: Seq<char>| #[trigger] strs(keys@).contains(q) <==> m.contains_key(q),
            strs(pref@) == strs(keys@).take(i as int).filter(|q: Seq<char>| preferred(q, k)),
            strs(caps@) == strs(keys@).take(i as int).filter(|q: Seq<char>| capital(q)),
        decreases keys.len() - i,
    {
        let ghost ks = strs(keys@);
        assert(ks.take(i + 1) =~= ks.take(i as int).push(ks[i as int]));
        reveal(Seq::filter);
        assert(ks.take(i + 1).drop_last() =~= ks.take(i as int));
        assert(ks[i as int] == keys@[i as int]@);
        if is_preferred(&keys[i], state_size) {
            let ghost before = pref@;
            pref.push(keys[i].clone());
            assert(strs(pref@) =~= strs(before).push(ks[i as int]));
        }
        if is_capital(keys[i].as_str()) {
            let ghost before = caps@;
            caps.push(keys[i].clone());
            assert(strs(caps@) =~= strs(before).push(ks[i as int]));
        }
        i += 1;
    }
    let ghost ks = strs(keys@);
    assert(ks.take(keys.len() as int) =~= ks);
    proof {
        lemma_filter(ks, |q: Seq<char>| preferred(q, k));
        lemma_filter(ks, |q: Seq<char>| capital(q));
    }
    if pref.len() > 0 {
        assert(strs(pref@).contains(strs(pref@)[0]));
        assert forall|key: Seq<char>| #[trigger] strs(pref@).contains(key) <==> start_state(m, k, key) by {
            let q = strs(pref@)[0];
            assert(m.contains_key(q) && preferred(q, k));
        }
        pref
    } else if caps.len() > 0 {
        assert(!exists|q: Seq<char>| m.contains_key(q) && #[trigger] preferred(q, k)) by {
            if exists|q: Seq<char>| m.contains_key(q) && #[trigger] preferred(q, k) {
                let q = choose|q: Seq<char>| m.contains_key(q) && #[trigger] preferred(q, k);
                assert(ks.filter(|q: Seq<char>| preferred(q, k)).contains(q));
                assert(strs(pref@).len() > 0);
            }
        }
        assert(strs(caps@).contains(strs(caps@)[0]));
        assert forall|key: Seq<char>| #[trigger] strs(caps@).contains(key) <==> start_state(m, k, key) by {
            let q = strs(caps@)[0];
            assert(m.contains_key(q) && capital(q));
            if m.contains_key(key) && preferred(key, k) {
                assert(ks.filter(|q: Seq<char>| preferred(q, k)).contains(key));
            }
        }
        caps
    } else {
        assert(!exists|q: Seq<char>| m.contains_key(q) && #[trigger] preferred(q, k)) by {
            if exists|q: Seq<char>| m.contains_key(q) && #[trigger] preferred(q, k) {
                let q = choose|q: Seq<char>| m.contains_key(q) && #[trigger] preferred(q, k);
                assert(ks.filter(|q: Seq<char>| preferred(q, k)).contains(q));
                assert(strs(pref@).len() > 0);
            }
        }
        assert(!exists|q: Seq<char>| m.contains_key(q) && #[trigger] capital(q)) by {
            if exists|q: Seq<char>| m.contains_key(q) && #[trigger] capital(q) {
                let q = choose|q: Seq<char>| m.contains_key(q) && #[trigger] capital(q);
                assert(ks.filter(|q: Seq<char>| capital(q)).contains(q));
                assert(strs(caps@).len() > 0);
            }
        }
        assert forall|key: Seq<char>| #[trigger] strs(keys@).contains(key) <==> start_state(m, k, key) by {
            if m.contains_key(key) && preferred(key, k) {
                assert(ks.filter(|q: Seq<char>| preferred(q, k)).contains(key));
            }
            if m.contains_key(key) && capital(key) {
                assert(ks.filter(|q: Seq<char>| capital(q)).contains(key));
            }
        }
        keys
    }
}

/// Picks a start state at random among `start_candidates`.
pub fn get_text_starter(model: &Model, state_size: usize, rng: &mut StdRng) -> (r: Result<
    String,
    MarkovError,
>)
    requires
        model.wf(),
    ensures
        model@.dom().len() == 0 ==> r == Err::<String, MarkovError>(MarkovError::EmptyModel),
        model@.dom().len() > 0 ==> (r matches Ok(s) && start_state(
            model@,
            state_size as nat,
            s@,
        )),
{
    let cands = start_candidates(model, state_size);
    if cands.len() == 0 {
        proof {
            model.lemma_finite();
            if model@.dom().len() > 0 {
                let q = model@.dom().choose();
                assert(model@.contains_key(q));
                if start_state(model@, state_size as nat, q) {
                    assert(strs(cands@).contains(q));
                } else {
                    if exists|x: Seq<char>| model@.contains_key(x) && #[trigger] preferred(x, state_size as nat) {
                        let x = choose|x: Seq<char>| model@.contains_key(x) && #[trigger] preferred(x, state_size as nat);
                        assert(start_state(model@, state_size as nat, x));
                        assert(strs(cands@).contains(x));
                    } else {
                        let x = choose|x: Seq<char>| model@.contains_key(x) && #[trigger] capital(x);
                        assert(start_state(model@, state_size as nat, x));
                        assert(strs(cands@).contains(x));
                    }
                }
            }
        }
        return Err(MarkovError::EmptyModel);
    }
    let i = random_index(rng, cands.len());
    assert(strs(cands@).contains(strs(cands@)[i as int]));
    let s = cands[i].clone();
    proof {
        model.lemma_finite();
        if model@.dom().len() == 0 {
            assert(model@.contains_key(s@));
            assert(model@.dom().contains(s@));
        }
    }
    Ok(s)
}

/// Generates up to `max_words` words from `model`: a start state, then successors drawn at
/// random until `max_words` words or a state with no successor.
pub fn generate_words(model: &Model, state_size: usize, max_words: usize, rng: &mut StdRng) -> (r:
    Result<Vec<String>, MarkovError>)
    requires
        model.wf(),
    ensures
        max_words == 0 || state_size == 0 ==> r == Err::<Vec<String>, MarkovError>(
            MarkovError::InvalidConfiguration,
        ),
        max_words > 0 && state_size > 0 && model@.dom().len() == 0 ==> r == Err::<
            Vec<String>,
            MarkovError,
        >(MarkovError::EmptyModel),
        max_words > 0 && state_size > 0 && model@.dom().len() > 0 ==> (r matches Ok(w)
            && generated(model@, state_size as nat, max_words as nat, strs(w@))),
        r matches Ok(w) ==> (max_words >= state_size && forall|key: Seq<char>| #[trigger]
            model@.contains_key(key) ==> words(key).len() == state_size) ==> state_size <= w.len()
            <= max_words,
{
    if max_words == 0 || state_size == 0 {
        return Err(MarkovError::InvalidConfiguration);
    }
    let starter = match get_text_starter(model, state_size, rng) {
        Ok(s) => s,
        Err(e) => {
            return Err(e);
        },
    };
    let ghost m = model@;
    let ghost k = state_size as nat;
    let ghost max = max_words as nat;
    let ghost start = words(starter@);
    let mut out = tokenize(starter.as_str());
    let mut done = false;
    while !done && out.len() < max_words && out.len() >= state_size
        invariant
            m == model@,
            model.wf(),
            k == state_size as nat,
            max == max_words as nat,
            start == words(starter@),
            start.len() <= out.len(),
            out.len() <= max_words || out.len() == start.len(),
            strs(out@).take(start.len() as int) == start,
            forall|j: int|
                start.len() <= j < out.len() ==> j < max && can_continue(
                    m,
                    k,
                    #[trigger] strs(out@).take(j),
                ) && m[last_state(strs(out@).take(j), k)].contains(strs(out@)[j]),
            done ==> !can_continue(m, k, strs(out@)),
        decreases max_words - out.len(), if done { 0int } else { 1int },
    {
        let ghost before = strs(out@);
        let key = join_range(&out, out.len() - state_size, out.len());
        assert(key@ == last_state(before, k));
        match model.get(&key) {
            Some(list) => {
                if list.len() > 0 {
                    let i = random_index(rng, list.len());
                    let w = list[i].clone();
                    assert(strs(list@)[i as int] == w@);
                    out.push(w);
                    assert(strs(out@) =~= before.push(w@));
                    assert(strs(out@).take(start.len() as int) =~= before.take(start.len() as int));
                    assert forall|j: int| start.len() <= j < out.len() implies j < max && can_continue(
                        m,
                        k,
                        #[trigger] strs(out@).take(j),
                    ) && m[last_state(strs(out@).take(j), k)].contains(strs(out@)[j]) by {
                        if j < before.len() {
                            assert(strs(out@).take(j) =~= before.take(j));
                        } else {
                            assert(strs(out@).take(j) =~= before);
                            assert(m[key@].contains(strs(list@)[i as int]));
                        }
                    }
                } else {
                    done = true;
                }
            },
            None => {
                done = true;
            },
        }
    }
    proof {
        assert(walk(m, k, max, start, strs(out@)));
        assert(start_state(m, k, starter@));
    }
    Ok(out)
}

/// Generates text from `model` as `generate_words` does, with single spaces between words.
pub fn generate_text(model: &Model, state_size: usize, max_words: usize, rng: &mut StdRng) -> (r:
    Result<String, MarkovError>)
    requires
        model.wf(),
    ensures
        max_words == 0 || state_size == 0 ==> r == Err::<String, MarkovError>(
            MarkovError::InvalidConfiguration,
        ),
        max_words > 0 && state_size > 0 && model@.dom().len() == 0 ==> r == Err::<
            String,
            MarkovError,
        >(MarkovError::EmptyModel),
        max_words > 0 && state_size > 0 && model@.dom().len() > 0 ==> (r matches Ok(s) && exists|
            w: Seq<Seq<char>>,
        | generated(model@, state_size as nat, max_words as nat, w) && s@ == join(w)),
{
    match generate_words(model, state_size, max_words, rng) {
        Ok(w) => {
            let s = join_range(&w, 0, w.len());
            assert(strs(w@).subrange(0, w.len() as int) =~= strs(w@));
            Ok(s)
        },
        Err(e) => Err(e),
    }
}

proof fn lemma_filter(s: Seq<Seq<char>>, p: spec_fn(Seq<char>) -> bool)
    requires
        s.no_duplicates(),
    ensures
        s.filter(p).no_duplicates(),
        forall|x: Seq<char>| #[trigger] s.filter(p).contains(x) <==> s.contains(x) && p(x),
    decreases s.len(),
{
    reveal(Seq::filter);
    if s.len() > 0 {
        let init = s.drop_last();
        let last = s.last();
        lemma_filter(init, p);
        assert(!init.contains(last)) by {
            if init.contains(last) {
                let i = choose|i: int| 0 <= i < init.len() && init[i] == last;
                assert(s[i] == s[s.len() - 1]);
            }
        }
        let f = init.filter(p);
        assert forall|x: Seq<char>| #[trigger] s.filter(p).contains(x) <==> s.contains(x) && p(x) by {
            if s.contains(x) && x != last {
                let i = choose|i: int| 0 <= i < s.len() && s[i] == x;
                assert(init[i] == x);
            }
            if init.contains(x) {
                let i = choose|i: int| 0 <= i < init.len() && init[i] == x;
                assert(s[i] == x);
            }
            if p(last) {
                assert(s.filter(p) == f.push(last));
                if f.contains(x) {
                    let i = choose|i: int| 0 <= i < f.len() && f[i] == x;
                    assert(f.push(last)[i] == x);
                }
                if f.push(last).contains(x) && x != last {
                    let i = choose|i: int| 0 <= i < f.len() + 1 && f.push(last)[i] == x;
                    assert(f[i] == x);
                }
                assert(f.push(last)[f.len() as int] == last);
            }
        }
        if p(last) {
            assert(!f.contains(last));
            assert forall|i: int, j: int| 0 <= i < j < f.len() + 1 implies f.push(last)[i] != f.push(
                last,
            )[j] by {
                if j == f.len() {
                    assert(f.contains(f[i]));
                }
            }
        }
    }
}

} // verus!
