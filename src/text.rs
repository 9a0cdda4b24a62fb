use vstd::prelude::*;

verus! {

/// The views of a sequence of strings.
pub open spec fn strs(v: Seq<String>) -> Seq<Seq<char>> {
    v.map_values(|s: String| s@)
}

/// Unicode `White_Space`: the characters that separate words.
pub open spec fn space_char(c: char) -> bool {
    ('\u{9}' <= c && c <= '\u{d}') || c == ' ' || c == '\u{85}' || c == '\u{a0}'
        || c == '\u{1680}' || ('\u{2000}' <= c && c <= '\u{200a}') || c == '\u{2028}'
        || c == '\u{2029}' || c == '\u{202f}' || c == '\u{205f}' || c == '\u{3000}'
}

/// The maximal runs of non-whitespace characters of `s`, left to right.
pub open spec fn words(s: Seq<char>) -> Seq<Seq<char>>
    decreases s.len(),
{
    if s.len() == 0 {
        seq![]
    } else {
        let init = words(s.drop_last());
        let c = s.last();
        if space_char(c) {
            init
        } else if s.len() >= 2 && !space_char(s[s.len() - 2]) {
            init.update(init.len() - 1, init.last().push(c))
        } else {
            init.push(seq![c])
        }
    }
}

/// The words of `ws` with one space between neighbours.
pub open spec fn join(ws: Seq<Seq<char>>) -> Seq<char>
    decreases ws.len(),
{
    if ws.len() == 0 {
        seq![]
    } else if ws.len() == 1 {
        ws[0]
    } else {
        join(ws.drop_last()) + seq![' '] + ws.last()
    }
}

/// A token: non-empty, with no whitespace.
pub open spec fn is_word(w: Seq<char>) -> bool {
    w.len() > 0 && forall|i: int| 0 <= i < w.len() ==> !space_char(#[trigger] w[i])
}

/// Every word of a text is a token.
pub proof fn lemma_words_are_tokens(s: Seq<char>)
    ensures
        forall|i: int| 0 <= i < words(s).len() ==> is_word(#[trigger] words(s)[i]),
    decreases s.len(),
{
    if s.len() > 0 {
        let init = s.drop_last();
        lemma_words_are_tokens(init);
        let c = s.last();
        let ws = words(init);
        if !space_char(c) && s.len() >= 2 && !space_char(s[s.len() - 2]) {
            assert(ws.len() > 0) by {
                if ws.len() == 0 {
                    lemma_words_nonempty(init);
                }
            }
            let w = ws.last().push(c);
            assert(is_word(ws[ws.len() - 1]));
            assert forall|j: int| 0 <= j < w.len() implies !space_char(#[trigger] w[j]) by {
                if j < w.len() - 1 {
                    assert(w[j] == ws[ws.len() - 1][j]);
                }
            }
        }
    }
}

proof fn lemma_words_nonempty(s: Seq<char>)
    requires
        s.len() > 0,
        !space_char(s.last()),
    ensures
        words(s).len() > 0,
    decreases s.len(),
{
    let init = s.drop_last();
    if s.len() >= 2 && !space_char(s[s.len() - 2]) {
        lemma_words_nonempty(init);
    }
}

/// Whether `c` is whitespace, as `char::is_whitespace` defines it.
pub fn is_space(c: char) -> (r: bool)
    ensures
        r == space_char(c),
{
    ('\u{9}' <= c && c <= '\u{d}') || c == ' ' || c == '\u{85}' || c == '\u{a0}'
        || c == '\u{1680}' || ('\u{2000}' <= c && c <= '\u{200a}') || c == '\u{2028}'
        || c == '\u{2029}' || c == '\u{202f}' || c == '\u{205f}' || c == '\u{3000}'
}

/// Relies on `str::chars`: the characters of `s` in order.
#[verifier::external_body]
fn chars_of(s: &str) -> (r: Vec<char>)
    ensures
        r@ == s@,
{
    s.chars().collect()
}

/// Relies on collecting characters into a `String`: the string holds exactly them.
#[verifier::external_body]
fn string_of(cs: &Vec<char>) -> (r: String)
    ensures
        r@ == cs@,
{
    cs.iter().collect()
}

/// Splits `text` into words at every run of whitespace; no word is empty.
pub fn tokenize(text: &str) -> (r: Vec<String>)
    ensures
        strs(r@) == words(text@),
{
    let cs = chars_of(text);
    let mut out: Vec<String> = Vec::new();
    let mut cur: Vec<char> = Vec::new();
    let mut i: usize = 0;
    while i < cs.len()
        invariant
            cs@ == text@,
            i <= cs.len(),
            cur@.len() > 0 <==> (i > 0 && !space_char(cs@[i - 1])),
            strs(out@) + (if cur@.len() > 0 { seq![cur@] } else { seq![] }) == words(
                cs@.take(i as int),
            ),
        decreases cs.len() - i,
    {
        let c = cs[i];
        assert(cs@.take(i + 1).drop_last() =~= cs@.take(i as int));
        if is_space(c) {
            if cur.len() > 0 {
                let ghost prev = out@;
                let w = string_of(&cur);
                out.push(w);
                assert(strs(out@) =~= strs(prev) + seq![cur@]);
                cur = Vec::new();
            }
            assert(strs(out@) + seq![] =~= strs(out@));
        } else {
            let ghost before = cur@;
            cur.push(c);
            proof {
                if before.len() > 0 {
                    assert(strs(out@) + seq![cur@] =~= (strs(out@) + seq![before]).update(
                        strs(out@).len() as int,
                        before.push(c),
                    ));
                } else {
                    assert(cur@ =~= seq![c]);
                    assert(strs(out@) + seq![cur@] =~= (strs(out@) + seq![]).push(seq![c]));
                }
            }
        }
        i += 1;
    }
    if cur.len() > 0 {
        let ghost prev = out@;
        let w = string_of(&cur);
        out.push(w);
        assert(strs(out@) =~= strs(prev) + seq![cur@]);
    }
    assert(cs@.take(cs@.len() as int) =~= cs@);
    assert(strs(out@) =~= words(text@));
    out
}

/// The words `tokens[start..end]` joined by single spaces.
pub fn join_range(tokens: &Vec<String>, start: usize, end: usize) -> (r: String)
    requires
        start <= end <= tokens.len(),
    ensures
        r@ == join(strs(tokens@).subrange(start as int, end as int)),
{
    let mut r = String::new();
    let mut j: usize = start;
    while j < end
        invariant
            start <= j <= end <= tokens.len(),
            r@ == join(strs(tokens@).subrange(start as int, j as int)),
        decreases end - j,
    {
        let ghost ws = strs(tokens@).subrange(start as int, j + 1);
        assert(ws.drop_last() =~= strs(tokens@).subrange(start as int, j as int));
        if j > start {
            let sep = " ";
            proof {
                reveal_strlit(" ");
            }
            r.append(sep);
        } else {
            assert(r@ =~= seq![]);
        }
        r.append(tokens[j].as_str());
        assert(r@ =~= join(ws));
        j += 1;
    }
    r
}

} // verus!
