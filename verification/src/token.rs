//! Splitting a line of code into words, runs of whitespace and single other characters.
use crate::text::{
    blank, byte_len, is_alphanumeric, is_whitespace, lemma_encode_concat, letter_or_digit,
    split_text, str_bytes, utf8_width,
};
use vstd::prelude::*;

verus! {

/// Whether `c` is part of a word.
pub open spec fn word_char(c: char) -> bool {
    letter_or_digit(c) || c == '_'
}

/// The number of characters at the start of `s` for which `f` holds, up to the first for which it
/// does not.
pub open spec fn run_len(s: Seq<char>, f: spec_fn(char) -> bool) -> nat
    decreases s.len(),
{
    if s.len() > 0 && f(s[0]) {
        1 + run_len(s.skip(1), f)
    } else {
        0
    }
}

/// The number of characters of the first token of a text: a whole word, a whole run of
/// whitespace, or one character of any other kind.
pub open spec fn first_token_len(s: Seq<char>) -> nat
    recommends
        s.len() > 0,
{
    if word_char(s[0]) {
        run_len(s, |c: char| word_char(c))
    } else if blank(s[0]) {
        run_len(s, |c: char| blank(c))
    } else {
        1
    }
}

/// The tokens of a text, in order.
pub open spec fn tokens_of(s: Seq<char>) -> Seq<Seq<char>>
    decreases s.len(),
{
    if s.len() == 0 {
        Seq::empty()
    } else {
        proof {
            lemma_first_token_len(s);
        }
        seq![s.take(first_token_len(s) as int)] + tokens_of(s.skip(first_token_len(s) as int))
    }
}

/// The texts of some string slices.
pub open spec fn texts(v: Seq<&str>) -> Seq<Seq<char>> {
    Seq::new(v.len(), |i: int| v[i]@)
}

/// The concatenation of some texts.
pub open spec fn joined(parts: Seq<Seq<char>>) -> Seq<char>
    decreases parts.len(),
{
    if parts.len() == 0 {
        Seq::empty()
    } else {
        joined(parts.drop_last()) + parts.last()
    }
}

proof fn lemma_run_len(s: Seq<char>, f: spec_fn(char) -> bool)
    ensures
        run_len(s, f) <= s.len(),
        forall|i: int| 0 <= i < run_len(s, f) ==> f(#[trigger] s[i]),
        run_len(s, f) < s.len() ==> !f(s[run_len(s, f) as int]),
        s.len() > 0 && f(s[0]) ==> run_len(s, f) > 0,
    decreases s.len(),
{
    if s.len() > 0 && f(s[0]) {
        lemma_run_len(s.skip(1), f);
        assert forall|i: int| 0 <= i < run_len(s, f) implies f(#[trigger] s[i]) by {
            if i > 0 {
                assert(s.skip(1)[i - 1] == s[i]);
            }
        }
    }
}

/// A run is as long as its characters say.
proof fn lemma_run_len_is(s: Seq<char>, f: spec_fn(char) -> bool, n: int)
    requires
        0 <= n <= s.len(),
        forall|i: int| 0 <= i < n ==> f(#[trigger] s[i]),
        n < s.len() ==> !f(s[n]),
    ensures
        run_len(s, f) == n,
{
    lemma_run_len(s, f);
    let m = run_len(s, f) as int;
    if m < n {
        assert(f(s[m]));
    }
}

/// The first token is non-empty and within the text.
pub proof fn lemma_first_token_len(s: Seq<char>)
    requires
        s.len() > 0,
    ensures
        1 <= first_token_len(s) <= s.len(),
{
    lemma_run_len(s, |c: char| word_char(c));
    lemma_run_len(s, |c: char| blank(c));
}

/// Joining two lists of texts joins their concatenations.
pub proof fn lemma_joined_concat(a: Seq<Seq<char>>, b: Seq<Seq<char>>)
    ensures
        joined(a + b) == joined(a) + joined(b),
    decreases b.len(),
{
    if b.len() == 0 {
        assert(a + b =~= a);
        assert(joined(a) + joined(b) =~= joined(a));
    } else {
        assert((a + b).drop_last() =~= a + b.drop_last());
        lemma_joined_concat(a, b.drop_last());
        assert(joined(a + b) =~= joined(a) + joined(b));
    }
}

/// Joining texts is putting one after the other.
pub proof fn law_joined(parts: Seq<Seq<char>>)
    ensures
        joined(parts) == parts.flatten(),
{
    lemma_joined_flat(parts);
    parts.lemma_flatten_and_flatten_alt_are_equivalent();
}

proof fn lemma_joined_flat(parts: Seq<Seq<char>>)
    ensures
        joined(parts) == parts.flatten_alt(),
    decreases parts.len(),
{
    if parts.len() > 0 {
        lemma_joined_flat(parts.drop_last());
    }
}

/// Nothing of a text is lost: its tokens, one after the other, are the text.
pub proof fn law_tokens_join(s: Seq<char>)
    ensures
        joined(tokens_of(s)) == s,
        tokens_of(s).flatten() == s,
    decreases s.len(),
{
    law_joined(tokens_of(s));
    if s.len() > 0 {
        lemma_first_token_len(s);
        let n = first_token_len(s) as int;
        law_tokens_join(s.skip(n));
        let first = seq![s.take(n)];
        lemma_joined_concat(first, tokens_of(s.skip(n)));
        assert(joined(first) =~= s.take(n)) by {
            assert(first.drop_last() =~= Seq::<Seq<char>>::empty());
            assert(joined(first.drop_last()) =~= Seq::<char>::empty());
        }
        assert(s.take(n) + s.skip(n) =~= s);
    } else {
        assert(joined(tokens_of(s)) =~= s);
    }
}

/// Whether a token is of one kind: a word, whitespace, or a single other character.
pub open spec fn uniform_token(t: Seq<char>) -> bool {
    ||| t.len() > 0 && forall|i: int| 0 <= i < t.len() ==> word_char(#[trigger] t[i])
    ||| t.len() > 0 && !word_char(t[0]) && forall|i: int|
        0 <= i < t.len() ==> blank(#[trigger] t[i])
    ||| t.len() == 1 && !word_char(t[0]) && !blank(t[0])
}

/// Whether the text of a token could have gone on into the token that follows it.
pub open spec fn splits_run(t: Seq<char>, next: Seq<char>) -> bool {
    ||| word_char(t[0]) && word_char(next[0])
    ||| !word_char(t[0]) && blank(t[0]) && blank(next[0])
}

/// Every token is non-empty and of one kind, and no word and no run of whitespace is split.
pub proof fn law_tokens_uniform(s: Seq<char>)
    ensures
        forall|i: int| 0 <= i < tokens_of(s).len() ==> uniform_token(#[trigger] tokens_of(s)[i]),
        forall|i: int|
            0 < i < tokens_of(s).len() ==> !splits_run(
                tokens_of(s)[i - 1],
                #[trigger] tokens_of(s)[i],
            ),
    decreases s.len(),
{
    if s.len() > 0 {
        lemma_first_token_len(s);
        let n = first_token_len(s) as int;
        let t = s.take(n);
        let rest = s.skip(n);
        law_tokens_uniform(rest);
        lemma_run_len(s, |c: char| word_char(c));
        lemma_run_len(s, |c: char| blank(c));
        let tokens = tokens_of(s);
        assert(tokens == seq![t] + tokens_of(rest));
        assert(uniform_token(t)) by {
            assert(t[0] == s[0]);
            assert forall|i: int| 0 <= i < n implies #[trigger] t[i] == s[i] by {}
        }
        assert forall|i: int| 0 <= i < tokens.len() implies uniform_token(#[trigger] tokens[i]) by {
            if i > 0 {
                assert(tokens[i] == tokens_of(rest)[i - 1]);
            }
        }
        assert forall|i: int| 0 < i < tokens.len() implies !splits_run(
            tokens[i - 1],
            #[trigger] tokens[i],
        ) by {
            assert(tokens[i] == tokens_of(rest)[i - 1]);
            if i == 1 {
                lemma_first_token_len(rest);
                assert(tokens[1] == rest.take(first_token_len(rest) as int));
                assert(tokens[1][0] == s[n]);
                assert(tokens[0][0] == s[0]);
            } else {
                assert(tokens[i - 1] == tokens_of(rest)[i - 2]);
            }
        }
    }
}

/// Two neighbouring characters of a text stand in one token exactly if both are word characters or
/// both are whitespace: so they do within a token, and so they do not from a token to the next.
pub proof fn law_tokens_cut(s: Seq<char>)
    ensures
        forall|i: int| 0 <= i < tokens_of(s).len() ==> (#[trigger] tokens_of(s)[i]).len() > 0,
        forall|i: int, k: int|
            0 <= i < tokens_of(s).len() && 0 < k < tokens_of(s)[i].len() ==> {
                let x = tokens_of(s)[i][k - 1];
                let y = #[trigger] tokens_of(s)[i][k];
                ||| (letter_or_digit(x) || x == '_') && (letter_or_digit(y) || y == '_')
                ||| blank(x) && blank(y)
            },
        forall|i: int|
            0 < i < tokens_of(s).len() ==> {
                let x = tokens_of(s)[i - 1].last();
                let y = (#[trigger] tokens_of(s)[i])[0];
                &&& !((letter_or_digit(x) || x == '_') && (letter_or_digit(y) || y == '_'))
                &&& !(blank(x) && blank(y))
            },
{
    let tokens = tokens_of(s);
    law_tokens_uniform(s);
    assert forall|i: int| 0 <= i < tokens.len() implies (#[trigger] tokens[i]).len() > 0 by {
        assert(uniform_token(tokens[i]));
    }
    assert forall|i: int, k: int|
        0 <= i < tokens.len() && 0 < k < tokens[i].len() implies runs_on(
        tokens[i][k - 1],
        #[trigger] tokens[i][k],
    ) by {
        assert(uniform_token(tokens[i]));
        let x = tokens[i][k - 1];
        let y = tokens[i][k];
    }
    assert forall|i: int| 0 < i < tokens.len() implies !runs_on(
        tokens[i - 1].last(),
        (#[trigger] tokens[i])[0],
    ) by {
        let t = tokens[i - 1];
        assert(uniform_token(t));
        assert(!splits_run(t, tokens[i]));
        assert(t.last() == t[t.len() - 1]);
        law_word_or_blank(t[0]);
        law_word_or_blank(t.last());
    }
}

/// No character of a word is whitespace.
pub proof fn law_word_or_blank(c: char)
    ensures
        word_char(c) <==> letter_or_digit(c) || c == '_',
        !(word_char(c) && blank(c)),
{
}

/// A token that is followed by more text goes on into it exactly if its run does.
proof fn lemma_first_token_concat(a: Seq<char>, b: Seq<char>)
    requires
        a.len() > 0,
        b.len() > 0,
    ensures
        first_token_len(a) < a.len() ==> first_token_len(a + b) == first_token_len(a),
        first_token_len(a) == a.len() && !splits_run(a, b) ==> first_token_len(a + b) == a.len(),
        first_token_len(a) == a.len() && splits_run(a, b) ==> first_token_len(a + b) == a.len()
            + first_token_len(b),
{
    let word = |c: char| word_char(c);
    let space = |c: char| blank(c);
    let whole = a + b;
    assert(whole[0] == a[0]);
    lemma_run_concat(a, b, word);
    lemma_run_concat(a, b, space);
    law_word_or_blank(b[0]);
}

/// A run goes on into the text that follows exactly if it takes up all of its own.
proof fn lemma_run_concat(a: Seq<char>, b: Seq<char>, f: spec_fn(char) -> bool)
    ensures
        run_len(a + b, f) == if run_len(a, f) < a.len() {
            run_len(a, f)
        } else {
            a.len() + run_len(b, f)
        },
    decreases a.len(),
{
    if a.len() == 0 {
        assert(a + b =~= b);
    } else {
        lemma_run_len(a, f);
        assert((a + b)[0] == a[0]);
        if f(a[0]) {
            lemma_run_len(a.skip(1), f);
            lemma_run_concat(a.skip(1), b, f);
            assert((a + b).skip(1) =~= a.skip(1) + b);
        }
    }
}

/// The tokens of a text that is joined of two are the tokens of both, unless the last token of the
/// first goes on into the second: then it is one with the first token of the second.
pub proof fn law_tokens_concat(a: Seq<char>, b: Seq<char>)
    requires
        a.len() > 0,
        b.len() > 0,
    ensures
        tokens_of(a).len() > 0,
        tokens_of(b).len() > 0,
        !splits_run(tokens_of(a).last(), b) ==> tokens_of(a + b) == tokens_of(a) + tokens_of(b),
        splits_run(tokens_of(a).last(), b) ==> tokens_of(a + b) == tokens_of(a).drop_last() + seq![
            tokens_of(a).last() + tokens_of(b).first(),
        ] + tokens_of(b).drop_first(),
    decreases a.len(),
{
    let n = first_token_len(a) as int;
    let m = first_token_len(b) as int;
    let whole = a + b;
    lemma_first_token_len(a);
    lemma_first_token_len(b);
    lemma_first_token_concat(a, b);
    let ta = tokens_of(a);
    let tb = tokens_of(b);
    assert(ta == seq![a.take(n)] + tokens_of(a.skip(n)));
    assert(tb == seq![b.take(m)] + tokens_of(b.skip(m)));
    if n < a.len() {
        let rest = a.skip(n);
        law_tokens_concat(rest, b);
        assert(whole.take(n) =~= a.take(n));
        assert(whole.skip(n) =~= rest + b);
        assert(ta.last() == tokens_of(rest).last());
        assert(tokens_of(whole) == seq![a.take(n)] + tokens_of(rest + b));
        if splits_run(ta.last(), b) {
            assert(ta.drop_last() =~= seq![a.take(n)] + tokens_of(rest).drop_last());
            assert(tokens_of(whole) =~= ta.drop_last() + seq![ta.last() + tb.first()]
                + tb.drop_first());
        } else {
            assert(tokens_of(whole) =~= ta + tb);
        }
    } else {
        assert(a.take(n) =~= a);
        assert(a.skip(n) =~= Seq::empty());
        assert(ta =~= seq![a]);
        assert(ta.last() == a);
        if splits_run(a, b) {
            assert(whole.take(n + m) =~= a + b.take(m));
            assert(whole.skip(n + m) =~= b.skip(m));
            assert(tb.drop_first() =~= tokens_of(b.skip(m)));
            assert(tokens_of(whole) =~= ta.drop_last() + seq![ta.last() + tb.first()]
                + tb.drop_first());
        } else {
            assert(whole.take(n) =~= a);
            assert(whole.skip(n) =~= b);
            assert(tokens_of(whole) =~= ta + tb);
        }
    }
}

/// Whether two neighbouring characters are part of one token.
pub open spec fn runs_on(x: char, y: char) -> bool {
    word_char(x) && word_char(y) || blank(x) && blank(y)
}

/// Whether the last token of a text goes on is for its last character to say.
pub proof fn law_runs_on(a: Seq<char>, b: Seq<char>)
    requires
        a.len() > 0,
        b.len() > 0,
    ensures
        tokens_of(a).len() > 0,
        splits_run(tokens_of(a).last(), b) <==> runs_on(a.last(), b[0]),
{
    law_tokens_join(a);
    law_tokens_uniform(a);
    let tokens = tokens_of(a);
    if tokens.len() == 0 {
        assert(joined(tokens).len() == 0);
    }
    let t = tokens.last();
    assert(t == tokens[tokens.len() - 1]);
    assert(uniform_token(t));
    assert(a.last() == t.last());
    assert(t.last() == t[t.len() - 1]);
    law_word_or_blank(a.last());
    law_word_or_blank(t[0]);
}

/// A text has no more tokens than characters.
pub proof fn law_tokens_count(s: Seq<char>)
    ensures
        tokens_of(s).len() <= s.len(),
    decreases s.len(),
{
    if s.len() > 0 {
        lemma_first_token_len(s);
        law_tokens_count(s.skip(first_token_len(s) as int));
    }
}

/// Whether `c` is part of a word.
fn is_word(c: char) -> (r: bool)
    ensures
        r == word_char(c),
{
    is_alphanumeric(c) || c == '_'
}

/// The bytes of the first token of `s`.
fn first_token_bytes(s: &str) -> (r: usize)
    requires
        s@.len() > 0,
    ensures
        r == byte_len(s@.take(first_token_len(s@) as int)),
{
    let ghost wf = |c: char| word_char(c);
    let ghost sf = |c: char| blank(c);
    let total: usize = str_bytes(s);
    let mut bytes: usize = 0;
    let mut first: bool = true;
    let mut in_word: bool = false;
    let mut in_space: bool = false;
    for c in it: s.chars()
        invariant
            it.seq() == s@,
            s@.len() > 0,
            wf == |c: char| word_char(c),
            sf == |c: char| blank(c),
            total == byte_len(s@),
            bytes == byte_len(s@.take(it.index())),
            first == (it.index() == 0),
            !first ==> in_word == word_char(s@[0]),
            !first ==> in_space == (!word_char(s@[0]) && blank(s@[0])),
            !first ==> in_word || in_space || it.index() == 1,
            in_word ==> forall|i: int| 0 <= i < it.index() ==> wf(#[trigger] s@[i]),
            in_space ==> forall|i: int| 0 <= i < it.index() ==> sf(#[trigger] s@[i]),
    {
        let ghost k = it.index();
        if first {
            first = false;
            in_word = is_word(c);
            in_space = !in_word && is_whitespace(c);
        } else {
            let goes_on: bool = if in_word {
                is_word(c)
            } else {
                in_space && is_whitespace(c)
            };
            if !goes_on {
                proof {
                    if in_word {
                        lemma_run_len_is(s@, wf, k);
                    } else if in_space {
                        lemma_run_len_is(s@, sf, k);
                    }
                }
                return bytes;
            }
        }
        proof {
            assert(s@.take(k + 1) =~= s@.take(k) + seq![c]);
            lemma_encode_concat(s@.take(k), seq![c]);
            assert(s@ =~= s@.take(k + 1) + s@.skip(k + 1));
            lemma_encode_concat(s@.take(k + 1), s@.skip(k + 1));
        }
        bytes = bytes + utf8_width(c);
    }
    proof {
        if in_word {
            lemma_run_len_is(s@, wf, s@.len() as int);
        } else if in_space {
            lemma_run_len_is(s@, sf, s@.len() as int);
        }
    }
    bytes
}

/// Splits `s` into words, runs of whitespace and single other characters.
pub fn tokenize_code<'a>(s: &'a str) -> (tokens: Vec<&'a str>)
    ensures
        texts(tokens@) == tokens_of(s@),
        tokens@.len() == tokens_of(s@).len(),
        forall|i: int| 0 <= i < tokens@.len() ==> (#[trigger] tokens@[i])@ == tokens_of(s@)[i],
{
    let mut tokens: Vec<&'a str> = Vec::new();
    let mut rest: &'a str = s;
    assert(texts(tokens@) + tokens_of(rest@) =~= tokens_of(s@));
    while !rest.is_empty()
        invariant
            texts(tokens@) + tokens_of(rest@) == tokens_of(s@),
        decreases rest@.len(),
    {
        proof {
            lemma_first_token_len(rest@);
        }
        let n: usize = first_token_bytes(rest);
        let ghost k = first_token_len(rest@) as int;
        let ghost before = texts(tokens@);
        let (token, tail) = split_text(rest, n, Ghost(k));
        proof {
            assert(tokens_of(rest@) == seq![rest@.take(k)] + tokens_of(rest@.skip(k)));
        }
        tokens.push(token);
        rest = tail;
        assert(texts(tokens@) =~= before.push(token@));
        assert(texts(tokens@) + tokens_of(rest@) =~= tokens_of(s@));
    }
    assert(texts(tokens@) =~= tokens_of(s@));
    assert forall|i: int| 0 <= i < tokens@.len() implies (#[trigger] tokens@[i])@ == tokens_of(
        s@,
    )[i] by {
        assert(texts(tokens@)[i] == tokens@[i]@);
    }
    tokens
}

/// The texts of string slices are what these hold, in order.
pub proof fn law_texts(v: Seq<&str>)
    ensures
        texts(v).len() == v.len(),
        forall|i: int| 0 <= i < v.len() ==> #[trigger] texts(v)[i] == v[i]@,
{
}

} // verus!
