use vstd::prelude::*;

verus! {

/// Whether a character separates words: the fixed Unicode White_Space set,
/// which is what `char::is_whitespace` tests.
pub open spec fn is_space(c: char) -> bool {
    let n = c as int;
    ||| n == 0x09
    ||| n == 0x0A
    ||| n == 0x0B
    ||| n == 0x0C
    ||| n == 0x0D
    ||| n == 0x20
    ||| n == 0x85
    ||| n == 0xA0
    ||| n == 0x1680
    ||| (0x2000 <= n && n <= 0x200A)
    ||| n == 0x2028
    ||| n == 0x2029
    ||| n == 0x202F
    ||| n == 0x205F
    ||| n == 0x3000
}

/// Relies on char::is_whitespace: its documentation defines it as membership
/// in the Unicode White_Space set, the characters `is_space` lists.
#[verifier::external_body]
fn char_is_space(c: char) -> (r: bool)
    ensures
        r == is_space(c),
{
    c.is_whitespace()
}

/// The stem that the English Snowball stemmer assigns to a word.
pub uninterp spec fn stem_of(w: Seq<char>) -> Seq<char>;

/// Relies on rust_stemmers::Stemmer::create and Stemmer::stem: `create`
/// with `Algorithm::English` always selects the same pure stemming routine,
/// so the stem is a function of the word's characters alone.
#[verifier::external_body]
pub fn stem_word(w: &str) -> (r: String)
    ensures
        r@ == stem_of(w@),
{
    let stemmer = rust_stemmers::Stemmer::create(rust_stemmers::Algorithm::English);
    stemmer.stem(w).into_owned()
}

/// The words of `s`: maximal runs of non-space characters, in order, with
/// `cur` the run already read when `s` begins mid-word.
pub open spec fn split_rec(s: Seq<char>, cur: Seq<char>) -> Seq<Seq<char>>
    decreases s.len(),
{
    if s.len() == 0 {
        if cur.len() == 0 {
            Seq::empty()
        } else {
            seq![cur]
        }
    } else if is_space(s[0]) {
        if cur.len() == 0 {
            split_rec(s.drop_first(), Seq::empty())
        } else {
            seq![cur] + split_rec(s.drop_first(), Seq::empty())
        }
    } else {
        split_rec(s.drop_first(), cur.push(s[0]))
    }
}

/// The whitespace-separated words of a text.
pub open spec fn tokens(s: Seq<char>) -> Seq<Seq<char>> {
    split_rec(s, Seq::empty())
}

/// The stemmed words of a text, duplicates preserved, in order.
pub open spec fn stems(s: Seq<char>) -> Seq<Seq<char>> {
    tokens(s).map_values(|t: Seq<char>| stem_of(t))
}

/// A text has at most as many words as characters.
pub proof fn lemma_split_rec_count(s: Seq<char>, cur: Seq<char>)
    ensures
        split_rec(s, cur).len() <= s.len() + if cur.len() == 0 { 0int } else { 1int },
    decreases s.len(),
{
    if s.len() > 0 {
        if is_space(s[0]) {
            lemma_split_rec_count(s.drop_first(), Seq::empty());
        } else {
            lemma_split_rec_count(s.drop_first(), cur.push(s[0]));
        }
    }
}

pub proof fn lemma_tokens_count(s: Seq<char>)
    ensures
        tokens(s).len() <= s.len(),
        stems(s).len() <= s.len(),
{
    lemma_split_rec_count(s, Seq::empty());
}

/// Split a text into its whitespace-separated words.
fn tokenize(text: &str) -> (r: Vec<String>)
    ensures
        r@.map_values(|t: String| t@) == tokens(text@),
{
    let n = text.unicode_len();
    let mut out: Vec<String> = Vec::new();
    let mut start: usize = 0;
    let mut i: usize = 0;
    proof {
        assert(text@.skip(0) =~= text@);
        assert(text@.subrange(0, 0) =~= Seq::<char>::empty());
    }
    while i < n
        invariant
            start <= i <= n,
            n == text@.len(),
            out@.map_values(|t: String| t@) + split_rec(
                text@.skip(i as int),
                text@.subrange(start as int, i as int),
            ) == tokens(text@),
        decreases n - i,
    {
        let ghost cur = text@.subrange(start as int, i as int);
        let c = text.get_char(i);
        proof {
            assert(text@.skip(i as int)[0] == text@[i as int]);
            assert(text@.skip(i as int).drop_first() =~= text@.skip(i + 1));
        }
        if char_is_space(c) {
            if start < i {
                let tok = text.substring_char(start, i);
                let tok_s = String::from_str(tok);
                proof {
                    assert(split_rec(text@.skip(i as int), cur) == seq![cur] + split_rec(
                        text@.skip(i + 1),
                        Seq::empty(),
                    ));
                    assert(out@.push(tok_s).map_values(|t: String| t@) =~= out@.map_values(
                        |t: String| t@,
                    ).push(cur));
                    assert(out@.map_values(|t: String| t@).push(cur) + split_rec(
                        text@.skip(i + 1),
                        Seq::empty(),
                    ) =~= out@.map_values(|t: String| t@) + split_rec(text@.skip(i as int), cur));
                }
                out.push(tok_s);
            } else {
                proof {
                    assert(cur =~= Seq::<char>::empty());
                    assert(split_rec(text@.skip(i as int), cur) == split_rec(
                        text@.skip(i + 1),
                        Seq::empty(),
                    ));
                }
            }
            start = i + 1;
            proof {
                assert(text@.subrange(start as int, i + 1) =~= Seq::<char>::empty());
            }
        } else {
            proof {
                assert(split_rec(text@.skip(i as int), cur) == split_rec(
                    text@.skip(i + 1),
                    cur.push(text@[i as int]),
                ));
                assert(text@.subrange(start as int, i + 1) =~= cur.push(text@[i as int]));
            }
        }
        i += 1;
    }
    proof {
        assert(text@.skip(n as int) =~= Seq::<char>::empty());
    }
    if start < n {
        let tok = text.substring_char(start, n);
        let tok_s = String::from_str(tok);
        proof {
            let cur = text@.subrange(start as int, n as int);
            assert(split_rec(Seq::<char>::empty(), cur) == seq![cur]);
            assert(out@.push(tok_s).map_values(|t: String| t@) =~= out@.map_values(
                |t: String| t@,
            ).push(cur));
            assert(out@.map_values(|t: String| t@).push(cur) =~= out@.map_values(|t: String| t@)
                + seq![cur]);
        }
        out.push(tok_s);
    }
    out
}

/// Split a text into words and stem each word, as both training and
/// classification do.
pub fn stem_text(text: &str) -> (r: Vec<String>)
    ensures
        r@.map_values(|t: String| t@) == stems(text@),
{
    let toks = tokenize(text);
    let mut out: Vec<String> = Vec::new();
    let mut i: usize = 0;
    proof {
        assert(out@.map_values(|t: String| t@) =~= stems(text@).take(0));
    }
    while i < toks.len()
        invariant
            i <= toks@.len(),
            toks@.map_values(|t: String| t@) == tokens(text@),
            out@.map_values(|t: String| t@) == stems(text@).take(i as int),
        decreases toks@.len() - i,
    {
        let s = stem_word(toks[i].as_str());
        proof {
            assert(toks@.map_values(|t: String| t@)[i as int] == toks@[i as int]@);
            assert(stems(text@)[i as int] == stem_of(tokens(text@)[i as int]));
            assert(out@.map_values(|t: String| t@).len() == out@.len());
            assert(toks@.map_values(|t: String| t@).len() == toks@.len());
            assert(stems(text@).len() == tokens(text@).len());
            assert(out@.len() == i);
            assert(s@ == stems(text@)[i as int]);
            assert(out@.push(s).map_values(|t: String| t@) =~= out@.map_values(
                |t: String| t@,
            ).push(s@));
            assert(stems(text@).take(i as int).push(s@) =~= stems(text@).take(i + 1));
        }
        out.push(s);
        i += 1;
    }
    proof {
        assert(stems(text@).take(toks@.len() as int) =~= stems(text@));
    }
    out
}

} // verus!
