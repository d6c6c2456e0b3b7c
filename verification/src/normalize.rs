//! Case folding and CamelCase-aware word splitting.
use vstd::prelude::*;

use crate::text::{
    alphanumeric, char_is_alphanumeric, char_is_lowercase, char_is_uppercase, chars_of, lowercase,
    lowercase_char, str_to_lowercase, string_of, uppercase, views,
};

verus! {

/// Case-insensitive form of a field or token.
pub fn fold_case(s: &str) -> (r: String)
    ensures
        r@ == lowercase(s@),
{
    str_to_lowercase(s)
}

/// A CamelCase boundary: the next character is upper case and the word
/// collected so far ends in a lower-case character.
pub open spec fn camel_break(cur: Seq<char>, next: char) -> bool {
    cur.len() > 0 && uppercase(next) && lowercase_char(cur.last())
}

/// One step of the word splitter: the finished words and the word in progress.
pub open spec fn words_step(
    state: (Seq<Seq<char>>, Seq<char>),
    ch: char,
) -> (Seq<Seq<char>>, Seq<char>) {
    let (done, cur) = state;
    if alphanumeric(ch) {
        if camel_break(cur, ch) {
            (done.push(lowercase(cur)), seq![ch])
        } else {
            (done, cur.push(ch))
        }
    } else if cur.len() > 0 {
        (done.push(lowercase(cur)), Seq::empty())
    } else {
        (done, cur)
    }
}

/// State of the word splitter after reading `s`.
pub open spec fn words_state(s: Seq<char>) -> (Seq<Seq<char>>, Seq<char>)
    decreases s.len(),
{
    if s.len() == 0 {
        (Seq::empty(), Seq::empty())
    } else {
        words_step(words_state(s.drop_last()), s.last())
    }
}

/// The lower-cased alphanumeric runs of `s`, split at CamelCase boundaries.
pub open spec fn words(s: Seq<char>) -> Seq<Seq<char>> {
    let (done, cur) = words_state(s);
    if cur.len() > 0 {
        done.push(lowercase(cur))
    } else {
        done
    }
}

proof fn lemma_words_shift(x: Seq<char>, y: Seq<char>, b: Seq<char>, p: Seq<Seq<char>>)
    requires
        words_state(x) == (p + words_state(y).0, words_state(y).1),
    ensures
        words_state(x + b) == (p + words_state(y + b).0, words_state(y + b).1),
    decreases b.len(),
{
    if b.len() == 0 {
        assert(x + b =~= x);
        assert(y + b =~= y);
    } else {
        let d = b.drop_last();
        lemma_words_shift(x, y, d, p);
        assert((x + b).drop_last() =~= x + d);
        assert((y + b).drop_last() =~= y + d);
        assert((x + b).last() == b.last());
        assert((y + b).last() == b.last());
        let (dy, cy) = words_state(y + d);
        assert((p + dy).push(lowercase(cy)) =~= p + dy.push(lowercase(cy)));
    }
}

proof fn lemma_words_of_state(x: Seq<char>, y: Seq<char>, p: Seq<Seq<char>>)
    requires
        words_state(x) == (p + words_state(y).0, words_state(y).1),
    ensures
        words(x) == p + words(y),
{
    let (dy, cy) = words_state(y);
    assert((p + dy).push(lowercase(cy)) =~= p + dy.push(lowercase(cy)));
}

proof fn lemma_one_run_state(s: Seq<char>)
    requires
        forall|i: int| 0 <= i < s.len() ==> alphanumeric(#[trigger] s[i]) && !uppercase(s[i]),
    ensures
        words_state(s) == (Seq::<Seq<char>>::empty(), s),
    decreases s.len(),
{
    if s.len() > 0 {
        let d = s.drop_last();
        assert forall|i: int| 0 <= i < d.len() implies alphanumeric(#[trigger] d[i]) && !uppercase(d[i]) by {
            assert(d[i] == s[i]);
        }
        lemma_one_run_state(d);
        assert(s[s.len() - 1] == s.last());
        assert(d.push(s.last()) =~= s);
    }
}

/// A run of alphanumeric characters with no upper-case one is a single
/// word: its lower-cased text.
pub proof fn lemma_one_run(s: Seq<char>)
    requires
        s.len() > 0,
        forall|i: int| 0 <= i < s.len() ==> alphanumeric(#[trigger] s[i]) && !uppercase(s[i]),
    ensures
        words(s) == seq![lowercase(s)],
{
    lemma_one_run_state(s);
    assert(Seq::<Seq<char>>::empty().push(lowercase(s)) =~= seq![lowercase(s)]);
}

/// Word splitting is local: a character that is not alphanumeric separates
/// the words before it from those after it, and so does a CamelCase step (an
/// alphanumeric lower-case character followed by an alphanumeric upper-case
/// one), so the words of the whole are the words of the parts.
pub proof fn lemma_words_split(a: Seq<char>, c: char, b: Seq<char>)
    ensures
        !alphanumeric(c) ==> words(a + seq![c] + b) == words(a) + words(b),
        a.len() > 0 && alphanumeric(a.last()) && lowercase_char(a.last()) && alphanumeric(c) && uppercase(c)
            ==> words(a + seq![c] + b) == words(a) + words(seq![c] + b),
{
    let e = Seq::<char>::empty();
    let ac = a + seq![c];
    assert(ac.drop_last() =~= a);
    assert(ac.last() == c);
    assert(words_state(e) == (Seq::<Seq<char>>::empty(), e));
    if !alphanumeric(c) {
        let (da, ca) = words_state(a);
        assert(words_state(ac) == (words(a), e));
        assert(words(a) + Seq::<Seq<char>>::empty() =~= words(a));
        lemma_words_shift(ac, e, b, words(a));
        assert(e + b =~= b);
        lemma_words_of_state(ac + b, b, words(a));
    }
    if a.len() > 0 && alphanumeric(a.last()) && lowercase_char(a.last()) && alphanumeric(c) && uppercase(c) {
        let a0 = a.drop_last();
        assert(a0.push(a.last()) =~= a);
        let (d0, c0) = words_state(a0);
        assert(words_state(a).1.len() > 0 && words_state(a).1.last() == a.last());
        let c1 = seq![c];
        assert(c1.drop_last() =~= e);
        assert(words_state(c1) == (Seq::<Seq<char>>::empty(), c1));
        assert(words_state(ac) == (words(a), c1));
        assert(words(a) + Seq::<Seq<char>>::empty() =~= words(a));
        lemma_words_shift(ac, c1, b, words(a));
        lemma_words_of_state(ac + b, c1 + b, words(a));
    }
}

/// Executable `camel_break`.
pub fn camel_boundary(cur: &Vec<char>, next: char) -> (r: bool)
    ensures
        r == camel_break(cur@, next),
{
    cur.len() > 0 && char_is_uppercase(next) && char_is_lowercase(cur[cur.len() - 1])
}

/// Split into lowercase alphanumeric runs, breaking on CamelCase boundaries.
pub fn words_of(field: &str) -> (r: Vec<String>)
    ensures
        views(r@) == words(field@),
{
    let chars = chars_of(field);
    let mut done: Vec<String> = Vec::new();
    let mut cur: Vec<char> = Vec::new();
    let mut i: usize = 0;
    while i < chars.len()
        invariant
            chars@ == field@,
            i <= chars.len(),
            (views(done@), cur@) == words_state(field@.take(i as int)),
        decreases chars.len() - i,
    {
        let ch = chars[i];
        proof {
            assert(field@.take(i + 1).drop_last() =~= field@.take(i as int));
            assert(field@.take(i + 1).last() == ch);
        }
        let ghost before = views(done@);
        if char_is_alphanumeric(ch) {
            if camel_boundary(&cur, ch) {
                let w = str_to_lowercase(string_of(&cur).as_str());
                done.push(w);
                cur = Vec::new();
                cur.push(ch);
                assert(views(done@) =~= before.push(lowercase(words_state(field@.take(i as int)).1)));
                assert(cur@ =~= seq![ch]);
            } else {
                cur.push(ch);
            }
        } else if cur.len() > 0 {
            let w = str_to_lowercase(string_of(&cur).as_str());
            done.push(w);
            cur = Vec::new();
            assert(views(done@) =~= before.push(lowercase(words_state(field@.take(i as int)).1)));
            assert(cur@ =~= Seq::<char>::empty());
        }
        i = i + 1;
    }
    assert(field@.take(chars.len() as int) =~= field@);
    if cur.len() > 0 {
        let ghost before = views(done@);
        let w = str_to_lowercase(string_of(&cur).as_str());
        done.push(w);
        assert(views(done@) =~= before.push(lowercase(cur@)));
    }
    done
}

} // verus!
