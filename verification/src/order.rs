//! Stable ordering by lexicographic integer keys.
//!
//! Every sort in the library first encodes its comparison as a sequence of
//! integers (text as its character codes plus a terminator, descending fields
//! negated), then orders positions by those keys, ties kept in input order.
use vstd::prelude::*;

verus! {

/// Strict lexicographic order on integer sequences (a proper prefix comes first).
pub open spec fn lex_lt(a: Seq<i128>, b: Seq<i128>) -> bool
    decreases a.len(),
{
    if a.len() == 0 {
        b.len() > 0
    } else if b.len() == 0 {
        false
    } else if a[0] < b[0] {
        true
    } else if a[0] > b[0] {
        false
    } else {
        lex_lt(a.drop_first(), b.drop_first())
    }
}

pub proof fn lemma_lex_irreflexive(a: Seq<i128>)
    ensures
        !lex_lt(a, a),
    decreases a.len(),
{
    if a.len() > 0 {
        lemma_lex_irreflexive(a.drop_first());
    }
}

pub proof fn lemma_lex_asymmetric(a: Seq<i128>, b: Seq<i128>)
    ensures
        !(lex_lt(a, b) && lex_lt(b, a)),
    decreases a.len(),
{
    if a.len() > 0 && b.len() > 0 && a[0] == b[0] {
        lemma_lex_asymmetric(a.drop_first(), b.drop_first());
    }
}

pub proof fn lemma_lex_transitive(a: Seq<i128>, b: Seq<i128>, c: Seq<i128>)
    requires
        lex_lt(a, b),
        lex_lt(b, c),
    ensures
        lex_lt(a, c),
    decreases a.len(),
{
    if a.len() > 0 && b.len() > 0 && c.len() > 0 && a[0] == b[0] && b[0] == c[0] {
        lemma_lex_transitive(a.drop_first(), b.drop_first(), c.drop_first());
    }
}

pub proof fn lemma_lex_total(a: Seq<i128>, b: Seq<i128>)
    ensures
        a == b || lex_lt(a, b) || lex_lt(b, a),
    decreases a.len(),
{
    if a.len() > 0 && b.len() > 0 && a[0] == b[0] {
        lemma_lex_total(a.drop_first(), b.drop_first());
        if a.drop_first() == b.drop_first() {
            assert(a =~= seq![a[0]].add(a.drop_first()));
            assert(b =~= seq![b[0]].add(b.drop_first()));
        }
    } else if a.len() == 0 && b.len() == 0 {
        assert(a =~= b);
    }
}

/// Position `i` (key `ka`) comes before position `j` (key `kb`): smaller
/// key, or equal keys and earlier position.
pub open spec fn goes_before(ka: Seq<i128>, i: int, kb: Seq<i128>, j: int) -> bool {
    lex_lt(ka, kb) || (ka == kb && i < j)
}

/// `p` lists each of `0..n` once.
pub open spec fn is_permutation(p: Seq<usize>, n: int) -> bool {
    &&& p.len() == n
    &&& forall|x: int| 0 <= x < p.len() ==> p[x] < n
    &&& p.no_duplicates()
}

/// `p` orders the positions by their keys, ties by position.
pub open spec fn sorted_by_keys(p: Seq<usize>, keys: Seq<Seq<i128>>) -> bool {
    forall|x: int, y: int|
        0 <= x < y < p.len() ==> goes_before(
            #[trigger] keys[p[x] as int],
            p[x] as int,
            #[trigger] keys[p[y] as int],
            p[y] as int,
        )
}

/// The key views of a vector of keys.
pub open spec fn key_views(keys: Seq<Vec<i128>>) -> Seq<Seq<i128>> {
    keys.map_values(|k: Vec<i128>| k@)
}

/// Executable `lex_lt`.
pub fn key_less(a: &Vec<i128>, b: &Vec<i128>) -> (r: bool)
    ensures
        r == lex_lt(a@, b@),
{
    let mut i: usize = 0;
    assert(a@.skip(0) =~= a@);
    assert(b@.skip(0) =~= b@);
    while i < a.len() && i < b.len() && a[i] == b[i]
        invariant
            i <= a.len(),
            i <= b.len(),
            lex_lt(a@, b@) == lex_lt(a@.skip(i as int), b@.skip(i as int)),
        decreases a.len() - i,
    {
        proof {
            let sa = a@.skip(i as int);
            let sb = b@.skip(i as int);
            assert(sa.drop_first() =~= a@.skip(i + 1));
            assert(sb.drop_first() =~= b@.skip(i + 1));
            assert(sa[0] == sb[0]);
        }
        i = i + 1;
    }
    proof {
        let sa = a@.skip(i as int);
        let sb = b@.skip(i as int);
        if i < a.len() && i < b.len() {
            assert(sa[0] == a@[i as int]);
            assert(sb[0] == b@[i as int]);
        }
    }
    if i == a.len() {
        i < b.len()
    } else if i == b.len() {
        false
    } else {
        a[i] < b[i]
    }
}

/// Positions `0..keys.len()` ordered by key, equal keys in input order.
pub fn sort_order(keys: &Vec<Vec<i128>>) -> (p: Vec<usize>)
    ensures
        is_permutation(p@, keys@.len() as int),
        sorted_by_keys(p@, key_views(keys@)),
{
    let ghost kv = key_views(keys@);
    let mut p: Vec<usize> = Vec::new();
    let mut i: usize = 0;
    while i < keys.len()
        invariant
            i <= keys.len(),
            kv == key_views(keys@),
            is_permutation(p@, i as int),
            sorted_by_keys(p@, kv),
        decreases keys.len() - i,
    {
        // Insert `i` after every position whose key is not greater.
        let mut pos: usize = 0;
        while pos < p.len() && !key_less(&keys[i], &keys[p[pos]])
            invariant
                i < keys.len(),
                kv == key_views(keys@),
                is_permutation(p@, i as int),
                pos <= p.len(),
                forall|x: int| 0 <= x < pos ==> !lex_lt(kv[i as int], #[trigger] kv[p@[x] as int]),
            decreases p.len() - pos,
        {
            assert(kv[p@[pos as int] as int] == keys@[p@[pos as int] as int]@);
            assert(kv[i as int] == keys@[i as int]@);
            pos = pos + 1;
        }
        proof {
            if pos < p.len() {
                assert(kv[p@[pos as int] as int] == keys@[p@[pos as int] as int]@);
                assert(kv[i as int] == keys@[i as int]@);
                assert(lex_lt(kv[i as int], kv[p@[pos as int] as int]));
            }
        }
        let ghost old_p = p@;
        p.insert(pos, i);
        proof {
            assert(p@ =~= old_p.subrange(0, pos as int).push(i).add(old_p.subrange(pos as int, old_p.len() as int)));
            assert forall|x: int| 0 <= x < p@.len() implies p@[x] < i + 1 by {
                if x < pos {
                    assert(p@[x] == old_p[x]);
                } else if x > pos {
                    assert(p@[x] == old_p[x - 1]);
                }
            }
            assert forall|a: int, b: int| 0 <= a < p@.len() && 0 <= b < p@.len() && a != b implies p@[a] != p@[b] by {
                if a != pos && b != pos {
                    let oa = if a < pos { a } else { a - 1 };
                    let ob = if b < pos { b } else { b - 1 };
                    assert(p@[a] == old_p[oa]);
                    assert(p@[b] == old_p[ob]);
                } else if a == pos {
                    let ob = if b < pos { b } else { b - 1 };
                    assert(p@[b] == old_p[ob]);
                } else {
                    let oa = if a < pos { a } else { a - 1 };
                    assert(p@[a] == old_p[oa]);
                }
            }
            assert forall|x: int, y: int| 0 <= x < y < p@.len() implies goes_before(
                #[trigger] kv[p@[x] as int],
                p@[x] as int,
                #[trigger] kv[p@[y] as int],
                p@[y] as int,
            ) by {
                let ki = kv[i as int];
                if x != pos && y != pos {
                    let ox = if x < pos { x } else { x - 1 };
                    let oy = if y < pos { y } else { y - 1 };
                    assert(p@[x] == old_p[ox]);
                    assert(p@[y] == old_p[oy]);
                    assert(ox < oy);
                } else if x == pos {
                    // y > pos: old position y - 1 >= pos, whose key exceeds or equals ki's successor chain.
                    let oy = y - 1;
                    assert(p@[y] == old_p[oy]);
                    assert(oy >= pos);
                    let kpos = kv[old_p[pos as int] as int];
                    assert(lex_lt(ki, kpos));
                    if oy > pos {
                        assert(goes_before(kpos, old_p[pos as int] as int, kv[old_p[oy] as int], old_p[oy] as int));
                        if lex_lt(kpos, kv[old_p[oy] as int]) {
                            lemma_lex_transitive(ki, kpos, kv[old_p[oy] as int]);
                        }
                    }
                } else {
                    // y == pos, x < pos: key of old x is not greater than ki, and its position is smaller.
                    assert(p@[x] == old_p[x]);
                    let kx = kv[old_p[x] as int];
                    assert(!lex_lt(ki, kx));
                    lemma_lex_total(kx, ki);
                    assert(old_p[x] < i);
                }
            }
        }
        i = i + 1;
    }
    p
}

/// Key parts for text: one code per character, then a terminator, so that
/// comparing parts compares the texts lexicographically.
pub open spec fn text_key(s: Seq<char>) -> Seq<i128> {
    s.map_values(|c: char| ((c as u32) + 1) as i128).push(0)
}

/// Key parts for text in descending order.
pub open spec fn text_key_desc(s: Seq<char>) -> Seq<i128> {
    s.map_values(|c: char| (-((c as u32) + 1)) as i128).push(0)
}

/// Append the ascending key of a text.
pub fn push_text_key(key: &mut Vec<i128>, s: &Vec<char>, descending: bool)
    ensures
        final(key)@ == old(key)@ + (if descending { text_key_desc(s@) } else { text_key(s@) }),
{
    let ghost start = key@;
    let ghost want = if descending { text_key_desc(s@) } else { text_key(s@) };
    let mut i: usize = 0;
    while i < s.len()
        invariant
            i <= s.len(),
            want == (if descending { text_key_desc(s@) } else { text_key(s@) }),
            key@ == start + want.take(i as int),
        decreases s.len() - i,
    {
        let code = (s[i] as u32) as i128 + 1;
        if descending {
            key.push(-code);
        } else {
            key.push(code);
        }
        assert(key@ =~= start + want.take(i + 1));
        i = i + 1;
    }
    key.push(0);
    assert(key@ =~= start + want);
}

/// Append a number part.
pub fn push_num_key(key: &mut Vec<i128>, n: u64, descending: bool)
    ensures
        final(key)@ == old(key)@.push(if descending { (-(n as int)) as i128 } else { n as i128 }),
{
    if descending {
        key.push(-(n as i128));
    } else {
        key.push(n as i128);
    }
}


/// Lexicographic order of texts, by character code.
pub open spec fn text_lt(a: Seq<char>, b: Seq<char>) -> bool {
    lex_lt(text_key(a), text_key(b))
}

/// A common prefix does not change how two keys compare.
pub proof fn lemma_lex_common_prefix(s: Seq<i128>, x: Seq<i128>, y: Seq<i128>)
    ensures
        lex_lt(s + x, s + y) == lex_lt(x, y),
    decreases s.len(),
{
    if s.len() > 0 {
        lemma_lex_common_prefix(s.drop_first(), x, y);
        assert((s + x).drop_first() =~= s.drop_first() + x);
        assert((s + y).drop_first() =~= s.drop_first() + y);
    } else {
        assert(s + x =~= x);
        assert(s + y =~= y);
    }
}

/// Keys that start with a text part compare by the texts first, then by
/// what follows when the texts are equal.
pub proof fn lemma_text_then(a: Seq<char>, b: Seq<char>, x: Seq<i128>, y: Seq<i128>)
    requires
        lex_lt(text_key(a) + x, text_key(b) + y) || text_key(a) + x == text_key(b) + y,
    ensures
        !text_lt(b, a),
        a == b ==> (lex_lt(x, y) || x == y),
{
    if a != b {
        lemma_text_keys(a, b, x, y);
        lemma_text_keys(b, a, y, x);
        lemma_lex_irreflexive(text_key(a) + x);
        lemma_lex_asymmetric(text_key(a), text_key(b));
    } else {
        lemma_lex_irreflexive(text_key(a));
        lemma_lex_common_prefix(text_key(a), x, y);
        if text_key(a) + x == text_key(b) + y {
            assert(x =~= (text_key(a) + x).skip(text_key(a).len() as int));
            assert(y =~= (text_key(b) + y).skip(text_key(b).len() as int));
        }
    }
}

/// Keys that start with a descending text part compare by the texts, later
/// first, then by what follows when the texts are equal.
pub proof fn lemma_desc_then(a: Seq<char>, b: Seq<char>, x: Seq<i128>, y: Seq<i128>)
    requires
        lex_lt(text_key_desc(a) + x, text_key_desc(b) + y) || text_key_desc(a) + x == text_key_desc(b)
            + y,
    ensures
        !text_lt(a, b),
        a == b ==> (lex_lt(x, y) || x == y),
{
    if a != b {
        lemma_text_keys(a, b, x, y);
        lemma_text_keys(b, a, y, x);
        lemma_lex_irreflexive(text_key_desc(a) + x);
        lemma_lex_asymmetric(text_key(a), text_key(b));
    } else {
        lemma_lex_irreflexive(text_key(a));
        lemma_lex_common_prefix(text_key_desc(a), x, y);
        if text_key_desc(a) + x == text_key_desc(b) + y {
            assert(x =~= (text_key_desc(a) + x).skip(text_key_desc(a).len() as int));
            assert(y =~= (text_key_desc(b) + y).skip(text_key_desc(b).len() as int));
        }
    }
}

/// Keys that start with a number compare by the numbers first, then by what
/// follows when the numbers are equal.
pub proof fn lemma_num_then(p: i128, q: i128, x: Seq<i128>, y: Seq<i128>)
    requires
        lex_lt(seq![p] + x, seq![q] + y) || seq![p] + x == seq![q] + y,
    ensures
        p <= q,
        p == q ==> (lex_lt(x, y) || x == y),
{
    let kp = seq![p] + x;
    let kq = seq![q] + y;
    assert(kp[0] == p);
    assert(kq[0] == q);
    assert(kp.drop_first() =~= x);
    assert(kq.drop_first() =~= y);
}

/// Text keys are prefix-free: two different texts are ordered by their keys
/// whatever follows them, one way or the other, and the descending keys
/// order them the other way round.
pub proof fn lemma_text_keys(a: Seq<char>, b: Seq<char>, x: Seq<i128>, y: Seq<i128>)
    requires
        a != b,
    ensures
        lex_lt(text_key(a) + x, text_key(b) + y) == lex_lt(text_key(a), text_key(b)),
        lex_lt(text_key_desc(a) + x, text_key_desc(b) + y) == lex_lt(text_key(b), text_key(a)),
        lex_lt(text_key(a), text_key(b)) || lex_lt(text_key(b), text_key(a)),
    decreases a.len(),
{
    let ka = text_key(a);
    let kb = text_key(b);
    let da = text_key_desc(a);
    let db = text_key_desc(b);
    assert((ka + x)[0] == ka[0]);
    assert((kb + y)[0] == kb[0]);
    assert((da + x)[0] == da[0]);
    assert((db + y)[0] == db[0]);
    if a.len() == 0 || b.len() == 0 || a[0] != b[0] {
        if a.len() > 0 && b.len() > 0 {
            vstd::utf8::char_u32_cast(a[0], a[0] as u32);
            vstd::utf8::char_u32_cast(b[0], b[0] as u32);
            assert((a[0] as u32) != (b[0] as u32));
        }
        if a.len() == 0 && b.len() == 0 {
            assert(a =~= b);
        }
    } else {
        let a1 = a.drop_first();
        let b1 = b.drop_first();
        if a1 == b1 {
            assert(a =~= seq![a[0]] + a1);
            assert(b =~= seq![b[0]] + b1);
        }
        lemma_text_keys(a1, b1, x, y);
        assert((ka + x).drop_first() =~= text_key(a1) + x);
        assert((kb + y).drop_first() =~= text_key(b1) + y);
        assert((da + x).drop_first() =~= text_key_desc(a1) + x);
        assert((db + y).drop_first() =~= text_key_desc(b1) + y);
        assert(ka.drop_first() =~= text_key(a1));
        assert(kb.drop_first() =~= text_key(b1));
    }
}

} // verus!
