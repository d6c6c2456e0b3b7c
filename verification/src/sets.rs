//! Small string sets held in vectors without repeats.
use vstd::prelude::*;

use crate::text::{copy_string, views};

verus! {

/// `s` is one of the strings in `v`.
pub fn vec_has(v: &Vec<String>, s: &String) -> (r: bool)
    ensures
        r == views(v@).contains(s@),
{
    let mut i: usize = 0;
    while i < v.len()
        invariant
            i <= v.len(),
            forall|j: int| 0 <= j < i ==> views(v@)[j] != s@,
        decreases v.len() - i,
    {
        if v[i] == *s {
            assert(views(v@)[i as int] == s@);
            return true;
        }
        i = i + 1;
    }
    false
}

/// Add `s` unless it is already there.
pub fn insert_unique(v: &mut Vec<String>, s: &String)
    ensures
        forall|x: Seq<char>|
            #![trigger views(final(v)@).contains(x)]
            #![trigger views(old(v)@).contains(x)]
            views(final(v)@).contains(x) <==> (views(old(v)@).contains(x) || x == s@),
        views(old(v)@).no_duplicates() ==> views(final(v)@).no_duplicates(),
        views(old(v)@).contains(s@) ==> final(v)@ == old(v)@,
{
    if !vec_has(v, s) {
        let ghost before = views(v@);
        v.push(copy_string(s));
        assert(views(v@) =~= before.push(s@));
        assert forall|x: Seq<char>| views(v@).contains(x) <==> (before.contains(x) || x == s@) by {
            if before.contains(x) {
                let k = choose|k: int| 0 <= k < before.len() && before[k] == x;
                assert(views(v@)[k] == x);
            }
            if x == s@ {
                assert(views(v@)[before.len() as int] == x);
            }
        }
    }
}

/// The strings of `v` other than `s`, in order.
/// `v` without the occurrences of `s`, the rest in order.
pub open spec fn dropped(v: Seq<Seq<char>>, s: Seq<char>) -> Seq<Seq<char>>
    decreases v.len(),
{
    if v.len() == 0 {
        v
    } else {
        let r = dropped(v.drop_last(), s);
        if v.last() == s {
            r
        } else {
            r.push(v.last())
        }
    }
}

/// Dropping a string that does not occur changes nothing.
pub proof fn lemma_dropped_absent(v: Seq<Seq<char>>, s: Seq<char>)
    requires
        !v.contains(s),
    ensures
        dropped(v, s) == v,
    decreases v.len(),
{
    if v.len() > 0 {
        assert(!v.drop_last().contains(s)) by {
            if v.drop_last().contains(s) {
                let k = choose|k: int| 0 <= k < v.drop_last().len() && v.drop_last()[k] == s;
                assert(v[k] == s);
            }
        }
        lemma_dropped_absent(v.drop_last(), s);
        assert(v[v.len() - 1] == v.last());
        assert(v.drop_last().push(v.last()) =~= v);
    }
}

/// What `dropped` keeps: every other string of `v`, and no repeats if `v`
/// had none.
pub proof fn lemma_dropped_facts(v: Seq<Seq<char>>, s: Seq<char>)
    ensures
        forall|x: Seq<char>| #[trigger] dropped(v, s).contains(x) <==> (v.contains(x) && x != s),
        v.no_duplicates() ==> dropped(v, s).no_duplicates(),
    decreases v.len(),
{
    if v.len() > 0 {
        let init = v.drop_last();
        let l = v.last();
        let r = dropped(init, s);
        lemma_dropped_facts(init, s);
        assert(v =~= init.push(l));
        assert forall|x: Seq<char>| v.contains(x) <==> (init.contains(x) || x == l) by {
            if v.contains(x) {
                let k = choose|k: int| 0 <= k < v.len() && v[k] == x;
                if k < init.len() {
                    assert(init[k] == x);
                }
            }
            if init.contains(x) {
                let k = choose|k: int| 0 <= k < init.len() && init[k] == x;
                assert(v[k] == x);
            }
            if x == l {
                assert(v[v.len() - 1] == x);
            }
        }
        if l != s {
            let t = r.push(l);
            assert forall|x: Seq<char>| t.contains(x) <==> (r.contains(x) || x == l) by {
                if t.contains(x) {
                    let k = choose|k: int| 0 <= k < t.len() && t[k] == x;
                    if k < r.len() {
                        assert(r[k] == x);
                    }
                }
                if r.contains(x) {
                    let k = choose|k: int| 0 <= k < r.len() && r[k] == x;
                    assert(t[k] == x);
                }
                if x == l {
                    assert(t[t.len() - 1] == x);
                }
            }
            if v.no_duplicates() {
                assert(init.no_duplicates()) by {
                    assert forall|i: int, j: int| 0 <= i < j < init.len() implies init[i] != init[j] by {
                        assert(v[i] == init[i] && v[j] == init[j]);
                    }
                }
                assert(!init.contains(l)) by {
                    if init.contains(l) {
                        let k = choose|k: int| 0 <= k < init.len() && init[k] == l;
                        assert(v[k] == v[v.len() - 1]);
                    }
                }
                assert forall|i: int, j: int| 0 <= i < j < t.len() implies t[i] != t[j] by {
                    if j == t.len() - 1 {
                        assert(r.contains(t[i]));
                    } else {
                        assert(t[i] == r[i] && t[j] == r[j]);
                    }
                }
            }
        } else {
            if v.no_duplicates() {
                assert(init.no_duplicates()) by {
                    assert forall|i: int, j: int| 0 <= i < j < init.len() implies init[i] != init[j] by {
                        assert(v[i] == init[i] && v[j] == init[j]);
                    }
                }
            }
        }
    }
}

/// `p` occurs in `v` before `q` does.
pub open spec fn occurs_before(v: Seq<Seq<char>>, p: Seq<char>, q: Seq<char>) -> bool {
    exists|a: int, b: int| 0 <= a < b < v.len() && v[a] == p && v[b] == q
}

/// `dropped` keeps the relative order of what it keeps.
pub proof fn lemma_dropped_order(v: Seq<Seq<char>>, s: Seq<char>)
    ensures
        forall|x: int, y: int|
            0 <= x < y < dropped(v, s).len() ==> occurs_before(
                v,
                #[trigger] dropped(v, s)[x],
                #[trigger] dropped(v, s)[y],
            ),
    decreases v.len(),
{
    if v.len() > 0 {
        let init = v.drop_last();
        let r = dropped(init, s);
        lemma_dropped_order(init, s);
        lemma_dropped_facts(init, s);
        let t = dropped(v, s);
        if v.last() == s {
            assert(t == r);
        } else {
            assert(t == r.push(v.last()));
        }
        assert forall|x: int, y: int| 0 <= x < y < t.len() implies occurs_before(v, #[trigger] t[x], #[trigger] t[y]) by {
            if y < r.len() {
                assert(t[x] == r[x] && t[y] == r[y]);
                assert(occurs_before(init, r[x], r[y]));
                let (a, b) = choose|a: int, b: int| 0 <= a < b < init.len() && init[a] == r[x] && init[b] == r[y];
                assert(v[a] == init[a] && v[b] == init[b]);
            } else {
                assert(t[x] == r[x]);
                assert(r.contains(r[x]));
                let a = choose|a: int| 0 <= a < init.len() && init[a] == r[x];
                assert(v[a] == init[a]);
                assert(v[v.len() - 1] == t[y]);
            }
        }
    }
}

/// Dropping two strings in either order gives the same.
pub proof fn lemma_dropped_commute(v: Seq<Seq<char>>, a: Seq<char>, b: Seq<char>)
    ensures
        dropped(dropped(v, a), b) == dropped(dropped(v, b), a),
    decreases v.len(),
{
    if v.len() > 0 {
        lemma_dropped_commute(v.drop_last(), a, b);
        let r = dropped(v.drop_last(), a);
        let t = dropped(v.drop_last(), b);
        let l = v.last();
        if l != a {
            assert(r.push(l).drop_last() =~= r);
        }
        if l != b {
            assert(t.push(l).drop_last() =~= t);
        }
    }
}

pub fn without(v: &Vec<String>, s: &String) -> (r: Vec<String>)
    ensures
        views(r@) == dropped(views(v@), s@),
        forall|x: Seq<char>|
            #![trigger views(r@).contains(x)]
            #![trigger views(v@).contains(x)]
            views(r@).contains(x) <==> (views(v@).contains(x) && x != s@),
        views(v@).no_duplicates() ==> views(r@).no_duplicates(),
{
    let mut out: Vec<String> = Vec::new();
    let mut i: usize = 0;
    while i < v.len()
        invariant
            i <= v.len(),
            forall|x: Seq<char>|
                views(out@).contains(x) <==> (views(v@).take(i as int).contains(x) && x != s@),
            views(v@).no_duplicates() ==> views(out@).no_duplicates(),
            views(out@) == dropped(views(v@).take(i as int), s@),
        decreases v.len() - i,
    {
        let ghost before = views(out@);
        let ghost vt = views(v@).take(i as int);
        let ghost nxt = views(v@).take(i + 1);
        assert(nxt =~= vt.push(views(v@)[i as int]));
        assert(nxt.drop_last() =~= vt);
        if v[i] != *s {
            out.push(copy_string(&v[i]));
            assert(views(out@) =~= before.push(views(v@)[i as int]));
            proof {
                if views(v@).no_duplicates() {
                    assert forall|a: int, b: int|
                        0 <= a < views(out@).len() && 0 <= b < views(out@).len() && a != b
                            implies views(out@)[a] != views(out@)[b] by {
                        if a == before.len() as int || b == before.len() as int {
                            let o = if a == before.len() as int { b } else { a };
                            let val = views(out@)[o];
                            assert(before.contains(val));
                            assert(vt.contains(val));
                            let k = choose|k: int| 0 <= k < vt.len() && vt[k] == val;
                            assert(views(v@)[k] == val);
                            assert(k != i);
                        }
                    }
                }
            }
            assert forall|x: Seq<char>|
                views(out@).contains(x) <==> (views(v@).take(i + 1).contains(x) && x != s@) by {
                if views(out@).contains(x) {
                    let k = choose|k: int| 0 <= k < views(out@).len() && views(out@)[k] == x;
                    if k < before.len() {
                        assert(before.contains(x));
                        let j = choose|j: int| 0 <= j < vt.len() && vt[j] == x;
                        assert(nxt[j] == x);
                    } else {
                        assert(nxt[i as int] == x);
                    }
                }
                if views(v@).take(i + 1).contains(x) && x != s@ {
                    let j = choose|j: int| 0 <= j < nxt.len() && nxt[j] == x;
                    if j < i {
                        assert(vt[j] == x);
                        assert(before.contains(x));
                        let k = choose|k: int| 0 <= k < before.len() && before[k] == x;
                        assert(views(out@)[k] == x);
                    } else {
                        assert(views(out@)[before.len() as int] == x);
                    }
                }
            }
        } else {
            assert forall|x: Seq<char>|
                views(out@).contains(x) <==> (views(v@).take(i + 1).contains(x) && x != s@) by {
                if views(out@).contains(x) {
                    let j = choose|j: int| 0 <= j < vt.len() && vt[j] == x;
                    assert(nxt[j] == x);
                }
                if views(v@).take(i + 1).contains(x) && x != s@ {
                    let j = choose|j: int| 0 <= j < nxt.len() && nxt[j] == x;
                    assert(j < i);
                    assert(vt[j] == x);
                }
            }
        }
        i = i + 1;
    }
    assert(views(v@).take(v.len() as int) =~= views(v@));
    out
}

/// Add every string of `from` that `into` lacks.
pub fn union_into(into: &mut Vec<String>, from: &Vec<String>)
    ensures
        forall|x: Seq<char>|
            #![trigger views(final(into)@).contains(x)]
            #![trigger views(old(into)@).contains(x)]
            #![trigger views(from@).contains(x)]
            views(final(into)@).contains(x) <==> (views(old(into)@).contains(x) || views(
                from@,
            ).contains(x)),
        views(old(into)@).no_duplicates() ==> views(final(into)@).no_duplicates(),
{
    let mut i: usize = 0;
    let ghost start = views(into@);
    while i < from.len()
        invariant
            i <= from.len(),
            forall|x: Seq<char>|
                #![trigger views(into@).contains(x)]
                views(into@).contains(x) <==> (start.contains(x) || views(from@).take(
                    i as int,
                ).contains(x)),
            start.no_duplicates() ==> views(into@).no_duplicates(),
        decreases from.len() - i,
    {
        let ghost ft = views(from@).take(i as int);
        let ghost nxt = views(from@).take(i + 1);
        assert(nxt =~= ft.push(views(from@)[i as int]));
        let ghost mid = views(into@);
        assert(forall|x: Seq<char>| mid.contains(x) <==> (start.contains(x) || ft.contains(x)));
        insert_unique(into, &from[i]);
        assert(forall|x: Seq<char>| views(into@).contains(x) <==> (mid.contains(x) || x == from@[i as int]@));
        assert forall|x: Seq<char>|
            views(into@).contains(x) <==> (start.contains(x) || nxt.contains(x)) by {
            assert(nxt[i as int] == from@[i as int]@);
            if x == from@[i as int]@ {
                assert(nxt[i as int] == x);
            }
            if ft.contains(x) {
                let j = choose|j: int| 0 <= j < ft.len() && ft[j] == x;
                assert(nxt[j] == x);
            }
            if nxt.contains(x) {
                let j = choose|j: int| 0 <= j < nxt.len() && nxt[j] == x;
                if j < i {
                    assert(ft[j] == x);
                }
            }
        }
        i = i + 1;
    }
    assert(views(from@).take(from.len() as int) =~= views(from@));
}

/// The strings of `a` that are also in `b`, in order.
pub fn intersect(a: &Vec<String>, b: &Vec<String>) -> (r: Vec<String>)
    ensures
        forall|x: Seq<char>|
            #![trigger views(r@).contains(x)]
            #![trigger views(a@).contains(x)]
            views(r@).contains(x) <==> (views(a@).contains(x) && views(b@).contains(x)),
        views(a@).no_duplicates() ==> views(r@).no_duplicates(),
{
    let mut out: Vec<String> = Vec::new();
    let mut i: usize = 0;
    while i < a.len()
        invariant
            i <= a.len(),
            forall|x: Seq<char>|
                views(out@).contains(x) <==> (views(a@).take(i as int).contains(x) && views(
                    b@,
                ).contains(x)),
            views(a@).no_duplicates() ==> views(out@).no_duplicates(),
        decreases a.len() - i,
    {
        let ghost before = views(out@);
        let ghost at = views(a@).take(i as int);
        let ghost nxt = views(a@).take(i + 1);
        assert(nxt =~= at.push(views(a@)[i as int]));
        if vec_has(b, &a[i]) {
            out.push(copy_string(&a[i]));
            assert(views(out@) =~= before.push(views(a@)[i as int]));
            proof {
                if views(a@).no_duplicates() {
                    assert forall|p: int, q: int|
                        0 <= p < views(out@).len() && 0 <= q < views(out@).len() && p != q
                            implies views(out@)[p] != views(out@)[q] by {
                        if p == before.len() as int || q == before.len() as int {
                            let o = if p == before.len() as int { q } else { p };
                            let val = views(out@)[o];
                            assert(before.contains(val));
                            let k = choose|k: int| 0 <= k < at.len() && at[k] == val;
                            assert(views(a@)[k] == val);
                        }
                    }
                }
            }
            assert forall|x: Seq<char>|
                views(out@).contains(x) <==> (views(a@).take(i + 1).contains(x) && views(
                    b@,
                ).contains(x)) by {
                if views(out@).contains(x) {
                    let k = choose|k: int| 0 <= k < views(out@).len() && views(out@)[k] == x;
                    if k < before.len() {
                        assert(before.contains(x));
                        let j = choose|j: int| 0 <= j < at.len() && at[j] == x;
                        assert(nxt[j] == x);
                    } else {
                        assert(nxt[i as int] == x);
                    }
                }
                if views(a@).take(i + 1).contains(x) && views(b@).contains(x) {
                    let j = choose|j: int| 0 <= j < nxt.len() && nxt[j] == x;
                    if j < i {
                        assert(at[j] == x);
                        let k = choose|k: int| 0 <= k < before.len() && before[k] == x;
                        assert(views(out@)[k] == x);
                    } else {
                        assert(views(out@)[before.len() as int] == x);
                    }
                }
            }
        } else {
            assert forall|x: Seq<char>|
                views(out@).contains(x) <==> (views(a@).take(i + 1).contains(x) && views(
                    b@,
                ).contains(x)) by {
                if views(out@).contains(x) {
                    let j = choose|j: int| 0 <= j < at.len() && at[j] == x;
                    assert(nxt[j] == x);
                }
                if views(a@).take(i + 1).contains(x) && views(b@).contains(x) {
                    let j = choose|j: int| 0 <= j < nxt.len() && nxt[j] == x;
                    assert(j < i);
                    assert(at[j] == x);
                }
            }
        }
        i = i + 1;
    }
    assert(views(a@).take(a.len() as int) =~= views(a@));
    out
}

} // verus!
