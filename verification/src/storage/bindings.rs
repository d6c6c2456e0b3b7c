//! Trigger bindings: a normalized trigger string that points at a meme.
use vstd::prelude::*;

use crate::storage::new_uuid;
use crate::text::{chars_of, copy_string, lowercase, str_to_lowercase, string_of, trim_chars, trimmed};

verus! {

/// One trigger → meme binding.
#[derive(Debug, Clone)]
pub struct Binding {
    pub id: String,
    pub trigger: String,
    pub meme_id: String,
}

/// A binding as mathematical values.
pub struct BindingView {
    pub id: Seq<char>,
    pub trigger: Seq<char>,
    pub meme_id: Seq<char>,
}

impl View for Binding {
    type V = BindingView;

    open spec fn view(&self) -> BindingView {
        BindingView { id: self.id@, trigger: self.trigger@, meme_id: self.meme_id@ }
    }
}

pub open spec fn binding_views(b: Seq<Binding>) -> Seq<BindingView> {
    b.map_values(|x: Binding| x@)
}

impl Binding {
    /// A field-for-field copy.
    pub fn duplicate(&self) -> (r: Binding)
        ensures
            r@ == self@,
    {
        Binding {
            id: copy_string(&self.id),
            trigger: copy_string(&self.trigger),
            meme_id: copy_string(&self.meme_id),
        }
    }
}

/// The canonical form of a trigger: trimmed, then lower-cased.
pub open spec fn normal_trigger(t: Seq<char>) -> Seq<char> {
    lowercase(trimmed(t))
}

/// Normalize a trigger: trim and lowercase (aliases and chord strings).
pub fn normalize_trigger(trigger: &str) -> (r: String)
    ensures
        r@ == normal_trigger(trigger@),
{
    let t = trim_chars(&chars_of(trigger));
    str_to_lowercase(string_of(&t).as_str())
}

/// The bindings that remain after dropping every one with trigger `t`.
pub open spec fn without_trigger(b: Seq<BindingView>, t: Seq<char>) -> Seq<BindingView>
    decreases b.len(),
{
    if b.len() == 0 {
        b
    } else {
        let r = without_trigger(b.drop_last(), t);
        if b.last().trigger == t {
            r
        } else {
            r.push(b.last())
        }
    }
}

proof fn lemma_without_trigger_len(b: Seq<BindingView>, t: Seq<char>)
    ensures
        without_trigger(b, t).len() <= b.len(),
        without_trigger(b, t).len() == b.len() <==> forall|i: int| 0 <= i < b.len() ==> b[i].trigger != t,
        forall|i: int| 0 <= i < without_trigger(b, t).len() ==> without_trigger(b, t)[i].trigger != t,
    decreases b.len(),
{
    if b.len() > 0 {
        lemma_without_trigger_len(b.drop_last(), t);
        assert forall|i: int| 0 <= i < b.len() - 1 implies b[i] == b.drop_last()[i] by {}
        if without_trigger(b, t).len() == b.len() {
            assert forall|i: int| 0 <= i < b.len() implies b[i].trigger != t by {
                if i < b.len() - 1 {
                    assert(b[i] == b.drop_last()[i]);
                }
            }
        }
    }
}

/// Drop every binding whose trigger equals the normalized `trigger`; true
/// when one was dropped.
pub fn remove_binding_by_trigger(bindings: &mut Vec<Binding>, trigger: &str) -> (r: bool)
    ensures
        binding_views(final(bindings)@) == without_trigger(
            binding_views(old(bindings)@),
            normal_trigger(trigger@),
        ),
        r == exists|i: int|
            0 <= i < old(bindings)@.len() && old(bindings)@[i]@.trigger == normal_trigger(trigger@),
{
    let normalized = normalize_trigger(trigger);
    let ghost bv = binding_views(bindings@);
    let ghost t = normalized@;
    let mut kept: Vec<Binding> = Vec::new();
    let mut i: usize = 0;
    assert(bv.take(0) =~= Seq::<BindingView>::empty());
    assert(binding_views(kept@) =~= Seq::<BindingView>::empty());
    while i < bindings.len()
        invariant
            i <= bindings.len(),
            bv == binding_views(bindings@),
            t == normalized@,
            binding_views(kept@) == without_trigger(bv.take(i as int), t),
        decreases bindings.len() - i,
    {
        proof {
            assert(bv.take(i + 1).drop_last() =~= bv.take(i as int));
            assert(bv.take(i + 1).last() == bindings@[i as int]@);
        }
        if bindings[i].trigger != normalized {
            let ghost prev = binding_views(kept@);
            kept.push(bindings[i].duplicate());
            assert(binding_views(kept@) =~= prev.push(bindings@[i as int]@));
        }
        i = i + 1;
    }
    assert(bv.take(bindings.len() as int) =~= bv);
    let before = bindings.len();
    proof {
        lemma_without_trigger_len(bv, t);
        assert(kept@.len() == binding_views(kept@).len());
        if exists|i: int| 0 <= i < bindings@.len() && bindings@[i]@.trigger == t {
            let i = choose|i: int| 0 <= i < bindings@.len() && bindings@[i]@.trigger == t;
            assert(bv[i].trigger == t);
            assert(kept@.len() != before);
        }
        if kept@.len() != before {
            let k = choose|k: int| 0 <= k < bv.len() && !(bv[k].trigger != t);
            assert(bindings@[k]@.trigger == t);
        }
    }
    let removed = kept.len() != before;
    *bindings = kept;
    removed
}

/// The first binding with trigger `t`.
pub open spec fn first_with_trigger(b: Seq<BindingView>, t: Seq<char>) -> Option<int> {
    if exists|i: int| 0 <= i < b.len() && b[i].trigger == t {
        Some(
            choose|i: int|
                0 <= i < b.len() && b[i].trigger == t && forall|k: int|
                    0 <= k < i ==> b[k].trigger != t,
        )
    } else {
        None
    }
}

/// The meme id that trigger `t` resolves to: that of the first binding with it.
pub open spec fn resolved(b: Seq<BindingView>, t: Seq<char>) -> Option<Seq<char>> {
    match first_with_trigger(b, t) {
        Some(i) => Some(b[i].meme_id),
        None => None,
    }
}

/// The bindings after pointing trigger `t` at meme `m`: the first binding
/// with `t` gets the meme, or a binding with id `fresh` is added.
pub open spec fn upserted(b: Seq<BindingView>, t: Seq<char>, m: Seq<char>, fresh: Seq<char>) -> Seq<BindingView> {
    match first_with_trigger(b, t) {
        Some(i) => b.update(i, BindingView { meme_id: m, ..b[i] }),
        None => b.push(BindingView { id: fresh, trigger: t, meme_id: m }),
    }
}

/// Point the normalized `trigger` at `meme_id`: update the first binding with
/// that trigger, or add a new binding with a fresh id. Returns the binding.
pub fn upsert_binding(bindings: &mut Vec<Binding>, trigger: &str, meme_id: &str) -> (r: Binding)
    ensures
        binding_views(final(bindings)@) == upserted(
            binding_views(old(bindings)@),
            normal_trigger(trigger@),
            meme_id@,
            r@.id,
        ),
        match first_with_trigger(binding_views(old(bindings)@), normal_trigger(trigger@)) {
            Some(i) => {
                &&& binding_views(final(bindings)@) == binding_views(old(bindings)@).update(
                    i,
                    BindingView { meme_id: meme_id@, ..old(bindings)@[i]@ },
                )
                &&& r@ == BindingView { meme_id: meme_id@, ..old(bindings)@[i]@ }
            },
            None => {
                &&& binding_views(final(bindings)@) == binding_views(old(bindings)@).push(r@)
                &&& r@.trigger == normal_trigger(trigger@)
                &&& r@.meme_id == meme_id@
                &&& r@.id.len() == 36
            },
        },
{
    let normalized = normalize_trigger(trigger);
    let ghost bv = binding_views(bindings@);
    let ghost t = normalized@;
    let mut i: usize = 0;
    while i < bindings.len()
        invariant
            i <= bindings.len(),
            bindings@ == old(bindings)@,
            bv == binding_views(bindings@),
            t == normalized@,
            normalized@ == normal_trigger(trigger@),
            forall|k: int| 0 <= k < i ==> bv[k].trigger != t,
        decreases bindings.len() - i,
    {
        if bindings[i].trigger == normalized {
            let ghost target = i as int;
            proof {
                assert(bv[target].trigger == t);
                let c = choose|c: int|
                    0 <= c < bv.len() && bv[c].trigger == t && forall|k: int|
                        0 <= k < c ==> bv[k].trigger != t;
                if c < target {
                } else if c > target {
                    assert(bv[target].trigger != t);
                }
                assert(first_with_trigger(bv, t) == Some(target));
            }
            let updated = Binding {
                id: copy_string(&bindings[i].id),
                trigger: copy_string(&bindings[i].trigger),
                meme_id: string_of(&chars_of(meme_id)),
            };
            let out = updated.duplicate();
            bindings.set(i, updated);
            assert(binding_views(bindings@) =~= bv.update(target, BindingView { meme_id: meme_id@, ..bv[target] }));
            return out;
        }
        i = i + 1;
    }
    proof {
        assert(!exists|k: int| 0 <= k < bv.len() && bv[k].trigger == t);
    }
    let binding = Binding { id: new_uuid(), trigger: normalized, meme_id: string_of(&chars_of(meme_id)) };
    let out = binding.duplicate();
    bindings.push(binding);
    assert(binding_views(bindings@) =~= bv.push(out@));
    out
}


/// The binding that `trigger` (normalized) resolves to: the first with it.
pub fn binding_for_trigger(bindings: &Vec<Binding>, trigger: &str) -> (r: Option<Binding>)
    ensures
        match first_with_trigger(binding_views(bindings@), normal_trigger(trigger@)) {
            Some(i) => r matches Some(b) && b@ == bindings@[i]@,
            None => r is None,
        },
{
    let normalized = normalize_trigger(trigger);
    let ghost bv = binding_views(bindings@);
    let ghost t = normalized@;
    let mut i: usize = 0;
    while i < bindings.len()
        invariant
            i <= bindings.len(),
            bv == binding_views(bindings@),
            t == normalized@,
            normalized@ == normal_trigger(trigger@),
            forall|k: int| 0 <= k < i ==> bv[k].trigger != t,
        decreases bindings.len() - i,
    {
        if bindings[i].trigger == normalized {
            proof {
                let target = i as int;
                assert(bv[target].trigger == t);
                let c = choose|c: int|
                    0 <= c < bv.len() && bv[c].trigger == t && forall|k: int|
                        0 <= k < c ==> bv[k].trigger != t;
                if c < target {
                } else if c > target {
                    assert(bv[target].trigger != t);
                }
            }
            return Some(bindings[i].duplicate());
        }
        i = i + 1;
    }
    None
}

/// No two bindings share a trigger.
pub open spec fn unique_triggers(b: Seq<BindingView>) -> bool {
    forall|i: int, k: int| 0 <= i < k < b.len() ==> b[i].trigger != b[k].trigger
}

proof fn lemma_first_at(b: Seq<BindingView>, t: Seq<char>, i: int)
    requires
        0 <= i < b.len(),
        b[i].trigger == t,
        forall|k: int| 0 <= k < i ==> b[k].trigger != t,
    ensures
        first_with_trigger(b, t) == Some(i),
{
    let c = choose|c: int|
        0 <= c < b.len() && b[c].trigger == t && forall|k: int| 0 <= k < c ==> b[k].trigger != t;
    if c < i {
    } else if c > i {
        assert(b[i].trigger != t);
    }
}

proof fn lemma_first_is_first(b: Seq<BindingView>, t: Seq<char>)
    ensures
        match first_with_trigger(b, t) {
            Some(i) => 0 <= i < b.len() && b[i].trigger == t && forall|k: int| 0 <= k < i ==> b[k].trigger != t,
            None => forall|k: int| 0 <= k < b.len() ==> b[k].trigger != t,
        },
{
    if exists|i: int| 0 <= i < b.len() && b[i].trigger == t {
        let i = choose|i: int| 0 <= i < b.len() && b[i].trigger == t;
        lemma_least_with_trigger(b, t, i);
    }
}

proof fn lemma_least_with_trigger(b: Seq<BindingView>, t: Seq<char>, i: int)
    requires
        0 <= i < b.len(),
        b[i].trigger == t,
    ensures
        exists|c: int| 0 <= c < b.len() && b[c].trigger == t && forall|k: int| 0 <= k < c ==> b[k].trigger != t,
    decreases i,
{
    if exists|k: int| 0 <= k < i && b[k].trigger == t {
        let k = choose|k: int| 0 <= k < i && b[k].trigger == t;
        lemma_least_with_trigger(b, t, k);
    } else {
        assert(forall|k: int| 0 <= k < i ==> b[k].trigger != t);
    }
}

/// What a binding write gives back on a read: after pointing `t` at `m`,
/// `t` resolves to `m`, and every other trigger resolves as before.
/// Triggers stay unique.
pub proof fn lemma_resolve_after_upsert(b: Seq<BindingView>, t: Seq<char>, m: Seq<char>, fresh: Seq<char>, other: Seq<char>)
    ensures
        resolved(upserted(b, t, m, fresh), t) == Some(m),
        other != t ==> resolved(upserted(b, t, m, fresh), other) == resolved(b, other),
        unique_triggers(b) ==> unique_triggers(upserted(b, t, m, fresh)),
{
    let u = upserted(b, t, m, fresh);
    lemma_first_is_first(b, t);
    lemma_first_is_first(b, other);
    lemma_first_is_first(u, t);
    lemma_first_is_first(u, other);
    assert(u.len() >= b.len());
    assert forall|k: int| 0 <= k < b.len() implies #[trigger] u[k].trigger == b[k].trigger by {}
    match first_with_trigger(b, t) {
        Some(i) => {
            assert(u[i].trigger == t);
        },
        None => {
            assert(u[b.len() as int].trigger == t);
        },
    }
    if other != t {
        match first_with_trigger(b, other) {
            Some(i) => {
                assert(u[i].trigger == other);
                assert(u[i].meme_id == b[i].meme_id);
            },
            None => {},
        }
    }
}

/// After removing `t`, it resolves to nothing and every other trigger
/// resolves as before. Triggers stay unique.
pub proof fn lemma_resolve_after_remove(b: Seq<BindingView>, t: Seq<char>, other: Seq<char>)
    ensures
        resolved(without_trigger(b, t), t) is None,
        other != t ==> resolved(without_trigger(b, t), other) == resolved(b, other),
        unique_triggers(b) ==> unique_triggers(without_trigger(b, t)),
    decreases b.len(),
{
    lemma_without_trigger_len(b, t);
    lemma_first_is_first(without_trigger(b, t), t);
    if b.len() > 0 {
        let d = b.drop_last();
        lemma_resolve_after_remove(d, t, other);
        let w = without_trigger(d, t);
        lemma_first_is_first(d, other);
        lemma_first_is_first(b, other);
        lemma_first_is_first(w, other);
        lemma_first_is_first(without_trigger(b, t), other);
        assert forall|k: int| 0 <= k < d.len() implies #[trigger] d[k] == b[k] by {}
        if b.last().trigger != t {
            assert forall|k: int| 0 <= k < w.len() implies #[trigger] w.push(b.last())[k] == w[k] by {}
        }
        if other != t {
            let wb = without_trigger(b, t);
            match first_with_trigger(d, other) {
                Some(i) => {
                    assert forall|k: int| 0 <= k < i implies b[k].trigger != other by {
                        assert(d[k] == b[k]);
                    }
                    lemma_first_at(b, other, i);
                    let j = first_with_trigger(w, other)->0;
                    assert(wb[j].trigger == other);
                    if let Some(j2) = first_with_trigger(wb, other) {
                        if j2 < j {
                            assert(wb[j2] == w[j2]);
                        } else if j2 > j {
                        }
                    }
                    assert(first_with_trigger(wb, other) == Some(j));
                },
                None => {
                    assert(first_with_trigger(w, other) is None);
                    if b.last().trigger == other {
                        assert forall|k: int| 0 <= k < b.len() - 1 implies b[k].trigger != other by {
                            assert(d[k] == b[k]);
                        }
                        lemma_first_at(b, other, b.len() - 1);
                        assert(wb == w.push(b.last()));
                        assert(wb[w.len() as int].trigger == other);
                        assert(first_with_trigger(wb, other) == Some(w.len() as int));
                    } else {
                        assert forall|k: int| 0 <= k < b.len() implies b[k].trigger != other by {
                            if k < b.len() - 1 {
                                assert(d[k] == b[k]);
                            }
                        }
                        assert(first_with_trigger(b, other) is None);
                        assert(first_with_trigger(wb, other) is None);
                    }
                },
            }
        }
        if unique_triggers(b) {
            assert(unique_triggers(d));
            lemma_without_trigger_sub(d, t);
            if b.last().trigger != t {
                assert forall|i: int, k: int| 0 <= i < k < w.len() + 1 implies w.push(b.last())[i].trigger != w.push(b.last())[k].trigger by {
                    if k == w.len() {
                        let x = choose|x: int| 0 <= x < d.len() && d[x] == w[i];
                        assert(d[x] == b[x]);
                    }
                }
            }
        }
    }
}

/// Each binding kept by `without_trigger` was in the input.
proof fn lemma_without_trigger_sub(b: Seq<BindingView>, t: Seq<char>)
    ensures
        forall|i: int| 0 <= i < without_trigger(b, t).len() ==> exists|x: int| 0 <= x < b.len() && b[x] == #[trigger] without_trigger(b, t)[i],
    decreases b.len(),
{
    if b.len() > 0 {
        let d = b.drop_last();
        lemma_without_trigger_sub(d, t);
        let w = without_trigger(d, t);
        assert forall|i: int| 0 <= i < without_trigger(b, t).len() implies exists|x: int| 0 <= x < b.len() && b[x] == #[trigger] without_trigger(b, t)[i] by {
            if i < w.len() {
                let x = choose|x: int| 0 <= x < d.len() && d[x] == w[i];
                assert(b[x] == d[x]);
                if b.last().trigger != t {
                    assert(w.push(b.last())[i] == w[i]);
                }
            } else {
                assert(without_trigger(b, t)[i] == b[b.len() - 1]);
            }
        }
    }
}


/// The bindings that remain after dropping every one that points at `id`.
pub open spec fn without_meme(b: Seq<BindingView>, id: Seq<char>) -> Seq<BindingView>
    decreases b.len(),
{
    if b.len() == 0 {
        b
    } else {
        let r = without_meme(b.drop_last(), id);
        if b.last().meme_id == id {
            r
        } else {
            r.push(b.last())
        }
    }
}

proof fn lemma_without_meme(b: Seq<BindingView>, id: Seq<char>)
    ensures
        without_meme(b, id).len() <= b.len(),
        without_meme(b, id).len() == b.len() <==> forall|i: int| 0 <= i < b.len() ==> b[i].meme_id != id,
        forall|i: int| 0 <= i < without_meme(b, id).len() ==> #[trigger] without_meme(b, id)[i].meme_id != id,
    decreases b.len(),
{
    if b.len() > 0 {
        lemma_without_meme(b.drop_last(), id);
        assert forall|i: int| 0 <= i < b.len() - 1 implies b[i] == b.drop_last()[i] by {}
        if without_meme(b, id).len() == b.len() {
            assert forall|i: int| 0 <= i < b.len() implies b[i].meme_id != id by {
                if i < b.len() - 1 {
                    assert(b[i] == b.drop_last()[i]);
                }
            }
        }
        let r = without_meme(b.drop_last(), id);
        if b.last().meme_id != id {
            assert forall|i: int| 0 <= i < r.len() + 1 implies #[trigger] r.push(b.last())[i].meme_id != id by {
                if i < r.len() {
                    assert(r.push(b.last())[i] == r[i]);
                }
            }
        }
    }
}

/// Dropping a meme's bindings keeps exactly the others: a binding remains
/// if and only if it was there and points at another meme.
pub proof fn lemma_drop_keeps_others(b: Seq<BindingView>, id: Seq<char>)
    ensures
        forall|x: BindingView| #[trigger] without_meme(b, id).contains(x) <==> (b.contains(x) && x.meme_id != id),
    decreases b.len(),
{
    broadcast use vstd::seq_lib::lemma_seq_contains_after_push;

    if b.len() > 0 {
        let d = b.drop_last();
        lemma_drop_keeps_others(d, id);
        assert(b =~= d.push(b.last()));
        assert forall|x: BindingView| #[trigger] without_meme(b, id).contains(x) <==> (b.contains(x)
            && x.meme_id != id) by {
            assert(b.contains(x) <==> (d.contains(x) || x == b.last()));
            let r = without_meme(d, id);
            if b.last().meme_id == id {
                assert(without_meme(b, id) == r);
            } else {
                assert(without_meme(b, id) == r.push(b.last()));
                assert(r.push(b.last()).contains(x) <==> (r.contains(x) || x == b.last()));
            }
        }
    }
}

/// Drop the bindings that point at a deleted meme; true when one was dropped.
/// None of the remaining bindings points at it.
pub fn drop_bindings_for(bindings: &mut Vec<Binding>, meme_id: &str) -> (r: bool)
    ensures
        binding_views(final(bindings)@) == without_meme(binding_views(old(bindings)@), meme_id@),
        forall|i: int| 0 <= i < final(bindings)@.len() ==> #[trigger] final(bindings)@[i]@.meme_id != meme_id@,
        r == exists|i: int| 0 <= i < old(bindings)@.len() && old(bindings)@[i]@.meme_id == meme_id@,
{
    let target = string_of(&chars_of(meme_id));
    let ghost bv = binding_views(bindings@);
    let ghost id = meme_id@;
    let mut kept: Vec<Binding> = Vec::new();
    let mut i: usize = 0;
    assert(bv.take(0) =~= Seq::<BindingView>::empty());
    assert(binding_views(kept@) =~= Seq::<BindingView>::empty());
    while i < bindings.len()
        invariant
            i <= bindings.len(),
            bv == binding_views(bindings@),
            target@ == id,
            id == meme_id@,
            binding_views(kept@) == without_meme(bv.take(i as int), id),
        decreases bindings.len() - i,
    {
        proof {
            assert(bv.take(i + 1).drop_last() =~= bv.take(i as int));
            assert(bv.take(i + 1).last() == bindings@[i as int]@);
        }
        if bindings[i].meme_id != target {
            let ghost prev = binding_views(kept@);
            kept.push(bindings[i].duplicate());
            assert(binding_views(kept@) =~= prev.push(bindings@[i as int]@));
        }
        i = i + 1;
    }
    assert(bv.take(bindings.len() as int) =~= bv);
    let before = bindings.len();
    proof {
        lemma_without_meme(bv, id);
        assert(kept@.len() == binding_views(kept@).len());
        assert forall|k: int| 0 <= k < kept@.len() implies #[trigger] kept@[k]@.meme_id != id by {
            assert(binding_views(kept@)[k] == kept@[k]@);
        }
        if exists|i: int| 0 <= i < bindings@.len() && bindings@[i]@.meme_id == id {
            let i = choose|i: int| 0 <= i < bindings@.len() && bindings@[i]@.meme_id == id;
            assert(bv[i].meme_id == id);
            assert(kept@.len() != before);
        }
        if kept@.len() != before {
            let k = choose|k: int| 0 <= k < bv.len() && !(bv[k].meme_id != id);
            assert(bindings@[k]@.meme_id == id);
        }
    }
    let removed = kept.len() != before;
    *bindings = kept;
    removed
}

} // verus!
