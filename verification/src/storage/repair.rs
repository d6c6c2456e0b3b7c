//! Which files a repair of the memes directory removes.
//!
//! Each meme is a pair: media `<id>.<ext>` next to its sidecar `<id>.json`.
//! A sidecar stays when it can be read and names a media file that is in
//! the directory and belongs to it (its stem names the sidecar). Any other
//! file stays when a sidecar that stays is named `<stem>.json`. So every
//! sidecar that stays has its media, every media file that stays has its
//! sidecar, and the listing order does not matter.
use vstd::prelude::*;

use crate::storage::meme::{find_last_dot, last_dot};
use crate::storage::RepairReport;
use crate::text::{chars_of, eq_chars, slice_chars, string_of, views};

verus! {

/// The name ends with `.json`.
pub open spec fn is_sidecar_name(name: Seq<char>) -> bool {
    name.len() >= 5 && name.subrange(name.len() - 5, name.len() as int) == ".json"@
}

/// The stem of a file name (as `Path::file_stem`): the text before its last
/// dot, unless there is none or it starts the name.
pub open spec fn file_stem(name: Seq<char>) -> Seq<char> {
    if name == ".."@ {
        name
    } else {
        match last_dot(name) {
            Some(i) => if i > 0 {
                name.take(i)
            } else {
                name
            },
            None => name,
        }
    }
}

/// The sidecar at position `i` stays: it can be read, and the media file it
/// names is listed, is not a sidecar, and has the sidecar's stem.
pub open spec fn sidecar_kept(names: Seq<Seq<char>>, sidecars: Seq<Option<Seq<char>>>, i: int) -> bool {
    is_sidecar_name(names[i]) && match sidecars[i] {
        Some(f) => names.contains(f) && !is_sidecar_name(f) && file_stem(f) + ".json"@ == names[i],
        None => false,
    }
}

/// A sidecar that stays is named `target`.
pub open spec fn kept_sidecar_named(
    names: Seq<Seq<char>>,
    sidecars: Seq<Option<Seq<char>>>,
    target: Seq<char>,
) -> bool {
    exists|k: int| 0 <= k < names.len() && names[k] == target && sidecar_kept(names, sidecars, k)
}

/// Whether repair removes entry `i`. `sidecars[i]` is the media file name a
/// sidecar names (`None` when it cannot be read).
pub open spec fn repair_removes(names: Seq<Seq<char>>, sidecars: Seq<Option<Seq<char>>>, i: int) -> bool {
    if is_sidecar_name(names[i]) {
        !sidecar_kept(names, sidecars, i)
    } else {
        !kept_sidecar_named(names, sidecars, file_stem(names[i]) + ".json"@)
    }
}

/// The removal flags of all entries.
pub open spec fn repair_flags(names: Seq<Seq<char>>, sidecars: Seq<Option<Seq<char>>>) -> Seq<bool> {
    Seq::new(names.len(), |i: int| repair_removes(names, sidecars, i))
}

/// How many of the first `n` flagged entries are sidecars (`json`) or not.
pub open spec fn removed_count(names: Seq<Seq<char>>, flags: Seq<bool>, json: bool, n: int) -> int
    decreases n,
{
    if n <= 0 {
        0
    } else {
        removed_count(names, flags, json, n - 1) + if flags[n - 1] && is_sidecar_name(names[n - 1])
            == json {
            1int
        } else {
            0int
        }
    }
}

pub open spec fn opt_names(v: Seq<Option<String>>) -> Seq<Option<Seq<char>>> {
    v.map_values(
        |o: Option<String>|
            match o {
                Some(s) => Some(s@),
                None => None,
            },
    )
}

/// The files to remove (a flag per listed name) and the counts reported.
pub struct RepairPlan {
    pub remove: Vec<bool>,
    pub report: RepairReport,
}

fn sidecar_name(name: &Vec<char>) -> (r: bool)
    ensures
        r == is_sidecar_name(name@),
{
    if name.len() < 5 {
        return false;
    }
    let tail = slice_chars(name, name.len() - 5, name.len());
    let json = vec!['.', 'j', 's', 'o', 'n'];
    assert(json@ =~= ".json"@) by {
        reveal_strlit(".json");
    }
    eq_chars(&tail, &json)
}

fn sidecar_of(name: &Vec<char>) -> (r: Vec<char>)
    ensures
        r@ == file_stem(name@) + ".json"@,
{
    let dots = vec!['.', '.'];
    assert(dots@ =~= ".."@) by {
        reveal_strlit("..");
    }
    let mut stem = if eq_chars(name, &dots) {
        slice_chars(name, 0, name.len())
    } else {
        match find_last_dot(name) {
            Some(i) => if i > 0 {
                slice_chars(name, 0, i)
            } else {
                slice_chars(name, 0, name.len())
            },
            None => slice_chars(name, 0, name.len()),
        }
    };
    assert(name@.subrange(0, name@.len() as int) =~= name@);
    let ghost base = stem@;
    stem.push('.');
    stem.push('j');
    stem.push('s');
    stem.push('o');
    stem.push('n');
    assert(stem@ =~= base + ".json"@) by {
        reveal_strlit(".json");
    }
    stem
}

fn listed(names: &Vec<String>, target: &Vec<char>) -> (r: bool)
    ensures
        r == views(names@).contains(target@),
{
    let ghost ns = views(names@);
    let mut k: usize = 0;
    while k < names.len()
        invariant
            k <= names.len(),
            ns == views(names@),
            forall|j: int| 0 <= j < k ==> #[trigger] ns[j] != target@,
        decreases names.len() - k,
    {
        assert(ns[k as int] == names@[k as int]@);
        if eq_chars(&chars_of(names[k].as_str()), target) {
            return true;
        }
        k = k + 1;
    }
    false
}

fn kept_named(names: &Vec<String>, kept: &Vec<bool>, target: &Vec<char>, Ghost(sc): Ghost<Seq<Option<Seq<char>>>>) -> (r: bool)
    requires
        kept@.len() == names@.len(),
        sc.len() == names@.len(),
        forall|k: int| 0 <= k < kept@.len() ==> kept@[k] == sidecar_kept(views(names@), sc, k),
    ensures
        r == kept_sidecar_named(views(names@), sc, target@),
{
    let ghost ns = views(names@);
    let mut k: usize = 0;
    while k < names.len()
        invariant
            k <= names.len(),
            ns == views(names@),
            kept@.len() == names@.len(),
            forall|k: int| 0 <= k < kept@.len() ==> kept@[k] == sidecar_kept(ns, sc, k),
            forall|j: int| 0 <= j < k ==> !(#[trigger] ns[j] == target@ && sidecar_kept(ns, sc, j)),
        decreases names.len() - k,
    {
        assert(ns[k as int] == names@[k as int]@);
        if kept[k] && eq_chars(&chars_of(names[k].as_str()), target) {
            return true;
        }
        k = k + 1;
    }
    false
}

/// Decide which files a repair removes: sidecars first, then media.
pub fn plan_repair(names: &Vec<String>, sidecars: &Vec<Option<String>>) -> (r: RepairPlan)
    requires
        sidecars@.len() == names@.len(),
    ensures
        r.remove@ == repair_flags(views(names@), opt_names(sidecars@)),
        r.report.removed_json == removed_count(views(names@), r.remove@, true, names@.len() as int),
        r.report.removed_media == removed_count(views(names@), r.remove@, false, names@.len() as int),
{
    let ghost ns = views(names@);
    let ghost sc = opt_names(sidecars@);
    let mut kept: Vec<bool> = Vec::new();
    let mut i: usize = 0;
    while i < names.len()
        invariant
            i <= names.len(),
            sidecars@.len() == names@.len(),
            ns == views(names@),
            sc == opt_names(sidecars@),
            kept@.len() == i,
            forall|k: int| 0 <= k < i ==> kept@[k] == sidecar_kept(ns, sc, k),
        decreases names.len() - i,
    {
        let name = chars_of(names[i].as_str());
        assert(ns[i as int] == name@);
        assert(sc[i as int] == match sidecars@[i as int] {
            Some(s) => Some(s@),
            None => None,
        });
        let keep = sidecar_name(&name) && match &sidecars[i] {
            Some(f) => {
                let fc = chars_of(f.as_str());
                listed(names, &fc) && !sidecar_name(&fc) && eq_chars(&sidecar_of(&fc), &name)
            },
            None => false,
        };
        kept.push(keep);
        i = i + 1;
    }
    let ghost want = repair_flags(ns, sc);
    let mut remove: Vec<bool> = Vec::new();
    let mut removed_json: u64 = 0;
    let mut removed_media: u64 = 0;
    let mut i: usize = 0;
    while i < names.len()
        invariant
            i <= names.len(),
            sidecars@.len() == names@.len(),
            ns == views(names@),
            sc == opt_names(sidecars@),
            want == repair_flags(ns, sc),
            kept@.len() == names@.len(),
            forall|k: int| 0 <= k < kept@.len() ==> kept@[k] == sidecar_kept(ns, sc, k),
            remove@ == want.take(i as int),
            removed_json == removed_count(ns, remove@, true, i as int),
            removed_media == removed_count(ns, remove@, false, i as int),
            removed_json + removed_media <= i,
        decreases names.len() - i,
    {
        let name = chars_of(names[i].as_str());
        assert(ns[i as int] == name@);
        let json = sidecar_name(&name);
        let gone = if json {
            !kept[i]
        } else {
            !kept_named(names, &kept, &sidecar_of(&name), Ghost(sc))
        };
        assert(gone == want[i as int]);
        let ghost before = remove@;
        remove.push(gone);
        proof {
            assert(remove@ =~= want.take(i + 1));
            assert forall|k: int| 0 <= k < i implies #[trigger] remove@[k] == before[k] by {}
            lemma_removed_count_prefix(ns, before, remove@, true, i as int);
            lemma_removed_count_prefix(ns, before, remove@, false, i as int);
        }
        if gone {
            if json {
                removed_json = removed_json + 1;
            } else {
                removed_media = removed_media + 1;
            }
        }
        i = i + 1;
    }
    assert(remove@ =~= want);
    RepairPlan { remove, report: RepairReport { removed_json, removed_media } }
}

/// What a repair leaves is consistent: every media file that stays has a
/// sidecar `<stem>.json` that stays, and every sidecar that stays can be
/// read and names a media file that stays.
pub proof fn lemma_repair_leaves_pairs(names: Seq<Seq<char>>, sidecars: Seq<Option<Seq<char>>>)
    requires
        sidecars.len() == names.len(),
    ensures
        forall|i: int|
            0 <= i < names.len() && !#[trigger] repair_flags(names, sidecars)[i] && !is_sidecar_name(names[i])
                ==> exists|k: int|
                0 <= k < names.len() && names[k] == file_stem(names[i]) + ".json"@ && !repair_flags(
                    names,
                    sidecars,
                )[k],
        forall|k: int|
            0 <= k < names.len() && !#[trigger] repair_flags(names, sidecars)[k] && is_sidecar_name(names[k])
                ==> (sidecars[k] matches Some(f) && exists|m: int|
                0 <= m < names.len() && names[m] == f && !repair_flags(names, sidecars)[m]),
{
    let fl = repair_flags(names, sidecars);
    assert forall|i: int|
        0 <= i < names.len() && !#[trigger] fl[i] && !is_sidecar_name(names[i]) implies exists|k: int|
            0 <= k < names.len() && names[k] == file_stem(names[i]) + ".json"@ && !fl[k] by {
        let k = choose|k: int|
            0 <= k < names.len() && names[k] == file_stem(names[i]) + ".json"@ && sidecar_kept(names, sidecars, k);
        assert(!fl[k]);
    }
    assert forall|k: int| 0 <= k < names.len() && !#[trigger] fl[k] && is_sidecar_name(names[k]) implies (
    sidecars[k] matches Some(f) && exists|m: int| 0 <= m < names.len() && names[m] == f && !fl[m]) by {
        assert(sidecar_kept(names, sidecars, k));
        let f = sidecars[k]->0;
        let m = choose|m: int| 0 <= m < names.len() && names[m] == f;
        assert(kept_sidecar_named(names, sidecars, file_stem(names[m]) + ".json"@));
        assert(!fl[m]);
    }
}

/// Counts over the first `n` entries only read the first `n` flags.
proof fn lemma_removed_count_prefix(names: Seq<Seq<char>>, a: Seq<bool>, b: Seq<bool>, json: bool, n: int)
    requires
        0 <= n <= a.len(),
        n <= b.len(),
        forall|k: int| 0 <= k < n ==> #[trigger] a[k] == b[k],
    ensures
        removed_count(names, a, json, n) == removed_count(names, b, json, n),
    decreases n,
{
    if n > 0 {
        lemma_removed_count_prefix(names, a, b, json, n - 1);
    }
}

} // verus!
