//! Meme records as stored in sidecar metadata.
use vstd::prelude::*;

use crate::text::{
    chars_of, copy_string, copy_strings, lowercase, slice_chars, str_to_lowercase, string_is_empty,
    string_of, views,
};
use crate::types::{copy_opt_string, opt_view, ItemView, Searchable};

verus! {

/// One meme of the library.
#[derive(Debug, Clone)]
pub struct Meme {
    pub id: String,
    pub name: String,
    pub filename: String,
    pub extension: String,
    pub tags: Vec<String>,
    /// Short names (and binding triggers) that search treats like names.
    pub aliases: Vec<String>,
    pub size_bytes: u64,
    pub content_hash: String,
    pub favorite: bool,
    pub use_count: u64,
    pub last_used_at: Option<String>,
    pub created_at: String,
    pub updated_at: String,
}

/// A meme as mathematical values.
pub struct MemeView {
    pub id: Seq<char>,
    pub name: Seq<char>,
    pub filename: Seq<char>,
    pub extension: Seq<char>,
    pub tags: Seq<Seq<char>>,
    pub aliases: Seq<Seq<char>>,
    pub size_bytes: u64,
    pub content_hash: Seq<char>,
    pub favorite: bool,
    pub use_count: u64,
    pub last_used_at: Option<Seq<char>>,
    pub created_at: Seq<char>,
    pub updated_at: Seq<char>,
}

impl View for Meme {
    type V = MemeView;

    open spec fn view(&self) -> MemeView {
        MemeView {
            id: self.id@,
            name: self.name@,
            filename: self.filename@,
            extension: self.extension@,
            tags: views(self.tags@),
            aliases: views(self.aliases@),
            size_bytes: self.size_bytes,
            content_hash: self.content_hash@,
            favorite: self.favorite,
            use_count: self.use_count,
            last_used_at: opt_view(self.last_used_at),
            created_at: self.created_at@,
            updated_at: self.updated_at@,
        }
    }
}

pub open spec fn meme_views(m: Seq<Meme>) -> Seq<MemeView> {
    m.map_values(|x: Meme| x@)
}

/// What search reads of a meme.
pub open spec fn searchable_view(m: MemeView) -> ItemView {
    ItemView {
        id: m.id,
        name: m.name,
        tags: m.tags,
        aliases: m.aliases,
        extension: m.extension,
        favorite: m.favorite,
        use_count: m.use_count,
        last_used_at: m.last_used_at,
    }
}

/// Position of the last `.` in `s`.
pub open spec fn last_dot(s: Seq<char>) -> Option<int>
    decreases s.len(),
{
    if s.len() == 0 {
        None
    } else if s.last() == '.' {
        Some(s.len() - 1)
    } else {
        last_dot(s.drop_last())
    }
}

/// Extension taken from a file name: the text after the last dot, lower-cased
/// (empty when there is no dot).
pub open spec fn extension_of(filename: Seq<char>) -> Seq<char> {
    match last_dot(filename) {
        Some(i) => lowercase(filename.skip(i + 1)),
        None => Seq::empty(),
    }
}

/// A meme with the fields that older sidecars may omit filled in.
pub open spec fn normalized(m: MemeView) -> MemeView {
    MemeView {
        extension: if m.extension.len() == 0 {
            extension_of(m.filename)
        } else {
            m.extension
        },
        updated_at: if m.updated_at.len() == 0 {
            m.created_at
        } else {
            m.updated_at
        },
        ..m
    }
}

/// `last_dot` finds the last `.`: none when there is no dot, else a dot with
/// no dot after it.
pub proof fn lemma_last_dot(s: Seq<char>)
    ensures
        match last_dot(s) {
            Some(i) => 0 <= i < s.len() && s[i] == '.' && forall|k: int| i < k < s.len() ==> s[k] != '.',
            None => forall|k: int| 0 <= k < s.len() ==> s[k] != '.',
        },
    decreases s.len(),
{
    if s.len() > 0 && s.last() != '.' {
        lemma_last_dot(s.drop_last());
        assert forall|k: int| 0 <= k < s.len() - 1 implies s[k] == s.drop_last()[k] by {}
    }
}

pub(crate) fn find_last_dot(s: &Vec<char>) -> (r: Option<usize>)
    ensures
        match r {
            Some(i) => last_dot(s@) == Some(i as int) && i < s@.len(),
            None => last_dot(s@).is_none(),
        },
{
    let mut k: usize = s.len();
    proof {
        lemma_last_dot(s@);
        assert(s@.take(k as int) =~= s@);
    }
    while k > 0
        invariant
            k <= s.len(),
            last_dot(s@) == last_dot(s@.take(k as int)),
        decreases k,
    {
        proof {
            assert(s@.take(k as int).drop_last() =~= s@.take(k - 1));
            assert(s@.take(k as int).last() == s@[k - 1]);
        }
        if s[k - 1] == '.' {
            return Some(k - 1);
        }
        k = k - 1;
    }
    assert(s@.take(0) =~= Seq::<char>::empty());
    None
}

impl Meme {
    /// Fill fields that older sidecars may omit.
    pub fn normalize(self) -> (r: Self)
        ensures
            r@ == normalized(self@),
    {
        let mut m = self;
        if string_is_empty(&m.extension) {
            let f = chars_of(m.filename.as_str());
            assert(m.filename@.take(m.filename@.len() as int) =~= m.filename@);
            m.extension = match find_last_dot(&f) {
                Some(i) => {
                    let rest = slice_chars(&f, i + 1, f.len());
                    assert(rest@ =~= m.filename@.skip(i + 1));
                    str_to_lowercase(string_of(&rest).as_str())
                },
                None => String::new(),
            };
        }
        if string_is_empty(&m.updated_at) {
            m.updated_at = copy_string(&m.created_at);
        }
        m
    }

    /// What search reads of this meme.
    pub fn searchable(&self) -> (r: Searchable)
        ensures
            r@ == searchable_view(self@),
    {
        Searchable {
            id: copy_string(&self.id),
            name: copy_string(&self.name),
            tags: copy_strings(&self.tags),
            aliases: copy_strings(&self.aliases),
            extension: copy_string(&self.extension),
            favorite: self.favorite,
            use_count: self.use_count,
            last_used_at: copy_opt_string(&self.last_used_at),
        }
    }

    /// A field-for-field copy.
    pub fn duplicate(&self) -> (r: Meme)
        ensures
            r@ == self@,
    {
        Meme {
            id: copy_string(&self.id),
            name: copy_string(&self.name),
            filename: copy_string(&self.filename),
            extension: copy_string(&self.extension),
            tags: copy_strings(&self.tags),
            aliases: copy_strings(&self.aliases),
            size_bytes: self.size_bytes,
            content_hash: copy_string(&self.content_hash),
            favorite: self.favorite,
            use_count: self.use_count,
            last_used_at: copy_opt_string(&self.last_used_at),
            created_at: copy_string(&self.created_at),
            updated_at: copy_string(&self.updated_at),
        }
    }
}


/// Filling in omitted fields twice is the same as once.
/// Normalizing fills the two fields older records may lack and keeps the
/// rest: an empty extension becomes the lower-cased text after the file
/// name's last dot (empty when it has none), an empty update time becomes
/// the creation time; every other field stays as it was.
pub proof fn lemma_normalize_fills(m: MemeView)
    ensures
        m.extension.len() > 0 ==> normalized(m).extension == m.extension,
        m.extension.len() == 0 ==> normalized(m).extension == match last_dot(m.filename) {
            Some(i) => lowercase(m.filename.skip(i + 1)),
            None => Seq::<char>::empty(),
        },
        m.updated_at.len() > 0 ==> normalized(m).updated_at == m.updated_at,
        m.updated_at.len() == 0 ==> normalized(m).updated_at == m.created_at,
        normalized(m) == (MemeView {
            extension: normalized(m).extension,
            updated_at: normalized(m).updated_at,
            ..m
        }),
{
}

pub proof fn lemma_normalize_idempotent(m: MemeView)
    ensures
        normalized(normalized(m)) == normalized(m),
{
}

} // verus!
