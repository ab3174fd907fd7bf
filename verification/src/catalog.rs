//! The sound catalog: the asset index filtered down to sound entries,
//! name listing, and resolution of a sound name to the hash-addressed
//! object path that backs it.
use vstd::prelude::*;

use crate::text::{
    contains_seq, has_prefix, has_suffix, lex_lt, lemma_lex_lt_transitive, lemma_lex_lt_trichotomy,
    str_contains, str_ends_with, str_eq, str_lt, str_starts_with, substring,
};

verus! {

/// One entry of a parsed asset index document: a virtual asset path, the
/// content hash naming the object that holds it, and the declared byte
/// size (recorded by the index, unused during resolution).
pub struct IndexEntry {
    pub key: String,
    pub hash: String,
    pub size: u64,
}

/// Why a sound name failed to resolve to a playable file.
#[derive(Debug, PartialEq, Eq)]
pub enum ResolveError {
    /// The name has no entry in the catalog.
    SoundNotFound { name: String },
    /// The index lists the sound, but the content object file backing it
    /// is absent from the store.
    ObjectMissing { path: String },
}

/// The virtual-path namespace that holds sound assets.
pub open spec fn sounds_prefix() -> Seq<char> {
    "minecraft/sounds/"@
}

/// The filename extension sound assets carry.
pub open spec fn ogg_suffix() -> Seq<char> {
    ".ogg"@
}

/// A virtual asset path denoting a sound: inside the sounds namespace and
/// carrying the Ogg extension.
pub open spec fn is_sound_key(k: Seq<char>) -> bool {
    &&& k.len() >= sounds_prefix().len() + ogg_suffix().len()
    &&& has_prefix(k, sounds_prefix())
    &&& has_suffix(k, ogg_suffix())
}

/// The bare sound name of a sound key: the key with the namespace prefix
/// and the extension stripped.
pub open spec fn sound_name_of(k: Seq<char>) -> Seq<char> {
    k.subrange(sounds_prefix().len() as int, k.len() - ogg_suffix().len())
}

/// The virtual asset key a sound name stands for.
pub open spec fn sound_key_of(n: Seq<char>) -> Seq<char> {
    sounds_prefix() + n + ogg_suffix()
}

/// Stripping is a left inverse of joining: a name rebuilt into its virtual
/// key and stripped again is unchanged.
pub proof fn lemma_sound_name_round_trip(n: Seq<char>)
    ensures
        is_sound_key(sound_key_of(n)),
        sound_name_of(sound_key_of(n)) == n,
{
    let k = sound_key_of(n);
    assert(k.take(sounds_prefix().len() as int) =~= sounds_prefix());
    assert(k.skip(k.len() - ogg_suffix().len()) =~= ogg_suffix());
    assert(sound_name_of(k) =~= n);
}

/// A sound key is exactly the join of its own name.
pub proof fn lemma_sound_key_decomposition(k: Seq<char>)
    requires
        is_sound_key(k),
    ensures
        sound_key_of(sound_name_of(k)) == k,
{
    assert(k.take(sounds_prefix().len() as int) == sounds_prefix());
    assert(k.skip(k.len() - ogg_suffix().len()) == ogg_suffix());
    assert forall|i: int| 0 <= i < k.len() implies sound_key_of(sound_name_of(k))[i] == k[i] by {
        let p = sounds_prefix().len() as int;
        let q = k.len() - ogg_suffix().len();
        if i < p {
            assert(k.take(p)[i] == k[i]);
        } else if i < q {
            assert(sound_name_of(k)[i - p] == k[i]);
        } else {
            assert(k.skip(q)[i - q] == k[i]);
        }
    }
    assert(sound_key_of(sound_name_of(k)) =~= k);
}

/// Distinct sound keys strip to distinct names.
pub proof fn lemma_sound_name_injective(k1: Seq<char>, k2: Seq<char>)
    requires
        is_sound_key(k1),
        is_sound_key(k2),
        sound_name_of(k1) == sound_name_of(k2),
    ensures
        k1 == k2,
{
    lemma_sound_key_decomposition(k1);
    lemma_sound_key_decomposition(k2);
}

/// Whether a virtual asset path denotes a sound.
pub fn is_sound_key_str(k: &str) -> (r: bool)
    ensures
        r == is_sound_key(k@),
{
    proof {
        reveal_strlit("minecraft/sounds/");
        reveal_strlit(".ogg");
    }
    k.unicode_len() >= 21 && str_starts_with(k, "minecraft/sounds/") && str_ends_with(k, ".ogg")
}

/// A catalog row: a bare sound name and the content hash of its object.
pub struct SoundEntry {
    pub name: String,
    pub hash: String,
}

/// The rows carry strictly ascending names.
pub open spec fn sorted_rows(s: Seq<SoundEntry>) -> bool {
    forall|i: int, j: int|
        0 <= i < j < s.len() ==> lex_lt((#[trigger] s[i]).name@, (#[trigger] s[j]).name@)
}

/// The pair (name, hash) stands among the rows.
pub open spec fn pair_in(s: Seq<SoundEntry>, n: Seq<char>, h: Seq<char>) -> bool {
    exists|i: int| 0 <= i < s.len() && (#[trigger] s[i]).name@ == n && s[i].hash@ == h
}

/// An index document lists the pair (name, hash): some key of the document
/// is a sound key stripping to that name, recorded with that hash.
pub open spec fn sound_pair_listed(index: Seq<IndexEntry>, n: Seq<char>, h: Seq<char>) -> bool {
    exists|i: int|
        0 <= i < index.len() && is_sound_key((#[trigger] index[i]).key@) && sound_name_of(
            index[i].key@,
        ) == n && index[i].hash@ == h
}

/// The content object path a hash addresses under an installation root:
/// `<root>/assets/objects/<first two hash characters>/<hash>`.
pub open spec fn spec_object_path(dir: Seq<char>, h: Seq<char>) -> Seq<char> {
    dir + "/assets/objects/"@ + h.take(2) + "/"@ + h
}

/// Shape of a derived object path, for any installation root: after the
/// fixed objects area comes a parent directory named by the first two hash
/// characters, then a separator and the full hash as the file name.
pub proof fn lemma_object_path_shape(dir: Seq<char>, h: Seq<char>)
    requires
        h.len() >= 2,
    ensures
        spec_object_path(dir, h).len() == dir.len() + 19 + h.len(),
        spec_object_path(dir, h).skip(dir.len() as int + 19) == h,
        spec_object_path(dir, h)[dir.len() as int + 18] == '/',
        spec_object_path(dir, h).subrange(dir.len() as int + 16, dir.len() as int + 18) == h.take(
            2,
        ),
        spec_object_path(dir, h)[dir.len() as int + 15] == '/',
{
    reveal_strlit("/assets/objects/");
    reveal_strlit("/");
    let p = spec_object_path(dir, h);
    assert(p.skip(dir.len() as int + 19) =~= h);
    assert(p.subrange(dir.len() as int + 16, dir.len() as int + 18) =~= h.take(2));
}

/// The loaded sound catalog: the installation directory it came from and
/// the rows of the filtered asset index, sorted by name.
pub struct MinecraftAssets {
    minecraft_dir: String,
    sounds: Vec<SoundEntry>,
}

impl MinecraftAssets {
    /// The installation directory the catalog was loaded from.
    pub closed spec fn dir(self) -> Seq<char> {
        self.minecraft_dir@
    }

    /// The catalog rows in stored order.
    pub closed spec fn rows(self) -> Seq<SoundEntry> {
        self.sounds@
    }

    /// The catalog maps `n` to hash `h`.
    pub open spec fn has_sound(self, n: Seq<char>, h: Seq<char>) -> bool {
        pair_in(self.rows(), n, h)
    }

    /// The catalog holds a sound named `n`.
    pub open spec fn has_name(self, n: Seq<char>) -> bool {
        exists|i: int| 0 <= i < self.rows().len() && (#[trigger] self.rows()[i]).name@ == n
    }

    /// Well-formed: names strictly ascending (hence unique), every hash
    /// long enough to carry the two-character fan-out prefix.
    pub open spec fn wf(self) -> bool {
        &&& sorted_rows(self.rows())
        &&& forall|i: int|
            0 <= i < self.rows().len() ==> (#[trigger] self.rows()[i]).hash@.len() >= 2
    }
}

/// Extending the examined part of an index by one entry extends the listed
/// pairs by that entry's pair exactly when it is a sound key.
proof fn lemma_listed_extend(index: Seq<IndexEntry>, k: int, n: Seq<char>, h: Seq<char>)
    requires
        0 <= k < index.len(),
    ensures
        sound_pair_listed(index.take(k + 1), n, h) <==> (sound_pair_listed(index.take(k), n, h)
            || (is_sound_key(index[k].key@) && sound_name_of(index[k].key@) == n
            && index[k].hash@ == h)),
{
    let s1 = index.take(k + 1);
    let s0 = index.take(k);
    if sound_pair_listed(s1, n, h) {
        let i = choose|i: int|
            0 <= i < s1.len() && is_sound_key((#[trigger] s1[i]).key@) && sound_name_of(
                s1[i].key@,
            ) == n && s1[i].hash@ == h;
        if i < k {
            assert(s0[i] == s1[i]);
            assert(sound_pair_listed(s0, n, h));
        } else {
            assert(s1[k] == index[k]);
        }
    }
    if sound_pair_listed(s0, n, h) {
        let i = choose|i: int|
            0 <= i < s0.len() && is_sound_key((#[trigger] s0[i]).key@) && sound_name_of(
                s0[i].key@,
            ) == n && s0[i].hash@ == h;
        assert(s1[i] == s0[i]);
        assert(sound_pair_listed(s1, n, h));
    }
    if is_sound_key(index[k].key@) && sound_name_of(index[k].key@) == n && index[k].hash@ == h {
        assert((#[trigger] s1[k]).key@ == index[k].key@);
        assert(sound_pair_listed(s1, n, h));
    }
}

/// Insert a row into a sorted run of rows, keeping them sorted; the rows
/// afterwards hold exactly the pairs held before plus the new one.
fn insert_sorted(sounds: &mut Vec<SoundEntry>, entry: SoundEntry)
    requires
        sorted_rows(old(sounds)@),
        forall|i: int|
            0 <= i < old(sounds)@.len() ==> (#[trigger] old(sounds)@[i]).name@ != entry.name@,
        forall|i: int| 0 <= i < old(sounds)@.len() ==> (#[trigger] old(sounds)@[i]).hash@.len()
            >= 2,
        entry.hash@.len() >= 2,
    ensures
        sorted_rows(final(sounds)@),
        forall|i: int| 0 <= i < final(sounds)@.len() ==> (#[trigger] final(sounds)@[i]).hash@.len()
            >= 2,
        forall|n: Seq<char>, h: Seq<char>|
            pair_in(final(sounds)@, n, h) <==> (pair_in(old(sounds)@, n, h) || (n == entry.name@
                && h == entry.hash@)),
{
    let ghost s0 = sounds@;
    let mut pos: usize = 0;
    while pos < sounds.len() && str_lt(sounds[pos].name.as_str(), entry.name.as_str())
        invariant
            pos <= sounds@.len(),
            sounds@ == s0,
            forall|i: int| 0 <= i < pos ==> lex_lt((#[trigger] sounds@[i]).name@, entry.name@),
        decreases sounds@.len() - pos,
    {
        pos = pos + 1;
    }
    proof {
        assert forall|i: int| pos <= i < s0.len() implies lex_lt(
            entry.name@,
            (#[trigger] s0[i]).name@,
        ) by {
            lemma_lex_lt_trichotomy(entry.name@, s0[pos as int].name@);
            if i > pos {
                lemma_lex_lt_transitive(entry.name@, s0[pos as int].name@, s0[i].name@);
            }
        }
        s0.insert_ensures(pos as int, entry);
    }
    sounds.insert(pos, entry);
    proof {
        let s1 = sounds@;
        assert forall|i: int, j: int| 0 <= i < j < s1.len() implies lex_lt(
            (#[trigger] s1[i]).name@,
            (#[trigger] s1[j]).name@,
        ) by {
            let pi = pos as int;
            if j < pi {
            } else if i < pi && j == pi {
            } else if i < pi && j > pi {
                assert(s1[j] == s0[j - 1]);
            } else if i == pi {
                assert(s1[j] == s0[j - 1]);
            } else {
                assert(s1[i] == s0[i - 1]);
                assert(s1[j] == s0[j - 1]);
            }
        }
        assert forall|n: Seq<char>, h: Seq<char>| pair_in(s1, n, h) implies (pair_in(s0, n, h) || (
        n == entry.name@ && h == entry.hash@)) by {
            let i = choose|i: int|
                0 <= i < s1.len() && (#[trigger] s1[i]).name@ == n && s1[i].hash@ == h;
            let pi = pos as int;
            if i < pi {
                assert(s0[i] == s1[i]);
            } else if i > pi {
                assert(s1[i] == s0[i - 1]);
            }
        }
        assert forall|n: Seq<char>, h: Seq<char>| (pair_in(s0, n, h) || (n == entry.name@ && h
            == entry.hash@)) implies pair_in(s1, n, h) by {
            let pi = pos as int;
            if pair_in(s0, n, h) {
                let i = choose|i: int|
                    0 <= i < s0.len() && (#[trigger] s0[i]).name@ == n && s0[i].hash@ == h;
                if i < pi {
                    assert((#[trigger] s1[i]).name@ == n && s1[i].hash@ == h);
                } else {
                    assert(s1[i + 1] == s0[i]);
                    assert((#[trigger] s1[i + 1]).name@ == n && s1[i + 1].hash@ == h);
                }
            } else {
                assert((#[trigger] s1[pi]).name@ == n && s1[pi].hash@ == h);
            }
        }
    }
}

impl MinecraftAssets {
    /// Build the catalog for an installation directory from the entries of
    /// a parsed asset index document: exactly the keys inside the sounds
    /// namespace with the Ogg extension are kept, stripped to bare names;
    /// every other entry is discarded silently.
    ///
    /// An index document is a JSON object, so its keys are unique; content
    /// hashes carry at least the two characters of the fan-out prefix.
    pub fn from_index(minecraft_dir: String, index: Vec<IndexEntry>) -> (r: Self)
        requires
            forall|i: int, j: int|
                0 <= i < j < index@.len() ==> (#[trigger] index@[i]).key@ != (
                #[trigger] index@[j]).key@,
            forall|i: int|
                0 <= i < index@.len() && is_sound_key((#[trigger] index@[i]).key@)
                    ==> index@[i].hash@.len() >= 2,
        ensures
            r.wf(),
            r.dir() == minecraft_dir@,
            forall|n: Seq<char>, h: Seq<char>|
                r.has_sound(n, h) <==> sound_pair_listed(index@, n, h),
    {
        let mut sounds: Vec<SoundEntry> = Vec::new();
        let mut k: usize = 0;
        while k < index.len()
            invariant
                k <= index@.len(),
                forall|i: int, j: int|
                    0 <= i < j < index@.len() ==> (#[trigger] index@[i]).key@ != (
                    #[trigger] index@[j]).key@,
                forall|i: int|
                    0 <= i < index@.len() && is_sound_key((#[trigger] index@[i]).key@)
                        ==> index@[i].hash@.len() >= 2,
                sorted_rows(sounds@),
                forall|i: int| 0 <= i < sounds@.len() ==> (#[trigger] sounds@[i]).hash@.len() >= 2,
                forall|n: Seq<char>, h: Seq<char>|
                    pair_in(sounds@, n, h) <==> sound_pair_listed(index@.take(k as int), n, h),
            decreases index@.len() - k,
        {
            let ghost pre = sounds@;
            if is_sound_key_str(index[k].key.as_str()) {
                proof {
                    reveal_strlit("minecraft/sounds/");
                    reveal_strlit(".ogg");
                }
                let klen = index[k].key.unicode_len();
                let name = substring(index[k].key.as_str(), 17, klen - 4);
                proof {
                    assert(name@ =~= sound_name_of(index@[k as int].key@));
                }
                let hash = index[k].hash.clone();
                let entry = SoundEntry { name, hash };
                proof {
                    assert forall|i: int| 0 <= i < sounds@.len() implies (
                    #[trigger] sounds@[i]).name@ != entry.name@ by {
                        if sounds@[i].name@ == entry.name@ {
                            assert(pair_in(sounds@, sounds@[i].name@, sounds@[i].hash@));
                            let j = choose|j: int|
                                0 <= j < index@.take(k as int).len() && is_sound_key(
                                    (#[trigger] index@.take(k as int)[j]).key@,
                                ) && sound_name_of(index@.take(k as int)[j].key@)
                                    == sounds@[i].name@ && index@.take(k as int)[j].hash@
                                    == sounds@[i].hash@;
                            assert(index@.take(k as int)[j] == index@[j]);
                            lemma_sound_name_injective(index@[j].key@, index@[k as int].key@);
                        }
                    }
                }
                insert_sorted(&mut sounds, entry);
            }
            proof {
                assert forall|n: Seq<char>, h: Seq<char>| pair_in(sounds@, n, h)
                    <==> sound_pair_listed(index@.take(k + 1), n, h) by {
                    lemma_listed_extend(index@, k as int, n, h);
                }
            }
            k = k + 1;
        }
        proof {
            assert(index@.take(k as int) =~= index@);
        }
        MinecraftAssets { minecraft_dir, sounds }
    }
}

/// The pattern test of the listing: no pattern admits every name; a
/// pattern admits exactly the names containing it as a substring
/// (case-sensitive, unanchored).
pub open spec fn pattern_admits(pattern: Option<&str>, n: Seq<char>) -> bool {
    match pattern {
        None => true,
        Some(p) => contains_seq(n, p@),
    }
}

/// A name stands in the listing.
pub open spec fn name_listed(r: Seq<String>, n: Seq<char>) -> bool {
    exists|i: int| 0 <= i < r.len() && (#[trigger] r[i])@ == n
}

/// Listing determinism: two strictly ascending listings holding exactly
/// the same names are the same listing, name for name.
pub proof fn lemma_listing_determined(a: Seq<String>, b: Seq<String>)
    requires
        forall|i: int, j: int|
            0 <= i < j < a.len() ==> lex_lt((#[trigger] a[i])@, (#[trigger] a[j])@),
        forall|i: int, j: int|
            0 <= i < j < b.len() ==> lex_lt((#[trigger] b[i])@, (#[trigger] b[j])@),
        forall|n: Seq<char>| name_listed(a, n) <==> name_listed(b, n),
    ensures
        a.len() == b.len(),
        forall|i: int| 0 <= i < a.len() ==> (#[trigger] a[i])@ == b[i]@,
    decreases a.len(),
{
    if a.len() == 0 {
        if b.len() > 0 {
            assert((#[trigger] b[0])@ == b[0]@);
            assert(name_listed(b, b[0]@));
        }
    } else if b.len() == 0 {
        assert((#[trigger] a[0])@ == a[0]@);
        assert(name_listed(a, a[0]@));
    } else {
        assert((#[trigger] a[0])@ == a[0]@);
        assert((#[trigger] b[0])@ == b[0]@);
        assert(name_listed(a, a[0]@));
        assert(name_listed(b, b[0]@));
        let j = choose|j: int| 0 <= j < b.len() && (#[trigger] b[j])@ == a[0]@;
        let i = choose|i: int| 0 <= i < a.len() && (#[trigger] a[i])@ == b[0]@;
        if i > 0 && j > 0 {
            lemma_lex_lt_transitive(a[0]@, b[0]@, a[0]@);
            crate::text::lemma_lex_lt_irreflexive(a[0]@);
        }
        assert(a[0]@ == b[0]@);
        let at = a.skip(1);
        let bt = b.skip(1);
        assert forall|i2: int, j2: int| 0 <= i2 < j2 < at.len() implies lex_lt(
            (#[trigger] at[i2])@,
            (#[trigger] at[j2])@,
        ) by {
            assert(at[i2] == a[i2 + 1]);
            assert(at[j2] == a[j2 + 1]);
        }
        assert forall|i2: int, j2: int| 0 <= i2 < j2 < bt.len() implies lex_lt(
            (#[trigger] bt[i2])@,
            (#[trigger] bt[j2])@,
        ) by {
            assert(bt[i2] == b[i2 + 1]);
            assert(bt[j2] == b[j2 + 1]);
        }
        assert forall|n: Seq<char>| name_listed(at, n) <==> name_listed(bt, n) by {
            lemma_tail_membership(a, n);
            lemma_tail_membership(b, n);
        }
        lemma_listing_determined(at, bt);
        assert forall|i2: int| 0 <= i2 < a.len() implies (#[trigger] a[i2])@ == b[i2]@ by {
            if i2 > 0 {
                assert(at[i2 - 1] == a[i2]);
                assert(bt[i2 - 1] == b[i2]);
                assert(at[i2 - 1]@ == bt[i2 - 1]@);
            }
        }
    }
}

/// In a strictly ascending listing, the names after the head are exactly
/// the listed names other than the head's.
proof fn lemma_tail_membership(a: Seq<String>, n: Seq<char>)
    requires
        a.len() > 0,
        forall|i: int, j: int|
            0 <= i < j < a.len() ==> lex_lt((#[trigger] a[i])@, (#[trigger] a[j])@),
    ensures
        name_listed(a.skip(1), n) <==> (name_listed(a, n) && n != a[0]@),
{
    let at = a.skip(1);
    if name_listed(at, n) {
        let t = choose|t: int| 0 <= t < at.len() && (#[trigger] at[t])@ == n;
        assert(at[t] == a[t + 1]);
        assert(name_listed(a, n));
        assert(lex_lt(a[0]@, a[t + 1]@));
        if n == a[0]@ {
            crate::text::lemma_lex_lt_irreflexive(n);
        }
    }
    if name_listed(a, n) && n != a[0]@ {
        let i = choose|i: int| 0 <= i < a.len() && (#[trigger] a[i])@ == n;
        assert(i > 0);
        assert((#[trigger] at[i - 1])@ == n);
        assert(name_listed(at, n));
    }
}

proof fn lemma_listed_push(r: Seq<String>, x: String, n: Seq<char>)
    ensures
        name_listed(r.push(x), n) <==> (name_listed(r, n) || x@ == n),
{
    let r1 = r.push(x);
    if name_listed(r1, n) {
        let i = choose|i: int| 0 <= i < r1.len() && (#[trigger] r1[i])@ == n;
        if i < r.len() {
            assert(r[i] == r1[i]);
            assert(name_listed(r, n));
        } else {
            assert(r1[i] == x);
        }
    }
    if name_listed(r, n) {
        let i = choose|i: int| 0 <= i < r.len() && (#[trigger] r[i])@ == n;
        assert(r1[i] == r[i]);
        assert(name_listed(r1, n));
    }
    if x@ == n {
        assert((#[trigger] r1[r.len() as int])@ == n);
        assert(name_listed(r1, n));
    }
}

impl MinecraftAssets {
    /// A name of some row among the first `k` stands for `n`.
    spec fn name_among(self, k: int, n: Seq<char>) -> bool {
        exists|i: int| 0 <= i < k && i < self.rows().len() && (#[trigger] self.rows()[i]).name@
            == n
    }

    /// List the catalog's sound names in ascending lexicographic order,
    /// kept to those containing the pattern when one is supplied. Never
    /// fails; an empty listing means nothing matched.
    pub fn list_sounds(&self, pattern: Option<&str>) -> (r: Vec<String>)
        requires
            self.wf(),
        ensures
            forall|i: int, j: int|
                0 <= i < j < r@.len() ==> lex_lt((#[trigger] r@[i])@, (#[trigger] r@[j])@),
            forall|n: Seq<char>|
                #[trigger] name_listed(r@, n) <==> (self.has_name(n) && pattern_admits(
                    pattern,
                    n,
                )),
    {
        let mut out: Vec<String> = Vec::new();
        let mut k: usize = 0;
        while k < self.sounds.len()
            invariant
                self.wf(),
                k <= self.rows().len(),
                self.rows() == self.sounds@,
                forall|i: int, j: int|
                    0 <= i < j < out@.len() ==> lex_lt((#[trigger] out@[i])@, (
                    #[trigger] out@[j])@),
                forall|t: int|
                    0 <= t < out@.len() ==> exists|i: int|
                        0 <= i < k && (#[trigger] self.rows()[i]).name@ == (#[trigger] out@[t])@,
                forall|n: Seq<char>|
                    #[trigger] name_listed(out@, n) <==> (self.name_among(k as int, n)
                        && pattern_admits(pattern, n)),
            decreases self.rows().len() - k,
        {
            let keep = match pattern {
                None => true,
                Some(p) => str_contains(self.sounds[k].name.as_str(), p),
            };
            let ghost pre = out@;
            if keep {
                proof {
                    assert forall|t: int| 0 <= t < pre.len() implies lex_lt(
                        (#[trigger] pre[t])@,
                        self.rows()[k as int].name@,
                    ) by {
                        let i = choose|i: int|
                            0 <= i < k && (#[trigger] self.rows()[i]).name@ == pre[t]@;
                        assert(lex_lt(self.rows()[i].name@, self.rows()[k as int].name@));
                    }
                }
                out.push(self.sounds[k].name.clone());
                proof {
                    assert(out@ == pre.push(self.sounds@[k as int].name));
                    assert forall|t: int| 0 <= t < out@.len() implies exists|i: int|
                        0 <= i < k + 1 && (#[trigger] self.rows()[i]).name@ == (
                        #[trigger] out@[t])@ by {
                        if t < pre.len() {
                            let i = choose|i: int|
                                0 <= i < k && (#[trigger] self.rows()[i]).name@ == pre[t]@;
                            assert(0 <= i < k + 1 && self.rows()[i].name@ == out@[t]@);
                        } else {
                            assert((#[trigger] self.rows()[k as int]).name@ == out@[t]@);
                        }
                    }
                }
            }
            proof {
                assert forall|n: Seq<char>| #[trigger] name_listed(out@, n) <==> (self.name_among(
                    k + 1,
                    n,
                ) && pattern_admits(pattern, n)) by {
                    if keep {
                        lemma_listed_push(pre, self.sounds@[k as int].name, n);
                    }
                    if self.name_among(k + 1, n) && !self.name_among(k as int, n) {
                        let i = choose|i: int|
                            0 <= i < k + 1 && i < self.rows().len() && (
                            #[trigger] self.rows()[i]).name@ == n;
                        assert(i == k);
                        assert(self.rows()[k as int].name@ == n);
                    }
                    if self.name_among(k as int, n) {
                        let i = choose|i: int|
                            0 <= i < k && i < self.rows().len() && (
                            #[trigger] self.rows()[i]).name@ == n;
                        assert(self.name_among(k + 1, n));
                    }
                    if self.rows()[k as int].name@ == n {
                        assert(self.name_among(k + 1, n));
                    }
                }
            }
            k = k + 1;
        }
        proof {
            assert forall|n: Seq<char>| self.has_name(n) implies self.name_among(k as int, n) by {
                let i = choose|i: int|
                    0 <= i < self.rows().len() && (#[trigger] self.rows()[i]).name@ == n;
                assert(self.name_among(k as int, n));
            }
        }
        out
    }

    /// Resolve a sound name to the content object path holding its audio:
    /// succeeds exactly when the catalog lists the name, and then derives
    /// the path from the recorded hash; an unknown name reports which name
    /// was asked for. Whether the object file is actually present on disk
    /// is the caller's check, passed on to `confirm_object`.
    pub fn resolve_sound(&self, name: &str) -> (r: Result<String, ResolveError>)
        requires
            self.wf(),
        ensures
            match r {
                Ok(p) => exists|h: Seq<char>|
                    #[trigger] self.has_sound(name@, h) && p@ == spec_object_path(self.dir(), h),
                Err(e) => {
                    &&& !self.has_name(name@)
                    &&& e matches ResolveError::SoundNotFound { name: m } && m@ == name@
                },
            },
    {
        let mut k: usize = 0;
        while k < self.sounds.len()
            invariant
                self.wf(),
                k <= self.rows().len(),
                self.rows() == self.sounds@,
                forall|i: int| 0 <= i < k ==> (#[trigger] self.rows()[i]).name@ != name@,
            decreases self.rows().len() - k,
        {
            if str_eq(self.sounds[k].name.as_str(), name) {
                let h = self.sounds[k].hash.as_str();
                let hp = h.substring_char(0, 2);
                let path = self.minecraft_dir.clone().concat("/assets/objects/").concat(
                    hp,
                ).concat("/").concat(h);
                proof {
                    assert(hp@ =~= self.rows()[k as int].hash@.take(2));
                    assert(path@ =~= spec_object_path(self.dir(), self.rows()[k as int].hash@));
                    assert(self.has_sound(name@, self.rows()[k as int].hash@));
                }
                return Ok(path);
            }
            k = k + 1;
        }
        Err(ResolveError::SoundNotFound { name: String::from_str(name) })
    }
}

/// Accept a resolved object path only if its file exists on disk;
/// otherwise report the store as corrupt or incomplete, carrying the path.
/// An absent object is distinct from an unknown sound name.
pub fn confirm_object(path: String, exists_on_disk: bool) -> (r: Result<String, ResolveError>)
    ensures
        exists_on_disk ==> (r matches Ok(p) && p@ == path@),
        !exists_on_disk ==> (r matches Err(e) && e matches ResolveError::ObjectMissing {
            path: q } && q@ == path@),
{
    if exists_on_disk {
        Ok(path)
    } else {
        Err(ResolveError::ObjectMissing { path })
    }
}

} // verus!
