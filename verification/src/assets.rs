//! The assets bundled with the application: the language profiles, one JSON
//! file per language under `languages/`, each mapping message keys to texts.
use std::collections::HashMap;
use vstd::prelude::*;
use vstd::string::StringSliceAdditionalSpecFns;
use vstd::utf8::*;
use crate::highlight::occurs_at;
use crate::states::str_equal;

verus! {

broadcast use vstd::utf8::group_utf8_lib;

/// The files embedded in the application binary.
pub struct Assets;

/// The bytes of `languages/`, the directory of the language profiles.
pub open spec fn languages_dir() -> Seq<u8> {
    seq![0x6Cu8, 0x61, 0x6E, 0x67, 0x75, 0x61, 0x67, 0x65, 0x73, 0x2F]
}

/// The bytes of `.json`, the extension of a language profile.
pub open spec fn profile_extension() -> Seq<u8> {
    seq![0x2Eu8, 0x6A, 0x73, 0x6F, 0x6E]
}

/// The messages of one language, by key; no key appears twice.
pub struct LanguageProfile {
    pub entries: Vec<(String, String)>,
}

/// The language profiles, by language; no language appears twice.
pub struct AssetsCollection {
    pub language_profiles: Vec<(String, LanguageProfile)>,
}

/// `p` occurs somewhere in `h`.
pub open spec fn contains_bytes(h: Seq<u8>, p: Seq<u8>) -> bool {
    exists|i: int| #[trigger] occurs_at(h, p, i)
}

/// `s` without all the leading repetitions of `p` (`str::trim_start_matches`).
pub open spec fn trim_start_all(s: Seq<u8>, p: Seq<u8>) -> Seq<u8>
    decreases s.len(),
{
    if p.len() > 0 && s.len() >= p.len() && s.take(p.len() as int) == p {
        trim_start_all(s.skip(p.len() as int), p)
    } else {
        s
    }
}

/// `s` without all the trailing repetitions of `p` (`str::trim_end_matches`).
pub open spec fn trim_end_all(s: Seq<u8>, p: Seq<u8>) -> Seq<u8>
    decreases s.len(),
{
    if p.len() > 0 && s.len() >= p.len() && s.skip(s.len() - p.len()) == p {
        trim_end_all(s.take(s.len() - p.len()), p)
    } else {
        s
    }
}

fn occurs_at_exec(h: &[u8], p: &[u8], i: usize) -> (r: bool)
    ensures
        r == occurs_at(h@, p@, i as int),
{
    if i > h.len() || p.len() > h.len() - i {
        return false;
    }
    let hl = h.len();
    let mut k: usize = 0;
    while k < p.len()
        invariant
            hl == h@.len(),
            i + p@.len() <= h@.len(),
            k <= p@.len(),
            forall|j: int| 0 <= j < k ==> h@[i + j] == p@[j],
        decreases p@.len() - k,
    {
        if h[i + k] != p[k] {
            proof {
                assert(h@.subrange(i as int, i + p@.len())[k as int] != p@[k as int]);
            }
            return false;
        }
        k = k + 1;
    }
    assert(h@.subrange(i as int, i + p@.len()) =~= p@);
    true
}

pub(crate) fn contains_exec(h: &[u8], p: &[u8]) -> (r: bool)
    ensures
        r == contains_bytes(h@, p@),
{
    let mut i: usize = 0;
    while i <= h.len()
        invariant
            i <= h@.len() + 1,
            forall|j: int| 0 <= j < i ==> !occurs_at(h@, p@, j),
        decreases h@.len() + 1 - i,
    {
        if occurs_at_exec(h, p, i) {
            return true;
        }
        if i == h.len() {
            proof {
                assert forall|j: int| !occurs_at(h@, p@, j) by {
                    if j > h@.len() {
                    }
                }
            }
            return false;
        }
        i = i + 1;
    }
    proof {
        assert forall|j: int| !occurs_at(h@, p@, j) by {}
    }
    false
}

proof fn lemma_trim_start_bounds(s: Seq<u8>, p: Seq<u8>)
    ensures
        exists|k: int| 0 <= k <= s.len() && trim_start_all(s, p) == #[trigger] s.skip(k),
    decreases s.len(),
{
    if p.len() > 0 && s.len() >= p.len() && s.take(p.len() as int) == p {
        let r = s.skip(p.len() as int);
        lemma_trim_start_bounds(r, p);
        let k = choose|k: int| 0 <= k <= r.len() && trim_start_all(r, p) == #[trigger] r.skip(k);
        assert(r.skip(k) =~= s.skip(p.len() + k));
    } else {
        assert(s.skip(0) =~= s);
    }
}

/// The language of an asset file: its path with the leading `languages/` and the
/// trailing `.json` removed (each as often as it repeats). `None` for assets whose
/// path does not hold `languages/`.
#[verifier::spinoff_prover]
#[verifier::rlimit(30)]
pub fn language_of_asset(path: &str) -> (r: Option<String>)
    ensures
        !contains_bytes(path.spec_bytes(), languages_dir()) ==> r is None,
        contains_bytes(path.spec_bytes(), languages_dir()) ==> (r matches Some(l) && encode_utf8(l@) == trim_end_all(
            trim_start_all(path.spec_bytes(), languages_dir()),
            profile_extension(),
        )),
{
    let b = path.as_bytes();
    let pre_v: Vec<u8> = vec![0x6Cu8, 0x61, 0x6E, 0x67, 0x75, 0x61, 0x67, 0x65, 0x73, 0x2F];
    let suf_v: Vec<u8> = vec![0x2Eu8, 0x6A, 0x73, 0x6F, 0x6E];
    let pre = pre_v.as_slice();
    let suf = suf_v.as_slice();
    proof {
        assert(pre@ =~= languages_dir());
        assert(suf@ =~= profile_extension());
    }
    if !contains_exec(b, pre) {
        return None;
    }
    let ghost s = b@;
    let n = b.len();
    let mut lo: usize = 0;
    proof {
        assert(s.skip(0) =~= s);
        is_char_boundary_start_end_of_seq(s);
    }
    while n - lo >= pre.len() && occurs_at_exec(b, pre, lo)
        invariant
            b@ == s,
            n == s.len(),
            pre@.len() == 10,
            pre@[9] == 0x2Fu8,
            valid_utf8(s),
            lo <= n,
            is_char_boundary(s, lo as int),
            trim_start_all(s, pre@) == trim_start_all(s.skip(lo as int), pre@),
        decreases n - lo,
    {
        proof {
            let t = s.skip(lo as int);
            assert(t.take(pre@.len() as int) =~= s.subrange(lo as int, lo + pre@.len()));
            assert(t.skip(pre@.len() as int) =~= s.skip(lo + pre@.len()));
            assert(s[lo + 9] == 0x2Fu8) by {
                assert(s.subrange(lo as int, lo + 10)[9] == pre@[9]);
            }
            crate::utf8_text::lemma_after_ascii_is_boundary(s, lo + 9);
        }
        lo = lo + pre.len();
    }
    proof {
        let t = s.skip(lo as int);
        if t.len() >= pre@.len() {
            assert(t.take(pre@.len() as int) =~= s.subrange(lo as int, lo + pre@.len()));
        }
    }
    let mut hi: usize = n;
    proof {
        assert(s.subrange(lo as int, n as int) =~= s.skip(lo as int));
    }
    while hi - lo >= suf.len() && occurs_at_exec(b, suf, hi - suf.len())
        invariant
            b@ == s,
            n == s.len(),
            suf@.len() == 5,
            suf@[0] == 0x2Eu8,
            valid_utf8(s),
            lo <= hi <= n,
            is_char_boundary(s, hi as int),
            trim_end_all(s.skip(lo as int), suf@) == trim_end_all(s.subrange(lo as int, hi as int), suf@),
        decreases hi,
    {
        proof {
            let t = s.subrange(lo as int, hi as int);
            assert(t.skip(t.len() - suf@.len()) =~= s.subrange(hi - suf@.len(), hi as int));
            assert(t.take(t.len() - suf@.len()) =~= s.subrange(lo as int, hi - suf@.len()));
            assert(s[hi - 5] == 0x2Eu8) by {
                assert(s.subrange(hi - 5, hi as int)[0] == suf@[0]);
            }
            crate::utf8_text::lemma_ascii_is_boundary(s, hi - 5);
        }
        hi = hi - suf.len();
    }
    proof {
        let t = s.subrange(lo as int, hi as int);
        if t.len() >= suf@.len() {
            assert(t.skip(t.len() - suf@.len()) =~= s.subrange(hi - suf@.len(), hi as int));
        }
        crate::utf8_text::lemma_subrange_valid(s, lo as int, hi as int);
    }
    let mut out: Vec<u8> = Vec::new();
    crate::utf8_text::extend_from_range(&mut out, b, lo, hi);
    proof {
        assert(out@ =~= s.subrange(lo as int, hi as int));
    }
    Some(crate::utf8_text::string_from_utf8(out))
}

impl LanguageProfile {
    /// The message under `key`, if the profile has one.
    pub fn get(&self, key: &str) -> (r: Option<&String>)
        ensures
            r matches Some(m) ==> exists|i: int| 0 <= i < self.entries@.len() && self.entries@[i].0@ == key@ && #[trigger] self.entries@[i].1 == *m,
            r is None ==> forall|i: int| 0 <= i < self.entries@.len() ==> (#[trigger] self.entries@[i]).0@ != key@,
    {
        let mut i: usize = 0;
        while i < self.entries.len()
            invariant
                i <= self.entries@.len(),
                forall|j: int| 0 <= j < i ==> (#[trigger] self.entries@[j]).0@ != key@,
            decreases self.entries@.len() - i,
        {
            if str_equal(self.entries[i].0.as_str(), key) {
                return Some(&self.entries[i].1);
            }
            i = i + 1;
        }
        None
    }
}

/// No language is listed twice.
pub open spec fn languages_distinct(ps: Seq<(String, LanguageProfile)>) -> bool {
    forall|i: int, j: int| 0 <= i < j < ps.len() ==> (#[trigger] ps[i]).0@ != (#[trigger] ps[j]).0@
}

impl AssetsCollection {
    pub fn new() -> (c: AssetsCollection)
        ensures
            c.language_profiles@.len() == 0,
    {
        AssetsCollection { language_profiles: Vec::new() }
    }

    /// Record the profile of a language, replacing the one it had.
    pub fn insert(&mut self, language: String, profile: LanguageProfile)
        requires
            languages_distinct(old(self).language_profiles@),
        ensures
            languages_distinct(final(self).language_profiles@),
            (exists|i: int| 0 <= i < old(self).language_profiles@.len() && (#[trigger] old(self).language_profiles@[i]).0@ == language@) ==> {
                &&& final(self).language_profiles@.len() == old(self).language_profiles@.len()
                &&& forall|i: int| 0 <= i < old(self).language_profiles@.len() ==> #[trigger] final(self).language_profiles@[i] == (if old(self).language_profiles@[i].0@ == language@ {
                    (language, profile)
                } else {
                    old(self).language_profiles@[i]
                })
            },
            !(exists|i: int| 0 <= i < old(self).language_profiles@.len() && (#[trigger] old(self).language_profiles@[i]).0@ == language@) ==> final(self).language_profiles@ == old(self).language_profiles@.push((language, profile)),
    {
        let ghost before = self.language_profiles@;
        let mut i: usize = 0;
        while i < self.language_profiles.len()
            invariant
                self.language_profiles@ == before,
                before == old(self).language_profiles@,
                languages_distinct(before),
                i <= before.len(),
                forall|j: int| 0 <= j < i ==> (#[trigger] before[j]).0@ != language@,
            decreases before.len() - i,
        {
            if str_equal(self.language_profiles[i].0.as_str(), language.as_str()) {
                let ghost item = (language, profile);
                let _ = self.language_profiles.remove(i);
                self.language_profiles.insert(i, (language, profile));
                proof {
                    assert(self.language_profiles@ =~= before.update(i as int, item));
                    assert(before[i as int].0@ == language@);
                    assert forall|j: int| 0 <= j < before.len() implies #[trigger] self.language_profiles@[j] == (if before[j].0@ == language@ {
                        (language, profile)
                    } else {
                        before[j]
                    }) by {
                        if j != i && before[j].0@ == language@ {
                            if j < i {
                            } else {
                                assert(before[i as int].0@ == before[j].0@);
                            }
                        }
                    }
                    assert forall|a: int, b: int| 0 <= a < b < self.language_profiles@.len() implies (#[trigger] self.language_profiles@[a]).0@ != (#[trigger] self.language_profiles@[b]).0@ by {
                        assert(before[a].0@ != before[b].0@);
                        assert(self.language_profiles@[a].0@ == before[a].0@);
                        assert(self.language_profiles@[b].0@ == before[b].0@);
                    }
                }
                return;
            }
            i = i + 1;
        }
        self.language_profiles.push((language, profile));
        proof {
            assert forall|a: int, b: int| 0 <= a < b < self.language_profiles@.len() implies (#[trigger] self.language_profiles@[a]).0@ != (#[trigger] self.language_profiles@[b]).0@ by {
                if b == before.len() {
                    assert(before[a].0@ != language@);
                } else {
                    assert(before[a].0@ != before[b].0@);
                }
            }
        }
    }

    /// The profile of a language, if there is one.
    pub fn get_profile(&self, language: &str) -> (r: Option<&LanguageProfile>)
        ensures
            r matches Some(p) ==> exists|i: int| 0 <= i < self.language_profiles@.len() && self.language_profiles@[i].0@ == language@ && #[trigger] self.language_profiles@[i].1 == *p,
            r is None ==> forall|i: int| 0 <= i < self.language_profiles@.len() ==> (#[trigger] self.language_profiles@[i]).0@ != language@,
    {
        let mut i: usize = 0;
        while i < self.language_profiles.len()
            invariant
                i <= self.language_profiles@.len(),
                forall|j: int| 0 <= j < i ==> (#[trigger] self.language_profiles@[j]).0@ != language@,
            decreases self.language_profiles@.len() - i,
        {
            if str_equal(self.language_profiles[i].0.as_str(), language) {
                return Some(&self.language_profiles[i].1);
            }
            i = i + 1;
        }
        None
    }
}

/// What `serde_json::from_slice::<HashMap<String, String>>` reads from the bytes:
/// the map of a JSON object whose values are all strings (a later key replacing an
/// earlier one), or `None` when the bytes are not such an object.
pub uninterp spec fn json_string_map(bytes: Seq<u8>) -> Option<Map<Seq<char>, Seq<char>>>;

/// No key is listed twice.
pub open spec fn keys_distinct(v: Seq<(String, String)>) -> bool {
    forall|a: int, b: int| 0 <= a < b < v.len() ==> (#[trigger] v[a]).0@ != (#[trigger] v[b]).0@
}

/// The map that the key-text pairs make.
pub open spec fn pairs_map(v: Seq<(String, String)>) -> Map<Seq<char>, Seq<char>>
    decreases v.len(),
{
    if v.len() == 0 {
        Map::empty()
    } else {
        pairs_map(v.drop_last()).insert(v.last().0@, v.last().1@)
    }
}

/// `serde_json::from_slice` into a `HashMap<String, String>`, its entries handed
/// out as pairs. The parse is named `json_string_map`; the pairs come in the map's
/// iteration order, which is not stated, each key once.
#[verifier::external_body]
fn parse_string_map(bytes: &[u8]) -> (r: Option<Vec<(String, String)>>)
    ensures
        r is None <==> json_string_map(bytes@) is None,
        r matches Some(v) ==> keys_distinct(v@) && json_string_map(bytes@) == Some(pairs_map(v@)),
{
    match serde_json::from_slice::<HashMap<String, String>>(bytes) {
        Ok(m) => Some(m.into_iter().collect()),
        Err(_) => None,
    }
}

/// The language, as bytes, of an asset under `languages/` (see `language_of_asset`).
pub open spec fn asset_language(path: Seq<u8>) -> Seq<u8> {
    trim_end_all(trim_start_all(path, languages_dir()), profile_extension())
}

/// The entry is the profile of the language (given as bytes).
pub open spec fn is_language(entry: (String, LanguageProfile), language: Seq<u8>) -> bool {
    encode_utf8(entry.0@) == language
}

/// Some entry is the profile of the language.
pub open spec fn has_language(ps: Seq<(String, LanguageProfile)>, language: Seq<u8>) -> bool {
    exists|i: int| 0 <= i < ps.len() && #[trigger] is_language(ps[i], language)
}

/// The profile holds exactly the messages of the map, each key once.
pub open spec fn profile_is(p: LanguageProfile, m: Map<Seq<char>, Seq<char>>) -> bool {
    keys_distinct(p.entries@) && pairs_map(p.entries@) == m
}

/// `after` is `before` with the profile of the language set to the messages `m`:
/// in place when the language had a profile, appended otherwise.
pub open spec fn profile_loaded(
    before: Seq<(String, LanguageProfile)>,
    after: Seq<(String, LanguageProfile)>,
    language: Seq<u8>,
    m: Map<Seq<char>, Seq<char>>,
) -> bool {
    if has_language(before, language) {
        &&& after.len() == before.len()
        &&& forall|i: int|
            0 <= i < before.len() ==> if is_language(#[trigger] before[i], language) {
                is_language(after[i], language) && profile_is(after[i].1, m)
            } else {
                after[i] == before[i]
            }
    } else {
        &&& after.len() == before.len() + 1
        &&& forall|i: int| 0 <= i < before.len() ==> #[trigger] after[i] == before[i]
        &&& is_language(after[before.len() as int], language)
        &&& profile_is(after[before.len() as int].1, m)
    }
}

/// Load one asset file into the collection. A file outside `languages/` is
/// skipped (`Ok(false)`); a language file is parsed as a JSON object of strings
/// and becomes its language's profile (`Ok(true)`); a language file that does not
/// parse is an error carrying its path, and nothing changes.
pub fn load_profile(c: &mut AssetsCollection, path: &str, data: &[u8]) -> (r: Result<bool, String>)
    requires
        languages_distinct(old(c).language_profiles@),
    ensures
        languages_distinct(final(c).language_profiles@),
        !contains_bytes(path.spec_bytes(), languages_dir()) ==> r == Ok::<bool, String>(false)
            && final(c).language_profiles@ == old(c).language_profiles@,
        contains_bytes(path.spec_bytes(), languages_dir()) && json_string_map(data@) is None ==> (r matches Err(p)
            && p@ == path@) && final(c).language_profiles@ == old(c).language_profiles@,
        contains_bytes(path.spec_bytes(), languages_dir()) && json_string_map(data@) is Some ==> r == Ok::<bool, String>(true)
            && profile_loaded(
            old(c).language_profiles@,
            final(c).language_profiles@,
            asset_language(path.spec_bytes()),
            json_string_map(data@).unwrap(),
        ),
{
    let language = match language_of_asset(path) {
        Some(l) => l,
        None => return Ok(false),
    };
    let entries = match parse_string_map(data) {
        Some(v) => v,
        None => return Err(path.to_string()),
    };
    let ghost before = c.language_profiles@;
    let ghost lang = asset_language(path.spec_bytes());
    let ghost item = (language, LanguageProfile { entries });
    proof {
        assert forall|i: int| 0 <= i < before.len() implies (#[trigger] before[i]).0@ == language@ <==> is_language(before[i], lang) by {
            encode_utf8_decode_utf8(before[i].0@);
            encode_utf8_decode_utf8(language@);
        }
    }
    c.insert(language, LanguageProfile { entries });
    proof {
        if has_language(before, lang) {
            let w = choose|w: int| 0 <= w < before.len() && #[trigger] is_language(before[w], lang);
            assert(before[w].0@ == language@);
        } else {
            assert forall|i: int| 0 <= i < before.len() implies (#[trigger] before[i]).0@ != language@ by {
                if before[i].0@ == language@ {
                    assert(is_language(before[i], lang));
                }
            }
        }
    }
    Ok(true)
}

} // verus!
