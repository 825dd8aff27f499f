//! Most-recently-used opened and saved files, kept in the preferences.
use vstd::prelude::*;
use crate::paths::{extension_known, known_extension, may_be_absolute, path_extension, path_is_absolute};
use crate::text::{str_chars, string_from_chars, lowercase, unicode_lowercase};

verus! {

/// The texts of a list of strings.
pub open spec fn texts(v: Seq<String>) -> Seq<Seq<char>> {
    v.map_values(|s: String| s@)
}

/// The most files the list remembers.
pub open spec fn list_limit() -> u8 {
    10
}

/// `m`, at most ten.
pub open spec fn capped(m: u8) -> u8 {
    if m < 10 { m } else { 10 }
}

/// Whether `k` is the key of an eligible file among the first `n`.
pub open spec fn key_seen(eligible: Seq<bool>, keys: Seq<Seq<char>>, n: int, k: Seq<char>) -> bool {
    exists|j: int| 0 <= j < n && eligible[j] && #[trigger] keys[j] == k
}

/// The files that stay: each eligible file whose key no earlier eligible
/// file has, in their order.
pub open spec fn retained(files: Seq<Seq<char>>, eligible: Seq<bool>, keys: Seq<Seq<char>>) -> Seq<Seq<char>>
    decreases files.len(),
{
    if files.len() == 0 {
        seq![]
    } else {
        let n = files.len() - 1;
        let before = retained(files.drop_last(), eligible, keys);
        if eligible[n] && !key_seen(eligible, keys, n, keys[n]) { before.push(files.last()) } else { before }
    }
}

/// The list kept of `files` under `maximum`: the retained files, at most
/// `maximum` of them.
pub open spec fn kept(files: Seq<Seq<char>>, eligible: Seq<bool>, keys: Seq<Seq<char>>, maximum: u8) -> Seq<Seq<char>> {
    let r = retained(files, eligible, keys);
    if r.len() <= maximum { r } else { r.take(maximum as int) }
}

/// `text` without the Windows extended-length prefix: `\\?\UNC\server`
/// becomes `\\server` and `\\?\C:` becomes `C:`. Other platforms show paths
/// as they are.
pub open spec fn display_text(text: Seq<char>, windows: bool) -> Seq<char> {
    if windows && text.len() >= 8 && text.take(8) == "\\\\?\\UNC\\"@ {
        "\\\\"@ + text.skip(8)
    } else if windows && text.len() >= 4 && text.take(4) == "\\\\?\\"@ {
        text.skip(4)
    } else {
        text
    }
}

/// `text` with each `/` turned into `\`.
pub open spec fn backslashed(text: Seq<char>) -> Seq<char> {
    text.map_values(|c: char| if c == '/' { '\\' } else { c })
}

/// The text by which two paths count as the same file: on Windows the
/// displayed path with backslashes, lowercased; elsewhere the path itself.
pub open spec fn key_text(text: Seq<char>, windows: bool) -> Seq<char> {
    if windows { unicode_lowercase(backslashed(display_text(text, true))) } else { text }
}

/// The key of each of `files`.
pub open spec fn keys_of(files: Seq<Seq<char>>, windows: bool) -> Seq<Seq<char>> {
    files.map_values(|f: Seq<char>| key_text(f, windows))
}

/// `files` without those whose key is `k`, in order.
pub open spec fn without_key(files: Seq<Seq<char>>, k: Seq<char>, windows: bool) -> Seq<Seq<char>>
    decreases files.len(),
{
    if files.len() == 0 {
        seq![]
    } else {
        let before = without_key(files.drop_last(), k, windows);
        if key_text(files.last(), windows) != k { before.push(files.last()) } else { before }
    }
}

/// `path` followed by the files of another key.
pub open spec fn moved_first(files: Seq<Seq<char>>, path: Seq<char>, windows: bool) -> Seq<Seq<char>> {
    seq![path] + without_key(files, key_text(path, windows), windows)
}

/// Whether `text` starts with the characters of `prefix`.
fn starts_with(text: &Vec<char>, prefix: &str) -> (b: bool)
    ensures
        b == (text@.len() >= prefix@.len() && text@.take(prefix@.len() as int) == prefix@),
{
    let p = str_chars(prefix);
    if text.len() < p.len() {
        return false;
    }
    let mut i: usize = 0;
    while i < p.len()
        invariant
            i <= p@.len(),
            p@.len() <= text@.len(),
            p@ == prefix@,
            forall|k: int| 0 <= k < i ==> text@[k] == p@[k],
        decreases p@.len() - i,
    {
        if text[i] != p[i] {
            assert(text@.take(p@.len() as int)[i as int] != prefix@[i as int]);
            return false;
        }
        i += 1;
    }
    assert(text@.take(p@.len() as int) =~= prefix@);
    true
}

/// `path` as shown in the menu: on Windows (`windows`) without the
/// extended-length prefix, which is kept for reopening.
pub fn display_path(path: &str, windows: bool) -> (s: String)
    ensures
        s@ == display_text(path@, windows),
{
    let chars = str_chars(path);
    if windows {
        proof {
            reveal_strlit("\\\\?\\UNC\\");
            reveal_strlit("\\\\?\\");
            reveal_strlit("\\\\");
        }
        if starts_with(&chars, "\\\\?\\UNC\\") {
            let mut out: Vec<char> = vec!['\\', '\\'];
            let mut i: usize = 8;
            while i < chars.len()
                invariant
                    8 <= i <= chars@.len(),
                    out@ == seq!['\\', '\\'] + chars@.subrange(8, i as int),
                decreases chars@.len() - i,
            {
                out.push(chars[i]);
                i += 1;
                assert(out@ =~= seq!['\\', '\\'] + chars@.subrange(8, i as int));
            }
            assert(out@ =~= "\\\\"@ + chars@.skip(8));
            return string_from_chars(out.as_slice());
        }
        if starts_with(&chars, "\\\\?\\") {
            let rest = string_from_chars(&chars.as_slice()[4..chars.len()]);
            assert(chars@.subrange(4, chars@.len() as int) =~= chars@.skip(4));
            return rest;
        }
    }
    string_from_chars(chars.as_slice())
}

/// The key of `path`: see [`key_text`].
pub fn path_key(path: &str, windows: bool) -> (k: String)
    ensures
        k@ == key_text(path@, windows),
{
    let shown = display_path(path, windows);
    if !windows {
        return shown;
    }
    let chars = str_chars(shown.as_str());
    let mut out: Vec<char> = Vec::new();
    let mut i: usize = 0;
    while i < chars.len()
        invariant
            i <= chars@.len(),
            out@ == backslashed(chars@.take(i as int)),
        decreases chars@.len() - i,
    {
        let c = chars[i];
        out.push(if c == '/' { '\\' } else { c });
        assert(backslashed(chars@.take(i + 1)) =~= backslashed(chars@.take(i as int)).push(if c == '/' { '\\' } else { c }));
        i += 1;
    }
    assert(chars@.take(chars@.len() as int) =~= chars@);
    let slashed = string_from_chars(out.as_slice());
    lowercase(slashed.as_str())
}

/// Whether `p` may stay in the list, as far as that is known on every
/// platform: it passes the extension test and may be absolute.
pub open spec fn may_keep(p: Seq<char>) -> bool {
    extension_passes(p) && may_be_absolute(p)
}

/// Whether the extension of `p`, where every platform finds the same one,
/// names a file that can be opened.
pub open spec fn known_supported(p: Seq<char>) -> bool {
    known_extension(p) matches Some(e) && crate::import::open_extension(crate::export::ascii_lowercase(e))
}

/// Whether `p` passes the extension test as far as it can be known: where
/// every platform finds the same extension, that extension opens.
pub open spec fn extension_passes(p: Seq<char>) -> bool {
    extension_known(p) ==> known_supported(p)
}

/// Whether `path` names a file that can be opened, by its extension, found
/// by `Path::extension`, compared without ASCII case.
pub fn supported(path: &str) -> (b: bool)
    ensures
        extension_known(path@) ==> (b <==> known_supported(path@)),
{
    match path_extension(path) {
        Some(e) => crate::import::opens_extension(e.as_str()),
        None => false,
    }
}

/// Recently opened or saved files, most recent first.
#[derive(Debug, Clone)]
pub struct RecentFiles {
    maximum: u8,
    files: Vec<String>,
}

impl RecentFiles {
    pub closed spec fn spec_maximum(&self) -> u8 {
        self.maximum
    }

    pub closed spec fn spec_files(&self) -> Seq<Seq<char>> {
        texts(self.files@)
    }

    /// A list as stored, before [`RecentFiles::normalize`] checks it.
    pub fn from_parts(maximum: u8, files: Vec<String>) -> (r: Self)
        ensures
            r.spec_maximum() == maximum,
            r.spec_files() == texts(files@),
    {
        RecentFiles { maximum, files }
    }

    /// How many files the list keeps; zero turns it off.
    pub fn maximum(&self) -> (m: u8)
        ensures
            m == self.spec_maximum(),
    {
        self.maximum
    }

    /// The files, most recent first.
    pub fn files(&self) -> (f: &[String])
        ensures
            texts(f@) == self.spec_files(),
    {
        self.files.as_slice()
    }

    /// Keep, of the files, those eligible (`eligible`, one flag per file) whose
    /// key (`keys`, one per file) no earlier eligible file has, at most the
    /// maximum of them, the maximum being capped at ten.
    pub fn keep(&mut self, eligible: &[bool], keys: &[String])
        requires
            eligible@.len() == old(self).spec_files().len(),
            keys@.len() == old(self).spec_files().len(),
        ensures
            final(self).spec_maximum() == capped(old(self).spec_maximum()),
            final(self).spec_files() == kept(old(self).spec_files(), eligible@, texts(keys@), capped(old(self).spec_maximum())),
    {
        let maximum: u8 = if self.maximum < 10 { self.maximum } else { 10 };
        let ghost files = texts(self.files@);
        let ghost ks = texts(keys@);
        let mut out: Vec<String> = Vec::new();
        let mut seen: Vec<String> = Vec::new();
        let mut i: usize = 0;
        while i < self.files.len()
            invariant
                i <= files.len(),
                files == texts(self.files@),
                ks == texts(keys@),
                eligible@.len() == files.len(),
                keys@.len() == files.len(),
                texts(out@) == retained(files.take(i as int), eligible@, ks),
                forall|k: Seq<char>| texts(seen@).contains(k) <==> key_seen(eligible@, ks, i as int, k),
            decreases files.len() - i,
        {
            let mut found = false;
            if eligible[i] {
                let mut j: usize = 0;
                while j < seen.len()
                    invariant
                        j <= seen@.len(),
                        i < keys@.len(),
                        found ==> texts(seen@).contains(keys@[i as int]@),
                        !found ==> forall|m: int| 0 <= m < j ==> seen@[m]@ != keys@[i as int]@,
                    decreases seen@.len() - j,
                {
                    if seen[j] == keys[i] {
                        found = true;
                        assert(texts(seen@)[j as int] == keys@[i as int]@);
                    }
                    j += 1;
                }
                if !found {
                    assert(!texts(seen@).contains(keys@[i as int]@)) by {
                        if texts(seen@).contains(keys@[i as int]@) {
                            let m = choose|m: int| 0 <= m < texts(seen@).len() && texts(seen@)[m] == keys@[i as int]@;
                            assert(seen@[m]@ == keys@[i as int]@);
                        }
                    }
                }
            }
            let ghost before_seen = texts(seen@);
            assert(files.take(i + 1).drop_last() =~= files.take(i as int));
            assert(files.take(i + 1).last() == files[i as int]);
            if eligible[i] && !found {
                out.push(self.files[i].clone());
                seen.push(keys[i].clone());
                assert(texts(out@) =~= texts(out@).drop_last().push(files[i as int]));
            }
            assert forall|k: Seq<char>| texts(seen@).contains(k) <==> key_seen(eligible@, ks, i + 1, k) by {
                if key_seen(eligible@, ks, i + 1, k) {
                    let j = choose|j: int| 0 <= j < i + 1 && eligible@[j] && #[trigger] ks[j] == k;
                    if j < i {
                        assert(key_seen(eligible@, ks, i as int, k));
                        assert(before_seen.contains(k));
                        let m = choose|m: int| 0 <= m < before_seen.len() && before_seen[m] == k;
                        assert(texts(seen@)[m] == k);
                    } else {
                        if !found {
                            assert(texts(seen@)[texts(seen@).len() - 1] == k);
                        } else {
                            assert(before_seen.contains(k));
                            let m = choose|m: int| 0 <= m < before_seen.len() && before_seen[m] == k;
                            assert(texts(seen@)[m] == k);
                        }
                    }
                }
                if texts(seen@).contains(k) {
                    let m = choose|m: int| 0 <= m < texts(seen@).len() && texts(seen@)[m] == k;
                    if m < before_seen.len() {
                        assert(before_seen[m] == k);
                        assert(before_seen.contains(k));
                        let j = choose|j: int| 0 <= j < i && eligible@[j] && #[trigger] ks[j] == k;
                        assert(key_seen(eligible@, ks, i + 1, k));
                    } else {
                        assert(ks[i as int] == k);
                        assert(key_seen(eligible@, ks, i + 1, k));
                    }
                }
            }
            i += 1;
        }
        assert(files.take(files.len() as int) =~= files);
        let n = out.len();
        out.truncate(maximum as usize);
        proof {
            let r = retained(files, eligible@, ks);
            if (maximum as int) <= n {
                assert(texts(out@) =~= r.take(maximum as int));
            }
        }
        self.maximum = maximum;
        self.files = out;
    }

    /// The key of each file.
    fn file_keys(&self, windows: bool) -> (keys: Vec<String>)
        ensures
            texts(keys@) == keys_of(self.spec_files(), windows),
    {
        let mut keys: Vec<String> = Vec::new();
        let mut i: usize = 0;
        while i < self.files.len()
            invariant
                i <= self.files@.len(),
                texts(keys@) == keys_of(self.spec_files().take(i as int), windows),
            decreases self.files@.len() - i,
        {
            keys.push(path_key(self.files[i].as_str(), windows));
            assert(keys_of(self.spec_files().take(i + 1), windows) =~= keys_of(self.spec_files().take(i as int), windows).push(key_text(self.spec_files()[i as int], windows)));
            assert(texts(keys@) =~= keys_of(self.spec_files().take(i + 1), windows));
            i += 1;
        }
        assert(self.spec_files().take(self.files@.len() as int) =~= self.spec_files());
        keys
    }

    /// Cap the maximum at ten and keep, most recent first, the absolute
    /// paths of files that can be opened, once per file (by [`key_text`] on
    /// Windows, `windows`, or elsewhere), at most the maximum of them.
    /// Whether a path is absolute and can be opened comes from std's `Path`,
    /// about which nothing is claimed; the contract holds whatever it says.
    pub fn normalize(&mut self, windows: bool)
        ensures
            final(self).spec_maximum() == capped(old(self).spec_maximum()),
            exists|eligible: Seq<bool>| eligible.len() == old(self).spec_files().len()
                && (forall|i: int| 0 <= i < eligible.len() && #[trigger] eligible[i] ==> may_keep(old(self).spec_files()[i]))
                && final(self).spec_files() == #[trigger] kept(old(self).spec_files(), eligible,
                    keys_of(old(self).spec_files(), windows), capped(old(self).spec_maximum())),
    {
        let mut eligible: Vec<bool> = Vec::new();
        let mut i: usize = 0;
        while i < self.files.len()
            invariant
                i <= self.files@.len(),
                eligible@.len() == i,
                forall|q: int| 0 <= q < i && #[trigger] eligible@[q] ==> may_keep(self.spec_files()[q]),
            decreases self.files@.len() - i,
        {
            let path = self.files[i].as_str();
            assert(self.spec_files()[i as int] == path@);
            eligible.push(path_is_absolute(path) && supported(path));
            i += 1;
        }
        let keys = self.file_keys(windows);
        assert(keys@.len() == texts(keys@).len());
        self.keep(eligible.as_slice(), keys.as_slice());
    }

    /// Set how many files the list keeps (at most ten; zero turns it off),
    /// then [`RecentFiles::normalize`].
    pub fn set_maximum(&mut self, maximum: u8, windows: bool)
        ensures
            final(self).spec_maximum() == capped(maximum),
            exists|eligible: Seq<bool>| eligible.len() == old(self).spec_files().len()
                && (forall|i: int| 0 <= i < eligible.len() && #[trigger] eligible[i] ==> may_keep(old(self).spec_files()[i]))
                && final(self).spec_files() == #[trigger] kept(old(self).spec_files(), eligible,
                    keys_of(old(self).spec_files(), windows), capped(maximum)),
    {
        self.maximum = if maximum < 10 { maximum } else { 10 };
        assert(self.spec_files() == old(self).spec_files());
        self.normalize(windows);
    }

    /// Remember the opened or saved file `path`: put `canonical`, the name
    /// the file system gives it, first, removing its earlier entry, then
    /// [`RecentFiles::normalize`]. Nothing changes, and `false` is returned,
    /// when the list is off, when `path` names no file that can be opened,
    /// or when `canonical` is already first.
    pub fn remember(&mut self, path: &str, canonical: &str, windows: bool) -> (added: bool)
        ensures
            old(self).spec_maximum() == 0 ==> !added,
            extension_known(path@) ==> (added <==> (old(self).spec_maximum() > 0 && known_supported(path@)
                && !(old(self).spec_files().len() > 0 && key_text(old(self).spec_files()[0], windows) == key_text(canonical@, windows)))),
            old(self).spec_files().len() > 0 && key_text(old(self).spec_files()[0], windows) == key_text(canonical@, windows) ==> !added,
            !added ==> final(self).spec_files() == old(self).spec_files() && final(self).spec_maximum() == old(self).spec_maximum(),
            added ==> final(self).spec_maximum() == capped(old(self).spec_maximum()),
            added ==> exists|eligible: Seq<bool>|
                eligible.len() == moved_first(old(self).spec_files(), canonical@, windows).len()
                && (forall|i: int| 0 <= i < eligible.len() && #[trigger] eligible[i]
                    ==> may_keep(moved_first(old(self).spec_files(), canonical@, windows)[i]))
                && final(self).spec_files() == #[trigger] kept(moved_first(old(self).spec_files(), canonical@, windows), eligible,
                    keys_of(moved_first(old(self).spec_files(), canonical@, windows), windows), capped(old(self).spec_maximum())),
    {
        if self.maximum == 0 || !supported(path) {
            return false;
        }
        let key = path_key(canonical, windows);
        if self.files.len() > 0 {
            let first = path_key(self.files[0].as_str(), windows);
            if first == key {
                return false;
            }
        }
        let ghost old_files = self.spec_files();
        let mut rest: Vec<String> = Vec::new();
        rest.push(string_from_chars(str_chars(canonical).as_slice()));
        let mut i: usize = 0;
        while i < self.files.len()
            invariant
                i <= old_files.len(),
                old_files == self.spec_files(),
                key@ == key_text(canonical@, windows),
                texts(rest@) == seq![canonical@] + without_key(old_files.take(i as int), key@, windows),
            decreases old_files.len() - i,
        {
            let k = path_key(self.files[i].as_str(), windows);
            assert(old_files.take(i + 1).drop_last() =~= old_files.take(i as int));
            assert(old_files.take(i + 1).last() == old_files[i as int]);
            assert(self.files@[i as int]@ == old_files[i as int]);
            let ghost before = texts(rest@);
            let same = k == key;
            if !same {
                rest.push(self.files[i].clone());
                assert(texts(rest@) =~= before.push(old_files[i as int]));
            }
            assert(texts(rest@) =~= seq![canonical@] + without_key(old_files.take(i + 1), key@, windows));
            i += 1;
        }
        assert(old_files.take(old_files.len() as int) =~= old_files);
        self.files = rest;
        assert(old_files == old(self).spec_files());
        assert(self.spec_maximum() == old(self).spec_maximum());
        assert(self.spec_files() == moved_first(old_files, canonical@, windows));
        self.normalize(windows);
        true
    }
}

impl Default for RecentFiles {
    /// An empty list that keeps up to ten files.
    fn default() -> (r: Self)
        ensures
            r.spec_maximum() == 10,
            r.spec_files() == Seq::<Seq<char>>::empty(),
    {
        let r = RecentFiles { maximum: 10, files: Vec::new() };
        assert(r.spec_files() =~= Seq::<Seq<char>>::empty());
        r
    }
}


// ---------------------------------------------------------------------------
// Laws of the list.

/// The eligibility flag of each of `files`.
pub open spec fn flags_of(files: Seq<Seq<char>>, eligible: spec_fn(Seq<char>) -> bool) -> Seq<bool> {
    files.map_values(|f: Seq<char>| eligible(f))
}

/// Every retained file comes from an eligible position.
proof fn lemma_retained_from(files: Seq<Seq<char>>, el: Seq<bool>, keys: Seq<Seq<char>>)
    requires
        el.len() >= files.len(),
        keys.len() >= files.len(),
    ensures
        forall|a: int| 0 <= a < retained(files, el, keys).len() ==> exists|j: int|
            0 <= j < files.len() && el[j] && files[j] == #[trigger] retained(files, el, keys)[a],
        retained(files, el, keys).len() <= files.len(),
    decreases files.len(),
{
    if files.len() > 0 {
        let d = files.drop_last();
        lemma_retained_from(d, el, keys);
        let r = retained(files, el, keys);
        let rd = retained(d, el, keys);
        assert forall|a: int| 0 <= a < r.len() implies exists|j: int|
            0 <= j < files.len() && el[j] && files[j] == #[trigger] r[a] by {
            if a < rd.len() {
                let j = choose|j: int| 0 <= j < d.len() && el[j] && d[j] == #[trigger] rd[a];
                assert(files[j] == r[a]);
            } else {
                assert(files[files.len() - 1] == r[a]);
            }
        }
    }
}

/// Files retained with keys read off the files have pairwise distinct keys.
proof fn lemma_retained_distinct(files: Seq<Seq<char>>, el: Seq<bool>, windows: bool)
    requires
        el.len() >= files.len(),
    ensures
        forall|a: int, b: int| 0 <= a < b < retained(files, el, keys_of(files, windows)).len() ==>
            key_text(#[trigger] retained(files, el, keys_of(files, windows))[a], windows)
                != key_text(#[trigger] retained(files, el, keys_of(files, windows))[b], windows),
    decreases files.len(),
{
    if files.len() > 0 {
        let keys = keys_of(files, windows);
        let d = files.drop_last();
        let n = d.len() as int;
        lemma_retained_distinct(d, el, windows);
        lemma_retained_from(d, el, keys);
        let r = retained(files, el, keys);
        let rd = retained(d, el, keys);
        assert(keys_of(d, windows) =~= keys.take(n));
        lemma_retained_same_keys(d, el, keys_of(d, windows), keys);
        assert forall|a: int, b: int| 0 <= a < b < r.len() implies
            key_text(#[trigger] r[a], windows) != key_text(#[trigger] r[b], windows) by {
            if b >= rd.len() {
                let j = choose|j: int| 0 <= j < d.len() && el[j] && d[j] == #[trigger] rd[a];
                assert(keys[j] == key_text(r[a], windows));
                if key_text(r[a], windows) == key_text(r[b], windows) {
                    assert(key_seen(el, keys, n, keys[n]));
                }
            }
        }
    }
}

/// Retaining depends on the keys of the positions considered only.
proof fn lemma_retained_same_keys(files: Seq<Seq<char>>, el: Seq<bool>, k1: Seq<Seq<char>>, k2: Seq<Seq<char>>)
    requires
        k1.len() >= files.len(),
        k2.len() >= files.len(),
        forall|j: int| 0 <= j < files.len() ==> k1[j] == k2[j],
    ensures
        retained(files, el, k1) == retained(files, el, k2),
    decreases files.len(),
{
    if files.len() > 0 {
        let n = files.len() - 1;
        lemma_retained_same_keys(files.drop_last(), el, k1, k2);
        assert(key_seen(el, k1, n, k1[n]) == key_seen(el, k2, n, k2[n])) by {
            if key_seen(el, k1, n, k1[n]) {
                let j = choose|j: int| 0 <= j < n && el[j] && #[trigger] k1[j] == k1[n];
                assert(k2[j] == k2[n]);
            }
            if key_seen(el, k2, n, k2[n]) {
                let j = choose|j: int| 0 <= j < n && el[j] && #[trigger] k2[j] == k2[n];
                assert(k1[j] == k1[n]);
            }
        }
    }
}


/// A list whose files are all eligible and have distinct keys is retained
/// whole.
proof fn lemma_retained_all(files: Seq<Seq<char>>, el: Seq<bool>, windows: bool)
    requires
        el.len() >= files.len(),
        forall|a: int| 0 <= a < files.len() ==> el[a],
        forall|a: int, b: int| 0 <= a < b < files.len() ==> key_text(#[trigger] files[a], windows) != key_text(#[trigger] files[b], windows),
    ensures
        retained(files, el, keys_of(files, windows)) == files,
    decreases files.len(),
{
    if files.len() > 0 {
        let keys = keys_of(files, windows);
        let d = files.drop_last();
        let n = d.len() as int;
        lemma_retained_all(d, el, windows);
        assert(keys_of(d, windows) =~= keys.take(n));
        lemma_retained_same_keys(d, el, keys_of(d, windows), keys);
        if key_seen(el, keys, n, keys[n]) {
            let j = choose|j: int| 0 <= j < n && el[j] && #[trigger] keys[j] == keys[n];
            assert(key_text(files[j], windows) == key_text(files[n], windows));
        }
        assert(d.push(files.last()) =~= files);
    }
}

/// After normalizing, the list holds at most `maximum` files, each of them
/// eligible, and no two of them are the same file (share a key). Here
/// eligibility is any property of the path.
pub proof fn lemma_kept_well_formed(files: Seq<Seq<char>>, eligible: spec_fn(Seq<char>) -> bool, windows: bool, maximum: u8)
    ensures
        kept(files, flags_of(files, eligible), keys_of(files, windows), maximum).len() <= maximum,
        forall|a: int| 0 <= a < kept(files, flags_of(files, eligible), keys_of(files, windows), maximum).len()
            ==> eligible(#[trigger] kept(files, flags_of(files, eligible), keys_of(files, windows), maximum)[a]),
        forall|a: int, b: int| 0 <= a < b < kept(files, flags_of(files, eligible), keys_of(files, windows), maximum).len()
            ==> key_text(#[trigger] kept(files, flags_of(files, eligible), keys_of(files, windows), maximum)[a], windows)
                != key_text(#[trigger] kept(files, flags_of(files, eligible), keys_of(files, windows), maximum)[b], windows),
{
    let el = flags_of(files, eligible);
    let keys = keys_of(files, windows);
    let r = retained(files, el, keys);
    let k = kept(files, el, keys, maximum);
    lemma_retained_from(files, el, keys);
    lemma_retained_distinct(files, el, windows);
    assert forall|a: int| 0 <= a < k.len() implies eligible(#[trigger] k[a]) by {
        assert(k[a] == r[a]);
        let j = choose|j: int| 0 <= j < files.len() && el[j] && files[j] == #[trigger] r[a];
    }
    assert forall|a: int, b: int| 0 <= a < b < k.len() implies
        key_text(#[trigger] k[a], windows) != key_text(#[trigger] k[b], windows) by {
        assert(k[a] == r[a] && k[b] == r[b]);
    }
}

/// Normalizing a normalized list changes nothing, eligibility being any
/// property of the path.
pub proof fn lemma_kept_idempotent(files: Seq<Seq<char>>, eligible: spec_fn(Seq<char>) -> bool, windows: bool, maximum: u8)
    ensures
        ({
            let k = kept(files, flags_of(files, eligible), keys_of(files, windows), maximum);
            kept(k, flags_of(k, eligible), keys_of(k, windows), maximum) == k
        }),
{
    let k = kept(files, flags_of(files, eligible), keys_of(files, windows), maximum);
    lemma_kept_well_formed(files, eligible, windows, maximum);
    let el = flags_of(k, eligible);
    assert forall|a: int| 0 <= a < k.len() implies el[a] by {
        assert(eligible(k[a]));
    }
    lemma_retained_all(k, el, windows);
}

/// Retained files start with the first file when it is eligible.
proof fn lemma_retained_first(files: Seq<Seq<char>>, el: Seq<bool>, keys: Seq<Seq<char>>)
    requires
        files.len() > 0,
        el.len() >= files.len(),
        keys.len() >= files.len(),
        el[0],
    ensures
        retained(files, el, keys).len() > 0,
        retained(files, el, keys)[0] == files[0],
    decreases files.len(),
{
    if files.len() > 1 {
        lemma_retained_first(files.drop_last(), el, keys);
        assert(files.drop_last()[0] == files[0]);
        let rd = retained(files.drop_last(), el, keys);
        assert(rd.push(files.last())[0] == rd[0]);
    } else {
        assert(files.drop_last().len() == 0);
        assert(!key_seen(el, keys, 0, keys[0]));
        assert(retained(files.drop_last(), el, keys) =~= Seq::<Seq<char>>::empty());
        assert(files.last() == files[0]);
        assert(retained(files, el, keys) =~= seq![files[0]]);
    }
}

/// A remembered file that can be listed comes first, and no other listed
/// file is the same file, while the list is on.
pub proof fn lemma_remembered_first(files: Seq<Seq<char>>, path: Seq<char>, eligible: spec_fn(Seq<char>) -> bool,
    windows: bool, maximum: u8)
    requires
        eligible(path),
        maximum > 0,
    ensures
        ({
            let l = moved_first(files, path, windows);
            let k = kept(l, flags_of(l, eligible), keys_of(l, windows), maximum);
            &&& k.len() > 0
            &&& k[0] == path
            &&& forall|a: int| 1 <= a < k.len() ==> key_text(#[trigger] k[a], windows) != key_text(path, windows)
        }),
{
    let l = moved_first(files, path, windows);
    let el = flags_of(l, eligible);
    let keys = keys_of(l, windows);
    lemma_retained_first(l, el, keys);
    lemma_kept_well_formed(l, eligible, windows, maximum);
    let k = kept(l, el, keys, maximum);
    assert(k[0] == path);
    assert forall|a: int| 1 <= a < k.len() implies key_text(#[trigger] k[a], windows) != key_text(path, windows) by {
        assert(key_text(k[0], windows) != key_text(k[a], windows));
    }
}

} // verus!
