//! Settings and per-cursor-file profiles. Each cursor file carries its own
//! profile (size / update rate): switching the file switches the whole
//! configuration.
use vstd::prelude::*;
use crate::text::{
    lex_less, lemma_lex_less_asymmetric, lemma_lex_less_irreflexive,
    lemma_lex_less_total, lemma_lex_less_transitive, lowercase_of, push_char, str_eq, str_less,
    to_lowercase,
};

verus! {

/// Rendering profile of one cursor file.
#[derive(Debug, Clone, Copy, PartialEq, Eq, Structural)]
pub struct Profile {
    /// rendered cursor width in px
    pub size: u32,
    /// 0 = follow the monitor refresh rate
    pub update_rate: u32,
}

/// The size a profile gets when the configuration does not give one.
pub fn default_size() -> (r: u32)
    ensures
        r == 48,
{
    48
}

/// The profile of a cursor file that has none stored.
pub open spec fn fallback_profile() -> Profile {
    Profile { size: 48, update_rate: 0 }
}

impl Profile {
    /// Update rate in Hz that this profile asks for on a monitor of
    /// `screen_rate` Hz: its own rate when that is at least 30, else the
    /// monitor's rate, but never under 60.
    pub open spec fn rate_on(self, screen_rate: u32) -> u32 {
        if self.update_rate >= 30 {
            self.update_rate
        } else if screen_rate >= 60 {
            screen_rate
        } else {
            60
        }
    }

    pub fn effective_rate(&self, screen_rate: u32) -> (r: u32)
        ensures
            r == self.rate_on(screen_rate),
            r >= 30,
    {
        if self.update_rate >= 30 {
            self.update_rate
        } else if screen_rate >= 60 {
            screen_rate
        } else {
            60
        }
    }
}

impl Default for Profile {
    fn default() -> (r: Profile)
        ensures
            r == (Profile { size: 0, update_rate: 0 }),
    {
        Profile { size: 0, update_rate: 0 }
    }
}

/// One stored profile and the normalized path it belongs to.
#[derive(Debug)]
pub struct ProfileEntry {
    key: String,
    profile: Profile,
}

/// The profiles of all cursor files, keyed by normalized path and kept in
/// ascending key order (the order of a `BTreeMap<String, _>`).
#[derive(Debug)]
pub struct ProfileMap {
    entries: Vec<ProfileEntry>,
}

/// The keys of a run of entries are strictly ascending.
pub closed spec fn keys_ascending(s: Seq<ProfileEntry>) -> bool {
    forall|i: int, j: int| 0 <= i < j < s.len() ==> lex_less(#[trigger] s[i].key@, #[trigger] s[j].key@)
}

/// An index of an entry stored under `k`.
spec fn index_of_key(s: Seq<ProfileEntry>, k: Seq<char>) -> int {
    choose|i: int| 0 <= i < s.len() && #[trigger] s[i].key@ == k
}

/// The map that a run of entries stands for.
pub closed spec fn entries_map(s: Seq<ProfileEntry>) -> Map<Seq<char>, Profile> {
    Map::new(
        |k: Seq<char>| exists|i: int| 0 <= i < s.len() && #[trigger] s[i].key@ == k,
        |k: Seq<char>| s[index_of_key(s, k)].profile,
    )
}

proof fn lemma_keys_distinct(s: Seq<ProfileEntry>, i: int, j: int)
    requires
        keys_ascending(s),
        0 <= i < s.len(),
        0 <= j < s.len(),
        i != j,
    ensures
        s[i].key@ != s[j].key@,
{
    if i < j {
        assert(lex_less(s[i].key@, s[j].key@));
        if s[i].key@ == s[j].key@ {
            lemma_lex_less_irreflexive(s[i].key@, 0);
        }
    } else {
        assert(lex_less(s[j].key@, s[i].key@));
        if s[i].key@ == s[j].key@ {
            lemma_lex_less_irreflexive(s[i].key@, 0);
        }
    }
}

proof fn lemma_entries_map_at(s: Seq<ProfileEntry>, i: int)
    requires
        keys_ascending(s),
        0 <= i < s.len(),
    ensures
        entries_map(s).contains_key(s[i].key@),
        entries_map(s)[s[i].key@] == s[i].profile,
{
    let k = s[i].key@;
    assert(s[i].key@ == k);
    let j = index_of_key(s, k);
    assert(entries_map(s)[k] == s[j].profile);
    if j != i {
        lemma_keys_distinct(s, i, j);
    }
}

impl ProfileMap {
    #[verifier::type_invariant]
    closed spec fn ascending(self) -> bool {
        keys_ascending(self.entries@)
    }

    /// The stored keys, in ascending order.
    pub closed spec fn key_list(self) -> Seq<Seq<char>> {
        self.entries@.map_values(|e: ProfileEntry| e.key@)
    }

    /// The empty collection.
    pub fn new() -> (m: ProfileMap)
        ensures
            m@ == Map::<Seq<char>, Profile>::empty(),
            m.key_list() == Seq::<Seq<char>>::empty(),
    {
        let m = ProfileMap { entries: Vec::new() };
        assert(entries_map(m.entries@) =~= Map::<Seq<char>, Profile>::empty());
        assert(m.key_list() =~= Seq::<Seq<char>>::empty());
        m
    }

    /// Index of the first entry whose key does not sort before `key`.
    fn position(&self, key: &str) -> (r: usize)
        ensures
            r <= self.entries@.len(),
            forall|j: int| 0 <= j < r ==> lex_less(#[trigger] self.entries@[j].key@, key@),
            r < self.entries@.len() ==> !lex_less(self.entries@[r as int].key@, key@),
    {
        let mut i: usize = 0;
        while i < self.entries.len()
            invariant
                i <= self.entries@.len(),
                forall|j: int| 0 <= j < i ==> lex_less(#[trigger] self.entries@[j].key@, key@),
            decreases self.entries@.len() - i,
        {
            if !str_less(self.entries[i].key.as_str(), key) {
                return i;
            }
            i = i + 1;
        }
        i
    }

    /// The profile stored under `key`.
    pub fn get(&self, key: &str) -> (r: Option<Profile>)
        ensures
            r == (if self@.contains_key(key@) {
                Some(self@[key@])
            } else {
                None::<Profile>
            }),
    {
        proof {
            use_type_invariant(self);
        }
        let i = self.position(key);
        if i < self.entries.len() && str_eq(self.entries[i].key.as_str(), key) {
            proof {
                lemma_entries_map_at(self.entries@, i as int);
            }
            Some(self.entries[i].profile)
        } else {
            proof {
                let s = self.entries@;
                if self@.contains_key(key@) {
                    let j = choose|j: int| 0 <= j < s.len() && #[trigger] s[j].key@ == key@;
                    if j < i {
                        assert(lex_less(s[j].key@, key@));
                        lemma_lex_less_irreflexive(key@, 0);
                    } else {
                        assert(i < s.len());
                        if j > i {
                            assert(lex_less(s[i as int].key@, s[j].key@));
                            lemma_lex_less_total(s[i as int].key@, key@, 0);
                            lemma_lex_less_asymmetric(s[i as int].key@, key@, 0);
                        }
                        assert(s[i as int].key@ =~= key@);
                    }
                }
            }
            None
        }
    }

    /// Stores `p` under `key`, replacing what was stored there.
    pub fn insert(&mut self, key: String, p: Profile)
        ensures
            final(self)@ == old(self)@.insert(key@, p),
    {
        proof {
            use_type_invariant(&*self);
        }
        let i = self.position(key.as_str());
        let mut entries: Vec<ProfileEntry> = Vec::new();
        std::mem::swap(&mut entries, &mut self.entries);
        let ghost s = entries@;
        let ghost k = key@;
        if i < entries.len() && str_eq(entries[i].key.as_str(), key.as_str()) {
            entries.set(i, ProfileEntry { key, profile: p });
            proof {
                let t = entries@;
                assert(t =~= s.update(i as int, ProfileEntry { key: t[i as int].key, profile: p }));
                assert(keys_ascending(t)) by {
                    assert forall|a: int, b: int| 0 <= a < b < t.len() implies lex_less(
                        #[trigger] t[a].key@,
                        #[trigger] t[b].key@,
                    ) by {
                        assert(lex_less(s[a].key@, s[b].key@));
                    }
                }
                assert forall|q: Seq<char>| #[trigger]
                    entries_map(t).contains_key(q) == entries_map(s).insert(k, p).contains_key(
                        q,
                    ) by {
                    if entries_map(t).contains_key(q) {
                        let j = choose|j: int| 0 <= j < t.len() && #[trigger] t[j].key@ == q;
                        if j != i {
                            assert(s[j].key@ == q);
                        }
                    }
                    if entries_map(s).contains_key(q) {
                        let j = choose|j: int| 0 <= j < s.len() && #[trigger] s[j].key@ == q;
                        assert(t[j].key@ == q);
                    }
                    assert(t[i as int].key@ == k);
                }
                assert forall|q: Seq<char>| #[trigger]
                    entries_map(t).contains_key(q) implies entries_map(t)[q] == entries_map(
                    s,
                ).insert(k, p)[q] by {
                    let j = choose|j: int| 0 <= j < t.len() && #[trigger] t[j].key@ == q;
                    lemma_entries_map_at(t, j);
                    if j != i {
                        lemma_entries_map_at(s, j);
                    }
                }
                assert(entries_map(t) =~= entries_map(s).insert(k, p));
            }
        } else {
            proof {
                if i < s.len() {
                    assert(lex_less(k, s[i as int].key@)) by {
                        if !lex_less(k, s[i as int].key@) {
                            lemma_lex_less_total(s[i as int].key@, k, 0);
                            assert(s[i as int].key@ =~= k);
                        }
                    }
                }
            }
            entries.insert(i, ProfileEntry { key, profile: p });
            proof {
                let t = entries@;
                assert(t[i as int].key@ == k);
                assert(keys_ascending(t)) by {
                    assert forall|a: int, b: int| 0 <= a < b < t.len() implies lex_less(
                        #[trigger] t[a].key@,
                        #[trigger] t[b].key@,
                    ) by {
                        if b < i {
                            assert(t[a] == s[a] && t[b] == s[b]);
                        } else if b == i {
                            assert(t[a] == s[a]);
                        } else if a == i {
                            assert(t[b] == s[b - 1]);
                            if b - 1 > i {
                                assert(lex_less(s[i as int].key@, s[b - 1].key@));
                                lemma_lex_less_transitive(k, s[i as int].key@, s[b - 1].key@, 0);
                            }
                        } else if a < i {
                            assert(t[a] == s[a] && t[b] == s[b - 1]);
                            assert(lex_less(s[a].key@, k));
                            if b - 1 >= i {
                                if b - 1 > i {
                                    assert(lex_less(s[i as int].key@, s[b - 1].key@));
                                    lemma_lex_less_transitive(k, s[i as int].key@, s[b - 1].key@, 0);
                                }
                                lemma_lex_less_transitive(s[a].key@, k, s[b - 1].key@, 0);
                            }
                        } else {
                            assert(t[a] == s[a - 1] && t[b] == s[b - 1]);
                            assert(lex_less(s[a - 1].key@, s[b - 1].key@));
                        }
                    }
                }
                assert forall|q: Seq<char>| #[trigger]
                    entries_map(t).contains_key(q) == entries_map(s).insert(k, p).contains_key(
                        q,
                    ) by {
                    if entries_map(t).contains_key(q) {
                        let j = choose|j: int| 0 <= j < t.len() && #[trigger] t[j].key@ == q;
                        if j < i {
                            assert(s[j].key@ == q);
                        } else if j > i {
                            assert(s[j - 1].key@ == q);
                        }
                    }
                    if entries_map(s).contains_key(q) {
                        let j = choose|j: int| 0 <= j < s.len() && #[trigger] s[j].key@ == q;
                        if j < i {
                            assert(t[j].key@ == q);
                        } else {
                            assert(t[j + 1].key@ == q);
                        }
                    }
                }
                assert forall|q: Seq<char>| #[trigger]
                    entries_map(t).contains_key(q) implies entries_map(t)[q] == entries_map(
                    s,
                ).insert(k, p)[q] by {
                    let j = choose|j: int| 0 <= j < t.len() && #[trigger] t[j].key@ == q;
                    lemma_entries_map_at(t, j);
                    if j < i {
                        lemma_entries_map_at(s, j);
                        lemma_keys_distinct(t, j, i as int);
                    } else if j > i {
                        lemma_entries_map_at(s, j - 1);
                        lemma_keys_distinct(t, j, i as int);
                    }
                }
                assert(entries_map(t) =~= entries_map(s).insert(k, p));
            }
        }
        self.entries = entries;
    }

    /// The stored keys in ascending order (each once).
    pub fn keys(&self) -> (r: Vec<String>)
        ensures
            r@.map_values(|s: String| s@) == self.key_list(),
            forall|i: int, j: int|
                0 <= i < j < r@.len() ==> lex_less(#[trigger] r@[i]@, #[trigger] r@[j]@),
            forall|k: Seq<char>|
                #[trigger] self@.contains_key(k) <==> exists|i: int| 0 <= i < r@.len() && r@[i]@ == k,
    {
        proof {
            use_type_invariant(self);
        }
        let mut r: Vec<String> = Vec::new();
        let mut i: usize = 0;
        while i < self.entries.len()
            invariant
                i <= self.entries@.len(),
                r@.len() == i,
                forall|j: int| 0 <= j < i ==> #[trigger] r@[j]@ == self.entries@[j].key@,
            decreases self.entries@.len() - i,
        {
            let key = self.entries[i].key.clone();
            r.push(key);
            i = i + 1;
        }
        assert(r@.map_values(|s: String| s@) =~= self.key_list());
        proof {
            let s = self.entries@;
            assert forall|a: int, b: int|
                0 <= a < b < r@.len() implies lex_less(#[trigger] r@[a]@, #[trigger] r@[b]@) by {
                assert(r@.map_values(|s: String| s@)[a] == r@[a]@);
                assert(r@.map_values(|s: String| s@)[b] == r@[b]@);
                assert(lex_less(s[a].key@, s[b].key@));
            }
            assert forall|k: Seq<char>| #[trigger]
                self@.contains_key(k) <==> exists|i: int| 0 <= i < r@.len() && r@[i]@ == k by {
                if self@.contains_key(k) {
                    let i = choose|i: int| 0 <= i < s.len() && #[trigger] s[i].key@ == k;
                    assert(r@.map_values(|s: String| s@)[i] == r@[i]@);
                }
                if exists|i: int| 0 <= i < r@.len() && r@[i]@ == k {
                    let i = choose|i: int| 0 <= i < r@.len() && r@[i]@ == k;
                    assert(r@.map_values(|s: String| s@)[i] == r@[i]@);
                    assert(s[i].key@ == k);
                }
            }
        }
        r
    }

    /// Number of stored profiles.
    pub fn len(&self) -> (n: usize)
        ensures
            n == self.key_list().len(),
            self@.dom().finite(),
            n == self@.dom().len(),
    {
        proof {
            use_type_invariant(self);
            let s = self.entries@;
            let ks = self.key_list();
            assert forall|i: int, j: int|
                0 <= i < ks.len() && 0 <= j < ks.len() && i != j implies ks[i] != ks[j] by {
                lemma_keys_distinct(s, i, j);
            }
            ks.unique_seq_to_set();
            assert forall|k: Seq<char>| #[trigger] self@.dom().contains(k) <==> ks.to_set().contains(k) by {
                if self@.dom().contains(k) {
                    let i = choose|i: int| 0 <= i < s.len() && #[trigger] s[i].key@ == k;
                    assert(ks[i] == k);
                }
                if ks.to_set().contains(k) {
                    let i = choose|i: int| 0 <= i < ks.len() && ks[i] == k;
                    assert(s[i].key@ == k);
                }
            }
            assert(self@.dom() =~= ks.to_set());
        }
        self.entries.len()
    }
}

impl Clone for ProfileMap {
    fn clone(&self) -> (r: ProfileMap)
        ensures
            r@ == self@,
            r.key_list() == self.key_list(),
    {
        proof {
            use_type_invariant(self);
        }
        let mut entries: Vec<ProfileEntry> = Vec::new();
        let mut i: usize = 0;
        while i < self.entries.len()
            invariant
                i <= self.entries@.len(),
                entries@ =~= self.entries@.subrange(0, i as int),
            decreases self.entries@.len() - i,
        {
            let e = ProfileEntry { key: self.entries[i].key.clone(), profile: self.entries[i].profile };
            entries.push(e);
            i = i + 1;
        }
        assert(entries@ =~= self.entries@);
        ProfileMap { entries }
    }
}

impl View for ProfileMap {
    type V = Map<Seq<char>, Profile>;

    closed spec fn view(&self) -> Map<Seq<char>, Profile> {
        entries_map(self.entries@)
    }
}

/// Persistent settings.
#[derive(Debug, Clone)]
pub struct Settings {
    /// process image name to match (case-insensitive)
    pub process: String,
    /// window title substring to match (either one matches)
    pub window_title: String,
    /// active cursor file
    pub cursor_path: String,
    pub enabled: bool,
    /// per-cursor-file profiles, keyed by normalized path
    pub profiles: ProfileMap,
}

/// The process image name matched when the configuration gives none.
pub fn default_process() -> (r: String)
    ensures
        r@ == "arknights.exe"@,
{
    String::from_str("arknights.exe")
}

/// The window title matched when the configuration gives none.
pub fn default_title() -> (r: String)
    ensures
        r@ == "\u{660e}\u{65e5}\u{65b9}\u{821f}"@,
{
    String::from_str("\u{660e}\u{65e5}\u{65b9}\u{821f}")
}

/// Whether the replacement is on when the configuration does not say.
pub fn default_true() -> (r: bool)
    ensures
        r,
{
    true
}

impl Default for Settings {
    fn default() -> (s: Settings)
        ensures
            s.process@ == "arknights.exe"@,
            s.window_title@ == "\u{660e}\u{65e5}\u{65b9}\u{821f}"@,
            s.cursor_path@ == Seq::<char>::empty(),
            s.enabled,
            s.profiles@ == Map::<Seq<char>, Profile>::empty(),
    {
        Settings {
            process: default_process(),
            window_title: default_title(),
            cursor_path: String::new(),
            enabled: true,
            profiles: ProfileMap::new(),
        }
    }
}

/// Backslash in place of every forward slash.
pub open spec fn backslashed(s: Seq<char>) -> Seq<char> {
    s.map_values(|c: char| if c == '/' { '\\' } else { c })
}

/// The key under which a cursor file's profile is stored: the path
/// lowercased, with forward slashes turned into backslashes.
pub open spec fn normalized(s: Seq<char>) -> Seq<char> {
    backslashed(lowercase_of(s))
}

/// The whole path, lowercased, with every '/' turned into a backslash: as long as
/// the lowercased path, character for character.
pub fn normalize_path(s: &str) -> (r: String)
    ensures
        r@ == normalized(s@),
        r@.len() == lowercase_of(s@).len(),
        forall|i: int|
            0 <= i < r@.len() ==> #[trigger] r@[i] == (if lowercase_of(s@)[i] == '/' {
                '\\'
            } else {
                lowercase_of(s@)[i]
            }),
{
    let lower = to_lowercase(s);
    let l = lower.as_str();
    let n = l.unicode_len();
    let mut r = String::new();
    let mut i: usize = 0;
    while i < n
        invariant
            n == l@.len(),
            l@ == lowercase_of(s@),
            i <= n,
            r@ =~= backslashed(l@.subrange(0, i as int)),
        decreases n - i,
    {
        let c = l.get_char(i);
        if c == '/' {
            push_char(&mut r, '\\');
        } else {
            push_char(&mut r, c);
        }
        i = i + 1;
        assert(r@ =~= backslashed(l@.subrange(0, i as int)));
    }
    assert(l@.subrange(0, n as int) =~= l@);
    assert(r@ == backslashed(l@));
    r
}

/// The profile that a cursor path gets from a profile map.
pub open spec fn profile_for(profiles: Map<Seq<char>, Profile>, path: Seq<char>) -> Profile {
    let k = normalized(path);
    if profiles.contains_key(k) {
        profiles[k]
    } else {
        fallback_profile()
    }
}

impl Settings {
    /// The profile in force: the one stored for the active cursor file, or
    /// size 48 following the monitor rate when there is none.
    pub open spec fn current_profile(self) -> Profile {
        profile_for(self.profiles@, self.cursor_path@)
    }

    /// Profile for the active cursor file (defaults if absent).
    pub fn active_profile(&self) -> (p: Profile)
        ensures
            p == self.current_profile(),
    {
        let key = normalize_path(self.cursor_path.as_str());
        match self.profiles.get(key.as_str()) {
            Some(p) => p,
            None => Profile { size: 48, update_rate: 0 },
        }
    }

    /// Stores `p` as the profile of the active cursor file; does nothing when
    /// no cursor file is chosen.
    pub fn set_active_profile(&mut self, p: Profile)
        ensures
            old(self).cursor_path@.len() == 0 ==> *final(self) == *old(self),
            old(self).cursor_path@.len() > 0 ==> final(self).profiles@ == old(self).profiles@.insert(
                normalized(old(self).cursor_path@),
                p,
            ),
            final(self).process == old(self).process,
            final(self).window_title == old(self).window_title,
            final(self).cursor_path == old(self).cursor_path,
            final(self).enabled == old(self).enabled,
    {
        if self.cursor_path.as_str().is_empty() {
            return;
        }
        let key = normalize_path(self.cursor_path.as_str());
        self.profiles.insert(key, p);
    }
}


/// The update rate to stage when "follow the monitor rate" is switched: 0
/// (follow) when switched on, else the monitor's rate but at least 60.
pub fn rate_for_follow_toggle(follow_screen: bool, screen_rate: u32) -> (r: u32)
    ensures
        r == (if follow_screen {
            0
        } else if screen_rate >= 60 {
            screen_rate
        } else {
            60
        }),
        !follow_screen ==> r >= 30,
{
    if follow_screen {
        0
    } else if screen_rate >= 60 {
        screen_rate
    } else {
        60
    }
}

/// A profile follows the monitor refresh rate when its own rate is under 30.
pub fn follows_screen(p: &Profile) -> (r: bool)
    ensures
        r == (p.update_rate < 30),
{
    p.update_rate < 30
}

/// What is stored for a cursor file is what that file gets back: after
/// `set_active_profile(p)` with a cursor file chosen, `active_profile()` is `p`.
pub proof fn law_profile_reads_back(before: Settings, after: Settings, p: Profile)
    requires
        before.cursor_path@.len() > 0,
        after.cursor_path == before.cursor_path,
        after.profiles@ == before.profiles@.insert(normalized(before.cursor_path@), p),
    ensures
        after.current_profile() == p,
{
}

/// Profiles are remembered per cursor file: storing one for a file leaves
/// what every other file (other normalized path) gets unchanged.
pub proof fn law_profiles_per_file(
    profiles: Map<Seq<char>, Profile>,
    path: Seq<char>,
    other: Seq<char>,
    p: Profile,
)
    requires
        normalized(other) != normalized(path),
    ensures
        profile_for(profiles.insert(normalized(path), p), other) == profile_for(profiles, other),
{
}

/// Switching the cursor file switches the whole configuration: store `p` for
/// one file and `q` for another, and each file gets back its own profile.
pub proof fn law_switching_files(
    profiles: Map<Seq<char>, Profile>,
    a: Seq<char>,
    b: Seq<char>,
    p: Profile,
    q: Profile,
)
    requires
        normalized(a) != normalized(b),
    ensures
        profile_for(profiles.insert(normalized(a), p).insert(normalized(b), q), a) == p,
        profile_for(profiles.insert(normalized(a), p).insert(normalized(b), q), b) == q,
{
}

/// The key of a cursor file is its whole path, lowercased, with each '/'
/// read as a backslash: as long as the lowercased path, character for
/// character.
pub proof fn law_normalized_whole_path(s: Seq<char>)
    ensures
        normalized(s).len() == lowercase_of(s).len(),
        forall|i: int|
            0 <= i < normalized(s).len() ==> #[trigger] normalized(s)[i] == (if lowercase_of(s)[i]
                == '/' {
                '\\'
            } else {
                lowercase_of(s)[i]
            }),
{
}

/// Each cursor file keeps its own profile: for two paths that differ once
/// lowercased and with '/' read as a backslash (at any position, however long the
/// paths), storing a profile for one leaves what the other gets unchanged.
pub proof fn law_distinct_paths_distinct_profiles(
    profiles: Map<Seq<char>, Profile>,
    path: Seq<char>,
    other: Seq<char>,
    p: Profile,
)
    requires
        backslashed(lowercase_of(path)) != backslashed(lowercase_of(other)),
    ensures
        normalized(path) != normalized(other),
        normalized(path).len() == lowercase_of(path).len(),
        profile_for(profiles.insert(normalized(path), p), other) == profile_for(profiles, other),
        profile_for(profiles.insert(normalized(path), p), path) == p,
{
}

/// A file without a stored profile renders at 48 px and follows the monitor.
pub proof fn law_unknown_file_default(profiles: Map<Seq<char>, Profile>, path: Seq<char>)
    requires
        !profiles.contains_key(normalized(path)),
    ensures
        profile_for(profiles, path) == (Profile { size: 48, update_rate: 0 }),
        profile_for(profiles, path).rate_on(144) == 144,
{
}

/// The rate a profile asks for is never under 30 Hz; a profile rate of at
/// least 30 is used as it is, a lower one follows the monitor (at least 60).
pub proof fn law_effective_rate(p: Profile, screen_rate: u32)
    ensures
        p.rate_on(screen_rate) >= 30,
        p.update_rate >= 30 ==> p.rate_on(screen_rate) == p.update_rate,
        p.update_rate < 30 ==> p.rate_on(screen_rate) >= 60 && p.rate_on(screen_rate) >= screen_rate,
{
}

} // verus!
