//! Application configuration and the rules that turn configured avatar
//! references into browser-fetchable URLs.

use vstd::prelude::*;

use crate::text::{
    ascii_lower, chars_of, decimal, equals_char, is_prefix, is_whitespace, lemma_leading_count_bounds,
    lemma_trim_is_trimmed, lemma_trim_of_trimmed, lower_char, occurs_at, push_all, slice, string_of,
    to_ascii_lower, trailing_count, trim, trim_end_char, trim_end_char_exec, trim_exec,
    trim_start_char, trim_start_char_exec, u64_decimal,
};

verus! {

/// Configuration copied into a standalone release on first run when no
/// implicit `config.toml` is available.
pub const DEFAULT_CONFIG: &'static str = r#"# Discord Overlay Proxy configuration.
# Saving this file hot-reloads every open /overlay (except assets.dir).

[server]
host = "127.0.0.1"
port = 3000

[streamkit]
# Discord Streamkit voice overlay URL (https://streamkit.discord.com/overlay).
url = "https://streamkit.discord.com/overlay/voice/000000000000000000/000000000000000000"

[assets]
# Local image folder, served at http://127.0.0.1:3000/assets/
dir = "assets"

# One table per Discord user ID (Developer Mode -> right-click -> Copy User ID).
# `order` sets the position in the overlay, left to right (default 0).
#
# [users.123456789012345678]
# order = 1
# idle_url = "alice-idle.png"
# speaking_url = "alice-speaking.png"
"#;

/// Idle and speaking avatar image paths/URLs for a single Discord user, and
/// the position of that user in the rendered voice list.
///
/// Each URL field may be:
/// - a remote URL: `https://cdn.example/idle.png`
/// - a local file under the assets dir: `alice-idle.png` or `assets/alice-idle.png`
///
/// Local paths are rewritten to absolute `http://host:port/assets/...` URLs at load time
/// so they still work after a `<base href>` points elsewhere.
#[derive(Debug, Clone)]
pub struct AvatarOverride {
    pub idle_url: String,
    pub speaking_url: String,
    /// Rendered position, left to right; lower values appear first.
    pub order: i64,
}

/// The mathematical content of an [`AvatarOverride`].
pub struct AvatarView {
    pub idle_url: Seq<char>,
    pub speaking_url: Seq<char>,
    pub order: i64,
}

impl View for AvatarOverride {
    type V = AvatarView;

    open spec fn view(&self) -> AvatarView {
        AvatarView { idle_url: self.idle_url@, speaking_url: self.speaking_url@, order: self.order }
    }
}

/// Discord user ID → avatar override mapping.
///
/// Each user ID occurs at most once.
#[derive(Debug)]
pub struct UserMap {
    entries: Vec<(String, AvatarOverride)>,
}

impl UserMap {
    #[verifier::type_invariant]
    closed spec fn ids_distinct(&self) -> bool {
        forall|i: int, j: int|
            0 <= i < j < self.entries@.len() ==> #[trigger] self.entries@[i].0@
                != #[trigger] self.entries@[j].0@
    }

    /// The stored (user ID, avatar) pairs, in storage order.
    spec fn entry_views(&self) -> Seq<(Seq<char>, AvatarView)> {
        self.entries@.map_values(|e: (String, AvatarOverride)| (e.0@, e.1@))
    }

    /// Whether `k` is stored at position `i`.
    spec fn stored_at(&self, k: Seq<char>, i: int) -> bool {
        0 <= i < self.entries@.len() && self.entries@[i].0@ == k
    }

    /// The map from user ID to avatar.
    pub closed spec fn view(&self) -> Map<Seq<char>, AvatarView> {
        Map::new(
            |k: Seq<char>| exists|i: int| self.stored_at(k, i),
            |k: Seq<char>| self.entries@[choose|i: int| self.stored_at(k, i)].1@,
        )
    }

    proof fn lemma_view_at(&self, i: int)
        requires
            self.ids_distinct(),
            0 <= i < self.entries@.len(),
        ensures
            self@.contains_key(self.entries@[i].0@),
            self@[self.entries@[i].0@] == self.entries@[i].1@,
    {
        let k = self.entries@[i].0@;
        assert(self.stored_at(k, i));
        let j = choose|j: int| self.stored_at(k, j);
        if j != i {
            if j < i {
                assert(self.entries@[j].0@ != self.entries@[i].0@);
            } else {
                assert(self.entries@[i].0@ != self.entries@[j].0@);
            }
        }
    }

    /// Every stored pair lists the map exactly once.
    proof fn lemma_entries_list_view(&self)
        requires
            self.ids_distinct(),
        ensures
            lists_exactly(self.entry_views(), self@),
            keys_distinct(self.entry_views()),
    {
        assert forall|i: int| 0 <= i < self.entry_views().len() implies self@.contains_key(
            #[trigger] self.entry_views()[i].0,
        ) && self@[self.entry_views()[i].0] == self.entry_views()[i].1 by {
            self.lemma_view_at(i);
        }
        assert forall|k: Seq<char>| self@.contains_key(k) implies exists|i: int|
            0 <= i < self.entry_views().len() && #[trigger] self.entry_views()[i].0 == k by {
            let i = choose|i: int| self.stored_at(k, i);
            assert(self.entry_views()[i].0 == k);
        }
        assert forall|i: int, j: int|
            0 <= i < j < self.entry_views().len() implies #[trigger] self.entry_views()[i].0
            != #[trigger] self.entry_views()[j].0 by {
            assert(self.entries@[i].0@ != self.entries@[j].0@);
        }
    }

    /// The stored (user ID, avatar) pairs, in storage order.
    pub fn listing(&self) -> (r: &Vec<(String, AvatarOverride)>)
        ensures
            lists_exactly(pair_views(r@), self@),
            keys_distinct(pair_views(r@)),
    {
        proof {
            use_type_invariant(self);
            self.lemma_entries_list_view();
            assert(pair_views(self.entries@) =~= self.entry_views());
        }
        &self.entries
    }

    /// Rewrites both avatar references of every user with `resolve_asset_ref`.
    fn resolve_urls(&mut self, base: &str)
        ensures
            final(self)@ == old(self)@.map_values(|a: AvatarView| resolved_avatar(a, base@)),
    {
        proof {
            use_type_invariant(&*self);
        }
        let ghost before = *self;
        let mut entries: Vec<(String, AvatarOverride)> = Vec::new();
        std::mem::swap(&mut entries, &mut self.entries);
        let mut out: Vec<(String, AvatarOverride)> = Vec::new();
        let mut i: usize = 0;
        while i < entries.len()
            invariant
                entries@ == before.entries@,
                i <= entries.len(),
                out@.len() == i,
                forall|j: int| 0 <= j < i ==> (#[trigger] out@[j]).0@ == entries@[j].0@
                    && out@[j].1@ == resolved_avatar(entries@[j].1@, base@),
            decreases entries.len() - i,
        {
            let id = entries[i].0.clone();
            let a = &entries[i].1;
            let avatar = AvatarOverride {
                idle_url: resolve_asset_ref(a.idle_url.as_str(), base),
                speaking_url: resolve_asset_ref(a.speaking_url.as_str(), base),
                order: a.order,
            };
            out.push((id, avatar));
            i = i + 1;
        }
        let ghost after = UserMap { entries: out };
        proof {
            assert forall|a: int, b: int|
                0 <= a < b < out@.len() implies #[trigger] out@[a].0@ != #[trigger] out@[b].0@ by {
                assert(before.entries@[a].0@ != before.entries@[b].0@);
            }
            assert(after.ids_distinct());
            let target = before@.map_values(|a: AvatarView| resolved_avatar(a, base@));
            assert forall|k: Seq<char>| after@.contains_key(k) implies #[trigger] before@.contains_key(k) by {
                let j = choose|j: int| after.stored_at(k, j);
                assert(before.stored_at(k, j));
            }
            assert forall|k: Seq<char>| before@.contains_key(k) implies #[trigger] after@.contains_key(k) by {
                let j = choose|j: int| before.stored_at(k, j);
                assert(after.stored_at(k, j));
            }
            assert forall|k: Seq<char>| #[trigger] after@.contains_key(k) implies after@[k] == target[k] by {
                let j = choose|j: int| after.stored_at(k, j);
                after.lemma_view_at(j);
                before.lemma_view_at(j);
            }
            assert(after@ =~= target);
        }
        self.entries = out;
        assert(self@ =~= after@);
    }

    /// An empty map.
    pub fn new() -> (m: Self)
        ensures
            m@ == Map::<Seq<char>, AvatarView>::empty(),
    {
        let m = UserMap { entries: Vec::new() };
        assert(m@ =~= Map::<Seq<char>, AvatarView>::empty());
        m
    }

    /// Number of users.
    pub fn len(&self) -> (n: usize)
        ensures
            self@.dom().finite(),
            n == self@.dom().len(),
    {
        proof {
            use_type_invariant(self);
            self.lemma_len();
        }
        self.entries.len()
    }

    proof fn lemma_len(&self)
        requires
            self.ids_distinct(),
        ensures
            self@.dom().finite(),
            self@.dom().len() == self.entries@.len(),
    {
        let keys = self.entry_views().map_values(|e: (Seq<char>, AvatarView)| e.0);
        self.lemma_entries_list_view();
        assert(self@.dom() =~= keys.to_set()) by {
            assert forall|k: Seq<char>| self@.dom().contains(k) implies keys.to_set().contains(k) by {
                let i = choose|i: int| 0 <= i < self.entry_views().len() && #[trigger] self.entry_views()[i].0 == k;
                assert(keys[i] == k);
            }
            assert forall|k: Seq<char>| keys.to_set().contains(k) implies self@.dom().contains(k) by {
                let i = choose|i: int| 0 <= i < keys.len() && keys[i] == k;
                assert(self.entry_views()[i].0 == k);
            }
        }
        assert(keys.no_duplicates()) by {
            assert forall|i: int, j: int| 0 <= i < keys.len() && 0 <= j < keys.len() && i != j implies keys[i] != keys[j] by {
                if i < j {
                    assert(self.entry_views()[i].0 != self.entry_views()[j].0);
                } else {
                    assert(self.entry_views()[j].0 != self.entry_views()[i].0);
                }
            }
        }
        keys.unique_seq_to_set();
    }

    /// Avatar stored for `user_id`, if any.
    pub fn get(&self, user_id: &str) -> (r: Option<&AvatarOverride>)
        ensures
            r is Some <==> self@.contains_key(user_id@),
            r matches Some(a) ==> a@ == self@[user_id@],
    {
        proof {
            use_type_invariant(self);
        }
        let key = String::from_str(user_id);
        let mut i: usize = 0;
        while i < self.entries.len()
            invariant
                self.ids_distinct(),
                key@ == user_id@,
                i <= self.entries@.len(),
                forall|j: int| 0 <= j < i ==> self.entries@[j].0@ != user_id@,
            decreases self.entries.len() - i,
        {
            if self.entries[i].0 == key {
                proof {
                    self.lemma_view_at(i as int);
                }
                return Some(&self.entries[i].1);
            }
            i = i + 1;
        }
        None
    }

    /// Stores `avatar` for `user_id`, returning the avatar it replaces.
    pub fn insert(&mut self, user_id: String, avatar: AvatarOverride) -> (r: Option<AvatarOverride>)
        ensures
            final(self)@ == old(self)@.insert(user_id@, avatar@),
            r is Some <==> old(self)@.contains_key(user_id@),
            r matches Some(a) ==> a@ == old(self)@[user_id@],
    {
        proof {
            use_type_invariant(&*self);
        }
        let ghost before = *self;
        let mut entries: Vec<(String, AvatarOverride)> = Vec::new();
        std::mem::swap(&mut entries, &mut self.entries);
        let mut i: usize = 0;
        while i < entries.len()
            invariant
                before.ids_distinct(),
                *old(self) == before,
                entries@ == before.entries@,
                i <= entries@.len(),
                forall|j: int| 0 <= j < i ==> entries@[j].0@ != user_id@,
            decreases entries.len() - i,
        {
            if entries[i].0 == user_id {
                proof {
                    before.lemma_view_at(i as int);
                }
                let old_entry = entries.remove(i);
                entries.insert(i, (user_id, avatar));
                let ghost after = UserMap { entries };
                proof {
                    assert(entries@ =~= before.entries@.update(i as int, (user_id, avatar)));
                    after.lemma_after_update(before, i as int);
                }
                self.entries = entries;
                assert(self.entries@ == after.entries@);
                assert(self@ =~= after@);
                return Some(old_entry.1);
            }
            i = i + 1;
        }
        entries.push((user_id, avatar));
        let ghost after = UserMap { entries };
        proof {
            assert(after.entries@.drop_last() =~= before.entries@);
            after.lemma_after_push(before);
        }
        self.entries = entries;
        assert(self@ =~= after@);
        None
    }

    proof fn lemma_after_update(&self, before: Self, i: int)
        requires
            before.ids_distinct(),
            0 <= i < before.entries@.len(),
            self.entries@ == before.entries@.update(i, self.entries@[i]),
            self.entries@[i].0@ == before.entries@[i].0@,
        ensures
            self.ids_distinct(),
            self@ == before@.insert(self.entries@[i].0@, self.entries@[i].1@),
    {
        assert forall|a: int, b: int|
            0 <= a < b < self.entries@.len() implies #[trigger] self.entries@[a].0@
            != #[trigger] self.entries@[b].0@ by {
            assert(before.entries@[a].0@ != before.entries@[b].0@);
        }
        let k = self.entries@[i].0@;
        assert forall|key: Seq<char>| self@.contains_key(key) implies #[trigger] before@.contains_key(key) by {
            let j = choose|j: int| self.stored_at(key, j);
            assert(before.stored_at(key, j));
        }
        assert forall|key: Seq<char>| before@.contains_key(key) implies #[trigger] self@.contains_key(key) by {
            let j = choose|j: int| before.stored_at(key, j);
            assert(self.stored_at(key, j));
        }
        assert(before@.contains_key(k)) by {
            before.lemma_view_at(i);
        }
        assert forall|key: Seq<char>| #[trigger] self@.contains_key(key) implies self@[key] == before@.insert(k, self.entries@[i].1@)[key] by {
            let j = choose|j: int| self.stored_at(key, j);
            self.lemma_view_at(j);
            if key != k {
                before.lemma_view_at(j);
            }
        }
        assert(self@ =~= before@.insert(k, self.entries@[i].1@));
    }

    proof fn lemma_after_push(&self, before: Self)
        requires
            before.ids_distinct(),
            forall|j: int| 0 <= j < before.entries@.len() ==> before.entries@[j].0@ != self.entries@.last().0@,
            self.entries@.len() == before.entries@.len() + 1,
            self.entries@.drop_last() == before.entries@,
        ensures
            self.ids_distinct(),
            self@ == before@.insert(self.entries@.last().0@, self.entries@.last().1@),
    {
        let n = before.entries@.len() as int;
        let k = self.entries@[n].0@;
        assert forall|j: int| 0 <= j < n implies #[trigger] self.entries@[j] == before.entries@[j] by {
            assert(self.entries@.drop_last()[j] == self.entries@[j]);
        }
        assert forall|a: int, b: int|
            0 <= a < b < self.entries@.len() implies #[trigger] self.entries@[a].0@
            != #[trigger] self.entries@[b].0@ by {
            if b < n {
                assert(before.entries@[a].0@ != before.entries@[b].0@);
            }
        }
        assert forall|key: Seq<char>| self@.contains_key(key) && key != k implies #[trigger] before@.contains_key(key) by {
            let j = choose|j: int| self.stored_at(key, j);
            assert(before.stored_at(key, j));
        }
        assert forall|key: Seq<char>| before@.contains_key(key) implies #[trigger] self@.contains_key(key) by {
            let j = choose|j: int| before.stored_at(key, j);
            assert(self.stored_at(key, j));
        }
        assert(self.stored_at(k, n));
        assert forall|key: Seq<char>| #[trigger] self@.contains_key(key) implies self@[key] == before@.insert(k, self.entries@[n].1@)[key] by {
            let j = choose|j: int| self.stored_at(key, j);
            self.lemma_view_at(j);
            if key != k {
                before.lemma_view_at(j);
            }
        }
        assert(self@ =~= before@.insert(k, self.entries@[n].1@));
    }
}

/// `a` with both of its references rewritten by `resolve_asset_ref`.
pub open spec fn resolved_avatar(a: AvatarView, base: Seq<char>) -> AvatarView {
    AvatarView {
        idle_url: resolve_asset_ref_spec(a.idle_url, base),
        speaking_url: resolve_asset_ref_spec(a.speaking_url, base),
        order: a.order,
    }
}

/// The (user ID, avatar) views of stored pairs.
pub open spec fn pair_views(v: Seq<(String, AvatarOverride)>) -> Seq<(Seq<char>, AvatarView)> {
    v.map_values(|e: (String, AvatarOverride)| (e.0@, e.1@))
}

impl Clone for UserMap {
    /// A copy holding the same users.
    fn clone(&self) -> (r: Self)
        ensures
            r@ == self@,
    {
        proof {
            use_type_invariant(self);
        }
        let mut entries: Vec<(String, AvatarOverride)> = Vec::new();
        let mut i: usize = 0;
        while i < self.entries.len()
            invariant
                self.ids_distinct(),
                i <= self.entries.len(),
                entries@.len() == i,
                forall|j: int| 0 <= j < i ==> (#[trigger] entries@[j]).0@ == self.entries@[j].0@
                    && entries@[j].1@ == self.entries@[j].1@,
            decreases self.entries.len() - i,
        {
            let (id, a) = &self.entries[i];
            let avatar = AvatarOverride {
                idle_url: a.idle_url.clone(),
                speaking_url: a.speaking_url.clone(),
                order: a.order,
            };
            entries.push((id.clone(), avatar));
            i = i + 1;
        }
        let ghost copy = UserMap { entries };
        proof {
            assert forall|a: int, b: int|
                0 <= a < b < entries@.len() implies #[trigger] entries@[a].0@ != #[trigger] entries@[b].0@ by {
                assert(self.entries@[a].0@ != self.entries@[b].0@);
            }
            assert forall|k: Seq<char>| copy@.contains_key(k) implies #[trigger] self@.contains_key(k) by {
                let j = choose|j: int| copy.stored_at(k, j);
                assert(self.stored_at(k, j));
            }
            assert forall|k: Seq<char>| self@.contains_key(k) implies #[trigger] copy@.contains_key(k) by {
                let j = choose|j: int| self.stored_at(k, j);
                assert(copy.stored_at(k, j));
            }
            assert forall|k: Seq<char>| #[trigger] copy@.contains_key(k) implies copy@[k] == self@[k] by {
                let j = choose|j: int| copy.stored_at(k, j);
                copy.lemma_view_at(j);
                self.lemma_view_at(j);
            }
            assert(copy@ =~= self@);
        }
        UserMap { entries }
    }
}

/// `s` lists exactly the pairs of `m`: every element is a pair of `m`, and
/// every key of `m` occurs in it.
pub open spec fn lists_exactly(s: Seq<(Seq<char>, AvatarView)>, m: Map<Seq<char>, AvatarView>) -> bool {
    &&& forall|i: int| 0 <= i < s.len() ==> m.contains_key(#[trigger] s[i].0) && m[s[i].0] == s[i].1
    &&& forall|k: Seq<char>| m.contains_key(k) ==> exists|i: int| 0 <= i < s.len() && #[trigger] s[i].0 == k
}

/// No user ID occurs twice in `s`.
pub open spec fn keys_distinct(s: Seq<(Seq<char>, AvatarView)>) -> bool {
    forall|i: int, j: int| 0 <= i < j < s.len() ==> #[trigger] s[i].0 != #[trigger] s[j].0
}

/// Top-level application configuration loaded from `config.toml`.
#[derive(Debug, Clone)]
pub struct Config {
    pub server: ServerConfig,
    pub streamkit: StreamkitConfig,
    pub assets: AssetsConfig,
    /// Keys are Discord snowflake user IDs as strings.
    pub users: UserMap,
}

#[derive(Debug, Clone)]
pub struct ServerConfig {
    /// Bind address, e.g. `127.0.0.1`.
    pub host: String,
    /// Listen port, e.g. `3000`.
    pub port: u16,
}

#[derive(Debug, Clone)]
pub struct StreamkitConfig {
    /// Default Discord Streamkit overlay URL.
    /// Can be overridden per-request with `?target=...`.
    pub url: String,
}

/// Local image directory served at `/assets/*`.
#[derive(Debug, Clone)]
pub struct AssetsConfig {
    /// Folder on disk (relative to CWD or absolute). Default: `assets`.
    pub dir: String,
}

impl Default for AssetsConfig {
    fn default() -> (r: Self)
        ensures
            r.dir@ == "assets"@,
    {
        AssetsConfig { dir: default_assets_dir() }
    }
}

/// Bind host used when `[server].host` is omitted.
pub fn default_host() -> (r: String)
    ensures
        r@ == "127.0.0.1"@,
{
    String::from_str("127.0.0.1")
}

/// Port used when `[server].port` is omitted.
pub fn default_port() -> (r: u16)
    ensures
        r == 3000,
{
    3000
}

/// Assets folder used when `[assets].dir` is omitted.
pub fn default_assets_dir() -> (r: String)
    ensures
        r@ == "assets"@,
{
    String::from_str("assets")
}

/// `host:port` of the server.
pub open spec fn bind_addr_spec(server: ServerConfig) -> Seq<char> {
    server.host@ + ":"@ + decimal(server.port as nat)
}

/// `http://host:port`, the public origin of the server.
pub open spec fn public_base_url_spec(server: ServerConfig) -> Seq<char> {
    "http://"@ + server.host@ + ":"@ + decimal(server.port as nat)
}

impl Config {
    /// `host:port` to bind the listener to.
    pub fn bind_addr(&self) -> (r: String)
        ensures
            r@ == bind_addr_spec(self.server),
    {
        let mut out = chars_of(self.server.host.as_str());
        push_all(&mut out, &chars_of(":"));
        push_all(&mut out, &u64_decimal(self.server.port as u64));
        string_of(&out)
    }

    /// Public origin used in generated CSS for local files.
    pub fn public_base_url(&self) -> (r: String)
        ensures
            r@ == public_base_url_spec(self.server),
    {
        let mut out = chars_of("http://");
        push_all(&mut out, &chars_of(self.server.host.as_str()));
        push_all(&mut out, &chars_of(":"));
        push_all(&mut out, &u64_decimal(self.server.port as u64));
        string_of(&out)
    }

    /// Rewrite non-URL avatar paths to `http://host:port/assets/<file>`.
    pub fn resolve_local_assets(&mut self)
        ensures
            final(self).server == old(self).server,
            final(self).streamkit == old(self).streamkit,
            final(self).assets == old(self).assets,
            final(self).users@ == old(self).users@.map_values(
                |a: AvatarView| resolved_avatar(a, public_base_url_spec(old(self).server)),
            ),
    {
        let base = self.public_base_url();
        self.users.resolve_urls(base.as_str());
    }
}

/// `s` with its leading `./` segments removed.
pub open spec fn strip_dot_slashes(s: Seq<char>) -> Seq<char>
    decreases s.len(),
{
    if s.len() >= 2 && is_prefix("./"@, s) {
        strip_dot_slashes(s.skip(2))
    } else {
        s
    }
}

/// `s` with every backslash turned into a slash.
pub open spec fn forward_slashes(s: Seq<char>) -> Seq<char> {
    s.map_values(|c: char| if c == '\\' { '/' } else { c })
}

/// A configured local path made relative to the assets mount: backslashes
/// become slashes, then leading `./` segments, leading `/` and an optional
/// `assets/` prefix are stripped.
pub open spec fn normalize_local_asset_path_spec(path: Seq<char>) -> Seq<char> {
    let p = trim_start_char(strip_dot_slashes(forward_slashes(path)), '/');
    if is_prefix("assets/"@, p) {
        p.skip("assets/"@.len() as int)
    } else {
        p
    }
}

/// Remote, data and blob URLs, compared without regard to ASCII case.
pub open spec fn is_absolute_url_spec(s: Seq<char>) -> bool {
    let lower = ascii_lower(s);
    ||| is_prefix("http://"@, lower)
    ||| is_prefix("https://"@, lower)
    ||| is_prefix("data:"@, lower)
    ||| is_prefix("blob:"@, lower)
}

/// A config image reference as a browser-fetchable absolute URL: trimmed,
/// and unless it is empty or already absolute, placed under
/// `<public base>/assets/`.
pub open spec fn resolve_asset_ref_spec(raw: Seq<char>, public_base: Seq<char>) -> Seq<char> {
    let trimmed = trim(raw);
    if trimmed.len() == 0 || is_absolute_url_spec(trimmed) {
        trimmed
    } else {
        trim_end_char(public_base, '/') + "/assets/"@ + normalize_local_asset_path_spec(trimmed)
    }
}

/// Remote, data and blob URLs are left as they are (only trimmed).
pub proof fn law_remote_urls_unchanged(raw: Seq<char>, public_base: Seq<char>)
    requires
        is_absolute_url_spec(trim(raw)),
    ensures
        resolve_asset_ref_spec(raw, public_base) == trim(raw),
{
}

/// Every other non-empty reference becomes a URL under the server's own
/// `/assets/` mount: `http://host:port/assets/<path relative to the mount>`.
pub proof fn law_local_refs_served_from_assets_mount(raw: Seq<char>, server: ServerConfig)
    requires
        trim(raw).len() > 0,
        !is_absolute_url_spec(trim(raw)),
    ensures
        resolve_asset_ref_spec(raw, public_base_url_spec(server)) == public_base_url_spec(server)
            + "/assets/"@ + normalize_local_asset_path_spec(trim(raw)),
{
    let base = public_base_url_spec(server);
    lemma_decimal_ends_in_digit(server.port as nat);
    let d = decimal(server.port as nat);
    assert(base.last() == d.last());
    assert(trailing_count(base, equals_char('/')) == 0);
    assert(base.take(base.len() as int) =~= base);
}

/// `resolve_local_assets` rewrites both references of every user, and
/// keeps the order: each of the idle and the speaking reference is trimmed,
/// and unless it is then empty or an absolute URL it is served from the
/// server's own `/assets/` mount, `http://host:port/assets/<path>`.
pub proof fn law_resolve_local_assets_rewrites_both_references(
    users: Map<Seq<char>, AvatarView>,
    server: ServerConfig,
    k: Seq<char>,
)
    requires
        users.contains_key(k),
    ensures
        ({
            let base = public_base_url_spec(server);
            let r = users.map_values(|a: AvatarView| resolved_avatar(a, base))[k];
            let idle = trim(users[k].idle_url);
            let speaking = trim(users[k].speaking_url);
            &&& r.order == users[k].order
            &&& (idle.len() == 0 || is_absolute_url_spec(idle)) ==> r.idle_url == idle
            &&& (idle.len() > 0 && !is_absolute_url_spec(idle)) ==> r.idle_url == base + "/assets/"@
                + normalize_local_asset_path_spec(idle)
            &&& (speaking.len() == 0 || is_absolute_url_spec(speaking)) ==> r.speaking_url == speaking
            &&& (speaking.len() > 0 && !is_absolute_url_spec(speaking)) ==> r.speaking_url == base
                + "/assets/"@ + normalize_local_asset_path_spec(speaking)
        }),
{
    let a = users[k];
    if trim(a.idle_url).len() > 0 && !is_absolute_url_spec(trim(a.idle_url)) {
        law_local_refs_served_from_assets_mount(a.idle_url, server);
    }
    if trim(a.speaking_url).len() > 0 && !is_absolute_url_spec(trim(a.speaking_url)) {
        law_local_refs_served_from_assets_mount(a.speaking_url, server);
    }
}

/// Resolving a reference that is already resolved changes nothing, for a
/// public base that is itself an absolute URL (once its trailing slashes
/// are dropped), as every `http://host:port` base is.
pub proof fn law_resolve_asset_ref_idempotent(raw: Seq<char>, public_base: Seq<char>)
    requires
        is_absolute_url_spec(trim_end_char(public_base, '/')),
    ensures
        resolve_asset_ref_spec(resolve_asset_ref_spec(raw, public_base), public_base)
            == resolve_asset_ref_spec(raw, public_base),
{
    let trimmed = trim(raw);
    lemma_trim_is_trimmed(raw);
    if trimmed.len() == 0 || is_absolute_url_spec(trimmed) {
    } else {
        let b = trim_end_char(public_base, '/');
        let n = normalize_local_asset_path_spec(trimmed);
        let r = b + "/assets/"@ + n;
        assert(resolve_asset_ref_spec(raw, public_base) == r);
        lemma_absolute_url_starts_with_letter(b);
        assert(r[0] == b[0]);
        lemma_normalized_path_keeps_last(trimmed);
        reveal_strlit("/assets/");
        if n.len() > 0 {
            assert(r.last() == n.last());
        } else {
            assert(r.last() == '/');
        }
        lemma_trim_of_trimmed(r);
        lemma_absolute_prefix_extends(b, "/assets/"@ + n);
        assert(r == b + ("/assets/"@ + n));
    }
}

/// An absolute URL starts with a letter, never with whitespace.
proof fn lemma_absolute_url_starts_with_letter(b: Seq<char>)
    requires
        is_absolute_url_spec(b),
    ensures
        b.len() > 0,
        !is_whitespace(b[0]),
{
    reveal_strlit("http://");
    reveal_strlit("https://");
    reveal_strlit("data:");
    reveal_strlit("blob:");
    let lower = ascii_lower(b);
    assert(lower.len() == b.len());
    assert(b.len() > 0);
    assert(lower[0] == lower.subrange(0, 4)[0]);
    assert(lower[0] == lower_char(b[0]));
}

/// An absolute URL followed by anything is still an absolute URL.
proof fn lemma_absolute_prefix_extends(b: Seq<char>, rest: Seq<char>)
    requires
        is_absolute_url_spec(b),
    ensures
        is_absolute_url_spec(b + rest),
{
    let lb = ascii_lower(b);
    let lr = ascii_lower(b + rest);
    assert(lr.subrange(0, b.len() as int) =~= lb);
    assert forall|p: Seq<char>| p.len() <= b.len() && #[trigger] is_prefix(p, lb) implies is_prefix(p, lr) by {
        assert(lr.subrange(0, p.len() as int) =~= lb.subrange(0, p.len() as int));
    }
    reveal_strlit("http://");
    reveal_strlit("https://");
    reveal_strlit("data:");
    reveal_strlit("blob:");
}

/// `strip_dot_slashes` keeps a suffix of its text.
proof fn lemma_strip_dot_slashes_suffix(s: Seq<char>)
    ensures
        strip_dot_slashes(s).len() <= s.len(),
        strip_dot_slashes(s) == s.skip(s.len() - strip_dot_slashes(s).len()),
    decreases s.len(),
{
    if s.len() >= 2 && is_prefix("./"@, s) {
        lemma_strip_dot_slashes_suffix(s.skip(2));
        assert(s.skip(2).skip(s.skip(2).len() - strip_dot_slashes(s.skip(2)).len()) =~= s.skip(
            s.len() - strip_dot_slashes(s).len(),
        ));
    } else {
        assert(s.skip(0) =~= s);
    }
}

/// A non-empty normalized path ends as the text it came from does, with a
/// backslash turned into a slash.
proof fn lemma_normalized_path_keeps_last(t: Seq<char>)
    requires
        t.len() > 0,
        !is_whitespace(t.last()),
    ensures
        normalize_local_asset_path_spec(t).len() > 0 ==> !is_whitespace(
            normalize_local_asset_path_spec(t).last(),
        ),
{
    let f = forward_slashes(t);
    assert(f.last() == if t.last() == '\\' { '/' } else { t.last() });
    let d = strip_dot_slashes(f);
    lemma_strip_dot_slashes_suffix(f);
    lemma_leading_count_bounds(d, equals_char('/'));
    let q = trim_start_char(d, '/');
    let n = normalize_local_asset_path_spec(t);
    if n.len() > 0 {
        assert(q.len() > 0);
        assert(q.last() == d.last());
        assert(d.last() == f.last());
        if is_prefix("assets/"@, q) {
            assert(n.last() == q.last());
        }
    }
}

proof fn lemma_decimal_ends_in_digit(n: nat)
    ensures
        decimal(n).len() > 0,
        '0' <= decimal(n).last() <= '9',
    decreases n,
{
    if n >= 10 {
        lemma_decimal_ends_in_digit(n / 10);
    }
}

/// Turn a config image reference into a browser-fetchable absolute URL.
///
/// Remote / data URLs are left unchanged. Everything else is treated as a file
/// under the served `/assets` mount.
pub fn resolve_asset_ref(raw: &str, public_base: &str) -> (r: String)
    ensures
        r@ == resolve_asset_ref_spec(raw@, public_base@),
{
    let trimmed = trim_exec(&chars_of(raw));
    if trimmed.len() == 0 {
        return string_of(&trimmed);
    }
    if is_absolute_url(&trimmed) {
        return string_of(&trimmed);
    }
    let relative = normalize_local_asset_path(&trimmed);
    let mut out = trim_end_char_exec(&chars_of(public_base), '/');
    push_all(&mut out, &chars_of("/assets/"));
    push_all(&mut out, &relative);
    string_of(&out)
}

/// Remote / data / blob URLs, whatever their ASCII case.
pub fn is_absolute_url(s: &Vec<char>) -> (r: bool)
    ensures
        r == is_absolute_url_spec(s@),
{
    let lower = to_ascii_lower(s);
    assert(lower@.skip(0) =~= lower@);
    occurs_at(&lower, 0, &chars_of("http://")) || occurs_at(&lower, 0, &chars_of("https://"))
        || occurs_at(&lower, 0, &chars_of("data:")) || occurs_at(&lower, 0, &chars_of("blob:"))
}

/// Strip `./`, leading `/`, and an optional `assets/` prefix so the path is
/// relative to the assets directory mount.
pub fn normalize_local_asset_path(path: &Vec<char>) -> (r: Vec<char>)
    ensures
        r@ == normalize_local_asset_path_spec(path@),
{
    proof {
        reveal_strlit("./");
        reveal_strlit("assets/");
    }
    let mut p: Vec<char> = Vec::new();
    let mut i: usize = 0;
    while i < path.len()
        invariant
            i <= path.len(),
            p@ == forward_slashes(path@.take(i as int)),
        decreases path.len() - i,
    {
        let c = path[i];
        p.push(if c == '\\' { '/' } else { c });
        assert(forward_slashes(path@.take(i + 1)) =~= forward_slashes(path@.take(i as int)).push(
            if c == '\\' { '/' } else { c },
        ));
        i = i + 1;
    }
    assert(path@.take(path.len() as int) =~= path@);
    let dot_slash = chars_of("./");
    let mut start: usize = 0;
    assert(p@.skip(0) =~= p@);
    while p.len() - start >= 2 && occurs_at(&p, start, &dot_slash)
        invariant
            start <= p.len(),
            dot_slash@ == "./"@,
            strip_dot_slashes(p@.skip(start as int)) == strip_dot_slashes(forward_slashes(path@)),
        decreases p.len() - start,
    {
        assert(p@.skip(start as int).skip(2) =~= p@.skip(start + 2));
        start = start + 2;
    }
    let rest = slice(&p, start, p.len());
    proof {
        assert(rest@ =~= p@.skip(start as int));
        assert(strip_dot_slashes(rest@) == rest@);
    }
    let q = trim_start_char_exec(&rest, '/');
    let assets = chars_of("assets/");
    if occurs_at(&q, 0, &assets) {
        assert(q@.skip(0) =~= q@);
        slice(&q, 7, q.len())
    } else {
        assert(q@.skip(0) =~= q@);
        q
    }
}

} // verus!
