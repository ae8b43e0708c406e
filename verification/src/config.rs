//! The configuration of the service and how a written grant resolves to a
//! permission.

use vstd::prelude::*;
use crate::grant::PermissionSpec;
use crate::permission::Permission;
use crate::profile::{
    allowed_tokens, distinct_keys, lemma_normalized_flags, normalized_flags, PermissionProfile,
};
use crate::table::{distinct, entry_keys, find_key, first_index, lemma_first_index};
use crate::text::{
    ascii_normal_form, is_ascii_text, is_normal_form, is_plain_token,
    lemma_ascii_normal_form_idempotent, lowercase_of, normal_form, normalize_token, str_eq,
    to_lowercase, trimmed, views,
};

verus! {

/// Where the service listens.
#[derive(Debug, Clone, PartialEq, Eq)]
pub struct ServerConfig {
    pub host: String,
    pub port: u16,
}

/// What the front page shows.
#[derive(Debug, Clone, PartialEq, Eq)]
pub struct MainPageConfig {
    pub title: String,
    pub description: String,
    pub markdown_file: String,
}

/// One user: the stored password, the groups and the way the password was
/// hashed.
#[derive(Debug, Clone, PartialEq, Eq)]
pub struct UserConfig {
    pub password: String,
    pub group: Vec<String>,
    pub hash_algorithm: String,
}

/// One mount: its root, whether anyone may read it, and the grants by group
/// and by user.
#[derive(Debug, Clone, PartialEq, Eq)]
pub struct MountConfig {
    pub path: String,
    pub description: String,
    pub public: bool,
    pub group: Vec<(String, PermissionSpec)>,
    pub user: Vec<(String, PermissionSpec)>,
}

/// The whole configuration. Each table is a list of named entries; a name
/// is looked up by its first entry.
#[derive(Debug, Clone, PartialEq, Eq)]
pub struct Config {
    pub server: ServerConfig,
    pub main_page: MainPageConfig,
    pub users: Vec<(String, UserConfig)>,
    pub mounts: Vec<(String, MountConfig)>,
    pub permissions: Vec<(String, PermissionProfile)>,
}

impl MountConfig {
    /// No group and no user has two grants on the mount, as in a map from
    /// names to grants.
    pub open spec fn names_are_distinct(&self) -> bool {
        distinct(entry_keys(self.group@)) && distinct(entry_keys(self.user@))
    }
}

/// In a table of profiles as plain values no name stands twice, and in no
/// profile an action.
pub open spec fn profiles_are_distinct(table: Seq<(Seq<char>, Seq<(Seq<char>, bool)>)>) -> bool {
    distinct(profile_names(table)) && forall|i: int|
        0 <= i < table.len() ==> distinct_keys((#[trigger] table[i]).1)
}

/// The set that holds `read`.
pub open spec fn read_only() -> Set<Seq<char>> {
    Set::<Seq<char>>::empty().insert("read"@)
}

/// The set that holds `write`.
pub open spec fn write_only() -> Set<Seq<char>> {
    Set::<Seq<char>>::empty().insert("write"@)
}

/// The set that holds `read` and `write`.
pub open spec fn read_write() -> Set<Seq<char>> {
    Set::<Seq<char>>::empty().insert("read"@).insert("write"@)
}

/// The table of profiles as plain values.
pub open spec fn profile_views(table: Seq<(String, PermissionProfile)>) -> Seq<
    (Seq<char>, Seq<(Seq<char>, bool)>),
> {
    Seq::new(table.len(), |i: int| (table[i].0@, table[i].1@))
}

/// The names of a table of plain profiles.
pub open spec fn profile_names(table: Seq<(Seq<char>, Seq<(Seq<char>, bool)>)>) -> Seq<
    Seq<char>,
> {
    Seq::new(table.len(), |i: int| table[i].0)
}

/// The table with `value` under `name`: in the place of the first entry of
/// that name, or at the end where the name is new.
pub open spec fn with_profile(
    table: Seq<(Seq<char>, Seq<(Seq<char>, bool)>)>,
    name: Seq<char>,
    value: Seq<(Seq<char>, bool)>,
) -> Seq<(Seq<char>, Seq<(Seq<char>, bool)>)> {
    match first_index(profile_names(table), name) {
        Some(i) => table.update(i, (name, value)),
        None => table.push((name, value)),
    }
}

/// The table with every name in lower case and every profile normalised; of
/// names that then coincide the later entry takes the place of the earlier.
pub open spec fn normalized_table(table: Seq<(Seq<char>, Seq<(Seq<char>, bool)>)>) -> Seq<
    (Seq<char>, Seq<(Seq<char>, bool)>),
>
    decreases table.len(),
{
    if table.len() == 0 {
        Seq::<(Seq<char>, Seq<(Seq<char>, bool)>)>::empty()
    } else {
        with_profile(
            normalized_table(table.drop_last()),
            lowercase_of(table.last().0),
            normalized_flags(table.last().1),
        )
    }
}

/// The place of the last entry whose name, in lower case, is `key`.
pub open spec fn last_spelling(
    table: Seq<(Seq<char>, Seq<(Seq<char>, bool)>)>,
    key: Seq<char>,
) -> Option<int>
    decreases table.len(),
{
    if table.len() == 0 {
        None
    } else if lowercase_of(table.last().0) == key {
        Some(table.len() - 1)
    } else {
        last_spelling(table.drop_last(), key)
    }
}

impl Default for Config {
    /// One public mount at `./public`, no users and no profiles.
    fn default() -> (r: Config)
        ensures
            r.server.host@ == "127.0.0.1"@,
            r.server.port == 8080,
            r.main_page.title@ == "LunaFinder"@,
            r.main_page.description@ == "Welcome to LunaFinder"@,
            r.main_page.markdown_file@ == "./page.md"@,
            r.users@.len() == 0,
            r.permissions@.len() == 0,
            r.mounts@.len() == 1,
            r.mounts@[0].0@ == "public"@,
            r.mounts@[0].1.path@ == "./public"@,
            r.mounts@[0].1.description@ == "Public files"@,
            r.mounts@[0].1.public,
            r.mounts@[0].1.group@.len() == 0,
            r.mounts@[0].1.user@.len() == 0,
            r.names_are_distinct(),
    {
        let mut mounts: Vec<(String, MountConfig)> = Vec::new();
        mounts.push(
            (
                "public".to_owned(),
                MountConfig {
                    path: "./public".to_owned(),
                    description: "Public files".to_owned(),
                    public: true,
                    group: Vec::new(),
                    user: Vec::new(),
                },
            ),
        );
        Config {
            server: ServerConfig { host: "127.0.0.1".to_owned(), port: 8080 },
            main_page: MainPageConfig {
                title: "LunaFinder".to_owned(),
                description: "Welcome to LunaFinder".to_owned(),
                markdown_file: "./page.md".to_owned(),
            },
            users: Vec::new(),
            mounts,
            permissions: Vec::new(),
        }
    }
}

impl Config {
    /// In each table of the configuration no name stands twice, nor in any
    /// mount or profile: what the maps of a configuration file give by
    /// themselves. Lookups by name then do not depend on the order of the
    /// entries.
    pub open spec fn names_are_distinct(&self) -> bool {
        &&& distinct(entry_keys(self.users@))
        &&& distinct(entry_keys(self.mounts@))
        &&& forall|i: int|
            0 <= i < self.mounts@.len() ==> (#[trigger] self.mounts@[i]).1.names_are_distinct()
        &&& profiles_are_distinct(profile_views(self.permissions@))
    }

    /// What a token in normal form grants: nothing where it is empty, the
    /// shorthands for reading and writing, else what the profile of that
    /// name allows, else the token itself as an action.
    pub open spec fn normal_grant(&self, token: Seq<char>) -> Set<Seq<char>> {
        if token.len() == 0 {
            Set::<Seq<char>>::empty()
        } else if token == "r"@ || token == "read"@ {
            read_only()
        } else if token == "w"@ || token == "write"@ {
            write_only()
        } else if token == "rw"@ || token == "readwrite"@ || token == "read_write"@ {
            read_write()
        } else {
            match first_index(entry_keys(self.permissions@), token) {
                Some(i) => allowed_tokens(self.permissions@[i].1@),
                None => Set::<Seq<char>>::empty().insert(token),
            }
        }
    }

    /// What a token grants as it is written: what its normal form grants.
    pub open spec fn token_grant(&self, token: Seq<char>) -> Set<Seq<char>> {
        self.normal_grant(normal_form(token))
    }

    /// What a list of tokens grants: all that any of them grants.
    pub open spec fn spec_grant(&self, tokens: Seq<Seq<char>>) -> Set<Seq<char>>
        decreases tokens.len(),
    {
        if tokens.len() == 0 {
            Set::<Seq<char>>::empty()
        } else {
            self.spec_grant(tokens.drop_last()).union(self.token_grant(tokens.last()))
        }
    }

    /// Resolves a token that is in normal form already, such as
    /// `normalize_token` returns.
    pub fn resolve_normal_token(&self, token: &str) -> (r: Permission)
        requires
            is_normal_form(token@),
        ensures
            r@ == self.normal_grant(token@),
    {
        proof {
            lemma_builtin_tokens();
        }
        if token.is_empty() {
            return Permission::default();
        }
        if str_eq(token, "r") || str_eq(token, "read") {
            return Permission::single("read");
        }
        if str_eq(token, "w") || str_eq(token, "write") {
            return Permission::single("write");
        }
        if str_eq(token, "rw") || str_eq(token, "readwrite") || str_eq(token, "read_write") {
            let mut both = Permission::single("read");
            both.insert_token(normalize_token("write"));
            return both;
        }
        match find_key(&self.permissions, token) {
            Some(at) => self.permissions[at].1.to_permission(),
            None => Permission::of_normal(token),
        }
    }

    /// Resolves one token of a grant: a shorthand, the name of a profile, or
    /// an action of its own.
    pub fn resolve_permission_token(&self, token: &str) -> (r: Permission)
        ensures
            r@ == self.token_grant(token@),
            is_ascii_text(token@) ==> r@ == self.normal_grant(ascii_normal_form(token@)),
            is_plain_token(token@) ==> r@ == self.normal_grant(token@),
            trimmed(token@).len() == 0 ==> r@ == Set::<Seq<char>>::empty(),
    {
        let normal = normalize_token(token);
        self.resolve_normal_token(normal.as_str())
    }

    /// Resolves a grant: the union of what its tokens resolve to.
    pub fn resolve_permission_spec(&self, spec: &PermissionSpec) -> (r: Permission)
        ensures
            r@ == self.spec_grant(spec@),
    {
        let mut permission = Permission::default();
        let tokens = spec.tokens();
        let n = tokens.len();
        let mut i: usize = 0;
        assert(spec@.take(0) =~= Seq::<Seq<char>>::empty());
        while i < n
            invariant
                i <= n,
                n == tokens.len(),
                views(tokens@) == spec@,
                permission@ == self.spec_grant(spec@.take(i as int)),
            decreases n - i,
        {
            proof {
                assert(spec@.take(i + 1).drop_last() =~= spec@.take(i as int));
                assert(spec@.take(i + 1).last() == tokens@[i as int]@);
            }
            let resolved = self.resolve_permission_token(tokens[i].as_str());
            permission.merge(&resolved);
            i += 1;
        }
        assert(spec@.take(n as int) =~= spec@);
        permission
    }

    /// Brings the table of profiles into the form in which names are looked
    /// up: names in lower case, each profile normalised.
    pub fn normalize_permissions(&mut self)
        ensures
            profile_views(final(self).permissions@) == normalized_table(
                profile_views(old(self).permissions@),
            ),
            final(self).server == old(self).server,
            final(self).main_page == old(self).main_page,
            final(self).users == old(self).users,
            final(self).mounts == old(self).mounts,
            profiles_are_distinct(profile_views(final(self).permissions@)),
            old(self).names_are_distinct() ==> final(self).names_are_distinct(),
    {
        let ghost table = profile_views(self.permissions@);
        proof {
            lemma_normalized_table_is_distinct(table);
        }
        let mut out: Vec<(String, PermissionProfile)> = Vec::new();
        let n = self.permissions.len();
        let mut i: usize = 0;
        assert(table.take(0) =~= Seq::<(Seq<char>, Seq<(Seq<char>, bool)>)>::empty());
        assert(profile_views(out@) =~= Seq::<(Seq<char>, Seq<(Seq<char>, bool)>)>::empty());
        while i < n
            invariant
                i <= n,
                n == self.permissions.len(),
                *self == *old(self),
                table == profile_views(self.permissions@),
                profile_views(out@) == normalized_table(table.take(i as int)),
            decreases n - i,
        {
            let ghost before = profile_views(out@);
            proof {
                assert(table.take(i + 1).drop_last() =~= table.take(i as int));
                assert(table.take(i + 1).last() == table[i as int]);
                assert(entry_keys(out@) =~= profile_names(before));
            }
            let name = to_lowercase(self.permissions[i].0.as_str());
            let profile = self.permissions[i].1.normalized_copy();
            match find_key(&out, name.as_str()) {
                Some(at) => {
                    out.set(at, (name, profile));
                    assert(profile_views(out@) =~= before.update(at as int, (name@, profile@)));
                },
                None => {
                    out.push((name, profile));
                    assert(profile_views(out@) =~= before.push((name@, profile@)));
                },
            }
            i += 1;
        }
        assert(table.take(n as int) =~= table);
        self.permissions = out;
    }

    /// Brings a configuration that was just read into the form that the rest
    /// of the library works on.
    pub fn normalize(&mut self)
        ensures
            profile_views(final(self).permissions@) == normalized_table(
                profile_views(old(self).permissions@),
            ),
            final(self).server == old(self).server,
            final(self).main_page == old(self).main_page,
            final(self).users == old(self).users,
            final(self).mounts == old(self).mounts,
            profiles_are_distinct(profile_views(final(self).permissions@)),
            old(self).names_are_distinct() ==> final(self).names_are_distinct(),
    {
        self.normalize_permissions();
    }

    /// The mount of the given name.
    pub fn get_mount(&self, mount_name: &str) -> (r: Option<&MountConfig>)
        ensures
            match first_index(entry_keys(self.mounts@), mount_name@) {
                Some(i) => r == Some(&self.mounts@[i].1),
                None => r is None,
            },
    {
        match find_key(&self.mounts, mount_name) {
            Some(at) => Some(&self.mounts[at].1),
            None => None,
        }
    }
}

/// In a normalised table no name stands twice, and in none of its profiles
/// an action.
pub proof fn lemma_normalized_table_is_distinct(table: Seq<(Seq<char>, Seq<(Seq<char>, bool)>)>)
    ensures
        profiles_are_distinct(normalized_table(table)),
    decreases table.len(),
{
    let after = normalized_table(table);
    if table.len() > 0 {
        let before = normalized_table(table.drop_last());
        let name = lowercase_of(table.last().0);
        let value = normalized_flags(table.last().1);
        lemma_normalized_table_is_distinct(table.drop_last());
        lemma_normalized_flags(table.last().1);
        lemma_first_index(profile_names(before), name);
        match first_index(profile_names(before), name) {
            Some(at) => {
                assert(profile_names(before)[at] == before[at].0);
                assert(profile_names(after) =~= profile_names(before));
                assert forall|i: int| 0 <= i < after.len() implies distinct_keys(
                    (#[trigger] after[i]).1,
                ) by {
                    if i != at {
                        assert(after[i] == before[i]);
                    }
                }
            },
            None => {
                assert(profile_names(after) =~= profile_names(before).push(name));
                assert forall|i: int, j: int| 0 <= i < j < after.len() implies #[trigger] profile_names(
                    after,
                )[i] != #[trigger] profile_names(after)[j] by {
                    assert(profile_names(after)[i] == profile_names(before)[i]);
                    if j < before.len() {
                        assert(profile_names(after)[j] == profile_names(before)[j]);
                    }
                }
                assert forall|i: int| 0 <= i < after.len() implies distinct_keys(
                    (#[trigger] after[i]).1,
                ) by {
                    if i < before.len() {
                        assert(after[i] == before[i]);
                    }
                }
            },
        }
    }
}

/// What `last_spelling` finds is the last place at which the name stands
/// under some spelling.
pub proof fn lemma_last_spelling(table: Seq<(Seq<char>, Seq<(Seq<char>, bool)>)>, key: Seq<char>)
    ensures
        match last_spelling(table, key) {
            Some(i) => 0 <= i < table.len() && lowercase_of(table[i].0) == key && forall|k: int|
                i < k < table.len() ==> lowercase_of(table[k].0) != key,
            None => forall|k: int| 0 <= k < table.len() ==> lowercase_of(table[k].0) != key,
        },
    decreases table.len(),
{
    if table.len() > 0 {
        lemma_last_spelling(table.drop_last(), key);
        assert forall|k: int| 0 <= k < table.len() - 1 implies table[k] == table.drop_last()[k] by {}
    }
}

/// A normalised table is looked up without regard to case: a name in lower
/// case is found there exactly if the table had an entry of that name under
/// some spelling, and what is found is the last such entry, normalised.
pub proof fn lemma_normalized_table(table: Seq<(Seq<char>, Seq<(Seq<char>, bool)>)>, key: Seq<char>)
    ensures
        match last_spelling(table, key) {
            Some(i) => match first_index(profile_names(normalized_table(table)), key) {
                Some(j) => 0 <= j < normalized_table(table).len() && normalized_table(table)[j].1
                    == normalized_flags(table[i].1),
                None => false,
            },
            None => first_index(profile_names(normalized_table(table)), key) is None,
        },
    decreases table.len(),
{
    if table.len() > 0 {
        let init = table.drop_last();
        let before = normalized_table(init);
        let name = lowercase_of(table.last().0);
        let value = normalized_flags(table.last().1);
        let after = normalized_table(table);
        lemma_normalized_table(init, key);
        lemma_last_spelling(init, key);
        lemma_first_index(profile_names(before), name);
        lemma_first_index(profile_names(before), key);
        assert(table.last() == table[table.len() - 1]);
        match first_index(profile_names(before), name) {
            Some(at) => {
                assert(profile_names(before)[at] == before[at].0);
                assert(profile_names(after) =~= profile_names(before));
                if key != name {
                    match first_index(profile_names(before), key) {
                        Some(j) => {
                            assert(profile_names(before)[j] == key);
                            assert(after[j] == before[j]);
                        },
                        None => {},
                    }
                    match last_spelling(init, key) {
                        Some(i) => {
                            assert(table[i] == init[i]);
                        },
                        None => {},
                    }
                }
            },
            None => {
                assert(profile_names(after) =~= profile_names(before).push(name));
                assert(profile_names(after).drop_last() =~= profile_names(before));
                assert(profile_names(after).last() == name);
                if key != name {
                    match first_index(profile_names(before), key) {
                        Some(j) => {
                            assert(after[j] == before[j]);
                        },
                        None => {},
                    }
                    match last_spelling(init, key) {
                        Some(i) => {
                            assert(table[i] == init[i]);
                        },
                        None => {},
                    }
                }
            },
        }
    }
}

/// What a token grants depends on its normal form alone: two tokens with
/// the same normal form grant the same.
pub proof fn lemma_same_normal_form_same_grant(config: Config, a: Seq<char>, b: Seq<char>)
    requires
        normal_form(a) == normal_form(b),
    ensures
        config.token_grant(a) == config.token_grant(b),
{
}

/// A token in ASCII and its normal form, written out, resolve alike: what
/// `resolve_permission_token` states of text in ASCII is the same for both.
pub proof fn lemma_ascii_token_resolves_like_its_normal_form(config: Config, token: Seq<char>)
    ensures
        config.normal_grant(ascii_normal_form(ascii_normal_form(token))) == config.normal_grant(
            ascii_normal_form(token),
        ),
        is_ascii_text(token) ==> is_ascii_text(ascii_normal_form(token)),
{
    lemma_ascii_normal_form_idempotent(token);
}

/// A token and its normal form resolve alike, wherever taking the normal
/// form a second time changes nothing.
pub proof fn lemma_token_grant_normal(config: Config, token: Seq<char>)
    ensures
        normal_form(normal_form(token)) == normal_form(token) ==> config.token_grant(token)
            == config.token_grant(normal_form(token)),
{
}

/// The two built-in action names are plain tokens.
pub proof fn lemma_builtin_tokens()
    ensures
        is_plain_token("read"@),
        is_plain_token("write"@),
{
    reveal_strlit("read");
    reveal_strlit("write");
    let r = "read"@;
    let w = "write"@;
    assert(r[0] == 'r' && r[1] == 'e' && r[2] == 'a' && r[3] == 'd');
    assert(w[0] == 'w' && w[1] == 'r' && w[2] == 'i' && w[3] == 't' && w[4] == 'e');
    assert forall|i: int| 0 <= i < r.len() implies (#[trigger] r[i] as int) < 128 && !(65 <= (
    r[i] as int) <= 90) by {
        if i == 0 {
        } else if i == 1 {
        } else if i == 2 {
        } else {
        }
    }
    assert forall|i: int| 0 <= i < w.len() implies (#[trigger] w[i] as int) < 128 && !(65 <= (
    w[i] as int) <= 90) by {
        if i == 0 {
        } else if i == 1 {
        } else if i == 2 {
        } else if i == 3 {
        } else {
        }
    }
}

/// What two lists of tokens grant one after the other is the union of what
/// each grants.
pub proof fn lemma_spec_grant_concat(config: Config, first: Seq<Seq<char>>, second: Seq<Seq<char>>)
    ensures
        config.spec_grant(first + second) == config.spec_grant(first).union(
            config.spec_grant(second),
        ),
    decreases second.len(),
{
    if second.len() == 0 {
        assert(first + second =~= first);
        assert(config.spec_grant(first).union(Set::<Seq<char>>::empty()) =~= config.spec_grant(
            first,
        ));
    } else {
        lemma_spec_grant_concat(config, first, second.drop_last());
        assert((first + second).drop_last() =~= first + second.drop_last());
        assert((first + second).last() == second.last());
        assert(config.spec_grant(first + second) =~= config.spec_grant(first).union(
            config.spec_grant(second),
        ));
    }
}

/// What a list of tokens grants does not depend on their order: it is all
/// that any one of them grants.
pub proof fn lemma_spec_grant_members(config: Config, tokens: Seq<Seq<char>>, action: Seq<char>)
    ensures
        config.spec_grant(tokens).contains(action) <==> exists|i: int|
            0 <= i < tokens.len() && #[trigger] config.token_grant(tokens[i]).contains(action),
    decreases tokens.len(),
{
    if tokens.len() > 0 {
        let init = tokens.drop_last();
        lemma_spec_grant_members(config, init, action);
        if config.spec_grant(init).contains(action) {
            let k = choose|k: int|
                0 <= k < init.len() && #[trigger] config.token_grant(init[k]).contains(action);
            assert(tokens[k] == init[k]);
        }
        if config.token_grant(tokens.last()).contains(action) {
            assert(tokens[tokens.len() - 1] == tokens.last());
        }
        if exists|i: int|
            0 <= i < tokens.len() && #[trigger] config.token_grant(tokens[i]).contains(action) {
            let k = choose|k: int|
                0 <= k < tokens.len() && #[trigger] config.token_grant(tokens[k]).contains(action);
            if k < init.len() {
                assert(init[k] == tokens[k]);
            }
        }
    }
}

} // verus!
