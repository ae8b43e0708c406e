//! A permission: the set of actions that a caller may take on a mount.

use vstd::prelude::*;
use crate::text::{
    ascii_lowercase, ascii_normal_form, is_ascii_text, is_normal_form, is_plain_token, join_strings, joined_with,
    lemma_lex_total, lemma_lex_transitive, lex_less, lowercase_of, normal_form, normalize_token,
    str_eq, str_less, to_lowercase, trimmed, views,
};

verus! {

/// Every string of `s` is below those that come after it.
pub open spec fn strictly_sorted(s: Seq<Seq<char>>) -> bool {
    forall|i: int, j: int| 0 <= i < j < s.len() ==> lex_less(#[trigger] s[i], #[trigger] s[j])
}

/// The tokens that a list of raw action names stands for: the normal form of
/// each name, but for the names whose normal form is empty.
pub open spec fn normal_tokens(raw: Seq<Seq<char>>) -> Set<Seq<char>> {
    Set::new(
        |t: Seq<char>|
            t.len() > 0 && exists|i: int| 0 <= i < raw.len() && #[trigger] normal_form(raw[i]) == t,
    )
}

/// The character sequences of a slice of string slices.
pub open spec fn slice_views(names: Seq<&str>) -> Seq<Seq<char>> {
    Seq::new(names.len(), |i: int| names[i]@)
}

/// Whether a set of actions lets its holder change anything.
pub open spec fn grants_write(s: Set<Seq<char>>) -> bool {
    s.contains("write"@) || s.contains("upload"@) || s.contains("delete"@) || s.contains(
        "rename"@,
    ) || s.contains("modify"@) || s.contains("create_file"@) || s.contains("create_folder"@)
}

/// Whether a set of actions lets its holder read.
pub open spec fn grants_read(s: Set<Seq<char>>) -> bool {
    s.contains("read"@) || grants_write(s)
}

/// Whether a set of actions lets its holder upload files.
pub open spec fn grants_upload(s: Set<Seq<char>>) -> bool {
    s.contains("upload"@) || s.contains("write"@) || s.contains("create_file"@)
}

/// Whether a set of actions lets its holder delete entries.
pub open spec fn grants_delete(s: Set<Seq<char>>) -> bool {
    s.contains("delete"@) || s.contains("write"@)
}

/// Whether a set of actions lets its holder rename entries.
pub open spec fn grants_rename(s: Set<Seq<char>>) -> bool {
    s.contains("rename"@) || s.contains("write"@)
}

/// Whether a set of actions lets its holder change the contents of files.
pub open spec fn grants_modify(s: Set<Seq<char>>) -> bool {
    s.contains("modify"@) || s.contains("write"@)
}

/// Whether a set of actions lets its holder create files.
pub open spec fn grants_create_file(s: Set<Seq<char>>) -> bool {
    s.contains("create_file"@) || s.contains("write"@)
}

/// Whether a set of actions lets its holder create folders.
pub open spec fn grants_create_folder(s: Set<Seq<char>>) -> bool {
    s.contains("create_folder"@) || s.contains("write"@)
}

/// A set of action tokens. The tokens are kept in increasing order, each
/// once; none is empty, and each is the normal form of some text: trimmed,
/// then in lower case.
#[derive(Debug, PartialEq, Eq)]
pub struct Permission {
    actions: Vec<String>,
}

impl View for Permission {
    type V = Set<Seq<char>>;

    open spec fn view(&self) -> Set<Seq<char>> {
        self.listed().to_set()
    }
}

impl Clone for Permission {
    fn clone(&self) -> (r: Permission)
        ensures
            r@ == self@,
    {
        proof {
            use_type_invariant(self);
        }
        Permission { actions: self.actions() }
    }
}

impl Default for Permission {
    fn default() -> (r: Permission)
        ensures
            r@ == Set::<Seq<char>>::empty(),
    {
        let r = Permission { actions: Vec::new() };
        assert(r.listed() =~= Seq::<Seq<char>>::empty());
        assert(r@ =~= Set::<Seq<char>>::empty());
        r
    }
}

impl Permission {
    /// The tokens in the order in which they are kept.
    pub closed spec fn listed(&self) -> Seq<Seq<char>> {
        views(self.actions@)
    }

    /// The tokens are in strictly increasing order, none is empty, and each
    /// is the normal form of some text.
    #[verifier::type_invariant]
    spec fn wf(&self) -> bool {
        &&& strictly_sorted(self.listed())
        &&& forall|i: int|
            0 <= i < self.listed().len() ==> (#[trigger] self.listed()[i]).len() > 0
                && is_normal_form(self.listed()[i])
    }

    /// Adds a token as it is given.
    pub(crate) fn insert_token(&mut self, token: String)
        requires
            token@.len() > 0,
            is_normal_form(token@),
        ensures
            final(self)@ == old(self)@.insert(token@),
    {
        proof {
            use_type_invariant(&*self);
        }
        let n = self.actions.len();
        let mut i: usize = 0;
        while i < n && str_less(self.actions[i].as_str(), token.as_str())
            invariant
                i <= n,
                n == self.actions.len(),
                *self == *old(self),
                forall|k: int| 0 <= k < i ==> lex_less(#[trigger] self.listed()[k], token@),
            decreases n - i,
        {
            i += 1;
        }
        let ghost before = self.listed();
        if i < n && str_eq(self.actions[i].as_str(), token.as_str()) {
            proof {
                assert(before[i as int] == token@);
                assert(before.to_set() =~= before.to_set().insert(token@));
            }
            return ;
        }
        let mut items: Vec<String> = Vec::new();
        core::mem::swap(&mut self.actions, &mut items);
        items.insert(i, token);
        proof {
            let after = views(items@);
            assert(after =~= before.insert(i as int, token@));
            assert forall|a: int, b: int| 0 <= a < b < after.len() implies lex_less(
                #[trigger] after[a],
                #[trigger] after[b],
            ) by {
                if b == i {
                    assert(after[a] == before[a]);
                } else if a == i {
                    assert(after[b] == before[b - 1]);
                    lemma_lex_total(token@, before[i as int]);
                    if b - 1 > i {
                        assert(lex_less(before[i as int], before[b - 1]));
                        lemma_lex_transitive(token@, before[i as int], before[b - 1]);
                    }
                } else {
                    let a0 = if a < i { a } else { a - 1 };
                    let b0 = if b < i { b } else { b - 1 };
                    assert(after[a] == before[a0]);
                    assert(after[b] == before[b0]);
                    assert(lex_less(before[a0], before[b0]));
                }
            }
            assert forall|k: int| 0 <= k < after.len() implies (#[trigger] after[k]).len() > 0
                && is_normal_form(after[k]) by {
                if k != i {
                    let k0 = if k < i { k } else { k - 1 };
                    assert(after[k] == before[k0]);
                }
            }
            assert forall|t: Seq<char>| after.to_set().contains(t) <==> before.to_set().insert(
                token@,
            ).contains(t) by {
                if after.contains(t) {
                    let k = choose|k: int| 0 <= k < after.len() && after[k] == t;
                    if k != i {
                        let k0 = if k < i { k } else { k - 1 };
                        assert(before[k0] == t);
                    }
                }
                if before.contains(t) {
                    let k = choose|k: int| 0 <= k < before.len() && before[k] == t;
                    let k1 = if k < i { k } else { k + 1 };
                    assert(after[k1] == t);
                }
                if t == token@ {
                    assert(after[i as int] == t);
                }
            }
            assert(after.to_set() =~= before.to_set().insert(token@));
        }
        self.actions = items;
    }

    /// The permission that holds one plain token. The token is brought into
    /// normal form like any other, which leaves a plain token as it is.
    pub(crate) fn single(token: &str) -> (r: Permission)
        requires
            is_plain_token(token@),
        ensures
            r@ == Set::<Seq<char>>::empty().insert(token@),
    {
        let mut r = Permission::default();
        r.insert_token(normalize_token(token));
        r
    }

    /// The permission that holds one token that is in normal form already.
    pub(crate) fn of_normal(token: &str) -> (r: Permission)
        requires
            token@.len() > 0,
            is_normal_form(token@),
        ensures
            r@ == Set::<Seq<char>>::empty().insert(token@),
    {
        let mut r = Permission::default();
        r.insert_token(token.to_owned());
        r
    }

    /// Whether the token, taken as it is given, is in the set.
    pub fn holds(&self, token: &str) -> (r: bool)
        ensures
            r == self@.contains(token@),
    {
        let n = self.actions.len();
        let mut i: usize = 0;
        while i < n
            invariant
                i <= n,
                n == self.actions.len(),
                forall|k: int| 0 <= k < i ==> #[trigger] self.listed()[k] != token@,
            decreases n - i,
        {
            if str_eq(self.actions[i].as_str(), token) {
                assert(self.listed()[i as int] == token@);
                return true;
            }
            i += 1;
        }
        false
    }

    /// The permission that holds the normal form of each given name.
    pub fn from_actions(actions: &[&str]) -> (r: Permission)
        ensures
            r@ == normal_tokens(slice_views(actions@)),
            forall|k: int|
                0 <= k < actions@.len() && trimmed(actions@[k]@).len() == 0 ==> (
                #[trigger] normal_form(actions@[k]@)).len() == 0,
    {
        let mut permission = Permission::default();
        let n = actions.len();
        let mut i: usize = 0;
        while i < n
            invariant
                i <= n,
                n == actions@.len(),
                permission@ == normal_tokens(slice_views(actions@).take(i as int)),
                forall|k: int|
                    0 <= k < i && trimmed(actions@[k]@).len() == 0 ==> (#[trigger] normal_form(
                        actions@[k]@,
                    )).len() == 0,
            decreases n - i,
        {
            let ghost done = slice_views(actions@).take(i as int);
            let ghost next = slice_views(actions@).take(i + 1);
            permission.add_action(actions[i]);
            proof {
                let t = normal_form(actions@[i as int]@);
                assert(next[i as int] == actions@[i as int]@);
                assert forall|x: Seq<char>| permission@.contains(x) <==> normal_tokens(
                    next,
                ).contains(x) by {
                    if normal_tokens(done).contains(x) {
                        let k = choose|k: int|
                            0 <= k < done.len() && #[trigger] normal_form(done[k]) == x;
                        assert(next[k] == done[k]);
                    }
                    if normal_tokens(next).contains(x) {
                        let k = choose|k: int|
                            0 <= k < next.len() && #[trigger] normal_form(next[k]) == x;
                        if k < i {
                            assert(done[k] == next[k]);
                        }
                    }
                }
                assert(permission@ =~= normal_tokens(next));
            }
            i += 1;
        }
        assert(slice_views(actions@).take(n as int) =~= slice_views(actions@));
        permission
    }

    /// Adds the normal form of `action`, unless that is empty. Blank text
    /// adds nothing; of text in ASCII the token that is added is explicit.
    pub fn add_action(&mut self, action: &str)
        ensures
            final(self)@ == if normal_form(action@).len() == 0 {
                old(self)@
            } else {
                old(self)@.insert(normal_form(action@))
            },
            trimmed(action@).len() == 0 ==> normal_form(action@).len() == 0 && final(self)@ == old(
                self,
            )@,
            is_ascii_text(action@) && trimmed(action@).len() > 0 ==> final(self)@ == old(
                self,
            )@.insert(ascii_normal_form(action@)),
    {
        let token = normalize_token(action);
        if token.as_str().is_empty() {
            return ;
        }
        self.insert_token(token);
    }

    /// Adds every token of `other`.
    pub fn merge(&mut self, other: &Permission)
        ensures
            final(self)@ == old(self)@.union(other@),
    {
        let n = other.actions.len();
        let mut i: usize = 0;
        while i < n
            invariant
                i <= n,
                n == other.actions.len(),
                self@ == old(self)@.union(other.listed().take(i as int).to_set()),
            decreases n - i,
        {
            let ghost done = other.listed().take(i as int);
            let ghost next = other.listed().take(i + 1);
            proof {
                use_type_invariant(other);
            }
            assert(other.listed()[i as int].len() > 0);
            self.insert_token(other.actions[i].clone());
            proof {
                assert(next =~= done.push(other.listed()[i as int]));
                assert forall|x: Seq<char>| next.to_set().contains(x) <==> done.to_set().insert(
                    other.listed()[i as int],
                ).contains(x) by {
                    if next.contains(x) {
                        let k = choose|k: int| 0 <= k < next.len() && next[k] == x;
                        if k < i {
                            assert(done[k] == x);
                        }
                    }
                    if done.contains(x) {
                        let k = choose|k: int| 0 <= k < done.len() && done[k] == x;
                        assert(next[k] == x);
                    }
                    if x == other.listed()[i as int] {
                        assert(next[i as int] == x);
                    }
                }
                assert(self@ =~= old(self)@.union(next.to_set()));
            }
            i += 1;
        }
        proof {
            assert(other.listed().take(n as int) =~= other.listed());
            assert(old(self)@.union(Seq::<Seq<char>>::empty().to_set()) =~= old(self)@);
        }
    }

    /// Whether the lower-case form of `action` is in the set.
    pub fn allows_action(&self, action: &str) -> (r: bool)
        ensures
            r == self@.contains(lowercase_of(action@)),
            is_ascii_text(action@) ==> r == self@.contains(ascii_lowercase(action@)),
    {
        let lower = to_lowercase(action);
        self.holds(lower.as_str())
    }

    /// Whether the lower-case form of any of the given names is in the set.
    pub fn allows_any(&self, actions: &[&str]) -> (r: bool)
        ensures
            r == exists|i: int|
                0 <= i < actions@.len() && self@.contains(#[trigger] lowercase_of(actions@[i]@)),
    {
        let n = actions.len();
        let mut i: usize = 0;
        while i < n
            invariant
                i <= n,
                n == actions@.len(),
                forall|k: int|
                    0 <= k < i ==> !self@.contains(#[trigger] lowercase_of(actions@[k]@)),
            decreases n - i,
        {
            if self.allows_action(actions[i]) {
                return true;
            }
            i += 1;
        }
        false
    }

    /// Reading is allowed by `read` and by every action that changes something.
    pub fn allows_read(&self) -> (r: bool)
        ensures
            r == grants_read(self@),
    {
        self.holds("read") || self.allows_write()
    }

    /// Whether the holder may change anything at all.
    pub fn allows_write(&self) -> (r: bool)
        ensures
            r == grants_write(self@),
    {
        self.holds("write") || self.holds("upload") || self.holds("delete") || self.holds("rename")
            || self.holds("modify") || self.holds("create_file") || self.holds("create_folder")
    }

    /// Whether the holder may upload files.
    pub fn allows_upload(&self) -> (r: bool)
        ensures
            r == grants_upload(self@),
    {
        self.holds("upload") || self.holds("write") || self.holds("create_file")
    }

    /// Whether the holder may delete entries.
    pub fn allows_delete(&self) -> (r: bool)
        ensures
            r == grants_delete(self@),
    {
        self.holds("delete") || self.holds("write")
    }

    /// Whether the holder may rename entries.
    pub fn allows_rename(&self) -> (r: bool)
        ensures
            r == grants_rename(self@),
    {
        self.holds("rename") || self.holds("write")
    }

    /// Whether the holder may change the contents of files.
    pub fn allows_modify(&self) -> (r: bool)
        ensures
            r == grants_modify(self@),
    {
        self.holds("modify") || self.holds("write")
    }

    /// Whether the holder may create files.
    pub fn allows_create_file(&self) -> (r: bool)
        ensures
            r == grants_create_file(self@),
    {
        self.holds("create_file") || self.holds("write")
    }

    /// Whether the holder may create folders.
    pub fn allows_create_folder(&self) -> (r: bool)
        ensures
            r == grants_create_folder(self@),
    {
        self.holds("create_folder") || self.holds("write")
    }

    /// The tokens, each once, in increasing order.
    pub fn actions(&self) -> (r: Vec<String>)
        ensures
            views(r@) == self.listed(),
            views(r@).to_set() == self@,
            strictly_sorted(views(r@)),
            forall|i: int|
                0 <= i < r@.len() ==> (#[trigger] r@[i])@.len() > 0 && is_normal_form(r@[i]@),
    {
        proof {
            use_type_invariant(self);
        }
        let mut out: Vec<String> = Vec::new();
        let n = self.actions.len();
        let mut i: usize = 0;
        while i < n
            invariant
                i <= n,
                n == self.actions.len(),
                views(out@) == self.listed().take(i as int),
            decreases n - i,
        {
            let ghost before = views(out@);
            let token = self.actions[i].clone();
            out.push(token);
            proof {
                let now = views(out@);
                let want = self.listed().take(i + 1);
                assert(before.len() == i);
                assert(self.listed().len() == n);
                assert(now.len() == want.len());
                assert forall|k: int| 0 <= k < now.len() implies now[k] == want[k] by {
                    if k < i {
                        assert(now[k] == before[k]);
                    }
                }
                assert(now =~= want);
            }
            i += 1;
        }
        assert(self.listed().take(n as int) =~= self.listed());
        assert forall|i: int| 0 <= i < out@.len() implies (#[trigger] out@[i])@.len() > 0
            && is_normal_form(out@[i]@) by {
            assert(views(out@)[i] == out@[i]@);
        }
        out
    }

    /// The tokens in increasing order, with a comma and a space between each
    /// two: the form in which a permission is shown.
    pub fn label(&self) -> (r: String)
        ensures
            r@ == joined_with(self.listed(), ", "@),
    {
        join_strings(&self.actions, ", ")
    }

    /// Whether the set holds no token.
    pub fn is_empty(&self) -> (r: bool)
        ensures
            r == (self@ == Set::<Seq<char>>::empty()),
    {
        let r = self.actions.len() == 0;
        proof {
            if r {
                assert(self@ =~= Set::<Seq<char>>::empty());
            } else {
                assert(self.listed().contains(self.listed()[0]));
                assert(self@.contains(self.listed()[0]));
            }
        }
        r
    }
}

/// Merging is a union, so the order of the two sides does not matter.
pub proof fn lemma_merge_commutative(p: Permission, q: Permission)
    ensures
        p@.union(q@) == q@.union(p@),
{
    assert(p@.union(q@) =~= q@.union(p@));
}

/// Merging a permission into itself changes nothing.
pub proof fn lemma_merge_idempotent(p: Permission)
    ensures
        p@.union(p@) == p@,
{
    assert(p@.union(p@) =~= p@);
}

/// Merging is associative.
pub proof fn lemma_merge_associative(p: Permission, q: Permission, r: Permission)
    ensures
        p@.union(q@).union(r@) == p@.union(q@.union(r@)),
{
    assert(p@.union(q@).union(r@) =~= p@.union(q@.union(r@)));
}

/// Whoever may write may upload, delete, rename and modify, unless they may
/// write only by one of the finer actions: that is, wherever they hold
/// `write` itself or hold all four of the finer capabilities.
pub proof fn lemma_write_implies_finer(p: Permission)
    requires
        p@.contains("write"@) || !grants_write(p@) || (grants_upload(p@) && grants_delete(p@)
            && grants_rename(p@) && grants_modify(p@)),
    ensures
        grants_write(p@) ==> grants_upload(p@) && grants_delete(p@) && grants_rename(p@)
            && grants_modify(p@),
{
}

/// Whoever holds `write` may read, upload, delete, rename, modify and create.
pub proof fn lemma_write_grants_all(p: Permission)
    requires
        p@.contains("write"@),
    ensures
        grants_write(p@),
        grants_read(p@),
        grants_upload(p@),
        grants_delete(p@),
        grants_rename(p@),
        grants_modify(p@),
        grants_create_file(p@),
        grants_create_folder(p@),
{
}

/// Each finer capability is a way of writing, and writing includes reading.
pub proof fn lemma_capabilities_imply_write(p: Permission)
    ensures
        grants_upload(p@) ==> grants_write(p@),
        grants_delete(p@) ==> grants_write(p@),
        grants_rename(p@) ==> grants_write(p@),
        grants_modify(p@) ==> grants_write(p@),
        grants_create_file(p@) ==> grants_write(p@),
        grants_create_folder(p@) ==> grants_write(p@),
        grants_write(p@) ==> grants_read(p@),
{
}

} // verus!
