//! Named profiles: bundles of actions, each allowed or not.

use vstd::prelude::*;
use crate::permission::Permission;
use crate::table::{distinct, entry_keys, find_key, first_index, lemma_first_index};
use crate::text::{lowercase_of, normal_form, to_lowercase, trimmed};

verus! {

/// The entries of a profile as plain values.
pub open spec fn flag_views(entries: Seq<(String, bool)>) -> Seq<(Seq<char>, bool)> {
    Seq::new(entries.len(), |i: int| (entries[i].0@, entries[i].1))
}

/// The names of plain entries, in order.
pub open spec fn flag_keys(flags: Seq<(Seq<char>, bool)>) -> Seq<Seq<char>> {
    Seq::new(flags.len(), |i: int| flags[i].0)
}

/// The entries with one more flag for `key`: a new entry where the name is
/// new, else the entry of that name allowed if it was or if the new flag is.
pub open spec fn with_flag(flags: Seq<(Seq<char>, bool)>, key: Seq<char>, allowed: bool) -> Seq<
    (Seq<char>, bool),
> {
    match first_index(flag_keys(flags), key) {
        Some(i) => flags.update(i, (key, flags[i].1 || allowed)),
        None => flags.push((key, allowed)),
    }
}

/// The entries with their names in lower case, names that then coincide
/// brought together.
pub open spec fn normalized_flags(flags: Seq<(Seq<char>, bool)>) -> Seq<(Seq<char>, bool)>
    decreases flags.len(),
{
    if flags.len() == 0 {
        Seq::<(Seq<char>, bool)>::empty()
    } else {
        with_flag(
            normalized_flags(flags.drop_last()),
            lowercase_of(flags.last().0),
            flags.last().1,
        )
    }
}

/// The tokens that a profile allows: the normal form of each allowed name,
/// but for the empty ones.
pub open spec fn allowed_tokens(flags: Seq<(Seq<char>, bool)>) -> Set<Seq<char>> {
    Set::new(
        |t: Seq<char>|
            t.len() > 0 && exists|i: int|
                0 <= i < flags.len() && flags[i].1 && #[trigger] normal_form(flags[i].0) == t,
    )
}

/// Whether some entry of the name `key` allows.
pub open spec fn allows_key(flags: Seq<(Seq<char>, bool)>, key: Seq<char>) -> bool {
    exists|i: int| 0 <= i < flags.len() && (#[trigger] flags[i]).0 == key && flags[i].1
}

/// Whether some entry whose name is `key` in lower case allows.
pub open spec fn allows_any_case(flags: Seq<(Seq<char>, bool)>, key: Seq<char>) -> bool {
    exists|i: int|
        0 <= i < flags.len() && lowercase_of((#[trigger] flags[i]).0) == key && flags[i].1
}

/// No name stands twice.
pub open spec fn distinct_keys(flags: Seq<(Seq<char>, bool)>) -> bool {
    distinct(flag_keys(flags))
}

/// A named bundle of actions, each with a flag that allows it or not.
#[derive(Debug, Clone, PartialEq, Eq)]
pub struct PermissionProfile {
    pub actions: Vec<(String, bool)>,
}

impl View for PermissionProfile {
    type V = Seq<(Seq<char>, bool)>;

    open spec fn view(&self) -> Seq<(Seq<char>, bool)> {
        flag_views(self.actions@)
    }
}

impl Default for PermissionProfile {
    fn default() -> (r: PermissionProfile)
        ensures
            r@ == Seq::<(Seq<char>, bool)>::empty(),
    {
        let r = PermissionProfile { actions: Vec::new() };
        assert(r@ =~= Seq::<(Seq<char>, bool)>::empty());
        r
    }
}

impl PermissionProfile {
    /// No action stands twice in the profile, as in a map from actions to
    /// flags.
    pub open spec fn names_are_distinct(&self) -> bool {
        distinct_keys(self@)
    }

    /// The profile with its names in lower case; an action is allowed if it
    /// was under any spelling.
    pub fn normalized(self) -> (r: PermissionProfile)
        ensures
            r@ == normalized_flags(self@),
            r.names_are_distinct(),
    {
        self.normalized_copy()
    }

    /// A new profile that is this one normalised.
    pub fn normalized_copy(&self) -> (r: PermissionProfile)
        ensures
            r@ == normalized_flags(self@),
            r.names_are_distinct(),
    {
        proof {
            lemma_normalized_flags(self@);
        }
        let mut out: Vec<(String, bool)> = Vec::new();
        let n = self.actions.len();
        let mut i: usize = 0;
        assert(self@.take(0) =~= Seq::<(Seq<char>, bool)>::empty());
        assert(flag_views(out@) =~= Seq::<(Seq<char>, bool)>::empty());
        while i < n
            invariant
                i <= n,
                n == self.actions.len(),
                flag_views(out@) == normalized_flags(self@.take(i as int)),
            decreases n - i,
        {
            let ghost before = flag_views(out@);
            proof {
                assert(self@.take(i + 1).drop_last() =~= self@.take(i as int));
                assert(self@.take(i + 1).last() == self@[i as int]);
                assert(entry_keys(out@) =~= flag_keys(before));
            }
            let key = to_lowercase(self.actions[i].0.as_str());
            let allowed = self.actions[i].1;
            match find_key(&out, key.as_str()) {
                Some(at) => {
                    let merged = out[at].1 || allowed;
                    out.set(at, (key, merged));
                    assert(flag_views(out@) =~= before.update(at as int, (key@, merged)));
                },
                None => {
                    out.push((key, allowed));
                    assert(flag_views(out@) =~= before.push((key@, allowed)));
                },
            }
            i += 1;
        }
        assert(self@.take(n as int) =~= self@);
        PermissionProfile { actions: out }
    }

    /// The permission that holds what the profile allows.
    pub fn to_permission(&self) -> (r: Permission)
        ensures
            r@ == allowed_tokens(self@),
            forall|k: int|
                0 <= k < self@.len() && self@[k].1 && trimmed(self@[k].0).len() == 0 ==> (
                #[trigger] normal_form(self@[k].0)).len() == 0,
    {
        let mut permission = Permission::default();
        let n = self.actions.len();
        let mut i: usize = 0;
        assert(permission@ =~= allowed_tokens(self@.take(0)));
        while i < n
            invariant
                i <= n,
                n == self.actions.len(),
                permission@ == allowed_tokens(self@.take(i as int)),
                forall|k: int|
                    0 <= k < i && self@[k].1 && trimmed(self@[k].0).len() == 0 ==> (
                    #[trigger] normal_form(self@[k].0)).len() == 0,
            decreases n - i,
        {
            let ghost done = self@.take(i as int);
            let ghost next = self@.take(i + 1);
            if self.actions[i].1 {
                permission.add_action(self.actions[i].0.as_str());
            }
            proof {
                assert(next[i as int] == self@[i as int]);
                assert(self@[i as int] == (self.actions@[i as int].0@, self.actions@[i as int].1));
                assert forall|x: Seq<char>| permission@.contains(x) <==> allowed_tokens(
                    next,
                ).contains(x) by {
                    let entry = self@[i as int];
                    if allowed_tokens(done).contains(x) {
                        let k = choose|k: int|
                            0 <= k < done.len() && done[k].1 && #[trigger] normal_form(done[k].0)
                                == x;
                        assert(next[k] == done[k]);
                        assert(next[k].1 && normal_form(next[k].0) == x);
                        assert(allowed_tokens(next).contains(x));
                    }
                    if entry.1 && x.len() > 0 && x == normal_form(entry.0) {
                        assert(next[i as int].1 && normal_form(next[i as int].0) == x);
                        assert(allowed_tokens(next).contains(x));
                    }
                    if allowed_tokens(next).contains(x) {
                        let k = choose|k: int|
                            0 <= k < next.len() && next[k].1 && #[trigger] normal_form(next[k].0)
                                == x;
                        if k < i {
                            assert(done[k] == next[k]);
                            assert(done[k].1 && normal_form(done[k].0) == x);
                            assert(allowed_tokens(done).contains(x));
                        }
                    }
                }
                assert(permission@ =~= allowed_tokens(next));
            }
            i += 1;
        }
        assert(self@.take(n as int) =~= self@);
        permission
    }
}

/// In a normalised profile no name stands twice, and a name is allowed there
/// exactly if the profile allowed it under some spelling.
pub proof fn lemma_normalized_flags(flags: Seq<(Seq<char>, bool)>)
    ensures
        distinct_keys(normalized_flags(flags)),
        forall|key: Seq<char>|
            allows_key(normalized_flags(flags), key) <==> allows_any_case(flags, key),
    decreases flags.len(),
{
    let out = normalized_flags(flags);
    if flags.len() > 0 {
        let init = flags.drop_last();
        let before = normalized_flags(init);
        let name = lowercase_of(flags.last().0);
        let allowed = flags.last().1;
        lemma_normalized_flags(init);
        lemma_first_index(flag_keys(before), name);
        assert(flags.last() == flags[flags.len() - 1]);
        assert forall|i: int, j: int| 0 <= i < j < flag_keys(out).len() implies #[trigger] flag_keys(
            out,
        )[i] != #[trigger] flag_keys(out)[j] by {
            match first_index(flag_keys(before), name) {
                Some(at) => {
                    assert(flag_keys(before)[at] == before[at].0);
                    assert(flag_keys(out)[i] == flag_keys(before)[i]);
                    assert(flag_keys(out)[j] == flag_keys(before)[j]);
                },
                None => {
                    if j == before.len() {
                        assert(flag_keys(before)[i] == before[i].0);
                    } else {
                        assert(flag_keys(out)[i] == flag_keys(before)[i]);
                        assert(flag_keys(out)[j] == flag_keys(before)[j]);
                    }
                },
            }
        }
        assert forall|key: Seq<char>| allows_key(out, key) <==> allows_any_case(flags, key) by {
            assert(allows_key(before, key) <==> allows_any_case(init, key));
            if allows_any_case(init, key) {
                let k = choose|k: int|
                    0 <= k < init.len() && lowercase_of((#[trigger] init[k]).0) == key
                        && init[k].1;
                assert(flags[k] == init[k]);
            }
            if allows_any_case(flags, key) {
                let k = choose|k: int|
                    0 <= k < flags.len() && lowercase_of((#[trigger] flags[k]).0) == key
                        && flags[k].1;
                if k < init.len() {
                    assert(init[k] == flags[k]);
                    assert(allows_any_case(init, key));
                }
            }
            match first_index(flag_keys(before), name) {
                Some(at) => {
                    assert(flag_keys(before)[at] == before[at].0);
                    if allows_key(before, key) {
                        let k = choose|k: int|
                            0 <= k < before.len() && (#[trigger] before[k]).0 == key
                                && before[k].1;
                        assert(out[k].0 == key && out[k].1);
                    }
                    if allows_key(out, key) {
                        let k = choose|k: int|
                            0 <= k < out.len() && (#[trigger] out[k]).0 == key && out[k].1;
                        if k != at {
                            assert(before[k] == out[k]);
                        } else if before[at].1 {
                            assert(before[at].0 == key);
                        }
                    }
                    if key == name && allowed {
                        assert(out[at].0 == key && out[at].1);
                    }
                },
                None => {
                    if allows_key(before, key) {
                        let k = choose|k: int|
                            0 <= k < before.len() && (#[trigger] before[k]).0 == key
                                && before[k].1;
                        assert(out[k] == before[k]);
                    }
                    if allows_key(out, key) {
                        let k = choose|k: int|
                            0 <= k < out.len() && (#[trigger] out[k]).0 == key && out[k].1;
                        if k < before.len() {
                            assert(before[k] == out[k]);
                        }
                    }
                    if key == name && allowed {
                        assert(out[before.len() as int].0 == key);
                    }
                },
            }
        }
    }
}

} // verus!
