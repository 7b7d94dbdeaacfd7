//! Per-user configuration store: a small key-value map from a principal
//! identity to a pair of string preferences. It sits beside the reward engine
//! and is independent of it.

use vstd::prelude::*;
use crate::order::str_eq;
use crate::types::RewardError;

verus! {

/// One user's configuration: agent and voice preferences.
pub struct UserAiConfig {
    pub principal_id: String,
    pub agent_id: String,
    pub voice_id: String,
}

/// Mathematical model of one user's configuration.
#[verifier::ext_equal]
pub struct UserAiConfigView {
    pub principal_id: Seq<char>,
    pub agent_id: Seq<char>,
    pub voice_id: Seq<char>,
}

impl View for UserAiConfig {
    type V = UserAiConfigView;

    open spec fn view(&self) -> UserAiConfigView {
        UserAiConfigView {
            principal_id: self.principal_id@,
            agent_id: self.agent_id@,
            voice_id: self.voice_id@,
        }
    }
}

impl Clone for UserAiConfig {
    fn clone(&self) -> (res: Self)
        ensures
            res@ == self@,
    {
        UserAiConfig {
            principal_id: self.principal_id.clone(),
            agent_id: self.agent_id.clone(),
            voice_id: self.voice_id.clone(),
        }
    }
}

/// Lookup key of a user's configuration.
pub struct PrincipalKey {
    pub principal_id: String,
}

/// Whether some configuration in the list belongs to the given principal.
pub open spec fn has_config(s: Seq<UserAiConfigView>, pid: Seq<char>) -> bool {
    exists|i: int| 0 <= i < s.len() && s[i].principal_id == pid
}

/// The configuration of the given principal, where one exists and keys are
/// unique.
pub open spec fn config_of(s: Seq<UserAiConfigView>, pid: Seq<char>) -> UserAiConfigView {
    s[choose|i: int| 0 <= i < s.len() && s[i].principal_id == pid]
}

/// The per-user configuration store.
pub struct AiConfigStore {
    pub entries: Vec<UserAiConfig>,
}

impl View for AiConfigStore {
    type V = Seq<UserAiConfigView>;

    open spec fn view(&self) -> Seq<UserAiConfigView> {
        self.entries@.map_values(|c: UserAiConfig| c@)
    }
}

impl AiConfigStore {
    /// Each principal holds at most one configuration.
    pub open spec fn wf(self) -> bool {
        forall|i: int, j: int|
            0 <= i < j < self@.len() ==> (#[trigger] self@[i]).principal_id != (
            #[trigger] self@[j]).principal_id
    }

    /// An empty store.
    pub fn new() -> (r: AiConfigStore)
        ensures
            r.wf(),
            r@ == Seq::<UserAiConfigView>::empty(),
    {
        let r = AiConfigStore { entries: Vec::new() };
        proof {
            assert(r@ =~= Seq::<UserAiConfigView>::empty());
        }
        r
    }

    /// Position of the principal's configuration, where one exists.
    fn find_index(&self, principal_id: &str) -> (r: Option<usize>)
        ensures
            (match r {
                Some(i) => i < self@.len() && self@[i as int].principal_id == principal_id@,
                None => !has_config(self@, principal_id@),
            }),
    {
        let n = self.entries.len();
        let mut i: usize = 0;
        while i < n
            invariant
                i <= n,
                n == self@.len(),
                forall|j: int| 0 <= j < i ==> (#[trigger] self@[j]).principal_id != principal_id@,
            decreases n - i,
        {
            if str_eq(self.entries[i].principal_id.as_str(), principal_id) {
                return Some(i);
            }
            i = i + 1;
        }
        None
    }

    /// Returns the configuration stored for the principal, or None where the
    /// store holds none.
    pub fn get_user_ai_config(&self, principal_id: String) -> (r: Option<UserAiConfig>)
        requires
            self.wf(),
        ensures
            (match r {
                Some(c) => has_config(self@, principal_id@) && c@ == config_of(
                    self@,
                    principal_id@,
                ),
                None => !has_config(self@, principal_id@),
            }),
    {
        match self.find_index(principal_id.as_str()) {
            Some(i) => {
                let c = self.entries[i].clone();
                proof {
                    let k = choose|j: int|
                        0 <= j < self@.len() && self@[j].principal_id == principal_id@;
                    assert(has_config(self@, principal_id@));
                    assert(k == i as int);
                }
                Some(c)
            },
            None => None,
        }
    }

    /// Stores or replaces the principal's configuration.
    pub fn set_user_ai_config(&mut self, config: UserAiConfig) -> (r: Result<(), RewardError>)
        requires
            old(self).wf(),
        ensures
            r == Ok::<(), RewardError>(()),
            final(self).wf(),
            has_config(final(self)@, config@.principal_id),
            config_of(final(self)@, config@.principal_id) == config@,
            forall|pid: Seq<char>|
                pid != config@.principal_id ==> (#[trigger] has_config(final(self)@, pid)
                    == has_config(old(self)@, pid) && (has_config(old(self)@, pid) ==> config_of(
                    final(self)@,
                    pid,
                ) == config_of(old(self)@, pid))),
    {
        let ghost pre = self@;
        match self.find_index(config.principal_id.as_str()) {
            Some(i) => {
                self.entries.remove(i);
                self.entries.insert(i, config);
                proof {
                    assert(self@ =~= pre.update(i as int, config@));
                    lemma_unique_update(pre, i as int, config@);
                }
                Ok(())
            },
            None => {
                self.entries.push(config);
                proof {
                    assert(self@ =~= pre.push(config@));
                    lemma_unique_push(pre, config@);
                }
                Ok(())
            },
        }
    }

    /// Removes the principal's configuration; fails NotFound where the store
    /// holds none.
    pub fn delete_user_ai_config(&mut self, principal_id: String) -> (r: Result<(), RewardError>)
        requires
            old(self).wf(),
        ensures
            final(self).wf(),
            (match r {
                Ok(()) => has_config(old(self)@, principal_id@) && !has_config(
                    final(self)@,
                    principal_id@,
                ) && forall|pid: Seq<char>|
                    pid != principal_id@ ==> (#[trigger] has_config(final(self)@, pid)
                        == has_config(old(self)@, pid) && (has_config(old(self)@, pid)
                        ==> config_of(final(self)@, pid) == config_of(old(self)@, pid))),
                Err(e) => e == RewardError::NotFound && !has_config(old(self)@, principal_id@)
                    && final(self)@ == old(self)@,
            }),
    {
        let ghost pre = self@;
        match self.find_index(principal_id.as_str()) {
            Some(i) => {
                self.entries.remove(i);
                proof {
                    assert(self@ =~= pre.remove(i as int));
                    lemma_unique_remove(pre, i as int);
                }
                Ok(())
            },
            None => Err(RewardError::NotFound),
        }
    }

    /// Whether the store holds a configuration for the principal.
    pub fn has_user_ai_config(&self, principal_id: String) -> (r: bool)
        ensures
            r == has_config(self@, principal_id@),
    {
        match self.find_index(principal_id.as_str()) {
            Some(_) => true,
            None => false,
        }
    }
}

/// Updating the entry of one key keeps keys unique and every other key's
/// entry unchanged.
proof fn lemma_unique_update(s: Seq<UserAiConfigView>, k: int, c: UserAiConfigView)
    requires
        forall|i: int, j: int|
            0 <= i < j < s.len() ==> (#[trigger] s[i]).principal_id != (
            #[trigger] s[j]).principal_id,
        0 <= k < s.len(),
        s[k].principal_id == c.principal_id,
    ensures
        forall|i: int, j: int|
            0 <= i < j < s.update(k, c).len() ==> (#[trigger] s.update(k, c)[i]).principal_id != (
            #[trigger] s.update(k, c)[j]).principal_id,
        has_config(s.update(k, c), c.principal_id),
        config_of(s.update(k, c), c.principal_id) == c,
        forall|pid: Seq<char>|
            pid != c.principal_id ==> (#[trigger] has_config(s.update(k, c), pid) == has_config(
                s,
                pid,
            ) && (has_config(s, pid) ==> config_of(s.update(k, c), pid) == config_of(s, pid))),
{
    let t = s.update(k, c);
    assert(t[k] == c);
    assert forall|pid: Seq<char>| pid != c.principal_id implies (#[trigger] has_config(t, pid)
        == has_config(s, pid) && (has_config(s, pid) ==> config_of(t, pid) == config_of(
        s,
        pid,
    ))) by {
        if has_config(s, pid) {
            let i = choose|i: int| 0 <= i < s.len() && s[i].principal_id == pid;
            assert(i != k);
            assert(t[i].principal_id == pid);
            assert(has_config(t, pid));
            let j = choose|j: int| 0 <= j < t.len() && t[j].principal_id == pid;
            assert(j != k);
            assert(s[j].principal_id == pid);
            if i != j {
                assert(s[i].principal_id != s[j].principal_id);
            }
        }
        if has_config(t, pid) {
            let j = choose|j: int| 0 <= j < t.len() && t[j].principal_id == pid;
            assert(j != k);
            assert(s[j].principal_id == pid);
            assert(has_config(s, pid));
        }
    }
}

/// Appending an entry under a fresh key keeps keys unique and every other
/// key's entry unchanged.
proof fn lemma_unique_push(s: Seq<UserAiConfigView>, c: UserAiConfigView)
    requires
        forall|i: int, j: int|
            0 <= i < j < s.len() ==> (#[trigger] s[i]).principal_id != (
            #[trigger] s[j]).principal_id,
        !has_config(s, c.principal_id),
    ensures
        forall|i: int, j: int|
            0 <= i < j < s.push(c).len() ==> (#[trigger] s.push(c)[i]).principal_id != (
            #[trigger] s.push(c)[j]).principal_id,
        has_config(s.push(c), c.principal_id),
        config_of(s.push(c), c.principal_id) == c,
        forall|pid: Seq<char>|
            pid != c.principal_id ==> (#[trigger] has_config(s.push(c), pid) == has_config(s, pid)
                && (has_config(s, pid) ==> config_of(s.push(c), pid) == config_of(s, pid))),
{
    let t = s.push(c);
    assert(t[s.len() as int] == c);
    assert forall|i: int, j: int| 0 <= i < j < t.len() implies (#[trigger] t[i]).principal_id != (
    #[trigger] t[j]).principal_id by {
        if j < s.len() {
            assert(t[i] == s[i] && t[j] == s[j]);
        } else {
            assert(t[i] == s[i] && t[j] == c);
            assert(s[i].principal_id != c.principal_id);
        }
    }
    assert forall|pid: Seq<char>| pid != c.principal_id implies (#[trigger] has_config(t, pid)
        == has_config(s, pid) && (has_config(s, pid) ==> config_of(t, pid) == config_of(
        s,
        pid,
    ))) by {
        if has_config(s, pid) {
            let i = choose|i: int| 0 <= i < s.len() && s[i].principal_id == pid;
            assert(t[i].principal_id == pid);
            assert(has_config(t, pid));
            let j = choose|j: int| 0 <= j < t.len() && t[j].principal_id == pid;
            assert(j != s.len() as int);
            if i != j {
                assert(s[i].principal_id != s[j].principal_id);
            }
        }
        if has_config(t, pid) {
            let j = choose|j: int| 0 <= j < t.len() && t[j].principal_id == pid;
            assert(j != s.len() as int);
            assert(s[j].principal_id == pid);
            assert(has_config(s, pid));
        }
    }
}

/// Removing one key's entry keeps keys unique and every other key's entry
/// unchanged.
proof fn lemma_unique_remove(s: Seq<UserAiConfigView>, k: int)
    requires
        forall|i: int, j: int|
            0 <= i < j < s.len() ==> (#[trigger] s[i]).principal_id != (
            #[trigger] s[j]).principal_id,
        0 <= k < s.len(),
    ensures
        forall|i: int, j: int|
            0 <= i < j < s.remove(k).len() ==> (#[trigger] s.remove(k)[i]).principal_id != (
            #[trigger] s.remove(k)[j]).principal_id,
        !has_config(s.remove(k), s[k].principal_id),
        forall|pid: Seq<char>|
            pid != s[k].principal_id ==> (#[trigger] has_config(s.remove(k), pid) == has_config(
                s,
                pid,
            ) && (has_config(s, pid) ==> config_of(s.remove(k), pid) == config_of(s, pid))),
{
    let t = s.remove(k);
    assert forall|j: int| 0 <= j < t.len() implies (#[trigger] t[j]).principal_id != s[
        k].principal_id by {
        if j < k {
            assert(t[j] == s[j]);
        } else {
            assert(t[j] == s[j + 1]);
        }
    }
    assert forall|pid: Seq<char>| pid != s[k].principal_id implies (#[trigger] has_config(t, pid)
        == has_config(s, pid) && (has_config(s, pid) ==> config_of(t, pid) == config_of(
        s,
        pid,
    ))) by {
        if has_config(s, pid) {
            let i = choose|i: int| 0 <= i < s.len() && s[i].principal_id == pid;
            assert(i != k);
            let ti: int = if i < k {
                i
            } else {
                i - 1
            };
            assert(t[ti] == s[i]);
            assert(has_config(t, pid));
            let j = choose|j: int| 0 <= j < t.len() && t[j].principal_id == pid;
            let sj: int = if j < k {
                j
            } else {
                j + 1
            };
            assert(t[j] == s[sj]);
            if i != sj {
                assert(s[i].principal_id != s[sj].principal_id);
            }
        }
        if has_config(t, pid) {
            let j = choose|j: int| 0 <= j < t.len() && t[j].principal_id == pid;
            let sj: int = if j < k {
                j
            } else {
                j + 1
            };
            assert(t[j] == s[sj]);
            assert(has_config(s, pid));
        }
    }
}

} // verus!
