//! Hot reload: the live configuration with its version counter, and the
//! decision of when the config file is read again.
//!
//! The file watching and the waiting happen outside this module; here is
//! what every poll and every reload does to the state.

use std::sync::Arc;
use vstd::prelude::*;

use crate::config::Config;

verus! {

/// Modification time of the config file, as the watcher observed it: a
/// distance from the Unix epoch, and on which side of the epoch it lies.
#[derive(Debug, Clone, Copy, PartialEq, Eq, Structural)]
pub struct FileStamp {
    pub before_epoch: bool,
    pub secs: u64,
    pub nanos: u32,
}

/// The version after `v`: one more, wrapping around to 0 after `u64::MAX`.
pub open spec fn next_version(v: u64) -> u64 {
    if v == u64::MAX {
        0
    } else {
        (v + 1) as u64
    }
}

/// A successful reload always releases the overlays waiting on the version
/// they were rendered with: the new version differs from the old one.
pub proof fn law_reload_changes_version(v: u64)
    ensures
        next_version(v) != v,
{
}

/// What a reload leaves live, from the live configuration and version and
/// the outcome of reading the file: a valid configuration and the next
/// version, or, for an invalid file, both unchanged.
pub open spec fn reloaded(current: Config, version: u64, loaded: Option<Config>) -> (Config, u64) {
    match loaded {
        Some(c) => (c, next_version(version)),
        None => (current, version),
    }
}

/// Whether a poll that reads the modification time `modified` acts on it,
/// the last time acted on being `last`: only a readable, new time does.
pub open spec fn sees_change(last: Option<FileStamp>, modified: Option<FileStamp>) -> bool {
    modified is Some && modified != last
}

/// Live configuration shared by every handler, and the version that is
/// bumped on every successful reload.
#[derive(Debug)]
pub struct LiveConfig {
    config: Arc<Config>,
    version: u64,
}

impl LiveConfig {
    /// The configuration currently live.
    pub closed spec fn current(&self) -> Config {
        *self.config
    }

    /// The current version.
    pub closed spec fn version_of(&self) -> u64 {
        self.version
    }

    /// The initial configuration, at version 0.
    pub fn new(config: Config) -> (r: Self)
        ensures
            r.current() == config,
            r.version_of() == 0,
    {
        LiveConfig { config: Arc::new(config), version: 0 }
    }

    /// Current configuration snapshot.
    pub fn config(&self) -> (r: &Arc<Config>)
        ensures
            **r == self.current(),
    {
        &self.config
    }

    /// Bumped on every successful reload.
    pub fn version(&self) -> (r: u64)
        ensures
            r == self.version_of(),
    {
        self.version
    }

    /// Whether a waiter that last saw version `since` has to keep waiting.
    pub fn should_wait(&self, since: u64) -> (r: bool)
        ensures
            r == (self.version_of() == since),
    {
        self.version == since
    }

    /// Applies the outcome of reading the config file again: a valid
    /// configuration replaces the live one and bumps the version (wrapping);
    /// an invalid one (`None`) is ignored and the previous one stays live.
    pub fn reload(&mut self, loaded: Option<Config>) -> (swapped: bool)
        ensures
            swapped == loaded is Some,
            (final(self).current(), final(self).version_of()) == reloaded(
                old(self).current(),
                old(self).version_of(),
                loaded,
            ),
            loaded matches Some(c) ==> final(self).current() == c
                && final(self).version_of() == next_version(old(self).version_of()),
            loaded is None ==> *final(self) == *old(self),
    {
        match loaded {
            Some(config) => {
                self.config = Arc::new(config);
                self.version = self.version.wrapping_add(1);
                true
            },
            None => false,
        }
    }
}

/// What the watcher remembers between polls: the last modification time it
/// acted on.
#[derive(Debug, Clone, Copy)]
pub struct WatchState {
    pub last_modified: Option<FileStamp>,
}

impl WatchState {
    /// Starts from the modification time seen at startup.
    pub fn new(initial: Option<FileStamp>) -> (r: Self)
        ensures
            r.last_modified == initial,
    {
        WatchState { last_modified: initial }
    }

    /// One poll of the file's modification time: a missing or unreadable
    /// file (`None`, usually an editor mid-save) and an unchanged time do
    /// nothing; a new time is remembered and asks for a reload.
    pub fn observe(&mut self, modified: Option<FileStamp>) -> (reload: bool)
        ensures
            reload == sees_change(old(self).last_modified, modified),
            final(self).last_modified == if reload { modified } else { old(self).last_modified },
    {
        match modified {
            None => false,
            Some(m) => {
                let same = match self.last_modified {
                    Some(last) => last == m,
                    None => false,
                };
                if same {
                    false
                } else {
                    self.last_modified = Some(m);
                    true
                }
            },
        }
    }
}

/// What one poll does to the watcher's memory, the live configuration and
/// the version: `poll.0` is the modification time read, `poll.1` what reading
/// the file would give. The poll goes by `WatchState::observe` and, when that
/// asks for it, `LiveConfig::reload`.
pub open spec fn poll_step(
    state: (Option<FileStamp>, Config, u64),
    poll: (Option<FileStamp>, Option<Config>),
) -> (Option<FileStamp>, Config, u64) {
    if sees_change(state.0, poll.0) {
        let (c, v) = reloaded(state.1, state.2, poll.1);
        (poll.0, c, v)
    } else {
        state
    }
}

/// The state after the polls `polls`, in order, from `state`.
pub open spec fn after_polls(
    state: (Option<FileStamp>, Config, u64),
    polls: Seq<(Option<FileStamp>, Option<Config>)>,
) -> (Option<FileStamp>, Config, u64)
    decreases polls.len(),
{
    if polls.len() == 0 {
        state
    } else {
        poll_step(after_polls(state, polls.drop_last()), polls.last())
    }
}

/// Whether the last of `polls` reloads successfully: it sees a new time and
/// the file is valid.
pub open spec fn last_poll_reloads(
    state: (Option<FileStamp>, Config, u64),
    polls: Seq<(Option<FileStamp>, Option<Config>)>,
) -> bool {
    polls.len() > 0 && sees_change(after_polls(state, polls.drop_last()).0, polls.last().0)
        && polls.last().1 is Some
}

/// How many of `polls` reload successfully.
pub open spec fn successful_reloads(
    state: (Option<FileStamp>, Config, u64),
    polls: Seq<(Option<FileStamp>, Option<Config>)>,
) -> nat
    decreases polls.len(),
{
    if polls.len() == 0 {
        0
    } else {
        successful_reloads(state, polls.drop_last()) + if last_poll_reloads(state, polls) {
            1nat
        } else {
            0nat
        }
    }
}

/// Over any run of polls, the version is bumped exactly once per successful
/// reload (wrapping after `u64::MAX`); a poll that does not reload
/// successfully (no new time, or an invalid file) leaves the configuration
/// and the version as they were; and with no successful reload at all the
/// initial configuration is still live.
pub proof fn law_version_counts_reloads(
    state: (Option<FileStamp>, Config, u64),
    polls: Seq<(Option<FileStamp>, Option<Config>)>,
)
    ensures
        after_polls(state, polls).2 == (state.2 + successful_reloads(state, polls)) % 0x1_0000_0000_0000_0000,
        polls.len() > 0 && !last_poll_reloads(state, polls) ==> after_polls(state, polls).1 == after_polls(
            state,
            polls.drop_last(),
        ).1 && after_polls(state, polls).2 == after_polls(state, polls.drop_last()).2,
        successful_reloads(state, polls) == 0 ==> after_polls(state, polls).1 == state.1,
    decreases polls.len(),
{
    if polls.len() > 0 {
        let prev = polls.drop_last();
        law_version_counts_reloads(state, prev);
        let a: int = state.2 + successful_reloads(state, prev);
        let m: int = 0x1_0000_0000_0000_0000;
        if last_poll_reloads(state, polls) {
            let x = after_polls(state, prev).2;
            assert(x == a % m);
            vstd::arithmetic::div_mod::lemma_add_mod_noop(a, 1, m);
            assert(1int % m == 1);
            assert(next_version(x) == (x + 1) % m);
        }
    }
}

} // verus!
