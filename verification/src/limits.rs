//! What the system and the repository allow for, and when to warn.
use vstd::prelude::*;
use vstd::string::*;

use crate::message::FALLBACK_REFRESH_SECS;
use crate::text::append_number;
use crate::text::chars_of;
use crate::text::decimal;
use crate::text::has_text;
use crate::text::lower_text;
use crate::text::stands_at;
use crate::text::stands_in;
use crate::text::to_lower;

verus! {

/// The most file descriptors that are counted on.
pub const MAX_FD_LIMIT: usize = 100_000;

/// How many file descriptors are counted on where the system does not tell.
pub const DEFAULT_FD_LIMIT: usize = 256;

/// What the system allows for.
#[derive(Clone, Copy, Debug, PartialEq, Eq, Structural)]
pub struct SystemLimits {
    /// How many files may be open at once.
    pub fd_soft_limit: usize,
    /// How many directories should be watched at most: half of that.
    pub max_recommended_watches: usize,
}

/// How many directories there are to watch, and how many of them cannot be.
#[derive(Clone, Copy, Debug, PartialEq, Eq, Structural)]
pub struct WatcherMetrics {
    pub directory_count: usize,
    pub skipped_count: usize,
}

impl Default for WatcherMetrics {
    fn default() -> (r: Self)
        ensures
            r.directory_count == 0,
            r.skipped_count == 0,
    {
        WatcherMetrics { directory_count: 0, skipped_count: 0 }
    }
}

/// How large a diff is.
#[derive(Clone, Copy, Debug, PartialEq, Eq, Structural)]
pub struct DiffMetrics {
    pub total_lines: usize,
    pub file_count: usize,
}

impl Default for DiffMetrics {
    fn default() -> (r: Self)
        ensures
            r.total_lines == 0,
            r.file_count == 0,
    {
        DiffMetrics { total_lines: 0, file_count: 0 }
    }
}

/// How many file descriptors are counted on, given what the system tells.
pub open spec fn counted_on(limit: Option<u64>) -> usize {
    match limit {
        Some(n) => if n <= MAX_FD_LIMIT {
            n as usize
        } else {
            MAX_FD_LIMIT
        },
        None => DEFAULT_FD_LIMIT,
    }
}

/// How many file descriptors are counted on, given what the system tells.
pub fn get_fd_soft_limit(limit: Option<u64>) -> (r: usize)
    ensures
        r == counted_on(limit),
{
    match limit {
        Some(n) => if n <= MAX_FD_LIMIT as u64 {
            n as usize
        } else {
            MAX_FD_LIMIT
        },
        None => DEFAULT_FD_LIMIT,
    }
}

impl SystemLimits {
    /// What the system allows for, given the number of file descriptors that it tells.
    pub fn detect(limit: Option<u64>) -> (r: SystemLimits)
        ensures
            r.fd_soft_limit == counted_on(limit),
            r.max_recommended_watches == r.fd_soft_limit / 2,
    {
        let fd_soft_limit = get_fd_soft_limit(limit);
        SystemLimits { fd_soft_limit, max_recommended_watches: fd_soft_limit / 2 }
    }

    /// A warning where not all directories can be watched, or where they are too many.
    pub fn check_watch_warning(&self, metrics: &WatcherMetrics) -> (r: Option<String>)
        ensures
            r.deep_view() == (if metrics.skipped_count > 0 || metrics.directory_count
                > self.max_recommended_watches {
                Some("Large repo: refreshing every "@ + decimal(FALLBACK_REFRESH_SECS as nat) + "s"@)
            } else {
                None
            }),
    {
        if metrics.skipped_count > 0 || metrics.directory_count > self.max_recommended_watches {
            let mut text = String::from_str("Large repo: refreshing every ");
            append_number(&mut text, FALLBACK_REFRESH_SECS);
            text.append("s");
            Some(text)
        } else {
            None
        }
    }
}

/// Whether the system is the Windows Subsystem for Linux, given the text of `/proc/version`: it
/// names Microsoft, in upper or lower case.
pub fn is_wsl(version: Option<&str>) -> (r: bool)
    ensures
        r == (version is Some && has_text(lower_text(version->0@), "microsoft"@)),
{
    match version {
        Some(text) => {
            let cs = chars_of(text);
            let needle = chars_of("microsoft");
            let ghost lower = lower_text(text@);
            let mut small: Vec<char> = Vec::new();
            let mut i: usize = 0;
            while i < cs.len()
                invariant
                    i <= cs@.len(),
                    cs@ == text@,
                    lower == lower_text(text@),
                    small@ =~= lower.take(i as int),
                decreases cs.len() - i,
            {
                small.push(to_lower(cs[i]));
                i = i + 1;
            }
            assert(small@ =~= lower);
            i = 0;
            while i < small.len()
                invariant
                    i <= small@.len(),
                    small@ == lower,
                    version == Some(text),
                    lower == lower_text(text@),
                    needle@ == "microsoft"@,
                    forall|k: int| 0 <= k < i ==> !stands_at(lower, needle@, k),
                decreases small.len() - i,
            {
                if stands_in(small.as_slice(), needle.as_slice(), i) {
                    assert(stands_at(lower, "microsoft"@, i as int));
                    return true;
                }
                i = i + 1;
            }
            proof {
                reveal_strlit("microsoft");
            }
            false
        },
        None => false,
    }
}

/// From which size on a diff is warned of.
#[derive(Clone, Copy, Debug, PartialEq, Eq, Structural)]
pub struct DiffThresholds {
    pub warn_line_count: usize,
    pub warn_file_count: usize,
}

impl Default for DiffThresholds {
    fn default() -> (r: Self)
        ensures
            r.warn_line_count == 50_000,
            r.warn_file_count == 500,
    {
        DiffThresholds { warn_line_count: 50_000, warn_file_count: 500 }
    }
}

impl DiffThresholds {
    /// A warning where a diff has too many lines, or else where it has too many files.
    pub fn check_diff_warning(&self, metrics: &DiffMetrics) -> (r: Option<String>)
        ensures
            r.deep_view() == (if metrics.total_lines > self.warn_line_count {
                Some("Large diff: "@ + decimal((metrics.total_lines / 1000) as nat) + "k lines"@)
            } else if metrics.file_count > self.warn_file_count {
                Some("Many files: "@ + decimal(metrics.file_count as nat))
            } else {
                None
            }),
    {
        if metrics.total_lines > self.warn_line_count {
            let mut text = String::from_str("Large diff: ");
            append_number(&mut text, (metrics.total_lines / 1000) as u64);
            text.append("k lines");
            Some(text)
        } else if metrics.file_count > self.warn_file_count {
            let mut text = String::from_str("Many files: ");
            append_number(&mut text, metrics.file_count as u64);
            Some(text)
        } else {
            None
        }
    }
}

/// Directories as they are watched, one after the other, up to a limit.
#[derive(Clone, Copy, Debug, PartialEq, Eq, Structural)]
pub struct WatchCount {
    pub metrics: WatcherMetrics,
    pub added: usize,
    pub limit: usize,
}

impl WatchCount {
    /// Every directory so far is watched or was passed over, and no more are watched than allowed.
    pub open spec fn wf(self) -> bool {
        &&& self.added + self.metrics.skipped_count == self.metrics.directory_count
        &&& self.added <= self.limit
    }

    /// No directory so far. Without a limit, as many as there are may be watched.
    pub fn new(limit: Option<usize>) -> (r: WatchCount)
        ensures
            r.wf(),
            r.metrics.directory_count == 0,
            r.limit == (match limit {
                Some(limit) => limit,
                None => usize::MAX,
            }),
    {
        WatchCount {
            metrics: WatcherMetrics { directory_count: 0, skipped_count: 0 },
            added: 0,
            limit: match limit {
                Some(limit) => limit,
                None => usize::MAX,
            },
        }
    }

    /// Whether another directory may be watched.
    pub fn has_room(&self) -> (r: bool)
        ensures
            r == (self.added < self.limit),
    {
        self.added < self.limit
    }

    /// One more directory: watched, where there was room and it could be, or passed over.
    pub fn count(&mut self, watched: bool)
        requires
            old(self).wf(),
            old(self).metrics.directory_count < usize::MAX,
            watched ==> old(self).added < old(self).limit,
        ensures
            final(self).wf(),
            final(self).limit == old(self).limit,
            final(self).metrics.directory_count == old(self).metrics.directory_count + 1,
            final(self).added == old(self).added + (if watched {
                1int
            } else {
                0
            }),
            final(self).metrics.skipped_count == old(self).metrics.skipped_count + (if watched {
                0int
            } else {
                1
            }),
    {
        self.metrics.directory_count = self.metrics.directory_count + 1;
        if watched {
            self.added = self.added + 1;
        } else {
            self.metrics.skipped_count = self.metrics.skipped_count + 1;
        }
    }
}

/// Half of what the system allows for is left to other uses, however much that is.
pub proof fn law_watches_leave_room(limit: Option<u64>)
    ensures
        2 * (counted_on(limit) / 2) <= counted_on(limit) <= MAX_FD_LIMIT,
{
}

/// As many file descriptors are counted on as the system allows for, but never more than a hundred
/// thousand; where it does not tell, as many as every system has.
pub proof fn law_limits_are_what_the_system_tells(limit: Option<u64>, n: u64)
    ensures
        limit is None ==> counted_on(limit) == 256,
        n <= 100_000 ==> counted_on(Some(n)) == n,
        n >= 100_000 ==> counted_on(Some(n)) == 100_000,
{
}

} // verus!
