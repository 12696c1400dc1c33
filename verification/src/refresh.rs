//! The tray's record of the latest quota fetch: whether one is running, what
//! it returned, and which port answered.

use vstd::prelude::*;
use crate::quota::{enabled_entries, validate_selection, validated, QuotaSummary};

verus! {

/// What the tray knows about the quota.
pub struct RefreshState {
    /// The latest summary received, if any.
    pub summary: Option<QuotaSummary>,
    /// The error of the latest fetch, when it failed.
    pub quota_error: Option<String>,
    /// The port that answered last.
    pub connected_port: Option<u16>,
    /// Whether a fetch is running.
    pub loading: bool,
}

impl RefreshState {
    /// Nothing fetched yet, nothing running.
    pub fn new() -> (r: RefreshState)
        ensures
            r.summary is None,
            r.quota_error is None,
            r.connected_port is None,
            !r.loading,
    {
        RefreshState { summary: None, quota_error: None, connected_port: None, loading: false }
    }

    /// Starts a fetch unless one is running: the answer is the port to try
    /// first (the one that answered last), or `None` when a fetch is already
    /// running and nothing was started.
    pub fn begin_refresh(&mut self) -> (r: Option<Option<u16>>)
        ensures
            old(self).loading ==> r is None && *final(self) == *old(self),
            !old(self).loading ==> r == Some(old(self).connected_port) && final(self).loading
                && final(self).summary == old(self).summary
                && final(self).quota_error == old(self).quota_error
                && final(self).connected_port == old(self).connected_port,
    {
        if self.loading {
            None
        } else {
            self.loading = true;
            Some(self.connected_port)
        }
    }

    /// Records the outcome of a fetch. A summary replaces the previous one,
    /// clears the error, remembers the port and brings the menu bar selection
    /// back to an enabled bucket; an error is kept and the previous summary
    /// stays. Answers whether a summary arrived (the settings then need saving).
    pub fn finish_refresh(&mut self, result: Result<(QuotaSummary, u16), String>, selection: &mut String) -> (r: bool)
        ensures
            !final(self).loading,
            match result {
                Ok((summary, port)) => {
                    &&& r
                    &&& final(self).summary == Some(summary)
                    &&& final(self).quota_error is None
                    &&& final(self).connected_port == Some(port)
                    &&& final(selection)@ == validated(enabled_entries(summary), old(selection)@)
                },
                Err(error) => {
                    &&& !r
                    &&& final(self).summary == old(self).summary
                    &&& final(self).quota_error == Some(error)
                    &&& final(self).connected_port == old(self).connected_port
                    &&& final(selection)@ == old(selection)@
                },
            },
    {
        self.loading = false;
        match result {
            Ok((summary, port)) => {
                validate_selection(&summary, selection);
                self.summary = Some(summary);
                self.connected_port = Some(port);
                self.quota_error = None;
                true
            },
            Err(error) => {
                self.quota_error = Some(error);
                false
            },
        }
    }

    /// Whether the popover shows the error banner for these states.
    pub fn has_error(&self, action_error: bool) -> (r: bool)
        ensures
            r == (self.quota_error is Some || action_error),
    {
        self.quota_error.is_some() || action_error
    }
}

} // verus!
