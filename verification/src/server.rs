//! What the tool server decides: how a question is read, and when the index and the reranker are
//! loaded.

use vstd::prelude::*;

use crate::config::DEFAULT_K;
use crate::text::{optional, strings};

verus! {

/// A question to the search tool.
#[derive(Debug)]
pub struct SearchParams {
    /// The question in plain words.
    pub query: String,
    /// How many passages to return.
    pub k: Option<usize>,
    /// The document that the search is limited to.
    pub filename: Option<String>,
}

impl SearchParams {
    /// How many passages are asked for.
    pub fn wanted(&self) -> (k: usize)
        ensures
            k == (match self.k {
                Some(k) => k,
                None => DEFAULT_K,
            }),
    {
        match self.k {
            Some(k) => k,
            None => DEFAULT_K,
        }
    }

    /// The documents that the search is limited to, where it is.
    pub fn scope(&self) -> (r: Option<Vec<String>>)
        ensures
            match r {
                Some(names) => optional(self.filename) == Some(strings(names@)[0]) && names@.len()
                    == 1,
                None => self.filename is None,
            },
    {
        match &self.filename {
            Some(name) => {
                let mut names: Vec<String> = Vec::new();
                names.push(name.clone());
                Some(names)
            },
            None => None,
        }
    }
}

/// A time on the clock of the file system: seconds and nanoseconds.
pub type Stamp = (u64, u32);

/// What the server knows of the index it serves and of its reranker.
#[derive(Clone, Copy, Debug, PartialEq, Eq)]
pub struct ServerState {
    /// When the index that is served was written. Other processes write the same index, so that a
    /// request opens it again where this has moved.
    pub stamp: Option<Stamp>,
    pub reranker_loaded: bool,
    /// Loading the reranker failed once: searching goes on with fused ranks, and a broken download
    /// is not tried again with every question.
    pub reranker_unavailable: bool,
}

impl ServerState {
    /// A server that has just opened its index.
    pub fn new(stamp: Option<Stamp>) -> (r: Self)
        ensures
            r == (ServerState { stamp, reranker_loaded: false, reranker_unavailable: false }),
    {
        ServerState { stamp, reranker_loaded: false, reranker_unavailable: false }
    }

    /// Whether the index has to be opened again, given when it was written.
    pub fn index_moved(&self, current: Option<Stamp>) -> (r: bool)
        ensures
            r == (current != self.stamp),
    {
        match (current, self.stamp) {
            (Some(a), Some(b)) => a.0 != b.0 || a.1 != b.1,
            (None, None) => false,
            _ => true,
        }
    }

    /// Takes in whether opening the index again worked. Where it did not, the previous copy is served
    /// on, and the next request tries again.
    pub fn reopened(&mut self, current: Option<Stamp>, opened: bool)
        ensures
            *final(self) == old(self).after_opening(current, opened),
            opened ==> final(self).stamp == current,
            !opened ==> final(self).stamp == old(self).stamp,
            final(self).reranker_loaded == old(self).reranker_loaded,
            final(self).reranker_unavailable == old(self).reranker_unavailable,
    {
        if opened {
            self.stamp = current;
        }
    }

    /// The reranker has not been tried yet.
    pub open spec fn lacks_reranker(&self) -> bool {
        !self.reranker_unavailable && !self.reranker_loaded
    }

    /// What the server knows after loading the reranker worked or failed.
    pub open spec fn after_trying(&self, loaded: bool) -> ServerState {
        ServerState {
            reranker_loaded: self.reranker_loaded || loaded,
            reranker_unavailable: self.reranker_unavailable || !loaded,
            ..*self
        }
    }

    /// What the server knows after opening the index again worked or failed.
    pub open spec fn after_opening(&self, current: Option<Stamp>, opened: bool) -> ServerState {
        if opened {
            ServerState { stamp: current, ..*self }
        } else {
            *self
        }
    }

    /// Whether the reranker is to be loaded for the next question.
    pub fn wants_reranker(&self) -> (r: bool)
        ensures
            r == self.lacks_reranker(),
            r <==> !self.reranker_loaded && !self.reranker_unavailable,
    {
        !self.reranker_unavailable && !self.reranker_loaded
    }

    /// Takes in whether loading the reranker worked.
    pub fn reranker_tried(&mut self, loaded: bool)
        ensures
            *final(self) == old(self).after_trying(loaded),
            loaded ==> final(self).reranker_loaded,
            !loaded ==> final(self).reranker_unavailable,
            !loaded ==> final(self).reranker_loaded == old(self).reranker_loaded,
            loaded ==> final(self).reranker_unavailable == old(self).reranker_unavailable,
            final(self).stamp == old(self).stamp,
    {
        if loaded {
            self.reranker_loaded = true;
        } else {
            self.reranker_unavailable = true;
        }
    }
}

/// The reranker is tried once: whatever came of it, it is not asked for again, also where the index
/// is opened again in between.
pub proof fn the_reranker_is_tried_once(
    state: ServerState,
    loaded: bool,
    current: Option<Stamp>,
    opened: bool,
)
    ensures
        !state.after_trying(loaded).lacks_reranker(),
        !state.after_trying(loaded).after_opening(current, opened).lacks_reranker(),
{
}

/// An index that could not be opened is tried again with the next request, and one that could be
/// opened is not opened again until it is written again.
pub proof fn a_failed_reload_is_tried_again(
    state: ServerState,
    current: Option<Stamp>,
    opened: bool,
)
    requires
        current != state.stamp,
    ensures
        opened <==> current == state.after_opening(current, opened).stamp,
{
}

} // verus!
