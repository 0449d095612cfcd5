use vstd::prelude::*;
use crate::cache::ScanCache;
use crate::text::str_eq;

verus! {

/// Where the interactive loop stands.
pub enum SessionState {
    /// No usable scan root: the user must be asked for one.
    AwaitingRoot,
    /// A root is set and candidates must be (re)discovered.
    Scanning,
    /// The last scan found no candidates; the user chooses how to go on.
    NoCandidates,
    /// A candidate is selected; the user chooses what to do with it.
    Selected,
    /// The session is over; concurrent work must be stopped.
    ShuttingDown,
}

/// What happened, reported by the surrounding loop.
pub enum SessionEvent {
    /// The user named a scan root.
    RootChosen { root: String },
    /// The root was unreadable or the traversal failed.
    ScanFailed,
    /// The scan succeeded and found no candidates.
    ScanEmpty,
    /// The selector picked this candidate.
    ItemPicked { path: String },
    /// The user asked to scan the current root afresh.
    UserRequestsRescan,
    /// The user asked to change to another root.
    UserRequestsNewRoot,
    /// The user quit.
    UserQuits,
}

/// What the surrounding loop must do next.
pub enum SessionAction {
    /// Ask the user for a root.
    PromptForRoot,
    /// Discover candidates under the current root.
    ScanCurrentRoot,
    /// Offer the no-candidates choices.
    OfferNoCandidateChoices,
    /// Offer the per-selection choices.
    OfferSelectionChoices,
    /// Stop the responder and exit.
    StopAndExit,
}

/// The state threaded through one interactive session: the control state,
/// the active scan root, and the scan cache. Keeping them in one value,
/// moved through every step, makes the cache-invalidation rules explicit
/// contracts of `step` instead of side effects scattered over the loop.
pub struct Session {
    pub state: SessionState,
    pub root: Option<String>,
    pub cache: ScanCache,
}

impl Session {
    /// A fresh session: no root chosen yet unless one came from the
    /// command line or the environment, nothing cached, about to scan or
    /// to prompt.
    pub fn new(initial_root: Option<String>) -> (s: Session)
        ensures
            s.cache.record is None,
            s.root == initial_root,
            initial_root is Some ==> s.state is Scanning,
            initial_root is None ==> s.state is AwaitingRoot,
    {
        match initial_root {
            Some(r) => Session {
                state: SessionState::Scanning,
                root: Some(r),
                cache: ScanCache::new(),
            },
            None => Session {
                state: SessionState::AwaitingRoot,
                root: None,
                cache: ScanCache::new(),
            },
        }
    }

    /// One transition of the session state machine. Every event is
    /// accepted in every state; the contract pins, for each event, the
    /// next state, the root, what happens to the cache, and the action
    /// handed back to the loop:
    ///
    /// - a newly chosen root puts the session into scanning; choosing a
    ///   root other than the current one empties the cache (a record for
    ///   another root is dead weight), while re-choosing the same root
    ///   keeps it;
    /// - a failed scan forgets the root and the cache and sends the user
    ///   back to the prompt;
    /// - an empty scan keeps root and cache (an empty candidate list is a
    ///   valid cached outcome) and offers the no-candidates choices;
    /// - a pick keeps root and cache and offers the selection choices;
    /// - an explicit rescan request empties the cache and scans again;
    /// - a request for a new root forgets root and cache and prompts;
    /// - quitting only moves to shutting down.
    pub fn step(&mut self, event: SessionEvent) -> (action: SessionAction)
        ensures
            match event {
                SessionEvent::RootChosen { root } => {
                    &&& final(self).state is Scanning
                    &&& final(self).root == Some(root)
                    &&& action is ScanCurrentRoot
                    &&& (match old(self).root {
                        Some(prev) => prev@ == root@ ==> final(self).cache == old(self).cache,
                        None => true,
                    })
                    &&& (match old(self).root {
                        Some(prev) => prev@ != root@ ==> final(self).cache.record is None,
                        None => final(self).cache.record is None,
                    })
                },
                SessionEvent::ScanFailed => {
                    &&& final(self).state is AwaitingRoot
                    &&& final(self).root is None
                    &&& final(self).cache.record is None
                    &&& action is PromptForRoot
                },
                SessionEvent::ScanEmpty => {
                    &&& final(self).state is NoCandidates
                    &&& final(self).root == old(self).root
                    &&& final(self).cache == old(self).cache
                    &&& action is OfferNoCandidateChoices
                },
                SessionEvent::ItemPicked { .. } => {
                    &&& final(self).state is Selected
                    &&& final(self).root == old(self).root
                    &&& final(self).cache == old(self).cache
                    &&& action is OfferSelectionChoices
                },
                SessionEvent::UserRequestsRescan => {
                    &&& final(self).state is Scanning
                    &&& final(self).root == old(self).root
                    &&& final(self).cache.record is None
                    &&& action is ScanCurrentRoot
                },
                SessionEvent::UserRequestsNewRoot => {
                    &&& final(self).state is AwaitingRoot
                    &&& final(self).root is None
                    &&& final(self).cache.record is None
                    &&& action is PromptForRoot
                },
                SessionEvent::UserQuits => {
                    &&& final(self).state is ShuttingDown
                    &&& final(self).root == old(self).root
                    &&& final(self).cache == old(self).cache
                    &&& action is StopAndExit
                },
            },
    {
        match event {
            SessionEvent::RootChosen { root } => {
                let same = match &self.root {
                    Some(prev) => str_eq(prev.as_str(), root.as_str()),
                    None => false,
                };
                if !same {
                    self.cache.invalidate();
                }
                self.state = SessionState::Scanning;
                self.root = Some(root);
                SessionAction::ScanCurrentRoot
            },
            SessionEvent::ScanFailed => {
                self.cache.invalidate();
                self.state = SessionState::AwaitingRoot;
                self.root = None;
                SessionAction::PromptForRoot
            },
            SessionEvent::ScanEmpty => {
                self.state = SessionState::NoCandidates;
                SessionAction::OfferNoCandidateChoices
            },
            SessionEvent::ItemPicked { .. } => {
                self.state = SessionState::Selected;
                SessionAction::OfferSelectionChoices
            },
            SessionEvent::UserRequestsRescan => {
                self.cache.invalidate();
                self.state = SessionState::Scanning;
                SessionAction::ScanCurrentRoot
            },
            SessionEvent::UserRequestsNewRoot => {
                self.cache.invalidate();
                self.state = SessionState::AwaitingRoot;
                self.root = None;
                SessionAction::PromptForRoot
            },
            SessionEvent::UserQuits => {
                self.state = SessionState::ShuttingDown;
                SessionAction::StopAndExit
            },
        }
    }
}

} // verus!
