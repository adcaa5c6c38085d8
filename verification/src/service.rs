//! The peer registry, the recorded tally, and the stop signal of one
//! election run, behind one interface meant to sit inside a single
//! mutual-exclusion critical section.
//!
//! `admit` is the one logically atomic step that checks membership, inserts
//! the peer identity and records the ballot: there is no separate
//! check-then-insert that two handlers could interleave. Whoever holds the
//! service, holds all of it; no two ballots are ever recorded for one
//! identity.

use vstd::prelude::*;

use crate::ballot::{Ballot, EntryV};
use crate::codec::{names_view, parse_ballot, spec_parse, ParseError};

verus! {

/// The service state as specifications see it: the admitted identities in
/// admission order, the recorded ballots (one per identity, same order),
/// and the stop signal.
pub struct ServiceView {
    /// Admitted peer identities, in admission order.
    pub peers: Seq<Seq<char>>,
    /// Recorded ballots: `casts[i]` was cast by `peers[i]`.
    pub casts: Seq<Seq<EntryV>>,
    /// Whether an operator has requested the stop of the run.
    pub stop: bool,
}

/// No identity appears twice.
pub open spec fn peers_unique(peers: Seq<Seq<char>>) -> bool {
    forall|i: int, j: int| 0 <= i < j < peers.len() ==> peers[i] != peers[j]
}

/// What admitting `id` with `ballot` does to the service: already-admitted
/// identities are turned away untouched, new ones are registered and their
/// ballot recorded.
pub open spec fn spec_admit(v: ServiceView, id: Seq<char>, ballot: Seq<EntryV>) -> (ServiceView, bool) {
    if v.peers.contains(id) {
        (v, false)
    } else {
        (
            ServiceView {
                peers: v.peers.push(id),
                casts: v.casts.push(ballot),
                stop: v.stop,
            },
            true,
        )
    }
}

/// What the connection handler replies once it holds the ballot text.
#[derive(Clone, Copy, Debug, PartialEq, Eq, Structural)]
pub enum Reply {
    /// The identity had already been admitted: the `VOTED` sentinel goes
    /// back and nothing is recorded.
    AlreadyVoted,
    /// The ballot text was rejected; nothing is recorded.
    Rejected(ParseError),
    /// The ballot was recorded.
    Accepted,
}

/// One election run's shared state: registry, tally and stop signal.
pub struct VoteService {
    peers: Vec<String>,
    ballots: Vec<Ballot>,
    stop: bool,
}

impl VoteService {
    /// The service as specifications see it.
    pub closed spec fn view(&self) -> ServiceView {
        ServiceView {
            peers: self.peers@.map_values(|s: String| s@),
            casts: self.ballots@.map_values(|b: Ballot| b@),
            stop: self.stop,
        }
    }

    /// A well-formed service: identities unique, one recorded ballot per
    /// admitted identity.
    pub open spec fn wf(&self) -> bool {
        peers_unique(self@.peers) && self@.casts.len() == self@.peers.len()
    }

    /// A fresh run: nobody admitted, nothing recorded, not stopped.
    pub fn new() -> (r: VoteService)
        ensures
            r.wf(),
            r@.peers == Seq::<Seq<char>>::empty(),
            r@.casts == Seq::<Seq<EntryV>>::empty(),
            !r@.stop,
    {
        let r = VoteService { peers: Vec::new(), ballots: Vec::new(), stop: false };
        proof {
            assert(r@.peers =~= Seq::<Seq<char>>::empty());
            assert(r@.casts =~= Seq::<Seq<EntryV>>::empty());
        }
        r
    }

    /// Whether this identity has already been admitted.
    pub fn already_voted(&self, id: &String) -> (r: bool)
        ensures
            r == self@.peers.contains(id@),
    {
        let n = self.peers.len();
        let mut i: usize = 0;
        while i < n
            invariant
                n == self.peers@.len(),
                i <= n,
                forall|k: int| 0 <= k < i ==> (#[trigger] self.peers@[k])@ != id@,
            decreases n - i,
        {
            if self.peers[i] == *id {
                proof {
                    assert(self@.peers[i as int] == id@);
                }
                return true;
            }
            i += 1;
        }
        proof {
            assert forall|k: int| 0 <= k < self@.peers.len() implies self@.peers[k] != id@ by {
                assert(self@.peers[k] == self.peers@[k]@);
            }
        }
        false
    }

    /// The one atomic admission step: if the identity is new, registers it
    /// and records the ballot, else changes nothing. Returns whether the
    /// ballot was recorded.
    pub fn cast(&mut self, id: String, ballot: Ballot) -> (admitted: bool)
        requires
            old(self).wf(),
        ensures
            final(self).wf(),
            (final(self)@, admitted) == spec_admit(old(self)@, id@, ballot@),
    {
        if self.already_voted(&id) {
            false
        } else {
            let ghost v0 = self@;
            self.peers.push(id);
            self.ballots.push(ballot);
            proof {
                assert(self@.peers =~= v0.peers.push(id@));
                assert(self@.casts =~= v0.casts.push(ballot@));
            }
            true
        }
    }

    /// The connection handler's decision once the peer's response text is
    /// in hand: parse it against the known names and admit the ballot,
    /// atomically with the registry check.
    pub fn handle_ballot(
        &mut self,
        id: String,
        payload: &str,
        known_names: &Vec<String>,
    ) -> (r: Reply)
        requires
            old(self).wf(),
        ensures
            final(self).wf(),
            final(self)@.stop == old(self)@.stop,
            match r {
                Reply::AlreadyVoted => final(self)@ == old(self)@ && old(self)@.peers.contains(
                    id@,
                ),
                Reply::Rejected(e) => final(self)@ == old(self)@ && !old(self)@.peers.contains(id@)
                    && spec_parse(payload@, names_view(known_names@)) == Err::<Seq<EntryV>, _>(e),
                Reply::Accepted => ({
                    let parsed = spec_parse(payload@, names_view(known_names@));
                    &&& !old(self)@.peers.contains(id@)
                    &&& parsed is Ok
                    &&& final(self)@.peers == old(self)@.peers.push(id@)
                    &&& final(self)@.casts == old(self)@.casts.push(parsed->Ok_0)
                }),
            },
    {
        if self.already_voted(&id) {
            return Reply::AlreadyVoted;
        }
        match parse_ballot(payload, known_names) {
            Ok(ballot) => {
                let admitted = self.cast(id, ballot);
                proof {
                    assert(admitted);
                }
                Reply::Accepted
            },
            Err(e) => Reply::Rejected(e),
        }
    }

    /// How many ballots the tally holds.
    pub fn ballot_count(&self) -> (r: usize)
        ensures
            r == self@.casts.len(),
    {
        self.ballots.len()
    }

    /// The admitted identities, in admission order.
    pub fn peer_list(&self) -> (r: Vec<String>)
        ensures
            r@.map_values(|s: String| s@) == self@.peers,
    {
        let mut out: Vec<String> = Vec::new();
        let n = self.peers.len();
        let mut i: usize = 0;
        while i < n
            invariant
                n == self.peers@.len(),
                i <= n,
                out@.len() == i,
                forall|k: int| 0 <= k < i ==> (#[trigger] out@[k])@ == self.peers@[k]@,
            decreases n - i,
        {
            out.push(self.peers[i].clone());
            i += 1;
        }
        proof {
            assert(out@.map_values(|s: String| s@) =~= self@.peers);
        }
        out
    }

    /// The recorded ballots, in admission order.
    pub fn ballots(&self, i: usize) -> (r: &Ballot)
        requires
            i < self@.casts.len(),
        ensures
            r@ == self@.casts[i as int],
    {
        &self.ballots[i]
    }

    /// Whether the dispatcher may accept a connection: only until a stop
    /// was requested.
    pub fn should_accept(&self) -> (r: bool)
        ensures
            r == !self@.stop,
    {
        !self.stop
    }

    /// Requests the stop of the run: the dispatcher accepts no further
    /// connections. Registry and tally are untouched.
    pub fn request_stop(&mut self)
        ensures
            final(self)@.stop,
            final(self)@.peers == old(self)@.peers,
            final(self)@.casts == old(self)@.casts,
    {
        self.stop = true;
    }
}

/// What the operator picked from the control menu.
#[derive(Clone, Copy, Debug, PartialEq, Eq, Structural)]
pub enum OperatorAction {
    /// Show the current tally and derived results.
    ShowStatus,
    /// List the admitted peer identities.
    ListPeers,
    /// Request shutdown: stop accepting, wait for the drain.
    CloseElection,
}

/// Maps the operator menu index to its action: status, peer list, close;
/// anything else is an incorrect choice.
pub fn operator_action(choice: usize) -> (r: Option<OperatorAction>)
    ensures
        r == (if choice == 0 {
            Some(OperatorAction::ShowStatus)
        } else if choice == 1 {
            Some(OperatorAction::ListPeers)
        } else if choice == 2 {
            Some(OperatorAction::CloseElection)
        } else {
            None::<OperatorAction>
        }),
{
    if choice == 0 {
        Some(OperatorAction::ShowStatus)
    } else if choice == 1 {
        Some(OperatorAction::ListPeers)
    } else if choice == 2 {
        Some(OperatorAction::CloseElection)
    } else {
        None
    }
}

/// The sentinel sent to a peer whose identity has already voted.
pub fn voted_sentinel() -> (r: &'static str)
    ensures
        r@ == "VOTED"@,
{
    "VOTED"
}

/// Folds a sequence of admission attempts over the service.
pub open spec fn run_admissions(v: ServiceView, events: Seq<(Seq<char>, Seq<EntryV>)>) -> ServiceView
    decreases events.len(),
{
    if events.len() == 0 {
        v
    } else {
        run_admissions(spec_admit(v, events[0].0, events[0].1).0, events.drop_first())
    }
}

/// At most one of two admissions of the same identity is ever admitted, in
/// either order and with anything happening in between; the other leaves
/// the service untouched. With `admit` as the only step that registers or
/// records, no two ballots are ever recorded for one identity.
pub proof fn lemma_no_double_vote(
    v: ServiceView,
    id: Seq<char>,
    b1: Seq<EntryV>,
    b2: Seq<EntryV>,
    mid: Seq<(Seq<char>, Seq<EntryV>)>,
)
    ensures
        ({
            let (v1, a1) = spec_admit(v, id, b1);
            let v_mid = run_admissions(v1, mid);
            let (v2, a2) = spec_admit(v_mid, id, b2);
            (a1 ==> !a2) && (!a2 ==> v2 == v_mid)
        }),
{
    let (v1, a1) = spec_admit(v, id, b1);
    let v_mid = run_admissions(v1, mid);
    if a1 {
        assert(v1.peers.last() == id);
        assert(v1.peers.contains(id));
        lemma_admissions_keep_peers(v1, mid, id);
    }
}

/// Once an identity is registered, every later admission attempt still
/// observes it as registered.
pub proof fn lemma_admissions_keep_peers(
    v: ServiceView,
    events: Seq<(Seq<char>, Seq<EntryV>)>,
    id: Seq<char>,
)
    requires
        v.peers.contains(id),
    ensures
        run_admissions(v, events).peers.contains(id),
    decreases events.len(),
{
    if events.len() > 0 {
        let (v1, a1) = spec_admit(v, events[0].0, events[0].1);
        if !v.peers.contains(events[0].0) {
            let j = choose|j: int| 0 <= j < v.peers.len() && v.peers[j] == id;
            assert(v1.peers[j] == id);
            assert(v1.peers.contains(id));
        }
        assert(run_admissions(v, events) == run_admissions(v1, events.drop_first()));
        lemma_admissions_keep_peers(v1, events.drop_first(), id);
    }
}

/// Admissions from distinct identities are all admitted, each exactly once:
/// starting from a fresh run, N attempts from N distinct identities leave
/// exactly N recorded ballots, one per identity, whatever was admitted
/// before them and regardless of their order.
pub proof fn lemma_distinct_identities_all_recorded(
    v: ServiceView,
    events: Seq<(Seq<char>, Seq<EntryV>)>,
)
    requires
        v.casts.len() == v.peers.len(),
        forall|i: int, j: int| 0 <= i < j < events.len() ==> (#[trigger] events[i]).0 != (
        #[trigger] events[j]).0,
        forall|i: int|
            0 <= i < events.len() ==> !v.peers.contains((#[trigger] events[i]).0),
    ensures
        run_admissions(v, events).peers == v.peers + events.map_values(
            |e: (Seq<char>, Seq<EntryV>)| e.0,
        ),
        run_admissions(v, events).casts == v.casts + events.map_values(
            |e: (Seq<char>, Seq<EntryV>)| e.1,
        ),
        run_admissions(v, events).casts.len() == v.casts.len() + events.len(),
    decreases events.len(),
{
    let ids = events.map_values(|e: (Seq<char>, Seq<EntryV>)| e.0);
    let bs = events.map_values(|e: (Seq<char>, Seq<EntryV>)| e.1);
    if events.len() == 0 {
        assert(run_admissions(v, events).peers =~= v.peers + ids);
        assert(run_admissions(v, events).casts =~= v.casts + bs);
    } else {
        let e0 = events[0];
        assert(!v.peers.contains(e0.0));
        let (v1, a1) = spec_admit(v, e0.0, e0.1);
        assert(a1);
        let rest = events.drop_first();
        assert forall|i: int| 0 <= i < rest.len() implies !v1.peers.contains(
            (#[trigger] rest[i]).0,
        ) by {
            assert(rest[i] == events[i + 1]);
            assert(events[i + 1].0 != e0.0);
            if v1.peers.contains(rest[i].0) {
                let j = choose|j: int| 0 <= j < v1.peers.len() && v1.peers[j] == rest[i].0;
                if j < v.peers.len() {
                    assert(v.peers[j] == rest[i].0);
                    assert(v.peers.contains(rest[i].0));
                } else {
                    assert(v1.peers[j] == e0.0);
                }
            }
        }
        lemma_distinct_identities_all_recorded(v1, rest);
        assert(run_admissions(v, events).peers =~= v.peers + ids) by {
            assert(run_admissions(v, events) == run_admissions(v1, rest));
            assert(v1.peers == v.peers.push(e0.0));
            assert(v1.peers + rest.map_values(|e: (Seq<char>, Seq<EntryV>)| e.0) =~= v.peers
                + ids);
        }
        assert(run_admissions(v, events).casts =~= v.casts + bs) by {
            assert(run_admissions(v, events) == run_admissions(v1, rest));
            assert(v1.casts == v.casts.push(e0.1));
            assert(v1.casts + rest.map_values(|e: (Seq<char>, Seq<EntryV>)| e.1) =~= v.casts + bs);
        }
    }
}

} // verus!
