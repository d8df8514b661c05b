use vstd::prelude::*;

use rand::Rng;

use crate::protocol::ErrorCode;
use crate::room::{clone_opt, opt_view};
use crate::strmap::StrMap;
use crate::text::{clone_strings, contains_str, owned, str_eq, strs};

verus! {

/// One cast ballot.
pub struct Ballot {
    pub agent_id: String,
    pub agent_name: String,
    pub option_index: usize,
}

pub open spec fn ballot_view(b: Ballot) -> (Seq<char>, Seq<char>, usize) {
    (b.agent_id@, b.agent_name@, b.option_index)
}

pub open spec fn ballot_views(bs: Seq<Ballot>) -> Seq<(Seq<char>, Seq<char>, usize)> {
    bs.map_values(|b: Ballot| ballot_view(b))
}

/// An open vote awaiting completion.
pub struct ActiveVote {
    pub vote_id: String,
    pub room_id: String,
    pub title: String,
    pub description: Option<String>,
    pub options: Vec<String>,
    pub created_by: String,
    pub created_at_ms: i64,
    pub closes_at_ms: Option<i64>,
    pub ballots: Vec<Ballot>,
    pub eligible_voters: usize,
    pub eligible_agents: Vec<String>,
}

/// A vote as plain values.
pub struct VoteView {
    pub vote_id: Seq<char>,
    pub room_id: Seq<char>,
    pub title: Seq<char>,
    pub description: Option<Seq<char>>,
    pub options: Seq<Seq<char>>,
    pub created_by: Seq<char>,
    pub created_at_ms: i64,
    pub closes_at_ms: Option<i64>,
    pub ballots: Seq<(Seq<char>, Seq<char>, usize)>,
    pub eligible_voters: usize,
    pub eligible_agents: Seq<Seq<char>>,
}

pub open spec fn vote_view(v: ActiveVote) -> VoteView {
    VoteView {
        vote_id: v.vote_id@,
        room_id: v.room_id@,
        title: v.title@,
        description: opt_view(v.description),
        options: strs(v.options@),
        created_by: v.created_by@,
        created_at_ms: v.created_at_ms,
        closes_at_ms: v.closes_at_ms,
        ballots: ballot_views(v.ballots@),
        eligible_voters: v.eligible_voters,
        eligible_agents: strs(v.eligible_agents@),
    }
}

/// Whether `agent` already has a ballot among `ballots`.
pub open spec fn has_voted(ballots: Seq<(Seq<char>, Seq<char>, usize)>, agent: Seq<char>) -> bool {
    exists|i: int| 0 <= i < ballots.len() && #[trigger] ballots[i].0 == agent
}

/// An election during its opt-out window.
pub struct ActiveElection {
    pub room_id: String,
    pub candidates: Vec<String>,
    pub declined: Vec<String>,
    pub started_by: String,
}

/// An election as plain values.
pub struct ElectionView {
    pub room_id: Seq<char>,
    pub candidates: Seq<Seq<char>>,
    pub declined: Seq<Seq<char>>,
    pub started_by: Seq<char>,
}

pub open spec fn election_view(e: ActiveElection) -> ElectionView {
    ElectionView {
        room_id: e.room_id@,
        candidates: strs(e.candidates@),
        declined: strs(e.declined@),
        started_by: e.started_by@,
    }
}

/// The predicate "not among `declined`".
pub open spec fn not_declined(declined: Seq<Seq<char>>) -> spec_fn(Seq<char>) -> bool {
    |c: Seq<char>| !declined.contains(c)
}

/// The candidates still standing: those who did not decline, in order.
pub open spec fn standing(e: ElectionView) -> Seq<Seq<char>> {
    e.candidates.filter(not_declined(e.declined))
}

/// How an election ended.
pub enum ElectionOutcome {
    /// The room was destroyed: the election and any leader are gone.
    RoomGone,
    /// No election was running in the room.
    NoElection,
    /// Every candidate declined: there is no leader.
    AllDeclined,
    /// This candidate is now the room's leader.
    Elected(String),
}

/// What casting a ballot did.
pub struct CastOutcome {
    pub votes_cast: usize,
    pub eligible: usize,
    /// The vote, taken out of the open votes, when this ballot completed it.
    pub closed: Option<ActiveVote>,
}

/// The tally of one option.
pub struct VoteTally {
    pub option_index: usize,
    pub option_text: String,
    pub count: usize,
}

/// The number of ballots in `choices` for option `option`.
pub open spec fn votes_for(choices: Seq<usize>, option: int) -> nat
    decreases choices.len(),
{
    if choices.len() == 0 {
        0
    } else {
        votes_for(choices.drop_last(), option) + (if choices.last() == option { 1nat } else { 0nat })
    }
}

/// The options chosen by the ballots, in ballot order.
pub open spec fn choices(ballots: Seq<(Seq<char>, Seq<char>, usize)>) -> Seq<usize> {
    ballots.map_values(|b: (Seq<char>, Seq<char>, usize)| b.2)
}

pub proof fn lemma_votes_for_bounded(cs: Seq<usize>, option: int)
    ensures
        votes_for(cs, option) <= cs.len(),
    decreases cs.len(),
{
    if cs.len() > 0 {
        lemma_votes_for_bounded(cs.drop_last(), option);
    }
}

fn clone_ballots(v: &Vec<Ballot>) -> (r: Vec<Ballot>)
    ensures
        ballot_views(r@) == ballot_views(v@),
{
    let mut r: Vec<Ballot> = Vec::new();
    let mut i: usize = 0;
    while i < v.len()
        invariant
            i <= v.len(),
            r@.len() == i,
            forall|j: int| 0 <= j < i ==> #[trigger] ballot_view(r@[j]) == ballot_view(v@[j]),
        decreases v.len() - i,
    {
        let b = Ballot { agent_id: v[i].agent_id.clone(), agent_name: v[i].agent_name.clone(), option_index: v[i].option_index };
        r.push(b);
        i = i + 1;
    }
    proof { assert(ballot_views(r@) =~= ballot_views(v@)); }
    r
}

/// A copy of a vote.
pub fn clone_vote(v: &ActiveVote) -> (r: ActiveVote)
    ensures
        vote_view(r) == vote_view(*v),
{
    ActiveVote {
        vote_id: v.vote_id.clone(),
        room_id: v.room_id.clone(),
        title: v.title.clone(),
        description: clone_opt(&v.description),
        options: clone_strings(&v.options),
        created_by: v.created_by.clone(),
        created_at_ms: v.created_at_ms,
        closes_at_ms: v.closes_at_ms,
        ballots: clone_ballots(&v.ballots),
        eligible_voters: v.eligible_voters,
        eligible_agents: clone_strings(&v.eligible_agents),
    }
}

/// A copy of an election.
pub fn clone_election(e: &ActiveElection) -> (r: ActiveElection)
    ensures
        election_view(r) == election_view(*e),
{
    ActiveElection {
        room_id: e.room_id.clone(),
        candidates: clone_strings(&e.candidates),
        declined: clone_strings(&e.declined),
        started_by: e.started_by.clone(),
    }
}

/// Whether `agent_id` has a ballot in `ballots`.
fn find_voter(ballots: &Vec<Ballot>, agent_id: &str) -> (r: bool)
    ensures
        r == has_voted(ballot_views(ballots@), agent_id@),
{
    let mut i: usize = 0;
    while i < ballots.len()
        invariant
            i <= ballots.len(),
            forall|j: int| 0 <= j < i ==> #[trigger] ballots@[j].agent_id@ != agent_id@,
        decreases ballots.len() - i,
    {
        if str_eq(ballots[i].agent_id.as_str(), agent_id) {
            proof { assert(ballot_views(ballots@)[i as int].0 == agent_id@); }
            return true;
        }
        i = i + 1;
    }
    proof {
        assert forall|j: int| 0 <= j < ballot_views(ballots@).len() implies
            #[trigger] ballot_views(ballots@)[j].0 != agent_id@ by {
            assert(ballots@[j].agent_id@ != agent_id@);
        }
    }
    false
}

/// The tally of a vote: for each option, in order, how many ballots chose it.
pub fn tally_vote(vote: &ActiveVote) -> (r: Vec<VoteTally>)
    ensures
        r@.len() == vote.options@.len(),
        forall|i: int| 0 <= i < r@.len() ==> {
            &&& (#[trigger] r@[i]).option_index == i
            &&& r@[i].option_text@ == vote.options@[i]@
            &&& r@[i].count == votes_for(choices(ballot_views(vote.ballots@)), i)
        },
{
    let n = vote.options.len();
    let ghost cs = choices(ballot_views(vote.ballots@));
    let mut counts: Vec<usize> = Vec::new();
    let mut k: usize = 0;
    while k < n
        invariant
            k <= n,
            counts@.len() == k,
            forall|j: int| 0 <= j < k ==> #[trigger] counts@[j] == 0,
        decreases n - k,
    {
        counts.push(0);
        k = k + 1;
    }
    proof {
        assert(cs.subrange(0, 0) =~= Seq::<usize>::empty());
    }
    let mut b: usize = 0;
    while b < vote.ballots.len()
        invariant
            n == vote.options@.len(),
            cs == choices(ballot_views(vote.ballots@)),
            b <= vote.ballots@.len(),
            counts@.len() == n,
            forall|j: int| 0 <= j < n ==> #[trigger] counts@[j] == votes_for(cs.subrange(0, b as int), j),
        decreases vote.ballots@.len() - b,
    {
        let idx = vote.ballots[b].option_index;
        proof {
            let s = cs.subrange(0, b + 1);
            assert(s.drop_last() =~= cs.subrange(0, b as int));
            assert(s.last() == idx);
            assert forall|j: int| 0 <= j < n implies votes_for(s, j)
                == votes_for(cs.subrange(0, b as int), j) + (if j == idx { 1int } else { 0int }) by {}
        }
        if idx < n {
            proof {
                lemma_votes_for_bounded(cs.subrange(0, b as int), idx as int);
            }
            let c = counts[idx];
            counts.set(idx, c + 1);
        }
        b = b + 1;
    }
    proof {
        assert(cs.subrange(0, vote.ballots@.len() as int) =~= cs);
    }
    let mut out: Vec<VoteTally> = Vec::new();
    let mut i: usize = 0;
    while i < n
        invariant
            n == vote.options@.len(),
            counts@.len() == n,
            forall|j: int| 0 <= j < n ==> #[trigger] counts@[j] == votes_for(cs, j),
            cs == choices(ballot_views(vote.ballots@)),
            i <= n,
            out@.len() == i,
            forall|j: int| 0 <= j < i ==> {
                &&& (#[trigger] out@[j]).option_index == j
                &&& out@[j].option_text@ == vote.options@[j]@
                &&& out@[j].count == votes_for(cs, j)
            },
        decreases n - i,
    {
        out.push(VoteTally { option_index: i, option_text: vote.options[i].clone(), count: counts[i] });
        i = i + 1;
    }
    out
}

/// Milliseconds from `now_ms` until `closes_at_ms`, zero when it has passed.
pub fn deadline_delay_ms(closes_at_ms: i64, now_ms: i64) -> (r: u64)
    ensures
        r == (if closes_at_ms > now_ms { closes_at_ms - now_ms } else { 0 }),
{
    if closes_at_ms > now_ms {
        let d: i128 = closes_at_ms as i128 - now_ms as i128;
        d as u64
    } else {
        0
    }
}

/// A uniformly random index below `n`, from the thread-local generator of
/// `rand`. Only its range is stated: the value is chance.
#[verifier::external_body]
fn random_index(n: usize) -> (r: usize)
    requires
        n > 0,
    ensures
        r < n,
{
    rand::thread_rng().gen_range(0..n)
}

/// The ballots counted for options `0 .. n`, option by option.
pub open spec fn tally_sum(cs: Seq<usize>, n: nat) -> nat
    decreases n,
{
    if n == 0 {
        0
    } else {
        tally_sum(cs, (n - 1) as nat) + votes_for(cs, n - 1)
    }
}

proof fn lemma_tally_sum_last(cs: Seq<usize>, m: nat)
    requires
        cs.len() > 0,
    ensures
        tally_sum(cs, m) == tally_sum(cs.drop_last(), m) + (if cs.last() < m { 1nat } else { 0nat }),
    decreases m,
{
    if m > 0 {
        lemma_tally_sum_last(cs, (m - 1) as nat);
    }
}

/// Every ballot for a listed option is counted exactly once: when every
/// ballot chose one of the `n` options, the counts of the options add up to
/// the number of ballots.
pub proof fn lemma_tally_total(cs: Seq<usize>, n: nat)
    requires
        forall|i: int| 0 <= i < cs.len() ==> cs[i] < n,
    ensures
        tally_sum(cs, n) == cs.len(),
    decreases cs.len(),
{
    if cs.len() == 0 {
        lemma_tally_sum_empty(cs, n);
    } else {
        lemma_tally_sum_last(cs, n);
        assert forall|i: int| 0 <= i < cs.drop_last().len() implies cs.drop_last()[i] < n by {
            assert(cs.drop_last()[i] == cs[i]);
        }
        lemma_tally_total(cs.drop_last(), n);
    }
}

proof fn lemma_tally_sum_empty(cs: Seq<usize>, n: nat)
    requires
        cs.len() == 0,
    ensures
        tally_sum(cs, n) == 0,
    decreases n,
{
    if n > 0 {
        lemma_tally_sum_empty(cs, (n - 1) as nat);
    }
}

/// A candidate who declined is never elected: every standing candidate
/// was nominated and did not decline.
pub proof fn lemma_declined_never_elected(e: ElectionView, w: Seq<char>)
    requires
        standing(e).contains(w),
    ensures
        e.candidates.contains(w),
        !e.declined.contains(w),
{
    e.candidates.lemma_filter_contains_rev(not_declined(e.declined), w);
    let i = choose|i: int| 0 <= i < standing(e).len() && standing(e)[i] == w;
    e.candidates.lemma_filter_pred(not_declined(e.declined), i);
}

/// In-memory state of votes, elections and room leaders.
pub struct VoteManager {
    active_votes: StrMap<ActiveVote>,
    active_elections: StrMap<ActiveElection>,
    room_leaders: StrMap<String>,
}

impl VoteManager {
    /// Open votes, by vote id.
    pub closed spec fn votes(&self) -> Map<Seq<char>, VoteView> {
        Map::new(|k: Seq<char>| self.active_votes@.contains_key(k), |k: Seq<char>| vote_view(self.active_votes@[k]))
    }

    /// Running elections, by room id.
    pub closed spec fn elections(&self) -> Map<Seq<char>, ElectionView> {
        Map::new(|k: Seq<char>| self.active_elections@.contains_key(k), |k: Seq<char>| election_view(self.active_elections@[k]))
    }

    /// Room leaders, by room id.
    pub closed spec fn leaders(&self) -> Map<Seq<char>, Seq<char>> {
        Map::new(|k: Seq<char>| self.room_leaders@.contains_key(k), |k: Seq<char>| self.room_leaders@[k]@)
    }

    pub closed spec fn leader_order(&self) -> Seq<Seq<char>> {
        self.room_leaders.key_seq()
    }

    pub closed spec fn vote_order(&self) -> Seq<Seq<char>> {
        self.active_votes.key_seq()
    }

    pub closed spec fn wf(&self) -> bool {
        &&& self.active_votes.wf()
        &&& self.active_elections.wf()
        &&& self.room_leaders.wf()
    }

    pub fn new() -> (r: Self)
        ensures
            r.wf(),
            r.votes() == Map::<Seq<char>, VoteView>::empty(),
            r.elections() == Map::<Seq<char>, ElectionView>::empty(),
            r.leaders() == Map::<Seq<char>, Seq<char>>::empty(),
    {
        let r = VoteManager { active_votes: StrMap::new(), active_elections: StrMap::new(), room_leaders: StrMap::new() };
        proof {
            assert(r.votes() =~= Map::<Seq<char>, VoteView>::empty());
            assert(r.elections() =~= Map::<Seq<char>, ElectionView>::empty());
            assert(r.leaders() =~= Map::<Seq<char>, Seq<char>>::empty());
        }
        r
    }

    fn put_vote(&mut self, key: String, v: ActiveVote)
        requires
            old(self).wf(),
        ensures
            final(self).wf(),
            final(self).votes() == old(self).votes().insert(key@, vote_view(v)),
            final(self).elections() == old(self).elections(),
            final(self).leaders() == old(self).leaders(),
            final(self).leader_order() == old(self).leader_order(),
    {
        let ghost g = *self;
        let ghost kv = key@;
        self.active_votes.insert(key, v);
        proof {
            assert(self.votes() =~= g.votes().insert(kv, vote_view(v)));
            assert(self.elections() =~= g.elections());
            assert(self.leaders() =~= g.leaders());
        }
    }

    /// Re-install a vote that was open when the server last stopped.
    pub fn restore_vote(&mut self, vote: ActiveVote)
        requires
            old(self).wf(),
        ensures
            final(self).wf(),
            final(self).votes() == old(self).votes().insert(vote.vote_id@, vote_view(vote)),
            final(self).elections() == old(self).elections(),
            final(self).leaders() == old(self).leaders(),
    {
        let key = vote.vote_id.clone();
        self.put_vote(key, vote);
    }

    /// Open a vote; it closes `duration_secs` seconds after `now_ms` when a
    /// duration is given. Returns the new vote.
    pub fn create_vote(&mut self, vote_id: String, room_id: String, title: String, description: Option<String>,
        options: Vec<String>, created_by: String, duration_secs: Option<u64>, eligible_agents: Vec<String>, now_ms: i64)
        -> (r: ActiveVote)
        requires
            old(self).wf(),
            duration_secs matches Some(s) ==> now_ms + s * 1000 <= i64::MAX,
        ensures
            final(self).wf(),
            vote_view(r) == (VoteView {
                vote_id: vote_id@,
                room_id: room_id@,
                title: title@,
                description: opt_view(description),
                options: strs(options@),
                created_by: created_by@,
                created_at_ms: now_ms,
                closes_at_ms: match duration_secs {
                    Some(s) => Some((now_ms + s * 1000) as i64),
                    None => None,
                },
                ballots: Seq::empty(),
                eligible_voters: eligible_agents@.len() as usize,
                eligible_agents: strs(eligible_agents@),
            }),
            final(self).votes() == old(self).votes().insert(vote_id@, vote_view(r)),
            final(self).elections() == old(self).elections(),
            final(self).leaders() == old(self).leaders(),
    {
        let closes_at_ms = match duration_secs {
            Some(s) => {
                let ms: i128 = now_ms as i128 + (s as i128) * 1000;
                Some(ms as i64)
            }
            None => None,
        };
        let eligible_voters = eligible_agents.len();
        let vote = ActiveVote {
            vote_id,
            room_id,
            title,
            description,
            options,
            created_by,
            created_at_ms: now_ms,
            closes_at_ms,
            ballots: Vec::new(),
            eligible_voters,
            eligible_agents,
        };
        proof { assert(ballot_views(vote.ballots@) =~= Seq::empty()); }
        let out = clone_vote(&vote);
        let key = vote.vote_id.clone();
        self.put_vote(key, vote);
        out
    }

    /// Take a vote out of the open votes (its deadline passed).
    pub fn take_vote(&mut self, vote_id: &str) -> (r: Option<ActiveVote>)
        requires
            old(self).wf(),
        ensures
            final(self).wf(),
            match r {
                Some(v) => old(self).votes().contains_key(vote_id@) && vote_view(v) == old(self).votes()[vote_id@],
                None => !old(self).votes().contains_key(vote_id@),
            },
            final(self).votes() == old(self).votes().remove(vote_id@),
            final(self).elections() == old(self).elections(),
            final(self).leaders() == old(self).leaders(),
    {
        let ghost g = *self;
        let r = self.active_votes.remove(vote_id);
        proof {
            assert(self.votes() =~= g.votes().remove(vote_id@));
            assert(self.elections() =~= g.elections());
            assert(self.leaders() =~= g.leaders());
        }
        r
    }

    /// The open vote with this id, if any.
    pub fn get_vote(&self, vote_id: &str) -> (r: Option<ActiveVote>)
        requires
            self.wf(),
        ensures
            match r {
                Some(v) => self.votes().contains_key(vote_id@) && vote_view(v) == self.votes()[vote_id@],
                None => !self.votes().contains_key(vote_id@),
            },
    {
        match self.active_votes.get(vote_id) {
            Some(v) => Some(clone_vote(v)),
            None => None,
        }
    }

    /// Record a ballot. An unknown vote, an option out of range, an agent
    /// not eligible and a second ballot are refused, in that order. The
    /// ballot that brings the count to the number of eligible voters closes
    /// the vote: it is taken out and handed back.
    pub fn cast_vote(&mut self, vote_id: &str, agent_id: &str, agent_name: &str, option_index: usize)
        -> (r: Result<CastOutcome, ErrorCode>)
        requires
            old(self).wf(),
        ensures
            final(self).wf(),
            final(self).elections() == old(self).elections(),
            final(self).leaders() == old(self).leaders(),
            !old(self).votes().contains_key(vote_id@) ==>
                r == Err::<CastOutcome, ErrorCode>(ErrorCode::VoteNotFound) && final(self).votes() == old(self).votes(),
            old(self).votes().contains_key(vote_id@) ==> ({
                let v = old(self).votes()[vote_id@];
                let nv = VoteView { ballots: v.ballots.push((agent_id@, agent_name@, option_index)), ..v };
                if option_index >= v.options.len() {
                    r == Err::<CastOutcome, ErrorCode>(ErrorCode::InvalidOption) && final(self).votes() == old(self).votes()
                } else if !v.eligible_agents.contains(agent_id@) {
                    r == Err::<CastOutcome, ErrorCode>(ErrorCode::AccessDenied) && final(self).votes() == old(self).votes()
                } else if has_voted(v.ballots, agent_id@) {
                    r == Err::<CastOutcome, ErrorCode>(ErrorCode::AlreadyVoted) && final(self).votes() == old(self).votes()
                } else {
                    &&& r matches Ok(o)
                    &&& o.votes_cast == nv.ballots.len()
                    &&& o.eligible == v.eligible_voters
                    &&& if nv.ballots.len() >= v.eligible_voters {
                        &&& o.closed matches Some(c)
                        &&& vote_view(c) == nv
                        &&& final(self).votes() == old(self).votes().remove(vote_id@)
                    } else {
                        &&& o.closed is None
                        &&& final(self).votes() == old(self).votes().insert(vote_id@, nv)
                    }
                }
            }),
    {
        let mut vote = match self.active_votes.get(vote_id) {
            Some(v) => clone_vote(v),
            None => return Err(ErrorCode::VoteNotFound),
        };
        proof { assert(self.active_votes@.contains_key(vote_id@)); }
        if option_index >= vote.options.len() {
            return Err(ErrorCode::InvalidOption);
        }
        if !contains_str(&vote.eligible_agents, agent_id) {
            return Err(ErrorCode::AccessDenied);
        }
        if find_voter(&vote.ballots, agent_id) {
            return Err(ErrorCode::AlreadyVoted);
        }
        let ghost before = ballot_views(vote.ballots@);
        vote.ballots.push(Ballot { agent_id: owned(agent_id), agent_name: owned(agent_name), option_index });
        proof {
            assert(ballot_views(vote.ballots@) =~= before.push((agent_id@, agent_name@, option_index)));
        }
        let votes_cast = vote.ballots.len();
        let eligible = vote.eligible_voters;
        if votes_cast >= eligible {
            let closed = self.take_vote(vote_id);
            proof {
                assert(closed is Some);
            }
            Ok(CastOutcome { votes_cast, eligible, closed: Some(vote) })
        } else {
            self.put_vote(owned(vote_id), vote);
            Ok(CastOutcome { votes_cast, eligible, closed: None })
        }
    }

    fn put_election(&mut self, key: String, e: ActiveElection)
        requires
            old(self).wf(),
        ensures
            final(self).wf(),
            final(self).elections() == old(self).elections().insert(key@, election_view(e)),
            final(self).votes() == old(self).votes(),
            final(self).leaders() == old(self).leaders(),
    {
        let ghost g = *self;
        let ghost kv = key@;
        self.active_elections.insert(key, e);
        proof {
            assert(self.elections() =~= g.elections().insert(kv, election_view(e)));
            assert(self.votes() =~= g.votes());
            assert(self.leaders() =~= g.leaders());
        }
    }

    fn drop_election(&mut self, room_id: &str) -> (r: Option<ActiveElection>)
        requires
            old(self).wf(),
        ensures
            final(self).wf(),
            match r {
                Some(e) => old(self).elections().contains_key(room_id@) && election_view(e) == old(self).elections()[room_id@],
                None => !old(self).elections().contains_key(room_id@),
            },
            final(self).elections() == old(self).elections().remove(room_id@),
            final(self).votes() == old(self).votes(),
            final(self).leaders() == old(self).leaders(),
    {
        let ghost g = *self;
        let r = self.active_elections.remove(room_id);
        proof {
            assert(self.elections() =~= g.elections().remove(room_id@));
            assert(self.votes() =~= g.votes());
            assert(self.leaders() =~= g.leaders());
        }
        r
    }

    fn drop_leader(&mut self, room_id: &str) -> (r: bool)
        requires
            old(self).wf(),
        ensures
            final(self).wf(),
            r == old(self).leaders().contains_key(room_id@),
            final(self).leaders() == old(self).leaders().remove(room_id@),
            final(self).votes() == old(self).votes(),
            final(self).elections() == old(self).elections(),
    {
        let ghost g = *self;
        let r = self.room_leaders.remove(room_id);
        proof {
            assert(self.leaders() =~= g.leaders().remove(room_id@));
            assert(self.votes() =~= g.votes());
            assert(self.elections() =~= g.elections());
        }
        r.is_some()
    }

    /// Start a leader election in a room; one election runs per room.
    pub fn start_election(&mut self, room_id: &str, candidates: Vec<String>, started_by: &str) -> (r: Result<(), ErrorCode>)
        requires
            old(self).wf(),
        ensures
            final(self).wf(),
            final(self).votes() == old(self).votes(),
            final(self).leaders() == old(self).leaders(),
            old(self).elections().contains_key(room_id@) ==>
                r == Err::<(), ErrorCode>(ErrorCode::ElectionInProgress) && final(self).elections() == old(self).elections(),
            !old(self).elections().contains_key(room_id@) ==>
                r is Ok && final(self).elections() == old(self).elections().insert(room_id@, ElectionView {
                    room_id: room_id@,
                    candidates: strs(candidates@),
                    declined: Seq::empty(),
                    started_by: started_by@,
                }),
    {
        if self.active_elections.contains_key(room_id) {
            return Err(ErrorCode::ElectionInProgress);
        }
        let e = ActiveElection { room_id: owned(room_id), candidates, declined: Vec::new(), started_by: owned(started_by) };
        proof { assert(strs(e.declined@) =~= Seq::<Seq<char>>::empty()); }
        self.put_election(owned(room_id), e);
        Ok(())
    }

    /// An agent opts out of the running election in a room.
    pub fn decline_election(&mut self, room_id: &str, agent_id: &str) -> (r: Result<(), ErrorCode>)
        requires
            old(self).wf(),
        ensures
            final(self).wf(),
            final(self).votes() == old(self).votes(),
            final(self).leaders() == old(self).leaders(),
            !old(self).elections().contains_key(room_id@) ==>
                r == Err::<(), ErrorCode>(ErrorCode::NoElectionActive) && final(self).elections() == old(self).elections(),
            old(self).elections().contains_key(room_id@) ==> ({
                let e = old(self).elections()[room_id@];
                &&& r is Ok
                &&& final(self).elections() == old(self).elections().insert(room_id@,
                    if e.declined.contains(agent_id@) { e } else { ElectionView { declined: e.declined.push(agent_id@), ..e } })
            }),
    {
        let mut e = match self.active_elections.get(room_id) {
            Some(e) => clone_election(e),
            None => return Err(ErrorCode::NoElectionActive),
        };
        proof { assert(self.active_elections@.contains_key(room_id@)); }
        if !contains_str(&e.declined, agent_id) {
            let ghost before = strs(e.declined@);
            e.declined.push(owned(agent_id));
            proof { assert(strs(e.declined@) =~= before.push(agent_id@)); }
        }
        self.put_election(owned(room_id), e);
        Ok(())
    }

    /// The candidates of the running election in a room that have not declined.
    pub fn standing_candidates(&self, room_id: &str) -> (r: Vec<String>)
        requires
            self.wf(),
        ensures
            self.elections().contains_key(room_id@) ==> strs(r@) == standing(self.elections()[room_id@]),
            !self.elections().contains_key(room_id@) ==> r@.len() == 0,
    {
        match self.active_elections.get(room_id) {
            Some(e) => {
                proof { assert(self.active_elections@.contains_key(room_id@)); }
                let ghost p = not_declined(strs(e.declined@));
                let ghost cs = strs(e.candidates@);
                let mut out: Vec<String> = Vec::new();
                let mut i: usize = 0;
                while i < e.candidates.len()
                    invariant
                        i <= e.candidates@.len(),
                        cs == strs(e.candidates@),
                        p == not_declined(strs(e.declined@)),
                        strs(out@) == cs.subrange(0, i as int).filter(p),
                    decreases e.candidates@.len() - i,
                {
                    proof {
                        assert(cs.subrange(0, i + 1) =~= cs.subrange(0, i as int).push(cs[i as int]));
                        cs.subrange(0, i as int).lemma_filter_push(cs[i as int], p);
                    }
                    if !contains_str(&e.declined, e.candidates[i].as_str()) {
                        let ghost prev = out@;
                        out.push(e.candidates[i].clone());
                        proof { assert(strs(out@) =~= strs(prev).push(cs[i as int])); }
                    }
                    i = i + 1;
                }
                proof { assert(cs.subrange(0, cs.len() as int) =~= cs); }
                out
            }
            None => Vec::new(),
        }
    }

    /// End the election in a room once its opt-out window has passed, with
    /// the winner chosen as standing candidate number `pick`. A destroyed
    /// room loses its election and its leader.
    pub fn finish_election_with(&mut self, room_id: &str, room_destroyed: bool, pick: usize) -> (r: ElectionOutcome)
        requires
            old(self).wf(),
            !room_destroyed && old(self).elections().contains_key(room_id@)
                && standing(old(self).elections()[room_id@]).len() > 0
                ==> pick < standing(old(self).elections()[room_id@]).len(),
        ensures
            final(self).wf(),
            final(self).votes() == old(self).votes(),
            final(self).elections() == old(self).elections().remove(room_id@),
            room_destroyed ==> r is RoomGone && final(self).leaders() == old(self).leaders().remove(room_id@),
            !room_destroyed && !old(self).elections().contains_key(room_id@) ==>
                r is NoElection && final(self).leaders() == old(self).leaders(),
            !room_destroyed && old(self).elections().contains_key(room_id@) ==> ({
                let st = standing(old(self).elections()[room_id@]);
                if st.len() == 0 {
                    r is AllDeclined && final(self).leaders() == old(self).leaders()
                } else {
                    &&& r matches ElectionOutcome::Elected(w)
                    &&& w@ == st[pick as int]
                    &&& final(self).leaders() == old(self).leaders().insert(room_id@, st[pick as int])
                }
            }),
    {
        if room_destroyed {
            self.drop_election(room_id);
            self.drop_leader(room_id);
            return ElectionOutcome::RoomGone;
        }
        let standing_now = self.standing_candidates(room_id);
        let e = self.drop_election(room_id);
        if e.is_none() {
            return ElectionOutcome::NoElection;
        }
        if standing_now.len() == 0 {
            return ElectionOutcome::AllDeclined;
        }
        let winner = standing_now[pick].clone();
        let ghost g = *self;
        self.room_leaders.insert(owned(room_id), winner.clone());
        proof {
            assert(self.leaders() =~= g.leaders().insert(room_id@, winner@));
            assert(self.votes() =~= g.votes());
            assert(self.elections() =~= g.elections());
        }
        ElectionOutcome::Elected(winner)
    }

    /// End the election in a room, choosing the winner uniformly at random
    /// among the standing candidates.
    pub fn finish_election(&mut self, room_id: &str, room_destroyed: bool) -> (r: ElectionOutcome)
        requires
            old(self).wf(),
        ensures
            final(self).wf(),
            final(self).votes() == old(self).votes(),
            final(self).elections() == old(self).elections().remove(room_id@),
            room_destroyed ==> r is RoomGone && final(self).leaders() == old(self).leaders().remove(room_id@),
            !room_destroyed && !old(self).elections().contains_key(room_id@) ==>
                r is NoElection && final(self).leaders() == old(self).leaders(),
            !room_destroyed && old(self).elections().contains_key(room_id@) ==> ({
                let st = standing(old(self).elections()[room_id@]);
                if st.len() == 0 {
                    r is AllDeclined && final(self).leaders() == old(self).leaders()
                } else {
                    &&& r matches ElectionOutcome::Elected(w)
                    &&& st.contains(w@)
                    &&& final(self).leaders() == old(self).leaders().insert(room_id@, w@)
                }
            }),
    {
        let n = self.standing_candidates(room_id).len();
        let pick = if n > 0 { random_index(n) } else { 0 };
        let r = self.finish_election_with(room_id, room_destroyed, pick);
        proof {
            if !room_destroyed && old(self).elections().contains_key(room_id@) {
                let st = standing(old(self).elections()[room_id@]);
                if st.len() > 0 {
                    assert(st[pick as int] == st[pick as int]);
                }
            }
        }
        r
    }

    /// Clear the leader of a room; says whether there was one.
    pub fn clear_leader(&mut self, room_id: &str) -> (r: bool)
        requires
            old(self).wf(),
        ensures
            final(self).wf(),
            r == old(self).leaders().contains_key(room_id@),
            final(self).leaders() == old(self).leaders().remove(room_id@),
            final(self).votes() == old(self).votes(),
            final(self).elections() == old(self).elections(),
    {
        self.drop_leader(room_id)
    }

    /// Whether `agent_id` leads `room_id`.
    pub fn is_leader(&self, room_id: &str, agent_id: &str) -> (r: bool)
        requires
            self.wf(),
        ensures
            r == (self.leaders().contains_key(room_id@) && self.leaders()[room_id@] == agent_id@),
    {
        match self.room_leaders.get(room_id) {
            Some(l) => str_eq(l.as_str(), agent_id),
            None => false,
        }
    }

    /// The leader of a room, if any.
    pub fn get_leader(&self, room_id: &str) -> (r: Option<String>)
        requires
            self.wf(),
        ensures
            match r {
                Some(l) => self.leaders().contains_key(room_id@) && l@ == self.leaders()[room_id@],
                None => !self.leaders().contains_key(room_id@),
            },
    {
        match self.room_leaders.get(room_id) {
            Some(l) => Some(l.clone()),
            None => None,
        }
    }

    /// Clear every leadership held by `agent_id`; returns the rooms cleared.
    pub fn clear_leader_if_agent(&mut self, agent_id: &str) -> (r: Vec<String>)
        requires
            old(self).wf(),
        ensures
            final(self).wf(),
            final(self).votes() == old(self).votes(),
            final(self).elections() == old(self).elections(),
            forall|room: Seq<char>| #[trigger] strs(r@).contains(room) <==>
                old(self).leaders().contains_key(room) && old(self).leaders()[room] == agent_id@,
            forall|room: Seq<char>| #[trigger] final(self).leaders().contains_key(room) <==>
                old(self).leaders().contains_key(room) && old(self).leaders()[room] != agent_id@,
            forall|room: Seq<char>| #[trigger] final(self).leaders().contains_key(room) ==>
                final(self).leaders()[room] == old(self).leaders()[room],
    {
        let ghost g = *self;
        let mut rooms: Vec<String> = Vec::new();
        let n = self.room_leaders.len();
        let mut i: usize = 0;
        while i < n
            invariant
                *self == g,
                g.wf(),
                n == g.leader_order().len(),
                i <= n,
                forall|room: Seq<char>| #[trigger] strs(rooms@).contains(room) <==>
                    g.leaders().contains_key(room) && g.leaders()[room] == agent_id@
                    && (exists|j: int| 0 <= j < i && g.leader_order()[j] == room),
            decreases n - i,
        {
            let key = self.room_leaders.key_at(i);
            let val = self.room_leaders.value_at(i);
            let ghost k = key@;
            proof {
                self.room_leaders.lemma_key_in_view(i as int);
                assert(g.leader_order()[i as int] == k);
            }
            let ghost prev = rooms@;
            if str_eq(val.as_str(), agent_id) {
                rooms.push(key.clone());
                proof { assert(strs(rooms@) =~= strs(prev).push(k)); }
            } else {
                proof { assert(strs(rooms@) =~= strs(prev)); }
            }
            proof {
                assert forall|room: Seq<char>| #[trigger] strs(rooms@).contains(room) <==>
                    g.leaders().contains_key(room) && g.leaders()[room] == agent_id@
                    && (exists|j: int| 0 <= j < i + 1 && g.leader_order()[j] == room) by {
                    if room == k {
                        if g.leaders()[room] == agent_id@ {
                            assert(strs(rooms@)[strs(rooms@).len() - 1] == room);
                        }
                        assert(0 <= i < i + 1 && g.leader_order()[i as int] == room);
                    } else {
                        if strs(rooms@).contains(room) {
                            let x = choose|x: int| 0 <= x < strs(rooms@).len() && strs(rooms@)[x] == room;
                            assert(x < strs(prev).len());
                            assert(strs(prev)[x] == room);
                            assert(strs(prev).contains(room));
                            let j = choose|j: int| 0 <= j < i && g.leader_order()[j] == room;
                            assert(0 <= j < i + 1 && g.leader_order()[j] == room);
                        }
                        if g.leaders().contains_key(room) && g.leaders()[room] == agent_id@
                            && (exists|j: int| 0 <= j < i + 1 && g.leader_order()[j] == room) {
                            let j = choose|j: int| 0 <= j < i + 1 && g.leader_order()[j] == room;
                            assert(j != i);
                            assert(exists|j: int| 0 <= j < i && g.leader_order()[j] == room);
                            assert(strs(prev).contains(room));
                            let x = choose|x: int| 0 <= x < strs(prev).len() && strs(prev)[x] == room;
                            assert(strs(rooms@)[x] == room);
                        }
                    }
                }
            }
            i = i + 1;
        }
        proof {
            assert forall|room: Seq<char>| g.leaders().contains_key(room) implies
                exists|j: int| 0 <= j < n && g.leader_order()[j] == room by {
                g.room_leaders.lemma_view_finite();
                assert(g.room_leaders@.contains_key(room));
                assert(g.leader_order().to_set().contains(room));
            }
        }
        let mut k: usize = 0;
        while k < rooms.len()
            invariant
                self.wf(),
                g.wf(),
                self.votes() == g.votes(),
                self.elections() == g.elections(),
                k <= rooms@.len(),
                forall|room: Seq<char>| #[trigger] strs(rooms@).contains(room) <==>
                    g.leaders().contains_key(room) && g.leaders()[room] == agent_id@,
                forall|room: Seq<char>| #[trigger] self.leaders().contains_key(room) <==>
                    g.leaders().contains_key(room) && !strs(rooms@).subrange(0, k as int).contains(room),
                forall|room: Seq<char>| #[trigger] self.leaders().contains_key(room) ==>
                    self.leaders()[room] == g.leaders()[room],
            decreases rooms@.len() - k,
        {
            let ghost before = *self;
            self.drop_leader(rooms[k].as_str());
            proof {
                let pre = strs(rooms@).subrange(0, k as int);
                let post = strs(rooms@).subrange(0, k + 1);
                assert(post =~= pre.push(strs(rooms@)[k as int]));
                assert forall|room: Seq<char>| #[trigger] self.leaders().contains_key(room) <==>
                    g.leaders().contains_key(room) && !post.contains(room) by {
                    if post.contains(room) && room != strs(rooms@)[k as int] {
                        let x = choose|x: int| 0 <= x < post.len() && post[x] == room;
                        assert(pre[x] == room);
                    }
                    if pre.contains(room) {
                        let x = choose|x: int| 0 <= x < pre.len() && pre[x] == room;
                        assert(post[x] == room);
                    }
                    assert(post[k as int] == strs(rooms@)[k as int]);
                }
            }
            k = k + 1;
        }
        proof {
            assert(strs(rooms@).subrange(0, rooms@.len() as int) =~= strs(rooms@));
            assert forall|room: Seq<char>| #[trigger] self.leaders().contains_key(room) <==>
                old(self).leaders().contains_key(room) && old(self).leaders()[room] != agent_id@ by {
                if old(self).leaders().contains_key(room) && old(self).leaders()[room] == agent_id@ {
                    assert(strs(rooms@).contains(room));
                }
            }
        }
        rooms
    }

    /// Remove every coordination object of a destroyed room: its open votes,
    /// its election and its leader.
    pub fn forget_room(&mut self, room_id: &str)
        requires
            old(self).wf(),
        ensures
            final(self).wf(),
            forall|v: Seq<char>| #[trigger] final(self).votes().contains_key(v) <==>
                old(self).votes().contains_key(v) && old(self).votes()[v].room_id != room_id@,
            forall|v: Seq<char>| #[trigger] final(self).votes().contains_key(v) ==>
                final(self).votes()[v] == old(self).votes()[v],
            final(self).elections() == old(self).elections().remove(room_id@),
            final(self).leaders() == old(self).leaders().remove(room_id@),
    {
        let ghost g = *self;
        let mut kept: StrMap<ActiveVote> = StrMap::new();
        let n = self.active_votes.len();
        let mut i: usize = 0;
        while i < n
            invariant
                *self == g,
                g.wf(),
                n == g.vote_order().len(),
                i <= n,
                kept.wf(),
                forall|v: Seq<char>| #[trigger] kept@.contains_key(v) <==>
                    g.votes().contains_key(v) && g.votes()[v].room_id != room_id@
                    && (exists|j: int| 0 <= j < i && g.vote_order()[j] == v),
                forall|v: Seq<char>| #[trigger] kept@.contains_key(v) ==> vote_view(kept@[v]) == g.votes()[v],
            decreases n - i,
        {
            let key = self.active_votes.key_at(i);
            let vote = self.active_votes.value_at(i);
            let ghost k = key@;
            proof {
                self.active_votes.lemma_key_in_view(i as int);
                assert(g.vote_order()[i as int] == k);
                if exists|j: int| 0 <= j < i && g.vote_order()[j] == k {
                    let j = choose|j: int| 0 <= j < i && g.vote_order()[j] == k;
                    g.active_votes.lemma_keys_distinct(j, i as int);
                }
                assert(g.votes().contains_key(k));
            }
            let ghost prev = kept@;
            if !str_eq(vote.room_id.as_str(), room_id) {
                kept.insert(key.clone(), clone_vote(vote));
            }
            proof {
                assert forall|v: Seq<char>| #[trigger] kept@.contains_key(v) <==>
                    g.votes().contains_key(v) && g.votes()[v].room_id != room_id@
                    && (exists|j: int| 0 <= j < i + 1 && g.vote_order()[j] == v) by {
                    if v != k {
                        if exists|j: int| 0 <= j < i + 1 && g.vote_order()[j] == v {
                            let j = choose|j: int| 0 <= j < i + 1 && g.vote_order()[j] == v;
                            assert(j != i);
                            assert(exists|j: int| 0 <= j < i && g.vote_order()[j] == v);
                        }
                        if exists|j: int| 0 <= j < i && g.vote_order()[j] == v {
                            let j = choose|j: int| 0 <= j < i && g.vote_order()[j] == v;
                            assert(0 <= j < i + 1 && g.vote_order()[j] == v);
                        }
                    } else {
                        assert(0 <= i < i + 1 && g.vote_order()[i as int] == v);
                    }
                }
                assert forall|v: Seq<char>| #[trigger] kept@.contains_key(v) implies vote_view(kept@[v]) == g.votes()[v] by {
                    if v != k {
                        assert(prev.contains_key(v));
                    }
                }
            }
            i = i + 1;
        }
        proof {
            assert forall|v: Seq<char>| g.votes().contains_key(v) implies
                exists|j: int| 0 <= j < n && g.vote_order()[j] == v by {
                g.active_votes.lemma_view_finite();
                assert(g.active_votes@.contains_key(v));
                assert(g.vote_order().to_set().contains(v));
            }
        }
        self.active_votes = kept;
        proof {
            assert(self.elections() =~= g.elections());
            assert(self.leaders() =~= g.leaders());
        }
        self.drop_election(room_id);
        self.drop_leader(room_id);
    }
}

} // verus!
