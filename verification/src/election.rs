//! The election of a leader among meta nodes, by leases on a shared key.
use vstd::prelude::*;

use vstd::utf8::{decode_utf8, encode_utf8, valid_utf8};

use crate::row::same_bytes;

verus! {

/// The key that the nodes campaign for.
pub const META_ELECTION_KEY: &'static str = "__meta_election";

/// A key-value pair of the store that the election is held in.
#[derive(Debug, PartialEq, Eq)]
pub struct KeyValue {
    pub value: Vec<u8>,
    pub lease: i64,
    pub create_revision: i64,
}

/// The model of a [`KeyValue`].
pub struct KvView {
    pub value: Seq<u8>,
    pub lease: i64,
    pub create_revision: i64,
}

impl View for KeyValue {
    type V = KvView;

    open spec fn view(&self) -> KvView {
        KvView { value: self.value@, lease: self.lease, create_revision: self.create_revision }
    }
}

/// What a call of the store failed with.
#[derive(Debug, PartialEq, Eq)]
pub enum ElectionError {
    /// The store answered with an error, which has this message.
    GRpcStatus(String),
    Other(String),
}

/// A leader and its lease.
#[derive(Debug, PartialEq, Eq)]
pub struct MetaLeaderInfo {
    pub node_address: String,
    pub lease_id: u64,
}

/// The text that bytes stand for, where what is not UTF-8 is replaced.
pub uninterp spec fn lossy_text(bytes: Seq<u8>) -> Seq<char>;

/// `String::from_utf8_lossy`: the text depends on the bytes alone, and is what they encode where
/// they are UTF-8. What replaces other bytes is left unsaid.
#[verifier::external_body]
pub(crate) fn value_to_address(value: &Vec<u8>) -> (r: String)
    ensures
        r@ == lossy_text(value@),
        valid_utf8(value@) ==> r@ == decode_utf8(value@),
{
    String::from_utf8_lossy(value).to_string()
}

/// The store says that there is no leader.
pub open spec fn says_no_leader(e: ElectionError) -> bool {
    e matches ElectionError::GRpcStatus(message) && message@ == "election: no leader"@
}

fn is_no_leader(e: &ElectionError) -> (r: bool)
    ensures
        r == says_no_leader(*e),
{
    match e {
        ElectionError::GRpcStatus(message) => *message == "election: no leader".to_owned(),
        ElectionError::Other(_) => false,
    }
}

/// The leader at an address, by the lease that it holds.
pub fn leader_info(node_address: String, lease: i64) -> (r: MetaLeaderInfo)
    ensures
        r.node_address == node_address,
        r.lease_id == lease as u64,
{
    MetaLeaderInfo { node_address, lease_id: lease as u64 }
}

/// `r` is who leads, by the answer `reply` of the store.
pub open spec fn named_by(
    reply: Result<KeyValue, ElectionError>,
    r: Result<Option<MetaLeaderInfo>, ElectionError>,
) -> bool {
    match reply {
        Ok(kv) => {
            &&& r matches Ok(Some(info)) && info.node_address@ == lossy_text(kv@.value)
                && info.lease_id == kv@.lease as u64
            &&& valid_utf8(kv@.value) ==> r->Ok_0->0.node_address@ == decode_utf8(kv@.value)
        },
        Err(e) => if says_no_leader(e) {
            r == Ok::<Option<MetaLeaderInfo>, ElectionError>(None)
        } else {
            r == Err::<Option<MetaLeaderInfo>, ElectionError>(e)
        },
    }
}

/// Who leads, by an answer of the store.
pub fn leader_by_reply(reply: Result<KeyValue, ElectionError>) -> (r: Result<
    Option<MetaLeaderInfo>,
    ElectionError,
>)
    ensures
        named_by(reply, r),
{
    match reply {
        Ok(kv) => Ok(Some(leader_info(value_to_address(&kv.value), kv.lease))),
        Err(e) => {
            if is_no_leader(&e) {
                Ok(None)
            } else {
                Err(e)
            }
        },
    }
}

/// Where a campaign stands.
#[derive(Clone, Copy, Debug, PartialEq, Eq, Structural)]
pub enum Phase {
    /// No campaign is under way.
    Idle,
    /// The leader has been asked for.
    AskedLeader,
    /// A lease has been asked for.
    AskedLease,
    /// It has been tried to keep this lease alive.
    Probing(i64),
    /// A lease has been asked for in the place of one that is void.
    AskedNewLease,
    /// The campaign runs under this lease.
    Campaigning(i64),
    /// The node leads under this lease.
    Leading(i64),
}

/// What to do next in a campaign.
#[derive(Debug, PartialEq, Eq)]
pub enum Command {
    /// Ask for the leader, then `on_leader`.
    AskLeader,
    /// Ask for a lease of this time to live, then `on_granted`.
    Grant(i64),
    /// Try to keep this lease alive, then `on_probed`.
    Probe(i64),
    /// Keep this lease alive from now on, and campaign under it with this value, then
    /// `on_campaigned`.
    Campaign(i64, Vec<u8>),
    /// Wait until the lease cannot be kept alive any more, then `on_lost`.
    AwaitLoss,
    /// The campaign is over; stop keeping the lease alive.
    Finish,
    /// The campaign failed.
    Fail(ElectionError),
}

/// A node that takes part in the election.
#[derive(Debug, PartialEq, Eq)]
pub struct EtcdElectionClient {
    /// Whether the node leads.
    pub is_leader: bool,
    /// The name of the node, which is the value that it campaigns with.
    pub id: String,
    /// The time to live of the leases that the campaign asks for.
    pub ttl: i64,
    pub phase: Phase,
}

impl EtcdElectionClient {
    /// A node leads while its campaign is in that phase, and at no other time.
    pub open spec fn well_formed(&self) -> bool {
        self.is_leader == (self.phase is Leading)
    }

    pub fn new(id: String) -> (r: Self)
        ensures
            r.well_formed(),
            !r.is_leader,
            r.id == id,
            r.ttl == 0,
            r.phase == Phase::Idle,
    {
        EtcdElectionClient { is_leader: false, id, ttl: 0, phase: Phase::Idle }
    }

    pub fn is_leader(&self) -> (r: bool)
        ensures
            r == self.is_leader,
    {
        self.is_leader
    }

    /// Who leads, where that is known without a question: the node itself.
    pub fn known_leader(&self) -> (r: Option<MetaLeaderInfo>)
        ensures
            r is Some == self.is_leader,
            r matches Some(info) ==> info.node_address@ == self.id@ && info.lease_id == 0,
    {
        if self.is_leader {
            Some(MetaLeaderInfo { node_address: self.id.clone(), lease_id: 0 })
        } else {
            None
        }
    }

    /// Who leads: the node itself, where it does; else who the store says does. The store is asked
    /// only where the node does not lead.
    pub fn leader(&self, reply: Option<Result<KeyValue, ElectionError>>) -> (r: Result<
        Option<MetaLeaderInfo>,
        ElectionError,
    >)
        requires
            self.is_leader || reply is Some,
        ensures
            if self.is_leader {
                r matches Ok(Some(info)) && info.node_address@ == self.id@ && info.lease_id == 0
            } else {
                named_by(reply->0, r)
            },
            told_leader(*self, reply, r),
    {
        match reply {
            Some(reply) => {
                if self.is_leader {
                    Ok(self.known_leader())
                } else {
                    leader_by_reply(reply)
                }
            },
            None => Ok(self.known_leader()),
        }
    }

    /// The members of the election, the oldest first: the address, the lease, and whether the member
    /// leads, which the oldest does.
    pub fn get_members(kvs: Vec<KeyValue>) -> (r: Vec<(String, i64, bool)>)
        ensures
            r@.len() == by_revision(kv_views(kvs@)).len(),
            forall|i: int|
                0 <= i < r@.len() ==> {
                    let kv = by_revision(kv_views(kvs@))[i];
                    &&& (#[trigger] r@[i]).0@ == lossy_text(kv.value)
                    &&& valid_utf8(kv.value) ==> r@[i].0@ == decode_utf8(kv.value)
                    &&& r@[i].1 == kv.lease
                    &&& r@[i].2 == (i == 0)
                },
    {
        let sorted = sort_by_revision(kvs);
        let ghost order = kv_views(sorted@);
        let mut members: Vec<(String, i64, bool)> = Vec::new();
        let n: usize = sorted.len();
        let mut i: usize = 0;
        while i < n
            invariant
                i <= n,
                n == sorted@.len(),
                order == kv_views(sorted@),
                members@.len() == i,
                forall|j: int|
                    0 <= j < i ==> {
                        &&& (#[trigger] members@[j]).0@ == lossy_text(order[j].value)
                        &&& valid_utf8(order[j].value) ==> members@[j].0@ == decode_utf8(
                            order[j].value,
                        )
                        &&& members@[j].1 == order[j].lease
                        &&& members@[j].2 == (j == 0)
                    },
            decreases n - i,
        {
            members.push((value_to_address(&sorted[i].value), sorted[i].lease, i == 0));
            i = i + 1;
        }
        members
    }

    /// `self` is `before` in another phase of its campaign.
    pub open spec fn moved(&self, before: &Self, phase: Phase) -> bool {
        &&& self.well_formed()
        &&& self.phase == phase
        &&& self.id == before.id
        &&& self.ttl == before.ttl
    }

    /// Begins a campaign; the node does not lead.
    pub fn run_once(&mut self, ttl: i64) -> (command: Command)
        ensures
            final(self).moved(
                &(EtcdElectionClient { ttl, ..*old(self) }),
                Phase::AskedLeader,
            ),
            command == Command::AskLeader,
            campaigned(*old(self), Told::Begin(ttl), command, *final(self)),
    {
        self.is_leader = false;
        self.ttl = ttl;
        self.phase = Phase::AskedLeader;
        Command::AskLeader
    }

    /// The leader is known, or that there is none. A node that leads already goes on with its lease;
    /// any other asks for a lease.
    pub fn on_leader(&mut self, reply: Result<Option<KeyValue>, ElectionError>) -> (command: Command)
        requires
            old(self).phase == Phase::AskedLeader,
        ensures
            match reply {
                Ok(Some(kv)) if kv@.value == encode_utf8(old(self).id@) => {
                    &&& command == Command::Probe(kv.lease)
                    &&& final(self).moved(old(self), Phase::Probing(kv.lease))
                },
                Ok(_) => {
                    &&& command == Command::Grant(old(self).ttl)
                    &&& final(self).moved(old(self), Phase::AskedLease)
                },
                Err(e) => if says_no_leader(e) {
                    &&& command == Command::Grant(old(self).ttl)
                    &&& final(self).moved(old(self), Phase::AskedLease)
                } else {
                    &&& command == Command::Fail(e)
                    &&& final(self).moved(old(self), Phase::Idle)
                },
            },
            campaigned(*old(self), Told::Leader(reply), command, *final(self)),
    {
        self.is_leader = false;
        match reply {
            Ok(Some(kv)) => {
                if same_bytes(&kv.value, &self.id.as_str().as_bytes_vec()) {
                    self.phase = Phase::Probing(kv.lease);
                    Command::Probe(kv.lease)
                } else {
                    self.phase = Phase::AskedLease;
                    Command::Grant(self.ttl)
                }
            },
            Ok(None) => {
                self.phase = Phase::AskedLease;
                Command::Grant(self.ttl)
            },
            Err(e) => {
                if is_no_leader(&e) {
                    self.phase = Phase::AskedLease;
                    Command::Grant(self.ttl)
                } else {
                    self.phase = Phase::Idle;
                    Command::Fail(e)
                }
            },
        }
    }

    /// A lease has come, or none.
    pub fn on_granted(&mut self, reply: Result<i64, ElectionError>) -> (command: Command)
        requires
            old(self).phase == Phase::AskedLease || old(self).phase == Phase::AskedNewLease,
        ensures
            match reply {
                Err(e) => {
                    &&& command == Command::Fail(e)
                    &&& final(self).moved(old(self), Phase::Idle)
                },
                Ok(lease) => if old(self).phase == Phase::AskedLease {
                    &&& command == Command::Probe(lease)
                    &&& final(self).moved(old(self), Phase::Probing(lease))
                } else {
                    &&& command matches Command::Campaign(l, value) && l == lease && value@
                        == encode_utf8(old(self).id@)
                    &&& final(self).moved(old(self), Phase::Campaigning(lease))
                },
            },
            campaigned(*old(self), Told::Granted(reply), command, *final(self)),
    {
        self.is_leader = false;
        match reply {
            Err(e) => {
                self.phase = Phase::Idle;
                Command::Fail(e)
            },
            Ok(lease) => {
                if self.phase == Phase::AskedLease {
                    self.phase = Phase::Probing(lease);
                    Command::Probe(lease)
                } else {
                    self.campaign(lease)
                }
            },
        }
    }

    fn campaign(&mut self, lease: i64) -> (command: Command)
        requires
            !old(self).is_leader,
        ensures
            command matches Command::Campaign(l, value) && l == lease && value@
                == encode_utf8(old(self).id@),
            final(self).moved(old(self), Phase::Campaigning(lease)),
    {
        self.phase = Phase::Campaigning(lease);
        Command::Campaign(lease, self.id.as_str().as_bytes_vec())
    }

    /// It has been tried to keep the lease alive: the time to live that is left has come back, or
    /// nothing. A lease that has none left is replaced.
    pub fn on_probed(&mut self, reply: Result<Option<i64>, ElectionError>) -> (command: Command)
        requires
            old(self).phase is Probing,
        ensures
            match reply {
                Err(e) => {
                    &&& command == Command::Fail(e)
                    &&& final(self).moved(old(self), Phase::Idle)
                },
                Ok(left) => if left == Some(0i64) {
                    &&& command == Command::Grant(old(self).ttl)
                    &&& final(self).moved(old(self), Phase::AskedNewLease)
                } else {
                    let lease = old(self).phase->Probing_0;
                    &&& command matches Command::Campaign(l, value) && l == lease && value@
                        == encode_utf8(old(self).id@)
                    &&& final(self).moved(old(self), Phase::Campaigning(lease))
                },
            },
            campaigned(*old(self), Told::Probed(reply), command, *final(self)),
    {
        self.is_leader = false;
        match reply {
            Err(e) => {
                self.phase = Phase::Idle;
                Command::Fail(e)
            },
            Ok(left) => {
                let expired = match left {
                    Some(ttl) => ttl == 0,
                    None => false,
                };
                if expired {
                    self.phase = Phase::AskedNewLease;
                    return Command::Grant(self.ttl);
                }
                match self.phase {
                    Phase::Probing(lease) => self.campaign(lease),
                    _ => Command::AskLeader,
                }
            },
        }
    }

    /// The campaign has been won, or has failed.
    pub fn on_campaigned(&mut self, reply: Result<(), ElectionError>) -> (command: Command)
        requires
            old(self).phase is Campaigning,
        ensures
            match reply {
                Err(e) => {
                    &&& command == Command::Fail(e)
                    &&& final(self).moved(old(self), Phase::Idle)
                },
                Ok(()) => {
                    &&& command == Command::AwaitLoss
                    &&& final(self).moved(
                        old(self),
                        Phase::Leading(old(self).phase->Campaigning_0),
                    )
                },
            },
            campaigned(*old(self), Told::Campaigned(reply), command, *final(self)),
    {
        match reply {
            Err(e) => {
                self.is_leader = false;
                self.phase = Phase::Idle;
                Command::Fail(e)
            },
            Ok(()) => {
                match self.phase {
                    Phase::Campaigning(lease) => {
                        self.phase = Phase::Leading(lease);
                        self.is_leader = true;
                    },
                    _ => {},
                }
                Command::AwaitLoss
            },
        }
    }

    /// The lease could not be kept alive: the node leads no longer.
    pub fn on_lost(&mut self) -> (command: Command)
        requires
            old(self).phase is Leading,
        ensures
            command == Command::Finish,
            final(self).moved(old(self), Phase::Idle),
            campaigned(*old(self), Told::Lost, command, *final(self)),
    {
        self.is_leader = false;
        self.phase = Phase::Idle;
        Command::Finish
    }
}

/// Whether a lease is lost: an attempt to keep it alive failed, or no time to live is left.
pub fn is_lease_lost(attempt: &Result<Option<i64>, ElectionError>) -> (r: bool)
    ensures
        r == match attempt {
            Err(_) => true,
            Ok(None) => false,
            Ok(Some(ttl)) => *ttl <= 0,
        },
        r == lease_lost(*attempt),
{
    match attempt {
        Err(_) => true,
        Ok(None) => false,
        Ok(Some(ttl)) => *ttl <= 0,
    }
}

/// A pair put into a list that is in the order of creation, behind those that are not younger.
pub open spec fn inserted(list: Seq<KvView>, kv: KvView) -> Seq<KvView>
    decreases list.len(),
{
    if list.len() == 0 || list.last().create_revision <= kv.create_revision {
        list.push(kv)
    } else {
        inserted(list.drop_last(), kv).push(list.last())
    }
}

/// The pairs in the order of their creation; those of one revision stay in their order.
pub open spec fn by_revision(kvs: Seq<KvView>) -> Seq<KvView>
    decreases kvs.len(),
{
    if kvs.len() == 0 {
        Seq::empty()
    } else {
        inserted(by_revision(kvs.drop_last()), kvs.last())
    }
}

pub open spec fn kv_views(kvs: Seq<KeyValue>) -> Seq<KvView> {
    Seq::new(kvs.len(), |i: int| kvs[i]@)
}

fn insert_by_revision(list: &mut Vec<KeyValue>, kv: KeyValue)
    ensures
        kv_views(final(list)@) == inserted(kv_views(old(list)@), kv@),
{
    let ghost before = kv_views(list@);
    let n: usize = list.len();
    let mut i: usize = n;
    assert(before.take(n as int) =~= before);
    assert(before.skip(n as int) =~= Seq::empty());
    assert(inserted(before, kv@) + Seq::<KvView>::empty() =~= inserted(before, kv@));
    while i > 0 && list[i - 1].create_revision > kv.create_revision
        invariant
            i <= n,
            n == list@.len(),
            before == kv_views(list@),
            inserted(before, kv@) == inserted(before.take(i as int), kv@) + before.skip(i as int),
        decreases i,
    {
        proof {
            let head = before.take(i as int);
            assert(head.last() == before[i - 1]);
            assert(head.drop_last() =~= before.take(i - 1));
            assert(inserted(head, kv@) == inserted(before.take(i - 1), kv@).push(before[i - 1]));
            assert(inserted(before.take(i - 1), kv@).push(before[i - 1]) + before.skip(i as int)
                =~= inserted(before.take(i - 1), kv@) + before.skip(i - 1));
        }
        i = i - 1;
    }
    proof {
        let head = before.take(i as int);
        if i > 0 {
            assert(head.last() == before[i - 1]);
        }
        assert(inserted(head, kv@) == head.push(kv@));
    }
    list.insert(i, kv);
    assert(kv_views(list@) =~= before.take(i as int).push(kv@) + before.skip(i as int));
}

/// The pairs in the order of their creation; those of one revision stay in their order.
pub fn sort_by_revision(kvs: Vec<KeyValue>) -> (r: Vec<KeyValue>)
    ensures
        kv_views(r@) == by_revision(kv_views(kvs@)),
{
    let ghost given = kvs@;
    let ghost all = kv_views(given);
    let mut sorted: Vec<KeyValue> = Vec::new();
    assert(kv_views(sorted@) =~= Seq::empty());
    for kv in it: kvs
        invariant
            it.seq() == given,
            all == kv_views(given),
            kv_views(sorted@) == by_revision(all.take(it.index() as int)),
    {
        proof {
            let i = it.index() as int;
            let next = all.take(i + 1);
            assert(next.drop_last() =~= all.take(i));
            assert(next.last() == all[i]);
        }
        insert_by_revision(&mut sorted, kv);
    }
    assert(all.take(all.len() as int) =~= all);
    sorted
}

proof fn lemma_inserted(list: Seq<KvView>, kv: KvView)
    requires
        in_creation_order(list),
    ensures
        in_creation_order(inserted(list, kv)),
        inserted(list, kv).to_multiset() == list.to_multiset().insert(kv),
        inserted(list, kv).len() == list.len() + 1,
        inserted(list, kv).last() == (if list.len() == 0 || list.last().create_revision
            <= kv.create_revision {
            kv
        } else {
            list.last()
        }),
    decreases list.len(),
{
    broadcast use vstd::seq_lib::group_to_multiset_ensures;

    let r = inserted(list, kv);
    if !(list.len() == 0 || list.last().create_revision <= kv.create_revision) {
        let less = list.drop_last();
        assert(in_creation_order(less)) by {
            assert forall|i: int, j: int| 0 <= i <= j < less.len() implies (
            #[trigger] less[i]).create_revision <= (#[trigger] less[j]).create_revision by {
                assert(less[i] == list[i] && less[j] == list[j]);
            }
        }
        lemma_inserted(less, kv);
        let head = inserted(less, kv);
        assert(list =~= less.push(list.last()));
        assert(r.to_multiset() =~= list.to_multiset().insert(kv));
        assert forall|i: int, j: int| 0 <= i <= j < r.len() implies (
        #[trigger] r[i]).create_revision <= (#[trigger] r[j]).create_revision by {
            if less.len() > 0 {
                assert(list[list.len() - 2].create_revision <= list[list.len() - 1].create_revision);
                assert(less.last() == list[list.len() - 2]);
            }
            if j < head.len() {
                assert(r[i] == head[i] && r[j] == head[j]);
            } else if i < head.len() {
                assert(r[i] == head[i]);
                assert(head[i].create_revision <= head[head.len() - 1].create_revision);
            }
        }
    } else {
        assert forall|i: int, j: int| 0 <= i <= j < r.len() implies (
        #[trigger] r[i]).create_revision <= (#[trigger] r[j]).create_revision by {
            if i < list.len() {
                assert(r[i] == list[i]);
                assert(list[i].create_revision <= list[list.len() - 1].create_revision);
            }
            if j < list.len() {
                assert(r[j] == list[j]);
            }
        }
    }
}

/// No pair is older than one before it.
pub open spec fn in_creation_order(list: Seq<KvView>) -> bool {
    forall|i: int, j: int|
        0 <= i <= j < list.len() ==> (#[trigger] list[i]).create_revision <= (
        #[trigger] list[j]).create_revision
}

/// The pairs with one revision, in their order.
pub open spec fn of_revision(kvs: Seq<KvView>, revision: i64) -> Seq<KvView> {
    kvs.filter(|kv: KvView| kv.create_revision == revision)
}

/// The members are listed in the order of their creation, each once for each time that it occurs,
/// and those of one revision in the order in which they came.
pub proof fn law_members_in_order(kvs: Seq<KvView>, revision: i64)
    ensures
        in_creation_order(by_revision(kvs)),
        forall|i: int, j: int|
            0 <= i <= j < kvs.len() ==> (#[trigger] by_revision(kvs)[i]).create_revision <= (
            #[trigger] by_revision(kvs)[j]).create_revision,
        by_revision(kvs).to_multiset() == kvs.to_multiset(),
        by_revision(kvs).len() == kvs.len(),
        of_revision(by_revision(kvs), revision) == of_revision(kvs, revision),
        by_revision(kvs).filter(|kv: KvView| kv.create_revision == revision) == kvs.filter(
            |kv: KvView| kv.create_revision == revision,
        ),
    decreases kvs.len(),
{
    broadcast use vstd::seq_lib::group_to_multiset_ensures;

    if kvs.len() == 0 {
        assert(by_revision(kvs) =~= kvs);
    } else {
        law_members_in_order(kvs.drop_last(), revision);
        lemma_inserted(by_revision(kvs.drop_last()), kvs.last());
        lemma_inserted_stable(by_revision(kvs.drop_last()), kvs.last(), revision);
        assert(kvs =~= kvs.drop_last().push(kvs.last()));
        lemma_filter_push(kvs.drop_last(), kvs.last(), revision);
        lemma_filter_push(by_revision(kvs.drop_last()), kvs.last(), revision);
    }
}

proof fn lemma_filter_push(list: Seq<KvView>, kv: KvView, revision: i64)
    ensures
        of_revision(list.push(kv), revision) == (if kv.create_revision == revision {
            of_revision(list, revision).push(kv)
        } else {
            of_revision(list, revision)
        }),
{
    reveal(Seq::filter);
    assert(list.push(kv).drop_last() =~= list);
}

proof fn lemma_inserted_stable(list: Seq<KvView>, kv: KvView, revision: i64)
    ensures
        of_revision(inserted(list, kv), revision) == of_revision(list.push(kv), revision),
    decreases list.len(),
{
    if !(list.len() == 0 || list.last().create_revision <= kv.create_revision) {
        let less = list.drop_last();
        let last = list.last();
        lemma_inserted_stable(less, kv, revision);
        assert(list =~= less.push(last));
        lemma_filter_push(inserted(less, kv), last, revision);
        lemma_filter_push(less, kv, revision);
        lemma_filter_push(less, last, revision);
        lemma_filter_push(list, kv, revision);
    }
}

/// Of the members exactly the first one leads, and nobody is older.
pub proof fn law_oldest_leads(kvs: Seq<KvView>)
    requires
        kvs.len() > 0,
    ensures
        by_revision(kvs).len() > 0,
        kvs.contains(by_revision(kvs)[0]),
        forall|i: int|
            0 <= i < kvs.len() ==> by_revision(kvs)[0].create_revision <= (
            #[trigger] kvs[i]).create_revision,
{
    broadcast use vstd::seq_lib::group_to_multiset_ensures;

    let sorted = by_revision(kvs);
    law_members_in_order(kvs, 0);
    assert(sorted.contains(sorted[0]));
    assert(kvs.to_multiset().count(sorted[0]) > 0);
    assert forall|i: int| 0 <= i < kvs.len() implies sorted[0].create_revision <= (
    #[trigger] kvs[i]).create_revision by {
        assert(kvs.contains(kvs[i]));
        assert(sorted.to_multiset().count(kvs[i]) > 0);
        let j = choose|j: int| 0 <= j < sorted.len() && sorted[j] == kvs[i];
        assert(sorted[j].create_revision >= sorted[0].create_revision);
    }
}

/// The leader that the store names is reported with the lease of the pair, as it stands, and with the
/// text of its value.
pub proof fn law_reported_leader(
    kv: KeyValue,
    r: Result<Option<MetaLeaderInfo>, ElectionError>,
)
    requires
        named_by(Ok(kv), r),
    ensures
        r is Ok,
        r->Ok_0 is Some,
        kv.lease >= 0 ==> r->Ok_0->0.lease_id as int == kv.lease as int,
        kv.lease < 0 ==> r->Ok_0->0.lease_id as int == kv.lease as int + 0x1_0000_0000_0000_0000,
        valid_utf8(kv.value@) ==> r->Ok_0->0.node_address@ == decode_utf8(kv.value@),
        r->Ok_0->0.node_address@ == lossy_text(kv.value@),
{
    let lease = kv.lease;
    assert(lease < 0i64 ==> (lease as u64) as int == lease as int + 0x1_0000_0000_0000_0000)
        by (bit_vector);
}

/// Leaders with different leases are reported as different ones.
pub proof fn law_leases_told_apart(
    a: KeyValue,
    ra: Result<Option<MetaLeaderInfo>, ElectionError>,
    b: KeyValue,
    rb: Result<Option<MetaLeaderInfo>, ElectionError>,
)
    requires
        named_by(Ok(a), ra),
        named_by(Ok(b), rb),
    ensures
        ra->Ok_0->0.lease_id == rb->Ok_0->0.lease_id <==> a.lease == b.lease,
{
    law_reported_leader(a, ra);
    law_reported_leader(b, rb);
}

/// There is no leader exactly where the store answers with a status whose whole message says so; any
/// other failure is passed on.
pub proof fn law_no_leader_or_failure(
    e: ElectionError,
    r: Result<Option<MetaLeaderInfo>, ElectionError>,
)
    requires
        named_by(Err(e), r),
    ensures
        r == Ok::<Option<MetaLeaderInfo>, ElectionError>(None) <==> e is GRpcStatus
            && e->GRpcStatus_0@ == "election: no leader"@,
        !(e is GRpcStatus && e->GRpcStatus_0@ == "election: no leader"@) ==> r == Err::<
            Option<MetaLeaderInfo>,
            ElectionError,
        >(e),
        says_no_leader(e) <==> e is GRpcStatus && e->GRpcStatus_0@ == "election: no leader"@,
{
}

/// A node leads in the phase in which it has won, and in no other; a step of its campaign leaves its
/// name and the time to live of its leases alone.
pub proof fn law_leads_after_winning(
    before: EtcdElectionClient,
    after: EtcdElectionClient,
    phase: Phase,
)
    requires
        after.moved(&before, phase),
    ensures
        after.phase == phase,
        after.is_leader <==> phase is Leading,
        after.id == before.id,
        after.ttl == before.ttl,
{
}

/// The members are those that the store has, each with its lease and the text of its value. The first
/// one leads, and it alone; nobody was created before it, and nobody before those listed earlier.
pub proof fn law_members(kvs: Seq<KeyValue>, members: Seq<(String, i64, bool)>)
    requires
        members.len() == by_revision(kv_views(kvs)).len(),
        forall|i: int|
            0 <= i < members.len() ==> {
                let kv = by_revision(kv_views(kvs))[i];
                &&& (#[trigger] members[i]).0@ == lossy_text(kv.value)
                &&& members[i].1 == kv.lease
                &&& members[i].2 == (i == 0)
            },
    ensures
        members.len() == kvs.len(),
        forall|i: int| 0 <= i < members.len() ==> ((#[trigger] members[i]).2 <==> i == 0),
        forall|i: int| 0 <= i < kvs.len() ==> #[trigger] is_listed(kvs[i], members),
        forall|i: int, j: int|
            0 <= i < j < members.len() ==> #[trigger] is_not_younger(kvs, members[i], members[j]),
        members.len() > 0 ==> exists|a: int|
            {
                &&& 0 <= a < kvs.len()
                &&& #[trigger] is_member(kvs[a], members[0])
                &&& forall|b: int|
                    0 <= b < kvs.len() ==> kvs[a].create_revision <= (
                    #[trigger] kvs[b]).create_revision
            },
{
    broadcast use vstd::seq_lib::group_to_multiset_ensures;

    let views = kv_views(kvs);
    let sorted = by_revision(views);
    law_members_in_order(views, 0);
    assert forall|i: int| 0 <= i < kvs.len() implies #[trigger] is_listed(kvs[i], members) by {
        assert(views[i] == kvs[i]@);
        assert(views.contains(views[i]));
        assert(sorted.to_multiset().count(views[i]) > 0);
        let j = choose|j: int| 0 <= j < sorted.len() && sorted[j] == views[i];
        assert(is_member(kvs[i], members[j]));
    }
    assert forall|i: int, j: int| 0 <= i < j < members.len() implies #[trigger] is_not_younger(
        kvs,
        members[i],
        members[j],
    ) by {
        assert(sorted.contains(sorted[i]) && sorted.contains(sorted[j]));
        assert(views.to_multiset().count(sorted[i]) > 0 && views.to_multiset().count(sorted[j]) > 0);
        let a = choose|a: int| 0 <= a < views.len() && views[a] == sorted[i];
        let b = choose|b: int| 0 <= b < views.len() && views[b] == sorted[j];
        assert(is_member(kvs[a], members[i]) && is_member(kvs[b], members[j]));
        assert(sorted[i].create_revision <= sorted[j].create_revision);
    }
    if members.len() > 0 {
        law_oldest_leads(views);
        let a = choose|a: int| 0 <= a < views.len() && views[a] == sorted[0];
        assert(is_member(kvs[a], members[0]));
        assert forall|b: int| 0 <= b < kvs.len() implies kvs[a].create_revision <= (
        #[trigger] kvs[b]).create_revision by {
            assert(views[b].create_revision >= sorted[0].create_revision);
        }
    }
}

/// `member` is `kv`, by the text of its value and its lease.
pub open spec fn is_member(kv: KeyValue, member: (String, i64, bool)) -> bool {
    &&& member.0@ == lossy_text(kv.value@)
    &&& member.1 == kv.lease
}

/// `kv` is one of the members.
pub open spec fn is_listed(kv: KeyValue, members: Seq<(String, i64, bool)>) -> bool {
    exists|j: int| 0 <= j < members.len() && is_member(kv, #[trigger] members[j])
}

/// The member `a` was not created after the member `b`.
pub open spec fn is_not_younger(
    kvs: Seq<KeyValue>,
    a: (String, i64, bool),
    b: (String, i64, bool),
) -> bool {
    exists|i: int, j: int|
        {
            &&& 0 <= i < kvs.len()
            &&& 0 <= j < kvs.len()
            &&& #[trigger] is_member(kvs[i], a)
            &&& #[trigger] is_member(kvs[j], b)
            &&& kvs[i].create_revision <= kvs[j].create_revision
        }
}

/// What a campaign is told.
pub enum Told {
    /// It is to begin, with leases of this time to live.
    Begin(i64),
    Leader(Result<Option<KeyValue>, ElectionError>),
    Granted(Result<i64, ElectionError>),
    Probed(Result<Option<i64>, ElectionError>),
    Campaigned(Result<(), ElectionError>),
    Lost,
}

/// A node that is told `told` says `command` and is `after`.
pub open spec fn campaigned(
    before: EtcdElectionClient,
    told: Told,
    command: Command,
    after: EtcdElectionClient,
) -> bool {
    &&& after.well_formed()
    &&& after.id == before.id
    &&& match told {
        Told::Begin(ttl) => {
            &&& command == Command::AskLeader
            &&& after.phase == Phase::AskedLeader
            &&& after.ttl == ttl
        },
        Told::Leader(reply) => {
            &&& before.phase == Phase::AskedLeader
            &&& after.ttl == before.ttl
            &&& match reply {
                Ok(Some(kv)) if kv@.value == encode_utf8(before.id@) => command == Command::Probe(
                    kv.lease,
                ) && after.phase == Phase::Probing(kv.lease),
                Err(e) if !says_no_leader(e) => command == Command::Fail(e) && after.phase
                    == Phase::Idle,
                _ => command == Command::Grant(before.ttl) && after.phase == Phase::AskedLease,
            }
        },
        Told::Granted(reply) => {
            &&& before.phase == Phase::AskedLease || before.phase == Phase::AskedNewLease
            &&& after.ttl == before.ttl
            &&& match reply {
                Err(e) => command == Command::Fail(e) && after.phase == Phase::Idle,
                Ok(lease) => if before.phase == Phase::AskedLease {
                    command == Command::Probe(lease) && after.phase == Phase::Probing(lease)
                } else {
                    command is Campaign && command->Campaign_0 == lease && command->Campaign_1@
                        == encode_utf8(before.id@) && after.phase == Phase::Campaigning(lease)
                },
            }
        },
        Told::Probed(reply) => {
            &&& before.phase is Probing
            &&& after.ttl == before.ttl
            &&& match reply {
                Err(e) => command == Command::Fail(e) && after.phase == Phase::Idle,
                Ok(left) => if left == Some(0i64) {
                    command == Command::Grant(before.ttl) && after.phase == Phase::AskedNewLease
                } else {
                    let lease = before.phase->Probing_0;
                    command is Campaign && command->Campaign_0 == lease && command->Campaign_1@
                        == encode_utf8(before.id@) && after.phase == Phase::Campaigning(lease)
                },
            }
        },
        Told::Campaigned(reply) => {
            &&& before.phase is Campaigning
            &&& after.ttl == before.ttl
            &&& match reply {
                Err(e) => command == Command::Fail(e) && after.phase == Phase::Idle,
                Ok(()) => command == Command::AwaitLoss && after.phase == Phase::Leading(
                    before.phase->Campaigning_0,
                ),
            }
        },
        Told::Lost => {
            &&& before.phase is Leading
            &&& after.ttl == before.ttl
            &&& command == Command::Finish
            &&& after.phase == Phase::Idle
        },
    }
}

/// Each of the nodes is told something, says something, and is the next one afterwards.
pub open spec fn is_campaign(
    nodes: Seq<EtcdElectionClient>,
    told: Seq<Told>,
    commands: Seq<Command>,
) -> bool {
    &&& nodes.len() == told.len() + 1
    &&& commands.len() == told.len()
    &&& forall|i: int|
        0 <= i < told.len() ==> campaigned(
            nodes[i],
            #[trigger] told[i],
            commands[i],
            nodes[i + 1],
        )
}

/// Over all that a node is told, it leads exactly from the moment it is told that it has won to the
/// next thing it is told; and its name stays.
pub proof fn law_leads_from_win_to_loss(
    nodes: Seq<EtcdElectionClient>,
    told: Seq<Told>,
    commands: Seq<Command>,
)
    requires
        is_campaign(nodes, told, commands),
        nodes[0].well_formed(),
        nodes[0].phase == Phase::Idle,
    ensures
        nodes.last().is_leader <==> told.len() > 0 && told.last() is Campaigned
            && told.last()->Campaigned_0 is Ok,
        nodes.last().id == nodes[0].id,
    decreases told.len(),
{
    if told.len() > 0 {
        let n = told.len() - 1;
        let less = told.drop_last();
        assert forall|i: int| 0 <= i < less.len() implies campaigned(
            nodes.drop_last()[i],
            #[trigger] less[i],
            commands.drop_last()[i],
            nodes.drop_last()[i + 1],
        ) by {
            assert(less[i] == told[i]);
        }
        law_leads_from_win_to_loss(nodes.drop_last(), less, commands.drop_last());
        assert(campaigned(nodes[n], told[n], commands[n], nodes[n + 1]));
    }
}

/// A node campaigns with its own name as the value, and under a lease that it holds: one that was just
/// granted to it, or one that was found to have time left right after it was granted, or after the store
/// named the node as the leader under it.
pub proof fn law_campaigns_with_a_live_lease(
    nodes: Seq<EtcdElectionClient>,
    told: Seq<Told>,
    commands: Seq<Command>,
    i: int,
)
    requires
        is_campaign(nodes, told, commands),
        nodes[0].phase == Phase::Idle,
        0 <= i < told.len(),
        commands[i] is Campaign,
    ensures
        commands[i]->Campaign_1@ == encode_utf8(nodes[0].id@),
        ({
            let lease = commands[i]->Campaign_0;
            ||| told[i] == Told::Granted(Ok(lease))
            ||| {
                &&& i > 0
                &&& commands[i - 1] == Command::Probe(lease)
                &&& told[i] is Probed
                &&& told[i]->Probed_0 is Ok
                &&& told[i]->Probed_0->Ok_0 != Some(0i64)
                &&& {
                    ||| told[i - 1] == Told::Granted(Ok(lease))
                    ||| {
                        &&& told[i - 1] is Leader
                        &&& told[i - 1]->Leader_0 is Ok
                        &&& told[i - 1]->Leader_0->Ok_0 is Some
                        &&& told[i - 1]->Leader_0->Ok_0->0.lease == lease
                        &&& told[i - 1]->Leader_0->Ok_0->0.value@ == encode_utf8(nodes[0].id@)
                    }
                }
            }
        }),
{
    lemma_same_name(nodes, told, commands, i);
    assert(campaigned(nodes[i], told[i], commands[i], nodes[i + 1]));
    if i > 0 {
        lemma_same_name(nodes, told, commands, i - 1);
        assert(campaigned(nodes[i - 1], told[i - 1], commands[i - 1], nodes[i]));
    }
}

proof fn lemma_same_name(
    nodes: Seq<EtcdElectionClient>,
    told: Seq<Told>,
    commands: Seq<Command>,
    i: int,
)
    requires
        is_campaign(nodes, told, commands),
        0 <= i <= told.len(),
    ensures
        nodes[i].id == nodes[0].id,
    decreases i,
{
    if i > 0 {
        lemma_same_name(nodes, told, commands, i - 1);
        assert(campaigned(nodes[i - 1], told[i - 1], commands[i - 1], nodes[i]));
    }
}

/// A lease is asked for with the time to live that the campaign began with: exactly where there is no
/// leader, or another one, and where the lease at hand has no time left. A failure that the store
/// reports ends the campaign, but for the one that there is no leader.
pub proof fn law_leases_and_failures(
    before: EtcdElectionClient,
    told: Told,
    command: Command,
    after: EtcdElectionClient,
)
    requires
        campaigned(before, told, command, after),
    ensures
        command is Grant ==> command->Grant_0 == before.ttl,
        command is Grant <==> match told {
            Told::Leader(Ok(Some(kv))) => kv.value@ != encode_utf8(before.id@),
            Told::Leader(Ok(None)) => true,
            Told::Leader(Err(e)) => e is GRpcStatus && e->GRpcStatus_0@ == "election: no leader"@,
            Told::Probed(Ok(Some(left))) => left == 0,
            _ => false,
        },
        command is Fail <==> match told {
            Told::Leader(Err(e)) => !(e is GRpcStatus && e->GRpcStatus_0@ == "election: no leader"@),
            Told::Granted(reply) => reply is Err,
            Told::Probed(reply) => reply is Err,
            Told::Campaigned(reply) => reply is Err,
            _ => false,
        },
        command matches Command::Fail(e) ==> (match told {
            Told::Leader(reply) => reply == Err::<Option<KeyValue>, ElectionError>(e),
            Told::Granted(reply) => reply == Err::<i64, ElectionError>(e),
            Told::Probed(reply) => reply == Err::<Option<i64>, ElectionError>(e),
            Told::Campaigned(reply) => reply == Err::<(), ElectionError>(e),
            _ => false,
        }) && !after.is_leader,
        told matches Told::Begin(ttl) ==> after.ttl == ttl && !after.is_leader,
        !(told is Begin) ==> after.ttl == before.ttl,
{
}

/// An attempt to keep a lease alive shows that it is lost.
pub open spec fn lease_lost(attempt: Result<Option<i64>, ElectionError>) -> bool {
    match attempt {
        Err(_) => true,
        Ok(None) => false,
        Ok(Some(ttl)) => ttl <= 0,
    }
}

/// A lease is lost where the attempt failed, and where no time is left; never where some time is left,
/// or where nothing came back. With less time left it is lost all the more.
pub proof fn law_lost_leases(attempt: Result<Option<i64>, ElectionError>, ttl: i64, less: i64)
    requires
        less <= ttl,
    ensures
        attempt is Err ==> lease_lost(attempt),
        !lease_lost(Ok(None)),
        ttl > 0 ==> !lease_lost(Ok(Some(ttl))),
        ttl == 0 ==> lease_lost(Ok(Some(ttl))),
        lease_lost(Ok(Some(ttl))) ==> lease_lost(Ok(Some(less))),
{
}

/// `r` is who leads, as the node tells it where the store, if it was asked, answered `reply`.
pub open spec fn told_leader(
    node: EtcdElectionClient,
    reply: Option<Result<KeyValue, ElectionError>>,
    r: Result<Option<MetaLeaderInfo>, ElectionError>,
) -> bool {
    if node.is_leader {
        &&& r is Ok
        &&& r->Ok_0 is Some
        &&& r->Ok_0->0.node_address@ == node.id@
        &&& r->Ok_0->0.lease_id == 0
    } else {
        named_by(reply->0, r)
    }
}

/// A node that leads names itself, with no lease, whatever the store says; one that does not lead names
/// whom the store names, under the lease that the store tells.
pub proof fn law_who_leads(
    node: EtcdElectionClient,
    kv: KeyValue,
    r: Result<Option<MetaLeaderInfo>, ElectionError>,
)
    requires
        told_leader(node, Some(Ok(kv)), r),
    ensures
        r is Ok,
        r->Ok_0 is Some,
        node.is_leader ==> r->Ok_0->0.node_address@ == node.id@ && r->Ok_0->0.lease_id == 0,
        !node.is_leader ==> r->Ok_0->0.node_address@ == lossy_text(kv.value@),
        !node.is_leader && kv.lease >= 0 ==> r->Ok_0->0.lease_id as int == kv.lease as int,
{
    if !node.is_leader {
        law_reported_leader(kv, r);
    }
}

} // verus!
