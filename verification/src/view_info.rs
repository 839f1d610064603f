//! Cluster membership, quorum arithmetic and leader election for one view.

use vstd::prelude::*;

verus! {

/// Identifier of a replica.
pub type NodeId = u32;

/// Mathematical content of a [`ViewInfo`].
pub struct ViewSpec {
    pub view_number: u64,
    pub f: nat,
    pub membership: Seq<NodeId>,
}

impl ViewSpec {
    /// Total replica count.
    pub open spec fn n(self) -> nat {
        self.membership.len()
    }

    /// A view is valid when it tolerates `f` faults among its replicas
    /// (`n >= 3f + 1`) and lists every replica once.  The replicas of a
    /// view fit in the memory of one of them.
    pub open spec fn valid(self) -> bool {
        &&& self.n() >= 3 * self.f + 1
        &&& self.membership.no_duplicates()
        &&& self.n() <= usize::MAX
    }

    /// Whether a later view number exists.
    pub open spec fn has_successor(self) -> bool {
        self.view_number < u64::MAX
    }

    /// The view number that a view change from this view aims at.
    pub open spec fn target(self) -> int {
        self.view_number + 1
    }

    /// The same number where it can be written down.
    pub open spec fn next_number(self) -> Option<u64> {
        if self.has_successor() {
            Some((self.view_number + 1) as u64)
        } else {
            None
        }
    }

    /// Votes needed to overlap with every other quorum: `n - f`.
    pub open spec fn quorum_size(self) -> nat {
        (self.n() - self.f) as nat
    }

    /// Votes that include at least one correct replica: `f + 1`.
    pub open spec fn small_quorum(self) -> nat {
        self.f + 1
    }

    /// The replica at position `view_number mod n` of the membership.
    pub open spec fn leader(self) -> NodeId {
        self.membership[(self.view_number as int) % (self.n() as int)]
    }

    pub open spec fn is_member(self, id: NodeId) -> bool {
        self.membership.contains(id)
    }

    /// The view that a view change from this one installs: the same
    /// cluster under the next view number.
    pub open spec fn successor(self) -> ViewSpec
        recommends
            self.has_successor(),
    {
        ViewSpec { view_number: (self.view_number + 1) as u64, f: self.f, membership: self.membership }
    }

    /// The same cluster under the view number `view_number`.
    pub open spec fn at(self, view_number: u64) -> ViewSpec {
        ViewSpec { view_number, f: self.f, membership: self.membership }
    }

    /// The leader of the view that a view change from this one installs.
    pub open spec fn next_leader(self) -> NodeId {
        self.membership[self.target() % (self.n() as int)]
    }

    /// Number of distinct members of this view among `ids`.
    pub open spec fn support(self, ids: Seq<NodeId>) -> nat {
        ids.to_set().intersect(self.membership.to_set()).len()
    }

    /// Whether `ids` names at least a quorum of distinct members.
    pub open spec fn covers_quorum(self, ids: Seq<NodeId>) -> bool {
        self.support(ids) >= self.quorum_size()
    }
}

/// Why a cluster configuration was refused.
#[derive(Clone, Copy, Debug, PartialEq, Eq, Structural)]
pub enum ViewError {
    /// Fewer than `3f + 1` replicas.
    TooFewReplicas,
    /// A replica is listed twice.
    DuplicateMember,
}

/// The configuration error of a candidate view, if it has one.  The checks
/// are made in the order of the variants of [`ViewError`].
pub open spec fn config_error(s: ViewSpec) -> Option<ViewError> {
    if s.n() < 3 * s.f + 1 {
        Some(ViewError::TooFewReplicas)
    } else if !s.membership.no_duplicates() {
        Some(ViewError::DuplicateMember)
    } else {
        None
    }
}

/// Immutable snapshot of the cluster membership and the current view number.
#[derive(Debug, PartialEq, Eq)]
pub struct ViewInfo {
    view_number: u64,
    f: usize,
    membership: Vec<NodeId>,
}

impl View for ViewInfo {
    type V = ViewSpec;

    closed spec fn view(&self) -> ViewSpec {
        ViewSpec { view_number: self.view_number, f: self.f as nat, membership: self.membership@ }
    }
}

/// Whether some identifier occurs twice in `ids`.
fn has_duplicates(ids: &Vec<NodeId>) -> (r: bool)
    ensures
        r == !ids@.no_duplicates(),
{
    let mut i: usize = 0;
    while i < ids.len()
        invariant
            i <= ids.len(),
            forall|a: int, b: int| 0 <= a < i && 0 <= b < ids.len() && a != b ==> ids@[a] != ids@[b],
        decreases ids.len() - i,
    {
        let mut j: usize = 0;
        while j < ids.len()
            invariant
                i < ids.len(),
                j <= ids.len(),
                forall|b: int| 0 <= b < j && i != b ==> ids@[i as int] != ids@[b],
            decreases ids.len() - j,
        {
            if j != i && ids[j] == ids[i] {
                return true;
            }
            j += 1;
        }
        i += 1;
    }
    false
}

/// Position of `id` in `ids`, if it occurs there.
pub fn position(ids: &Vec<NodeId>, id: NodeId) -> (r: Option<usize>)
    ensures
        match r {
            Some(i) => i < ids.len() && ids@[i as int] == id && !ids@.take(i as int).contains(id),
            None => !ids@.contains(id),
        },
{
    let mut i: usize = 0;
    while i < ids.len()
        invariant
            i <= ids.len(),
            !ids@.take(i as int).contains(id),
        decreases ids.len() - i,
    {
        if ids[i] == id {
            return Some(i);
        }
        assert(ids@.take(i + 1) =~= ids@.take(i as int).push(ids@[i as int]));
        i += 1;
    }
    assert(ids@.take(ids.len() as int) =~= ids@);
    None
}

/// Whether the identifier at position `at` already occurs before it.
fn seen_before(ids: &Vec<NodeId>, at: usize) -> (r: bool)
    requires
        at < ids.len(),
    ensures
        r == ids@.take(at as int).contains(ids@[at as int]),
{
    let mut j: usize = 0;
    while j < at
        invariant
            j <= at < ids.len(),
            !ids@.take(j as int).contains(ids@[at as int]),
        decreases at - j,
    {
        if ids[j] == ids[at] {
            assert(ids@.take(at as int)[j as int] == ids@[at as int]);
            return true;
        }
        assert(ids@.take(j + 1) =~= ids@.take(j as int).push(ids@[j as int]));
        j += 1;
    }
    false
}

/// One more identifier adds one to the support exactly when it is a member
/// that was not named before.
pub proof fn lemma_support_step(v: ViewSpec, ids: Seq<NodeId>, id: NodeId)
    ensures
        v.support(ids.push(id)) == v.support(ids) + if v.is_member(id) && !ids.contains(id) {
            1nat
        } else {
            0nat
        },
        v.support(Seq::<NodeId>::empty()) == 0,
{
    broadcast use vstd::seq_lib::group_seq_properties;
    let members = v.membership.to_set();
    let before = ids.to_set().intersect(members);
    let after = ids.push(id).to_set().intersect(members);
    assert(ids.push(id).to_set() =~= ids.to_set().insert(id));
    assert(Seq::<NodeId>::empty().to_set().intersect(members) =~= Set::<NodeId>::empty());
    if v.is_member(id) && !ids.contains(id) {
        assert(after =~= before.insert(id));
        assert(!before.contains(id));
    } else {
        assert(after =~= before);
    }
}

impl ViewInfo {
    /// Every `ViewInfo` that exists at run time is a valid view.
    #[verifier::type_invariant]
    pub open spec fn inv(self) -> bool {
        self@.valid()
    }

    /// Builds the view `view_number` of the cluster `membership` that
    /// tolerates `f` faulty replicas, or says why the configuration is
    /// refused.
    pub fn new(view_number: u64, f: usize, membership: Vec<NodeId>) -> (r: Result<ViewInfo, ViewError>)
        ensures
            match config_error(ViewSpec { view_number, f: f as nat, membership: membership@ }) {
                Some(e) => r == Err::<ViewInfo, ViewError>(e),
                None => r is Ok && r->Ok_0@ == (ViewSpec {
                    view_number,
                    f: f as nat,
                    membership: membership@,
                }),
            },
    {
        let n = membership.len();
        if n == 0 || f > (n - 1) / 3 {
            return Err(ViewError::TooFewReplicas);
        }
        if has_duplicates(&membership) {
            return Err(ViewError::DuplicateMember);
        }
        Ok(ViewInfo { view_number, f, membership })
    }

    pub fn view_number(&self) -> (r: u64)
        ensures
            r == self@.view_number,
    {
        self.view_number
    }

    /// Total replica count.
    pub fn n(&self) -> (r: usize)
        ensures
            r == self@.n(),
    {
        self.membership.len()
    }

    /// Maximum number of faulty replicas tolerated.
    pub fn f(&self) -> (r: usize)
        ensures
            r == self@.f,
    {
        self.f
    }

    pub fn quorum_size(&self) -> (r: usize)
        ensures
            r == self@.quorum_size(),
            r == self@.n() - self@.f,
    {
        proof {
            use_type_invariant(self);
        }
        self.membership.len() - self.f
    }

    pub fn small_quorum(&self) -> (r: usize)
        ensures
            r == self@.small_quorum(),
            r == self@.f + 1,
    {
        proof {
            use_type_invariant(self);
        }
        let _n = self.membership.len();
        self.f + 1
    }

    pub fn leader(&self) -> (r: NodeId)
        ensures
            r == self@.leader(),
            self@.is_member(r),
    {
        proof {
            use_type_invariant(self);
        }
        let n = self.membership.len();
        let at = (self.view_number % (n as u64)) as usize;
        self.membership[at]
    }

    pub fn is_leader(&self, id: NodeId) -> (r: bool)
        ensures
            r == (id == self@.leader()),
    {
        id == self.leader()
    }

    pub fn is_member(&self, id: NodeId) -> (r: bool)
        ensures
            r == self@.is_member(id),
    {
        position(&self.membership, id).is_some()
    }

    /// Whether `ids` names at least a quorum of distinct members of this
    /// view.  Identifiers that occur twice count once, and identifiers of
    /// strangers do not count.
    pub fn covers_quorum(&self, ids: &Vec<NodeId>) -> (r: bool)
        ensures
            r == self@.covers_quorum(ids@),
    {
        let mut count: usize = 0;
        let mut i: usize = 0;
        proof {
            lemma_support_step(self@, Seq::empty(), 0);
            assert(ids@.take(0) =~= Seq::<NodeId>::empty());
        }
        while i < ids.len()
            invariant
                i <= ids.len(),
                count <= i,
                count == self@.support(ids@.take(i as int)),
            decreases ids.len() - i,
        {
            let id = ids[i];
            let fresh = self.is_member(id) && !seen_before(ids, i);
            proof {
                lemma_support_step(self@, ids@.take(i as int), id);
                assert(ids@.take(i + 1) =~= ids@.take(i as int).push(id));
            }
            if fresh {
                count += 1;
            }
            i += 1;
        }
        assert(ids@.take(ids.len() as int) =~= ids@);
        count >= self.quorum_size()
    }

    /// The replicas of the cluster, in order.
    pub fn membership(&self) -> (r: &Vec<NodeId>)
        ensures
            r@ == self@.membership,
    {
        &self.membership
    }

    /// The same view, held independently.
    pub fn duplicate(&self) -> (r: ViewInfo)
        ensures
            r@ == self@,
    {
        proof {
            use_type_invariant(self);
        }
        let membership = self.membership.clone();
        assert(membership@ =~= self.membership@);
        ViewInfo { view_number: self.view_number, f: self.f, membership }
    }

    /// The view number that a view change from this view aims at, if the
    /// view numbers are not exhausted.
    pub fn target(&self) -> (r: Option<u64>)
        ensures
            r == self@.next_number(),
    {
        self.view_number.checked_add(1)
    }

    /// The same cluster under the view number `view_number`.
    pub fn at(&self, view_number: u64) -> (r: ViewInfo)
        ensures
            r@ == self@.at(view_number),
    {
        proof {
            use_type_invariant(self);
        }
        let membership = self.membership.clone();
        assert(membership@ =~= self.membership@);
        ViewInfo { view_number, f: self.f, membership }
    }

    /// The leader that this cluster elects for the view `view_number`.
    pub fn leader_at(&self, view_number: u64) -> (r: NodeId)
        ensures
            r == self@.at(view_number).leader(),
            self@.is_member(r),
    {
        proof {
            use_type_invariant(self);
        }
        let n = self.membership.len();
        let at = (view_number % (n as u64)) as usize;
        self.membership[at]
    }

    /// The leader of the view that a view change from this one installs,
    /// if the view numbers are not exhausted.
    pub fn next_leader(&self) -> (r: Option<NodeId>)
        ensures
            match r {
                Some(id) => self@.has_successor() && id == self@.next_leader() && self@.is_member(id),
                None => !self@.has_successor(),
            },
    {
        proof {
            use_type_invariant(self);
        }
        if self.view_number == u64::MAX {
            return None;
        }
        let n = self.membership.len();
        let at = ((self.view_number + 1) % (n as u64)) as usize;
        Some(self.membership[at])
    }

    /// The view that a view change from this one installs, if the view
    /// numbers are not exhausted.
    pub fn successor(&self) -> (r: Option<ViewInfo>)
        ensures
            match r {
                Some(v) => self@.has_successor() && v@ == self@.successor(),
                None => !self@.has_successor(),
            },
    {
        proof {
            use_type_invariant(self);
        }
        if self.view_number == u64::MAX {
            return None;
        }
        let membership = self.membership.clone();
        assert(membership@ =~= self.membership@);
        Some(ViewInfo { view_number: self.view_number + 1, f: self.f, membership })
    }
}

/// Leader election is a function of the membership and the view number
/// alone: two views built independently from the same cluster and the same
/// view number elect the same leader, whatever else they were built with.
pub proof fn lemma_leader_deterministic(a: ViewSpec, b: ViewSpec)
    requires
        a.membership == b.membership,
        a.view_number == b.view_number,
    ensures
        a.leader() == b.leader(),
{
}

/// The leader of a valid view is one of its members, and so is the leader
/// of the view that follows it, who is the leader that the following view
/// elects for itself.
pub proof fn lemma_leader_is_member(v: ViewSpec)
    requires
        v.valid(),
    ensures
        v.is_member(v.leader()),
        v.is_member(v.next_leader()),
        v.has_successor() ==> v.successor().leader() == v.next_leader(),
        v.has_successor() ==> v.successor().valid(),
{
    let at = (v.view_number as int) % (v.n() as int);
    assert(v.membership[at] == v.leader());
    let next = v.target() % (v.n() as int);
    assert(v.membership[next] == v.next_leader());
}

/// In a valid view a quorum is larger than a small quorum, and both fit in
/// the cluster.
pub proof fn lemma_quorum_bounds(v: ViewSpec)
    requires
        v.valid(),
    ensures
        1 <= v.small_quorum() <= v.quorum_size() <= v.n(),
        v.f >= 1 ==> v.small_quorum() < v.quorum_size(),
        2 * v.quorum_size() > v.n() + v.f,
{
}

/// Any two quorums of a valid view have more than `f` members in common:
/// at least one replica of every pair of quorums is correct.
pub proof fn lemma_quorums_intersect(v: ViewSpec, a: Set<NodeId>, b: Set<NodeId>)
    requires
        v.valid(),
        a.subset_of(v.membership.to_set()),
        b.subset_of(v.membership.to_set()),
        a.len() >= v.quorum_size(),
        b.len() >= v.quorum_size(),
    ensures
        a.intersect(b).len() >= v.small_quorum(),
{
    let members = v.membership.to_set();
    vstd::seq_lib::seq_to_set_is_finite(v.membership);
    v.membership.unique_seq_to_set();
    vstd::set_lib::lemma_len_subset(a, members);
    vstd::set_lib::lemma_len_subset(b, members);
    vstd::set_lib::lemma_set_intersect_union_lens(a, b);
    vstd::set_lib::lemma_len_subset(a.union(b), members);
}

} // verus!
