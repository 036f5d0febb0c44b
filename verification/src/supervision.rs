//! The supervision directory and the request workflow that populates it.
//!
//! Requests are appended in creation order and never deleted: the entry
//! latest in the log among the pending matches of a pair is the most
//! recently created one, and it is the one `accept` and `reject` act on.
//! Relations are unique per ordered (supervisor, target) pair; they are
//! created only by accepting a request and removed explicitly.

use vstd::prelude::*;
use crate::errors::AppError;
use crate::idgen::fresh_uuid;
use crate::clock::now_utc_seconds;
use crate::models::SupervisionRelation;
use crate::models::SupervisionRequest;
use crate::models::SupervisionStatus;

verus! {

/// The request is a pending proposal of exactly this pair.
pub open spec fn is_pending_match(req: SupervisionRequest, sup: u128, tgt: u128) -> bool {
    req.supervisor_id == sup && req.target_id == tgt && req.status is Pending
}

/// Some pending request proposes exactly this pair.
pub open spec fn has_pending(reqs: Seq<SupervisionRequest>, sup: u128, tgt: u128) -> bool {
    exists|i: int| 0 <= i < reqs.len() && is_pending_match(#[trigger] reqs[i], sup, tgt)
}

/// The index of the most recently created pending request of the pair: the
/// last matching entry of the log, or -1 when none matches.
pub open spec fn latest_pending_idx(reqs: Seq<SupervisionRequest>, sup: u128, tgt: u128) -> int
    decreases reqs.len(),
{
    if reqs.len() == 0 {
        -1
    } else if is_pending_match(reqs.last(), sup, tgt) {
        reqs.len() - 1
    } else {
        latest_pending_idx(reqs.drop_last(), sup, tgt)
    }
}

/// `latest_pending_idx` is the greatest index of a pending match, and it is
/// nonnegative exactly when one exists.
pub proof fn lemma_latest_pending_idx(reqs: Seq<SupervisionRequest>, sup: u128, tgt: u128)
    ensures
        -1 <= latest_pending_idx(reqs, sup, tgt) < reqs.len(),
        has_pending(reqs, sup, tgt) <==> 0 <= latest_pending_idx(reqs, sup, tgt),
        0 <= latest_pending_idx(reqs, sup, tgt) ==> is_pending_match(
            reqs[latest_pending_idx(reqs, sup, tgt)],
            sup,
            tgt,
        ) && forall|j: int|
            latest_pending_idx(reqs, sup, tgt) < j < reqs.len() ==> !is_pending_match(
                #[trigger] reqs[j],
                sup,
                tgt,
            ),
    decreases reqs.len(),
{
    if reqs.len() == 0 {
    } else if is_pending_match(reqs.last(), sup, tgt) {
        assert(is_pending_match(reqs[reqs.len() - 1], sup, tgt));
    } else {
        let d = reqs.drop_last();
        lemma_latest_pending_idx(d, sup, tgt);
        if has_pending(reqs, sup, tgt) {
            let i = choose|i: int| 0 <= i < reqs.len() && is_pending_match(reqs[i], sup, tgt);
            assert(i != reqs.len() - 1);
            assert(is_pending_match(d[i], sup, tgt));
        }
        if has_pending(d, sup, tgt) {
            let i = choose|i: int| 0 <= i < d.len() && is_pending_match(d[i], sup, tgt);
            assert(is_pending_match(reqs[i], sup, tgt));
        }
        assert forall|j: int|
            latest_pending_idx(reqs, sup, tgt) < j < reqs.len() implies !is_pending_match(
            #[trigger] reqs[j],
            sup,
            tgt,
        ) by {
            if j == reqs.len() - 1 {
                assert(reqs[j] == reqs.last());
            } else {
                assert(0 <= j < d.len());
                assert(reqs[j] == d[j]);
                if latest_pending_idx(d, sup, tgt) < 0 {
                    if is_pending_match(d[j], sup, tgt) {
                        assert(has_pending(d, sup, tgt));
                    }
                }
            }
        }
    }
}

/// A relation of exactly this (supervisor, target) pair exists.
pub open spec fn has_relation(rels: Seq<SupervisionRelation>, sup: u128, tgt: u128) -> bool {
    exists|i: int|
        0 <= i < rels.len() && (#[trigger] rels[i]).supervisor_id == sup && rels[i].target_id
            == tgt
}

/// Some relation row carries this id.
pub open spec fn relation_id_used(rels: Seq<SupervisionRelation>, id: u128) -> bool {
    exists|i: int| 0 <= i < rels.len() && (#[trigger] rels[i]).relation_id == id
}

/// Some request row carries this id.
pub open spec fn request_id_used(reqs: Seq<SupervisionRequest>, id: u128) -> bool {
    exists|i: int| 0 <= i < reqs.len() && (#[trigger] reqs[i]).request_id == id
}

/// The pending requests targeting `tgt`, most recently created first.
pub open spec fn spec_pending_for(reqs: Seq<SupervisionRequest>, tgt: u128) -> Seq<
    SupervisionRequest,
>
    decreases reqs.len(),
{
    if reqs.len() == 0 {
        Seq::empty()
    } else {
        let rest = spec_pending_for(reqs.drop_last(), tgt);
        if reqs.last().target_id == tgt && reqs.last().status is Pending {
            seq![reqs.last()] + rest
        } else {
            rest
        }
    }
}

/// The request marked accepted, all else unchanged.
pub open spec fn spec_accepted(req: SupervisionRequest) -> SupervisionRequest {
    SupervisionRequest { status: SupervisionStatus::Accepted, ..req }
}

/// The request marked rejected, all else unchanged.
pub open spec fn spec_rejected(req: SupervisionRequest) -> SupervisionRequest {
    SupervisionRequest { status: SupervisionStatus::Rejected, ..req }
}

/// The relation row that accepting a request of the pair inserts. Stored
/// rows carry no device names; those are an enrichment added on listing.
pub open spec fn spec_new_relation(
    relation_id: u128,
    supervisor_id: u128,
    target_id: u128,
    now: u64,
) -> SupervisionRelation {
    SupervisionRelation {
        relation_id,
        supervisor_id,
        target_id,
        supervisor_name: None,
        target_name: None,
        created_at: Some(now),
    }
}

/// Accepting consumes the pending request it acts on: when exactly one
/// pending request matches the pair, the store after a successful accept
/// holds no pending match any more. Once the created relation is removed
/// again, a further accept of the pair therefore fails with `NotFound`,
/// there being no remaining pending request.
pub proof fn lemma_accept_consumes_only_pending(
    reqs: Seq<SupervisionRequest>,
    sup: u128,
    tgt: u128,
)
    requires
        has_pending(reqs, sup, tgt),
        forall|i: int, j: int|
            0 <= i < reqs.len() && 0 <= j < reqs.len() && is_pending_match(
                #[trigger] reqs[i],
                sup,
                tgt,
            ) && is_pending_match(#[trigger] reqs[j], sup, tgt) ==> i == j,
    ensures
        !has_pending(
            reqs.update(
                latest_pending_idx(reqs, sup, tgt),
                spec_accepted(reqs[latest_pending_idx(reqs, sup, tgt)]),
            ),
            sup,
            tgt,
        ),
{
    lemma_latest_pending_idx(reqs, sup, tgt);
    let m = latest_pending_idx(reqs, sup, tgt);
    let r2 = reqs.update(m, spec_accepted(reqs[m]));
    if has_pending(r2, sup, tgt) {
        let i = choose|i: int| 0 <= i < r2.len() && is_pending_match(r2[i], sup, tgt);
        assert(i != m);
        assert(r2[i] == reqs[i]);
    }
}

/// The store of supervision requests and relations.
pub struct SupervisionStore {
    pub requests: Vec<SupervisionRequest>,
    pub relations: Vec<SupervisionRelation>,
}

impl SupervisionStore {
    /// The store invariant: unique request ids, unique relation ids, and at
    /// most one relation per ordered (supervisor, target) pair.
    pub open spec fn well_formed(&self) -> bool {
        &&& forall|i: int, j: int|
            #![trigger self.requests@[i].request_id, self.requests@[j].request_id]
            0 <= i < self.requests@.len() && 0 <= j < self.requests@.len() && i != j
                ==> self.requests@[i].request_id != self.requests@[j].request_id
        &&& forall|i: int, j: int|
            #![trigger self.relations@[i].relation_id, self.relations@[j].relation_id]
            0 <= i < self.relations@.len() && 0 <= j < self.relations@.len() && i != j
                ==> self.relations@[i].relation_id != self.relations@[j].relation_id
        &&& forall|i: int, j: int|
            #![trigger self.relations@[i].supervisor_id, self.relations@[j].supervisor_id]
            0 <= i < self.relations@.len() && 0 <= j < self.relations@.len() && i != j
                && self.relations@[i].supervisor_id == self.relations@[j].supervisor_id
                ==> self.relations@[i].target_id != self.relations@[j].target_id
    }

    /// Creates an empty store.
    pub fn new() -> (r: Self)
        ensures
            r.well_formed(),
            r.requests@ == Seq::<SupervisionRequest>::empty(),
            r.relations@ == Seq::<SupervisionRelation>::empty(),
    {
        SupervisionStore { requests: Vec::new(), relations: Vec::new() }
    }

    /// Answers whether `supervisor_id` is a registered supervisor of
    /// `target_id`: the directory query the stream filter runs per event.
    #[verifier::loop_isolation(false)]
    pub fn is_supervisor_of(&self, supervisor_id: u128, target_id: u128) -> (r: bool)
        ensures
            r == has_relation(self.relations@, supervisor_id, target_id),
    {
        let n = self.relations.len();
        let mut i: usize = 0;
        while i < n
            invariant
                0 <= i <= n,
                forall|k: int|
                    0 <= k < i ==> !((#[trigger] self.relations@[k]).supervisor_id == supervisor_id
                        && self.relations@[k].target_id == target_id),
            decreases n - i,
        {
            if self.relations[i].supervisor_id == supervisor_id && self.relations[i].target_id
                == target_id {
                return true;
            }
            i += 1;
        }
        false
    }

    /// Tests whether a request row already carries `id`.
    #[verifier::loop_isolation(false)]
    fn request_id_in_use(&self, id: u128) -> (r: bool)
        ensures
            r == request_id_used(self.requests@, id),
    {
        let n = self.requests.len();
        let mut i: usize = 0;
        while i < n
            invariant
                0 <= i <= n,
                forall|k: int| 0 <= k < i ==> (#[trigger] self.requests@[k]).request_id != id,
            decreases n - i,
        {
            if self.requests[i].request_id == id {
                return true;
            }
            i += 1;
        }
        false
    }

    /// Tests whether a relation row already carries `id`.
    #[verifier::loop_isolation(false)]
    fn relation_id_in_use(&self, id: u128) -> (r: bool)
        ensures
            r == relation_id_used(self.relations@, id),
    {
        let n = self.relations.len();
        let mut i: usize = 0;
        while i < n
            invariant
                0 <= i <= n,
                forall|k: int| 0 <= k < i ==> (#[trigger] self.relations@[k]).relation_id != id,
            decreases n - i,
        {
            if self.relations[i].relation_id == id {
                return true;
            }
            i += 1;
        }
        false
    }

    /// Finds the most recently created pending request of the pair.
    #[verifier::loop_isolation(false)]
    fn find_latest_pending(&self, sup: u128, tgt: u128) -> (r: Option<usize>)
        ensures
            r is Some <==> has_pending(self.requests@, sup, tgt),
            (r matches Some(i) ==> i == latest_pending_idx(self.requests@, sup, tgt)),
    {
        let n = self.requests.len();
        let mut j: usize = n;
        while j > 0
            invariant
                0 <= j <= n,
                forall|k: int|
                    j <= k < n ==> !is_pending_match(#[trigger] self.requests@[k], sup, tgt),
            decreases j,
        {
            j -= 1;
            let req = &self.requests[j];
            if req.supervisor_id == sup && req.target_id == tgt && req.status
                == SupervisionStatus::Pending {
                proof {
                    lemma_latest_pending_idx(self.requests@, sup, tgt);
                    let m = latest_pending_idx(self.requests@, sup, tgt);
                    assert(is_pending_match(self.requests@[j as int], sup, tgt));
                    assert(m == j as int);
                }
                return Some(j);
            }
        }
        proof {
            assert(!has_pending(self.requests@, sup, tgt)) by {
                if has_pending(self.requests@, sup, tgt) {
                    let i = choose|i: int|
                        0 <= i < self.requests@.len() && is_pending_match(
                            self.requests@[i],
                            sup,
                            tgt,
                        );
                }
            }
        }
        None
    }

    /// Inserts a new pending request of the pair under the given fresh id
    /// and creation time, and returns the inserted row.
    pub fn create_request_with_id(
        &mut self,
        supervisor_id: u128,
        target_id: u128,
        request_id: u128,
        now: u64,
    ) -> (req: SupervisionRequest)
        requires
            old(self).well_formed(),
            !request_id_used(old(self).requests@, request_id),
        ensures
            final(self).well_formed(),
            req == (SupervisionRequest {
                request_id,
                supervisor_id,
                target_id,
                status: SupervisionStatus::Pending,
                created_at: now,
            }),
            final(self).requests@ == old(self).requests@.push(req),
            final(self).relations@ == old(self).relations@,
    {
        let req = SupervisionRequest {
            request_id,
            supervisor_id,
            target_id,
            status: SupervisionStatus::Pending,
            created_at: now,
        };
        self.requests.push(req);
        proof {
            let s0 = old(self).requests@;
            let s1 = self.requests@;
            assert forall|i: int, j: int|
                #![trigger s1[i].request_id, s1[j].request_id]
                0 <= i < s1.len() && 0 <= j < s1.len() && i != j implies s1[i].request_id
                != s1[j].request_id by {
                if i == s0.len() || j == s0.len() {
                    let k = if i == s0.len() { j } else { i };
                    assert(0 <= k < s0.len() && s1[k] == s0[k]);
                }
            }
        }
        req
    }

    /// Creates a pending supervision request of the pair, stamped with the
    /// current time and a freshly drawn id. The id is random, so in the
    /// (practically unreachable) case that it collides with an existing row
    /// the store is left unchanged and an internal error is returned.
    pub fn create_request(&mut self, supervisor_id: u128, target_id: u128) -> (r: Result<
        SupervisionRequest,
        AppError,
    >)
        requires
            old(self).well_formed(),
        ensures
            final(self).well_formed(),
            (r matches Ok(req) ==> {
                &&& req.supervisor_id == supervisor_id
                &&& req.target_id == target_id
                &&& req.status is Pending
                &&& !request_id_used(old(self).requests@, req.request_id)
                &&& final(self).requests@ == old(self).requests@.push(req)
                &&& final(self).relations@ == old(self).relations@
            }),
            (r matches Err(e) ==> e is Internal && *final(self) == *old(self) && old(
                self,
            ).requests@.len() > 0),
    {
        let request_id = fresh_uuid();
        let now = now_utc_seconds();
        if self.request_id_in_use(request_id) {
            return Err(AppError::Internal("Could not allocate a fresh request id".to_string()));
        }
        Ok(self.create_request_with_id(supervisor_id, target_id, request_id, now))
    }

    /// Lists the pending requests targeting `target_id`, most recently
    /// created first.
    #[verifier::loop_isolation(false)]
    pub fn pending_requests(&self, target_id: u128) -> (r: Vec<SupervisionRequest>)
        ensures
            r@ == spec_pending_for(self.requests@, target_id),
    {
        let s = &self.requests;
        let n = s.len();
        let mut out: Vec<SupervisionRequest> = Vec::new();
        let mut j: usize = n;
        proof {
            assert(s@.subrange(0, n as int) =~= s@);
        }
        while j > 0
            invariant
                0 <= j <= n,
                out@ + spec_pending_for(s@.subrange(0, j as int), target_id) == spec_pending_for(
                    s@,
                    target_id,
                ),
            decreases j,
        {
            j -= 1;
            let ghost pre = s@.subrange(0, j as int + 1);
            proof {
                assert(pre.drop_last() =~= s@.subrange(0, j as int));
                assert(pre.last() == s@[j as int]);
            }
            let req = s[j];
            if req.target_id == target_id && req.status == SupervisionStatus::Pending {
                let ghost out_old = out@;
                out.push(req);
                proof {
                    assert(out@ =~= out_old + seq![pre.last()]);
                    assert(spec_pending_for(pre, target_id) == seq![pre.last()]
                        + spec_pending_for(pre.drop_last(), target_id));
                    assert((out_old + seq![pre.last()]) + spec_pending_for(
                        pre.drop_last(),
                        target_id,
                    ) =~= out_old + (seq![pre.last()] + spec_pending_for(
                        pre.drop_last(),
                        target_id,
                    )));
                }
            }
        }
        proof {
            assert(s@.subrange(0, 0) =~= Seq::<SupervisionRequest>::empty());
            assert(out@ + Seq::<SupervisionRequest>::empty() =~= out@);
        }
        out
    }

    /// Accepts the most recently created pending request of the pair under
    /// the given fresh relation id: the request is marked accepted and the
    /// relation inserted, together or not at all. Fails with `BadRequest`
    /// when a relation of the pair already exists, and with `NotFound` when
    /// no pending request matches.
    pub fn accept_with_id(
        &mut self,
        supervisor_id: u128,
        target_id: u128,
        relation_id: u128,
        now: u64,
    ) -> (r: Result<(), AppError>)
        requires
            old(self).well_formed(),
            !relation_id_used(old(self).relations@, relation_id),
        ensures
            final(self).well_formed(),
            (has_relation(old(self).relations@, supervisor_id, target_id) ==> (r matches Err(e)
                && e is BadRequest && *final(self) == *old(self))),
            (!has_relation(old(self).relations@, supervisor_id, target_id) && !has_pending(
                old(self).requests@,
                supervisor_id,
                target_id,
            ) ==> (r matches Err(e) && e is NotFound && *final(self) == *old(self))),
            (!has_relation(old(self).relations@, supervisor_id, target_id) && has_pending(
                old(self).requests@,
                supervisor_id,
                target_id,
            ) ==> {
                &&& r is Ok
                &&& final(self).requests@ == old(self).requests@.update(
                    latest_pending_idx(old(self).requests@, supervisor_id, target_id),
                    spec_accepted(
                        old(self).requests@[latest_pending_idx(
                            old(self).requests@,
                            supervisor_id,
                            target_id,
                        )],
                    ),
                )
                &&& final(self).relations@ == old(self).relations@.push(
                    spec_new_relation(relation_id, supervisor_id, target_id, now),
                )
            }),
    {
        if self.is_supervisor_of(supervisor_id, target_id) {
            return Err(AppError::BadRequest("Supervision relation already exists".to_string()));
        }
        match self.find_latest_pending(supervisor_id, target_id) {
            None => Err(
                AppError::NotFound("Pending supervision request not found".to_string()),
            ),
            Some(i) => {
                proof {
                    lemma_latest_pending_idx(old(self).requests@, supervisor_id, target_id);
                }
                let req = &mut self.requests[i];
                req.status = SupervisionStatus::Accepted;
                self.relations.push(
                    SupervisionRelation {
                        relation_id,
                        supervisor_id,
                        target_id,
                        supervisor_name: None,
                        target_name: None,
                        created_at: Some(now),
                    },
                );
                proof {
                    let q0 = old(self).requests@;
                    let q1 = self.requests@;
                    assert forall|a: int, b: int|
                        #![trigger q1[a].request_id, q1[b].request_id]
                        0 <= a < q1.len() && 0 <= b < q1.len() && a != b implies q1[a].request_id
                        != q1[b].request_id by {
                        assert(q1[a].request_id == q0[a].request_id);
                        assert(q1[b].request_id == q0[b].request_id);
                    }
                    let r0 = old(self).relations@;
                    let r1 = self.relations@;
                    assert forall|a: int, b: int|
                        #![trigger r1[a].relation_id, r1[b].relation_id]
                        0 <= a < r1.len() && 0 <= b < r1.len() && a != b implies r1[a].relation_id
                        != r1[b].relation_id by {
                        if a == r0.len() || b == r0.len() {
                            let k = if a == r0.len() { b } else { a };
                            assert(0 <= k < r0.len() && r1[k] == r0[k]);
                        }
                    }
                    assert forall|a: int, b: int|
                        #![trigger r1[a].supervisor_id, r1[b].supervisor_id]
                        0 <= a < r1.len() && 0 <= b < r1.len() && a != b && r1[a].supervisor_id
                            == r1[b].supervisor_id implies r1[a].target_id != r1[b].target_id by {
                        if a == r0.len() || b == r0.len() {
                            let k = if a == r0.len() { b } else { a };
                            assert(0 <= k < r0.len() && r1[k] == r0[k]);
                        }
                    }
                }
                Ok(())
            },
        }
    }

    /// Accepts the most recently created pending request of the pair,
    /// drawing a fresh relation id and stamping the current time. Beyond
    /// `accept_with_id`'s outcomes, a random id collision leaves the store
    /// unchanged and returns an internal error.
    pub fn accept(&mut self, supervisor_id: u128, target_id: u128) -> (r: Result<(), AppError>)
        requires
            old(self).well_formed(),
        ensures
            final(self).well_formed(),
            (has_relation(old(self).relations@, supervisor_id, target_id) ==> (r matches Err(e)
                && e is BadRequest && *final(self) == *old(self))),
            (!has_relation(old(self).relations@, supervisor_id, target_id) && !has_pending(
                old(self).requests@,
                supervisor_id,
                target_id,
            ) ==> (r matches Err(e) && e is NotFound && *final(self) == *old(self))),
            (!has_relation(old(self).relations@, supervisor_id, target_id) && has_pending(
                old(self).requests@,
                supervisor_id,
                target_id,
            ) ==> match r {
                Ok(_) => {
                    &&& final(self).requests@ == old(self).requests@.update(
                        latest_pending_idx(old(self).requests@, supervisor_id, target_id),
                        spec_accepted(
                            old(self).requests@[latest_pending_idx(
                                old(self).requests@,
                                supervisor_id,
                                target_id,
                            )],
                        ),
                    )
                    &&& final(self).relations@.len() == old(self).relations@.len() + 1
                    &&& final(self).relations@.subrange(0, old(self).relations@.len() as int)
                        == old(self).relations@
                    &&& final(self).relations@.last().supervisor_id == supervisor_id
                    &&& final(self).relations@.last().target_id == target_id
                    &&& !relation_id_used(
                        old(self).relations@,
                        final(self).relations@.last().relation_id,
                    )
                },
                Err(e) => e is Internal && *final(self) == *old(self) && old(
                    self,
                ).relations@.len() > 0,
            }),
    {
        let relation_id = fresh_uuid();
        let now = now_utc_seconds();
        if self.relation_id_in_use(relation_id) {
            if self.is_supervisor_of(supervisor_id, target_id) {
                return Err(
                    AppError::BadRequest("Supervision relation already exists".to_string()),
                );
            }
            if self.find_latest_pending(supervisor_id, target_id).is_none() {
                return Err(
                    AppError::NotFound("Pending supervision request not found".to_string()),
                );
            }
            return Err(AppError::Internal("Could not allocate a fresh relation id".to_string()));
        }
        let r = self.accept_with_id(supervisor_id, target_id, relation_id, now);
        proof {
            if !has_relation(old(self).relations@, supervisor_id, target_id) && has_pending(
                old(self).requests@,
                supervisor_id,
                target_id,
            ) {
                assert(self.relations@.subrange(0, old(self).relations@.len() as int) =~= old(
                    self,
                ).relations@);
            }
        }
        r
    }

    /// Rejects the most recently created pending request of the pair; fails
    /// with `NotFound` when no pending request matches. Relations are
    /// untouched.
    pub fn reject(&mut self, supervisor_id: u128, target_id: u128) -> (r: Result<(), AppError>)
        requires
            old(self).well_formed(),
        ensures
            final(self).well_formed(),
            (!has_pending(old(self).requests@, supervisor_id, target_id) ==> (r matches Err(e)
                && e is NotFound && *final(self) == *old(self))),
            (has_pending(old(self).requests@, supervisor_id, target_id) ==> {
                &&& r is Ok
                &&& final(self).requests@ == old(self).requests@.update(
                    latest_pending_idx(old(self).requests@, supervisor_id, target_id),
                    spec_rejected(
                        old(self).requests@[latest_pending_idx(
                            old(self).requests@,
                            supervisor_id,
                            target_id,
                        )],
                    ),
                )
                &&& final(self).relations@ == old(self).relations@
            }),
    {
        match self.find_latest_pending(supervisor_id, target_id) {
            None => Err(
                AppError::NotFound("Pending supervision request not found".to_string()),
            ),
            Some(i) => {
                proof {
                    lemma_latest_pending_idx(old(self).requests@, supervisor_id, target_id);
                }
                let req = &mut self.requests[i];
                req.status = SupervisionStatus::Rejected;
                proof {
                    let q0 = old(self).requests@;
                    let q1 = self.requests@;
                    assert forall|a: int, b: int|
                        #![trigger q1[a].request_id, q1[b].request_id]
                        0 <= a < q1.len() && 0 <= b < q1.len() && a != b implies q1[a].request_id
                        != q1[b].request_id by {
                        assert(q1[a].request_id == q0[a].request_id);
                        assert(q1[b].request_id == q0[b].request_id);
                    }
                }
                Ok(())
            },
        }
    }

    /// Deletes the relation with the given id. Absent ids are not an error:
    /// deletion is idempotent, and every other relation survives untouched.
    #[verifier::loop_isolation(false)]
    pub fn remove_supervision(&mut self, relation_id: u128)
        requires
            old(self).well_formed(),
        ensures
            final(self).well_formed(),
            final(self).requests@ == old(self).requests@,
            !relation_id_used(final(self).relations@, relation_id),
            (!relation_id_used(old(self).relations@, relation_id) ==> final(self).relations@
                == old(self).relations@),
            (relation_id_used(old(self).relations@, relation_id) ==> final(self).relations@
                == old(self).relations@.remove(
                choose|i: int|
                    0 <= i < old(self).relations@.len() && (#[trigger] old(
                        self,
                    ).relations@[i]).relation_id == relation_id,
            )),
    {
        let ghost s0 = self.relations@;
        let n = self.relations.len();
        let mut i: usize = 0;
        while i < n
            invariant
                0 <= i <= n,
                n == s0.len(),
                self.relations@ == s0,
                self.requests@ == old(self).requests@,
                forall|k: int| 0 <= k < i ==> (#[trigger] s0[k]).relation_id != relation_id,
            decreases n - i,
        {
            if self.relations[i].relation_id == relation_id {
                self.relations.remove(i);
                proof {
                    let s1 = self.relations@;
                    assert forall|k: int| 0 <= k < s1.len() implies (#[trigger] s1[k]) == (if k
                        < i { s0[k] } else { s0[k + 1] }) by {}
                    let w = choose|w: int|
                        0 <= w < s0.len() && (#[trigger] s0[w]).relation_id == relation_id;
                    assert(s0[w].relation_id == s0[i as int].relation_id);
                    assert(w == i as int);
                    assert forall|a: int, b: int|
                        #![trigger s1[a].relation_id, s1[b].relation_id]
                        0 <= a < s1.len() && 0 <= b < s1.len() && a != b implies s1[a].relation_id
                        != s1[b].relation_id by {
                        let a0: int = if a < i { a } else { a + 1 };
                        let b0: int = if b < i { b } else { b + 1 };
                        assert(s1[a] == s0[a0]);
                        assert(s1[b] == s0[b0]);
                    }
                    assert forall|a: int, b: int|
                        #![trigger s1[a].supervisor_id, s1[b].supervisor_id]
                        0 <= a < s1.len() && 0 <= b < s1.len() && a != b && s1[a].supervisor_id
                            == s1[b].supervisor_id implies s1[a].target_id != s1[b].target_id by {
                        let a0: int = if a < i { a } else { a + 1 };
                        let b0: int = if b < i { b } else { b + 1 };
                        assert(s1[a] == s0[a0]);
                        assert(s1[b] == s0[b0]);
                    }
                    assert forall|k: int| 0 <= k < s1.len() implies (#[trigger] s1[k]).relation_id
                        != relation_id by {
                        let k0: int = if k < i { k } else { k + 1 };
                        assert(s1[k] == s0[k0]);
                    }
                }
                return ;
            }
            i += 1;
        }
        proof {
            assert(self.relations@ =~= s0);
        }
    }
}

} // verus!
