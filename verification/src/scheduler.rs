//! The middleware dependency scheduler. Middleware declare, per phase,
//! cross-references to other middleware outputs by index; the scheduler
//! fixes each chain's execution order once, at build time:
//!
//! - request chain: sort key `sum(cross_refs)`, smaller keys run
//!   earlier, ties keep declaration order;
//! - response chain: sort key `MAX_U16 - declared_position -
//!   sum(cross_refs)`, again smaller keys earlier.
//!
//! A cross-reference at or beyond the referenced chain's length is a
//! build-time error, as is a request middleware that asks for a response
//! middleware's output, or an order under which a middleware would run
//! before an output it asks for has been written.

use vstd::prelude::*;

verus! {

/// Which chain a middleware belongs to.
#[derive(Clone, Copy, Debug, PartialEq, Eq, Structural)]
pub enum Phase {
    Request,
    Response,
}

/// A declared dependency on another middleware's output, by chain and
/// index.
#[derive(Clone, Copy, Debug, PartialEq, Eq, Structural)]
pub enum CrossRef {
    Request(u16),
    Response(u16),
}

/// One declared middleware: its phase, its position in the declaration
/// list of that phase, and the outputs it asks for.
pub struct MiddlewareSpec {
    pub phase: Phase,
    pub declared_position: u16,
    pub cross_refs: Vec<CrossRef>,
}

/// Mathematical image of a [`MiddlewareSpec`].
pub struct MwShape {
    pub phase: Phase,
    pub position: u16,
    pub refs: Seq<CrossRef>,
}

impl View for MiddlewareSpec {
    type V = MwShape;

    open spec fn view(&self) -> MwShape {
        MwShape { phase: self.phase, position: self.declared_position, refs: self.cross_refs@ }
    }
}

/// The shapes of a middleware list, in declaration order.
pub open spec fn specs_view(specs: Seq<MiddlewareSpec>) -> Seq<MwShape> {
    Seq::new(specs.len(), |i: int| specs[i]@)
}

/// The sub-list of one phase, declaration order kept.
pub open spec fn spec_chain(sv: Seq<MwShape>, ph: Phase) -> Seq<MwShape>
    decreases sv.len(),
{
    if sv.len() == 0 {
        Seq::empty()
    } else {
        spec_chain(sv.drop_last(), ph) + (if sv.last().phase == ph {
            seq![sv.last()]
        } else {
            Seq::<MwShape>::empty()
        })
    }
}

/// The index a cross-reference names, whichever chain it points into.
pub open spec fn spec_ref_index(r: CrossRef) -> int {
    match r {
        CrossRef::Request(i) => i as int,
        CrossRef::Response(i) => i as int,
    }
}

/// Sum of the indices a middleware's cross-references name.
pub open spec fn spec_ref_sum(refs: Seq<CrossRef>) -> int
    decreases refs.len(),
{
    if refs.len() == 0 {
        0
    } else {
        spec_ref_sum(refs.drop_last()) + spec_ref_index(refs.last())
    }
}

pub proof fn lemma_ref_sum_bounds(refs: Seq<CrossRef>)
    ensures
        0 <= spec_ref_sum(refs) <= refs.len() * 0xffff,
    decreases refs.len(),
{
    if refs.len() > 0 {
        let l = refs.len() as int;
        lemma_ref_sum_bounds(refs.drop_last());
        assert((l - 1) * 0xffff + 0xffff == l * 0xffff) by (nonlinear_arith);
    }
}

/// The sort key of the middleware at chain index `i`: the request chain
/// orders by the cross-reference sum alone, the response chain by
/// `MAX_U16 - declared_position - sum`.
pub open spec fn spec_chain_key(chain: Seq<MwShape>, i: int, is_req: bool) -> int {
    if is_req {
        spec_ref_sum(chain[i].refs)
    } else {
        0xffff - chain[i].position - spec_ref_sum(chain[i].refs)
    }
}

/// The strict order the sort uses: by key, ties by chain index, so the
/// sort is stable.
pub open spec fn spec_lex_before(chain: Seq<MwShape>, a: int, b: int, is_req: bool) -> bool {
    ||| spec_chain_key(chain, a, is_req) < spec_chain_key(chain, b, is_req)
    ||| (spec_chain_key(chain, a, is_req) == spec_chain_key(chain, b, is_req) && a < b)
}

/// Inserts chain index `x` into an already ordered list, before the
/// first entry it sorts ahead of.
pub open spec fn spec_insert(order: Seq<u16>, chain: Seq<MwShape>, x: u16, is_req: bool) -> Seq<
    u16,
>
    decreases order.len(),
{
    if order.len() == 0 {
        seq![x]
    } else if spec_lex_before(chain, x as int, order[0] as int, is_req) {
        seq![x] + order
    } else {
        seq![order[0]] + spec_insert(order.subrange(1, order.len() as int), chain, x, is_req)
    }
}

/// The order of the first `k` chain indices, built by inserting each in
/// declaration order.
pub open spec fn spec_order_upto(chain: Seq<MwShape>, k: int, is_req: bool) -> Seq<u16>
    decreases k,
{
    if k <= 0 {
        Seq::empty()
    } else {
        spec_insert(spec_order_upto(chain, k - 1, is_req), chain, (k - 1) as u16, is_req)
    }
}

/// The execution order of a whole chain.
pub open spec fn spec_chain_order(chain: Seq<MwShape>, is_req: bool) -> Seq<u16> {
    spec_order_upto(chain, chain.len() as int, is_req)
}

/// Whether an order already contains a chain index.
pub open spec fn order_contains(order: Seq<u16>, j: int) -> bool {
    exists|p: int| 0 <= p < order.len() && #[trigger] order[p] == j
}

/// Where the recursion of [`spec_insert`] places the new index: right
/// before the first entry it sorts ahead of.
proof fn lemma_insert_at(order: Seq<u16>, chain: Seq<MwShape>, x: u16, is_req: bool, pos: int)
    requires
        0 <= pos <= order.len(),
        forall|p: int|
            0 <= p < pos ==> !spec_lex_before(chain, x as int, #[trigger] order[p] as int, is_req),
        pos < order.len() ==> spec_lex_before(chain, x as int, order[pos] as int, is_req),
    ensures
        spec_insert(order, chain, x, is_req) == order.subrange(0, pos) + seq![x] + order.subrange(
            pos,
            order.len() as int,
        ),
    decreases order.len(),
{
    if order.len() == 0 {
        assert(spec_insert(order, chain, x, is_req) =~= order.subrange(0, pos) + seq![x]
            + order.subrange(pos, order.len() as int));
    } else if spec_lex_before(chain, x as int, order[0] as int, is_req) {
        assert(pos == 0);
        assert(spec_insert(order, chain, x, is_req) =~= order.subrange(0, pos) + seq![x]
            + order.subrange(pos, order.len() as int));
    } else {
        assert(pos >= 1);
        let tail = order.subrange(1, order.len() as int);
        lemma_insert_at(tail, chain, x, is_req, pos - 1);
        assert(tail.subrange(0, pos - 1) =~= order.subrange(1, pos));
        assert(tail.subrange(pos - 1, tail.len() as int) =~= order.subrange(
            pos,
            order.len() as int,
        ));
        assert(spec_insert(order, chain, x, is_req) =~= order.subrange(0, pos) + seq![x]
            + order.subrange(pos, order.len() as int));
    }
}

/// What one insertion does to the order's contents and layout, when the
/// new index is larger than everything already placed.
proof fn lemma_insert_props(order: Seq<u16>, chain: Seq<MwShape>, x: u16, is_req: bool)
    requires
        forall|p: int| 0 <= p < order.len() ==> #[trigger] order[p] < x,
        forall|p: int, q: int|
            0 <= p < q < order.len() ==> spec_lex_before(
                chain,
                #[trigger] order[p] as int,
                #[trigger] order[q] as int,
                is_req,
            ),
    ensures
        spec_insert(order, chain, x, is_req).len() == order.len() + 1,
        forall|p: int|
            0 <= p < order.len() + 1 ==> #[trigger] spec_insert(order, chain, x, is_req)[p] <= x,
        forall|j: int|
            #[trigger] order_contains(spec_insert(order, chain, x, is_req), j) <==> (j == x
                || order_contains(order, j)),
        forall|p: int, q: int|
            0 <= p < q < order.len() + 1 ==> spec_lex_before(
                chain,
                #[trigger] spec_insert(order, chain, x, is_req)[p] as int,
                #[trigger] spec_insert(order, chain, x, is_req)[q] as int,
                is_req,
            ),
    decreases order.len(),
{
    let out = spec_insert(order, chain, x, is_req);
    if order.len() == 0 {
        assert(out =~= seq![x]);
        assert(out[0] == x);
        assert forall|j: int|
            #[trigger] order_contains(out, j) <==> (j == x || order_contains(order, j)) by {
            if order_contains(out, j) {
                let p = choose|p: int| 0 <= p < out.len() && out[p] == j;
                assert(j == x);
            }
            if j == x {
                assert(out[0] == j);
                assert(order_contains(out, j));
            }
        }
    } else if spec_lex_before(chain, x as int, order[0] as int, is_req) {
        assert(out =~= seq![x] + order);
        assert(out[0] == x);
        assert(forall|p: int| 1 <= p < out.len() ==> #[trigger] out[p] == order[p - 1]);
        assert forall|p: int, q: int| 0 <= p < q < out.len() implies spec_lex_before(
            chain,
            #[trigger] out[p] as int,
            #[trigger] out[q] as int,
            is_req,
        ) by {
            if p == 0 {
                if q >= 2 {
                    assert(spec_lex_before(
                        chain,
                        order[0] as int,
                        order[q - 1] as int,
                        is_req,
                    ));
                }
            }
        }
        assert forall|j: int|
            #[trigger] order_contains(out, j) <==> (j == x || order_contains(order, j)) by {
            if order_contains(out, j) {
                let p = choose|p: int| 0 <= p < out.len() && out[p] == j;
                if p > 0 {
                    assert(order[p - 1] == j);
                    assert(order_contains(order, j));
                }
            }
            if j == x {
                assert(out[0] == j);
                assert(order_contains(out, j));
            } else if order_contains(order, j) {
                let q = choose|q: int| 0 <= q < order.len() && order[q] == j;
                assert(out[q + 1] == j);
                assert(order_contains(out, j));
            }
        }
    } else {
        let tail = order.subrange(1, order.len() as int);
        let tout = spec_insert(tail, chain, x, is_req);
        lemma_insert_props(tail, chain, x, is_req);
        assert(out =~= seq![order[0]] + tout);
        assert(out[0] == order[0]);
        assert(forall|p: int| 1 <= p < out.len() ==> #[trigger] out[p] == tout[p - 1]);
        // order[0] sorts ahead of x (total order, and x is not ahead of
        // order[0]), and ahead of everything in the tail.
        assert(spec_lex_before(chain, order[0] as int, x as int, is_req));
        assert forall|p: int, q: int| 0 <= p < q < out.len() implies spec_lex_before(
            chain,
            #[trigger] out[p] as int,
            #[trigger] out[q] as int,
            is_req,
        ) by {
            if p == 0 {
                let j = tout[q - 1];
                assert(order_contains(tout, j as int));
                if j == x {
                } else {
                    assert(order_contains(tail, j as int));
                    let w = choose|w: int| 0 <= w < tail.len() && tail[w] == j as int;
                    assert(tail[w] == order[w + 1]);
                    assert(spec_lex_before(chain, order[0] as int, order[w + 1] as int, is_req));
                }
            }
        }
        assert forall|j: int|
            #[trigger] order_contains(out, j) <==> (j == x || order_contains(order, j)) by {
            if order_contains(out, j) {
                let p = choose|p: int| 0 <= p < out.len() && out[p] == j;
                if p == 0 {
                    assert(order[0] == j);
                    assert(order_contains(order, j));
                } else {
                    assert(tout[p - 1] == j);
                    assert(order_contains(tout, j));
                    if j != x {
                        assert(order_contains(tail, j));
                        let w = choose|w: int| 0 <= w < tail.len() && tail[w] == j;
                        assert(order[w + 1] == j);
                        assert(order_contains(order, j));
                    }
                }
            }
            if j == x {
                assert(order_contains(tout, x as int));
                let p = choose|p: int| 0 <= p < tout.len() && tout[p] == x;
                assert(out[p + 1] == x);
                assert(order_contains(out, j));
            } else if order_contains(order, j) {
                let q = choose|q: int| 0 <= q < order.len() && order[q] == j;
                if q == 0 {
                    assert(out[0] == j);
                } else {
                    assert(tail[q - 1] == j);
                    assert(order_contains(tail, j));
                    assert(order_contains(tout, j));
                    let p = choose|p: int| 0 <= p < tout.len() && tout[p] == j;
                    assert(out[p + 1] == j);
                }
                assert(order_contains(out, j));
            }
        }
    }
}

/// The computed order of the first `k` indices is a permutation of
/// `0..k`, laid out in strictly ascending key-then-index order.
pub proof fn lemma_order_upto_props(chain: Seq<MwShape>, k: int, is_req: bool)
    requires
        0 <= k <= 0x10000,
    ensures
        spec_order_upto(chain, k, is_req).len() == k,
        forall|p: int|
            0 <= p < k ==> #[trigger] spec_order_upto(chain, k, is_req)[p] < k,
        forall|j: int|
            0 <= j < k ==> #[trigger] order_contains(spec_order_upto(chain, k, is_req), j),
        forall|p: int, q: int|
            0 <= p < q < k ==> spec_lex_before(
                chain,
                #[trigger] spec_order_upto(chain, k, is_req)[p] as int,
                #[trigger] spec_order_upto(chain, k, is_req)[q] as int,
                is_req,
            ),
    decreases k,
{
    if k > 0 {
        lemma_order_upto_props(chain, k - 1, is_req);
        let prev = spec_order_upto(chain, k - 1, is_req);
        let out = spec_order_upto(chain, k, is_req);
        assert(out == spec_insert(prev, chain, (k - 1) as u16, is_req));
        assert(forall|p: int| 0 <= p < prev.len() ==> #[trigger] prev[p] < (k - 1) as u16);
        lemma_insert_props(prev, chain, (k - 1) as u16, is_req);
        assert forall|j: int| 0 <= j < k implies #[trigger] order_contains(out, j) by {
            if j < k - 1 {
                assert(order_contains(prev, j));
            }
        }
        assert forall|p: int| 0 <= p < k implies #[trigger] out[p] < k by {
            assert(out[p] <= (k - 1) as u16);
        }
    }
}

/// Whether one cross-reference is legal for a middleware of the given
/// phase: request middleware may name earlier request outputs only,
/// response middleware may name either chain, and every index must fall
/// short of the referenced chain's length.
pub open spec fn spec_ref_ok(r: CrossRef, ph: Phase, req_len: int, resp_len: int) -> bool {
    match r {
        CrossRef::Request(i) => (i as int) < req_len,
        CrossRef::Response(i) => ph is Response && (i as int) < resp_len,
    }
}

/// Every cross-reference of every middleware in both chains is legal.
pub open spec fn refs_valid(req: Seq<MwShape>, resp: Seq<MwShape>) -> bool {
    &&& forall|k: int, j: int|
        0 <= k < req.len() && 0 <= j < req[k].refs.len() ==> spec_ref_ok(
            #[trigger] req[k].refs[j],
            Phase::Request,
            req.len() as int,
            resp.len() as int,
        )
    &&& forall|k: int, j: int|
        0 <= k < resp.len() && 0 <= j < resp[k].refs.len() ==> spec_ref_ok(
            #[trigger] resp[k].refs[j],
            Phase::Response,
            req.len() as int,
            resp.len() as int,
        )
}

/// Under the given execution order, every request middleware runs after
/// the request outputs it asks for have been written.
pub open spec fn req_feasible(chain: Seq<MwShape>, order: Seq<u16>) -> bool {
    forall|p: int, j: int|
        0 <= p < order.len() && 0 <= j < chain[order[p] as int].refs.len() ==> match #[trigger] chain[order[p] as int].refs[j] {
            CrossRef::Request(i) => exists|q: int| 0 <= q < p && #[trigger] order[q] == i as int,
            CrossRef::Response(_) => true,
        }
}

/// Under the given execution order, every response middleware runs after
/// the response outputs it asks for have been written. Request outputs
/// are always available by then: the whole request chain runs first.
pub open spec fn resp_feasible(chain: Seq<MwShape>, order: Seq<u16>) -> bool {
    forall|p: int, j: int|
        0 <= p < order.len() && 0 <= j < chain[order[p] as int].refs.len() ==> match #[trigger] chain[order[p] as int].refs[j] {
            CrossRef::Response(i) => exists|q: int| 0 <= q < p && #[trigger] order[q] == i as int,
            CrossRef::Request(_) => true,
        }
}

/// Why a plan cannot be built.
#[derive(Clone, Copy, Debug, PartialEq, Eq, Structural)]
pub enum PlanError {
    /// Some middleware names an output that does not exist: an index at
    /// or beyond the referenced chain's length, or a response output
    /// named from the request chain.
    CrossRefOutOfBounds,
    /// The index-sum ordering would run some middleware before an output
    /// it asks for has been written.
    CrossRefNotScheduled,
}

/// Mathematical image of an [`ExecutionPlan`].
pub struct PlanShape {
    pub request: Seq<MwShape>,
    pub response: Seq<MwShape>,
    pub request_order: Seq<u16>,
    pub response_order: Seq<u16>,
}

/// The built plan: both chains in declaration order, and the fixed
/// execution order of each, computed once and immutable.
pub struct ExecutionPlan {
    request: Vec<MiddlewareSpec>,
    response: Vec<MiddlewareSpec>,
    request_order: Vec<u16>,
    response_order: Vec<u16>,
}

impl View for ExecutionPlan {
    type V = PlanShape;

    closed spec fn view(&self) -> PlanShape {
        PlanShape {
            request: specs_view(self.request@),
            response: specs_view(self.response@),
            request_order: self.request_order@,
            response_order: self.response_order@,
        }
    }
}

impl ExecutionPlan {
    /// Orders are permutations of their chains, all references are
    /// legal, and each middleware runs after the outputs it asks for.
    #[verifier::type_invariant]
    pub closed spec fn wf(&self) -> bool {
        &&& self@.request_order.len() == self@.request.len()
        &&& self@.response_order.len() == self@.response.len()
        &&& self@.request.len() <= 0xffff
        &&& self@.response.len() <= 0xffff
        &&& forall|p: int|
            0 <= p < self@.request_order.len() ==> #[trigger] self@.request_order[p]
                < self@.request.len()
        &&& forall|p: int|
            0 <= p < self@.response_order.len() ==> #[trigger] self@.response_order[p]
                < self@.response.len()
        &&& forall|j: int|
            0 <= j < self@.request.len() ==> #[trigger] order_contains(self@.request_order, j)
        &&& forall|j: int|
            0 <= j < self@.response.len() ==> #[trigger] order_contains(self@.response_order, j)
        &&& refs_valid(self@.request, self@.response)
        &&& req_feasible(self@.request, self@.request_order)
        &&& resp_feasible(self@.response, self@.response_order)
    }

    /// Number of request middleware.
    pub fn request_len(&self) -> (n: usize)
        ensures
            n == self@.request.len(),
    {
        self.request.len()
    }

    /// Number of response middleware.
    pub fn response_len(&self) -> (n: usize)
        ensures
            n == self@.response.len(),
    {
        self.response.len()
    }

    /// Chain index of the request middleware run at execution position
    /// `p`.
    pub fn request_order_at(&self, p: usize) -> (i: u16)
        requires
            p < self@.request_order.len(),
        ensures
            i == self@.request_order[p as int],
            i < self@.request.len(),
    {
        proof {
            use_type_invariant(&*self);
        }
        self.request_order[p]
    }

    /// Chain index of the response middleware run at execution position
    /// `p`.
    pub fn response_order_at(&self, p: usize) -> (i: u16)
        requires
            p < self@.response_order.len(),
        ensures
            i == self@.response_order[p as int],
            i < self@.response.len(),
    {
        proof {
            use_type_invariant(&*self);
        }
        self.response_order[p]
    }

    /// The execution order of the request chain, as the plan fixed it.
    pub fn request_order_raw(&self) -> (r: &Vec<u16>)
        ensures
            r@ == self@.request_order,
    {
        &self.request_order
    }

    /// The execution order of the response chain, as the plan fixed it.
    pub fn response_order_raw(&self) -> (r: &Vec<u16>)
        ensures
            r@ == self@.response_order,
    {
        &self.response_order
    }

    /// Everything the type invariant grants about a plan at hand.
    pub proof fn soundness(&self)
        requires
            self.wf(),
        ensures
            self@.request_order.len() == self@.request.len(),
            self@.response_order.len() == self@.response.len(),
            self@.request.len() <= 0xffff,
            self@.response.len() <= 0xffff,
            forall|p: int|
                0 <= p < self@.request_order.len() ==> #[trigger] self@.request_order[p]
                    < self@.request.len(),
            forall|p: int|
                0 <= p < self@.response_order.len() ==> #[trigger] self@.response_order[p]
                    < self@.response.len(),
            forall|j: int|
                0 <= j < self@.request.len() ==> #[trigger] order_contains(
                    self@.request_order,
                    j,
                ),
            forall|j: int|
                0 <= j < self@.response.len() ==> #[trigger] order_contains(
                    self@.response_order,
                    j,
                ),
            refs_valid(self@.request, self@.response),
            req_feasible(self@.request, self@.request_order),
            resp_feasible(self@.response, self@.response_order),
    {
    }
}

/// Computes [`spec_ref_sum`] of a middleware's cross-references.
fn ref_sum(refs: &Vec<CrossRef>) -> (s: u128)
    ensures
        s as int == spec_ref_sum(refs@),
{
    let mut s: u128 = 0;
    let mut i: usize = 0;
    proof {
        assert(refs@.subrange(0, 0) =~= Seq::<CrossRef>::empty());
    }
    while i < refs.len()
        invariant
            i <= refs@.len(),
            s as int == spec_ref_sum(refs@.subrange(0, i as int)),
        decreases refs@.len() - i,
    {
        proof {
            lemma_ref_sum_bounds(refs@.subrange(0, i as int));
            let l = i as int;
            assert(l * 0xffff + 0xffff < u128::MAX) by (nonlinear_arith)
                requires
                    0 <= l < 0x1_0000_0000_0000_0000,
            ;
            assert(refs@.subrange(0, i + 1).drop_last() =~= refs@.subrange(0, i as int));
            assert(refs@.subrange(0, i + 1).last() == refs@[i as int]);
        }
        let d: u128 = match refs[i] {
            CrossRef::Request(v) => v as u128,
            CrossRef::Response(v) => v as u128,
        };
        s = s + d;
        i = i + 1;
    }
    proof {
        assert(refs@.subrange(0, refs@.len() as int) =~= refs@);
    }
    s
}

/// Computes the execution order of one chain by repeated insertion in
/// declaration order, so ties keep that order.
fn chain_order(chain: &Vec<MiddlewareSpec>, is_req: bool) -> (order: Vec<u16>)
    requires
        chain@.len() <= 0xffff,
    ensures
        order@ == spec_chain_order(specs_view(chain@), is_req),
{
    let ghost cv = specs_view(chain@);
    let n = chain.len();
    let mut keys: Vec<i128> = Vec::new();
    let mut i: usize = 0;
    while i < n
        invariant
            i <= n,
            n == chain@.len(),
            keys@.len() == i,
            forall|p: int|
                0 <= p < i ==> #[trigger] keys@[p] as int == spec_chain_key(cv, p, is_req),
        decreases n - i,
    {
        let rl = chain[i].cross_refs.len();
        let s = ref_sum(&chain[i].cross_refs);
        proof {
            lemma_ref_sum_bounds(chain@[i as int].cross_refs@);
            lemma_ref_sum_fits(chain@[i as int].cross_refs@);
        }
        let key: i128 = if is_req {
            s as i128
        } else {
            0xffff - (chain[i].declared_position as i128) - (s as i128)
        };
        keys.push(key);
        i = i + 1;
    }
    let mut order: Vec<u16> = Vec::new();
    let mut k: usize = 0;
    proof {
        assert(spec_order_upto(cv, 0, is_req) =~= Seq::<u16>::empty());
    }
    while k < n
        invariant
            k <= n,
            n == chain@.len() <= 0xffff,
            keys@.len() == n,
            forall|p: int|
                0 <= p < n ==> #[trigger] keys@[p] as int == spec_chain_key(cv, p, is_req),
            order@ == spec_order_upto(cv, k as int, is_req),
            order@.len() == k,
            forall|p: int| 0 <= p < k ==> #[trigger] order@[p] < k,
        decreases n - k,
    {
        proof {
            lemma_order_upto_props(cv, k as int, is_req);
        }
        let mut pos: usize = 0;
        while pos < order.len()
            invariant
                pos <= order@.len(),
                forall|p: int|
                    0 <= p < pos ==> !spec_lex_before(
                        cv,
                        k as int,
                        #[trigger] order@[p] as int,
                        is_req,
                    ),
            decreases order@.len() - pos,
        {
            let o = order[pos] as usize;
            let before = keys[k] < keys[o] || (keys[k] == keys[o] && k < o);
            if before {
                break ;
            }
            pos = pos + 1;
        }
        let ghost old_order = order@;
        order.insert(pos, k as u16);
        proof {
            lemma_insert_at(old_order, cv, k as u16, is_req, pos as int);
            assert(order@ =~= old_order.subrange(0, pos as int) + seq![k as u16]
                + old_order.subrange(pos as int, old_order.len() as int));
            lemma_order_upto_props(cv, k + 1, is_req);
        }
        k = k + 1;
    }
    order
}

/// A cross-reference sum fits comfortably in `i128`.
proof fn lemma_ref_sum_fits(refs: Seq<CrossRef>)
    requires
        refs.len() < 0x1_0000_0000_0000_0000,
    ensures
        spec_ref_sum(refs) < 0x1_0000_0000_0000_0000_0000,
{
    lemma_ref_sum_bounds(refs);
    let l = refs.len() as int;
    assert(l * 0xffff < 0x1_0000_0000_0000_0000_0000) by (nonlinear_arith)
        requires
            0 <= l < 0x1_0000_0000_0000_0000,
    ;
}

/// Splits the declared middleware into the request and response chains,
/// keeping declaration order within each.
fn partition(specs: Vec<MiddlewareSpec>) -> (r: (Vec<MiddlewareSpec>, Vec<MiddlewareSpec>))
    ensures
        specs_view(r.0@) == spec_chain(specs_view(specs@), Phase::Request),
        specs_view(r.1@) == spec_chain(specs_view(specs@), Phase::Response),
        r.0@.len() + r.1@.len() == specs@.len(),
{
    let ghost sv = specs_view(specs@);
    let total = specs.len();
    let mut req: Vec<MiddlewareSpec> = Vec::new();
    let mut resp: Vec<MiddlewareSpec> = Vec::new();
    let mut rest = specs;
    let mut i: usize = 0;
    proof {
        assert(sv.subrange(0, 0) =~= Seq::<MwShape>::empty());
        assert(spec_chain(sv.subrange(0, 0), Phase::Request) =~= Seq::<MwShape>::empty());
        assert(spec_chain(sv.subrange(0, 0), Phase::Response) =~= Seq::<MwShape>::empty());
        assert(specs_view(req@) =~= spec_chain(sv.subrange(0, 0), Phase::Request));
        assert(specs_view(resp@) =~= spec_chain(sv.subrange(0, 0), Phase::Response));
    }
    while rest.len() > 0
        invariant
            i + rest@.len() == sv.len(),
            sv.len() == total,
            forall|k: int| 0 <= k < rest@.len() ==> #[trigger] rest@[k]@ == sv[i + k],
            specs_view(req@) == spec_chain(sv.subrange(0, i as int), Phase::Request),
            specs_view(resp@) == spec_chain(sv.subrange(0, i as int), Phase::Response),
            req@.len() + resp@.len() == i,
        decreases rest@.len(),
    {
        let ghost pre_req = specs_view(req@);
        let ghost pre_resp = specs_view(resp@);
        let e = rest.remove(0);
        proof {
            assert(e@ == sv[i as int]);
            assert(sv.subrange(0, i + 1).drop_last() =~= sv.subrange(0, i as int));
            assert(sv.subrange(0, i + 1).last() == sv[i as int]);
        }
        match e.phase {
            Phase::Request => {
                req.push(e);
                proof {
                    assert(specs_view(req@) =~= pre_req.push(sv[i as int]));
                    assert(spec_chain(sv.subrange(0, i + 1), Phase::Request) =~= pre_req.push(
                        sv[i as int],
                    ));
                    assert(specs_view(resp@) =~= pre_resp);
                    assert(spec_chain(sv.subrange(0, i + 1), Phase::Response) =~= pre_resp);
                }
            },
            Phase::Response => {
                resp.push(e);
                proof {
                    assert(specs_view(resp@) =~= pre_resp.push(sv[i as int]));
                    assert(spec_chain(sv.subrange(0, i + 1), Phase::Response) =~= pre_resp.push(
                        sv[i as int],
                    ));
                    assert(specs_view(req@) =~= pre_req);
                    assert(spec_chain(sv.subrange(0, i + 1), Phase::Request) =~= pre_req);
                }
            },
        }
        i = i + 1;
    }
    proof {
        assert(sv.subrange(0, sv.len() as int) =~= sv);
    }
    (req, resp)
}

/// Checks every cross-reference of one chain against the chain lengths.
fn check_refs(chain: &Vec<MiddlewareSpec>, ph: Phase, req_len: usize, resp_len: usize) -> (ok:
    bool)
    ensures
        ok == forall|k: int, j: int|
            0 <= k < specs_view(chain@).len() && 0 <= j < specs_view(chain@)[k].refs.len()
                ==> spec_ref_ok(
                #[trigger] specs_view(chain@)[k].refs[j],
                ph,
                req_len as int,
                resp_len as int,
            ),
{
    let ghost cv = specs_view(chain@);
    let mut k: usize = 0;
    while k < chain.len()
        invariant
            k <= cv.len(),
            forall|k2: int, j: int|
                0 <= k2 < k && 0 <= j < cv[k2].refs.len() ==> spec_ref_ok(
                    #[trigger] cv[k2].refs[j],
                    ph,
                    req_len as int,
                    resp_len as int,
                ),
        decreases cv.len() - k,
    {
        let refs = &chain[k].cross_refs;
        let mut j: usize = 0;
        while j < refs.len()
            invariant
                j <= refs@.len(),
                refs@ == cv[k as int].refs,
                0 <= k < cv.len(),
                forall|j2: int|
                    0 <= j2 < j ==> spec_ref_ok(
                        #[trigger] cv[k as int].refs[j2],
                        ph,
                        req_len as int,
                        resp_len as int,
                    ),
            decreases refs@.len() - j,
        {
            let ok = match refs[j] {
                CrossRef::Request(i) => (i as usize) < req_len,
                CrossRef::Response(i) => matches!(ph, Phase::Response) && (i as usize) < resp_len,
            };
            if !ok {
                proof {
                    assert(!spec_ref_ok(cv[k as int].refs[j as int], ph, req_len as int, resp_len as int));
                }
                return false;
            }
            j = j + 1;
        }
        k = k + 1;
    }
    true
}

/// Checks that, under the given order, every cross-reference into this
/// chain points at an output written at an earlier position. `own_chain`
/// selects which of the two reference kinds points into this chain.
fn check_feasible(chain: &Vec<MiddlewareSpec>, order: &Vec<u16>, is_req: bool) -> (ok: bool)
    requires
        order@.len() == chain@.len(),
        forall|p: int| 0 <= p < order@.len() ==> #[trigger] order@[p] < chain@.len(),
    ensures
        is_req ==> ok == req_feasible(specs_view(chain@), order@),
        !is_req ==> ok == resp_feasible(specs_view(chain@), order@),
{
    let ghost cv = specs_view(chain@);
    let n = chain.len();
    let mut filled: Vec<bool> = Vec::new();
    let mut z: usize = 0;
    while z < n
        invariant
            z <= n,
            filled@.len() == z,
            forall|j: int| 0 <= j < z ==> !(#[trigger] filled@[j]),
        decreases n - z,
    {
        filled.push(false);
        z = z + 1;
    }
    let mut p: usize = 0;
    while p < n
        invariant
            p <= n,
            n == chain@.len() == order@.len(),
            filled@.len() == n,
            forall|pp: int| 0 <= pp < order@.len() ==> #[trigger] order@[pp] < n,
            forall|j: int|
                0 <= j < n ==> (#[trigger] filled@[j] <==> exists|q: int|
                    0 <= q < p && #[trigger] order@[q] == j),
            forall|p2: int, j: int|
                0 <= p2 < p && 0 <= j < cv[order@[p2] as int].refs.len() ==> match #[trigger] cv[order@[p2] as int].refs[j] {
                    CrossRef::Request(i) => !is_req || exists|q: int|
                        0 <= q < p2 && #[trigger] order@[q] == i as int,
                    CrossRef::Response(i) => is_req || exists|q: int|
                        0 <= q < p2 && #[trigger] order@[q] == i as int,
                },
        decreases n - p,
    {
        let c = order[p] as usize;
        let refs = &chain[c].cross_refs;
        let mut j: usize = 0;
        while j < refs.len()
            invariant
                j <= refs@.len(),
                refs@ == cv[order@[p as int] as int].refs,
                0 <= p < n,
                forall|j2: int|
                    0 <= j2 < j ==> match #[trigger] cv[order@[p as int] as int].refs[j2] {
                        CrossRef::Request(i) => !is_req || exists|q: int|
                            0 <= q < p && #[trigger] order@[q] == i as int,
                        CrossRef::Response(i) => is_req || exists|q: int|
                            0 <= q < p && #[trigger] order@[q] == i as int,
                    },
            decreases refs@.len() - j,
        {
            let needed: Option<u16> = match refs[j] {
                CrossRef::Request(i) => if is_req {
                    Some(i)
                } else {
                    None
                },
                CrossRef::Response(i) => if is_req {
                    None
                } else {
                    Some(i)
                },
            };
            match needed {
                Some(i) => {
                    if (i as usize) >= n || !filled[i as usize] {
                        return false;
                    }
                },
                None => {},
            }
            j = j + 1;
        }
        filled.set(c, true);
        proof {
            assert forall|jj: int|
                0 <= jj < n implies (#[trigger] filled@[jj] <==> exists|q: int|
                0 <= q < p + 1 && #[trigger] order@[q] == jj) by {
                if jj == order@[p as int] as int {
                    assert(order@[p as int] == jj);
                } else {
                    if exists|q: int| 0 <= q < p + 1 && order@[q] == jj {
                        let q = choose|q: int| 0 <= q < p + 1 && order@[q] == jj;
                        assert(q < p);
                    }
                }
            }
        }
        p = p + 1;
    }
    true
}

/// Computes the execution plan of the declared middleware, once, at
/// build time. An out-of-bounds cross-reference — or a response output
/// named from the request chain — fails with `CrossRefOutOfBounds`
/// before any order is considered; an order that would read an output
/// before it is written fails with `CrossRefNotScheduled`. No
/// cross-reference error is ever deferred to request time.
pub fn plan(specs: Vec<MiddlewareSpec>) -> (r: Result<ExecutionPlan, PlanError>)
    requires
        specs@.len() <= 0xffff,
    ensures
        ({
            let sv = specs_view(specs@);
            let req = spec_chain(sv, Phase::Request);
            let resp = spec_chain(sv, Phase::Response);
            let ro = spec_chain_order(req, true);
            let so = spec_chain_order(resp, false);
            &&& (r == Err::<ExecutionPlan, PlanError>(PlanError::CrossRefOutOfBounds)
                <==> !refs_valid(req, resp))
            &&& (r == Err::<ExecutionPlan, PlanError>(PlanError::CrossRefNotScheduled)
                <==> refs_valid(req, resp) && !(req_feasible(req, ro) && resp_feasible(resp, so)))
            &&& (r is Ok <==> refs_valid(req, resp) && req_feasible(req, ro) && resp_feasible(
                resp,
                so,
            ))
            &&& (r matches Ok(plan) ==> {
                &&& plan@.request == req
                &&& plan@.response == resp
                &&& plan@.request_order == ro
                &&& plan@.response_order == so
            })
        }),
{
    let ghost sv = specs_view(specs@);
    let (req, resp) = partition(specs);
    let ghost reqv = specs_view(req@);
    let ghost respv = specs_view(resp@);
    let req_len = req.len();
    let resp_len = resp.len();
    if !check_refs(&req, Phase::Request, req_len, resp_len) {
        return Err(PlanError::CrossRefOutOfBounds);
    }
    if !check_refs(&resp, Phase::Response, req_len, resp_len) {
        return Err(PlanError::CrossRefOutOfBounds);
    }
    let request_order = chain_order(&req, true);
    let response_order = chain_order(&resp, false);
    proof {
        lemma_order_upto_props(reqv, reqv.len() as int, true);
        lemma_order_upto_props(respv, respv.len() as int, false);
    }
    if !check_feasible(&req, &request_order, true) {
        return Err(PlanError::CrossRefNotScheduled);
    }
    if !check_feasible(&resp, &response_order, false) {
        return Err(PlanError::CrossRefNotScheduled);
    }
    let built = ExecutionPlan { request: req, response: resp, request_order, response_order };
    Ok(built)
}

} // verus!
