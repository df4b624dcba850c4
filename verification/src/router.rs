//! The route table: an immutable, ordered list of `(template, method,
//! handler)` entries, fixed once at build time. Entries whose template
//! has no parameter come first; among parametric entries the larger key
//! `parameter count + summed brace offsets` comes first, ties keeping
//! declaration order. `resolve` probes the table in that order and
//! returns the first entry whose template matches the path and whose
//! method equals the request method.

use vstd::prelude::*;

use crate::template::{
    spec_brace_offset_sum, spec_count_params, spec_matches, spec_segments, ParamMap, PathTemplate,
};

verus! {

/// Request methods the table distinguishes.
#[derive(Clone, Copy, Debug, PartialEq, Eq, Structural)]
pub enum HttpMethod {
    Get,
    Post,
    Put,
    Delete,
    Patch,
    Head,
    Options,
    Connect,
    Trace,
}

/// One registered route.
pub struct RouteEntry {
    pub template: PathTemplate,
    pub method: HttpMethod,
    pub handler: u64,
}

/// Mathematical image of a [`RouteEntry`]: the template's source text,
/// the method and the handler identity.
pub struct RouteShape {
    pub template: Seq<char>,
    pub method: HttpMethod,
    pub handler: u64,
}

impl View for RouteEntry {
    type V = RouteShape;

    open spec fn view(&self) -> RouteShape {
        RouteShape { template: self.template@, method: self.method, handler: self.handler }
    }
}

/// A template with no parameter segment.
pub open spec fn spec_is_static(t: Seq<char>) -> bool {
    spec_count_params(spec_segments(t)) == 0
}

/// The specificity key of a parametric template.
pub open spec fn spec_route_key(t: Seq<char>) -> int {
    spec_count_params(spec_segments(t)) + spec_brace_offset_sum(t)
}

/// The strict order in which the table is laid out, over an entry and
/// its declaration index: static templates first (declaration order
/// among them); parametric templates after, larger key first,
/// declaration order on equal keys.
pub open spec fn spec_route_before(a: RouteShape, ai: int, b: RouteShape, bi: int) -> bool {
    if spec_is_static(a.template) != spec_is_static(b.template) {
        spec_is_static(a.template)
    } else if spec_is_static(a.template) {
        ai < bi
    } else if spec_route_key(a.template) != spec_route_key(b.template) {
        spec_route_key(a.template) > spec_route_key(b.template)
    } else {
        ai < bi
    }
}

/// The order the table guarantees, free of declaration indices: static
/// entries precede parametric ones, and parametric keys never increase.
pub open spec fn table_ordered(t: Seq<RouteShape>) -> bool {
    forall|p: int, q: int|
        0 <= p < q < t.len() ==> {
            &&& (spec_is_static(#[trigger] t[q].template) ==> spec_is_static(
                #[trigger] t[p].template,
            ))
            &&& (!spec_is_static(t[p].template) && !spec_is_static(t[q].template)
                ==> spec_route_key(t[p].template) >= spec_route_key(t[q].template))
        }
}

/// Witnesses that `sorted` is `orig` rearranged by the specificity
/// order: `m[k]` is the declaration index of the entry at position `k`,
/// and consecutive positions respect [`spec_route_before`].
pub open spec fn is_specificity_order(
    orig: Seq<RouteShape>,
    sorted: Seq<RouteShape>,
    m: Seq<int>,
) -> bool {
    &&& m.len() == orig.len()
    &&& sorted.len() == orig.len()
    &&& forall|k: int| 0 <= k < m.len() ==> 0 <= #[trigger] m[k] < orig.len()
    &&& forall|k: int| 0 <= k < m.len() ==> sorted[k] == orig[#[trigger] m[k]]
    &&& forall|p: int, q: int|
        0 <= p < q < m.len() ==> spec_route_before(sorted[p], #[trigger] m[p], sorted[q], #[trigger] m[q])
}

/// The shapes of a route list, in declaration order.
pub open spec fn entries_view(entries: Seq<RouteEntry>) -> Seq<RouteShape> {
    Seq::new(entries.len(), |i: int| entries[i]@)
}

/// `sorted` is `orig` rearranged by the specificity order under some
/// assignment of declaration indices.
pub open spec fn specificity_sorted(orig: Seq<RouteShape>, sorted: Seq<RouteShape>) -> bool {
    exists|m: Seq<int>| is_specificity_order(orig, sorted, m)
}

/// Building a table from no routes at all is refused.
#[derive(Clone, Copy, Debug, PartialEq, Eq, Structural)]
pub enum RouteError {
    NoRoutesRegistered,
}

/// The immutable route table, in specificity order.
pub struct RouteTable {
    entries: Vec<RouteEntry>,
}

impl View for RouteTable {
    type V = Seq<RouteShape>;

    closed spec fn view(&self) -> Seq<RouteShape> {
        Seq::new(self.entries@.len(), |i: int| self.entries@[i]@)
    }
}

/// Compares two entries under the table order, given their declaration
/// indices.
fn route_before(a: &RouteEntry, ai: usize, b: &RouteEntry, bi: usize) -> (r: bool)
    ensures
        r == spec_route_before(a@, ai as int, b@, bi as int),
{
    let a_static = a.template.param_count() == 0;
    let b_static = b.template.param_count() == 0;
    if a_static != b_static {
        a_static
    } else if a_static {
        ai < bi
    } else {
        let ka = a.template.specificity_key();
        let kb = b.template.specificity_key();
        if ka != kb {
            ka > kb
        } else {
            ai < bi
        }
    }
}

impl RouteTable {
    /// The entries of a built table stand in specificity order.
    #[verifier::type_invariant]
    pub closed spec fn wf(&self) -> bool {
        table_ordered(self@)
    }

    /// How many routes the table holds.
    pub fn len(&self) -> (n: usize)
        ensures
            n == self@.len(),
    {
        self.entries.len()
    }

    /// Handler identity of the entry at a position.
    pub fn handler_at(&self, i: usize) -> (h: u64)
        requires
            i < self@.len(),
        ensures
            h == self@[i as int].handler,
    {
        self.entries[i].handler
    }

    /// Method of the entry at a position.
    pub fn method_at(&self, i: usize) -> (m: HttpMethod)
        requires
            i < self@.len(),
        ensures
            m == self@[i as int].method,
    {
        self.entries[i].method
    }

    /// Template of the entry at a position.
    pub fn template_at(&self, i: usize) -> (t: &PathTemplate)
        requires
            i < self@.len(),
        ensures
            t@ == self@[i as int].template,
    {
        &self.entries[i].template
    }

    /// A built table is laid out in specificity order. The premise comes
    /// from `use_type_invariant` on any table at hand.
    pub proof fn ordering(&self)
        requires
            self.wf(),
        ensures
            table_ordered(self@),
    {
    }

    /// Builds the table: refuses an empty route list, otherwise fixes
    /// the iteration order once, by the specificity order over the
    /// declared entries.
    pub fn build(entries: Vec<RouteEntry>) -> (r: Result<RouteTable, RouteError>)
        ensures
            r is Err <==> entries@.len() == 0,
            r is Err ==> r == Err::<RouteTable, RouteError>(RouteError::NoRoutesRegistered),
            r matches Ok(table) ==> specificity_sorted(entries_view(entries@), table@),
    {
        let ghost orig = entries_view(entries@);
        let n = entries.len();
        if n == 0 {
            return Err(RouteError::NoRoutesRegistered);
        }
        let mut rest = entries;
        let mut tagged: Vec<(RouteEntry, usize)> = Vec::new();
        let mut idx: usize = 0;
        while rest.len() > 0
            invariant
                idx == tagged@.len(),
                idx + rest@.len() == n,
                forall|k: int|
                    0 <= k < idx ==> (#[trigger] tagged@[k]).0@ == orig[k] && tagged@[k].1 == k,
                forall|k: int| 0 <= k < rest@.len() ==> #[trigger] rest@[k]@ == orig[idx + k],
            decreases rest@.len(),
        {
            let e = rest.remove(0);
            tagged.push((e, idx));
            idx = idx + 1;
        }
        let mut sorted: Vec<(RouteEntry, usize)> = Vec::new();
        while tagged.len() > 0
            invariant
                sorted@.len() + tagged@.len() == n,
                forall|k: int|
                    0 <= k < tagged@.len() ==> (#[trigger] tagged@[k]).0@ == orig[k]
                        && tagged@[k].1 == k,
                forall|k: int|
                    0 <= k < sorted@.len() ==> tagged@.len() <= (#[trigger] sorted@[k]).1 < n
                        && sorted@[k].0@ == orig[sorted@[k].1 as int],
                forall|p: int, q: int|
                    0 <= p < q < sorted@.len() ==> spec_route_before(
                        (#[trigger] sorted@[p]).0@,
                        sorted@[p].1 as int,
                        (#[trigger] sorted@[q]).0@,
                        sorted@[q].1 as int,
                    ),
            decreases tagged@.len(),
        {
            let pair = match tagged.pop() {
                Some(p) => p,
                None => {
                    proof {
                        assert(false);
                    }
                    break ;
                },
            };
            let tag = pair.1;
            let mut pos: usize = 0;
            while pos < sorted.len()
                invariant
                    pos <= sorted@.len(),
                    tag == tagged@.len(),
                    pair.0@ == orig[tag as int],
                    pair.1 == tag,
                    forall|p: int|
                        0 <= p < pos ==> spec_route_before(
                            (#[trigger] sorted@[p]).0@,
                            sorted@[p].1 as int,
                            pair.0@,
                            tag as int,
                        ),
                decreases sorted@.len() - pos,
            {
                if route_before(&pair.0, tag, &sorted[pos].0, sorted[pos].1) {
                    break ;
                }
                proof {
                    assert(sorted@[pos as int].1 != tag as int);
                    assert(spec_route_before(
                        sorted@[pos as int].0@,
                        sorted@[pos as int].1 as int,
                        pair.0@,
                        tag as int,
                    ));
                }
                pos = pos + 1;
            }
            let ghost old_sorted = sorted@;
            let ghost newpair = pair;
            sorted.insert(pos, pair);
            proof {
                assert(sorted@.len() == old_sorted.len() + 1);
                assert(forall|k: int|
                    0 <= k < pos ==> #[trigger] sorted@[k] == old_sorted[k]);
                assert(sorted@[pos as int] == newpair);
                assert(forall|k: int|
                    pos < k < sorted@.len() ==> #[trigger] sorted@[k] == old_sorted[k - 1]);
                assert forall|p: int, q: int|
                    0 <= p < q < sorted@.len() implies spec_route_before(
                    (#[trigger] sorted@[p]).0@,
                    sorted@[p].1 as int,
                    (#[trigger] sorted@[q]).0@,
                    sorted@[q].1 as int,
                ) by {
                    if p == pos && q > pos {
                        // the new element sorts before everything at and
                        // after the found position
                        let b = old_sorted[q - 1];
                        if (pos as int) < old_sorted.len() {
                            let c = old_sorted[pos as int];
                            assert(spec_route_before(
                                newpair.0@,
                                newpair.1 as int,
                                c.0@,
                                c.1 as int,
                            ));
                            if q - 1 > pos {
                                assert(spec_route_before(c.0@, c.1 as int, b.0@, b.1 as int));
                            }
                        }
                    }
                }
            }
        }
        let mut out: Vec<RouteEntry> = Vec::new();
        let ghost mapping = Seq::new(sorted@.len(), |k: int| sorted@[k].1 as int);
        let ghost final_sorted = sorted@;
        let mut rest2 = sorted;
        while rest2.len() > 0
            invariant
                out@.len() + rest2@.len() == n,
                final_sorted.len() == n,
                forall|k: int| 0 <= k < out@.len() ==> #[trigger] out@[k]@ == final_sorted[k].0@,
                forall|k: int|
                    0 <= k < rest2@.len() ==> #[trigger] rest2@[k] == final_sorted[
                        out@.len() + k
                    ],
            decreases rest2@.len(),
        {
            let e = rest2.remove(0);
            out.push(e.0);
        }
        let ghost outview = Seq::new(out@.len(), |i: int| out@[i]@);
        proof {
            assert forall|p: int, q: int| 0 <= p < q < outview.len() implies {
                &&& (spec_is_static(#[trigger] outview[q].template) ==> spec_is_static(
                    #[trigger] outview[p].template,
                ))
                &&& (!spec_is_static(outview[p].template) && !spec_is_static(outview[q].template)
                    ==> spec_route_key(outview[p].template) >= spec_route_key(outview[q].template))
            } by {
                assert(spec_route_before(
                    final_sorted[p].0@,
                    final_sorted[p].1 as int,
                    final_sorted[q].0@,
                    final_sorted[q].1 as int,
                ));
            }
        }
        let table = RouteTable { entries: out };
        proof {
            assert(table@ =~= outview);
            assert(orig == entries_view(entries@));
            assert(is_specificity_order(entries_view(entries@), table@, mapping));
            assert(specificity_sorted(entries_view(entries@), table@));
        }
        Ok(table)
    }
}

/// Whether an entry answers the request: the method is equal and the
/// template matches the path.
pub open spec fn spec_entry_matches(e: RouteShape, m: HttpMethod, p: Seq<char>) -> bool {
    e.method == m && spec_matches(e.template, p) is Some
}

/// The first entry, in table order, that answers the request, with the
/// bindings its template extracts; `None` when no entry does.
pub open spec fn spec_resolve(t: Seq<RouteShape>, m: HttpMethod, p: Seq<char>) -> Option<
    (int, Seq<(Seq<char>, Seq<char>)>),
>
    decreases t.len(),
{
    if t.len() == 0 {
        None
    } else if spec_entry_matches(t[0], m, p) {
        Some((0int, spec_matches(t[0].template, p)->Some_0))
    } else {
        match spec_resolve(t.drop_first(), m, p) {
            Some((i, bs)) => Some((i + 1, bs)),
            None => None,
        }
    }
}

/// What [`spec_resolve`] returns: the match with the least index, and
/// `None` exactly when nothing matches.
pub proof fn lemma_resolve_characterize(t: Seq<RouteShape>, m: HttpMethod, p: Seq<char>)
    ensures
        match spec_resolve(t, m, p) {
            Some((i, bs)) => {
                &&& 0 <= i < t.len()
                &&& spec_entry_matches(t[i], m, p)
                &&& bs == spec_matches(t[i].template, p)->Some_0
                &&& forall|j: int| 0 <= j < i ==> !spec_entry_matches(#[trigger] t[j], m, p)
            },
            None => forall|j: int| 0 <= j < t.len() ==> !spec_entry_matches(#[trigger] t[j], m, p),
        },
    decreases t.len(),
{
    if t.len() == 0 {
    } else if spec_entry_matches(t[0], m, p) {
    } else {
        lemma_resolve_characterize(t.drop_first(), m, p);
        assert(forall|j: int|
            1 <= j < t.len() ==> #[trigger] t[j] == t.drop_first()[j - 1]);
    }
}

/// Law: resolution is pure. What `resolve` returns is a function of the
/// table's entries, the method and the path alone, so any two
/// resolutions of the same request against tables with equal entries
/// agree.
pub proof fn lemma_resolve_deterministic(
    t1: Seq<RouteShape>,
    t2: Seq<RouteShape>,
    m: HttpMethod,
    p: Seq<char>,
)
    requires
        t1 == t2,
    ensures
        spec_resolve(t1, m, p) == spec_resolve(t2, m, p),
{
}

/// Law: a static match is never shadowed by a parametric one. If any
/// entry with a parameter-free template answers the request, resolution
/// succeeds and the entry it picks is itself parameter-free.
pub proof fn lemma_static_route_priority(t: Seq<RouteShape>, m: HttpMethod, p: Seq<char>, i: int)
    requires
        table_ordered(t),
        0 <= i < t.len(),
        spec_entry_matches(t[i], m, p),
        spec_is_static(t[i].template),
    ensures
        spec_resolve(t, m, p) is Some,
        spec_resolve(t, m, p)->Some_0.0 <= i,
        spec_is_static(t[spec_resolve(t, m, p)->Some_0.0].template),
{
    lemma_resolve_characterize(t, m, p);
    match spec_resolve(t, m, p) {
        Some((j, bs)) => {
            if j > i {
                assert(!spec_entry_matches(t[i], m, p));
            }
        },
        None => {
            assert(!spec_entry_matches(t[i], m, p));
        },
    }
}

impl RouteTable {
    /// Scans the table in build order and returns the position of the
    /// first entry whose template matches the path and whose method is
    /// the request method, with the extracted path parameters. A method
    /// mismatch on a matching template does not stop the scan. `None`
    /// when the whole table has no such entry.
    pub fn resolve(&self, method: HttpMethod, path: &str) -> (r: Option<(usize, ParamMap)>)
        ensures
            match r {
                Some((i, pm)) => {
                    &&& spec_resolve(self@, method, path@) == Some((i as int, pm@))
                    &&& i < self@.len()
                },
                None => spec_resolve(self@, method, path@) is None,
            },
    {
        let ghost t = self@;
        let mut i: usize = 0;
        proof {
            lemma_resolve_characterize(t, method, path@);
        }
        while i < self.entries.len()
            invariant
                i <= t.len(),
                forall|j: int| 0 <= j < i ==> !spec_entry_matches(#[trigger] t[j], method, path@),
            decreases t.len() - i,
        {
            if self.entries[i].method == method {
                let attempt = self.entries[i].template.matches(path);
                match attempt {
                    Some(pm) => {
                        proof {
                            assert(spec_entry_matches(t[i as int], method, path@));
                            match spec_resolve(t, method, path@) {
                                Some((j, bs)) => {
                                    if j < i as int {
                                        assert(!spec_entry_matches(t[j], method, path@));
                                    }
                                    if j > i as int {
                                        assert(!spec_entry_matches(t[i as int], method, path@));
                                    }
                                },
                                None => {
                                    assert(!spec_entry_matches(t[i as int], method, path@));
                                },
                            }
                        }
                        return Some((i, pm));
                    },
                    None => {},
                }
            }
            i = i + 1;
        }
        proof {
            match spec_resolve(t, method, path@) {
                Some((j, bs)) => {
                    assert(!spec_entry_matches(t[j], method, path@));
                },
                None => {},
            }
        }
        None
    }
}

} // verus!
