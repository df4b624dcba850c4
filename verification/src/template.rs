//! Path templates: a route definition string such as `/users/{id}` is
//! parsed into a sequence of literal and parameter segments, can be
//! matched against a concrete request path, and yields the parameter
//! bindings of a successful match.
//!
//! Both templates and paths are split on `/`; a match requires the two
//! sides to have the same number of pieces, literal pieces to agree
//! exactly, and each parameter piece binds the corresponding path piece
//! to the parameter's name.

use vstd::assert_seqs_equal;
use vstd::prelude::*;

use crate::text::{chars_eq, copy_range, is_literal_char, is_name_char, name_char, to_chars};

verus! {

/// One piece of a parsed template: literal text that a path piece must
/// equal, or a named parameter that binds a path piece.
pub enum Segment {
    Literal(Vec<char>),
    Param(Vec<char>),
}

/// Mathematical image of a [`Segment`].
pub enum SegShape {
    Literal(Seq<char>),
    Param(Seq<char>),
}

impl View for Segment {
    type V = SegShape;

    closed spec fn view(&self) -> SegShape {
        match self {
            Segment::Literal(t) => SegShape::Literal(t@),
            Segment::Param(n) => SegShape::Param(n@),
        }
    }
}

/// Splits a character sequence on `/`. Splitting the empty sequence
/// gives one empty piece, so the result always has at least one piece
/// and exactly one piece more than there are separators.
pub open spec fn spec_split(s: Seq<char>) -> Seq<Seq<char>>
    decreases s.len(),
{
    if s.len() == 0 {
        seq![Seq::<char>::empty()]
    } else if s[0] == '/' {
        seq![Seq::<char>::empty()] + spec_split(s.subrange(1, s.len() as int))
    } else {
        let rest = spec_split(s.subrange(1, s.len() as int));
        seq![seq![s[0]] + rest[0]] + rest.subrange(1, rest.len() as int)
    }
}

/// Joins pieces with `/`, the inverse of [`spec_split`].
pub open spec fn spec_join(ps: Seq<Seq<char>>) -> Seq<char>
    decreases ps.len(),
{
    if ps.len() == 0 {
        Seq::<char>::empty()
    } else if ps.len() == 1 {
        ps[0]
    } else {
        ps[0] + seq!['/'] + spec_join(ps.subrange(1, ps.len() as int))
    }
}

pub proof fn lemma_split_len(s: Seq<char>)
    ensures
        spec_split(s).len() >= 1,
    decreases s.len(),
{
    if s.len() == 0 {
    } else if s[0] == '/' {
        lemma_split_len(s.subrange(1, s.len() as int));
    } else {
        lemma_split_len(s.subrange(1, s.len() as int));
    }
}

/// Joining the pieces of a split reproduces the original sequence.
pub proof fn lemma_join_split(s: Seq<char>)
    ensures
        spec_join(spec_split(s)) == s,
    decreases s.len(),
{
    if s.len() == 0 {
        assert(spec_join(spec_split(s)) =~= s);
    } else {
        let tail = s.subrange(1, s.len() as int);
        lemma_join_split(tail);
        lemma_split_len(tail);
        if s[0] == '/' {
            let ps = seq![Seq::<char>::empty()] + spec_split(tail);
            assert(ps.subrange(1, ps.len() as int) =~= spec_split(tail));
            assert(ps.len() >= 2);
            assert(ps[0] =~= Seq::<char>::empty());
            assert(spec_join(ps) == ps[0] + seq!['/'] + spec_join(ps.subrange(1, ps.len() as int)));
            assert(spec_join(ps).len() == s.len());
            assert forall|i: int| 0 <= i < spec_join(ps).len() implies #[trigger] spec_join(
                ps,
            )[i] == s[i] by {
                if i == 0 {
                    assert(spec_join(ps)[0] == '/');
                } else {
                    assert(spec_join(ps)[i] == tail[i - 1]);
                }
            }
            assert_seqs_equal!(spec_join(ps) == s);
        } else {
            let rest = spec_split(tail);
            let ps = seq![seq![s[0]] + rest[0]] + rest.subrange(1, rest.len() as int);
            if rest.len() == 1 {
                assert(ps.len() == 1);
                assert(spec_join(rest) == rest[0]);
                assert(spec_join(ps) =~= s);
            } else {
                assert(ps.subrange(1, ps.len() as int) =~= rest.subrange(1, rest.len() as int));
                assert(spec_join(rest) == rest[0] + seq!['/'] + spec_join(
                    rest.subrange(1, rest.len() as int),
                ));
                assert(spec_join(ps) == ps[0] + seq!['/'] + spec_join(
                    ps.subrange(1, ps.len() as int),
                ));
                assert_seqs_equal!(spec_join(ps) == s, i => {
                    if i >= 1 {
                        assert(spec_join(ps)[i] == spec_join(rest)[i - 1]);
                        assert(spec_join(rest)[i - 1] == tail[i - 1]);
                    }
                });
            }
        }
    }
}

/// Executable splitter, proved equal to [`spec_split`] piece by piece.
pub fn split_chars(s: &Vec<char>) -> (r: Vec<Vec<char>>)
    ensures
        r@.len() == spec_split(s@).len(),
        forall|k: int| 0 <= k < r@.len() ==> #[trigger] r@[k]@ == spec_split(s@)[k],
{
    let ghost full = s@;
    let ghost sp = spec_split(full);
    let mut done: Vec<Vec<char>> = Vec::new();
    let mut cur: Vec<char> = Vec::new();
    let mut i: usize = 0;
    proof {
        assert(full.subrange(0, full.len() as int) =~= full);
    }
    while i < s.len()
        invariant
            i <= s@.len(),
            full == s@,
            sp == spec_split(full),
            sp.len() == done@.len() + spec_split(
                full.subrange(i as int, full.len() as int),
            ).len(),
            forall|k: int|
                0 <= k < done@.len() ==> #[trigger] done@[k]@ == sp[k],
            sp[done@.len() as int] == cur@ + spec_split(
                full.subrange(i as int, full.len() as int),
            )[0],
            forall|k: int|
                1 <= k < spec_split(full.subrange(i as int, full.len() as int)).len()
                    ==> #[trigger] spec_split(full.subrange(i as int, full.len() as int))[k]
                    == sp[done@.len() + k],
        decreases s@.len() - i,
    {
        let ghost rest_i = full.subrange(i as int, full.len() as int);
        let ghost rest_n = full.subrange(i + 1, full.len() as int);
        proof {
            assert(rest_i[0] == full[i as int]);
            assert(rest_i.subrange(1, rest_i.len() as int) =~= rest_n);
            lemma_split_len(rest_n);
            lemma_split_len(rest_i);
        }
        let c = s[i];
        if c == '/' {
            proof {
                assert(spec_split(rest_i) == seq![Seq::<char>::empty()] + spec_split(rest_n));
                assert(spec_split(rest_i)[0] == Seq::<char>::empty());
                assert(cur@ + Seq::<char>::empty() =~= cur@);
                assert(forall|k: int|
                    0 <= k < spec_split(rest_n).len() ==> #[trigger] spec_split(rest_n)[k]
                        == spec_split(rest_i)[k + 1]);
            }
            done.push(cur);
            cur = Vec::new();
            proof {
                assert(cur@ + spec_split(rest_n)[0] =~= spec_split(rest_n)[0]);
            }
        } else {
            proof {
                let rest = spec_split(rest_n);
                assert(spec_split(rest_i) == seq![seq![full[i as int]] + rest[0]] + rest.subrange(
                    1,
                    rest.len() as int,
                ));
                assert(spec_split(rest_i)[0] == seq![full[i as int]] + rest[0]);
                assert(forall|k: int|
                    1 <= k < rest.len() ==> #[trigger] rest[k] == spec_split(rest_i)[k]);
            }
            cur.push(c);
            proof {
                assert(cur@ + spec_split(rest_n)[0] =~= (cur@.subrange(0, cur@.len() - 1) + (seq![
                    full[i as int],
                ] + spec_split(rest_n)[0])));
                assert(cur@.subrange(0, cur@.len() - 1) + spec_split(rest_i)[0] == sp[done@.len() as int]);
            }
        }
        i = i + 1;
    }
    proof {
        let rest = full.subrange(full.len() as int, full.len() as int);
        assert(rest =~= Seq::<char>::empty());
        assert(spec_split(rest) == seq![Seq::<char>::empty()]);
        assert(cur@ + Seq::<char>::empty() =~= cur@);
    }
    done.push(cur);
    done
}

/// A piece whose every character may stand in a literal segment.
pub open spec fn is_valid_literal_piece(p: Seq<char>) -> bool {
    forall|i: int| 0 <= i < p.len() ==> is_literal_char(#[trigger] p[i])
}

/// A `{name}` piece: braces around a nonempty parameter name.
pub open spec fn is_valid_param_piece(p: Seq<char>) -> bool {
    &&& p.len() >= 3
    &&& p[0] == '{'
    &&& p[p.len() - 1] == '}'
    &&& forall|i: int| 1 <= i < p.len() - 1 ==> is_name_char(#[trigger] p[i])
}

/// A piece is read as a parameter exactly when it opens with `{`.
pub open spec fn is_param_piece(p: Seq<char>) -> bool {
    p.len() > 0 && p[0] == '{'
}

pub open spec fn is_valid_piece(p: Seq<char>) -> bool {
    if is_param_piece(p) {
        is_valid_param_piece(p)
    } else {
        is_valid_literal_piece(p)
    }
}

/// The segment a valid piece denotes.
pub open spec fn piece_shape(p: Seq<char>) -> SegShape {
    if is_param_piece(p) {
        SegShape::Param(p.subrange(1, p.len() - 1))
    } else {
        SegShape::Literal(p)
    }
}

/// A template source is valid when every piece between `/` separators is
/// either legal literal text or a braced parameter name.
pub open spec fn template_valid(s: Seq<char>) -> bool {
    forall|k: int| 0 <= k < spec_split(s).len() ==> is_valid_piece(#[trigger] spec_split(s)[k])
}

/// The segments a valid template source denotes.
pub open spec fn spec_segments(s: Seq<char>) -> Seq<SegShape> {
    spec_split(s).map_values(|p: Seq<char>| piece_shape(p))
}

/// How many of the segments are parameters.
pub open spec fn spec_count_params(segs: Seq<SegShape>) -> int
    decreases segs.len(),
{
    if segs.len() == 0 {
        0
    } else {
        spec_count_params(segs.drop_last()) + (if segs.last() is Param {
            1int
        } else {
            0int
        })
    }
}

/// Sum of the positions at which `{` occurs in a template source; the
/// second component of the specificity key.
pub open spec fn spec_brace_offset_sum(s: Seq<char>) -> int
    decreases s.len(),
{
    if s.len() == 0 {
        0
    } else {
        spec_brace_offset_sum(s.drop_last()) + (if s.last() == '{' {
            s.len() - 1
        } else {
            0int
        })
    }
}

pub proof fn lemma_count_params_bounds(segs: Seq<SegShape>)
    ensures
        0 <= spec_count_params(segs) <= segs.len(),
    decreases segs.len(),
{
    if segs.len() > 0 {
        lemma_count_params_bounds(segs.drop_last());
    }
}

pub proof fn lemma_brace_offset_sum_bounds(s: Seq<char>)
    ensures
        0 <= spec_brace_offset_sum(s) <= s.len() * s.len(),
    decreases s.len(),
{
    if s.len() > 0 {
        let l = s.len() as int;
        lemma_brace_offset_sum_bounds(s.drop_last());
        assert((l - 1) * (l - 1) + (l - 1) <= l * l) by (nonlinear_arith)
            requires
                l >= 1,
        ;
    }
}

/// Fails when a route definition holds a character that is legal neither
/// in literal text nor as a braced parameter name.
#[derive(Clone, Copy, Debug, PartialEq, Eq, Structural)]
pub enum TemplateError {
    InvalidTemplate,
}

/// An immutable parsed route template.
pub struct PathTemplate {
    source: Vec<char>,
    segments: Vec<Segment>,
    param_count: usize,
    offset_sum: u128,
}

impl View for PathTemplate {
    type V = Seq<char>;

    closed spec fn view(&self) -> Seq<char> {
        self.source@
    }
}

impl PathTemplate {
    /// The fields agree with the parse of the source string; established
    /// by `parse`, the one constructor, and kept for the template's
    /// lifetime.
    #[verifier::type_invariant]
    pub closed spec fn wf(&self) -> bool {
        &&& template_valid(self.source@)
        &&& self.segments@.len() == spec_segments(self.source@).len()
        &&& forall|k: int|
            0 <= k < self.segments@.len() ==> #[trigger] self.segments@[k]@ == spec_segments(
                self.source@,
            )[k]
        &&& self.param_count as int == spec_count_params(spec_segments(self.source@))
        &&& self.offset_sum as int == spec_brace_offset_sum(self.source@)
    }

    /// Number of `{name}` segments; a template with none is static.
    pub fn param_count(&self) -> (n: usize)
        ensures
            n as int == spec_count_params(spec_segments(self@)),
    {
        proof {
            use_type_invariant(&*self);
        }
        self.param_count
    }

    /// The specificity key: parameter count plus the summed positions of
    /// the opening braces in the source.
    pub fn specificity_key(&self) -> (k: u128)
        ensures
            k as int == spec_count_params(spec_segments(self@)) + spec_brace_offset_sum(self@),
    {
        let srclen = self.source.len();
        proof {
            use_type_invariant(&*self);
            lemma_count_params_bounds(spec_segments(self.source@));
            lemma_brace_offset_sum_bounds(self.source@);
            lemma_split_len(self.source@);
            let l = srclen as int;
            assert(spec_segments(self.source@).len() == spec_split(self.source@).len());
            assert(spec_split(self.source@).len() <= l + 1) by {
                lemma_split_count(self.source@);
            }
            assert((l + 1) + l * l < u128::MAX) by (nonlinear_arith)
                requires
                    0 <= l < 0x1_0000_0000_0000_0000,
            ;
        }
        (self.param_count as u128) + self.offset_sum
    }

    /// Parses a route definition string. Every piece between `/`
    /// separators must be legal literal text or `{name}`; any other
    /// content is rejected as `InvalidTemplate`.
    pub fn parse(src: &str) -> (r: Result<PathTemplate, TemplateError>)
        ensures
            r matches Ok(t) ==> t@ == src@ && template_valid(src@),
            r is Err ==> !template_valid(src@) && r == Err::<PathTemplate, TemplateError>(
                TemplateError::InvalidTemplate,
            ),
    {
        let chars = to_chars(src);
        let pieces = split_chars(&chars);
        let ghost sp = spec_split(chars@);
        let mut segments: Vec<Segment> = Vec::new();
        let mut count: usize = 0;
        let mut k: usize = 0;
        proof {
            assert(spec_segments(chars@).subrange(0, 0) =~= Seq::<SegShape>::empty());
        }
        while k < pieces.len()
            invariant
                k <= pieces@.len(),
                pieces@.len() == sp.len(),
                sp == spec_split(chars@),
                forall|j: int| 0 <= j < pieces@.len() ==> #[trigger] pieces@[j]@ == sp[j],
                forall|j: int| 0 <= j < k ==> is_valid_piece(#[trigger] sp[j]),
                segments@.len() == k,
                forall|j: int|
                    0 <= j < k ==> #[trigger] segments@[j]@ == spec_segments(chars@)[j],
                count as int == spec_count_params(spec_segments(chars@).subrange(0, k as int)),
                count <= k,
            decreases pieces@.len() - k,
        {
            let ghost pre = spec_segments(chars@).subrange(0, k as int);
            let piece = &pieces[k];
            let plen = piece.len();
            if plen > 0 && piece[0] == '{' {
                if plen < 3 || piece[plen - 1] != '}' {
                    proof {
                        assert(!is_valid_piece(sp[k as int]));
                    }
                    return Err(TemplateError::InvalidTemplate);
                }
                let mut j: usize = 1;
                while j < plen - 1
                    invariant
                        1 <= j <= plen - 1,
                        plen == piece@.len(),
                        piece@ == sp[k as int],
                        sp == spec_split(chars@),
                        0 <= k < sp.len(),
                        forall|i: int| 1 <= i < j ==> is_name_char(#[trigger] piece@[i]),
                    decreases plen - j,
                {
                    if !name_char(piece[j]) {
                        proof {
                            assert(!is_valid_param_piece(sp[k as int]));
                            assert(!is_valid_piece(sp[k as int]));
                        }
                        return Err(TemplateError::InvalidTemplate);
                    }
                    j = j + 1;
                }
                let name = copy_range(piece, 1, plen - 1);
                segments.push(Segment::Param(name));
                count = count + 1;
                proof {
                    assert(is_valid_param_piece(sp[k as int]));
                    assert(spec_segments(chars@)[k as int] == piece_shape(sp[k as int]));
                }
            } else {
                let mut j: usize = 0;
                while j < plen
                    invariant
                        j <= plen,
                        plen == piece@.len(),
                        piece@ == sp[k as int],
                        sp == spec_split(chars@),
                        0 <= k < sp.len(),
                        !is_param_piece(piece@),
                        forall|i: int| 0 <= i < j ==> is_literal_char(#[trigger] piece@[i]),
                    decreases plen - j,
                {
                    if !name_char(piece[j]) {
                        proof {
                            assert(!is_valid_literal_piece(sp[k as int]));
                            assert(!is_valid_piece(sp[k as int]));
                        }
                        return Err(TemplateError::InvalidTemplate);
                    }
                    j = j + 1;
                }
                let text = copy_range(piece, 0, plen);
                segments.push(Segment::Literal(text));
                proof {
                    assert(piece@.subrange(0, plen as int) =~= piece@);
                    assert(spec_segments(chars@)[k as int] == piece_shape(sp[k as int]));
                }
            }
            k = k + 1;
            proof {
                let full = spec_segments(chars@);
                assert(full.subrange(0, k as int).drop_last() =~= pre);
                assert(full.subrange(0, k as int).last() == full[k - 1]);
            }
        }
        let ghost full = spec_segments(chars@);
        proof {
            assert(full.subrange(0, full.len() as int) =~= full);
        }
        let offset_sum = brace_offset_sum(&chars);
        Ok(PathTemplate { source: chars, segments, param_count: count, offset_sum })
    }
}

/// The split of a sequence has at most one piece more than the sequence
/// has characters.
pub proof fn lemma_split_count(s: Seq<char>)
    ensures
        spec_split(s).len() <= s.len() + 1,
    decreases s.len(),
{
    if s.len() > 0 {
        lemma_split_count(s.subrange(1, s.len() as int));
    }
}

/// Matches segments against path pieces, consuming both from the back.
/// `None` on any length or literal mismatch; otherwise the bindings in
/// template order.
pub open spec fn spec_match_pieces(segs: Seq<SegShape>, pieces: Seq<Seq<char>>) -> Option<
    Seq<(Seq<char>, Seq<char>)>,
>
    decreases segs.len(),
{
    if segs.len() != pieces.len() {
        None
    } else if segs.len() == 0 {
        Some(Seq::empty())
    } else {
        let rest = spec_match_pieces(segs.drop_last(), pieces.drop_last());
        match segs.last() {
            SegShape::Literal(t) => if t == pieces.last() {
                rest
            } else {
                None
            },
            SegShape::Param(n) => match rest {
                Some(bs) => Some(bs.push((n, pieces.last()))),
                None => None,
            },
        }
    }
}

/// What matching a template source against a concrete path yields.
pub open spec fn spec_matches(t: Seq<char>, p: Seq<char>) -> Option<Seq<(Seq<char>, Seq<char>)>> {
    spec_match_pieces(spec_segments(t), spec_split(p))
}

/// One extracted path parameter.
pub struct Binding {
    pub name: Vec<char>,
    pub value: Vec<char>,
}

impl View for Binding {
    type V = (Seq<char>, Seq<char>);

    open spec fn view(&self) -> (Seq<char>, Seq<char>) {
        (self.name@, self.value@)
    }
}

/// The parameter bindings of a successful match, in template order, with
/// names unique by construction.
pub struct ParamMap {
    bindings: Vec<Binding>,
}

impl View for ParamMap {
    type V = Seq<(Seq<char>, Seq<char>)>;

    closed spec fn view(&self) -> Seq<(Seq<char>, Seq<char>)> {
        Seq::new(self.bindings@.len(), |i: int| self.bindings@[i]@)
    }
}

/// First value bound under the given name, scanning in template order.
pub open spec fn spec_lookup(bs: Seq<(Seq<char>, Seq<char>)>, name: Seq<char>) -> Option<Seq<char>>
    decreases bs.len(),
{
    if bs.len() == 0 {
        None
    } else if bs[0].0 == name {
        Some(bs[0].1)
    } else {
        spec_lookup(bs.drop_first(), name)
    }
}

impl ParamMap {
    /// A map with no bindings, for requests no template matched.
    pub fn empty() -> (m: ParamMap)
        ensures
            m@ == Seq::<(Seq<char>, Seq<char>)>::empty(),
    {
        let m = ParamMap { bindings: Vec::new() };
        proof {
            assert(m@ =~= Seq::<(Seq<char>, Seq<char>)>::empty());
        }
        m
    }

    /// Number of bound parameters.
    pub fn len(&self) -> (n: usize)
        ensures
            n == self@.len(),
    {
        self.bindings.len()
    }

    /// Name of the `i`-th binding, in template order.
    pub fn name_at(&self, i: usize) -> (r: &Vec<char>)
        requires
            i < self@.len(),
        ensures
            r@ == self@[i as int].0,
    {
        &self.bindings[i].name
    }

    /// Value of the `i`-th binding, in template order.
    pub fn value_at(&self, i: usize) -> (r: &Vec<char>)
        requires
            i < self@.len(),
        ensures
            r@ == self@[i as int].1,
    {
        &self.bindings[i].value
    }

    /// Looks a parameter up by name.
    pub fn value_of(&self, name: &str) -> (r: Option<&Vec<char>>)
        ensures
            match r {
                Some(v) => spec_lookup(self@, name@) == Some(v@),
                None => spec_lookup(self@, name@) is None,
            },
    {
        let n = to_chars(name);
        let mut i: usize = 0;
        proof {
            assert(self@.subrange(0, self@.len() as int) =~= self@);
        }
        while i < self.bindings.len()
            invariant
                i <= self.bindings@.len(),
                n@ == name@,
                spec_lookup(self@, name@) == spec_lookup(
                    self@.subrange(i as int, self@.len() as int),
                    name@,
                ),
            decreases self.bindings@.len() - i,
        {
            let ghost rest = self@.subrange(i as int, self@.len() as int);
            proof {
                assert(rest[0] == self@[i as int]);
                assert(rest.drop_first() =~= self@.subrange(i + 1, self@.len() as int));
            }
            if chars_eq(&self.bindings[i].name, &n) {
                return Some(&self.bindings[i].value);
            }
            i = i + 1;
        }
        proof {
            assert(self@.subrange(self@.len() as int, self@.len() as int)
                =~= Seq::<(Seq<char>, Seq<char>)>::empty());
        }
        None
    }
}

/// If matching already failed on a prefix of the segments and pieces, it
/// fails on the whole.
proof fn lemma_match_prefix_none(segs: Seq<SegShape>, pieces: Seq<Seq<char>>, k: int)
    requires
        segs.len() == pieces.len(),
        0 <= k <= segs.len(),
        spec_match_pieces(segs.subrange(0, k), pieces.subrange(0, k)) is None,
    ensures
        spec_match_pieces(segs, pieces) is None,
    decreases segs.len() - k,
{
    if k == segs.len() {
        assert(segs.subrange(0, k) =~= segs);
        assert(pieces.subrange(0, k) =~= pieces);
    } else {
        assert(segs.subrange(0, k + 1).drop_last() =~= segs.subrange(0, k));
        assert(pieces.subrange(0, k + 1).drop_last() =~= pieces.subrange(0, k));
        assert(spec_match_pieces(segs.subrange(0, k + 1), pieces.subrange(0, k + 1)) is None);
        lemma_match_prefix_none(segs, pieces, k + 1);
    }
}

impl PathTemplate {
    /// Matches a concrete request path against this template. `Some`
    /// exactly when the path has as many pieces as the template and every
    /// literal piece agrees; the bindings pair each parameter name with
    /// the path piece in its position, in template order.
    pub fn matches(&self, path: &str) -> (r: Option<ParamMap>)
        ensures
            match r {
                Some(m) => spec_matches(self@, path@) == Some(m@),
                None => spec_matches(self@, path@) is None,
            },
    {
        proof {
            use_type_invariant(&*self);
        }
        let pchars = to_chars(path);
        let pieces = split_chars(&pchars);
        let ghost segs = spec_segments(self@);
        let ghost sp = spec_split(path@);
        if pieces.len() != self.segments.len() {
            return None;
        }
        let mut binds: Vec<Binding> = Vec::new();
        let mut k: usize = 0;
        proof {
            assert(segs.subrange(0, 0) =~= Seq::<SegShape>::empty());
            assert(sp.subrange(0, 0) =~= Seq::<Seq<char>>::empty());
        }
        while k < self.segments.len()
            invariant
                k <= self.segments@.len(),
                spec_match_pieces(segs.subrange(0, k as int), sp.subrange(0, k as int)) == Some(
                    Seq::new(binds@.len(), |i: int| binds@[i]@),
                ),
            decreases self.segments@.len() - k,
        {
            let ghost pre = Seq::new(binds@.len(), |i: int| binds@[i]@);
            proof {
                assert(segs.subrange(0, k + 1).drop_last() =~= segs.subrange(0, k as int));
                assert(sp.subrange(0, k + 1).drop_last() =~= sp.subrange(0, k as int));
                assert(segs.subrange(0, k + 1).last() == segs[k as int]);
                assert(sp.subrange(0, k + 1).last() == sp[k as int]);
                assert(self.segments@[k as int]@ == segs[k as int]);
            }
            match &self.segments[k] {
                Segment::Literal(t) => {
                    if !chars_eq(t, &pieces[k]) {
                        proof {
                            assert(spec_match_pieces(
                                segs.subrange(0, k + 1),
                                sp.subrange(0, k + 1),
                            ) is None);
                            lemma_match_prefix_none(segs, sp, k + 1);
                        }
                        return None;
                    }
                },
                Segment::Param(n) => {
                    let name = copy_range(n, 0, n.len());
                    let value = copy_range(&pieces[k], 0, pieces[k].len());
                    proof {
                        assert(name@ =~= n@);
                        assert(value@ =~= pieces@[k as int]@);
                    }
                    binds.push(Binding { name, value });
                    proof {
                        assert(Seq::new(binds@.len(), |i: int| binds@[i]@) =~= pre.push(
                            (segs[k as int]->Param_0, sp[k as int]),
                        ));
                    }
                },
            }
            k = k + 1;
        }
        proof {
            assert(segs.subrange(0, segs.len() as int) =~= segs);
            assert(sp.subrange(0, sp.len() as int) =~= sp);
        }
        let m = ParamMap { bindings: binds };
        Some(m)
    }
}

/// The parameter names of a segment sequence, in order.
pub open spec fn spec_param_names(segs: Seq<SegShape>) -> Seq<Seq<char>>
    decreases segs.len(),
{
    if segs.len() == 0 {
        Seq::empty()
    } else {
        spec_param_names(segs.drop_last()) + (match segs.last() {
            SegShape::Param(n) => seq![n],
            SegShape::Literal(_) => Seq::<Seq<char>>::empty(),
        })
    }
}

/// Parameter names and counts distribute over concatenation of the
/// segment sequence at any cut point.
pub proof fn lemma_params_decompose(segs: Seq<SegShape>, k: int)
    requires
        0 <= k <= segs.len(),
    ensures
        spec_param_names(segs) == spec_param_names(segs.subrange(0, k)) + spec_param_names(
            segs.subrange(k, segs.len() as int),
        ),
        spec_count_params(segs) == spec_count_params(segs.subrange(0, k)) + spec_count_params(
            segs.subrange(k, segs.len() as int),
        ),
    decreases segs.len(),
{
    if k == segs.len() {
        assert(segs.subrange(0, k) =~= segs);
        assert(segs.subrange(k, segs.len() as int) =~= Seq::<SegShape>::empty());
        assert(spec_param_names(segs) =~= spec_param_names(segs) + Seq::<Seq<char>>::empty());
    } else {
        let front = segs.drop_last();
        lemma_params_decompose(front, k);
        assert(front.subrange(0, k) =~= segs.subrange(0, k));
        assert(segs.subrange(k, segs.len() as int).drop_last() =~= front.subrange(
            k,
            front.len() as int,
        ));
        assert(segs.subrange(k, segs.len() as int).last() == segs.last());
        assert(spec_param_names(segs) =~= spec_param_names(segs.subrange(0, k))
            + spec_param_names(segs.subrange(k, segs.len() as int)));
    }
}

/// Substitutes values back into the segments: literals keep their text,
/// the `j`-th parameter takes the `j`-th binding's value, provided the
/// names line up and the binding count is exact.
pub open spec fn spec_render_pieces(
    segs: Seq<SegShape>,
    bs: Seq<(Seq<char>, Seq<char>)>,
) -> Option<Seq<Seq<char>>>
    decreases segs.len(),
{
    if segs.len() == 0 {
        if bs.len() == 0 {
            Some(Seq::empty())
        } else {
            None
        }
    } else {
        match segs.last() {
            SegShape::Literal(t) => match spec_render_pieces(segs.drop_last(), bs) {
                Some(ps) => Some(ps.push(t)),
                None => None,
            },
            SegShape::Param(n) => if bs.len() > 0 && bs.last().0 == n {
                match spec_render_pieces(segs.drop_last(), bs.drop_last()) {
                    Some(ps) => Some(ps.push(bs.last().1)),
                    None => None,
                }
            } else {
                None
            },
        }
    }
}

/// The path a template yields under the given bindings.
pub open spec fn spec_render(t: Seq<char>, bs: Seq<(Seq<char>, Seq<char>)>) -> Option<Seq<char>> {
    match spec_render_pieces(spec_segments(t), bs) {
        Some(ps) => Some(spec_join(ps)),
        None => None,
    }
}

/// Rendering succeeds exactly when the bindings carry the template's
/// parameter names, one each, in template order.
pub proof fn lemma_render_defined(segs: Seq<SegShape>, bs: Seq<(Seq<char>, Seq<char>)>)
    ensures
        spec_render_pieces(segs, bs) is Some <==> bs.map_values(
            |b: (Seq<char>, Seq<char>)| b.0,
        ) == spec_param_names(segs),
    decreases segs.len(),
{
    let names = spec_param_names(segs);
    let bnames = bs.map_values(|b: (Seq<char>, Seq<char>)| b.0);
    if segs.len() == 0 {
        if bs.len() == 0 {
            assert(bnames =~= names);
        } else {
            assert(bnames.len() != names.len());
        }
    } else {
        match segs.last() {
            SegShape::Literal(t) => {
                lemma_render_defined(segs.drop_last(), bs);
                assert(names =~= spec_param_names(segs.drop_last()));
            },
            SegShape::Param(n) => {
                let front_names = spec_param_names(segs.drop_last());
                assert(names == front_names + seq![n]);
                if bs.len() > 0 && bs.last().0 == n {
                    lemma_render_defined(segs.drop_last(), bs.drop_last());
                    let fnames = bs.drop_last().map_values(|b: (Seq<char>, Seq<char>)| b.0);
                    assert(fnames =~= bnames.drop_last());
                    if spec_render_pieces(segs.drop_last(), bs.drop_last()) is Some {
                        assert(bnames =~= fnames + seq![n]);
                        assert(bnames == names);
                    } else {
                        assert(fnames != front_names);
                        if bnames == names {
                            assert(bnames.drop_last() =~= front_names);
                            assert(false);
                        }
                    }
                } else {
                    if bnames == names {
                        assert(bnames.len() == names.len());
                        assert(bs.len() == names.len());
                        assert(names.len() > 0);
                        assert(bnames.last() == names.last());
                        assert(bs.last().0 == n);
                        assert(false);
                    }
                }
            },
        }
    }
}

/// A successful match yields bindings under which the template renders
/// back to exactly the matched pieces.
proof fn lemma_render_pieces_inverse(segs: Seq<SegShape>, pieces: Seq<Seq<char>>)
    ensures
        spec_match_pieces(segs, pieces) matches Some(bs) ==> spec_render_pieces(segs, bs) == Some(
            pieces,
        ),
    decreases segs.len(),
{
    if spec_match_pieces(segs, pieces) is Some {
        let bs = spec_match_pieces(segs, pieces)->Some_0;
        if segs.len() == 0 {
            assert(pieces =~= Seq::<Seq<char>>::empty());
            assert(spec_render_pieces(segs, bs) == Some(pieces));
        } else {
            lemma_render_pieces_inverse(segs.drop_last(), pieces.drop_last());
            match segs.last() {
                SegShape::Literal(t) => {
                    assert(spec_render_pieces(segs, bs) == Some(
                        pieces.drop_last().push(pieces.last()),
                    ));
                    assert(pieces.drop_last().push(pieces.last()) =~= pieces);
                },
                SegShape::Param(n) => {
                    let rest = spec_match_pieces(segs.drop_last(), pieces.drop_last());
                    let rbs = rest->Some_0;
                    assert(bs == rbs.push((n, pieces.last())));
                    assert(bs.drop_last() =~= rbs);
                    assert(bs.last() == (n, pieces.last()));
                    assert(spec_render_pieces(segs, bs) == Some(
                        pieces.drop_last().push(pieces.last()),
                    ));
                    assert(pieces.drop_last().push(pieces.last()) =~= pieces);
                },
            }
        }
    }
}

/// Law: extraction round-trips. Whenever a path matches a template,
/// substituting the extracted bindings back into the template reproduces
/// the original concrete path.
pub proof fn lemma_match_round_trip(t: Seq<char>, p: Seq<char>)
    ensures
        spec_matches(t, p) matches Some(bs) ==> spec_render(t, bs) == Some(p),
{
    if spec_matches(t, p) is Some {
        lemma_render_pieces_inverse(spec_segments(t), spec_split(p));
        lemma_join_split(p);
    }
}

impl PathTemplate {
    /// Substitutes parameter values into the template. `Some` exactly
    /// when the map carries the template's parameter names in template
    /// order, one value each.
    pub fn render(&self, params: &ParamMap) -> (r: Option<Vec<char>>)
        ensures
            match r {
                Some(v) => spec_render(self@, params@) == Some(v@),
                None => spec_render(self@, params@) is None,
            },
    {
        let ghost segs = spec_segments(self@);
        let ghost bs = params@;
        proof {
            use_type_invariant(&*self);
            lemma_render_defined(segs, bs);
            lemma_params_decompose(segs, 0);
            assert(segs.subrange(0, 0) =~= Seq::<SegShape>::empty());
            assert(segs.subrange(0, segs.len() as int) =~= segs);
        }
        if params.bindings.len() != self.param_count {
            proof {
                lemma_count_names_agree(segs);
                assert(bs.map_values(|b: (Seq<char>, Seq<char>)| b.0).len() == bs.len());
                assert(params@.len() == params.bindings@.len());
            }
            return None;
        }
        let mut out: Vec<char> = Vec::new();
        let mut bk: usize = 0;
        let mut k: usize = 0;
        // First pass: the names must line up with the template's
        // parameters, or rendering is undefined.
        while k < self.segments.len()
            invariant
                k <= self.segments@.len(),
                bk <= params@.len(),
                bk as int == spec_count_params(segs.subrange(0, k as int)),
                params@.subrange(0, bk as int).map_values(|b: (Seq<char>, Seq<char>)| b.0)
                    =~= spec_param_names(segs.subrange(0, k as int)),
            decreases self.segments@.len() - k,
        {
            proof {
                assert(self.segments@[k as int]@ == segs[k as int]);
                lemma_single_param(segs, k as int);
                lemma_count_params_bounds(segs.subrange(k + 1, segs.len() as int));
                lemma_params_decompose(segs, k + 1);
                lemma_count_names_agree(segs);
            }
            match &self.segments[k] {
                Segment::Literal(_) => {
                    proof {
                        assert(spec_param_names(segs.subrange(0, k + 1)) =~= spec_param_names(
                            segs.subrange(0, k as int),
                        ));
                    }
                },
                Segment::Param(n) => {
                    proof {
                        assert(bk < params@.len());
                    }
                    if !chars_eq(n, params.name_at(bk)) {
                        proof {
                            let names = spec_param_names(segs);
                            let bnames = bs.map_values(|b: (Seq<char>, Seq<char>)| b.0);
                            assert(names[bk as int] == n@);
                            assert(bnames[bk as int] == bs[bk as int].0);
                            assert(bnames != names);
                        }
                        return None;
                    }
                    proof {
                        assert(spec_param_names(segs.subrange(0, k + 1)) =~= spec_param_names(
                            segs.subrange(0, k as int),
                        ).push(n@));
                        assert(params@.subrange(0, bk + 1).map_values(
                            |b: (Seq<char>, Seq<char>)| b.0,
                        ) =~= params@.subrange(0, bk as int).map_values(
                            |b: (Seq<char>, Seq<char>)| b.0,
                        ).push(params@[bk as int].0));
                    }
                    bk = bk + 1;
                },
            }
            k = k + 1;
        }
        proof {
            let names = spec_param_names(segs);
            let bnames = bs.map_values(|b: (Seq<char>, Seq<char>)| b.0);
            lemma_count_names_agree(segs);
            assert(params@.subrange(0, bk as int) =~= params@);
            assert(bnames == names);
        }
        // Second pass: build the pieces and join them with separators.
        let ghost ps = spec_render_pieces(segs, bs)->Some_0;
        proof {
            lemma_render_prefix(segs, bs, segs.len() as int);
        }
        let mut k: usize = 0;
        let mut bk: usize = 0;
        while k < self.segments.len()
            invariant
                k <= self.segments@.len(),
                bk <= params@.len(),
                bk as int == spec_count_params(segs.subrange(0, k as int)),
                spec_render_pieces(segs, bs) is Some,
                spec_render_pieces(segs.subrange(0, k as int), bs.subrange(0, bk as int))
                    == Some(ps.subrange(0, k as int)),
                out@ =~= spec_join(ps.subrange(0, k as int)),
                k > 0 ==> ps.subrange(0, k as int).len() > 0,
            decreases self.segments@.len() - k,
        {
            proof {
                assert(self.segments@[k as int]@ == segs[k as int]);
                lemma_single_param(segs, k as int);
                lemma_count_params_bounds(segs.subrange(k + 1, segs.len() as int));
                lemma_params_decompose(segs, k + 1);
                lemma_render_prefix(segs, bs, k + 1);
                assert(segs.subrange(0, k + 1).drop_last() =~= segs.subrange(0, k as int));
                assert(segs.subrange(0, k + 1).last() == segs[k as int]);
            }
            if k > 0 {
                out.push('/');
            }
            let piece: &Vec<char>;
            match &self.segments[k] {
                Segment::Literal(t) => {
                    piece = t;
                    proof {
                        assert(bs.subrange(0, bk as int) =~= bs.subrange(0, bk as int));
                        assert(spec_render_pieces(
                            segs.subrange(0, k + 1),
                            bs.subrange(0, bk as int),
                        ) == Some(ps.subrange(0, k as int).push(t@)));
                    }
                },
                Segment::Param(_) => {
                    proof {
                        assert(bk < params@.len());
                        assert(bs.subrange(0, bk + 1).drop_last() =~= bs.subrange(0, bk as int));
                        assert(bs.subrange(0, bk + 1).last() == bs[bk as int]);
                    }
                    piece = params.value_at(bk);
                    bk = bk + 1;
                },
            }
            let mut j: usize = 0;
            while j < piece.len()
                invariant
                    j <= piece@.len(),
                    out@ =~= spec_join(ps.subrange(0, k as int)) + (if k > 0 {
                        seq!['/']
                    } else {
                        Seq::<char>::empty()
                    }) + piece@.subrange(0, j as int),
                decreases piece@.len() - j,
            {
                out.push(piece[j]);
                j = j + 1;
                proof {
                    assert(piece@.subrange(0, j as int) =~= piece@.subrange(0, j - 1).push(
                        piece@[j - 1],
                    ));
                }
            }
            proof {
                assert(piece@.subrange(0, piece@.len() as int) =~= piece@);
                assert(ps.subrange(0, k + 1).drop_last() =~= ps.subrange(0, k as int));
                assert(ps.subrange(0, k + 1).last() == ps[k as int]);
                assert(ps[k as int] == piece@);
                if k > 0 {
                    lemma_join_snoc(ps.subrange(0, k + 1));
                } else {
                    assert(ps.subrange(0, 1).len() == 1);
                    assert(spec_join(ps.subrange(0, 1)) == ps[0]);
                    assert(spec_join(ps.subrange(0, 0)) == Seq::<char>::empty());
                    assert(out@ =~= spec_join(ps.subrange(0, 1)));
                }
            }
            k = k + 1;
        }
        proof {
            assert(segs.subrange(0, segs.len() as int) =~= segs);
            assert(bs.subrange(0, bk as int) =~= bs);
            assert(ps.subrange(0, ps.len() as int) =~= ps);
            if self.segments@.len() > 0 {
                assert(ps.subrange(0, segs.len() as int) =~= ps);
            } else {
                assert(ps =~= Seq::<Seq<char>>::empty());
            }
        }
        Some(out)
    }
}

/// Joining pieces with one more piece appends a separator and the piece,
/// when there was at least one piece before.
proof fn lemma_join_snoc(ps: Seq<Seq<char>>)
    requires
        ps.len() >= 2,
    ensures
        spec_join(ps) == spec_join(ps.drop_last()) + seq!['/'] + ps.last(),
    decreases ps.len(),
{
    if ps.len() == 2 {
        assert(ps.subrange(1, 2).len() == 1);
        assert(spec_join(ps.subrange(1, 2)) == ps[1]);
        assert(ps.drop_last().len() == 1);
        assert(spec_join(ps.drop_last()) == ps[0]);
        assert(spec_join(ps) =~= spec_join(ps.drop_last()) + seq!['/'] + ps.last());
    } else {
        let tail = ps.subrange(1, ps.len() as int);
        lemma_join_snoc(tail);
        assert(tail.drop_last() =~= ps.drop_last().subrange(1, ps.len() - 1));
        assert(tail.last() == ps.last());
        assert(spec_join(ps.drop_last()) == ps[0] + seq!['/'] + spec_join(
            ps.drop_last().subrange(1, ps.len() - 1),
        ));
        assert(spec_join(ps) =~= spec_join(ps.drop_last()) + seq!['/'] + ps.last());
    }
}

/// A template has as many parameter names as parameters.
proof fn lemma_count_names_agree(segs: Seq<SegShape>)
    ensures
        spec_param_names(segs).len() == spec_count_params(segs),
    decreases segs.len(),
{
    if segs.len() > 0 {
        lemma_count_names_agree(segs.drop_last());
    }
}

/// The one-segment subrange at `k` contributes exactly segment `k`'s
/// name and count.
proof fn lemma_single_param(segs: Seq<SegShape>, k: int)
    requires
        0 <= k < segs.len(),
    ensures
        spec_count_params(segs.subrange(k, k + 1)) == (if segs[k] is Param {
            1int
        } else {
            0int
        }),
        spec_param_names(segs.subrange(k, k + 1)) == (match segs[k] {
            SegShape::Param(n) => seq![n],
            SegShape::Literal(_) => Seq::<Seq<char>>::empty(),
        }),
        spec_count_params(segs.subrange(0, k + 1)) == spec_count_params(segs.subrange(0, k)) + (
        if segs[k] is Param {
            1int
        } else {
            0int
        }),
        spec_param_names(segs.subrange(0, k + 1)) == spec_param_names(segs.subrange(0, k)) + (
        match segs[k] {
            SegShape::Param(n) => seq![n],
            SegShape::Literal(_) => Seq::<Seq<char>>::empty(),
        }),
{
    let single = segs.subrange(k, k + 1);
    assert(single.len() == 1);
    assert(single.drop_last() =~= Seq::<SegShape>::empty());
    assert(single.last() == segs[k]);
    assert(spec_count_params(Seq::<SegShape>::empty()) == 0);
    assert(spec_param_names(Seq::<SegShape>::empty()) == Seq::<Seq<char>>::empty());
    assert(spec_param_names(single) =~= Seq::<Seq<char>>::empty() + (match segs[k] {
        SegShape::Param(n) => seq![n],
        SegShape::Literal(_) => Seq::<Seq<char>>::empty(),
    }));
    assert(spec_param_names(single) == (match segs[k] {
        SegShape::Param(n) => seq![n],
        SegShape::Literal(_) => Seq::<Seq<char>>::empty(),
    })) by {
        assert(Seq::<Seq<char>>::empty() + (match segs[k] {
            SegShape::Param(n) => seq![n],
            SegShape::Literal(_) => Seq::<Seq<char>>::empty(),
        }) =~= (match segs[k] {
            SegShape::Param(n) => seq![n],
            SegShape::Literal(_) => Seq::<Seq<char>>::empty(),
        }));
    }
    assert(segs.subrange(0, k + 1).drop_last() =~= segs.subrange(0, k));
    assert(segs.subrange(0, k + 1).last() == segs[k]);
    assert(spec_param_names(segs.subrange(0, k + 1)) == spec_param_names(segs.subrange(0, k)) + (
    match segs[k] {
        SegShape::Param(n) => seq![n],
        SegShape::Literal(_) => Seq::<Seq<char>>::empty(),
    }));
}

/// When rendering the whole is defined, rendering any prefix of the
/// segments with the corresponding prefix of the bindings is defined and
/// yields the prefix of the pieces.
proof fn lemma_render_prefix(segs: Seq<SegShape>, bs: Seq<(Seq<char>, Seq<char>)>, k: int)
    requires
        spec_render_pieces(segs, bs) is Some,
        0 <= k <= segs.len(),
    ensures
        spec_render_pieces(
            segs.subrange(0, k),
            bs.subrange(0, spec_count_params(segs.subrange(0, k))),
        ) == Some(spec_render_pieces(segs, bs)->Some_0.subrange(0, k)),
        spec_render_pieces(segs, bs)->Some_0.len() == segs.len(),
        spec_count_params(segs.subrange(0, k)) <= bs.len(),
    decreases segs.len(),
{
    let ps = spec_render_pieces(segs, bs)->Some_0;
    lemma_count_params_bounds(segs.subrange(0, k));
    if segs.len() == 0 {
        assert(segs.subrange(0, k) =~= segs);
        assert(bs.subrange(0, 0) =~= bs);
        assert(ps.subrange(0, 0) =~= ps);
    } else if k == segs.len() {
        lemma_render_defined(segs, bs);
        lemma_count_names_agree(segs);
        assert(bs.map_values(|b: (Seq<char>, Seq<char>)| b.0).len() == bs.len());
        assert(segs.subrange(0, k) =~= segs);
        assert(bs.subrange(0, bs.len() as int) =~= bs);
        match segs.last() {
            SegShape::Literal(t) => {
                lemma_render_prefix(segs.drop_last(), bs, segs.len() - 1);
                assert(ps =~= spec_render_pieces(segs.drop_last(), bs)->Some_0.push(t));
                assert(ps.subrange(0, k) =~= ps);
            },
            SegShape::Param(_) => {
                lemma_render_prefix(segs.drop_last(), bs.drop_last(), segs.len() - 1);
                assert(ps.subrange(0, k) =~= ps);
            },
        }
    } else {
        match segs.last() {
            SegShape::Literal(t) => {
                let front = spec_render_pieces(segs.drop_last(), bs)->Some_0;
                lemma_render_prefix(segs.drop_last(), bs, k);
                assert(segs.drop_last().subrange(0, k) =~= segs.subrange(0, k));
                assert(ps == front.push(t));
                assert(front.subrange(0, k) =~= ps.subrange(0, k));
            },
            SegShape::Param(_) => {
                let front = spec_render_pieces(segs.drop_last(), bs.drop_last())->Some_0;
                lemma_render_prefix(segs.drop_last(), bs.drop_last(), k);
                assert(segs.drop_last().subrange(0, k) =~= segs.subrange(0, k));
                assert(bs.drop_last().subrange(
                    0,
                    spec_count_params(segs.subrange(0, k)),
                ) =~= bs.subrange(0, spec_count_params(segs.subrange(0, k))));
                assert(front.subrange(0, k) =~= ps.subrange(0, k));
            },
        }
    }
}

/// Computes [`spec_brace_offset_sum`] of the given characters.
fn brace_offset_sum(chars: &Vec<char>) -> (sum: u128)
    ensures
        sum as int == spec_brace_offset_sum(chars@),
{
    let mut sum: u128 = 0;
    let mut i: usize = 0;
    proof {
        assert(chars@.subrange(0, 0) =~= Seq::<char>::empty());
    }
    while i < chars.len()
        invariant
            i <= chars@.len(),
            sum as int == spec_brace_offset_sum(chars@.subrange(0, i as int)),
        decreases chars@.len() - i,
    {
        proof {
            lemma_brace_offset_sum_bounds(chars@.subrange(0, i as int));
            let l = i as int;
            assert(l * l + l < u128::MAX) by (nonlinear_arith)
                requires
                    0 <= l < 0x1_0000_0000_0000_0000,
            ;
            assert(chars@.subrange(0, i + 1).drop_last() =~= chars@.subrange(0, i as int));
            assert(chars@.subrange(0, i + 1).last() == chars@[i as int]);
        }
        if chars[i] == '{' {
            sum = sum + (i as u128);
        }
        i = i + 1;
    }
    proof {
        assert(chars@.subrange(0, chars@.len() as int) =~= chars@);
    }
    sum
}

} // verus!
