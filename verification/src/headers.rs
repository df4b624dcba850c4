//! Content-encoding names: the token values of the `Content-Encoding`
//! header and an ordered list of them.

use vstd::prelude::*;

use crate::text::{chars_eq, to_chars};

verus! {

/// A single content-coding token.
#[derive(Clone, Copy, Debug, PartialEq, Eq, Structural)]
pub enum EncodingType {
    Gzip,
    Deflate,
    Compress,
    Identity,
    Br,
}

/// The header token that names an encoding.
pub open spec fn spec_encoding_name(e: EncodingType) -> Seq<char> {
    match e {
        EncodingType::Gzip => "gzip"@,
        EncodingType::Deflate => "deflate"@,
        EncodingType::Compress => "compress"@,
        EncodingType::Identity => "identity"@,
        EncodingType::Br => "br"@,
    }
}

/// The encoding a header token names, if any.
pub open spec fn spec_encoding_of(s: Seq<char>) -> Option<EncodingType> {
    if s == "gzip"@ {
        Some(EncodingType::Gzip)
    } else if s == "deflate"@ {
        Some(EncodingType::Deflate)
    } else if s == "compress"@ {
        Some(EncodingType::Compress)
    } else if s == "identity"@ {
        Some(EncodingType::Identity)
    } else if s == "br"@ {
        Some(EncodingType::Br)
    } else {
        None
    }
}

/// A header token that names no known encoding; the offending text is
/// kept.
#[derive(Debug)]
pub enum HeaderError {
    UnknownName(String),
}

/// Decides [`spec_encoding_of`] on a character vector.
fn encoding_of_chars(v: &Vec<char>) -> (r: Option<EncodingType>)
    ensures
        r == spec_encoding_of(v@),
{
    if chars_eq(v, &to_chars("gzip")) {
        Some(EncodingType::Gzip)
    } else if chars_eq(v, &to_chars("deflate")) {
        Some(EncodingType::Deflate)
    } else if chars_eq(v, &to_chars("compress")) {
        Some(EncodingType::Compress)
    } else if chars_eq(v, &to_chars("identity")) {
        Some(EncodingType::Identity)
    } else if chars_eq(v, &to_chars("br")) {
        Some(EncodingType::Br)
    } else {
        None
    }
}

impl EncodingType {
    /// Reads an encoding token; any other text is refused with the text
    /// kept in the error.
    pub fn from_name(s: &str) -> (r: Result<EncodingType, HeaderError>)
        ensures
            match r {
                Ok(e) => spec_encoding_of(s@) == Some(e),
                Err(he) => spec_encoding_of(s@) is None && (he matches HeaderError::UnknownName(t)
                    && t@ == s@),
            },
    {
        let v = to_chars(s);
        match encoding_of_chars(&v) {
            Some(e) => Ok(e),
            None => Err(HeaderError::UnknownName(s.to_owned())),
        }
    }

    /// The token this encoding writes into a header.
    pub fn name(self) -> (r: &'static str)
        ensures
            r@ == spec_encoding_name(self),
    {
        match self {
            EncodingType::Gzip => "gzip",
            EncodingType::Deflate => "deflate",
            EncodingType::Compress => "compress",
            EncodingType::Identity => "identity",
            EncodingType::Br => "br",
        }
    }
}

/// Law: encoding names round-trip. Reading back the token an encoding
/// writes yields that encoding.
pub proof fn lemma_encoding_name_round_trip(e: EncodingType)
    ensures
        spec_encoding_of(spec_encoding_name(e)) == Some(e),
{
    reveal_strlit("gzip");
    reveal_strlit("deflate");
    reveal_strlit("compress");
    reveal_strlit("identity");
    reveal_strlit("br");
    assert("gzip"@.len() == 4);
    assert("deflate"@.len() == 7);
    assert("compress"@.len() == 8);
    assert("identity"@.len() == 8);
    assert("br"@.len() == 2);
    assert("compress"@[0] == 'c');
    assert("identity"@[0] == 'i');
}

/// Splits header text on the exact separator `", "`. Splitting the
/// empty sequence gives one empty piece; a lone comma or a comma without
/// a following space stays inside its piece.
pub open spec fn spec_split_list(s: Seq<char>) -> Seq<Seq<char>>
    decreases s.len(),
{
    if s.len() == 0 {
        seq![Seq::<char>::empty()]
    } else if s.len() >= 2 && s[0] == ',' && s[1] == ' ' {
        seq![Seq::<char>::empty()] + spec_split_list(s.subrange(2, s.len() as int))
    } else {
        let rest = spec_split_list(s.subrange(1, s.len() as int));
        seq![seq![s[0]] + rest[0]] + rest.subrange(1, rest.len() as int)
    }
}

pub proof fn lemma_split_list_len(s: Seq<char>)
    ensures
        spec_split_list(s).len() >= 1,
    decreases s.len(),
{
    if s.len() == 0 {
    } else if s.len() >= 2 && s[0] == ',' && s[1] == ' ' {
        lemma_split_list_len(s.subrange(2, s.len() as int));
    } else {
        lemma_split_list_len(s.subrange(1, s.len() as int));
    }
}

/// The encodings a piece list names, when every piece is a known token.
pub open spec fn spec_encodings(pieces: Seq<Seq<char>>) -> Option<Seq<EncodingType>>
    decreases pieces.len(),
{
    if pieces.len() == 0 {
        Some(Seq::empty())
    } else {
        match spec_encoding_of(pieces[0]) {
            Some(e) => match spec_encodings(pieces.subrange(1, pieces.len() as int)) {
                Some(es) => Some(seq![e] + es),
                None => None,
            },
            None => None,
        }
    }
}

/// The first piece that is no known token.
pub open spec fn spec_first_unknown(pieces: Seq<Seq<char>>) -> Option<Seq<char>>
    decreases pieces.len(),
{
    if pieces.len() == 0 {
        None
    } else if spec_encoding_of(pieces[0]) is None {
        Some(pieces[0])
    } else {
        spec_first_unknown(pieces.subrange(1, pieces.len() as int))
    }
}

/// [`spec_encodings`] succeeds exactly when every piece is known, and
/// then maps the pieces one for one.
proof fn lemma_encodings_elementwise(pieces: Seq<Seq<char>>)
    ensures
        spec_encodings(pieces) is Some <==> (forall|j: int|
            0 <= j < pieces.len() ==> spec_encoding_of(#[trigger] pieces[j]) is Some),
        spec_encodings(pieces) matches Some(es) ==> es.len() == pieces.len() && forall|j: int|
            0 <= j < pieces.len() ==> Some(#[trigger] es[j]) == spec_encoding_of(pieces[j]),
    decreases pieces.len(),
{
    if pieces.len() > 0 {
        let tail = pieces.subrange(1, pieces.len() as int);
        lemma_encodings_elementwise(tail);
        assert(forall|j: int| 1 <= j < pieces.len() ==> #[trigger] pieces[j] == tail[j - 1]);
        if spec_encoding_of(pieces[0]) is Some && spec_encodings(tail) is Some {
            let es = spec_encodings(pieces)->Some_0;
            let ets = spec_encodings(tail)->Some_0;
            assert(es == seq![spec_encoding_of(pieces[0])->Some_0] + ets);
            assert(forall|j: int| 1 <= j < pieces.len() ==> #[trigger] es[j] == ets[j - 1]);
        }
    }
}

/// When every piece of a prefix is known, the remainder decides the
/// outcome and holds the first unknown piece, if any.
proof fn lemma_encodings_skip(pieces: Seq<Seq<char>>, k: int)
    requires
        0 <= k <= pieces.len(),
        forall|j: int| 0 <= j < k ==> spec_encoding_of(#[trigger] pieces[j]) is Some,
    ensures
        spec_first_unknown(pieces) == spec_first_unknown(
            pieces.subrange(k, pieces.len() as int),
        ),
    decreases k,
{
    if k == 0 {
        assert(pieces.subrange(0, pieces.len() as int) =~= pieces);
    } else {
        let tail = pieces.subrange(1, pieces.len() as int);
        assert(forall|j: int| 1 <= j < pieces.len() ==> #[trigger] pieces[j] == tail[j - 1]);
        lemma_encodings_skip(tail, k - 1);
        assert(tail.subrange(k - 1, tail.len() as int) =~= pieces.subrange(
            k,
            pieces.len() as int,
        ));
    }
}

/// The ordered encodings of a `Content-Encoding` header.
pub struct ContentEncoding {
    encoding_types: Vec<EncodingType>,
}

impl View for ContentEncoding {
    type V = Seq<EncodingType>;

    closed spec fn view(&self) -> Seq<EncodingType> {
        self.encoding_types@
    }
}

impl ContentEncoding {
    /// No encodings at all.
    pub fn empty() -> (r: ContentEncoding)
        ensures
            r@ == Seq::<EncodingType>::empty(),
    {
        let r = ContentEncoding { encoding_types: Vec::new() };
        proof {
            assert(r@ =~= Seq::<EncodingType>::empty());
        }
        r
    }

    /// How many encodings are listed.
    pub fn len(&self) -> (n: usize)
        ensures
            n == self@.len(),
    {
        self.encoding_types.len()
    }

    /// The encoding at a position.
    pub fn get(&self, i: usize) -> (e: EncodingType)
        requires
            i < self@.len(),
        ensures
            e == self@[i as int],
    {
        self.encoding_types[i]
    }

    /// Appends one encoding at the end.
    pub fn append(&mut self, et: EncodingType)
        ensures
            final(self)@ == old(self)@.push(et),
    {
        self.encoding_types.push(et)
    }

    /// Appends every encoding of `other`, in order, after this list's.
    pub fn merge(&mut self, other: ContentEncoding)
        ensures
            final(self)@ == old(self)@ + other@,
    {
        let ghost target = self.encoding_types@ + other.encoding_types@;
        let mut rest = other.encoding_types;
        proof {
            assert(self.encoding_types@ =~= target.subrange(
                0,
                target.len() - rest@.len(),
            ));
        }
        while rest.len() > 0
            invariant
                rest@.len() <= target.len(),
                self.encoding_types@ == target.subrange(0, target.len() - rest@.len()),
                forall|k: int|
                    0 <= k < rest@.len() ==> #[trigger] rest@[k] == target[target.len()
                        - rest@.len() + k],
            decreases rest@.len(),
        {
            let et = rest.remove(0);
            self.append(et);
            proof {
                assert(self.encoding_types@ =~= target.subrange(
                    0,
                    target.len() - rest@.len(),
                ));
            }
        }
        proof {
            assert(self.encoding_types@ =~= target);
        }
    }
}

/// Executable splitter on `", "`, proved equal to [`spec_split_list`]
/// piece by piece.
fn split_list(s: &Vec<char>) -> (r: Vec<Vec<char>>)
    ensures
        r@.len() == spec_split_list(s@).len(),
        forall|k: int| 0 <= k < r@.len() ==> #[trigger] r@[k]@ == spec_split_list(s@)[k],
{
    let ghost full = s@;
    let ghost sp = spec_split_list(full);
    let mut done: Vec<Vec<char>> = Vec::new();
    let mut cur: Vec<char> = Vec::new();
    let mut i: usize = 0;
    proof {
        assert(full.subrange(0, full.len() as int) =~= full);
    }
    while i < s.len()
        invariant
            i <= s@.len(),
            sp.len() == done@.len() + spec_split_list(
                full.subrange(i as int, full.len() as int),
            ).len(),
            forall|k: int| 0 <= k < done@.len() ==> #[trigger] done@[k]@ == sp[k],
            sp[done@.len() as int] == cur@ + spec_split_list(
                full.subrange(i as int, full.len() as int),
            )[0],
            forall|k: int|
                1 <= k < spec_split_list(full.subrange(i as int, full.len() as int)).len()
                    ==> #[trigger] spec_split_list(full.subrange(i as int, full.len() as int))[k]
                    == sp[done@.len() + k],
        decreases s@.len() - i,
    {
        let ghost rest_i = full.subrange(i as int, full.len() as int);
        let c = s[i];
        let boundary = c == ',' && i + 1 < s.len() && s[i + 1] == ' ';
        if boundary {
            let ghost rest_n = full.subrange(i + 2, full.len() as int);
            proof {
                assert(rest_i[0] == full[i as int]);
                assert(rest_i[1] == full[i + 1]);
                assert(rest_i.subrange(2, rest_i.len() as int) =~= rest_n);
                lemma_split_list_len(rest_n);
                assert(spec_split_list(rest_i) == seq![Seq::<char>::empty()] + spec_split_list(
                    rest_n,
                ));
                assert(spec_split_list(rest_i)[0] == Seq::<char>::empty());
                assert(cur@ + Seq::<char>::empty() =~= cur@);
                assert(forall|k: int|
                    0 <= k < spec_split_list(rest_n).len() ==> #[trigger] spec_split_list(rest_n)[k]
                        == spec_split_list(rest_i)[k + 1]);
            }
            done.push(cur);
            cur = Vec::new();
            proof {
                assert(cur@ + spec_split_list(rest_n)[0] =~= spec_split_list(rest_n)[0]);
            }
            i = i + 2;
        } else {
            let ghost rest_n = full.subrange(i + 1, full.len() as int);
            proof {
                assert(rest_i[0] == full[i as int]);
                assert(rest_i.subrange(1, rest_i.len() as int) =~= rest_n);
                lemma_split_list_len(rest_n);
                if rest_i.len() >= 2 {
                    assert(rest_i[1] == full[i + 1]);
                }
                let rest = spec_split_list(rest_n);
                assert(spec_split_list(rest_i) == seq![seq![full[i as int]] + rest[0]]
                    + rest.subrange(1, rest.len() as int));
                assert(spec_split_list(rest_i)[0] == seq![full[i as int]] + rest[0]);
                assert(forall|k: int|
                    1 <= k < rest.len() ==> #[trigger] rest[k] == spec_split_list(rest_i)[k]);
            }
            cur.push(c);
            proof {
                assert(cur@ + spec_split_list(rest_n)[0] =~= (cur@.subrange(0, cur@.len() - 1) + (
                seq![full[i as int]] + spec_split_list(rest_n)[0])));
                assert(cur@.subrange(0, cur@.len() - 1) + spec_split_list(rest_i)[0] == sp[done@.len() as int]);
            }
            i = i + 1;
        }
    }
    proof {
        let rest = full.subrange(full.len() as int, full.len() as int);
        assert(rest =~= Seq::<char>::empty());
        assert(spec_split_list(rest) == seq![Seq::<char>::empty()]);
        assert(cur@ + Seq::<char>::empty() =~= cur@);
    }
    done.push(cur);
    done
}

impl ContentEncoding {
    /// Reads a whole header value: tokens separated by `", "`. Empty
    /// text yields an empty list; any unknown token refuses the whole
    /// header, with the header text kept in the error.
    pub fn parse(s: &str) -> (r: Result<ContentEncoding, HeaderError>)
        ensures
            s@.len() == 0 ==> (r matches Ok(ce) && ce@ == Seq::<EncodingType>::empty()),
            s@.len() > 0 ==> match r {
                Ok(ce) => spec_encodings(spec_split_list(s@)) == Some(ce@),
                Err(he) => spec_encodings(spec_split_list(s@)) is None && spec_first_unknown(
                    spec_split_list(s@),
                ) is Some && (he matches HeaderError::UnknownName(t) && t@ == s@),
            },
    {
        let chars = to_chars(s);
        if chars.len() == 0 {
            return Ok(ContentEncoding::empty());
        }
        let pieces = split_list(&chars);
        let ghost sp = spec_split_list(s@);
        let mut out: Vec<EncodingType> = Vec::new();
        let mut k: usize = 0;
        proof {
            lemma_encodings_elementwise(sp);
        }
        while k < pieces.len()
            invariant
                k <= pieces@.len(),
                pieces@.len() == sp.len(),
                forall|j: int| 0 <= j < sp.len() ==> #[trigger] pieces@[j]@ == sp[j],
                out@.len() == k,
                forall|j: int|
                    0 <= j < k ==> Some(#[trigger] out@[j]) == spec_encoding_of(sp[j]),
            decreases pieces@.len() - k,
        {
            match encoding_of_chars(&pieces[k]) {
                Some(e) => {
                    out.push(e);
                },
                None => {
                    proof {
                        assert forall|j: int|
                            0 <= j < k implies spec_encoding_of(#[trigger] sp[j]) is Some by {
                            assert(Some(out@[j]) == spec_encoding_of(sp[j]));
                        }
                        lemma_encodings_skip(sp, k as int);
                        let rest = sp.subrange(k as int, sp.len() as int);
                        assert(rest[0] == sp[k as int]);
                        assert(spec_first_unknown(rest) == Some(sp[k as int]));
                        assert(spec_encoding_of(sp[k as int]) is None);
                    }
                    return Err(HeaderError::UnknownName(s.to_owned()));
                },
            }
            k = k + 1;
        }
        let ce = ContentEncoding { encoding_types: out };
        proof {
            assert forall|j: int|
                0 <= j < sp.len() implies spec_encoding_of(#[trigger] sp[j]) is Some by {
                assert(Some(out@[j]) == spec_encoding_of(sp[j]));
            }
            assert(spec_encodings(sp) is Some);
            let es = spec_encodings(sp)->Some_0;
            assert forall|j: int| 0 <= j < es.len() implies #[trigger] es[j] == out@[j] by {
                assert(Some(es[j]) == spec_encoding_of(sp[j]));
                assert(Some(out@[j]) == spec_encoding_of(sp[j]));
            }
            assert(ce@ =~= es);
        }
        Ok(ce)
    }
}

} // verus!
