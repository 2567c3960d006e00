//! Owning splitters: a container that owns a text buffer together with the
//! cursor that walks the buffer's pieces, so both move around as one value.
//!
//! The buffer is stored once, behind the container, and the cursor is a plain
//! character position into it; a piece is materialised on demand as an owned
//! string.  This keeps the buffer address out of the public surface entirely:
//! callers only ever see owned pieces.

use vstd::prelude::*;

use crate::is_space;
use crate::is_space_char;

verus! {

use vstd::string::StrSliceExecFns;
use vstd::string::StringExecFns;

use crate::transforms;
use crate::re::Pattern;
use crate::re::Split;
use crate::re::re_split_spec;

/// Position of the first whitespace character of `s` at or after `i`,
/// or `s.len()` when there is none.
pub open spec fn next_space(s: Seq<char>, i: int) -> int
    decreases s.len() - i,
{
    if i < 0 || i >= s.len() {
        s.len() as int
    } else if is_space(s[i]) {
        i
    } else {
        next_space(s, i + 1)
    }
}

pub proof fn lemma_next_space_bounds(s: Seq<char>, i: int)
    requires
        0 <= i <= s.len(),
    ensures
        i <= next_space(s, i) <= s.len(),
    decreases s.len() - i,
{
    if i < s.len() && !is_space(s[i]) {
        lemma_next_space_bounds(s, i + 1);
    }
}

/// The whitespace-separated pieces of `s` that start at or after position `i`:
/// maximal runs of non-whitespace characters, in order.
pub open spec fn ws_pieces_from(s: Seq<char>, i: int) -> Seq<Seq<char>>
    decreases s.len() - i,
{
    if i < 0 || i >= s.len() {
        Seq::empty()
    } else if is_space(s[i]) {
        ws_pieces_from(s, i + 1)
    } else {
        let k = next_space(s, i + 1);
        proof {
            lemma_next_space_bounds(s, i + 1);
        }
        seq![s.subrange(i, k)] + ws_pieces_from(s, k)
    }
}

/// The whitespace-separated pieces of a whole character sequence.
pub open spec fn ws_pieces(s: Seq<char>) -> Seq<Seq<char>> {
    ws_pieces_from(s, 0)
}

/// The split container for whitespace splitting: it owns the buffer and the
/// cursor that walks it.  Advancing the cursor is the only mutation it allows.
pub struct Whitespace {
    buf: String,
    len: usize,
    pos: usize,
}

impl Whitespace {
    /// The owned buffer's characters.
    pub closed spec fn text(self) -> Seq<char> {
        self.buf@
    }

    pub closed spec fn wf(self) -> bool {
        self.len == self.buf@.len() && self.pos <= self.len
    }

    /// The pieces the cursor has not yielded yet.
    pub closed spec fn remaining(self) -> Seq<Seq<char>> {
        ws_pieces_from(self.buf@, self.pos as int)
    }

    /// Binds an owned buffer to a fresh whitespace-split cursor.
    pub fn new(buf: String) -> (w: Whitespace)
        ensures
            w.wf(),
            w.text() == buf@,
            w.remaining() == ws_pieces(buf@),
    {
        let len = buf.as_str().unicode_len();
        Whitespace { buf, len, pos: 0 }
    }

    /// Advances the cursor one piece and hands the piece out as an owned
    /// string; `None` once the buffer's pieces are exhausted.
    pub fn next_piece(&mut self) -> (r: Option<String>)
        requires
            old(self).wf(),
        ensures
            final(self).wf(),
            final(self).text() == old(self).text(),
            match r {
                None => old(self).remaining().len() == 0 && final(self).remaining().len() == 0,
                Some(p) => old(self).remaining().len() > 0 && p@ == old(self).remaining()[0]
                    && final(self).remaining() == old(self).remaining().drop_first(),
            },
    {
        let ghost s = self.buf@;
        let mut j = self.pos;
        while j < self.len && is_space_char(self.buf.as_str().get_char(j))
            invariant
                *self == *old(self),
                old(self).wf(),
                old(self).pos <= j <= self.len,
                ws_pieces_from(s, j as int) == old(self).remaining(),
                s == self.buf@,
            decreases self.len - j,
        {
            j += 1;
        }
        if j == self.len {
            self.pos = j;
            assert(ws_pieces_from(s, j as int) =~= Seq::<Seq<char>>::empty());
            return None;
        }
        assert(!is_space(s[j as int]));
        let mut k = j + 1;
        while k < self.len && !is_space_char(self.buf.as_str().get_char(k))
            invariant
                *self == *old(self),
                old(self).wf(),
                j + 1 <= k <= self.len,
                next_space(s, j + 1) == next_space(s, k as int),
                s == self.buf@,
            decreases self.len - k,
        {
            k += 1;
        }
        assert(k == next_space(s, j + 1));
        let piece = self.buf.as_str().substring_char(j, k).to_owned();
        self.pos = k;
        proof {
            lemma_next_space_bounds(s, j + 1);
            assert(old(self).remaining() == seq![s.subrange(j as int, k as int)] + ws_pieces_from(
                s,
                k as int,
            ));
            assert(old(self).remaining().drop_first() =~= ws_pieces_from(s, k as int));
        }
        Some(piece)
    }

    /// Advance-and-transform: advances the cursor one piece, applies `fun` to
    /// the piece, and returns the transformed value; `None` once exhausted.
    pub fn next_map<R, F: FnOnce(String) -> R>(&mut self, fun: F) -> (r: Option<R>)
        requires
            old(self).wf(),
            forall|p: String|
                old(self).remaining().len() > 0 && p@ == old(self).remaining()[0]
                    ==> call_requires(fun, (p,)),
        ensures
            final(self).wf(),
            final(self).text() == old(self).text(),
            r is None ==> old(self).remaining().len() == 0 && final(self).remaining().len() == 0,
            r is Some ==> old(self).remaining().len() > 0,
            r is Some ==> transforms(fun, old(self).remaining()[0], r->0),
            r is Some ==> final(self).remaining() == old(self).remaining().drop_first(),
    {
        match self.next_piece() {
            Some(p) => {
                let ghost gp = p;
                let x = fun(p);
                proof {
                    assert(gp@ == old(self).remaining()[0] && call_ensures(fun, (gp,), x));
                    assert(transforms(fun, old(self).remaining()[0], x));
                }
                Some(x)
            },
            None => None,
        }
    }
}

/// True when `fun` can expand an owned copy of the characters `piece` into an
/// empty sub-sequence.
pub open spec fn expands_to_empty<F, R>(fun: F, piece: Seq<char>) -> bool where F: FnOnce(
    String,
) -> Vec<R> {
    exists|out: Vec<R>| #[trigger] transforms(fun, piece, out) && out@.len() == 0
}

/// Splits an owned buffer on whitespace, yielding each piece as an owned
/// string.
pub struct IntoSplitWhitespace {
    inner: Whitespace,
}

impl IntoSplitWhitespace {
    pub closed spec fn wf(self) -> bool {
        self.inner.wf()
    }

    pub closed spec fn text(self) -> Seq<char> {
        self.inner.text()
    }

    pub closed spec fn remaining(self) -> Seq<Seq<char>> {
        self.inner.remaining()
    }

    pub fn new(buf: String) -> (w: IntoSplitWhitespace)
        ensures
            w.wf(),
            w.text() == buf@,
            w.remaining() == ws_pieces(buf@),
    {
        IntoSplitWhitespace { inner: Whitespace::new(buf) }
    }

    /// The next whitespace-separated piece, as an owned string.
    pub fn next(&mut self) -> (r: Option<String>)
        requires
            old(self).wf(),
        ensures
            final(self).wf(),
            final(self).text() == old(self).text(),
            r is None ==> old(self).remaining().len() == 0 && final(self).remaining().len() == 0,
            r matches Some(p) ==> old(self).remaining().len() > 0 && p@ == old(
                self,
            ).remaining()[0] && final(self).remaining() == old(self).remaining().drop_first(),
    {
        self.inner.next_piece()
    }
}

/// Splits an owned buffer on whitespace and applies a caller-supplied
/// transform to each piece.
pub struct IntoSplitWhitespaceMap<F> {
    inner: Whitespace,
    fun: F,
}

impl<F> IntoSplitWhitespaceMap<F> {
    pub closed spec fn wf(self) -> bool {
        self.inner.wf()
    }

    pub closed spec fn text(self) -> Seq<char> {
        self.inner.text()
    }

    pub closed spec fn remaining(self) -> Seq<Seq<char>> {
        self.inner.remaining()
    }

    pub closed spec fn transform(self) -> F {
        self.fun
    }

    pub fn new(buf: String, fun: F) -> (w: IntoSplitWhitespaceMap<F>)
        ensures
            w.wf(),
            w.text() == buf@,
            w.remaining() == ws_pieces(buf@),
            w.transform() == fun,
    {
        IntoSplitWhitespaceMap { inner: Whitespace::new(buf), fun }
    }

    /// Advances one piece and returns the transform's result for it.
    pub fn next<R>(&mut self) -> (r: Option<R>) where F: Fn(String) -> R
        requires
            old(self).wf(),
            forall|p: String|
                old(self).remaining().contains(p@) ==> #[trigger] call_requires(
                    old(self).transform(),
                    (p,),
                ),
        ensures
            final(self).wf(),
            final(self).text() == old(self).text(),
            final(self).transform() == old(self).transform(),
            r is None ==> old(self).remaining().len() == 0 && final(self).remaining().len() == 0,
            r is Some ==> old(self).remaining().len() > 0,
            r is Some ==> transforms(old(self).transform(), old(self).remaining()[0], r->0),
            r is Some ==> final(self).remaining() == old(self).remaining().drop_first(),
    {
        match self.inner.next_piece() {
            Some(p) => {
                let ghost gp = p;
                proof {
                    assert(old(self).remaining().contains(gp@));
                    assert(call_requires(old(self).transform(), (gp,)));
                    assert(self.fun == old(self).transform());
                }
                let x = (self.fun)(p);
                proof {
                    assert(gp@ == old(self).remaining()[0] && call_ensures(self.fun, (gp,), x));
                    assert(transforms(old(self).transform(), old(self).remaining()[0], x));
                }
                Some(x)
            },
            None => None,
        }
    }
}

/// Splits an owned buffer on whitespace, expands each piece into a
/// sub-sequence with a caller-supplied transform, and yields the
/// sub-sequences' elements one at a time.
pub struct IntoSplitWhitespaceAndThen<F, R> {
    inner: Whitespace,
    fun: F,
    rest: Vec<R>,
}

impl<F, R> IntoSplitWhitespaceAndThen<F, R> {
    pub closed spec fn wf(self) -> bool {
        self.inner.wf()
    }

    pub closed spec fn text(self) -> Seq<char> {
        self.inner.text()
    }

    pub closed spec fn remaining(self) -> Seq<Seq<char>> {
        self.inner.remaining()
    }

    /// Elements of the sub-sequence currently being drained.
    pub closed spec fn pending(self) -> Seq<R> {
        self.rest@
    }

    pub closed spec fn transform(self) -> F {
        self.fun
    }

    pub fn new(buf: String, fun: F) -> (w: IntoSplitWhitespaceAndThen<F, R>)
        ensures
            w.wf(),
            w.text() == buf@,
            w.remaining() == ws_pieces(buf@),
            w.pending().len() == 0,
            w.transform() == fun,
    {
        IntoSplitWhitespaceAndThen { inner: Whitespace::new(buf), fun, rest: Vec::new() }
    }

    /// The next element: drains the active sub-sequence first, and otherwise
    /// expands pieces (skipping those whose expansion is empty) until an
    /// element is found; `None` once both are exhausted, permanently.
    pub fn next(&mut self) -> (r: Option<R>) where F: Fn(String) -> Vec<R>
        requires
            old(self).wf(),
            forall|p: String|
                old(self).remaining().contains(p@) ==> #[trigger] call_requires(
                    old(self).transform(),
                    (p,),
                ),
        ensures
            final(self).wf(),
            final(self).text() == old(self).text(),
            final(self).transform() == old(self).transform(),
            r is None ==> ({
                &&& old(self).pending().len() == 0
                &&& final(self).pending().len() == 0
                &&& final(self).remaining().len() == 0
                &&& forall|j: int|
                    0 <= j < old(self).remaining().len() ==> expands_to_empty(
                        old(self).transform(),
                        #[trigger] old(self).remaining()[j],
                    )
            }),
            r is Some && old(self).pending().len() > 0 ==> ({
                &&& r->0 == old(self).pending()[0]
                &&& final(self).pending() == old(self).pending().drop_first()
                &&& final(self).remaining() == old(self).remaining()
            }),
            r is Some && old(self).pending().len() == 0 ==> (exists|k: int|
                {
                    &&& 0 <= k < old(self).remaining().len()
                    &&& final(self).remaining() == #[trigger] old(self).remaining().skip(k + 1)
                    &&& forall|j: int|
                        0 <= j < k ==> expands_to_empty(
                            old(self).transform(),
                            #[trigger] old(self).remaining()[j],
                        )
                    &&& exists|out: Vec<R>|
                        (#[trigger] transforms(old(self).transform(), old(self).remaining()[k], out))
                            && out@.len() > 0 && r->0 == out@[0] && final(self).pending()
                            == out@.drop_first()
                }),
    {
        if self.rest.len() > 0 {
            let x = self.rest.remove(0);
            proof {
                assert(self.rest@ =~= old(self).pending().drop_first());
            }
            return Some(x);
        }
        let ghost mut k: int = 0;
        loop
            invariant
                self.wf(),
                self.fun == old(self).transform(),
                self.text() == old(self).text(),
                self.rest@.len() == 0,
                old(self).pending().len() == 0,
                forall|p: String|
                    old(self).remaining().contains(p@) ==> #[trigger] call_requires(
                        old(self).transform(),
                        (p,),
                    ),
                0 <= k <= old(self).remaining().len(),
                self.inner.remaining() == old(self).remaining().skip(k),
                forall|j: int|
                    0 <= j < k ==> expands_to_empty(
                        old(self).transform(),
                        #[trigger] old(self).remaining()[j],
                    ),
            decreases self.inner.remaining().len(),
        {
            match self.inner.next_piece() {
                Some(p) => {
                    let ghost gp = p;
                    proof {
                        assert(old(self).remaining().skip(k)[0] == old(self).remaining()[k]);
                        assert(old(self).remaining().skip(k).drop_first() =~= old(
                            self,
                        ).remaining().skip(k + 1));
                    }
                    proof {
                        assert(gp@ == old(self).remaining()[k]);
                        assert(old(self).remaining().contains(gp@));
                        assert(call_requires(old(self).transform(), (gp,)));
                        assert(self.fun == old(self).transform());
                    }
                    let mut out = (self.fun)(p);
                    let ghost gout = out;
                    proof {
                        assert(call_ensures(old(self).transform(), (gp,), gout));
                        assert(gp@ == old(self).remaining()[k]);
                        assert(transforms(old(self).transform(), old(self).remaining()[k], gout));
                    }
                    if out.len() > 0 {
                        let x = out.remove(0);
                        self.rest = out;
                        proof {
                            assert(self.rest@ =~= gout@.drop_first());
                            let wk = k;
                            assert({
                                &&& 0 <= wk < old(self).remaining().len()
                                &&& forall|j: int|
                                    0 <= j < wk ==> expands_to_empty(
                                        old(self).transform(),
                                        #[trigger] old(self).remaining()[j],
                                    )
                                &&& transforms(
                                    old(self).transform(),
                                    old(self).remaining()[wk],
                                    gout,
                                ) && gout@.len() > 0 && x == gout@[0] && self.pending()
                                    == gout@.drop_first()
                                &&& self.remaining() == old(self).remaining().skip(wk + 1)
                            });
                        }
                        return Some(x);
                    }
                    proof {
                        assert(expands_to_empty(old(self).transform(), old(self).remaining()[k]));
                        k = k + 1;
                    }
                },
                None => {
                    proof {
                        assert(old(self).remaining().skip(k).len() == 0);
                        assert(k == old(self).remaining().len());
                    }
                    return None;
                },
            }
        }
    }
}

/// Splits an owned buffer on an owned compiled pattern, yielding each piece
/// as an owned string.
pub struct IntoSplitRegex {
    split: Split,
    gtext: Ghost<Seq<char>>,
    gpat: Ghost<Seq<char>>,
}

impl IntoSplitRegex {
    pub closed spec fn wf(self) -> bool {
        self.split.wf()
    }

    pub closed spec fn text(self) -> Seq<char> {
        self.gtext@
    }

    pub closed spec fn pattern(self) -> Seq<char> {
        self.gpat@
    }

    pub closed spec fn remaining(self) -> Seq<Seq<char>> {
        self.split.remaining()
    }

    pub fn new(buf: String, regex: Pattern) -> (w: IntoSplitRegex)
        ensures
            w.wf(),
            w.text() == buf@,
            w.pattern() == regex@,
            w.remaining() == re_split_spec(regex@, buf@),
    {
        let pieces = regex.split_text(buf.as_str());
        IntoSplitRegex { split: Split::new(pieces), gtext: Ghost(buf@), gpat: Ghost(regex@) }
    }

    /// The next piece, as an owned string.
    pub fn next(&mut self) -> (r: Option<String>)
        requires
            old(self).wf(),
        ensures
            final(self).wf(),
            final(self).text() == old(self).text(),
            final(self).pattern() == old(self).pattern(),
            r is None ==> old(self).remaining().len() == 0 && final(self).remaining().len() == 0,
            r matches Some(x) ==> old(self).remaining().len() > 0 && x@ == old(
                self,
            ).remaining()[0] && final(self).remaining() == old(self).remaining().drop_first(),
    {
        self.split.next()
    }
}

/// Splits an owned buffer on a borrowed compiled pattern, yielding each piece
/// as an owned string.
pub struct IntoSplitRegexRef {
    split: Split,
    gtext: Ghost<Seq<char>>,
    gpat: Ghost<Seq<char>>,
}

impl IntoSplitRegexRef {
    pub closed spec fn wf(self) -> bool {
        self.split.wf()
    }

    pub closed spec fn text(self) -> Seq<char> {
        self.gtext@
    }

    pub closed spec fn pattern(self) -> Seq<char> {
        self.gpat@
    }

    pub closed spec fn remaining(self) -> Seq<Seq<char>> {
        self.split.remaining()
    }

    pub fn new(buf: String, regex: &Pattern) -> (w: IntoSplitRegexRef)
        ensures
            w.wf(),
            w.text() == buf@,
            w.pattern() == regex@,
            w.remaining() == re_split_spec(regex@, buf@),
    {
        let pieces = regex.split_text(buf.as_str());
        IntoSplitRegexRef { split: Split::new(pieces), gtext: Ghost(buf@), gpat: Ghost(regex@) }
    }

    /// The next piece, as an owned string.
    pub fn next(&mut self) -> (r: Option<String>)
        requires
            old(self).wf(),
        ensures
            final(self).wf(),
            final(self).text() == old(self).text(),
            final(self).pattern() == old(self).pattern(),
            r is None ==> old(self).remaining().len() == 0 && final(self).remaining().len() == 0,
            r matches Some(x) ==> old(self).remaining().len() > 0 && x@ == old(
                self,
            ).remaining()[0] && final(self).remaining() == old(self).remaining().drop_first(),
    {
        self.split.next()
    }
}

/// Splits an owned buffer on an owned compiled pattern and applies a
/// caller-supplied transform to each piece.
pub struct IntoSplitRegexMap<F> {
    split: Split,
    fun: F,
    gtext: Ghost<Seq<char>>,
    gpat: Ghost<Seq<char>>,
}

impl<F> IntoSplitRegexMap<F> {
    pub closed spec fn wf(self) -> bool {
        self.split.wf()
    }

    pub closed spec fn text(self) -> Seq<char> {
        self.gtext@
    }

    pub closed spec fn pattern(self) -> Seq<char> {
        self.gpat@
    }

    pub closed spec fn remaining(self) -> Seq<Seq<char>> {
        self.split.remaining()
    }

    pub closed spec fn transform(self) -> F {
        self.fun
    }

    pub fn new(buf: String, regex: Pattern, fun: F) -> (w: IntoSplitRegexMap<F>)
        ensures
            w.wf(),
            w.text() == buf@,
            w.pattern() == regex@,
            w.remaining() == re_split_spec(regex@, buf@),
            w.transform() == fun,
    {
        let pieces = regex.split_text(buf.as_str());
        IntoSplitRegexMap {
            split: Split::new(pieces),
            fun,
            gtext: Ghost(buf@),
            gpat: Ghost(regex@),
        }
    }

    /// Advances one piece and returns the transform's result for it.
    pub fn next<R>(&mut self) -> (r: Option<R>) where F: Fn(String) -> R
        requires
            old(self).wf(),
            forall|p: String|
                old(self).remaining().contains(p@) ==> #[trigger] call_requires(
                    old(self).transform(),
                    (p,),
                ),
        ensures
            final(self).wf(),
            final(self).text() == old(self).text(),
            final(self).pattern() == old(self).pattern(),
            final(self).transform() == old(self).transform(),
            r is None ==> old(self).remaining().len() == 0 && final(self).remaining().len() == 0,
            r is Some ==> old(self).remaining().len() > 0,
            r is Some ==> transforms(old(self).transform(), old(self).remaining()[0], r->0),
            r is Some ==> final(self).remaining() == old(self).remaining().drop_first(),
    {
        match self.split.next() {
            Some(p) => {
                let ghost gp = p;
                proof {
                    assert(old(self).remaining().contains(gp@));
                    assert(call_requires(old(self).transform(), (gp,)));
                    assert(self.fun == old(self).transform());
                }
                let x = (self.fun)(p);
                proof {
                    assert(gp@ == old(self).remaining()[0] && call_ensures(self.fun, (gp,), x));
                    assert(transforms(old(self).transform(), old(self).remaining()[0], x));
                }
                Some(x)
            },
            None => None,
        }
    }
}

/// Splits an owned buffer on a borrowed compiled pattern and applies a
/// caller-supplied transform to each piece.
pub struct IntoSplitRegexRefMap<F> {
    split: Split,
    fun: F,
    gtext: Ghost<Seq<char>>,
    gpat: Ghost<Seq<char>>,
}

impl<F> IntoSplitRegexRefMap<F> {
    pub closed spec fn wf(self) -> bool {
        self.split.wf()
    }

    pub closed spec fn text(self) -> Seq<char> {
        self.gtext@
    }

    pub closed spec fn pattern(self) -> Seq<char> {
        self.gpat@
    }

    pub closed spec fn remaining(self) -> Seq<Seq<char>> {
        self.split.remaining()
    }

    pub closed spec fn transform(self) -> F {
        self.fun
    }

    pub fn new(buf: String, regex: &Pattern, fun: F) -> (w: IntoSplitRegexRefMap<F>)
        ensures
            w.wf(),
            w.text() == buf@,
            w.pattern() == regex@,
            w.remaining() == re_split_spec(regex@, buf@),
            w.transform() == fun,
    {
        let pieces = regex.split_text(buf.as_str());
        IntoSplitRegexRefMap {
            split: Split::new(pieces),
            fun,
            gtext: Ghost(buf@),
            gpat: Ghost(regex@),
        }
    }

    /// Advances one piece and returns the transform's result for it.
    pub fn next<R>(&mut self) -> (r: Option<R>) where F: Fn(String) -> R
        requires
            old(self).wf(),
            forall|p: String|
                old(self).remaining().contains(p@) ==> #[trigger] call_requires(
                    old(self).transform(),
                    (p,),
                ),
        ensures
            final(self).wf(),
            final(self).text() == old(self).text(),
            final(self).pattern() == old(self).pattern(),
            final(self).transform() == old(self).transform(),
            r is None ==> old(self).remaining().len() == 0 && final(self).remaining().len() == 0,
            r is Some ==> old(self).remaining().len() > 0,
            r is Some ==> transforms(old(self).transform(), old(self).remaining()[0], r->0),
            r is Some ==> final(self).remaining() == old(self).remaining().drop_first(),
    {
        match self.split.next() {
            Some(p) => {
                let ghost gp = p;
                proof {
                    assert(old(self).remaining().contains(gp@));
                    assert(call_requires(old(self).transform(), (gp,)));
                    assert(self.fun == old(self).transform());
                }
                let x = (self.fun)(p);
                proof {
                    assert(gp@ == old(self).remaining()[0] && call_ensures(self.fun, (gp,), x));
                    assert(transforms(old(self).transform(), old(self).remaining()[0], x));
                }
                Some(x)
            },
            None => None,
        }
    }
}

/// Splits an owned buffer on an owned compiled pattern, expands each piece
/// into a sub-sequence with a caller-supplied transform, and yields the
/// sub-sequences' elements one at a time.
pub struct IntoSplitRegexAndThen<F, R> {
    split: Split,
    fun: F,
    rest: Vec<R>,
    gtext: Ghost<Seq<char>>,
    gpat: Ghost<Seq<char>>,
}

impl<F, R> IntoSplitRegexAndThen<F, R> {
    pub closed spec fn wf(self) -> bool {
        self.split.wf()
    }

    pub closed spec fn text(self) -> Seq<char> {
        self.gtext@
    }

    pub closed spec fn pattern(self) -> Seq<char> {
        self.gpat@
    }

    pub closed spec fn remaining(self) -> Seq<Seq<char>> {
        self.split.remaining()
    }

    pub closed spec fn pending(self) -> Seq<R> {
        self.rest@
    }

    pub closed spec fn transform(self) -> F {
        self.fun
    }

    pub fn new(buf: String, regex: Pattern, fun: F) -> (w: IntoSplitRegexAndThen<F, R>)
        ensures
            w.wf(),
            w.text() == buf@,
            w.pattern() == regex@,
            w.remaining() == re_split_spec(regex@, buf@),
            w.pending().len() == 0,
            w.transform() == fun,
    {
        let pieces = regex.split_text(buf.as_str());
        IntoSplitRegexAndThen {
            split: Split::new(pieces),
            fun,
            rest: Vec::new(),
            gtext: Ghost(buf@),
            gpat: Ghost(regex@),
        }
    }

    /// The next element: drains the active sub-sequence first, and otherwise
    /// expands pieces (skipping those whose expansion is empty) until an
    /// element is found; `None` once both are exhausted, permanently.
    pub fn next(&mut self) -> (r: Option<R>) where F: Fn(String) -> Vec<R>
        requires
            old(self).wf(),
            forall|p: String|
                old(self).remaining().contains(p@) ==> #[trigger] call_requires(
                    old(self).transform(),
                    (p,),
                ),
        ensures
            final(self).wf(),
            final(self).text() == old(self).text(),
            final(self).pattern() == old(self).pattern(),
            final(self).transform() == old(self).transform(),
            r is None ==> ({
                &&& old(self).pending().len() == 0
                &&& final(self).pending().len() == 0
                &&& final(self).remaining().len() == 0
                &&& forall|j: int|
                    0 <= j < old(self).remaining().len() ==> expands_to_empty(
                        old(self).transform(),
                        #[trigger] old(self).remaining()[j],
                    )
            }),
            r is Some && old(self).pending().len() > 0 ==> ({
                &&& r->0 == old(self).pending()[0]
                &&& final(self).pending() == old(self).pending().drop_first()
                &&& final(self).remaining() == old(self).remaining()
            }),
            r is Some && old(self).pending().len() == 0 ==> (exists|k: int|
                {
                    &&& 0 <= k < old(self).remaining().len()
                    &&& final(self).remaining() == #[trigger] old(self).remaining().skip(k + 1)
                    &&& forall|j: int|
                        0 <= j < k ==> expands_to_empty(
                            old(self).transform(),
                            #[trigger] old(self).remaining()[j],
                        )
                    &&& exists|out: Vec<R>|
                        (#[trigger] transforms(old(self).transform(), old(self).remaining()[k], out))
                            && out@.len() > 0 && r->0 == out@[0] && final(self).pending()
                            == out@.drop_first()
                }),
    {
        if self.rest.len() > 0 {
            let x = self.rest.remove(0);
            proof {
                assert(self.rest@ =~= old(self).pending().drop_first());
            }
            return Some(x);
        }
        let ghost mut k: int = 0;
        loop
            invariant
                self.wf(),
                self.fun == old(self).transform(),
                self.text() == old(self).text(),
                self.pattern() == old(self).pattern(),
                self.rest@.len() == 0,
                old(self).pending().len() == 0,
                forall|p: String|
                    old(self).remaining().contains(p@) ==> #[trigger] call_requires(
                        old(self).transform(),
                        (p,),
                    ),
                0 <= k <= old(self).remaining().len(),
                self.split.remaining() == old(self).remaining().skip(k),
                forall|j: int|
                    0 <= j < k ==> expands_to_empty(
                        old(self).transform(),
                        #[trigger] old(self).remaining()[j],
                    ),
            decreases self.split.remaining().len(),
        {
            match self.split.next() {
                Some(p) => {
                    let ghost gp = p;
                    proof {
                        assert(old(self).remaining().skip(k)[0] == old(self).remaining()[k]);
                        assert(old(self).remaining().skip(k).drop_first() =~= old(
                            self,
                        ).remaining().skip(k + 1));
                        assert(gp@ == old(self).remaining()[k]);
                        assert(old(self).remaining().contains(gp@));
                        assert(call_requires(old(self).transform(), (gp,)));
                        assert(self.fun == old(self).transform());
                    }
                    let mut out = (self.fun)(p);
                    let ghost gout = out;
                    proof {
                        assert(call_ensures(old(self).transform(), (gp,), gout));
                        assert(gp@ == old(self).remaining()[k]);
                        assert(transforms(old(self).transform(), old(self).remaining()[k], gout));
                    }
                    if out.len() > 0 {
                        let x = out.remove(0);
                        self.rest = out;
                        proof {
                            assert(self.rest@ =~= gout@.drop_first());
                            let wk = k;
                            assert({
                                &&& 0 <= wk < old(self).remaining().len()
                                &&& self.remaining() == old(self).remaining().skip(wk + 1)
                                &&& forall|j: int|
                                    0 <= j < wk ==> expands_to_empty(
                                        old(self).transform(),
                                        #[trigger] old(self).remaining()[j],
                                    )
                                &&& transforms(
                                    old(self).transform(),
                                    old(self).remaining()[wk],
                                    gout,
                                ) && gout@.len() > 0 && x == gout@[0] && self.pending()
                                    == gout@.drop_first()
                            });
                        }
                        return Some(x);
                    }
                    proof {
                        assert(expands_to_empty(old(self).transform(), old(self).remaining()[k]));
                        k = k + 1;
                    }
                },
                None => {
                    proof {
                        assert(old(self).remaining().skip(k).len() == 0);
                        assert(k == old(self).remaining().len());
                    }
                    return None;
                },
            }
        }
    }
}

/// Splits an owned buffer on a borrowed compiled pattern, expands each piece
/// into a sub-sequence with a caller-supplied transform, and yields the
/// sub-sequences' elements one at a time.
pub struct IntoSplitRegexRefAndThen<F, R> {
    split: Split,
    fun: F,
    rest: Vec<R>,
    gtext: Ghost<Seq<char>>,
    gpat: Ghost<Seq<char>>,
}

impl<F, R> IntoSplitRegexRefAndThen<F, R> {
    pub closed spec fn wf(self) -> bool {
        self.split.wf()
    }

    pub closed spec fn text(self) -> Seq<char> {
        self.gtext@
    }

    pub closed spec fn pattern(self) -> Seq<char> {
        self.gpat@
    }

    pub closed spec fn remaining(self) -> Seq<Seq<char>> {
        self.split.remaining()
    }

    pub closed spec fn pending(self) -> Seq<R> {
        self.rest@
    }

    pub closed spec fn transform(self) -> F {
        self.fun
    }

    pub fn new(buf: String, regex: &Pattern, fun: F) -> (w: IntoSplitRegexRefAndThen<F, R>)
        ensures
            w.wf(),
            w.text() == buf@,
            w.pattern() == regex@,
            w.remaining() == re_split_spec(regex@, buf@),
            w.pending().len() == 0,
            w.transform() == fun,
    {
        let pieces = regex.split_text(buf.as_str());
        IntoSplitRegexRefAndThen {
            split: Split::new(pieces),
            fun,
            rest: Vec::new(),
            gtext: Ghost(buf@),
            gpat: Ghost(regex@),
        }
    }

    /// The next element: drains the active sub-sequence first, and otherwise
    /// expands pieces (skipping those whose expansion is empty) until an
    /// element is found; `None` once both are exhausted, permanently.
    pub fn next(&mut self) -> (r: Option<R>) where F: Fn(String) -> Vec<R>
        requires
            old(self).wf(),
            forall|p: String|
                old(self).remaining().contains(p@) ==> #[trigger] call_requires(
                    old(self).transform(),
                    (p,),
                ),
        ensures
            final(self).wf(),
            final(self).text() == old(self).text(),
            final(self).pattern() == old(self).pattern(),
            final(self).transform() == old(self).transform(),
            r is None ==> ({
                &&& old(self).pending().len() == 0
                &&& final(self).pending().len() == 0
                &&& final(self).remaining().len() == 0
                &&& forall|j: int|
                    0 <= j < old(self).remaining().len() ==> expands_to_empty(
                        old(self).transform(),
                        #[trigger] old(self).remaining()[j],
                    )
            }),
            r is Some && old(self).pending().len() > 0 ==> ({
                &&& r->0 == old(self).pending()[0]
                &&& final(self).pending() == old(self).pending().drop_first()
                &&& final(self).remaining() == old(self).remaining()
            }),
            r is Some && old(self).pending().len() == 0 ==> (exists|k: int|
                {
                    &&& 0 <= k < old(self).remaining().len()
                    &&& final(self).remaining() == #[trigger] old(self).remaining().skip(k + 1)
                    &&& forall|j: int|
                        0 <= j < k ==> expands_to_empty(
                            old(self).transform(),
                            #[trigger] old(self).remaining()[j],
                        )
                    &&& exists|out: Vec<R>|
                        (#[trigger] transforms(old(self).transform(), old(self).remaining()[k], out))
                            && out@.len() > 0 && r->0 == out@[0] && final(self).pending()
                            == out@.drop_first()
                }),
    {
        if self.rest.len() > 0 {
            let x = self.rest.remove(0);
            proof {
                assert(self.rest@ =~= old(self).pending().drop_first());
            }
            return Some(x);
        }
        let ghost mut k: int = 0;
        loop
            invariant
                self.wf(),
                self.fun == old(self).transform(),
                self.text() == old(self).text(),
                self.pattern() == old(self).pattern(),
                self.rest@.len() == 0,
                old(self).pending().len() == 0,
                forall|p: String|
                    old(self).remaining().contains(p@) ==> #[trigger] call_requires(
                        old(self).transform(),
                        (p,),
                    ),
                0 <= k <= old(self).remaining().len(),
                self.split.remaining() == old(self).remaining().skip(k),
                forall|j: int|
                    0 <= j < k ==> expands_to_empty(
                        old(self).transform(),
                        #[trigger] old(self).remaining()[j],
                    ),
            decreases self.split.remaining().len(),
        {
            match self.split.next() {
                Some(p) => {
                    let ghost gp = p;
                    proof {
                        assert(old(self).remaining().skip(k)[0] == old(self).remaining()[k]);
                        assert(old(self).remaining().skip(k).drop_first() =~= old(
                            self,
                        ).remaining().skip(k + 1));
                        assert(gp@ == old(self).remaining()[k]);
                        assert(old(self).remaining().contains(gp@));
                        assert(call_requires(old(self).transform(), (gp,)));
                        assert(self.fun == old(self).transform());
                    }
                    let mut out = (self.fun)(p);
                    let ghost gout = out;
                    proof {
                        assert(call_ensures(old(self).transform(), (gp,), gout));
                        assert(gp@ == old(self).remaining()[k]);
                        assert(transforms(old(self).transform(), old(self).remaining()[k], gout));
                    }
                    if out.len() > 0 {
                        let x = out.remove(0);
                        self.rest = out;
                        proof {
                            assert(self.rest@ =~= gout@.drop_first());
                            let wk = k;
                            assert({
                                &&& 0 <= wk < old(self).remaining().len()
                                &&& self.remaining() == old(self).remaining().skip(wk + 1)
                                &&& forall|j: int|
                                    0 <= j < wk ==> expands_to_empty(
                                        old(self).transform(),
                                        #[trigger] old(self).remaining()[j],
                                    )
                                &&& transforms(
                                    old(self).transform(),
                                    old(self).remaining()[wk],
                                    gout,
                                ) && gout@.len() > 0 && x == gout@[0] && self.pending()
                                    == gout@.drop_first()
                            });
                        }
                        return Some(x);
                    }
                    proof {
                        assert(expands_to_empty(old(self).transform(), old(self).remaining()[k]));
                        k = k + 1;
                    }
                },
                None => {
                    proof {
                        assert(old(self).remaining().skip(k).len() == 0);
                        assert(k == old(self).remaining().len());
                    }
                    return None;
                },
            }
        }
    }
}

/// Entry points for the owning splitters: any owned string-like value can be
/// handed over, buffer and cursor then travel together in the returned
/// container.
pub trait IntoSplitIter: Sized {
    /// The characters of the buffer handed to the splitter.
    spec fn buffer(self) -> Seq<char>;

    fn into_split_whitespace(self) -> (w: IntoSplitWhitespace)
        ensures
            w.wf(),
            w.text() == self.buffer(),
            w.remaining() == ws_pieces(self.buffer()),
    ;

    fn into_split_whitespace_map<F>(self, fun: F) -> (w: IntoSplitWhitespaceMap<F>)
        ensures
            w.wf(),
            w.text() == self.buffer(),
            w.remaining() == ws_pieces(self.buffer()),
            w.transform() == fun,
    ;

    fn into_split_whitespace_and_then<F, R>(self, fun: F) -> (w: IntoSplitWhitespaceAndThen<F, R>)
        ensures
            w.wf(),
            w.text() == self.buffer(),
            w.remaining() == ws_pieces(self.buffer()),
            w.pending().len() == 0,
            w.transform() == fun,
    ;

    fn into_split_regex(self, regex: Pattern) -> (w: IntoSplitRegex)
        ensures
            w.wf(),
            w.text() == self.buffer(),
            w.pattern() == regex@,
            w.remaining() == re_split_spec(regex@, self.buffer()),
    ;

    fn into_split_regex_map<F>(self, regex: Pattern, fun: F) -> (w: IntoSplitRegexMap<F>)
        ensures
            w.wf(),
            w.text() == self.buffer(),
            w.pattern() == regex@,
            w.remaining() == re_split_spec(regex@, self.buffer()),
            w.transform() == fun,
    ;

    fn into_split_regex_and_then<F, R>(self, regex: Pattern, fun: F) -> (w: IntoSplitRegexAndThen<
        F,
        R,
    >)
        ensures
            w.wf(),
            w.text() == self.buffer(),
            w.pattern() == regex@,
            w.remaining() == re_split_spec(regex@, self.buffer()),
            w.pending().len() == 0,
            w.transform() == fun,
    ;

    fn into_split_regex_ref(self, regex: &Pattern) -> (w: IntoSplitRegexRef)
        ensures
            w.wf(),
            w.text() == self.buffer(),
            w.pattern() == regex@,
            w.remaining() == re_split_spec(regex@, self.buffer()),
    ;

    fn into_split_regex_ref_map<F>(self, regex: &Pattern, fun: F) -> (w: IntoSplitRegexRefMap<F>)
        ensures
            w.wf(),
            w.text() == self.buffer(),
            w.pattern() == regex@,
            w.remaining() == re_split_spec(regex@, self.buffer()),
            w.transform() == fun,
    ;

    fn into_split_regex_ref_and_then<F, R>(self, regex: &Pattern, fun: F) -> (w:
        IntoSplitRegexRefAndThen<F, R>)
        ensures
            w.wf(),
            w.text() == self.buffer(),
            w.pattern() == regex@,
            w.remaining() == re_split_spec(regex@, self.buffer()),
            w.pending().len() == 0,
            w.transform() == fun,
    ;
}

impl IntoSplitIter for String {
    open spec fn buffer(self) -> Seq<char> {
        self@
    }

    fn into_split_whitespace(self) -> (w: IntoSplitWhitespace) {
        IntoSplitWhitespace::new(self)
    }

    fn into_split_whitespace_map<F>(self, fun: F) -> (w: IntoSplitWhitespaceMap<F>) {
        IntoSplitWhitespaceMap::new(self, fun)
    }

    fn into_split_whitespace_and_then<F, R>(self, fun: F) -> (w: IntoSplitWhitespaceAndThen<
        F,
        R,
    >) {
        IntoSplitWhitespaceAndThen::new(self, fun)
    }

    fn into_split_regex(self, regex: Pattern) -> (w: IntoSplitRegex) {
        IntoSplitRegex::new(self, regex)
    }

    fn into_split_regex_map<F>(self, regex: Pattern, fun: F) -> (w: IntoSplitRegexMap<F>) {
        IntoSplitRegexMap::new(self, regex, fun)
    }

    fn into_split_regex_and_then<F, R>(self, regex: Pattern, fun: F) -> (w: IntoSplitRegexAndThen<
        F,
        R,
    >) {
        IntoSplitRegexAndThen::new(self, regex, fun)
    }

    fn into_split_regex_ref(self, regex: &Pattern) -> (w: IntoSplitRegexRef) {
        IntoSplitRegexRef::new(self, regex)
    }

    fn into_split_regex_ref_map<F>(self, regex: &Pattern, fun: F) -> (w: IntoSplitRegexRefMap<
        F,
    >) {
        IntoSplitRegexRefMap::new(self, regex, fun)
    }

    fn into_split_regex_ref_and_then<F, R>(self, regex: &Pattern, fun: F) -> (w:
        IntoSplitRegexRefAndThen<F, R>) {
        IntoSplitRegexRefAndThen::new(self, regex, fun)
    }
}

/// Relies on `Box<str>`'s deref: the boxed text is the box's view.
#[verifier::external_body]
fn box_str_as_str(b: &Box<str>) -> (s: &str)
    ensures
        s@ == b@,
{
    b
}

impl IntoSplitIter for Box<str> {
    open spec fn buffer(self) -> Seq<char> {
        self@
    }

    fn into_split_whitespace(self) -> (w: IntoSplitWhitespace) {
        IntoSplitWhitespace::new(String::from_str(box_str_as_str(&self)))
    }

    fn into_split_whitespace_map<F>(self, fun: F) -> (w: IntoSplitWhitespaceMap<F>) {
        IntoSplitWhitespaceMap::new(String::from_str(box_str_as_str(&self)), fun)
    }

    fn into_split_whitespace_and_then<F, R>(self, fun: F) -> (w: IntoSplitWhitespaceAndThen<
        F,
        R,
    >) {
        IntoSplitWhitespaceAndThen::new(String::from_str(box_str_as_str(&self)), fun)
    }

    fn into_split_regex(self, regex: Pattern) -> (w: IntoSplitRegex) {
        IntoSplitRegex::new(String::from_str(box_str_as_str(&self)), regex)
    }

    fn into_split_regex_map<F>(self, regex: Pattern, fun: F) -> (w: IntoSplitRegexMap<F>) {
        IntoSplitRegexMap::new(String::from_str(box_str_as_str(&self)), regex, fun)
    }

    fn into_split_regex_and_then<F, R>(self, regex: Pattern, fun: F) -> (w: IntoSplitRegexAndThen<
        F,
        R,
    >) {
        IntoSplitRegexAndThen::new(String::from_str(box_str_as_str(&self)), regex, fun)
    }

    fn into_split_regex_ref(self, regex: &Pattern) -> (w: IntoSplitRegexRef) {
        IntoSplitRegexRef::new(String::from_str(box_str_as_str(&self)), regex)
    }

    fn into_split_regex_ref_map<F>(self, regex: &Pattern, fun: F) -> (w: IntoSplitRegexRefMap<
        F,
    >) {
        IntoSplitRegexRefMap::new(String::from_str(box_str_as_str(&self)), regex, fun)
    }

    fn into_split_regex_ref_and_then<F, R>(self, regex: &Pattern, fun: F) -> (w:
        IntoSplitRegexRefAndThen<F, R>) {
        IntoSplitRegexRefAndThen::new(String::from_str(box_str_as_str(&self)), regex, fun)
    }
}

impl IntoSplitIter for &str {
    open spec fn buffer(self) -> Seq<char> {
        self@
    }

    fn into_split_whitespace(self) -> (w: IntoSplitWhitespace) {
        IntoSplitWhitespace::new(String::from_str(self))
    }

    fn into_split_whitespace_map<F>(self, fun: F) -> (w: IntoSplitWhitespaceMap<F>) {
        IntoSplitWhitespaceMap::new(String::from_str(self), fun)
    }

    fn into_split_whitespace_and_then<F, R>(self, fun: F) -> (w: IntoSplitWhitespaceAndThen<
        F,
        R,
    >) {
        IntoSplitWhitespaceAndThen::new(String::from_str(self), fun)
    }

    fn into_split_regex(self, regex: Pattern) -> (w: IntoSplitRegex) {
        IntoSplitRegex::new(String::from_str(self), regex)
    }

    fn into_split_regex_map<F>(self, regex: Pattern, fun: F) -> (w: IntoSplitRegexMap<F>) {
        IntoSplitRegexMap::new(String::from_str(self), regex, fun)
    }

    fn into_split_regex_and_then<F, R>(self, regex: Pattern, fun: F) -> (w: IntoSplitRegexAndThen<
        F,
        R,
    >) {
        IntoSplitRegexAndThen::new(String::from_str(self), regex, fun)
    }

    fn into_split_regex_ref(self, regex: &Pattern) -> (w: IntoSplitRegexRef) {
        IntoSplitRegexRef::new(String::from_str(self), regex)
    }

    fn into_split_regex_ref_map<F>(self, regex: &Pattern, fun: F) -> (w: IntoSplitRegexRefMap<
        F,
    >) {
        IntoSplitRegexRefMap::new(String::from_str(self), regex, fun)
    }

    fn into_split_regex_ref_and_then<F, R>(self, regex: &Pattern, fun: F) -> (w:
        IntoSplitRegexRefAndThen<F, R>) {
        IntoSplitRegexRefAndThen::new(String::from_str(self), regex, fun)
    }
}

/// The characters of `s` at or after position `i`, with every whitespace
/// character removed.
pub open spec fn without_spaces_from(s: Seq<char>, i: int) -> Seq<char>
    decreases s.len() - i,
{
    if i < 0 || i >= s.len() {
        Seq::empty()
    } else if is_space(s[i]) {
        without_spaces_from(s, i + 1)
    } else {
        seq![s[i]] + without_spaces_from(s, i + 1)
    }
}

/// The characters of `s` with every whitespace character removed.
pub open spec fn without_spaces(s: Seq<char>) -> Seq<char> {
    without_spaces_from(s, 0)
}

proof fn lemma_next_space_nonspace(s: Seq<char>, i: int)
    requires
        0 <= i <= s.len(),
    ensures
        forall|t: int| i <= t < next_space(s, i) ==> !is_space(s[t]),
    decreases s.len() - i,
{
    lemma_next_space_bounds(s, i);
    if i < s.len() && !is_space(s[i]) {
        lemma_next_space_nonspace(s, i + 1);
    }
}

proof fn lemma_without_spaces_word(s: Seq<char>, i: int, k: int)
    requires
        0 <= i <= k <= s.len(),
        forall|t: int| i <= t < k ==> !is_space(s[t]),
    ensures
        without_spaces_from(s, i) == s.subrange(i, k) + without_spaces_from(s, k),
    decreases k - i,
{
    if i == k {
        assert(s.subrange(i, k) + without_spaces_from(s, k) =~= without_spaces_from(s, i));
    } else {
        lemma_without_spaces_word(s, i + 1, k);
        assert(seq![s[i]] + (s.subrange(i + 1, k) + without_spaces_from(s, k)) =~= s.subrange(i, k)
            + without_spaces_from(s, k));
    }
}

proof fn lemma_pieces_flatten(s: Seq<char>, i: int)
    requires
        0 <= i <= s.len(),
    ensures
        ws_pieces_from(s, i).flatten() == without_spaces_from(s, i),
    decreases s.len() - i,
{
    if i == s.len() {
    } else if is_space(s[i]) {
        lemma_pieces_flatten(s, i + 1);
    } else {
        let k = next_space(s, i + 1);
        lemma_next_space_bounds(s, i + 1);
        lemma_pieces_flatten(s, k);
        let w = s.subrange(i, k);
        let rest = ws_pieces_from(s, k);
        assert((seq![w] + rest).first() == w);
        assert((seq![w] + rest).drop_first() =~= rest);
        assert(ws_pieces_from(s, i).flatten() == w + without_spaces_from(s, k));
        lemma_next_space_nonspace(s, i + 1);
        assert(forall|t: int| i <= t < k ==> !is_space(s[t]));
        lemma_without_spaces_word(s, i, k);
    }
}

/// True when every piece of `ps` is non-empty and free of whitespace.
pub open spec fn no_space_pieces(ps: Seq<Seq<char>>) -> bool {
    &&& forall|t: int| 0 <= t < ps.len() ==> (#[trigger] ps[t]).len() > 0
    &&& forall|t: int, u: int|
        0 <= t < ps.len() && 0 <= u < ps[t].len() ==> !is_space(#[trigger] ps[t][u])
}

proof fn lemma_pieces_clean(s: Seq<char>, i: int)
    requires
        0 <= i <= s.len(),
    ensures
        no_space_pieces(ws_pieces_from(s, i)),
    decreases s.len() - i,
{
    if i == s.len() {
    } else if is_space(s[i]) {
        lemma_pieces_clean(s, i + 1);
    } else {
        let k = next_space(s, i + 1);
        lemma_next_space_bounds(s, i + 1);
        lemma_next_space_nonspace(s, i + 1);
        lemma_pieces_clean(s, k);
        let w = s.subrange(i, k);
        let rest = ws_pieces_from(s, k);
        let ps = seq![w] + rest;
        assert(ws_pieces_from(s, i) == ps);
        assert forall|t: int| 0 <= t < ps.len() implies (#[trigger] ps[t]).len() > 0 by {
            if t == 0 {
                assert(ps[t] == w);
            } else {
                assert(ps[t] == rest[t - 1]);
            }
        }
        assert forall|t: int, u: int|
            0 <= t < ps.len() && 0 <= u < ps[t].len() implies !is_space(#[trigger] ps[t][u]) by {
            if t == 0 {
                assert(ps[t] == w);
                assert(ps[t][u] == s[i + u]);
                assert(!is_space(s[i + u]));
            } else {
                assert(ps[t] == rest[t - 1]);
            }
        }
        assert(no_space_pieces(ps));
    }
}

/// Law: concatenating the pieces of a whitespace split reconstructs the buffer
/// with its whitespace removed; no piece is empty and no piece contains a
/// whitespace character.  Joining the pieces with any single separator is
/// therefore the buffer with each whitespace run collapsed to one separator.
pub proof fn lemma_ws_pieces_reconstruct(s: Seq<char>)
    ensures
        ws_pieces(s).flatten() == without_spaces(s),
        no_space_pieces(ws_pieces(s)),
{
    lemma_pieces_flatten(s, 0);
    lemma_pieces_clean(s, 0);
}

/// Law: an empty buffer has no whitespace-separated pieces.
pub proof fn lemma_ws_pieces_empty()
    ensures
        ws_pieces(Seq::<char>::empty()) == Seq::<Seq<char>>::empty(),
{
}

/// Law: two freshly constructed whitespace splitters over equal buffers hold
/// identical piece sequences, in the same order.
pub proof fn lemma_split_whitespace_idempotent(w1: Whitespace, w2: Whitespace)
    requires
        w1.text() == w2.text(),
        w1.remaining() == ws_pieces(w1.text()),
        w2.remaining() == ws_pieces(w2.text()),
    ensures
        w1.remaining() == w2.remaining(),
{
}

} // verus!

