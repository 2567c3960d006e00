//! Pattern-based splitting: a compiled pattern type over the `regex` crate,
//! and the cursor that walks the pieces a pattern split produces.
//!
//! The match search itself is the regex engine's job and is taken on trust;
//! everything around it -- the pattern's source text, the cursor, and what the
//! piece sequence looks like -- is modelled and verified here.

use vstd::prelude::*;

verus! {

use vstd::string::StrSliceExecFns;
use vstd::string::StringExecFns;

use crate::transforms;

#[verifier::external_type_specification]
#[verifier::external_body]
pub struct ExRegex(regex::Regex);

/// Whether the regex crate compiles this pattern text: `Pattern::new` returns
/// `Ok` on exactly these inputs.
pub uninterp spec fn re_valid(pattern: Seq<char>) -> bool;

/// The pieces that splitting `text` on the pattern compiled from `pattern`
/// yields: the sub-strings of `text` between successive matches, in order.
pub uninterp spec fn re_split_spec(pattern: Seq<char>, text: Seq<char>) -> Seq<Seq<char>>;

/// True when `piece` is a contiguous part of `text`.
pub open spec fn is_piece_of(piece: Seq<char>, text: Seq<char>) -> bool {
    exists|a: int, b: int| 0 <= a <= b <= text.len() && piece == text.subrange(a, b)
}

/// True when `cuts` places every piece of `ps` as a contiguous span of
/// `text`, in left-to-right order without overlap, with the first span
/// starting at offset 0 and the last ending at the text's end.  The gaps
/// between consecutive spans are then exactly the matched separators: the
/// pieces lie outside them.
pub open spec fn pieces_in_order(ps: Seq<Seq<char>>, cuts: Seq<(int, int)>, text: Seq<char>) -> bool {
    &&& cuts.len() == ps.len()
    &&& forall|t: int| 0 <= t < cuts.len() ==> 0 <= (#[trigger] cuts[t]).0 <= cuts[t].1 <= text.len()
    &&& forall|t: int| 0 <= t < cuts.len() ==> ps[t] == text.subrange((#[trigger] cuts[t]).0, cuts[t].1)
    &&& forall|t: int| 0 <= t && t + 1 < cuts.len() ==> (#[trigger] cuts[t]).1 <= cuts[t + 1].0
    &&& cuts.len() > 0 ==> (cuts[0].0 == 0 && cuts[cuts.len() - 1].1 == text.len())
}

/// The views of a sequence of owned strings.
pub open spec fn views_of(v: Seq<String>) -> Seq<Seq<char>> {
    Seq::new(v.len(), |i: int| v[i]@)
}

/// A pattern's text was rejected by the pattern compiler.
#[derive(Clone, Copy, Debug, PartialEq, Eq, Structural)]
pub struct PatternError;

/// A compiled pattern, together with the pattern text it was compiled from.
/// Its view is the pattern text.  The only constructor compiles the matcher
/// from the stored text, so the two fields always describe the same pattern.
pub struct Pattern {
    re: regex::Regex,
    src: String,
}

impl View for Pattern {
    type V = Seq<char>;

    closed spec fn view(&self) -> Seq<char> {
        self.src@
    }
}

/// Relies on regex::Regex::new: compiling the same pattern text always
/// succeeds or fails the same way, and the compiled value matches as that
/// pattern text prescribes.
#[verifier::external_body]
fn compile_pattern(text: &str) -> (r: Result<Pattern, PatternError>)
    ensures
        r is Ok <==> re_valid(text@),
        r matches Ok(p) ==> p@ == text@,
{
    match regex::Regex::new(text) {
        Ok(re) => Ok(Pattern { re, src: text.to_owned() }),
        Err(_) => Err(PatternError),
    }
}

/// Relies on regex::Regex::split: it yields the sub-strings of the haystack
/// between successive matches, in left-to-right order -- one piece before
/// each match and one after the last, so there is always at least one piece,
/// the first piece starts at offset 0, the last ends at the haystack's end,
/// and the pieces never overlap.  An empty haystack holds at most one match
/// (an empty one), so it yields one empty piece, or two when the pattern
/// matches the empty string.
#[verifier::external_body]
fn regex_split_pieces(p: &Pattern, text: &str) -> (r: Vec<String>)
    ensures
        views_of(r@) == re_split_spec(p@, text@),
        r@.len() >= 1,
        forall|t: int| 0 <= t < r@.len() ==> is_piece_of((#[trigger] r@[t])@, text@),
        exists|cuts: Seq<(int, int)>| pieces_in_order(views_of(r@), cuts, text@),
        text@.len() == 0 ==> 1 <= r@.len() <= 2,
{
    p.re.split(text).map(|piece| piece.to_owned()).collect()
}

impl Pattern {
    /// Compiles a pattern from its textual form; `Err` exactly when the
    /// pattern compiler rejects the text.
    pub fn new(text: &str) -> (r: Result<Pattern, PatternError>)
        ensures
            r is Ok <==> re_valid(text@),
            r matches Ok(p) ==> p@ == text@,
    {
        compile_pattern(text)
    }

    /// The pieces `text` splits into on this pattern, as owned strings.
    pub fn split_text(&self, text: &str) -> (r: Vec<String>)
        ensures
            views_of(r@) == re_split_spec(self@, text@),
            re_split_spec(self@, text@).len() >= 1,
            forall|t: int|
                0 <= t < re_split_spec(self@, text@).len() ==> is_piece_of(
                    #[trigger] re_split_spec(self@, text@)[t],
                    text@,
                ),
            exists|cuts: Seq<(int, int)>| pieces_in_order(re_split_spec(self@, text@), cuts, text@),
            text@.len() == 0 ==> 1 <= re_split_spec(self@, text@).len() <= 2,
            text@.len() == 0 ==> forall|t: int|
                0 <= t < re_split_spec(self@, text@).len() ==> (#[trigger] re_split_spec(
                    self@,
                    text@,
                )[t]).len() == 0,
    {
        let r = regex_split_pieces(self, text);
        proof {
            assert(re_split_spec(self@, text@).len() == r@.len());
            assert forall|t: int| 0 <= t < re_split_spec(self@, text@).len() implies is_piece_of(
                #[trigger] re_split_spec(self@, text@)[t],
                text@,
            ) by {
                assert(re_split_spec(self@, text@)[t] == r@[t]@);
                assert(is_piece_of(r@[t]@, text@));
            }
            if text@.len() == 0 {
                assert forall|t: int| 0 <= t < re_split_spec(self@, text@).len() implies (
                #[trigger] re_split_spec(self@, text@)[t]).len() == 0 by {
                    assert(is_piece_of(re_split_spec(self@, text@)[t], text@));
                }
            }
        }
        r
    }
}

/// Accepts either an owned or a borrowed compiled pattern where a stable,
/// owned handle to the pattern is needed: an owned pattern is boxed, a
/// borrowed one passes through unchanged.  The handle's view is the pattern
/// text either way.
pub trait IntoRegex: Sized + View<V = Seq<char>> {
    type StableRegex: View<V = Seq<char>>;

    fn into_stable_regex(self) -> (r: Self::StableRegex)
        ensures
            r@ == self@,
    ;
}

impl IntoRegex for Pattern {
    type StableRegex = Box<Pattern>;

    fn into_stable_regex(self) -> (r: Box<Pattern>)
        ensures
            r@ == self@,
    {
        Box::new(self)
    }
}

impl<'a> IntoRegex for &'a Pattern {
    type StableRegex = &'a Pattern;

    fn into_stable_regex(self) -> (r: &'a Pattern)
        ensures
            r@ == self@,
    {
        self
    }
}

impl IntoRegex for Box<Pattern> {
    type StableRegex = Box<Pattern>;

    fn into_stable_regex(self) -> (r: Box<Pattern>)
        ensures
            r@ == self@,
    {
        self
    }
}

impl IntoRegex for std::rc::Rc<Pattern> {
    type StableRegex = std::rc::Rc<Pattern>;

    fn into_stable_regex(self) -> (r: std::rc::Rc<Pattern>)
        ensures
            r@ == self@,
    {
        self
    }
}

impl IntoRegex for std::sync::Arc<Pattern> {
    type StableRegex = std::sync::Arc<Pattern>;

    fn into_stable_regex(self) -> (r: std::sync::Arc<Pattern>)
        ensures
            r@ == self@,
    {
        self
    }
}

/// The pieces `ps` joined into one sequence with the fixed separator `sep`
/// between neighbouring pieces.
pub open spec fn join_with(ps: Seq<Seq<char>>, sep: Seq<char>) -> Seq<char>
    decreases ps.len(),
{
    if ps.len() == 0 {
        Seq::empty()
    } else if ps.len() == 1 {
        ps[0]
    } else {
        ps[0] + sep + join_with(ps.drop_first(), sep)
    }
}

proof fn lemma_piece_chars(piece: Seq<char>, text: Seq<char>)
    requires
        is_piece_of(piece, text),
    ensures
        forall|c: char| #[trigger] piece.contains(c) ==> text.contains(c),
{
    let (a, b): (int, int) = choose|a: int, b: int|
        0 <= a <= b <= text.len() && piece == text.subrange(a, b);
    assert forall|c: char| #[trigger] piece.contains(c) implies text.contains(c) by {
        let i = choose|i: int| 0 <= i < piece.len() && piece[i] == c;
        assert(0 <= a + i < text.len() && text[a + i] == c);
    }
}

/// Law: joining the pieces of a pattern split with any fixed separator never
/// introduces a character that is absent from both the non-matched spans of
/// the original text and the separator itself.
pub proof fn lemma_rejoin_no_new_chars(ps: Seq<Seq<char>>, text: Seq<char>, sep: Seq<char>)
    requires
        forall|t: int| 0 <= t < ps.len() ==> is_piece_of(#[trigger] ps[t], text),
    ensures
        forall|c: char|
            #[trigger] join_with(ps, sep).contains(c) ==> text.contains(c) || sep.contains(c),
    decreases ps.len(),
{
    if ps.len() == 0 {
    } else if ps.len() == 1 {
        lemma_piece_chars(ps[0], text);
    } else {
        let rest = ps.drop_first();
        assert(forall|t: int| 0 <= t < rest.len() ==> rest[t] == #[trigger] ps[t + 1]);
        lemma_rejoin_no_new_chars(rest, text, sep);
        lemma_piece_chars(ps[0], text);
        let whole = join_with(ps, sep);
        assert forall|c: char| #[trigger] whole.contains(c) implies text.contains(c)
            || sep.contains(c) by {
            let i = choose|i: int| 0 <= i < whole.len() && whole[i] == c;
            let n0 = ps[0].len() as int;
            let n1 = sep.len() as int;
            if i < n0 {
                assert(ps[0][i] == c);
                assert(ps[0].contains(c));
            } else if i < n0 + n1 {
                assert(sep[i - n0] == c);
                assert(sep.contains(c));
            } else {
                assert(join_with(rest, sep)[i - n0 - n1] == c);
                assert(join_with(rest, sep).contains(c));
            }
        }
    }
}

/// True when some position of the span holds the character `c`.
pub open spec fn within_span(span: (int, int), text: Seq<char>, c: char) -> bool {
    exists|i: int| span.0 <= i < span.1 && text[i] == c
}

/// True when some span of `cuts` holds the character `c`.
pub open spec fn within_spans(cuts: Seq<(int, int)>, text: Seq<char>, c: char) -> bool {
    exists|t: int| 0 <= t < cuts.len() && within_span(#[trigger] cuts[t], text, c)
}

/// Law: joining the pieces of a pattern split with any fixed separator draws
/// every character either from the separator or from inside one of the
/// pieces' own spans of the text.  The pieces' spans are the text outside the
/// matches, so rejoining reintroduces no character absent from the
/// non-matched spans.
pub proof fn lemma_rejoin_within_unmatched_spans(
    ps: Seq<Seq<char>>,
    cuts: Seq<(int, int)>,
    text: Seq<char>,
    sep: Seq<char>,
)
    requires
        cuts.len() == ps.len(),
        forall|t: int|
            0 <= t < cuts.len() ==> 0 <= (#[trigger] cuts[t]).0 <= cuts[t].1 <= text.len(),
        forall|t: int|
            0 <= t < cuts.len() ==> ps[t] == text.subrange((#[trigger] cuts[t]).0, cuts[t].1),
    ensures
        forall|c: char|
            #[trigger] join_with(ps, sep).contains(c) ==> sep.contains(c) || within_spans(
                cuts,
                text,
                c,
            ),
    decreases ps.len(),
{
    if ps.len() == 0 {
    } else if ps.len() == 1 {
        assert forall|c: char| #[trigger] join_with(ps, sep).contains(c) implies sep.contains(c)
            || within_spans(cuts, text, c) by {
            let u = choose|u: int| 0 <= u < ps[0].len() && ps[0][u] == c;
            assert(text[cuts[0].0 + u] == c);
            assert(within_span(cuts[0], text, c));
        }
    } else {
        let rest = ps.drop_first();
        let rcuts = cuts.drop_first();
        assert(forall|t: int| 0 <= t < rest.len() ==> rest[t] == #[trigger] ps[t + 1]);
        assert(forall|t: int| 0 <= t < rcuts.len() ==> rcuts[t] == #[trigger] cuts[t + 1]);
        lemma_rejoin_within_unmatched_spans(rest, rcuts, text, sep);
        let whole = join_with(ps, sep);
        assert forall|c: char| #[trigger] whole.contains(c) implies sep.contains(c)
            || within_spans(cuts, text, c) by {
            let i = choose|i: int| 0 <= i < whole.len() && whole[i] == c;
            let n0 = ps[0].len() as int;
            let n1 = sep.len() as int;
            if i < n0 {
                assert(ps[0][i] == c);
                assert(text[cuts[0].0 + i] == c);
                assert(within_span(cuts[0], text, c));
            } else if i < n0 + n1 {
                assert(sep[i - n0] == c);
                assert(sep.contains(c));
            } else {
                assert(join_with(rest, sep)[i - n0 - n1] == c);
                assert(join_with(rest, sep).contains(c));
                if !sep.contains(c) {
                    let t = choose|t: int| 0 <= t < rcuts.len() && within_span(rcuts[t], text, c);
                    assert(cuts[t + 1] == rcuts[t]);
                    assert(within_span(cuts[t + 1], text, c));
                }
            }
        }
    }
}

/// Law: one pattern and one text determine the piece sequence: two splits of
/// equal texts on patterns with equal pattern text yield identical pieces.
pub proof fn lemma_split_regex_idempotent(s1: Split, s2: Split, pat: Seq<char>, text: Seq<char>)
    requires
        s1.remaining() == re_split_spec(pat, text),
        s2.remaining() == re_split_spec(pat, text),
    ensures
        s1.remaining() == s2.remaining(),
{
}

/// A forward cursor over the pieces of one pattern split.
pub struct Split {
    pieces: Vec<String>,
    pos: usize,
}

impl Split {
    pub closed spec fn wf(self) -> bool {
        self.pos <= self.pieces@.len()
    }

    /// The pieces not yet yielded.
    pub closed spec fn remaining(self) -> Seq<Seq<char>> {
        views_of(self.pieces@).skip(self.pos as int)
    }

    /// A cursor over the given pieces.
    pub fn new(pieces: Vec<String>) -> (s: Split)
        ensures
            s.wf(),
            s.remaining() == views_of(pieces@),
    {
        let s = Split { pieces, pos: 0 };
        proof {
            assert(s.remaining() =~= views_of(s.pieces@));
        }
        s
    }

    /// The next piece, as an owned string; `None` once exhausted.
    pub fn next(&mut self) -> (r: Option<String>)
        requires
            old(self).wf(),
        ensures
            final(self).wf(),
            r is None ==> old(self).remaining().len() == 0 && final(self).remaining().len() == 0,
            r matches Some(x) ==> old(self).remaining().len() > 0 && x@ == old(
                self,
            ).remaining()[0] && final(self).remaining() == old(self).remaining().drop_first(),
    {
        if self.pos < self.pieces.len() {
            let x = self.pieces[self.pos].clone();
            self.pos = self.pos + 1;
            proof {
                assert(old(self).remaining().drop_first() =~= final(self).remaining());
                assert(x@ == old(self).remaining()[0]);
            }
            Some(x)
        } else {
            None
        }
    }

    /// Advance-and-transform: advances the cursor one piece, applies `fun` to
    /// the piece, and returns the transformed value; `None` once exhausted.
    pub fn next_map<R, F: FnOnce(String) -> R>(&mut self, fun: F) -> (r: Option<R>)
        requires
            old(self).wf(),
            forall|p: String|
                old(self).remaining().len() > 0 && p@ == old(self).remaining()[0]
                    ==> call_requires(fun, (p,)),
        ensures
            final(self).wf(),
            r is None ==> old(self).remaining().len() == 0 && final(self).remaining().len() == 0,
            r is Some ==> old(self).remaining().len() > 0,
            r is Some ==> transforms(fun, old(self).remaining()[0], r->0),
            r is Some ==> final(self).remaining() == old(self).remaining().drop_first(),
    {
        match self.next() {
            Some(p) => {
                let ghost gp = p;
                let x = fun(p);
                proof {
                    assert(gp@ == old(self).remaining()[0] && call_ensures(fun, (gp,), x));
                    assert(transforms(fun, old(self).remaining()[0], x));
                }
                Some(x)
            },
            None => None,
        }
    }
}

} // verus!
