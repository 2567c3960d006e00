//! UTF-8 boundary scanning over raw byte buffers.
//!
//! Given bytes, the scanner lazily reports character-boundary offsets from the
//! front and from the back, relative to the whole buffer.  Invalid encoding is
//! tolerated: a step that finds no valid character reports a decoding failure
//! as its item, skips one byte, and scanning continues past the bad data.

use vstd::prelude::*;

verus! {

use vstd::utf8::decode_first_codepoint;
use vstd::utf8::is_continuation_byte;
use vstd::utf8::is_leading_byte_width_1;
use vstd::utf8::is_leading_byte_width_2;
use vstd::utf8::is_leading_byte_width_3;
use vstd::utf8::is_leading_byte_width_4;
use vstd::utf8::codepoint_width_2;
use vstd::utf8::codepoint_width_3;
use vstd::utf8::codepoint_width_4;
use vstd::utf8::length_of_first_scalar;
use vstd::utf8::valid_first_scalar;
use vstd::utf8::encode_scalar;
use vstd::utf8::encode_utf8;
use vstd::utf8::char_is_scalar;
use vstd::utf8::pop_first_scalar;
use vstd::utf8::length_of_last_scalar;
use vstd::utf8::valid_utf8;
use vstd::string::StrSliceExecFns;
use vstd::string::StringSliceAdditionalSpecFns;

/// The byte length of the character that a byte sequence starts with, or
/// `None` when no valid character encoding starts it.
pub open spec fn first_char_len(b: Seq<u8>) -> Option<int> {
    if valid_first_scalar(b) {
        Some(length_of_first_scalar(b))
    } else {
        None
    }
}

proof fn lemma_width_2_range(b0: u8, b1: u8)
    by (bit_vector)
    requires
        is_leading_byte_width_2(b0),
        is_continuation_byte(b1),
    ensures
        codepoint_width_2(b0, b1) <= 0x7ff,
        codepoint_width_2(b0, b1) >= 0x80 <==> b0 >= 0xc2,
{
}

proof fn lemma_width_3_range(b0: u8, b1: u8, b2: u8)
    by (bit_vector)
    requires
        is_leading_byte_width_3(b0),
        is_continuation_byte(b1),
        is_continuation_byte(b2),
    ensures
        codepoint_width_3(b0, b1, b2) <= 0xffff,
        codepoint_width_3(b0, b1, b2) >= 0x800 <==> (b0 != 0xe0 || b1 >= 0xa0),
        (0xd800 <= codepoint_width_3(b0, b1, b2) <= 0xdfff) <==> (b0 == 0xed && b1 >= 0xa0),
{
}

proof fn lemma_width_4_range(b0: u8, b1: u8, b2: u8, b3: u8)
    by (bit_vector)
    requires
        is_leading_byte_width_4(b0),
        is_continuation_byte(b1),
        is_continuation_byte(b2),
        is_continuation_byte(b3),
    ensures
        codepoint_width_4(b0, b1, b2, b3) >= 0x10000 <==> (b0 != 0xf0 || b1 >= 0x90),
        codepoint_width_4(b0, b1, b2, b3) <= 0x10ffff <==> (b0 < 0xf4 || (b0 == 0xf4 && b1
            <= 0x8f)),
{
}

/// The byte length of the character starting at `lo` in the window
/// `bytes[lo..hi]`, or `None` when the window does not start with a valid
/// character encoding.
fn utf8_first_len(bytes: &[u8], lo: usize, hi: usize) -> (r: Option<usize>)
    requires
        lo <= hi <= bytes@.len(),
    ensures
        r is None <==> first_char_len(bytes@.subrange(lo as int, hi as int)) is None,
        r matches Some(l) ==> first_char_len(bytes@.subrange(lo as int, hi as int)) == Some(
            l as int,
        ) && 1 <= l <= hi - lo,
{
    let ghost w = bytes@.subrange(lo as int, hi as int);
    if lo == hi {
        return None;
    }
    let b0 = bytes[lo];
    assert(w[0] == b0);
    if b0 < 0x80 {
        return Some(1);
    }
    if b0 < 0xc2 {
        proof {
            if 0xc0 <= b0 && w.len() >= 2 && is_continuation_byte(w[1]) {
                lemma_width_2_range(b0, w[1]);
            }
        }
        return None;
    }
    if b0 <= 0xdf {
        if hi - lo >= 2 {
            let b1 = bytes[lo + 1];
            assert(w[1] == b1);
            if 0x80 <= b1 && b1 <= 0xbf {
                proof {
                    lemma_width_2_range(b0, b1);
                }
                return Some(2);
            }
        }
        return None;
    }
    if b0 <= 0xef {
        if hi - lo >= 3 {
            let b1 = bytes[lo + 1];
            let b2 = bytes[lo + 2];
            assert(w[1] == b1 && w[2] == b2);
            if 0x80 <= b1 && b1 <= 0xbf && 0x80 <= b2 && b2 <= 0xbf {
                proof {
                    lemma_width_3_range(b0, b1, b2);
                }
                if !(b0 == 0xe0 && b1 < 0xa0) && !(b0 == 0xed && b1 >= 0xa0) {
                    return Some(3);
                } else {
                    return None;
                }
            }
        }
        proof {
            if w.len() >= 3 && is_continuation_byte(w[1]) && is_continuation_byte(w[2]) {
                lemma_width_3_range(b0, w[1], w[2]);
            }
        }
        return None;
    }
    if b0 <= 0xf4 {
        if hi - lo >= 4 {
            let b1 = bytes[lo + 1];
            let b2 = bytes[lo + 2];
            let b3 = bytes[lo + 3];
            assert(w[1] == b1 && w[2] == b2 && w[3] == b3);
            if 0x80 <= b1 && b1 <= 0xbf && 0x80 <= b2 && b2 <= 0xbf && 0x80 <= b3 && b3 <= 0xbf {
                proof {
                    lemma_width_4_range(b0, b1, b2, b3);
                }
                if !(b0 == 0xf0 && b1 < 0x90) && !(b0 == 0xf4 && b1 > 0x8f) {
                    return Some(4);
                } else {
                    return None;
                }
            }
        }
        proof {
            if w.len() >= 4 && is_continuation_byte(w[1]) && is_continuation_byte(w[2])
                && is_continuation_byte(w[3]) {
                lemma_width_4_range(b0, w[1], w[2], w[3]);
            }
        }
        return None;
    }
    proof {
        if b0 <= 0xf7 && w.len() >= 4 && is_continuation_byte(w[1]) && is_continuation_byte(w[2])
            && is_continuation_byte(w[3]) {
            lemma_width_4_range(b0, w[1], w[2], w[3]);
        }
    }
    None
}

proof fn lemma_encode_concat(a: Seq<char>, b: Seq<char>)
    ensures
        encode_utf8(a + b) == encode_utf8(a) + encode_utf8(b),
    decreases a.len(),
{
    if a.len() == 0 {
        assert(a + b =~= b);
        assert(encode_utf8(a) + encode_utf8(b) =~= encode_utf8(b));
    } else {
        assert((a + b).drop_first() =~= a.drop_first() + b);
        lemma_encode_concat(a.drop_first(), b);
        assert(encode_utf8(a + b) =~= encode_utf8(a) + encode_utf8(b));
    }
}

proof fn lemma_encode_snoc(a: Seq<char>, c: char)
    ensures
        encode_utf8(a.push(c)) == encode_utf8(a) + encode_scalar(c as u32),
{
    assert(a.push(c) =~= a + seq![c]);
    lemma_encode_concat(a, seq![c]);
    assert(seq![c].drop_first() =~= Seq::<char>::empty());
    assert(encode_utf8(seq![c]) == encode_scalar(seq![c][0] as u32) + encode_utf8(
        seq![c].drop_first(),
    ));
    assert(encode_utf8(Seq::<char>::empty()) =~= Seq::<u8>::empty());
    assert(encode_scalar(c as u32) + Seq::<u8>::empty() =~= encode_scalar(c as u32));
}

/// The number of bytes the UTF-8 encoding of one character takes.
fn char_len_utf8(c: char) -> (l: usize)
    ensures
        l as int == encode_scalar(c as u32).len(),
        1 <= l <= 4,
{
    proof {
        char_is_scalar(c);
    }
    let u = c as u32;
    if u < 0x80 {
        1
    } else if u < 0x800 {
        2
    } else if u < 0x10000 {
        3
    } else {
        4
    }
}

/// Every character-boundary byte offset of `s`, in order: `0`, then the
/// offset just past each character; the last entry is the byte length of the
/// whole string.
pub fn char_boundaries(s: &str) -> (r: Vec<usize>)
    ensures
        r@.len() == s@.len() + 1,
        forall|i: int| 0 <= i < r@.len() ==> r@[i] == encode_utf8(s@.take(i)).len(),
{
    let n = s.unicode_len();
    let total = s.as_bytes().len();
    proof {
        assert(total == encode_utf8(s@).len());
    }
    let mut r: Vec<usize> = Vec::new();
    let mut acc: usize = 0;
    let mut i: usize = 0;
    r.push(0);
    proof {
        assert(s@.take(0) =~= Seq::<char>::empty());
    }
    while i < n
        invariant
            i <= n,
            n == s@.len(),
            total == encode_utf8(s@).len(),
            acc == encode_utf8(s@.take(i as int)).len(),
            r@.len() == i + 1,
            forall|j: int| 0 <= j < r@.len() ==> r@[j] == encode_utf8(s@.take(j)).len(),
        decreases n - i,
    {
        let c = s.get_char(i);
        let l = char_len_utf8(c);
        proof {
            assert(s@.take(i as int).push(c) =~= s@.take(i + 1));
            lemma_encode_snoc(s@.take(i as int), c);
            assert(s@.take(i + 1) + s@.skip(i + 1) =~= s@);
            lemma_encode_concat(s@.take(i + 1), s@.skip(i + 1));
        }
        acc = acc + l;
        r.push(acc);
        i = i + 1;
    }
    r
}

/// True when `b` is exactly one valid character encoding.
pub open spec fn is_single_char(b: Seq<u8>) -> bool {
    valid_first_scalar(b) && length_of_first_scalar(b) == b.len()
}

/// The byte length of the character that a byte sequence ends with: the
/// shortest suffix that is exactly one valid character encoding, or `None`
/// when no suffix of at most four bytes is one.
pub open spec fn last_char_len(b: Seq<u8>) -> Option<int> {
    let n = b.len() as int;
    if n >= 1 && is_single_char(b.subrange(n - 1, n)) {
        Some(1)
    } else if n >= 2 && is_single_char(b.subrange(n - 2, n)) {
        Some(2)
    } else if n >= 3 && is_single_char(b.subrange(n - 3, n)) {
        Some(3)
    } else if n >= 4 && is_single_char(b.subrange(n - 4, n)) {
        Some(4)
    } else {
        None
    }
}

/// True when the window `bytes[lo..hi]` is exactly one valid character.
fn utf8_is_single(bytes: &[u8], lo: usize, hi: usize) -> (r: bool)
    requires
        lo <= hi <= bytes@.len(),
    ensures
        r == is_single_char(bytes@.subrange(lo as int, hi as int)),
{
    match utf8_first_len(bytes, lo, hi) {
        Some(l) => l == hi - lo,
        None => false,
    }
}

/// The byte length of the character ending at `hi` in the window
/// `bytes[lo..hi]`, or `None` when the window does not end with one.
fn utf8_last_len(bytes: &[u8], lo: usize, hi: usize) -> (r: Option<usize>)
    requires
        lo <= hi <= bytes@.len(),
    ensures
        r is None <==> last_char_len(bytes@.subrange(lo as int, hi as int)) is None,
        r matches Some(l) ==> last_char_len(bytes@.subrange(lo as int, hi as int)) == Some(l as int)
            && 1 <= l <= hi - lo,
{
    let ghost w = bytes@.subrange(lo as int, hi as int);
    proof {
        if w.len() >= 1 {
            assert(bytes@.subrange(hi - 1, hi as int) =~= w.subrange(w.len() - 1, w.len() as int));
        }
        if w.len() >= 2 {
            assert(bytes@.subrange(hi - 2, hi as int) =~= w.subrange(w.len() - 2, w.len() as int));
        }
        if w.len() >= 3 {
            assert(bytes@.subrange(hi - 3, hi as int) =~= w.subrange(w.len() - 3, w.len() as int));
        }
        if w.len() >= 4 {
            assert(bytes@.subrange(hi - 4, hi as int) =~= w.subrange(w.len() - 4, w.len() as int));
        }
    }
    if hi - lo >= 1 && utf8_is_single(bytes, hi - 1, hi) {
        Some(1)
    } else if hi - lo >= 2 && utf8_is_single(bytes, hi - 2, hi) {
        Some(2)
    } else if hi - lo >= 3 && utf8_is_single(bytes, hi - 3, hi) {
        Some(3)
    } else if hi - lo >= 4 && utf8_is_single(bytes, hi - 4, hi) {
        Some(4)
    } else {
        None
    }
}

proof fn lemma_first_bytes(w: Seq<u8>)
    requires
        valid_first_scalar(w),
    ensures
        1 <= length_of_first_scalar(w) <= w.len(),
        !is_continuation_byte(w[0]),
        forall|i: int| 1 <= i < length_of_first_scalar(w) ==> is_continuation_byte(w[i]),
{
    if is_leading_byte_width_1(w[0]) {
    } else if is_leading_byte_width_2(w[0]) {
        assert(w.len() >= 2 && is_continuation_byte(w[1]));
    } else if is_leading_byte_width_3(w[0]) {
        assert(w.len() >= 3 && is_continuation_byte(w[1]) && is_continuation_byte(w[2]));
    } else {
        assert(w.len() >= 4 && is_continuation_byte(w[1]) && is_continuation_byte(w[2])
            && is_continuation_byte(w[3]));
    }
}

proof fn lemma_first_prefix(w1: Seq<u8>, w2: Seq<u8>)
    requires
        w1.len() <= w2.len(),
        forall|i: int| 0 <= i < w1.len() ==> w1[i] == w2[i],
    ensures
        valid_first_scalar(w1) ==> valid_first_scalar(w2) && length_of_first_scalar(w2)
            == length_of_first_scalar(w1),
        valid_first_scalar(w2) && length_of_first_scalar(w2) <= w1.len() ==> valid_first_scalar(w1)
            && length_of_first_scalar(w1) == length_of_first_scalar(w2),
{
    if valid_first_scalar(w1) {
        lemma_first_bytes(w1);
        assert(w1[0] == w2[0]);
        assert(decode_first_codepoint(w2) == decode_first_codepoint(w1));
    }
    if valid_first_scalar(w2) && length_of_first_scalar(w2) <= w1.len() {
        lemma_first_bytes(w2);
        assert(w1[0] == w2[0]);
        assert(decode_first_codepoint(w1) == decode_first_codepoint(w2));
    }
}

#[verifier::rlimit(50)]
proof fn lemma_valid_last(w: Seq<u8>)
    requires
        valid_utf8(w),
        w.len() > 0,
    ensures
        1 <= length_of_last_scalar(w) <= w.len(),
        is_single_char(w.subrange(w.len() - length_of_last_scalar(w), w.len() as int)),
        last_char_len(w) == Some(length_of_last_scalar(w)),
        valid_utf8(w.subrange(0, w.len() - length_of_last_scalar(w))),
        pop_first_scalar(w).len() > 0 ==> length_of_last_scalar(w) == length_of_last_scalar(
            pop_first_scalar(w),
        ),
        pop_first_scalar(w).len() == 0 ==> length_of_last_scalar(w) == w.len(),
    decreases w.len(),
{
    assert(valid_first_scalar(w));
    lemma_first_bytes(w);
    let n = w.len() as int;
    let l1 = length_of_first_scalar(w);
    let rest = pop_first_scalar(w);
    let m = rest.len() as int;
    assert(m == n - l1);
    assert(forall|j: int| 0 <= j < m ==> rest[j] == w[l1 + j]);
    if m == 0 {
        let suffix = w.subrange(0, n);
        assert(suffix =~= w);
        assert(length_of_last_scalar(w) == l1);
        assert forall|i: int| 1 <= i < l1 implies !is_single_char(
            #[trigger] w.subrange(n - i, n),
        ) by {
            assert(w.subrange(n - i, n)[0] == w[n - i]);
            assert(is_continuation_byte(w[n - i]));
        }
        assert(last_char_len(w) == Some(l1));
        assert(w.subrange(0, 0) =~= Seq::<u8>::empty());
    } else {
        lemma_valid_last(rest);
        let lr = length_of_last_scalar(rest);
        assert(rest[0] == w[l1]);
        assert(!is_continuation_byte(rest[0])) by {
            assert(valid_first_scalar(rest));
            lemma_first_bytes(rest);
        }
        assert(length_of_last_scalar(w) == lr) by {
            if m == 1 {
                assert(w[n - 1] == rest[0]);
            } else if m == 2 {
                assert(w[n - 1] == rest[1] && w[n - 2] == rest[0]);
            } else {
                assert(w[n - 1] == rest[m - 1] && w[n - 2] == rest[m - 2] && w[n - 3] == rest[m
                    - 3]);
            }
        }
        let lw = length_of_last_scalar(w);
        assert(w.subrange(n - lw, n) =~= rest.subrange(m - lr, m));
        assert forall|i: int| 1 <= i <= 4 && i <= m implies #[trigger] w.subrange(n - i, n)
            =~= rest.subrange(m - i, m) by {
        }
        assert(last_char_len(w) == Some(lw)) by {
            if lw >= 2 {
                assert(w.subrange(n - 1, n) =~= rest.subrange(m - 1, m));
            }
            if lw >= 3 {
                assert(w.subrange(n - 2, n) =~= rest.subrange(m - 2, m));
            }
            if lw >= 4 {
                assert(w.subrange(n - 3, n) =~= rest.subrange(m - 3, m));
            }
        }
        let front_w = w.subrange(0, n - lw);
        let front_rest = rest.subrange(0, m - lr);
        assert(front_w.len() == n - lw >= l1);
        lemma_first_prefix(front_w, w);
        assert(valid_first_scalar(front_w) && length_of_first_scalar(front_w) == l1) by {
            lemma_first_prefix(front_w, w);
            assert(forall|i: int| 0 <= i < front_w.len() ==> front_w[i] == w[i]);
        }
        assert(pop_first_scalar(front_w) =~= front_rest);
        assert(valid_utf8(front_w));
    }
}

/// A step of the boundary scanner found no valid character encoding.
#[derive(Clone, Copy, Debug, PartialEq, Eq, Structural)]
pub struct Utf8DecodeError;

/// One reported boundary: a byte offset into the full buffer, or a decoding
/// failure.
pub type BoundaryItem = Result<int, Utf8DecodeError>;

/// The items a forward scan of the window `b[lo..hi]` still yields: each
/// character consumed from the front reports the offset just past it; `rp`
/// says whether the boundary at `hi` is still unreported; a step that finds
/// no valid character reports one failure, skips one byte, and the scan goes
/// on from there.
pub open spec fn fwd_scan(b: Seq<u8>, lo: int, hi: int, rp: bool) -> Seq<BoundaryItem>
    decreases hi - lo,
{
    if lo < 0 || hi > b.len() || lo >= hi {
        if 0 <= lo && lo == hi && hi <= b.len() && rp {
            seq![Ok(hi)]
        } else {
            seq![]
        }
    } else {
        match first_char_len(b.subrange(lo, hi)) {
            Some(l) => if lo + l < hi {
                seq![Ok(lo + l)] + fwd_scan(b, lo + l, hi, rp)
            } else if rp {
                seq![Ok(hi)]
            } else {
                seq![]
            },
            None => seq![Err(Utf8DecodeError)] + fwd_scan(b, lo + 1, hi, rp),
        }
    }
}

/// The items a backward scan of the window `b[lo..hi]` still yields: each
/// character consumed from the back reports the offset of its start; `lp`
/// says whether the boundary at `lo` is still unreported; a step that finds
/// no valid character reports one failure, skips one byte, and the scan goes
/// on from there.
pub open spec fn bwd_scan(b: Seq<u8>, lo: int, hi: int, lp: bool) -> Seq<BoundaryItem>
    decreases hi - lo,
{
    if lo < 0 || hi > b.len() || lo >= hi {
        if 0 <= lo && lo == hi && hi <= b.len() && lp {
            seq![Ok(lo)]
        } else {
            seq![]
        }
    } else {
        match last_char_len(b.subrange(lo, hi)) {
            Some(l) => if lo < hi - l {
                seq![Ok(hi - l)] + bwd_scan(b, lo, hi - l, lp)
            } else if lp {
                seq![Ok(lo)]
            } else {
                seq![]
            },
            None => seq![Err(Utf8DecodeError)] + bwd_scan(b, lo, hi - 1, lp),
        }
    }
}

/// All boundaries a fresh forward scan of `b` yields: `0`, then one offset per
/// character; an empty buffer yields nothing at all.
pub open spec fn utf8_boundaries_fwd(b: Seq<u8>) -> Seq<BoundaryItem> {
    if b.len() == 0 {
        seq![]
    } else {
        seq![Ok(0int)] + fwd_scan(b, 0, b.len() as int, true)
    }
}

/// All boundaries a fresh backward scan of `b` yields: the buffer length,
/// then one offset per character, scanning back; an empty buffer yields
/// nothing at all.
pub open spec fn utf8_boundaries_bwd(b: Seq<u8>) -> Seq<BoundaryItem> {
    if b.len() == 0 {
        seq![]
    } else {
        seq![Ok(b.len() as int)] + bwd_scan(b, 0, b.len() as int, true)
    }
}

/// The boundary item an exec step reports, as the model sees it.
pub open spec fn item_view(x: Result<usize, Utf8DecodeError>) -> BoundaryItem {
    match x {
        Ok(u) => Ok(u as int),
        Err(e) => Err(e),
    }
}

/// A lazy, double-ended scanner for the character boundaries of a byte
/// buffer.  The two ends share the unscanned window: each character is
/// consumed from one end or the other, and each end reports offsets relative
/// to the full buffer.  A step that finds no valid character reports a
/// decoding failure and skips one byte, so iteration can continue past bad
/// data; whether to stop is the caller's decision.
pub struct Utf8Boundaries<'a> {
    bytes: &'a [u8],
    lo: usize,
    hi: usize,
    lp: bool,
    rp: bool,
}

impl<'a> Utf8Boundaries<'a> {
    pub closed spec fn wf(self) -> bool {
        self.lo <= self.hi <= self.bytes@.len()
    }

    /// The buffer being scanned.
    pub closed spec fn buf(self) -> Seq<u8> {
        self.bytes@
    }

    /// The items the forward end still yields.
    pub closed spec fn fwd_items(self) -> Seq<BoundaryItem> {
        if self.lp {
            seq![Ok(self.lo as int)] + fwd_scan(self.bytes@, self.lo as int, self.hi as int, self.rp)
        } else {
            fwd_scan(self.bytes@, self.lo as int, self.hi as int, self.rp)
        }
    }

    /// The items the backward end still yields.
    pub closed spec fn bwd_items(self) -> Seq<BoundaryItem> {
        if self.rp {
            seq![Ok(self.hi as int)] + bwd_scan(self.bytes@, self.lo as int, self.hi as int, self.lp)
        } else {
            bwd_scan(self.bytes@, self.lo as int, self.hi as int, self.lp)
        }
    }

    /// A fresh scanner over `bytes`.
    pub fn new(bytes: &'a [u8]) -> (b: Utf8Boundaries<'a>)
        ensures
            b.wf(),
            b.buf() == bytes@,
            b.fwd_items() == utf8_boundaries_fwd(bytes@),
            b.bwd_items() == utf8_boundaries_bwd(bytes@),
    {
        let n = bytes.len();
        let nonempty = n > 0;
        Utf8Boundaries { bytes, lo: 0, hi: n, lp: nonempty, rp: nonempty }
    }

    /// The next boundary from the front: a byte offset into the full buffer,
    /// or a decoding failure, after which this end skips one byte and keeps
    /// scanning.
    pub fn next(&mut self) -> (r: Option<Result<usize, Utf8DecodeError>>)
        requires
            old(self).wf(),
        ensures
            final(self).wf(),
            final(self).buf() == old(self).buf(),
            r is None <==> old(self).fwd_items().len() == 0,
            r is None ==> *final(self) == *old(self),
            r matches Some(x) ==> item_view(x) == old(self).fwd_items()[0]
                && final(self).fwd_items() == old(self).fwd_items().drop_first(),
    {
        if self.lp {
            self.lp = false;
            proof {
                assert(final(self).fwd_items() =~= old(self).fwd_items().drop_first());
            }
            return Some(Ok(self.lo));
        }
        if self.lo == self.hi {
            if self.rp {
                self.rp = false;
                proof {
                    assert(final(self).fwd_items() =~= old(self).fwd_items().drop_first());
                }
                return Some(Ok(self.hi));
            }
            return None;
        }
        match utf8_first_len(self.bytes, self.lo, self.hi) {
            Some(l) => {
                if self.hi - self.lo > l {
                    self.lo = self.lo + l;
                    proof {
                        assert(final(self).fwd_items() =~= old(self).fwd_items().drop_first());
                    }
                    Some(Ok(self.lo))
                } else if self.rp {
                    self.lo = self.hi;
                    self.rp = false;
                    proof {
                        assert(final(self).fwd_items() =~= old(self).fwd_items().drop_first());
                    }
                    Some(Ok(self.hi))
                } else {
                    None
                }
            },
            None => {
                self.lo = self.lo + 1;
                proof {
                    assert(old(self).fwd_items()[0] == Err::<int, Utf8DecodeError>(
                        Utf8DecodeError,
                    ));
                    assert(final(self).fwd_items() =~= old(self).fwd_items().drop_first());
                }
                Some(Err(Utf8DecodeError))
            },
        }
    }

    /// The next boundary from the back: a byte offset into the full buffer,
    /// or a decoding failure, after which this end skips one byte and keeps
    /// scanning.
    pub fn next_back(&mut self) -> (r: Option<Result<usize, Utf8DecodeError>>)
        requires
            old(self).wf(),
        ensures
            final(self).wf(),
            final(self).buf() == old(self).buf(),
            r is None <==> old(self).bwd_items().len() == 0,
            r is None ==> *final(self) == *old(self),
            r matches Some(x) ==> item_view(x) == old(self).bwd_items()[0]
                && final(self).bwd_items() == old(self).bwd_items().drop_first(),
    {
        if self.rp {
            self.rp = false;
            proof {
                assert(final(self).bwd_items() =~= old(self).bwd_items().drop_first());
            }
            return Some(Ok(self.hi));
        }
        if self.lo == self.hi {
            if self.lp {
                self.lp = false;
                proof {
                    assert(final(self).bwd_items() =~= old(self).bwd_items().drop_first());
                }
                return Some(Ok(self.lo));
            }
            return None;
        }
        match utf8_last_len(self.bytes, self.lo, self.hi) {
            Some(l) => {
                if self.hi - self.lo > l {
                    self.hi = self.hi - l;
                    proof {
                        assert(final(self).bwd_items() =~= old(self).bwd_items().drop_first());
                    }
                    Some(Ok(self.hi))
                } else if self.lp {
                    self.hi = self.lo;
                    self.lp = false;
                    proof {
                        assert(final(self).bwd_items() =~= old(self).bwd_items().drop_first());
                    }
                    Some(Ok(self.lo))
                } else {
                    None
                }
            },
            None => {
                self.hi = self.hi - 1;
                proof {
                    assert(old(self).bwd_items()[0] == Err::<int, Utf8DecodeError>(
                        Utf8DecodeError,
                    ));
                    assert(final(self).bwd_items() =~= old(self).bwd_items().drop_first());
                }
                Some(Err(Utf8DecodeError))
            },
        }
    }
}


proof fn lemma_reverse_snoc<A>(x: Seq<A>, a: A)
    ensures
        (x + seq![a]).reverse() == seq![a] + x.reverse(),
{
    let l = x.len() as int;
    let lhs = (x + seq![a]).reverse();
    let rhs = seq![a] + x.reverse();
    assert(lhs.len() == l + 1 && rhs.len() == l + 1);
    assert forall|i: int| 0 <= i < l + 1 implies lhs[i] == rhs[i] by {
        assert(lhs[i] == (x + seq![a])[l - i]);
        if i == 0 {
            assert((x + seq![a])[l] == a);
        } else {
            assert((x + seq![a])[l - i] == x[l - i]);
            assert(rhs[i] == x.reverse()[i - 1]);
            assert(x.reverse()[i - 1] == x[l - 1 - (i - 1)]);
        }
    }
    assert(lhs =~= rhs);
}

proof fn lemma_bwd_peel_first(b: Seq<u8>, lo: int, hi: int)
    requires
        0 <= lo <= hi <= b.len(),
        valid_utf8(b.subrange(lo, hi)),
        lo < hi,
        lo + length_of_first_scalar(b.subrange(lo, hi)) < hi,
    ensures
        bwd_scan(b, lo, hi, true) == bwd_scan(
            b,
            lo + length_of_first_scalar(b.subrange(lo, hi)),
            hi,
            true,
        ) + seq![Ok(lo)],
    decreases hi - lo,
{
    let w = b.subrange(lo, hi);
    assert(valid_first_scalar(w));
    lemma_first_bytes(w);
    let l1 = length_of_first_scalar(w);
    lemma_valid_last(w);
    let lw = length_of_last_scalar(w);
    let rest = pop_first_scalar(w);
    assert(rest =~= b.subrange(lo + l1, hi));
    assert(rest.len() > 0);
    lemma_valid_last(rest);
    assert(lw == length_of_last_scalar(rest));
    assert(lw <= rest.len());
    assert(hi - lw >= lo + l1);
    assert(last_char_len(b.subrange(lo, hi)) == Some(lw));
    assert(last_char_len(b.subrange(lo + l1, hi)) == Some(lw));
    if hi - lw == lo + l1 {
        // exactly two characters: the backward scan steps over the last one,
        // then reports the window start from the single remaining character
        let head = b.subrange(lo, lo + l1);
        assert(forall|i: int| 0 <= i < head.len() ==> head[i] == w[i]);
        lemma_first_prefix(head, w);
        assert(valid_first_scalar(head) && length_of_first_scalar(head) == l1);
        assert(pop_first_scalar(head) =~= Seq::<u8>::empty());
        assert(valid_utf8(Seq::<u8>::empty()));
        assert(valid_utf8(head));
        lemma_valid_last(head);
        assert(last_char_len(b.subrange(lo, lo + l1)) == Some(l1));
        assert(bwd_scan(b, lo, lo + l1, true) =~= seq![Ok::<int, Utf8DecodeError>(lo)]);
        assert(bwd_scan(b, lo + l1, hi, true) =~= seq![Ok::<int, Utf8DecodeError>(lo + l1)]);
        assert(bwd_scan(b, lo, hi, true) =~= seq![Ok::<int, Utf8DecodeError>(hi - lw)] + bwd_scan(
            b,
            lo,
            hi - lw,
            true,
        ));
        assert(bwd_scan(b, lo, hi, true) =~= bwd_scan(b, lo + l1, hi, true) + seq![
            Ok::<int, Utf8DecodeError>(lo),
        ]);
    } else {
        let front = b.subrange(lo, hi - lw);
        assert(front =~= w.subrange(0, w.len() - lw));
        assert(valid_utf8(front));
        assert(forall|i: int| 0 <= i < front.len() ==> front[i] == w[i]);
        lemma_first_prefix(front, w);
        assert(valid_first_scalar(front) && length_of_first_scalar(front) == l1);
        lemma_bwd_peel_first(b, lo, hi - lw);
        assert(bwd_scan(b, lo, hi, true) =~= seq![Ok::<int, Utf8DecodeError>(hi - lw)] + bwd_scan(
            b,
            lo,
            hi - lw,
            true,
        ));
        assert(bwd_scan(b, lo + l1, hi, true) =~= seq![Ok::<int, Utf8DecodeError>(hi - lw)]
            + bwd_scan(b, lo + l1, hi - lw, true));
        assert(bwd_scan(b, lo, hi, true) =~= bwd_scan(b, lo + l1, hi, true) + seq![
            Ok::<int, Utf8DecodeError>(lo),
        ]);
    }
}

proof fn lemma_scan_reverse(b: Seq<u8>, lo: int, hi: int)
    requires
        0 <= lo <= hi <= b.len(),
        valid_utf8(b.subrange(lo, hi)),
    ensures
        seq![Ok::<int, Utf8DecodeError>(lo)] + fwd_scan(b, lo, hi, true) == (seq![
            Ok::<int, Utf8DecodeError>(hi),
        ] + bwd_scan(b, lo, hi, true)).reverse(),
        forall|t: int|
            0 <= t < fwd_scan(b, lo, hi, true).len() ==> (#[trigger] fwd_scan(b, lo, hi, true)[t])
                is Ok,
    decreases hi - lo,
{
    let w = b.subrange(lo, hi);
    if lo == hi {
        assert(fwd_scan(b, lo, hi, true) =~= seq![Ok::<int, Utf8DecodeError>(hi)]);
        assert(bwd_scan(b, lo, hi, true) =~= seq![Ok::<int, Utf8DecodeError>(lo)]);
        let two = seq![Ok::<int, Utf8DecodeError>(hi), Ok::<int, Utf8DecodeError>(lo)];
        assert(two.reverse().len() == 2);
        assert(two.reverse()[0] == two[1] && two.reverse()[1] == two[0]);
        assert(seq![Ok::<int, Utf8DecodeError>(lo)] + fwd_scan(b, lo, hi, true)
            =~= two.reverse());
    } else {
        assert(valid_first_scalar(w));
        lemma_first_bytes(w);
        let l1 = length_of_first_scalar(w);
        assert(first_char_len(b.subrange(lo, hi)) == Some(l1));
        if lo + l1 == hi {
            lemma_valid_last(w);
            assert(pop_first_scalar(w).len() == 0);
            assert(length_of_last_scalar(w) == l1);
            assert(last_char_len(b.subrange(lo, hi)) == Some(l1));
            assert(fwd_scan(b, lo, hi, true) =~= seq![Ok::<int, Utf8DecodeError>(hi)]);
            assert(bwd_scan(b, lo, hi, true) =~= seq![Ok::<int, Utf8DecodeError>(lo)]);
            let two = seq![Ok::<int, Utf8DecodeError>(hi), Ok::<int, Utf8DecodeError>(lo)];
            assert(two.reverse().len() == 2);
            assert(two.reverse()[0] == two[1] && two.reverse()[1] == two[0]);
            assert(seq![Ok::<int, Utf8DecodeError>(lo)] + fwd_scan(b, lo, hi, true)
                =~= two.reverse());
        } else {
            let rest = pop_first_scalar(w);
            assert(rest =~= b.subrange(lo + l1, hi));
            assert(valid_utf8(b.subrange(lo + l1, hi)));
            lemma_scan_reverse(b, lo + l1, hi);
            lemma_bwd_peel_first(b, lo, hi);
            let oklo = seq![Ok::<int, Utf8DecodeError>(lo)];
            let okmid = seq![Ok::<int, Utf8DecodeError>(lo + l1)];
            let okhi = seq![Ok::<int, Utf8DecodeError>(hi)];
            let fsub = fwd_scan(b, lo + l1, hi, true);
            let bsub = bwd_scan(b, lo + l1, hi, true);
            assert(fwd_scan(b, lo, hi, true) =~= okmid + fsub);
            assert(okhi + bwd_scan(b, lo, hi, true) =~= (okhi + bsub) + oklo);
            lemma_reverse_snoc(okhi + bsub, Ok::<int, Utf8DecodeError>(lo));
            assert(((okhi + bsub) + oklo).reverse() == oklo + (okhi + bsub).reverse());
            assert(oklo + (okhi + bsub).reverse() =~= oklo + (okmid + fsub));
            assert(oklo + fwd_scan(b, lo, hi, true) =~= oklo + (okmid + fsub));
            assert(oklo + fwd_scan(b, lo, hi, true) == (okhi + bwd_scan(
                b,
                lo,
                hi,
                true,
            )).reverse()) by {
                assert((okhi + bwd_scan(b, lo, hi, true)).reverse() == ((okhi + bsub)
                    + oklo).reverse());
            }
            assert forall|t: int| 0 <= t < fwd_scan(b, lo, hi, true).len() implies (
            #[trigger] fwd_scan(b, lo, hi, true)[t]) is Ok by {
                if t == 0 {
                    assert(fwd_scan(b, lo, hi, true)[0] == Ok::<int, Utf8DecodeError>(lo + l1));
                } else {
                    assert(fwd_scan(b, lo, hi, true)[t] == fsub[t - 1]);
                }
            }
        }
    }
}

/// Law: scanning a valid buffer forward and backward yields the same
/// boundaries, in reverse order, and no decoding failure is ever reported.
pub proof fn lemma_boundaries_round_trip(b: Seq<u8>)
    requires
        valid_utf8(b),
    ensures
        utf8_boundaries_fwd(b) == utf8_boundaries_bwd(b).reverse(),
        forall|t: int|
            0 <= t < utf8_boundaries_fwd(b).len() ==> (#[trigger] utf8_boundaries_fwd(b)[t]) is Ok,
{
    if b.len() == 0 {
        assert(utf8_boundaries_bwd(b).reverse() =~= utf8_boundaries_fwd(b));
    } else {
        let n = b.len() as int;
        assert(b.subrange(0, n) =~= b);
        lemma_scan_reverse(b, 0, n);
        assert(utf8_boundaries_fwd(b) == seq![Ok::<int, Utf8DecodeError>(0)] + fwd_scan(
            b,
            0,
            n,
            true,
        ));
        assert(utf8_boundaries_bwd(b) == seq![Ok::<int, Utf8DecodeError>(n)] + bwd_scan(
            b,
            0,
            n,
            true,
        ));
        assert forall|t: int| 0 <= t < utf8_boundaries_fwd(b).len() implies (
        #[trigger] utf8_boundaries_fwd(b)[t]) is Ok by {
            if t > 0 {
                assert(utf8_boundaries_fwd(b)[t] == fwd_scan(b, 0, n, true)[t - 1]);
            }
        }
    }
}


/// The byte length of the encoding of the first `i` characters of `chars`.
pub open spec fn encoded_prefix_len(chars: Seq<char>, i: int) -> int {
    encode_utf8(chars.take(i)).len() as int
}

proof fn lemma_fwd_scan_of_encoding(chars: Seq<char>, k: int)
    requires
        0 <= k < chars.len(),
    ensures
        fwd_scan(
            encode_utf8(chars),
            encoded_prefix_len(chars, k),
            encode_utf8(chars).len() as int,
            true,
        ) == Seq::new((chars.len() - k) as nat, |i: int| Ok::<int, Utf8DecodeError>(
            encoded_prefix_len(chars, k + 1 + i),
        )),
    decreases chars.len() - k,
{
    let b = encode_utf8(chars);
    let n = b.len() as int;
    let lo = encoded_prefix_len(chars, k);
    let tail = chars.skip(k);
    assert(chars.take(k) + tail =~= chars);
    lemma_encode_concat(chars.take(k), tail);
    assert(0 <= lo <= n);
    assert(b.subrange(lo, n) =~= encode_utf8(tail));
    vstd::utf8::encode_utf8_first_scalar(tail);
    assert(tail[0] == chars[k]);
    let l = encode_scalar(chars[k] as u32).len() as int;
    assert(length_of_first_scalar(encode_utf8(tail)) == l);
    assert(first_char_len(b.subrange(lo, n)) == Some(l));
    assert(chars.take(k).push(chars[k]) =~= chars.take(k + 1));
    lemma_encode_snoc(chars.take(k), chars[k]);
    assert(encoded_prefix_len(chars, k + 1) == lo + l);
    assert(1 <= l);
    assert(lo + l <= n) by {
        assert(chars.take(k + 1) + chars.skip(k + 1) =~= chars);
        lemma_encode_concat(chars.take(k + 1), chars.skip(k + 1));
    }
    let expect = Seq::new((chars.len() - k) as nat, |i: int| Ok::<int, Utf8DecodeError>(
        encoded_prefix_len(chars, k + 1 + i),
    ));
    if k + 1 == chars.len() {
        assert(chars.take(k + 1) =~= chars);
        assert(lo + l == n);
        assert(fwd_scan(b, lo, n, true) =~= seq![Ok::<int, Utf8DecodeError>(n)]);
        assert(expect =~= seq![Ok::<int, Utf8DecodeError>(n)]);
    } else {
        assert(lo + l < n) by {
            assert(chars.take(k + 1) + chars.skip(k + 1) =~= chars);
            lemma_encode_concat(chars.take(k + 1), chars.skip(k + 1));
            vstd::utf8::encode_utf8_first_scalar(chars.skip(k + 1));
            lemma_first_bytes(encode_utf8(chars.skip(k + 1)));
        }
        lemma_fwd_scan_of_encoding(chars, k + 1);
        assert(fwd_scan(b, lo, n, true) == seq![Ok::<int, Utf8DecodeError>(lo + l)] + fwd_scan(
            b,
            lo + l,
            n,
            true,
        ));
        assert(fwd_scan(b, lo, n, true) =~= expect);
    }
}

/// Law: scanning the UTF-8 encoding of a character sequence forward reports
/// exactly the character-boundary offsets of that sequence, in order: the
/// offsets that [`char_boundaries`] computes on the corresponding string.
pub proof fn lemma_scan_matches_char_boundaries(chars: Seq<char>)
    ensures
        chars.len() > 0 ==> utf8_boundaries_fwd(encode_utf8(chars)) == Seq::new(
            chars.len() + 1,
            |i: int| Ok::<int, Utf8DecodeError>(encoded_prefix_len(chars, i)),
        ),
        chars.len() == 0 ==> utf8_boundaries_fwd(encode_utf8(chars)) == Seq::<
            BoundaryItem,
        >::empty(),
{
    if chars.len() == 0 {
        assert(encode_utf8(chars).len() == 0);
        assert(utf8_boundaries_fwd(encode_utf8(chars)) =~= Seq::<BoundaryItem>::empty());
    } else {
        let b = encode_utf8(chars);
        assert(b.len() > 0) by {
            vstd::utf8::encode_utf8_first_scalar(chars);
            lemma_first_bytes(b);
        }
        assert(chars.take(0) =~= Seq::<char>::empty());
        assert(encoded_prefix_len(chars, 0) == 0);
        lemma_fwd_scan_of_encoding(chars, 0);
        assert(utf8_boundaries_fwd(b) =~= Seq::new(
            chars.len() + 1,
            |i: int| Ok::<int, Utf8DecodeError>(encoded_prefix_len(chars, i)),
        ));
    }
}

} // verus!
