//! Splitting utilities for owned text buffers.
//!
//! The crate packages an owned string together with a cursor that walks its
//! pieces, so the buffer and the splitter travel as a single value.  Splitting
//! on whitespace is implemented and verified here; splitting on a compiled
//! pattern delegates the match search to the `regex` crate.  A byte-oriented
//! scanner reports UTF-8 character boundaries from either end of a buffer.
#![allow(unused_imports)]

use vstd::prelude::*;

pub mod into_split;
pub mod re;
pub mod split_end;
pub mod utf8;

pub use into_split::IntoSplitIter;
pub use into_split::IntoSplitRegex;
pub use into_split::IntoSplitRegexAndThen;
pub use into_split::IntoSplitRegexMap;
pub use into_split::IntoSplitRegexRef;
pub use into_split::IntoSplitRegexRefAndThen;
pub use into_split::IntoSplitRegexRefMap;
pub use into_split::IntoSplitWhitespace;
pub use into_split::IntoSplitWhitespaceAndThen;
pub use into_split::IntoSplitWhitespaceMap;
pub use re::IntoRegex;
pub use re::Pattern;
pub use re::PatternError;
pub use split_end::SplitEnd;
pub use utf8::char_boundaries;
pub use utf8::Utf8Boundaries;
pub use utf8::Utf8DecodeError;

verus! {

/// A character that separates whitespace-split pieces: the Unicode
/// `White_Space` set, as `char::is_whitespace` recognises it.
pub open spec fn is_space(c: char) -> bool {
    ||| c == ' '
    ||| c == '\t'
    ||| c == '\n'
    ||| c == '\u{b}'
    ||| c == '\u{c}'
    ||| c == '\r'
    ||| c == '\u{85}'
    ||| c == '\u{a0}'
    ||| c == '\u{1680}'
    ||| ('\u{2000}' <= c && c <= '\u{200a}')
    ||| c == '\u{2028}'
    ||| c == '\u{2029}'
    ||| c == '\u{202f}'
    ||| c == '\u{205f}'
    ||| c == '\u{3000}'
}

/// True when `x` is a value that `fun` can return when handed an owned copy
/// of the characters `piece`.
pub open spec fn transforms<F, R>(fun: F, piece: Seq<char>, x: R) -> bool where F: FnOnce(
    String,
) -> R {
    exists|p: String| p@ == piece && #[trigger] call_ensures(fun, (p,), x)
}

/// Decides [`is_space`] for one character.
pub fn is_space_char(c: char) -> (b: bool)
    ensures
        b == is_space(c),
{
    c == ' ' || c == '\t' || c == '\n' || c == '\u{b}' || c == '\u{c}' || c == '\r'
        || c == '\u{85}' || c == '\u{a0}' || c == '\u{1680}'
        || ('\u{2000}' <= c && c <= '\u{200a}') || c == '\u{2028}' || c == '\u{2029}'
        || c == '\u{202f}' || c == '\u{205f}' || c == '\u{3000}'
}

} // verus!
