//! Service detection: the banner that an open port sends.

use vstd::prelude::*;
use crate::text::{is_ws, lemma_trim_shape, string_of, trim, trim_chars};

verus! {

/// Bytes that the banner keeps: ASCII graphic characters and ASCII white
/// space (space, tab, line feed, form feed, carriage return).
pub open spec fn banner_byte(b: u8) -> bool {
    (0x21 <= b && b <= 0x7e) || b == 0x20 || b == 0x09 || b == 0x0a || b == 0x0c || b == 0x0d
}

/// The characters that the banner keeps: those of the kept bytes.
pub open spec fn banner_char(c: char) -> bool {
    ('!' <= c && c <= '~') || c == ' ' || c == '\t' || c == '\n' || c == '\u{c}' || c == '\r'
}

/// The kept bytes, in order, as characters.
///
/// The text is read as `String::from_utf8_lossy` reads it, then only ASCII
/// characters are kept; in UTF-8 the ASCII characters of the decoded text
/// are exactly the ASCII bytes, in order, so the bytes are kept directly.
pub open spec fn banner_chars(bytes: Seq<u8>) -> Seq<char>
    decreases bytes.len(),
{
    if bytes.len() == 0 {
        seq![]
    } else if banner_byte(bytes.last()) {
        banner_chars(bytes.drop_last()).push(bytes.last() as char)
    } else {
        banner_chars(bytes.drop_last())
    }
}

/// The first 64 characters (all of them where there are fewer).
pub open spec fn first_64(s: Seq<char>) -> Seq<char> {
    if s.len() > 64 {
        s.take(64)
    } else {
        s
    }
}

/// The banner of a reply: the kept characters, at most 64, trimmed; none
/// where nothing is left.
pub open spec fn banner_of(bytes: Seq<u8>) -> Option<Seq<char>> {
    let t = trim(first_64(banner_chars(bytes)));
    if t.len() == 0 {
        None
    } else {
        Some(t)
    }
}

fn is_banner_byte(b: u8) -> (r: bool)
    ensures
        r == banner_byte(b),
{
    (0x21 <= b && b <= 0x7e) || b == 0x20 || b == 0x09 || b == 0x0a || b == 0x0c || b == 0x0d
}

/// Attempt to read a service banner from the first bytes that an open TCP
/// connection sent.
pub fn clean_banner(bytes: &[u8]) -> (r: Option<String>)
    ensures
        r matches Some(s) ==> banner_of(bytes@) == Some(s@),
        r is None ==> banner_of(bytes@) is None,
{
    let mut kept: Vec<char> = Vec::new();
    for i in 0..bytes.len()
        invariant
            kept@ == first_64(banner_chars(bytes@.take(i as int))),
    {
        let b = bytes[i];
        let ghost prev = banner_chars(bytes@.take(i as int));
        assert(bytes@.take(i + 1).drop_last() =~= bytes@.take(i as int));
        if is_banner_byte(b) {
            if kept.len() < 64 {
                kept.push(b as char);
            }
            assert(first_64(prev.push(b as char)) =~= if prev.len() >= 64 {
                first_64(prev)
            } else {
                first_64(prev).push(b as char)
            });
        }
    }
    assert(bytes@.take(bytes@.len() as int) =~= bytes@);
    let t = trim_chars(&kept);
    if t.len() == 0 {
        None
    } else {
        Some(string_of(&t))
    }
}

proof fn lemma_banner_chars_kept(bytes: Seq<u8>)
    ensures
        banner_chars(bytes).len() <= bytes.len(),
        forall|k: int|
            0 <= k < banner_chars(bytes).len() ==> banner_char(#[trigger] banner_chars(bytes)[k]),
    decreases bytes.len(),
{
    if bytes.len() > 0 {
        lemma_banner_chars_kept(bytes.drop_last());
        let prev = banner_chars(bytes.drop_last());
        assert forall|k: int| 0 <= k < banner_chars(bytes).len() implies banner_char(
            #[trigger] banner_chars(bytes)[k],
        ) by {
            if k < prev.len() {
                assert(banner_chars(bytes)[k] == prev[k]);
            } else {
                let b = bytes.last();
                assert(banner_byte(b));
                assert((b as char) as int == b as int);
                assert(banner_char(b as char));
            }
        }
    }
}

/// A banner is never empty, holds at most 64 characters, starts and ends
/// with a character that is not white space, and holds only ASCII graphic
/// characters and ASCII white space.
pub proof fn law_banner_shape(bytes: Seq<u8>)
    ensures
        banner_of(bytes) matches Some(t) ==> {
            &&& 1 <= t.len() <= 64
            &&& !is_ws(t[0])
            &&& !is_ws(t.last())
            &&& forall|k: int| 0 <= k < t.len() ==> banner_char(#[trigger] t[k])
        },
{
    let c = banner_chars(bytes);
    let f = first_64(c);
    lemma_banner_chars_kept(bytes);
    lemma_trim_shape(f);
    if let Some(t) = banner_of(bytes) {
        let (i, j) = choose|i: int, j: int| 0 <= i <= j <= f.len() && trim(f) == f.subrange(i, j);
        assert forall|k: int| 0 <= k < t.len() implies banner_char(#[trigger] t[k]) by {
            assert(t[k] == f[i + k]);
            assert(f[i + k] == c[i + k]);
        }
    }
}

} // verus!
