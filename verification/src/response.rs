//! Requests and responses: how far back a request reaches, and compressed bodies.
use crate::text;
use crate::text::{chars_of, find_char, same_text, split_chars, string_of, trim_chars};
use vstd::prelude::*;

verus! {

/// The gzip stream of `data` at the default compression level.
pub uninterp spec fn gzip_of(data: Seq<u8>) -> Seq<u8>;

/// `flate2::write::GzEncoder` over a `Vec`, at `flate2::Compression::default()`:
/// the stream depends on the data alone, since the header carries neither a time
/// nor a name.
#[verifier::external_body]
pub(crate) fn gzip_bytes(data: &Vec<u8>) -> (r: Vec<u8>)
    ensures
        r@ == gzip_of(data@),
{
    let mut enc = flate2::write::GzEncoder::new(Vec::new(), flate2::Compression::default());
    let _ = std::io::Write::write_all(&mut enc, data);
    enc.finish().unwrap_or_default()
}

/// A body to send, and whether it is a gzip stream.
#[derive(Debug, Clone)]
pub struct Payload {
    pub bytes: Vec<u8>,
    pub gzip: bool,
}

/// The body `body` as it is sent: compressed where `gzip` asks for it.
pub fn encode_body(body: Vec<u8>, gzip: bool) -> (r: Payload)
    ensures
        r.gzip == gzip,
        r.bytes@ == if gzip {
            gzip_of(body@)
        } else {
            body@
        },
{
    if gzip {
        Payload { bytes: gzip_bytes(&body), gzip: true }
    } else {
        Payload { bytes: body, gzip: false }
    }
}

/// Whether a parameter gives the weight zero.
pub open spec fn is_zero_weight(p: Seq<char>) -> bool {
    &&& p.len() > 2
    &&& p[0] == 'q'
    &&& p[1] == '='
    &&& forall|i: int| 2 <= i < p.len() ==> (#[trigger] p[i] == '0' || p[i] == '.')
}

/// Whether one entry of an `Accept-Encoding` header asks for gzip.
pub open spec fn entry_asks(entry: Seq<char>) -> bool {
    let semi = text::first_index(entry, ';');
    &&& text::trimmed(entry.take(semi)) == "gzip"@
    &&& semi < entry.len() ==> !is_zero_weight(text::trimmed(entry.skip(semi + 1)))
}

/// Whether an `Accept-Encoding` header asks for gzip.
pub open spec fn header_asks(header: Seq<char>) -> bool {
    exists|i: int|
        0 <= i < text::pieces(header, ',').len() && entry_asks(
            #[trigger] text::pieces(header, ',')[i],
        )
}

/// Whether a parameter gives the weight zero.
fn zero_weight(p: &Vec<char>) -> (r: bool)
    ensures
        r == is_zero_weight(p@),
{
    if p.len() <= 2 || p[0] != 'q' || p[1] != '=' {
        return false;
    }
    let mut i: usize = 2;
    while i < p.len()
        invariant
            2 <= i <= p@.len(),
            forall|k: int| 2 <= k < i ==> (#[trigger] p@[k] == '0' || p@[k] == '.'),
        decreases p.len() - i,
    {
        if p[i] != '0' && p[i] != '.' {
            return false;
        }
        i = i + 1;
    }
    true
}

/// Whether one entry of an `Accept-Encoding` header asks for gzip.
fn asks(entry: &Vec<char>) -> (r: bool)
    ensures
        r == entry_asks(entry@),
{
    let semi: usize = find_char(entry, ';');
    let name: String = string_of(entry, 0, semi);
    let coding: Vec<char> = trim_chars(name.as_str());
    let coding_text: String = string_of(&coding, 0, coding.len());
    proof {
        assert(name@ =~= entry@.take(semi as int));
        assert(coding_text@ =~= coding@);
    }
    if !same_text(coding_text.as_str(), "gzip") {
        return false;
    }
    if semi == entry.len() {
        return true;
    }
    let params: String = string_of(entry, semi + 1, entry.len());
    assert(params@ =~= entry@.skip(semi + 1));
    let weight: Vec<char> = trim_chars(params.as_str());
    !zero_weight(&weight)
}

/// Whether an `Accept-Encoding` header asks for gzip.
pub fn accepts_gzip(header: &str) -> (r: bool)
    ensures
        r == header_asks(header@),
{
    let cs: Vec<char> = chars_of(header);
    let entries: Vec<Vec<char>> = split_chars(&cs, ',');
    let ghost views = text::piece_views(entries@);
    let mut i: usize = 0;
    while i < entries.len()
        invariant
            i <= entries@.len(),
            views == text::piece_views(entries@),
            views == text::pieces(header@, ','),
            forall|k: int| 0 <= k < i ==> !entry_asks(#[trigger] views[k]),
        decreases entries.len() - i,
    {
        assert(views[i as int] == entries@[i as int]@);
        if asks(&entries[i]) {
            return true;
        }
        i = i + 1;
    }
    false
}

/// The shortest span of time that the index is asked for: a tenth of a day.
pub const SHORTEST: i128 = 8_640_000_000_000;

/// The longest span of time that the index is asked for: 366 days.
pub const LONGEST: i128 = 31_622_400_000_000_000;

/// The span of time that the index is asked for without saying: 31 days.
pub const USUAL: i128 = 2_678_400_000_000_000;

/// How far back a request for the index goes.
pub open spec fn reach_of(asked: Option<i128>) -> i128 {
    match asked {
        Some(n) => if n < SHORTEST {
            SHORTEST
        } else if n > LONGEST {
            LONGEST
        } else {
            n
        },
        None => USUAL,
    }
}

/// How far back a request for the index goes.
pub fn index_reach(asked: Option<i128>) -> (r: i128)
    ensures
        r == reach_of(asked),
        SHORTEST <= r <= LONGEST,
{
    match asked {
        Some(n) => if n < SHORTEST {
            SHORTEST
        } else if n > LONGEST {
            LONGEST
        } else {
            n
        },
        None => USUAL,
    }
}

/// The instant `reach` before `now`, but not before time itself.
pub open spec fn instant_before(now: i128, reach: i128) -> int {
    if now - reach < i128::MIN {
        i128::MIN as int
    } else if now - reach > i128::MAX {
        i128::MAX as int
    } else {
        now - reach
    }
}

/// The start of the window that ends now and reaches back this far.
pub fn window_start(now: i128, reach: i128) -> (r: i128)
    ensures
        r == instant_before(now, reach),
{
    match now.checked_sub(reach) {
        Some(t) => t,
        None => if reach > 0 {
            i128::MIN
        } else {
            i128::MAX
        },
    }
}

} // verus!
