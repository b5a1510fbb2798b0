//! What holds of requests and their windows.
use crate::response;
use crate::text;
use crate::text_laws;
use vstd::prelude::*;

verus! {

/// A request for the index reaches back as far as it asks, between a tenth of a day
/// and 366 days, and 31 days where it does not ask.
pub proof fn law_how_far_back(n: i128)
    ensures
        8_640_000_000_000 <= n <= 31_622_400_000_000_000 ==> response::reach_of(Some(n)) == n,
        n < 8_640_000_000_000 ==> response::reach_of(Some(n)) == 8_640_000_000_000,
        n > 31_622_400_000_000_000 ==> response::reach_of(Some(n)) == 31_622_400_000_000_000,
        response::reach_of(None) == 2_678_400_000_000_000,
{
}

/// Who asks for more gets no less: a longer reach starts no later.
pub proof fn law_longer_reach_starts_earlier(now: i128, a: i128, b: i128)
    requires
        a <= b,
    ensures
        response::reach_of(Some(a)) <= response::reach_of(Some(b)),
        response::instant_before(now, b) <= response::instant_before(now, a),
        i128::MIN <= now - a <= i128::MAX ==> response::instant_before(now, a) == now - a,
        now - a < i128::MIN ==> response::instant_before(now, a) == i128::MIN,
        now - a > i128::MAX ==> response::instant_before(now, a) == i128::MAX,
{
}

/// Whether `p` gives the weight zero: `q=`, then noughts and points alone.
pub open spec fn is_nought(p: Seq<char>) -> bool {
    p.len() > 2 && p[0] == 'q' && p[1] == '=' && forall|i: int|
        2 <= i < p.len() ==> (#[trigger] p[i] == '0' || p[i] == '.')
}

/// An entry of the header asks for gzip exactly when it is named so, whatever
/// whitespace is around the name, and its weight is not zero.
pub proof fn law_entries_that_ask(name: Seq<char>, weight: Seq<char>)
    requires
        !name.contains(';'),
    ensures
        response::entry_asks(name) <==> text::trimmed(name) == "gzip"@,
        response::entry_asks(name + seq![';'] + weight) <==> text::trimmed(name) == "gzip"@
            && !is_nought(text::trimmed(weight)),
{
    text_laws::lemma_no_index(name, ';');
    assert(name.take(name.len() as int) =~= name);
    let whole = name + seq![';'] + weight;
    text_laws::lemma_first_index(name, ';', weight);
    assert(whole.take(name.len() as int) =~= name);
    assert(whole.skip(name.len() as int + 1) =~= weight);
}

/// A header asks for gzip exactly when one of its entries does, wherever it stands.
pub proof fn law_headers_that_ask(header: Seq<char>, entry: Seq<char>)
    requires
        !entry.contains(','),
    ensures
        response::header_asks(entry) <==> response::entry_asks(entry),
        response::header_asks(header + seq![','] + entry) <==> response::header_asks(header)
            || response::entry_asks(entry),
{
    let before = text::pieces(header, ',');
    let all = text::pieces(header + seq![','] + entry, ',');
    text_laws::lemma_one_piece(entry, ',');
    text_laws::lemma_more_pieces(header, ',', entry);
    assert(text::pieces(entry, ',')[0] == entry);
    assert(all[before.len() as int] == entry);
    if response::header_asks(header) {
        let i = choose|i: int| 0 <= i < before.len() && response::entry_asks(#[trigger] before[i]);
        assert(all[i] == before[i]);
    }
    if response::header_asks(header + seq![','] + entry) {
        let i = choose|i: int| 0 <= i < all.len() && response::entry_asks(#[trigger] all[i]);
        if i < before.len() {
            assert(all[i] == before[i]);
        }
    }
    if response::header_asks(entry) {
        let i = choose|i: int|
            0 <= i < text::pieces(entry, ',').len() && response::entry_asks(
                #[trigger] text::pieces(entry, ',')[i],
            );
        assert(i == 0);
    }
}

} // verus!
