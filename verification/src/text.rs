//! Text as sequences of characters: whitespace, previews, splitting.
use vstd::prelude::*;

verus! {

/// Preview cap, in characters, for every previewed string.
pub const PREVIEW_N: usize = 220;

/// The Unicode `White_Space` property.
pub open spec fn is_space(c: char) -> bool {
    let n: int = c as int;
    ||| 0x09 <= n <= 0x0d
    ||| n == 0x20
    ||| n == 0x85
    ||| n == 0xa0
    ||| n == 0x1680
    ||| 0x2000 <= n <= 0x200a
    ||| n == 0x2028
    ||| n == 0x2029
    ||| n == 0x202f
    ||| n == 0x205f
    ||| n == 0x3000
}

/// Whether `c` is whitespace.
pub fn space_char(c: char) -> (r: bool)
    ensures
        r == is_space(c),
{
    let n: u32 = c as u32;
    (0x09 <= n && n <= 0x0d) || n == 0x20 || n == 0x85 || n == 0xa0 || n == 0x1680 || (0x2000 <= n
        && n <= 0x200a) || n == 0x2028 || n == 0x2029 || n == 0x202f || n == 0x205f || n == 0x3000
}

/// An optional string by its characters.
pub open spec fn opt_text(o: Option<String>) -> Option<Seq<char>> {
    match o {
        Some(s) => Some(s@),
        None => None,
    }
}

/// `String::push` appends one character.
pub assume_specification[ String::push ](s: &mut String, c: char)
    ensures
        final(s)@ == old(s)@.push(c),
;

/// The characters of `s`, in order.
pub fn chars_of(s: &str) -> (r: Vec<char>)
    ensures
        r@ == s@,
{
    let mut out: Vec<char> = Vec::new();
    for c in it: s.chars()
        invariant
            it.seq() == s@,
            out@ == s@.take(it.index()),
    {
        out.push(c);
        assert(s@.take(it.index() + 1) =~= s@.take(it.index()).push(c));
    }
    assert(s@.take(s@.len() as int) =~= s@);
    out
}

/// The string made of the characters `cs[from..to]`.
pub fn string_of(cs: &Vec<char>, from: usize, to: usize) -> (r: String)
    requires
        from <= to <= cs@.len(),
    ensures
        r@ == cs@.subrange(from as int, to as int),
{
    let mut out: String = String::new();
    let mut i: usize = from;
    assert(cs@.subrange(from as int, from as int) =~= Seq::<char>::empty());
    while i < to
        invariant
            from <= i <= to <= cs@.len(),
            out@ == cs@.subrange(from as int, i as int),
        decreases to - i,
    {
        out.push(cs[i]);
        assert(cs@.subrange(from as int, i + 1) =~= cs@.subrange(from as int, i as int).push(
            cs@[i as int],
        ));
        i = i + 1;
    }
    out
}

/// Whether two texts hold the same characters.
pub fn same_text(a: &str, b: &str) -> (r: bool)
    ensures
        r == (a@ == b@),
{
    a.to_owned() == b.to_owned()
}

/// The maximal runs of non-whitespace characters of `s`, in order.
pub open spec fn words(s: Seq<char>) -> Seq<Seq<char>>
    decreases s.len(),
{
    if s.len() == 0 {
        Seq::empty()
    } else {
        let init = s.drop_last();
        let before = words(init);
        if is_space(s.last()) {
            before
        } else if init.len() > 0 && !is_space(init.last()) {
            before.drop_last().push(before.last().push(s.last()))
        } else {
            before.push(seq![s.last()])
        }
    }
}

/// The words `ws` with one space between neighbours.
pub open spec fn joined(ws: Seq<Seq<char>>) -> Seq<char>
    decreases ws.len(),
{
    if ws.len() == 0 {
        Seq::empty()
    } else if ws.len() == 1 {
        ws[0]
    } else {
        joined(ws.drop_last()) + seq![' '] + ws.last()
    }
}

/// `s` with every run of whitespace collapsed to one space, and none at the ends.
pub open spec fn collapsed(s: Seq<char>) -> Seq<char> {
    joined(words(s))
}

/// At most the first [`PREVIEW_N`] characters of `s`.
pub open spec fn capped(s: Seq<char>) -> Seq<char> {
    if s.len() <= PREVIEW_N {
        s
    } else {
        s.take(PREVIEW_N as int)
    }
}

/// The preview of `s`: whitespace collapsed, then capped.
pub open spec fn preview_of(s: Seq<char>) -> Seq<char> {
    capped(collapsed(s))
}

/// One more character extends the collapsed text by itself, by a space and
/// itself, or not at all.
proof fn lemma_collapse_step(s: Seq<char>, c: char)
    ensures
        is_space(c) ==> collapsed(s.push(c)) == collapsed(s),
        !is_space(c) && s.len() > 0 && !is_space(s.last()) ==> collapsed(s.push(c)) == collapsed(
            s,
        ).push(c),
        !is_space(c) && (s.len() == 0 || is_space(s.last())) && words(s).len() == 0 ==> collapsed(
            s.push(c),
        ) == seq![c],
        !is_space(c) && (s.len() == 0 || is_space(s.last())) && words(s).len() > 0 ==> collapsed(
            s.push(c),
        ) == collapsed(s).push(' ').push(c),
{
    let t = s.push(c);
    assert(t.drop_last() =~= s);
    lemma_words(s);
    let ws = words(s);
    if !is_space(c) {
        if s.len() > 0 && !is_space(s.last()) {
            assert(ws.len() > 0);
            let grown = ws.drop_last().push(ws.last().push(c));
            assert(grown.drop_last() =~= ws.drop_last());
            if ws.len() == 1 {
                assert(joined(grown) =~= joined(ws).push(c));
            } else {
                assert(joined(grown) =~= joined(ws).push(c));
            }
        } else {
            let grown = ws.push(seq![c]);
            assert(grown.drop_last() =~= ws);
            if ws.len() > 0 {
                assert(joined(grown) =~= joined(ws).push(' ').push(c));
            }
        }
    }
}

/// Whether `w` is a word: it has characters, none of them whitespace.
pub open spec fn is_word(w: Seq<char>) -> bool {
    w.len() > 0 && forall|i: int| 0 <= i < w.len() ==> !is_space(#[trigger] w[i])
}

/// The words of a text are words; a text that ends in a non-whitespace character
/// has one.
pub proof fn lemma_words(s: Seq<char>)
    ensures
        forall|i: int| 0 <= i < words(s).len() ==> is_word(#[trigger] words(s)[i]),
        s.len() > 0 && !is_space(s.last()) ==> words(s).len() > 0,
    decreases s.len(),
{
    if s.len() > 0 {
        let init = s.drop_last();
        let before = words(init);
        let all = words(s);
        lemma_words(init);
        assert forall|i: int| 0 <= i < all.len() implies is_word(#[trigger] all[i]) by {
            if i < before.len() - 1 {
                assert(all[i] == before[i]);
            } else if is_space(s.last()) {
                assert(all[i] == before[i]);
            } else if init.len() > 0 && !is_space(init.last()) {
                assert(is_word(before[before.len() - 1]));
            } else if i < before.len() {
                assert(all[i] == before[i]);
            }
        }
    }
}

/// The collapsed text is empty exactly when there are no words.
proof fn lemma_joined_empty(s: Seq<char>)
    ensures
        collapsed(s).len() == 0 <==> words(s).len() == 0,
{
    lemma_words(s);
    let ws = words(s);
    if ws.len() == 1 {
        assert(ws[0].len() > 0);
    }
}

/// `s` with whitespace collapsed.
fn collapse(s: &str) -> (r: String)
    ensures
        r@ == collapsed(s@),
{
    let cs: Vec<char> = chars_of(s);
    let mut out: String = String::new();
    let mut gap: bool = true;
    let mut empty: bool = true;
    let mut i: usize = 0;
    assert(cs@.take(0) =~= Seq::<char>::empty());
    while i < cs.len()
        invariant
            i <= cs@.len(),
            out@ == collapsed(cs@.take(i as int)),
            gap == (i == 0 || is_space(cs@[i - 1])),
            empty == (words(cs@.take(i as int)).len() == 0),
        decreases cs.len() - i,
    {
        let c: char = cs[i];
        let ghost before = cs@.take(i as int);
        proof {
            assert(cs@.take(i + 1) =~= before.push(c));
            assert(i > 0 ==> before.last() == cs@[i - 1]);
            lemma_collapse_step(before, c);
            lemma_words(before);
            lemma_words(before.push(c));
            assert(before.push(c).drop_last() =~= before);
        }
        if space_char(c) {
            gap = true;
        } else {
            if gap && !empty {
                out.push(' ');
            }
            out.push(c);
            proof {
                if gap && empty {
                    lemma_joined_empty(before);
                    assert(out@ =~= seq![c]);
                }
            }
            gap = false;
            empty = false;
        }
        i = i + 1;
    }
    assert(cs@.take(cs@.len() as int) =~= s@);
    out
}

/// At most the first [`PREVIEW_N`] characters of `s`.
pub fn truncated(s: &str) -> (r: String)
    ensures
        r@ == capped(s@),
{
    let cs: Vec<char> = chars_of(s);
    if cs.len() <= PREVIEW_N {
        s.to_owned()
    } else {
        assert(cs@.subrange(0, PREVIEW_N as int) =~= s@.take(PREVIEW_N as int));
        string_of(&cs, 0, PREVIEW_N)
    }
}

/// The preview of `s`: every run of whitespace becomes one space, whitespace at
/// the ends goes, and at most [`PREVIEW_N`] characters stay.
pub fn preview(s: &str) -> (r: String)
    ensures
        r@ == preview_of(s@),
{
    truncated(collapse(s).as_str())
}

/// The place of the first `c` in `s`, or the length of `s`.
pub open spec fn first_index(s: Seq<char>, c: char) -> int
    decreases s.len(),
{
    if s.len() == 0 || s[0] == c {
        0
    } else {
        1 + first_index(s.drop_first(), c)
    }
}

/// The place of the first `c` in `cs`, or the length of `cs`.
pub fn find_char(cs: &Vec<char>, c: char) -> (r: usize)
    ensures
        r == first_index(cs@, c),
        r <= cs@.len(),
        r < cs@.len() ==> cs@[r as int] == c,
{
    let mut i: usize = 0;
    assert(cs@.skip(0) =~= cs@);
    while i < cs.len() && cs[i] != c
        invariant
            i <= cs@.len(),
            first_index(cs@, c) == i + first_index(cs@.skip(i as int), c),
        decreases cs.len() - i,
    {
        assert(cs@.skip(i as int)[0] == cs@[i as int]);
        assert(cs@.skip(i as int).drop_first() =~= cs@.skip(i + 1));
        i = i + 1;
    }
    proof {
        if i < cs@.len() {
            assert(cs@.skip(i as int)[0] == cs@[i as int]);
        } else {
            assert(cs@.skip(i as int).len() == 0);
        }
    }
    i
}

/// The characters `cs[from..to]`.
pub fn cut(cs: &Vec<char>, from: usize, to: usize) -> (r: Vec<char>)
    requires
        from <= to <= cs@.len(),
    ensures
        r@ == cs@.subrange(from as int, to as int),
{
    let mut out: Vec<char> = Vec::new();
    let mut i: usize = from;
    assert(cs@.subrange(from as int, from as int) =~= Seq::<char>::empty());
    while i < to
        invariant
            from <= i <= to <= cs@.len(),
            out@ == cs@.subrange(from as int, i as int),
        decreases to - i,
    {
        out.push(cs[i]);
        assert(cs@.subrange(from as int, i + 1) =~= cs@.subrange(from as int, i as int).push(
            cs@[i as int],
        ));
        i = i + 1;
    }
    out
}

/// `s` without the whitespace it starts with.
pub open spec fn trimmed_start(s: Seq<char>) -> Seq<char>
    decreases s.len(),
{
    if s.len() > 0 && is_space(s[0]) {
        trimmed_start(s.drop_first())
    } else {
        s
    }
}

/// `s` without the whitespace it ends with.
pub open spec fn trimmed_end(s: Seq<char>) -> Seq<char>
    decreases s.len(),
{
    if s.len() > 0 && is_space(s.last()) {
        trimmed_end(s.drop_last())
    } else {
        s
    }
}

/// `s` without whitespace at either end.
pub open spec fn trimmed(s: Seq<char>) -> Seq<char> {
    trimmed_end(trimmed_start(s))
}

/// The characters of `s` without whitespace at either end.
pub fn trim_chars(s: &str) -> (r: Vec<char>)
    ensures
        r@ == trimmed(s@),
{
    let cs: Vec<char> = chars_of(s);
    let mut from: usize = 0;
    assert(cs@.skip(0) =~= cs@);
    while from < cs.len() && space_char(cs[from])
        invariant
            from <= cs@.len(),
            trimmed_start(cs@) == trimmed_start(cs@.skip(from as int)),
        decreases cs.len() - from,
    {
        assert(cs@.skip(from as int).drop_first() =~= cs@.skip(from + 1));
        assert(cs@.skip(from as int)[0] == cs@[from as int]);
        from = from + 1;
    }
    let ghost rest = cs@.skip(from as int);
    assert(trimmed_start(cs@) == rest) by {
        if from < cs@.len() {
            assert(rest[0] == cs@[from as int]);
        }
    }
    let mut to: usize = cs.len();
    assert(rest.take(to - from) =~= rest);
    while to > from && space_char(cs[to - 1])
        invariant
            from <= to <= cs@.len(),
            rest == cs@.skip(from as int),
            trimmed_end(rest) == trimmed_end(rest.take(to - from)),
        decreases to,
    {
        assert(rest.take(to - from).drop_last() =~= rest.take(to - from - 1));
        assert(rest.take(to - from).last() == cs@[to - 1]);
        to = to - 1;
    }
    proof {
        if to > from {
            assert(rest.take(to - from).last() == cs@[to - 1]);
        }
        assert(rest.take(to - from) =~= cs@.subrange(from as int, to as int));
    }
    cut(&cs, from, to)
}

/// The pieces of `s` between its separators `sep`: always one more than there
/// are separators.
pub open spec fn pieces(s: Seq<char>, sep: char) -> Seq<Seq<char>>
    decreases s.len(),
{
    if s.len() == 0 {
        seq![Seq::empty()]
    } else {
        let before = pieces(s.drop_last(), sep);
        if s.last() == sep {
            before.push(Seq::empty())
        } else {
            before.drop_last().push(before.last().push(s.last()))
        }
    }
}

/// A list of character vectors by their views.
pub open spec fn piece_views(v: Seq<Vec<char>>) -> Seq<Seq<char>> {
    v.map_values(|p: Vec<char>| p@)
}

/// Splits `cs` at every `sep`.
pub fn split_chars(cs: &Vec<char>, sep: char) -> (r: Vec<Vec<char>>)
    ensures
        piece_views(r@) == pieces(cs@, sep),
        r@.len() > 0,
{
    let mut out: Vec<Vec<char>> = Vec::new();
    let mut cur: Vec<char> = Vec::new();
    let mut i: usize = 0;
    proof {
        assert(cs@.take(0) =~= Seq::empty());
        assert(piece_views(out@).push(cur@) =~= pieces(cs@.take(0), sep));
    }
    while i < cs.len()
        invariant
            i <= cs@.len(),
            piece_views(out@).push(cur@) == pieces(cs@.take(i as int), sep),
        decreases cs.len() - i,
    {
        let c: char = cs[i];
        let ghost before = pieces(cs@.take(i as int), sep);
        let ghost held = out@;
        let ghost part = cur@;
        proof {
            assert(cs@.take(i + 1).drop_last() =~= cs@.take(i as int));
            assert(cs@.take(i + 1).last() == c);
            assert(before.drop_last() =~= piece_views(held));
            assert(before.last() == part);
        }
        if c == sep {
            out.push(cur);
            cur = Vec::new();
            assert(piece_views(out@) =~= piece_views(held).push(part));
        } else {
            cur.push(c);
        }
        assert(piece_views(out@).push(cur@) =~= pieces(cs@.take(i + 1), sep));
        i = i + 1;
    }
    let ghost held = out@;
    out.push(cur);
    proof {
        assert(cs@.take(cs@.len() as int) =~= cs@);
        assert(piece_views(out@) =~= piece_views(held).push(cur@));
    }
    out
}

} // verus!
