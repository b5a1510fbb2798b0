//! File paths as text, and the order of file names.
use crate::order;
use crate::order::stable_name_order;
use crate::text;
use crate::text::chars_of;
use vstd::prelude::*;
use vstd::string::*;

verus! {

/// The path of `name` in the directory `dir`. An absolute name stands for
/// itself.
pub open spec fn joined_path(dir: Seq<char>, name: Seq<char>) -> Seq<char> {
    if dir.len() == 0 || (name.len() > 0 && name[0] == '/') {
        name
    } else if dir.last() == '/' {
        dir + name
    } else {
        dir + "/"@ + name
    }
}

/// The path of `name` in the directory `dir`.
pub fn join_path(dir: &str, name: &str) -> (r: String)
    ensures
        r@ == joined_path(dir@, name@),
{
    let ds: Vec<char> = chars_of(dir);
    let ns: Vec<char> = chars_of(name);
    if ds.len() == 0 || (ns.len() > 0 && ns[0] == '/') {
        return name.to_owned();
    }
    let mut path: String = dir.to_owned();
    if ds[ds.len() - 1] != '/' {
        path.append("/");
    }
    path.append(name);
    path
}

/// Whether `a` comes no later than `b` in dictionary order by code point.
pub open spec fn no_later(a: Seq<char>, b: Seq<char>) -> bool
    decreases a.len(),
{
    if a.len() == 0 {
        true
    } else if b.len() == 0 {
        false
    } else if a[0] == b[0] {
        no_later(a.drop_first(), b.drop_first())
    } else {
        (a[0] as int) < (b[0] as int)
    }
}

/// The code point of `c`.
fn code_point(c: char) -> (r: u32)
    ensures
        r == c as int,
{
    c as u32
}

/// Whether `a` comes no later than `b` in dictionary order by code point.
pub fn names_in_order(a: &str, b: &str) -> (r: bool)
    ensures
        r == no_later(a@, b@),
{
    let x: Vec<char> = chars_of(a);
    let y: Vec<char> = chars_of(b);
    let mut i: usize = 0;
    proof {
        assert(a@.skip(0) =~= a@);
        assert(b@.skip(0) =~= b@);
    }
    while i < x.len() && i < y.len() && x[i] == y[i]
        invariant
            x@ == a@,
            y@ == b@,
            i <= x@.len(),
            i <= y@.len(),
            no_later(a@, b@) == no_later(a@.skip(i as int), b@.skip(i as int)),
        decreases x.len() - i,
    {
        proof {
            assert(a@.skip(i as int).drop_first() =~= a@.skip(i + 1));
            assert(b@.skip(i as int).drop_first() =~= b@.skip(i + 1));
            assert(a@.skip(i as int)[0] == a@[i as int]);
            assert(b@.skip(i as int)[0] == b@[i as int]);
        }
        i = i + 1;
    }
    proof {
        if i < x@.len() && i < y@.len() {
            assert(a@.skip(i as int)[0] == a@[i as int]);
            assert(b@.skip(i as int)[0] == b@[i as int]);
        }
    }
    if i == x.len() {
        true
    } else if i == y.len() {
        false
    } else {
        code_point(x[i]) < code_point(y[i])
    }
}

/// The names in dictionary order.
pub open spec fn sorted_names(names: Seq<Seq<char>>) -> Seq<Seq<char>> {
    order::arranged(names, order::name_order(names))
}

/// Names by their characters.
pub open spec fn name_views(names: Seq<String>) -> Seq<Seq<char>> {
    names.map_values(|n: String| n@)
}

/// The names in dictionary order.
pub fn sort_names(names: &Vec<String>) -> (r: Vec<String>)
    ensures
        name_views(r@) == sorted_names(name_views(names@)),
{
    let ghost views = name_views(names@);
    let mut texts: Vec<&str> = Vec::new();
    let mut i: usize = 0;
    while i < names.len()
        invariant
            i <= names@.len(),
            texts@.len() == i,
            forall|k: int| 0 <= k < i ==> (#[trigger] texts@[k])@ == names@[k]@,
        decreases names.len() - i,
    {
        texts.push(names[i].as_str());
        i = i + 1;
    }
    assert(order::str_views(texts@) =~= views);
    let places: Vec<usize> = stable_name_order(&texts);
    let mut out: Vec<String> = Vec::new();
    let mut j: usize = 0;
    while j < places.len()
        invariant
            j <= places@.len(),
            forall|k: int| 0 <= k < places@.len() ==> #[trigger] places@[k] < names@.len(),
            out@.len() == j,
            forall|k: int| 0 <= k < j ==> (#[trigger] out@[k])@ == names@[places@[k] as int]@,
        decreases places.len() - j,
    {
        out.push(names[places[j]].clone());
        j = j + 1;
    }
    proof {
        let o = order::places(places@);
        assert forall|k: int| 0 <= k < out@.len() implies #[trigger] name_views(out@)[k]
            == order::arranged(views, o)[k] by {
            assert(out@[k]@ == names@[places@[k] as int]@);
            assert(o[k] == places@[k]);
        }
        assert(name_views(out@) =~= order::arranged(views, o));
    }
    out
}

/// Dictionary order is total.
pub proof fn lemma_total(a: Seq<char>, b: Seq<char>)
    ensures
        no_later(a, b) || no_later(b, a),
    decreases a.len(),
{
    if a.len() > 0 && b.len() > 0 && a[0] == b[0] {
        lemma_total(a.drop_first(), b.drop_first());
    }
}

/// Dictionary order is transitive.
pub proof fn lemma_transitive(a: Seq<char>, b: Seq<char>, c: Seq<char>)
    requires
        no_later(a, b),
        no_later(b, c),
    ensures
        no_later(a, c),
    decreases a.len(),
{
    if a.len() > 0 && a[0] == b[0] && b[0] == c[0] {
        lemma_transitive(a.drop_first(), b.drop_first(), c.drop_first());
    }
}

/// Sorting names loses none, makes none up, and puts each in front of those that
/// come later in the dictionary.
pub proof fn law_names_are_sorted(names: Seq<Seq<char>>)
    ensures
        sorted_names(names).len() == names.len(),
        forall|n: Seq<char>| #[trigger] sorted_names(names).contains(n) <==> names.contains(n),
        forall|i: int, j: int|
            0 <= i < j < sorted_names(names).len() ==> no_later(
                #[trigger] sorted_names(names)[i],
                #[trigger] sorted_names(names)[j],
            ),
{
    let o = order::name_order(names);
    let sorted = sorted_names(names);
    order::law_names_order(names);
    order::law_order_sorts(names.len(), order::by_name(names));
    assert forall|n: Seq<char>| #[trigger] sorted.contains(n) <==> names.contains(n) by {
        if sorted.contains(n) {
            let k = choose|k: int| 0 <= k < sorted.len() && sorted[k] == n;
            assert(names[o[k]] == n);
        }
        if names.contains(n) {
            let p = choose|p: int| 0 <= p < names.len() && names[p] == n;
            assert(o.contains(p));
            let k = choose|k: int| 0 <= k < o.len() && o[k] == p;
            assert(sorted[k] == n);
        }
    }
    assert forall|i: int, j: int| 0 <= i < j < sorted.len() implies no_later(
        #[trigger] sorted[i],
        #[trigger] sorted[j],
    ) by {
        assert(order::comes_before(order::by_name(names), o[i], o[j]));
    }
}

/// In the dictionary a text comes before those that go on where it ends, and of two
/// that differ the one with the smaller character where they first do.
pub proof fn law_dictionary_order(a: Seq<char>, x: Seq<char>, y: Seq<char>)
    ensures
        no_later(a, a + x),
        x.len() > 0 ==> !no_later(a + x, a),
        x.len() > 0 && y.len() > 0 && x[0] != y[0] ==> (no_later(a + x, a + y) <==> (x[0] as int) < (
        y[0] as int)),
    decreases a.len(),
{
    if a.len() > 0 {
        let rest = a.drop_first();
        law_dictionary_order(rest, x, y);
        assert((a + x).drop_first() =~= rest + x);
        assert((a + y).drop_first() =~= rest + y);
    } else {
        assert(a + x =~= x);
        assert(a + y =~= y);
    }
}

/// A name in a directory has the directory, one slash and the name as its path,
/// however the directory ends; an absolute name is its own path.
pub proof fn law_paths_are_joined(dir: Seq<char>, name: Seq<char>)
    requires
        dir.len() > 0,
    ensures
        name.len() > 0 && name[0] == '/' ==> joined_path(dir, name) == name,
        (name.len() == 0 || name[0] != '/') && dir.last() != '/' ==> joined_path(dir, name) == dir
            + seq!['/'] + name,
        (name.len() == 0 || name[0] != '/') && dir.last() == '/' ==> joined_path(dir, name) == dir
            + name,
{
    reveal_strlit("/");
    assert("/"@ =~= seq!['/']);
}

/// Without a directory a name is its own path.
pub proof fn law_no_directory(name: Seq<char>)
    ensures
        joined_path(Seq::empty(), name) == name,
{
}

} // verus!
