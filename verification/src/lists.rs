//! Lists of texts: what they hold, in which order, and texts found by name.

use vstd::prelude::*;

use crate::text;

verus! {

/// Whether a text is in a list.
pub fn lists(v: &Vec<String>, s: &str) -> (r: bool)
    ensures
        r == text::texts(v@).contains(s@),
{
    let mut i: usize = 0;
    while i < v.len()
        invariant
            i <= v@.len(),
            forall|k: int| 0 <= k < i ==> text::texts(v@)[k] != s@,
        decreases v@.len() - i,
    {
        assert(text::texts(v@)[i as int] == v@[i as int]@);
        if text::same(v[i].as_str(), s) {
            return true;
        }
        i = i + 1;
    }
    false
}

/// A list of its own with the same texts.
pub fn copy(v: &Vec<String>) -> (r: Vec<String>)
    ensures
        text::texts(r@) == text::texts(v@),
{
    let mut out: Vec<String> = Vec::new();
    let ghost all = text::texts(v@);
    let mut i: usize = 0;
    while i < v.len()
        invariant
            i <= v@.len(),
            all == text::texts(v@),
            text::texts(out@) == all.take(i as int),
        decreases v@.len() - i,
    {
        let ghost was = out@;
        out.push(v[i].clone());
        proof {
            text::lemma_texts_push(was, out@.last());
            assert(text::texts(out@) =~= all.take(i + 1));
        }
        i = i + 1;
    }
    assert(all.take(i as int) =~= all);
    out
}

// ---- sorting --------------------------------------------------------------

/// A list with one more text, behind all that do not come after it.
pub open spec fn placed(v: Seq<Seq<char>>, x: Seq<char>) -> Seq<Seq<char>>
    decreases v.len(),
{
    if v.len() == 0 || !text::before(x, v.last()) {
        v.push(x)
    } else {
        placed(v.drop_last(), x).push(v.last())
    }
}

/// The texts of a list in their order.
pub open spec fn sorted(v: Seq<Seq<char>>) -> Seq<Seq<char>>
    decreases v.len(),
{
    if v.len() == 0 {
        Seq::empty()
    } else {
        placed(sorted(v.drop_last()), v.last())
    }
}

/// A list with one more text in its place, unless it has that text.
pub open spec fn with_text(v: Seq<Seq<char>>, x: Seq<char>) -> Seq<Seq<char>>
    decreases v.len(),
{
    if v.len() == 0 {
        seq![x]
    } else if v.last() == x {
        v
    } else if text::before(x, v.last()) {
        with_text(v.drop_last(), x).push(v.last())
    } else {
        v.push(x)
    }
}

/// The texts of a list in their order, each once.
pub open spec fn sorted_set(v: Seq<Seq<char>>) -> Seq<Seq<char>>
    decreases v.len(),
{
    if v.len() == 0 {
        Seq::empty()
    } else {
        with_text(sorted_set(v.drop_last()), v.last())
    }
}

/// Whether each text of a list comes before those behind it.
pub open spec fn ascending(v: Seq<Seq<char>>) -> bool {
    forall|i: int, j: int| 0 <= i < j < v.len() ==> text::before(v[i], v[j])
}

/// Where a text goes in a list, a list goes on unchanged behind it.
proof fn lemma_placed(v: Seq<Seq<char>>, x: Seq<char>, k: int)
    requires
        0 <= k <= v.len(),
        k == 0 || !text::before(x, v[k - 1]),
        forall|i: int| k <= i < v.len() ==> text::before(x, v[i]),
    ensures
        placed(v, x) == v.take(k).push(x) + v.skip(k),
    decreases v.len(),
{
    if k == v.len() {
        assert(v.take(k).push(x) + v.skip(k) =~= v.push(x));
    } else {
        let w = v.drop_last();
        lemma_placed(w, x, k);
        assert(w.take(k) =~= v.take(k));
        assert(w.skip(k).push(v.last()) =~= v.skip(k));
        assert(placed(v, x) =~= v.take(k).push(x) + v.skip(k));
    }
}

/// Where a text goes in a list that may have it.
proof fn lemma_with_text(v: Seq<Seq<char>>, x: Seq<char>, k: int)
    requires
        0 <= k <= v.len(),
        k == 0 || !text::before(x, v[k - 1]),
        forall|i: int| k <= i < v.len() ==> text::before(x, v[i]),
    ensures
        k > 0 && v[k - 1] == x ==> with_text(v, x) == v,
        !(k > 0 && v[k - 1] == x) ==> with_text(v, x) == v.take(k).push(x) + v.skip(k),
    decreases v.len(),
{
    if k == v.len() {
        assert(v.take(k).push(x) + v.skip(k) =~= v.push(x));
        assert(seq![x] =~= Seq::empty().push(x));
        if v.len() == 0 {
            assert(v =~= Seq::empty());
        }
    } else {
        let w = v.drop_last();
        text::lemma_before_irreflexive(x);
        assert(text::before(x, v[v.len() - 1]));
        lemma_with_text(w, x, k);
        assert(w.take(k) =~= v.take(k));
        assert(w.skip(k).push(v.last()) =~= v.skip(k));
        if k > 0 && v[k - 1] == x {
            assert(w.push(v.last()) =~= v);
        } else {
            assert(with_text(v, x) =~= v.take(k).push(x) + v.skip(k));
        }
    }
}

/// The place of a text in a list: behind the last one that it does not come
/// before.
fn place_of(v: &Vec<String>, x: &str) -> (k: usize)
    ensures
        k <= v@.len(),
        k == 0 || !text::before(x@, text::texts(v@)[k - 1]),
        forall|i: int| k <= i < v@.len() ==> text::before(x@, #[trigger] text::texts(v@)[i]),
{
    let mut k: usize = v.len();
    while k > 0
        invariant
            k <= v@.len(),
            forall|i: int| k <= i < v@.len() ==> text::before(x@, #[trigger] text::texts(v@)[i]),
        decreases k,
    {
        assert(text::texts(v@)[k - 1] == v@[k - 1]@);
        if !text::is_before(x, v[k - 1].as_str()) {
            return k;
        }
        k = k - 1;
    }
    k
}

/// The texts of a list in their order.
pub fn sort(v: &Vec<String>) -> (r: Vec<String>)
    ensures
        text::texts(r@) == sorted(text::texts(v@)),
{
    let ghost all = text::texts(v@);
    let mut out: Vec<String> = Vec::new();
    let mut i: usize = 0;
    assert(all.take(0) =~= Seq::empty());
    assert(text::texts(out@) =~= Seq::empty());
    while i < v.len()
        invariant
            i <= v@.len(),
            all == text::texts(v@),
            text::texts(out@) == sorted(all.take(i as int)),
        decreases v@.len() - i,
    {
        let x = v[i].clone();
        let ghost before = text::texts(out@);
        let k = place_of(&out, x.as_str());
        proof {
            assert(all.take(i + 1).drop_last() =~= all.take(i as int));
            assert(all.take(i + 1).last() == x@);
            lemma_placed(before, x@, k as int);
        }
        out.insert(k, x);
        assert(text::texts(out@) =~= before.take(k as int).push(x@) + before.skip(k as int));
        i = i + 1;
    }
    assert(all.take(i as int) =~= all);
    out
}

/// Puts a text into a list in its place, unless the list has it.
pub fn put(v: &mut Vec<String>, x: String)
    ensures
        text::texts(final(v)@) == with_text(text::texts(old(v)@), x@),
{
    let ghost before = text::texts(v@);
    let k = place_of(v, x.as_str());
    proof {
        lemma_with_text(before, x@, k as int);
        if k > 0 {
            assert(before[k - 1] == v@[k - 1]@);
        }
    }
    if k > 0 && text::same(v[k - 1].as_str(), x.as_str()) {
        return;
    }
    v.insert(k, x);
    assert(text::texts(v@) =~= before.take(k as int).push(x@) + before.skip(k as int));
}

/// The texts of a list in their order, each once.
pub fn sort_set(v: &Vec<String>) -> (r: Vec<String>)
    ensures
        text::texts(r@) == sorted_set(text::texts(v@)),
{
    let ghost all = text::texts(v@);
    let mut out: Vec<String> = Vec::new();
    let mut i: usize = 0;
    assert(all.take(0) =~= Seq::empty());
    assert(text::texts(out@) =~= Seq::empty());
    while i < v.len()
        invariant
            i <= v@.len(),
            all == text::texts(v@),
            text::texts(out@) == sorted_set(all.take(i as int)),
        decreases v@.len() - i,
    {
        proof {
            assert(all.take(i + 1).drop_last() =~= all.take(i as int));
            assert(all.take(i + 1).last() == v@[i as int]@);
        }
        put(&mut out, v[i].clone());
        i = i + 1;
    }
    assert(all.take(i as int) =~= all);
    out
}

proof fn lemma_with_text_set(v: Seq<Seq<char>>, x: Seq<char>)
    requires
        ascending(v),
    ensures
        ascending(with_text(v, x)),
        forall|y: Seq<char>| #[trigger]
            with_text(v, x).contains(y) <==> v.contains(y) || y == x,
    decreases v.len(),
{
    let r = with_text(v, x);
    if v.len() == 0 {
        assert(r[0] == x);
        assert forall|y: Seq<char>| r.contains(y) implies v.contains(y) || y == x by {}
    } else if v.last() == x {
        assert(v[v.len() - 1] == x);
    } else if text::before(x, v.last()) {
        let w = v.drop_last();
        lemma_with_text_set(w, x);
        let u = with_text(w, x);
        assert forall|i: int, j: int| 0 <= i < j < r.len() implies text::before(r[i], r[j]) by {
            if j == u.len() {
                assert(r[i] == u[i] && r[j] == v.last());
                assert(u.contains(u[i]));
                assert(w.contains(u[i]) || u[i] == x);
                if u[i] != x {
                    let k = choose|k: int| 0 <= k < w.len() && w[k] == u[i];
                    assert(v[k] == u[i]);
                    assert(text::before(v[k], v[v.len() - 1]));
                }
            } else {
                assert(r[i] == u[i] && r[j] == u[j]);
            }
        }
        assert forall|y: Seq<char>| r.contains(y) <==> v.contains(y) || y == x by {
            if r.contains(y) {
                let k = choose|k: int| 0 <= k < r.len() && r[k] == y;
                if k < u.len() {
                    assert(u[k] == y);
                    assert(u.contains(y));
                    if y != x {
                        let m = choose|m: int| 0 <= m < w.len() && w[m] == y;
                        assert(v[m] == y);
                    }
                } else {
                    assert(v[v.len() - 1] == y);
                }
            }
            if v.contains(y) || y == x {
                if y == v.last() {
                    assert(r[u.len() as int] == y);
                } else {
                    if y != x {
                        let m = choose|m: int| 0 <= m < v.len() && v[m] == y;
                        assert(w[m] == y);
                    }
                    assert(u.contains(y));
                    let k = choose|k: int| 0 <= k < u.len() && u[k] == y;
                    assert(r[k] == y);
                }
            }
        }
    } else {
        text::lemma_before_total(v.last(), x);
        assert forall|i: int, j: int| 0 <= i < j < r.len() implies text::before(r[i], r[j]) by {
            if j == v.len() && i < v.len() - 1 {
                assert(text::before(v[i], v[v.len() - 1]));
                text::lemma_before_transitive(v[i], v.last(), x);
            }
        }
        assert forall|y: Seq<char>| r.contains(y) <==> v.contains(y) || y == x by {
            if r.contains(y) {
                let k = choose|k: int| 0 <= k < r.len() && r[k] == y;
                if k < v.len() {
                    assert(v[k] == y);
                }
            }
            if v.contains(y) {
                let k = choose|k: int| 0 <= k < v.len() && v[k] == y;
                assert(r[k] == y);
            }
            if y == x {
                assert(r[v.len() as int] == x);
            }
        }
    }
}

/// A sorted set holds the texts of the list, no others, each once, in their
/// order.
pub proof fn sorted_set_is_a_set(v: Seq<Seq<char>>)
    ensures
        ascending(sorted_set(v)),
        forall|x: Seq<char>| #[trigger] sorted_set(v).contains(x) <==> v.contains(x),
    decreases v.len(),
{
    if v.len() > 0 {
        let w = v.drop_last();
        sorted_set_is_a_set(w);
        lemma_with_text_set(sorted_set(w), v.last());
        assert forall|x: Seq<char>| sorted_set(v).contains(x) <==> v.contains(x) by {
            if v.contains(x) {
                let k = choose|k: int| 0 <= k < v.len() && v[k] == x;
                if k < w.len() {
                    assert(w[k] == x);
                }
            }
            if w.contains(x) {
                let k = choose|k: int| 0 <= k < w.len() && w[k] == x;
                assert(v[k] == x);
            }
            assert(v[v.len() - 1] == v.last());
        }
    }
}

// ---- names ----------------------------------------------------------------

/// A pair of texts.
pub open spec fn pair(p: (String, String)) -> (Seq<char>, Seq<char>) {
    (p.0@, p.1@)
}

/// The pairs of a list.
pub open spec fn pairs(v: Seq<(String, String)>) -> Seq<(Seq<char>, Seq<char>)> {
    v.map_values(|p: (String, String)| pair(p))
}

/// The pairs of a list that grew by one.
pub proof fn lemma_pairs_push(v: Seq<(String, String)>, p: (String, String))
    ensures
        pairs(v.push(p)) == pairs(v).push(pair(p)),
{
    assert(pairs(v.push(p)) =~= pairs(v).push(pair(p)));
}

/// What stands beside a name in a list.
pub open spec fn found(v: Seq<(Seq<char>, Seq<char>)>, name: Seq<char>) -> Option<Seq<char>>
    decreases v.len(),
{
    if v.len() == 0 {
        None
    } else if v[0].0 == name {
        Some(v[0].1)
    } else {
        found(v.skip(1), name)
    }
}

/// What stands beside a name in a list.
pub fn find<'a>(v: &'a Vec<(String, String)>, name: &str) -> (r: Option<&'a String>)
    ensures
        match r {
            Some(s) => found(pairs(v@), name@) == Some(s@),
            None => found(pairs(v@), name@) is None,
        },
{
    let ghost all = pairs(v@);
    let mut i: usize = 0;
    assert(all.skip(0) =~= all);
    while i < v.len()
        invariant
            i <= v@.len(),
            all == pairs(v@),
            found(all, name@) == found(all.skip(i as int), name@),
        decreases v@.len() - i,
    {
        assert(all.skip(i as int)[0] == pair(v@[i as int]));
        assert(all.skip(i as int).skip(1) =~= all.skip(i + 1));
        if text::same(v[i].0.as_str(), name) {
            return Some(&v[i].1);
        }
        i = i + 1;
    }
    None
}

/// What a filter keeps is what passes it.
pub proof fn lemma_filtered<A>(v: Seq<A>, p: spec_fn(A) -> bool)
    ensures
        forall|x: A| #[trigger] v.filter(p).contains(x) <==> v.contains(x) && p(x),
    decreases v.len(),
{
    reveal(Seq::filter);
    if v.len() > 0 {
        let w = v.drop_last();
        lemma_filtered(w, p);
        assert(v =~= w.push(v.last()));
        assert forall|x: A| #[trigger] v.contains(x) <==> w.contains(x) || x == v.last() by {
            if w.contains(x) {
                let k = choose|k: int| 0 <= k < w.len() && w[k] == x;
                assert(v[k] == x);
            }
            if x == v.last() {
                assert(v[v.len() - 1] == x);
            }
        }
        let f = w.filter(p);
        if p(v.last()) {
            let g = f.push(v.last());
            assert(v.filter(p) == g);
            assert forall|x: A| #[trigger] g.contains(x) <==> f.contains(x) || x == v.last() by {
                if f.contains(x) {
                    let k = choose|k: int| 0 <= k < f.len() && f[k] == x;
                    assert(g[k] == x);
                }
                if x == v.last() {
                    assert(g[g.len() - 1] == x);
                }
            }
        }
    }
}

/// Whether no text stands before one that it follows.
spec fn in_order(v: Seq<Seq<char>>) -> bool {
    forall|i: int, j: int| 0 <= i < j < v.len() ==> !text::before(v[j], v[i])
}

proof fn lemma_placed_in_order(v: Seq<Seq<char>>, x: Seq<char>)
    requires
        in_order(v),
    ensures
        in_order(placed(v, x)),
        placed(v, x).to_multiset() == v.push(x).to_multiset(),
        forall|y: Seq<char>| #[trigger] placed(v, x).contains(y) ==> v.contains(y) || y == x,
    decreases v.len(),
{
    vstd::seq_lib::to_multiset_build(v, x);
    let r = placed(v, x);
    if v.len() > 0 && text::before(x, v.last()) {
        let w = v.drop_last();
        lemma_placed_in_order(w, x);
        let p = placed(w, x);
        vstd::seq_lib::to_multiset_build(w, x);
        vstd::seq_lib::to_multiset_build(p, v.last());
        vstd::seq_lib::to_multiset_build(w, v.last());
        assert(w.push(v.last()) =~= v);
        assert(r.to_multiset() =~= v.push(x).to_multiset());
        assert forall|y: Seq<char>| #[trigger] r.contains(y) implies v.contains(y) || y == x by {
            let k = choose|k: int| 0 <= k < r.len() && r[k] == y;
            if k < p.len() {
                assert(p[k] == y);
                assert(p.contains(y));
                if y != x {
                    let j = choose|j: int| 0 <= j < w.len() && w[j] == y;
                    assert(v[j] == y);
                }
            } else {
                assert(v[v.len() - 1] == y);
            }
        }
        assert forall|i: int, j: int| 0 <= i < j < r.len() implies !text::before(r[j], r[i]) by {
            if j < p.len() {
                assert(r[i] == p[i] && r[j] == p[j]);
            } else {
                assert(p.contains(p[i]));
                if p[i] == x {
                    lemma_asymmetric(x, v.last());
                } else {
                    let k = choose|k: int| 0 <= k < w.len() && w[k] == p[i];
                    assert(v[k] == p[i]);
                    assert(!text::before(v[v.len() - 1], v[k]));
                }
            }
        }
    } else {
        assert(r == v.push(x));
        assert forall|i: int, j: int| 0 <= i < j < r.len() implies !text::before(r[j], r[i]) by {
            if j == v.len() {
                let l = v.last();
                assert(v[v.len() - 1] == l);
                if text::before(x, v[i]) {
                    if i < v.len() - 1 {
                        assert(!text::before(l, v[i]));
                    }
                    text::lemma_before_total(v[i], l);
                    if v[i] != l {
                        text::lemma_before_transitive(x, v[i], l);
                    }
                }
            } else {
                assert(!text::before(v[j], v[i]));
            }
        }
        assert forall|y: Seq<char>| #[trigger] r.contains(y) implies v.contains(y) || y == x by {
            let k = choose|k: int| 0 <= k < r.len() && r[k] == y;
            if k < v.len() {
                assert(v[k] == y);
            }
        }
    }
}

proof fn lemma_asymmetric(a: Seq<char>, b: Seq<char>)
    requires
        text::before(a, b),
    ensures
        !text::before(b, a),
{
    if text::before(b, a) {
        text::lemma_before_transitive(a, b, a);
        text::lemma_before_irreflexive(a);
    }
}

/// Sorting keeps every text, as often as it is there, and puts none behind one
/// that it stands before.
pub proof fn sorting_keeps_all_in_order(v: Seq<Seq<char>>)
    ensures
        sorted(v).to_multiset() == v.to_multiset(),
        forall|i: int, j: int|
            0 <= i < j < sorted(v).len() ==> !text::before(sorted(v)[j], sorted(v)[i]),
    decreases v.len(),
{
    if v.len() > 0 {
        let w = v.drop_last();
        sorting_keeps_all_in_order(w);
        assert(in_order(sorted(w)));
        lemma_placed_in_order(sorted(w), v.last());
        vstd::seq_lib::to_multiset_build(sorted(w), v.last());
        vstd::seq_lib::to_multiset_build(w, v.last());
        assert(w.push(v.last()) =~= v);
        assert(in_order(sorted(v)));
    } else {
        assert(sorted(v) =~= v);
    }
}

/// A name is looked up in the first pair that has it.
pub proof fn names_are_looked_up(v: Seq<(Seq<char>, Seq<char>)>, name: Seq<char>, k: int)
    requires
        0 <= k <= v.len(),
        k < v.len() ==> v[k].0 == name,
        forall|i: int| 0 <= i < k ==> (#[trigger] v[i]).0 != name,
    ensures
        found(v, name) == if k < v.len() {
            Some(v[k].1)
        } else {
            None
        },
    decreases v.len(),
{
    if k > 0 {
        assert(v[0].0 != name);
        let rest = v.skip(1);
        assert forall|i: int| 0 <= i < k - 1 implies (#[trigger] rest[i]).0 != name by {
            assert(rest[i] == v[i + 1]);
        }
        names_are_looked_up(rest, name, k - 1);
    }
}

} // verus!
