//! The order of `String`s (byte-wise lexicographic on their UTF-8 encoding),
//! and sorting with removal of duplicates.

use vstd::prelude::*;
use vstd::utf8::encode_utf8;
use crate::text::views;

verus! {

broadcast use vstd::seq_lib::group_seq_properties;

/// Byte-wise lexicographic order: `a` sorts strictly before `b`.
pub open spec fn bytes_lt(a: Seq<u8>, b: Seq<u8>) -> bool
    decreases a.len(),
{
    if a.len() == 0 {
        b.len() > 0
    } else if b.len() == 0 {
        false
    } else if a[0] != b[0] {
        a[0] < b[0]
    } else {
        bytes_lt(a.drop_first(), b.drop_first())
    }
}

/// The order of `String` (`Ord for str`): the byte-wise order of the UTF-8 encodings.
pub open spec fn str_lt(a: Seq<char>, b: Seq<char>) -> bool {
    bytes_lt(encode_utf8(a), encode_utf8(b))
}

/// Every element sorts strictly before each later one: sorted, with no duplicates.
pub open spec fn strictly_sorted(s: Seq<Seq<char>>) -> bool {
    forall|i: int, j: int| 0 <= i < j < s.len() ==> str_lt(#[trigger] s[i], #[trigger] s[j])
}

/// The three outcomes of comparing two strings.
#[derive(PartialEq, Eq, Structural, Clone, Copy, Debug)]
pub enum Order {
    Less,
    Equal,
    Greater,
}

/// The byte order is a strict total order: irreflexive, asymmetric and total.
pub proof fn lemma_bytes_lt_total(a: Seq<u8>, b: Seq<u8>)
    ensures
        !bytes_lt(a, a),
        !(bytes_lt(a, b) && bytes_lt(b, a)),
        a == b || bytes_lt(a, b) || bytes_lt(b, a),
    decreases a.len(),
{
    if a.len() > 0 && b.len() > 0 {
        lemma_bytes_lt_total(a.drop_first(), b.drop_first());
        lemma_bytes_lt_total(a.drop_first(), a.drop_first());
        if a[0] == b[0] && a.drop_first() == b.drop_first() {
            assert(a =~= seq![a[0]] + a.drop_first());
            assert(b =~= seq![b[0]] + b.drop_first());
        }
    } else if a.len() > 0 {
        lemma_bytes_lt_total(a.drop_first(), a.drop_first());
    } else if b.len() == 0 {
        assert(a =~= b);
    }
}

/// The byte order is transitive.
pub proof fn lemma_bytes_lt_transitive(a: Seq<u8>, b: Seq<u8>, c: Seq<u8>)
    requires
        bytes_lt(a, b),
        bytes_lt(b, c),
    ensures
        bytes_lt(a, c),
    decreases a.len(),
{
    if a.len() > 0 && a[0] == b[0] && b[0] == c[0] {
        lemma_bytes_lt_transitive(a.drop_first(), b.drop_first(), c.drop_first());
    }
}

/// The string order is a strict total order.
pub proof fn lemma_str_lt_total(a: Seq<char>, b: Seq<char>)
    ensures
        !str_lt(a, a),
        !(str_lt(a, b) && str_lt(b, a)),
        a == b || str_lt(a, b) || str_lt(b, a),
{
    broadcast use vstd::utf8::encode_utf8_decode_utf8;

    lemma_bytes_lt_total(encode_utf8(a), encode_utf8(b));
    lemma_bytes_lt_total(encode_utf8(a), encode_utf8(a));
    if encode_utf8(a) == encode_utf8(b) {
        assert(vstd::utf8::decode_utf8(encode_utf8(a)) == a);
        assert(vstd::utf8::decode_utf8(encode_utf8(b)) == b);
    }
}

/// The string order is transitive.
pub proof fn lemma_str_lt_transitive(a: Seq<char>, b: Seq<char>, c: Seq<char>)
    requires
        str_lt(a, b),
        str_lt(b, c),
    ensures
        str_lt(a, c),
{
    lemma_bytes_lt_transitive(encode_utf8(a), encode_utf8(b), encode_utf8(c));
}

/// Appending an element greater than the last keeps a sequence strictly sorted.
proof fn lemma_sorted_push(s: Seq<Seq<char>>, x: Seq<char>)
    requires
        strictly_sorted(s),
        s.len() > 0 ==> str_lt(s.last(), x),
    ensures
        strictly_sorted(s.push(x)),
{
    let t = s.push(x);
    assert forall|i: int, j: int| 0 <= i < j < t.len() implies str_lt(#[trigger] t[i], #[trigger] t[j]) by {
        if j == s.len() && i < s.len() - 1 {
            assert(str_lt(s[i], s[s.len() - 1]) && s[s.len() - 1] == s[s.len() - 1]);
            lemma_str_lt_transitive(s[i], s.last(), x);
        }
    }
}

/// The elements of a concatenation are those of its parts.
proof fn lemma_to_set_concat<A>(a: Seq<A>, b: Seq<A>)
    ensures
        (a + b).to_set() == a.to_set() + b.to_set(),
{
    assert forall|e: A| (a + b).to_set().contains(e) <==> (a.to_set() + b.to_set()).contains(e) by {
        if (a + b).contains(e) {
            let i = choose|i: int| 0 <= i < (a + b).len() && (a + b)[i] == e;
            if i < a.len() {
                assert(a[i] == e);
            } else {
                assert(b[i - a.len()] == e);
            }
        }
        if a.contains(e) {
            let i = choose|i: int| 0 <= i < a.len() && a[i] == e;
            assert((a + b)[i] == e);
        }
        if b.contains(e) {
            let i = choose|i: int| 0 <= i < b.len() && b[i] == e;
            assert((a + b)[a.len() + i] == e);
        }
    }
    assert((a + b).to_set() =~= a.to_set() + b.to_set());
}

/// Two strictly sorted sequences with the same elements are equal: sorting and
/// removing duplicates has exactly one possible result.
pub proof fn lemma_strictly_sorted_unique(a: Seq<Seq<char>>, b: Seq<Seq<char>>)
    requires
        strictly_sorted(a),
        strictly_sorted(b),
        a.to_set() == b.to_set(),
    ensures
        a == b,
    decreases a.len(),
{
    if a.len() == 0 {
        if b.len() > 0 {
            assert(b.to_set().contains(b[0]));
        }
        assert(a =~= b);
    } else if b.len() == 0 {
        assert(a.to_set().contains(a[0]));
    } else {
        // The first elements are the least of the common set, hence equal.
        assert(a.to_set().contains(a[0]));
        assert(b.to_set().contains(b[0]));
        let i = choose|i: int| 0 <= i < b.len() && b[i] == a[0];
        let j = choose|j: int| 0 <= j < a.len() && a[j] == b[0];
        if i > 0 {
            assert(str_lt(b[0], b[i]));
            if j > 0 {
                assert(str_lt(a[0], a[j]));
            }
            lemma_str_lt_total(a[0], b[0]);
        }
        assert(a[0] == b[0]);
        let a1 = a.drop_first();
        let b1 = b.drop_first();
        assert(strictly_sorted(a1)) by {
            assert forall|p: int, q: int| 0 <= p < q < a1.len() implies str_lt(#[trigger] a1[p], #[trigger] a1[q]) by {
                assert(str_lt(a[p + 1], a[q + 1]));
            }
        }
        assert(strictly_sorted(b1)) by {
            assert forall|p: int, q: int| 0 <= p < q < b1.len() implies str_lt(#[trigger] b1[p], #[trigger] b1[q]) by {
                assert(str_lt(b[p + 1], b[q + 1]));
            }
        }
        assert forall|e: Seq<char>| a1.to_set().contains(e) <==> b1.to_set().contains(e) by {
            if a1.contains(e) {
                let p = choose|p: int| 0 <= p < a1.len() && a1[p] == e;
                assert(str_lt(a[0], a[p + 1]));
                lemma_str_lt_total(a[0], e);
                assert(a.contains(e));
                assert(b.to_set().contains(e));
                let q = choose|q: int| 0 <= q < b.len() && b[q] == e;
                assert(q != 0);
                assert(b1[q - 1] == e);
            }
            if b1.contains(e) {
                let p = choose|p: int| 0 <= p < b1.len() && b1[p] == e;
                assert(str_lt(b[0], b[p + 1]));
                lemma_str_lt_total(b[0], e);
                assert(b.contains(e));
                assert(a.to_set().contains(e));
                let q = choose|q: int| 0 <= q < a.len() && a[q] == e;
                assert(q != 0);
                assert(a1[q - 1] == e);
            }
        }
        assert(a1.to_set() =~= b1.to_set());
        lemma_strictly_sorted_unique(a1, b1);
        assert(a =~= seq![a[0]] + a1);
        assert(b =~= seq![b[0]] + b1);
    }
}

/// The strictly sorted sequence holding exactly the elements of `s`: what sorting
/// `s` and removing duplicates gives.
pub open spec fn sorted_set(s: Seq<Seq<char>>) -> Seq<Seq<char>> {
    choose|m: Seq<Seq<char>>| strictly_sorted(m) && m.to_set() == s.to_set()
}

/// A strictly sorted sequence with the elements of `s` is `sorted_set(s)`.
pub proof fn lemma_sorted_set(m: Seq<Seq<char>>, s: Seq<Seq<char>>)
    requires
        strictly_sorted(m),
        m.to_set() == s.to_set(),
    ensures
        m == sorted_set(s),
{
    let c = sorted_set(s);
    assert(strictly_sorted(c) && c.to_set() == s.to_set());
    lemma_strictly_sorted_unique(m, c);
}

/// `x` put into its place in a strictly sorted `m` (nothing changes when `m` holds it).
spec fn insert_sorted(m: Seq<Seq<char>>, x: Seq<char>) -> Seq<Seq<char>>
    decreases m.len(),
{
    if m.len() == 0 {
        seq![x]
    } else if str_lt(m.last(), x) {
        m.push(x)
    } else if m.last() == x {
        m
    } else {
        insert_sorted(m.drop_last(), x).push(m.last())
    }
}

/// Inserting into a strictly sorted sequence keeps it strictly sorted and adds `x`
/// to its elements.
proof fn lemma_insert_sorted(m: Seq<Seq<char>>, x: Seq<char>)
    requires
        strictly_sorted(m),
    ensures
        strictly_sorted(insert_sorted(m, x)),
        insert_sorted(m, x).to_set() == m.to_set().insert(x),
    decreases m.len(),
{
    if m.len() == 0 {
        assert(seq![x].to_set() =~= Set::<Seq<char>>::empty().insert(x));
        assert(m.to_set() =~= Set::<Seq<char>>::empty());
    } else if str_lt(m.last(), x) {
        lemma_sorted_push(m, x);
        m.lemma_push_to_set_commute(x);
    } else if m.last() == x {
        assert(m.to_set().contains(m[m.len() - 1]));
        assert(m.to_set().insert(x) =~= m.to_set());
    } else {
        let p = m.drop_last();
        let y = m.last();
        lemma_str_lt_total(x, y);
        assert(strictly_sorted(p)) by {
            assert forall|i: int, j: int| 0 <= i < j < p.len() implies str_lt(#[trigger] p[i], #[trigger] p[j]) by {
                assert(p[i] == m[i] && p[j] == m[j]);
            }
        }
        lemma_insert_sorted(p, x);
        let q = insert_sorted(p, x);
        if q.len() > 0 {
            assert(q.to_set().contains(q[q.len() - 1]));
            let z = q.last();
            if z != x {
                assert(p.to_set().contains(z));
                let k = choose|k: int| 0 <= k < p.len() && p[k] == z;
                assert(m[k] == z && m[m.len() - 1] == y);
            }
        }
        lemma_sorted_push(q, y);
        q.lemma_push_to_set_commute(y);
        p.lemma_push_to_set_commute(y);
        assert(p.push(y) =~= m);
        assert(q.to_set().insert(y) =~= m.to_set().insert(x));
    }
}

/// The elements of `s` inserted one after the other into an empty sequence.
spec fn sorted_of(s: Seq<Seq<char>>) -> Seq<Seq<char>>
    decreases s.len(),
{
    if s.len() == 0 {
        Seq::empty()
    } else {
        insert_sorted(sorted_of(s.drop_last()), s.last())
    }
}

/// `sorted_of(s)` is strictly sorted and holds the elements of `s`.
proof fn lemma_sorted_of(s: Seq<Seq<char>>)
    ensures
        strictly_sorted(sorted_of(s)),
        sorted_of(s).to_set() == s.to_set(),
    decreases s.len(),
{
    if s.len() == 0 {
        assert(sorted_of(s).to_set() =~= s.to_set());
    } else {
        lemma_sorted_of(s.drop_last());
        lemma_insert_sorted(sorted_of(s.drop_last()), s.last());
        s.drop_last().lemma_push_to_set_commute(s.last());
        assert(s.drop_last().push(s.last()) =~= s);
    }
}

/// Every list has a sorted set: `sorted_set(s)` is strictly sorted and holds exactly
/// the elements of `s`.
pub proof fn lemma_sorted_set_exists(s: Seq<Seq<char>>)
    ensures
        strictly_sorted(sorted_set(s)),
        sorted_set(s).to_set() == s.to_set(),
{
    lemma_sorted_of(s);
    lemma_sorted_set(sorted_of(s), s);
}

/// Two lists with the same elements have the same sorted set, whatever their order
/// and repetitions.
pub proof fn lemma_sorted_set_same_elements(a: Seq<Seq<char>>, b: Seq<Seq<char>>)
    requires
        a.to_set() == b.to_set(),
    ensures
        sorted_set(a) == sorted_set(b),
{
    lemma_sorted_set_exists(a);
    lemma_sorted_set(sorted_set(a), b);
}

/// Sorting a sorted, duplicate-free list again changes nothing.
pub proof fn lemma_sorted_set_of_sorted(m: Seq<Seq<char>>)
    requires
        strictly_sorted(m),
    ensures
        sorted_set(m) == m,
{
    lemma_sorted_set(m, m);
}

/// Compares two byte strings in lexicographic order.
pub fn compare_bytes(a: &[u8], b: &[u8]) -> (r: Order)
    ensures
        (r == Order::Less) == bytes_lt(a@, b@),
        (r == Order::Equal) == (a@ == b@),
        (r == Order::Greater) == bytes_lt(b@, a@),
{
    proof {
        lemma_bytes_lt_total(a@, b@);
        assert(a@.skip(0) =~= a@);
        assert(b@.skip(0) =~= b@);
    }
    let mut i: usize = 0;
    while i < a.len() && i < b.len()
        invariant
            i <= a@.len(),
            i <= b@.len(),
            forall|k: int| 0 <= k < i ==> a@[k] == b@[k],
            bytes_lt(a@, b@) == bytes_lt(a@.skip(i as int), b@.skip(i as int)),
            bytes_lt(b@, a@) == bytes_lt(b@.skip(i as int), a@.skip(i as int)),
            !(bytes_lt(a@, b@) && bytes_lt(b@, a@)),
            a@ == b@ || bytes_lt(a@, b@) || bytes_lt(b@, a@),
        decreases a@.len() - i,
    {
        if a[i] < b[i] {
            return Order::Less;
        }
        if a[i] > b[i] {
            return Order::Greater;
        }
        assert(a@.skip(i as int).drop_first() =~= a@.skip(i + 1));
        assert(b@.skip(i as int).drop_first() =~= b@.skip(i + 1));
        i = i + 1;
    }
    if i < b.len() {
        return Order::Less;
    }
    if i < a.len() {
        return Order::Greater;
    }
    assert(a@ =~= b@);
    Order::Equal
}

/// Compares two strings in the order of `String`.
pub fn compare_strings(a: &String, b: &String) -> (r: Order)
    ensures
        (r == Order::Less) == str_lt(a@, b@),
        (r == Order::Equal) == (a@ == b@),
        (r == Order::Greater) == str_lt(b@, a@),
{
    proof {
        lemma_str_lt_total(a@, b@);
    }
    let r = compare_bytes(a.as_str().as_bytes(), b.as_str().as_bytes());
    r
}

/// Merges two strictly sorted sequences into one, keeping one copy of each shared string.
fn merge_unique(a: Vec<String>, b: Vec<String>) -> (r: Vec<String>)
    requires
        strictly_sorted(views(a@)),
        strictly_sorted(views(b@)),
    ensures
        strictly_sorted(views(r@)),
        views(r@).to_set() == views(a@).to_set() + views(b@).to_set(),
{
    let ghost va = views(a@);
    let ghost vb = views(b@);
    let mut r: Vec<String> = Vec::new();
    let mut i: usize = 0;
    let mut j: usize = 0;
    proof {
        assert(views(r@).to_set() =~= va.take(0).to_set() + vb.take(0).to_set());
    }
    while i < a.len() || j < b.len()
        invariant
            va == views(a@),
            vb == views(b@),
            strictly_sorted(va),
            strictly_sorted(vb),
            i <= a@.len(),
            j <= b@.len(),
            strictly_sorted(views(r@)),
            views(r@).to_set() == va.take(i as int).to_set() + vb.take(j as int).to_set(),
            r@.len() > 0 && i < a@.len() ==> str_lt(views(r@).last(), va[i as int]),
            r@.len() > 0 && j < b@.len() ==> str_lt(views(r@).last(), vb[j as int]),
        decreases a@.len() + b@.len() - i - j,
    {
        let ghost old_r = views(r@);
        let take_a: bool;
        let take_b: bool;
        if i < a.len() && j < b.len() {
            let o = compare_strings(&a[i], &b[j]);
            take_a = o != Order::Greater;
            take_b = o != Order::Less;
        } else {
            take_a = i < a.len();
            take_b = !take_a;
        }
        let x = if take_a { a[i].clone() } else { b[j].clone() };
        proof {
            lemma_sorted_push(old_r, x@);
            assert(views(r@.push(x)) =~= old_r.push(x@));
            old_r.lemma_push_to_set_commute(x@);
            if take_a {
                assert(va.take(i + 1) =~= va.take(i as int).push(x@));
                va.take(i as int).lemma_push_to_set_commute(x@);
            }
            if take_b {
                assert(vb.take(j + 1) =~= vb.take(j as int).push(vb[j as int]));
                vb.take(j as int).lemma_push_to_set_commute(vb[j as int]);
            }
            if i + 1 < a@.len() {
                assert(str_lt(va[i as int], va[i + 1]));
            }
            if j + 1 < b@.len() {
                assert(str_lt(vb[j as int], vb[j + 1]));
            }
            if take_a && !take_b && j < b@.len() {
                lemma_str_lt_total(va[i as int], vb[j as int]);
            }
            if take_b && !take_a && i < a@.len() {
                lemma_str_lt_total(va[i as int], vb[j as int]);
            }
        }
        r.push(x);
        if take_a {
            i = i + 1;
        }
        if take_b {
            j = j + 1;
        }
    }
    proof {
        assert(va.take(a@.len() as int) =~= va);
        assert(vb.take(b@.len() as int) =~= vb);
    }
    r
}

/// Sorts the strings in the order of `String` and removes duplicates
/// (`sort` followed by `dedup`).
pub fn sort_dedup(v: Vec<String>) -> (r: Vec<String>)
    ensures
        strictly_sorted(views(r@)),
        views(r@).to_set() == views(v@).to_set(),
        views(r@) == sorted_set(views(v@)),
    decreases v@.len(),
{
    let r = sort_merge(v);
    proof {
        lemma_sorted_set(views(r@), views(v@));
    }
    r
}

/// Merge sort that drops duplicates.
fn sort_merge(v: Vec<String>) -> (r: Vec<String>)
    ensures
        strictly_sorted(views(r@)),
        views(r@).to_set() == views(v@).to_set(),
    decreases v@.len(),
{
    if v.len() <= 1 {
        return v;
    }
    let mut left = v;
    let ghost whole = views(left@);
    let mid = left.len() / 2;
    let right = left.split_off(mid);
    proof {
        assert(whole =~= views(left@) + views(right@));
        lemma_to_set_concat(views(left@), views(right@));
    }
    let sl = sort_merge(left);
    let sr = sort_merge(right);
    merge_unique(sl, sr)
}

} // verus!
