//! Attributes of an element and their ordering by raw key bytes.
use vstd::prelude::*;
use vstd::multiset::Multiset;

verus! {

/// One attribute of an element, as the raw bytes of its key and value.
pub struct Attr {
    pub key: Vec<u8>,
    pub value: Vec<u8>,
}

/// Lexicographic order on byte sequences: `x` comes no later than `y`.
pub open spec fn bytes_le(x: Seq<u8>, y: Seq<u8>) -> bool
    decreases x.len(),
{
    if x.len() == 0 {
        true
    } else if y.len() == 0 {
        false
    } else if x[0] != y[0] {
        x[0] < y[0]
    } else {
        bytes_le(x.drop_first(), y.drop_first())
    }
}

/// Places `a` in front of the first attribute of `s` whose key it does not
/// exceed.
pub open spec fn insert_attr(a: Attr, s: Seq<Attr>) -> Seq<Attr>
    decreases s.len(),
{
    if s.len() == 0 {
        seq![a]
    } else if bytes_le(a.key@, s[0].key@) {
        seq![a] + s
    } else {
        seq![s[0]] + insert_attr(a, s.drop_first())
    }
}

/// The attributes in ascending order of their keys' bytes; attributes with
/// equal keys keep their relative order.
pub open spec fn sort_attrs(s: Seq<Attr>) -> Seq<Attr>
    decreases s.len(),
{
    if s.len() == 0 {
        Seq::empty()
    } else {
        insert_attr(s[0], sort_attrs(s.drop_first()))
    }
}

/// Whether each key is no later than the next one.
pub open spec fn keys_sorted(s: Seq<Attr>) -> bool {
    forall|i: int| 0 <= i < s.len() - 1 ==> bytes_le(#[trigger] s[i].key@, s[i + 1].key@)
}

proof fn lemma_bytes_le_total(x: Seq<u8>, y: Seq<u8>)
    ensures
        bytes_le(x, y) || bytes_le(y, x),
    decreases x.len(),
{
    if x.len() > 0 && y.len() > 0 && x[0] == y[0] {
        lemma_bytes_le_total(x.drop_first(), y.drop_first());
    }
}

proof fn lemma_bytes_le_suffix(x: Seq<u8>, y: Seq<u8>, i: int)
    requires
        0 <= i <= x.len(),
        i <= y.len(),
        forall|j: int| 0 <= j < i ==> x[j] == y[j],
    ensures
        bytes_le(x, y) == bytes_le(x.skip(i), y.skip(i)),
    decreases i,
{
    if i == 0 {
        assert(x.skip(0) == x);
        assert(y.skip(0) == y);
    } else {
        assert(x[0] == y[0]);
        lemma_bytes_le_suffix(x.drop_first(), y.drop_first(), i - 1);
        assert(x.drop_first().skip(i - 1) == x.skip(i));
        assert(y.drop_first().skip(i - 1) == y.skip(i));
    }
}

/// Compares two byte strings lexicographically.
pub fn key_le(x: &Vec<u8>, y: &Vec<u8>) -> (r: bool)
    ensures
        r == bytes_le(x@, y@),
{
    let mut i: usize = 0;
    while i < x.len() && i < y.len()
        invariant
            0 <= i <= x.len(),
            i <= y.len(),
            forall|j: int| 0 <= j < i ==> x@[j] == y@[j],
        decreases x.len() - i,
    {
        if x[i] != y[i] {
            proof {
                lemma_bytes_le_suffix(x@, y@, i as int);
                assert(x@.skip(i as int)[0] == x@[i as int]);
                assert(y@.skip(i as int)[0] == y@[i as int]);
            }
            return x[i] < y[i];
        }
        i = i + 1;
    }
    proof {
        lemma_bytes_le_suffix(x@, y@, i as int);
        assert(x@.skip(i as int).len() == 0 || y@.skip(i as int).len() == 0);
    }
    i == x.len()
}

proof fn lemma_insert_at(a: Attr, s: Seq<Attr>, k: int)
    requires
        0 <= k <= s.len(),
        forall|j: int| 0 <= j < k ==> !bytes_le(a.key@, #[trigger] s[j].key@),
        k < s.len() ==> bytes_le(a.key@, s[k].key@),
    ensures
        insert_attr(a, s) == s.insert(k, a),
    decreases k,
{
    if k == 0 {
        assert(s.insert(0, a) =~= seq![a] + s);
    } else {
        assert(!bytes_le(a.key@, s[0].key@));
        lemma_insert_at(a, s.drop_first(), k - 1);
        assert(s.insert(k, a) =~= seq![s[0]] + s.drop_first().insert(k - 1, a));
    }
}

/// Inserts `a` into `v` in front of the first attribute whose key it does not
/// exceed.
fn insert_sorted(v: &mut Vec<Attr>, a: Attr)
    ensures
        final(v)@ == insert_attr(a, old(v)@),
{
    let mut k: usize = 0;
    while k < v.len() && !key_le(&a.key, &v[k].key)
        invariant
            0 <= k <= v.len(),
            forall|j: int| 0 <= j < k ==> !bytes_le(a.key@, #[trigger] v@[j].key@),
        decreases v.len() - k,
    {
        k = k + 1;
    }
    proof {
        lemma_insert_at(a, v@, k as int);
    }
    v.insert(k, a);
}

/// Orders attributes by the raw bytes of their keys, ascending; attributes
/// with equal keys keep their relative order.
pub fn sort_by_key(attrs: Vec<Attr>) -> (r: Vec<Attr>)
    ensures
        r@ == sort_attrs(attrs@),
        keys_sorted(r@),
        r@.to_multiset() == attrs@.to_multiset(),
{
    let ghost orig = attrs@;
    let mut rest = attrs;
    let mut r: Vec<Attr> = Vec::new();
    while rest.len() > 0
        invariant
            rest@ == orig.take(rest@.len() as int),
            rest@.len() <= orig.len(),
            r@ == sort_attrs(orig.skip(rest@.len() as int)),
        decreases rest.len(),
    {
        let ghost n = rest@.len() as int;
        let a = rest.pop().unwrap();
        proof {
            assert(orig.skip(n - 1).drop_first() =~= orig.skip(n));
            assert(orig.skip(n - 1)[0] == orig[n - 1]);
            assert(rest@ =~= orig.take(n - 1));
        }
        insert_sorted(&mut r, a);
    }
    proof {
        assert(orig.skip(0) == orig);
        lemma_sort_attrs_sorted(orig);
        lemma_sort_attrs_permutes(orig);
    }
    r
}

proof fn lemma_insert_attr_props(a: Attr, s: Seq<Attr>)
    requires
        keys_sorted(s),
    ensures
        keys_sorted(insert_attr(a, s)),
        insert_attr(a, s).len() == s.len() + 1,
        insert_attr(a, s)[0] == a || (s.len() > 0 && insert_attr(a, s)[0] == s[0]),
    decreases s.len(),
{
    if s.len() > 0 && !bytes_le(a.key@, s[0].key@) {
        let t = s.drop_first();
        assert(keys_sorted(t)) by {
            assert forall|i: int| 0 <= i < t.len() - 1 implies bytes_le(#[trigger] t[i].key@, t[i + 1].key@) by {
                assert(s[i + 1] == t[i]);
            };
        };
        lemma_insert_attr_props(a, t);
        lemma_bytes_le_total(a.key@, s[0].key@);
        let u = insert_attr(a, t);
        let w = seq![s[0]] + u;
        assert forall|i: int| 0 <= i < w.len() - 1 implies bytes_le(#[trigger] w[i].key@, w[i + 1].key@) by {
            if i == 0 {
                if t.len() > 0 && u[0] == t[0] {
                    assert(t[0] == s[1]);
                }
            } else {
                assert(w[i] == u[i - 1]);
            }
        };
    } else if s.len() > 0 {
        let w = seq![a] + s;
        assert forall|i: int| 0 <= i < w.len() - 1 implies bytes_le(#[trigger] w[i].key@, w[i + 1].key@) by {
            if i > 0 {
                assert(w[i] == s[i - 1]);
            }
        };
    }
}

proof fn lemma_sort_attrs_sorted(s: Seq<Attr>)
    ensures
        keys_sorted(sort_attrs(s)),
        sort_attrs(s).len() == s.len(),
    decreases s.len(),
{
    if s.len() > 0 {
        lemma_sort_attrs_sorted(s.drop_first());
        lemma_insert_attr_props(s[0], sort_attrs(s.drop_first()));
    }
}

proof fn lemma_insert_attr_index(a: Attr, t: Seq<Attr>) -> (k: int)
    ensures
        0 <= k <= t.len(),
        insert_attr(a, t) == t.insert(k, a),
    decreases t.len(),
{
    if t.len() == 0 || bytes_le(a.key@, t[0].key@) {
        assert(t.insert(0, a) =~= seq![a] + t);
        0
    } else {
        let k = lemma_insert_attr_index(a, t.drop_first());
        assert(t.insert(k + 1, a) =~= seq![t[0]] + t.drop_first().insert(k, a));
        k + 1
    }
}

proof fn lemma_sort_attrs_permutes(s: Seq<Attr>)
    ensures
        sort_attrs(s).to_multiset() == s.to_multiset(),
    decreases s.len(),
{
    if s.len() > 0 {
        let rest = s.drop_first();
        lemma_sort_attrs_permutes(rest);
        let k = lemma_insert_attr_index(s[0], sort_attrs(rest));
        vstd::seq_lib::to_multiset_insert(sort_attrs(rest), k, s[0]);
        assert(rest.insert(0, s[0]) =~= s);
        vstd::seq_lib::to_multiset_insert(rest, 0, s[0]);
    } else {
        assert(s =~= sort_attrs(s));
    }
}

proof fn lemma_bytes_le_refl(x: Seq<u8>)
    ensures
        bytes_le(x, x),
    decreases x.len(),
{
    if x.len() > 0 {
        lemma_bytes_le_refl(x.drop_first());
    }
}

proof fn lemma_bytes_le_antisym(x: Seq<u8>, y: Seq<u8>)
    requires
        bytes_le(x, y),
        bytes_le(y, x),
    ensures
        x == y,
    decreases x.len(),
{
    if x.len() > 0 && y.len() > 0 {
        lemma_bytes_le_antisym(x.drop_first(), y.drop_first());
        assert(x =~= seq![x[0]] + x.drop_first());
        assert(y =~= seq![y[0]] + y.drop_first());
    } else {
        assert(x =~= y);
    }
}

proof fn lemma_bytes_le_trans(x: Seq<u8>, y: Seq<u8>, z: Seq<u8>)
    requires
        bytes_le(x, y),
        bytes_le(y, z),
    ensures
        bytes_le(x, z),
    decreases x.len(),
{
    if x.len() > 0 && y.len() > 0 && z.len() > 0 && x[0] == y[0] && y[0] == z[0] {
        lemma_bytes_le_trans(x.drop_first(), y.drop_first(), z.drop_first());
    }
}

proof fn lemma_sorted_first_le(s: Seq<Attr>, j: int)
    requires
        keys_sorted(s),
        0 <= j < s.len(),
    ensures
        bytes_le(s[0].key@, s[j].key@),
    decreases j,
{
    if j == 0 {
        lemma_bytes_le_refl(s[0].key@);
    } else {
        lemma_sorted_first_le(s, j - 1);
        lemma_bytes_le_trans(s[0].key@, s[j - 1].key@, s[j].key@);
    }
}

/// Whether attributes with equal keys are equal, among those that `m` holds.
pub open spec fn keys_identify(m: Multiset<Attr>) -> bool {
    forall|a: Attr, b: Attr|
        #[trigger] m.count(a) > 0 && #[trigger] m.count(b) > 0 && a.key@ == b.key@ ==> a == b
}

proof fn lemma_sorted_unique(s: Seq<Attr>, t: Seq<Attr>)
    requires
        keys_sorted(s),
        keys_sorted(t),
        s.to_multiset() == t.to_multiset(),
        keys_identify(s.to_multiset()),
    ensures
        s == t,
    decreases s.len(),
{
    broadcast use vstd::seq_lib::group_to_multiset_ensures;

    assert(s.len() == s.to_multiset().len());
    assert(t.len() == t.to_multiset().len());
    if s.len() > 0 {
        assert(s.contains(s[0]));
        assert(t.contains(t[0]));
        assert(t.to_multiset().count(s[0]) > 0);
        assert(s.to_multiset().count(t[0]) > 0);
        let i = choose|i: int| 0 <= i < s.len() && s[i] == t[0];
        let j = choose|j: int| 0 <= j < t.len() && t[j] == s[0];
        lemma_sorted_first_le(s, i);
        lemma_sorted_first_le(t, j);
        lemma_bytes_le_antisym(s[0].key@, t[0].key@);
        assert(s[0] == t[0]);
        let s1 = s.drop_first();
        let t1 = t.drop_first();
        assert(s.remove(0) == s1);
        assert(t.remove(0) == t1);
        assert(s1.to_multiset() == s.to_multiset().remove(s[0]));
        assert(t1.to_multiset() == t.to_multiset().remove(t[0]));
        assert(keys_sorted(s1)) by {
            assert forall|k: int| 0 <= k < s1.len() - 1 implies bytes_le(#[trigger] s1[k].key@, s1[k + 1].key@) by {
                assert(s1[k] == s[k + 1]);
            };
        };
        assert(keys_sorted(t1)) by {
            assert forall|k: int| 0 <= k < t1.len() - 1 implies bytes_le(#[trigger] t1[k].key@, t1[k + 1].key@) by {
                assert(t1[k] == t[k + 1]);
            };
        };
        assert(keys_identify(s1.to_multiset())) by {
            assert forall|a: Attr, b: Attr|
                #[trigger] s1.to_multiset().count(a) > 0 && #[trigger] s1.to_multiset().count(b) > 0
                && a.key@ == b.key@ implies a == b by {
                assert(s.to_multiset().count(a) > 0);
                assert(s.to_multiset().count(b) > 0);
            };
        };
        lemma_sorted_unique(s1, t1);
        assert(s =~= seq![s[0]] + s1);
        assert(t =~= seq![t[0]] + t1);
    } else {
        assert(s =~= t);
    }
}

/// When no two different attributes share a key, the order in which an
/// element's attributes are given does not change their sorted order.
pub proof fn lemma_sort_ignores_input_order(s: Seq<Attr>, t: Seq<Attr>)
    requires
        s.to_multiset() == t.to_multiset(),
        keys_identify(s.to_multiset()),
    ensures
        sort_attrs(s) == sort_attrs(t),
{
    lemma_sort_attrs_sorted(s);
    lemma_sort_attrs_sorted(t);
    lemma_sort_attrs_permutes(s);
    lemma_sort_attrs_permutes(t);
    lemma_sorted_unique(sort_attrs(s), sort_attrs(t));
}

} // verus!
