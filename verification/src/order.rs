//! Putting things in order by their bytes.

use vstd::prelude::*;
use vstd::seq_lib::*;
use vstd::string::*;
use vstd::utf8::*;

verus! {

/// `a` stands before `b`, or is `b`, in the lexicographic order of byte strings.
pub open spec fn bytes_le(a: Seq<u8>, b: Seq<u8>) -> bool
    decreases a.len(),
{
    if a.len() == 0 {
        true
    } else if b.len() == 0 {
        false
    } else if a[0] == b[0] {
        bytes_le(a.drop_first(), b.drop_first())
    } else {
        a[0] < b[0]
    }
}

/// One of two byte strings stands before the other.
pub proof fn law_total(a: Seq<u8>, b: Seq<u8>)
    ensures
        bytes_le(a, b) || bytes_le(b, a),
    decreases a.len(),
{
    if a.len() > 0 && b.len() > 0 && a[0] == b[0] {
        law_total(a.drop_first(), b.drop_first());
    }
}

/// Only equal byte strings stand before one another.
pub proof fn law_antisymmetric(a: Seq<u8>, b: Seq<u8>)
    requires
        bytes_le(a, b),
        bytes_le(b, a),
    ensures
        a == b,
    decreases a.len(),
{
    if a.len() > 0 && b.len() > 0 {
        law_antisymmetric(a.drop_first(), b.drop_first());
        assert(a =~= seq![a[0]] + a.drop_first());
        assert(b =~= seq![b[0]] + b.drop_first());
    } else {
        assert(a =~= b);
    }
}

/// The order carries over.
pub proof fn law_transitive(a: Seq<u8>, b: Seq<u8>, c: Seq<u8>)
    requires
        bytes_le(a, b),
        bytes_le(b, c),
    ensures
        bytes_le(a, c),
    decreases a.len(),
{
    if a.len() > 0 && b.len() > 0 && c.len() > 0 && a[0] == b[0] && b[0] == c[0] {
        law_transitive(a.drop_first(), b.drop_first(), c.drop_first());
    }
}

/// Whether `a` stands before `b`, or is `b`.
pub fn not_after(a: &[u8], b: &[u8]) -> (r: bool)
    ensures
        r == bytes_le(a@, b@),
{
    let mut i: usize = 0;
    proof {
        assert(a@.skip(0) =~= a@);
        assert(b@.skip(0) =~= b@);
    }
    while i < a.len() && i < b.len()
        invariant
            i <= a@.len(),
            i <= b@.len(),
            bytes_le(a@, b@) == bytes_le(a@.skip(i as int), b@.skip(i as int)),
        decreases a@.len() - i,
    {
        if a[i] != b[i] {
            return a[i] < b[i];
        }
        proof {
            assert(a@.skip(i as int).drop_first() =~= a@.skip(i + 1));
            assert(b@.skip(i as int).drop_first() =~= b@.skip(i + 1));
        }
        i = i + 1;
    }
    i == a.len()
}

/// What has a place in the order.
pub trait Keyed {
    /// The bytes that decide the place.
    spec fn key(&self) -> Seq<u8>;

    /// The bytes that decide the place.
    fn key_bytes(&self) -> (r: &[u8])
        ensures
            r@ == self.key(),
    ;
}

impl Keyed for String {
    open spec fn key(&self) -> Seq<u8> {
        encode_utf8(self@)
    }

    fn key_bytes(&self) -> (r: &[u8]) {
        self.as_str().as_bytes()
    }
}

impl Keyed for Vec<u8> {
    open spec fn key(&self) -> Seq<u8> {
        self@
    }

    fn key_bytes(&self) -> (r: &[u8]) {
        self.as_slice()
    }
}

/// The keys of a sequence of things.
pub open spec fn keys<T: Keyed>(v: Seq<T>) -> Seq<Seq<u8>> {
    Seq::new(v.len(), |i: int| v[i].key())
}

/// Each byte string stands before the ones behind it.
pub open spec fn sorted(s: Seq<Seq<u8>>) -> bool {
    forall|i: int, j: int| 0 <= i < j < s.len() ==> bytes_le(#[trigger] s[i], #[trigger] s[j])
}

/// The order of byte strings.
pub open spec fn by_bytes() -> spec_fn(Seq<u8>, Seq<u8>) -> bool {
    |a: Seq<u8>, b: Seq<u8>| bytes_le(a, b)
}

/// The byte strings of `s`, in order.
pub open spec fn ordered(s: Seq<Seq<u8>>) -> Seq<Seq<u8>> {
    s.sort_by(by_bytes())
}

/// The encodings of some texts.
pub open spec fn encoded(s: Seq<Seq<char>>) -> Seq<Seq<u8>> {
    s.map_values(|t: Seq<char>| encode_utf8(t))
}

/// The texts of `s`, in the order of their encodings.
pub open spec fn ordered_texts(s: Seq<Seq<char>>) -> Seq<Seq<char>> {
    ordered(encoded(s)).map_values(|b: Seq<u8>| decode_utf8(b))
}

/// Each of two byte strings can be put before or behind the other, and in only one way.
proof fn lemma_total_ordering()
    ensures
        vstd::relations::total_ordering(by_bytes()),
{
    let le = by_bytes();
    assert forall|x: Seq<u8>| #[trigger] le(x, x) by {
        law_total(x, x);
    }
    assert forall|x: Seq<u8>, y: Seq<u8>| #[trigger] le(x, y) && #[trigger] le(y, x) implies x
        == y by {
        law_antisymmetric(x, y);
    }
    assert forall|x: Seq<u8>, y: Seq<u8>, z: Seq<u8>| #[trigger]
        le(x, y) && #[trigger] le(y, z) implies le(x, z) by {
        law_transitive(x, y, z);
    }
    assert forall|x: Seq<u8>, y: Seq<u8>| #[trigger] le(x, y) || #[trigger] le(y, x) by {
        law_total(x, y);
    }
}

/// What is put in order is in order, and is the same.
pub proof fn law_ordered(s: Seq<Seq<u8>>)
    ensures
        sorted(ordered(s)),
        ordered(s).to_multiset() == s.to_multiset(),
{
    lemma_total_ordering();
    s.lemma_sort_by_ensures(by_bytes());
    let t = ordered(s);
    assert forall|i: int, j: int| 0 <= i < j < t.len() implies bytes_le(
        #[trigger] t[i],
        #[trigger] t[j],
    ) by {
        assert(by_bytes()(t[i], t[j]));
    }
}

/// There is only one order to put things in.
pub proof fn law_one_order(s: Seq<Seq<u8>>, t: Seq<Seq<u8>>)
    requires
        sorted(t),
        t.to_multiset() == s.to_multiset(),
    ensures
        t == ordered(s),
{
    lemma_total_ordering();
    s.lemma_sort_by_ensures(by_bytes());
    lemma_sorted_unique(t, ordered(s), by_bytes());
}

/// Putting things in order neither adds nor drops any.
pub proof fn law_ordered_contains(s: Seq<Seq<u8>>, x: Seq<u8>)
    ensures
        ordered(s).contains(x) <==> s.contains(x),
        ordered(s).len() == s.len(),
{
    broadcast use group_to_multiset_ensures;

    law_ordered(s);
    assert(ordered(s).contains(x) <==> ordered(s).to_multiset().count(x) > 0);
    assert(ordered(s).to_multiset().len() == s.to_multiset().len());
}

/// Texts that are sorted by their encodings are in the order of `ordered_texts`.
pub proof fn lemma_ordered_texts(r: Seq<String>, names: Seq<Seq<char>>)
    requires
        keys(r) == ordered(encoded(names)),
    ensures
        crate::text::views(r) == ordered_texts(names),
{
    assert forall|i: int| 0 <= i < r.len() implies #[trigger] crate::text::views(r)[i]
        == ordered_texts(names)[i] by {
        assert(keys(r)[i] == encode_utf8(r[i]@));
        encode_utf8_decode_utf8(r[i]@);
    }
    assert(keys(r).len() == r.len());
    assert(crate::text::views(r) =~= ordered_texts(names));
}

/// The things of `v`, in order.
pub fn sort<T: Keyed>(v: Vec<T>) -> (r: Vec<T>)
    ensures
        sorted(keys(r@)),
        r@.to_multiset() == v@.to_multiset(),
        keys(r@).to_multiset() == keys(v@).to_multiset(),
        keys(r@) == ordered(keys(v@)),
{
    let mut rest = v;
    let mut out: Vec<T> = Vec::new();
    proof {
        assert(out@.to_multiset().add(rest@.to_multiset()) =~= v@.to_multiset()) by {
            broadcast use group_to_multiset_ensures;

        }
        assert(keys(out@) =~= Seq::<Seq<u8>>::empty());
        assert(keys(out@).to_multiset().add(keys(rest@).to_multiset()) =~= keys(v@).to_multiset())
            by {
            broadcast use group_to_multiset_ensures;

        }
    }
    while rest.len() > 0
        invariant
            sorted(keys(out@)),
            out@.to_multiset().add(rest@.to_multiset()) == v@.to_multiset(),
            keys(out@).to_multiset().add(keys(rest@).to_multiset()) == keys(v@).to_multiset(),
        decreases rest@.len(),
    {
        let ghost rest0 = rest@;
        let ghost out0 = out@;
        if let Some(x) = rest.pop() {
            let mut i: usize = 0;
            while i < out.len() && !not_after(x.key_bytes(), out[i].key_bytes())
                invariant
                    out@ == out0,
                    i <= out@.len(),
                    sorted(keys(out@)),
                    forall|j: int| 0 <= j < i ==> bytes_le(#[trigger] out@[j].key(), x.key()),
                decreases out@.len() - i,
            {
                proof {
                    law_total(out@[i as int].key(), x.key());
                }
                i = i + 1;
            }
            out.insert(i, x);
            proof {
                lemma_insert_sorted(out0, i as int, x);
                assert(rest0 =~= rest@.push(x));
                assert(keys(rest0) =~= keys(rest@).push(x.key()));
                assert(keys(out@) =~= keys(out0).insert(i as int, x.key()));
                to_multiset_build(rest@, x);
                to_multiset_build(keys(rest@), x.key());
                to_multiset_insert(out0, i as int, x);
                to_multiset_insert(keys(out0), i as int, x.key());
                assert(out@.to_multiset().add(rest@.to_multiset()) =~= out0.to_multiset().add(
                    rest0.to_multiset(),
                ));
                assert(keys(out@).to_multiset().add(keys(rest@).to_multiset()) =~= keys(
                    out0,
                ).to_multiset().add(keys(rest0).to_multiset()));
            }
        }
    }
    proof {
        assert(rest@ =~= Seq::<T>::empty());
        assert(keys(rest@) =~= Seq::<Seq<u8>>::empty());
        assert(out@.to_multiset() =~= v@.to_multiset()) by {
            broadcast use group_to_multiset_ensures;

        }
        assert(keys(out@).to_multiset() =~= keys(v@).to_multiset()) by {
            broadcast use group_to_multiset_ensures;

        }
        law_one_order(keys(v@), keys(out@));
    }
    out
}

/// Putting a thing before the first one that does not stand before it keeps the order.
proof fn lemma_insert_sorted<T: Keyed>(s: Seq<T>, i: int, x: T)
    requires
        sorted(keys(s)),
        0 <= i <= s.len(),
        forall|j: int| 0 <= j < i ==> bytes_le(#[trigger] s[j].key(), x.key()),
        i < s.len() ==> bytes_le(x.key(), s[i].key()),
    ensures
        sorted(keys(s.insert(i, x))),
{
    let t = keys(s.insert(i, x));
    let k = keys(s);
    assert forall|a: int, b: int| 0 <= a < b < t.len() implies bytes_le(
        #[trigger] t[a],
        #[trigger] t[b],
    ) by {
        if a < i && b == i {
            assert(bytes_le(s[a].key(), x.key()));
        } else if a < i && b < i {
            assert(bytes_le(k[a], k[b]));
        } else if a < i {
            assert(bytes_le(k[a], k[b - 1]));
        } else if a == i {
            assert(k[i] == s[i].key());
            if b - 1 > i {
                assert(bytes_le(k[i], k[b - 1]));
                law_transitive(x.key(), k[i], k[b - 1]);
            }
        } else {
            assert(bytes_le(k[a - 1], k[b - 1]));
        }
    }
}

/// Putting texts in order neither adds nor drops any.
pub proof fn law_ordered_texts_contains(s: Seq<Seq<char>>, t: Seq<char>)
    ensures
        ordered_texts(s).contains(t) <==> s.contains(t),
{
    let keys = encoded(s);
    let list = ordered(keys);
    let r = ordered_texts(s);
    law_ordered_contains(keys, encode_utf8(t));
    encode_utf8_decode_utf8(t);
    if s.contains(t) {
        let i = choose|i: int| 0 <= i < s.len() && s[i] == t;
        assert(keys[i] == encode_utf8(t));
        assert(keys.contains(encode_utf8(t)));
        let j = choose|j: int| 0 <= j < list.len() && list[j] == encode_utf8(t);
        assert(r[j] == t);
    }
    if r.contains(t) {
        let j = choose|j: int| 0 <= j < r.len() && r[j] == t;
        law_ordered_contains(keys, list[j]);
        assert(list.contains(list[j]));
        let i = choose|i: int| 0 <= i < keys.len() && keys[i] == list[j];
        encode_utf8_decode_utf8(s[i]);
        assert(s[i] == t);
    }
}

/// The first byte in which two byte strings differ decides which stands before the other, and a
/// beginning stands before the whole.
pub proof fn law_first_difference(
    common: Seq<u8>,
    x: u8,
    a: Seq<u8>,
    y: u8,
    b: Seq<u8>,
)
    ensures
        x != y ==> (bytes_le(common.push(x) + a, common.push(y) + b) <==> x < y),
        bytes_le(common, common.push(x) + a),
        !bytes_le(common.push(x) + a, common),
    decreases common.len(),
{
    let (s, t) = (common.push(x) + a, common.push(y) + b);
    if common.len() > 0 {
        let rest = common.drop_first();
        law_first_difference(rest, x, a, y, b);
        assert(s.drop_first() =~= rest.push(x) + a);
        assert(t.drop_first() =~= rest.push(y) + b);
        assert(s[0] == common[0] && t[0] == common[0]);
    } else {
        assert(s[0] == x && t[0] == y);
    }
}

} // verus!
