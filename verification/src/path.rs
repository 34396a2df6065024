//! Paths, as the byte strings that Unix has for them.

use crate::text::{copy_bytes, push_bytes};
use vstd::prelude::*;

verus! {

/// `/`
pub const SEPARATOR: u8 = 0x2f;

/// `.`
pub const DOT: u8 = 0x2e;

/// A path that does not begin at the root.
pub open spec fn relative(p: Seq<u8>) -> bool {
    p.len() == 0 || p[0] != SEPARATOR
}

/// `rest` as seen from `base`: a `rest` that begins at the root stands alone.
pub open spec fn join(base: Seq<u8>, rest: Seq<u8>) -> Seq<u8> {
    if !relative(rest) {
        rest
    } else if base.len() > 0 && base.last() != SEPARATOR {
        base.push(SEPARATOR) + rest
    } else {
        base + rest
    }
}

/// The last position at which `b` stands in `s`, or -1.
pub open spec fn last_of(s: Seq<u8>, b: u8) -> int
    decreases s.len(),
{
    if s.len() == 0 {
        -1
    } else if s.last() == b {
        s.len() - 1
    } else {
        last_of(s.drop_last(), b)
    }
}

/// What stands behind the last separator.
pub open spec fn base_name(p: Seq<u8>) -> Seq<u8> {
    p.skip(last_of(p, SEPARATOR) + 1)
}

/// Where a file name is split into stem and extension, or -1: at its last dot, unless it begins
/// with that dot or is `..`.
pub open spec fn split_dot(name: Seq<u8>) -> int {
    if name == seq![DOT, DOT] || last_of(name, DOT) <= 0 {
        -1
    } else {
        last_of(name, DOT)
    }
}

/// A file name without its extension.
pub open spec fn stem(name: Seq<u8>) -> Seq<u8> {
    if split_dot(name) < 0 {
        name
    } else {
        name.take(split_dot(name))
    }
}

/// The extension of a file name.
pub open spec fn extension(name: Seq<u8>) -> Option<Seq<u8>> {
    if split_dot(name) < 0 {
        None
    } else {
        Some(name.skip(split_dot(name) + 1))
    }
}

/// What `last_of` finds is the last one.
pub proof fn lemma_last_of(s: Seq<u8>, b: u8)
    ensures
        -1 <= last_of(s, b) < s.len(),
        last_of(s, b) >= 0 ==> s[last_of(s, b)] == b,
        forall|i: int| last_of(s, b) < i < s.len() ==> s[i] != b,
    decreases s.len(),
{
    if s.len() > 0 && s.last() != b {
        lemma_last_of(s.drop_last(), b);
        assert forall|i: int| last_of(s, b) < i < s.len() implies s[i] != b by {
            if i < s.len() - 1 {
                assert(s[i] == s.drop_last()[i]);
            }
        }
    }
}

/// Whether a path does not begin at the root.
pub fn is_relative(p: &[u8]) -> (r: bool)
    ensures
        r == relative(p@),
{
    p.len() == 0 || p[0] != SEPARATOR
}

/// `rest` as seen from `base`.
pub fn join_path(base: &[u8], rest: &[u8]) -> (r: Vec<u8>)
    ensures
        r@ == join(base@, rest@),
{
    if !is_relative(rest) {
        return copy_bytes(rest);
    }
    let mut out = copy_bytes(base);
    if base.len() > 0 && base[base.len() - 1] != SEPARATOR {
        out.push(SEPARATOR);
    }
    push_bytes(&mut out, rest);
    out
}

/// One more than the last position at which `b` stands in `s`, or 0.
fn after_last(s: &[u8], b: u8) -> (r: usize)
    ensures
        r == last_of(s@, b) + 1,
        r <= s@.len(),
{
    let mut n: usize = s.len();
    assert(s@.take(s@.len() as int) =~= s@);
    while n > 0 && s[n - 1] != b
        invariant
            n <= s@.len(),
            last_of(s@, b) == last_of(s@.take(n as int), b),
        decreases n,
    {
        assert(s@.take(n as int).drop_last() =~= s@.take(n - 1));
        n = n - 1;
    }
    assert(n > 0 ==> s@.take(n as int).last() == s@[n - 1]);
    n
}

/// What stands behind the last separator.
pub fn base_name_of(p: &[u8]) -> (r: Vec<u8>)
    ensures
        r@ == base_name(p@),
{
    let n = after_last(p, SEPARATOR);
    assert(p@.subrange(n as int, p@.len() as int) =~= p@.skip(n as int));
    copy_bytes(vstd::slice::slice_subrange(p, n, p.len()))
}

/// Where a file name is split into stem and extension; the length where it is not.
fn split_at_dot(name: &[u8]) -> (r: usize)
    ensures
        r <= name@.len(),
        split_dot(name@) < 0 ==> r == name@.len(),
        split_dot(name@) >= 0 ==> r == split_dot(name@) && r < name@.len(),
{
    proof {
        lemma_last_of(name@, DOT);
    }
    let n = after_last(name, DOT);
    let dots = name.len() == 2 && name[0] == DOT && name[1] == DOT;
    proof {
        assert(dots <==> name@ =~= seq![DOT, DOT]);
    }
    if dots || n <= 1 {
        name.len()
    } else {
        n - 1
    }
}

/// A file name without its extension.
pub fn stem_of(name: &[u8]) -> (r: Vec<u8>)
    ensures
        r@ == stem(name@),
{
    let n = split_at_dot(name);
    assert(name@.subrange(0, n as int) =~= name@.take(n as int));
    assert(name@.take(name@.len() as int) =~= name@);
    copy_bytes(vstd::slice::slice_subrange(name, 0, n))
}

/// Whether the extension of a file name is `ext`.
pub fn has_extension(name: &[u8], ext: &[u8]) -> (r: bool)
    ensures
        r == (extension(name@) == Some(ext@)),
{
    let n = split_at_dot(name);
    if n >= name.len() {
        return false;
    }
    assert(name@.subrange(n + 1, name@.len() as int) =~= name@.skip(n + 1));
    crate::text::same_bytes(vstd::slice::slice_subrange(name, n + 1, name.len()), ext)
}

/// The name of a file that was put into a directory is found again, as long as it has no
/// separator in it.
pub proof fn law_base_name_of_join(dir: Seq<u8>, name: Seq<u8>)
    requires
        forall|i: int| 0 <= i < name.len() ==> name[i] != SEPARATOR,
        dir.len() > 0,
    ensures
        base_name(join(dir, name)) == name,
        dir.is_prefix_of(join(dir, name)),
{
    let p = join(dir, name);
    let k = p.len() - name.len();
    lemma_last_of(p, SEPARATOR);
    let l = last_of(p, SEPARATOR);
    assert(p[k - 1] == SEPARATOR);
    assert forall|i: int| k <= i < p.len() implies p[i] != SEPARATOR by {
        assert(p[i] == name[i - k]);
    }
    assert(l == k - 1);
    assert(p.skip(k) =~= name);
}

/// Joining puts one separator between a directory and what is seen from it; what begins at the
/// root is seen from anywhere.
pub proof fn law_join(dir: Seq<u8>, rest: Seq<u8>)
    requires
        dir.len() > 0,
        dir.last() != SEPARATOR,
    ensures
        rest.len() > 0 && rest[0] == SEPARATOR ==> join(dir, rest) == rest,
        rest.len() == 0 || rest[0] != SEPARATOR ==> join(dir, rest) == dir.push(SEPARATOR) + rest,
        rest.len() == 0 || rest[0] != SEPARATOR ==> join(dir.push(SEPARATOR), rest) == join(
            dir,
            rest,
        ),
        rest.len() == 0 || rest[0] != SEPARATOR ==> join(Seq::empty(), rest) == rest,
{
    assert(Seq::<u8>::empty() + rest =~= rest);
    assert(SEPARATOR == '/' as u8);
}

/// No separator is in the name of a file, and only directories stand before it.
pub proof fn law_base_name(p: Seq<u8>)
    ensures
        exists|before: Seq<u8>| #[trigger] (before + base_name(p)) == p && (before.len() == 0
            || before.last() == SEPARATOR),
        forall|i: int| 0 <= i < base_name(p).len() ==> base_name(p)[i] != SEPARATOR,
{
    lemma_last_of(p, SEPARATOR);
    let n = last_of(p, SEPARATOR) + 1;
    let before = p.take(n);
    assert(before + base_name(p) =~= p);
    assert forall|i: int| 0 <= i < base_name(p).len() implies base_name(p)[i] != SEPARATOR by {
        assert(base_name(p)[i] == p[n + i]);
    }
}

/// A name with something before its last dot is split there; `..` and a name without such a dot
/// are not.
pub proof fn law_stem_extension(before: Seq<u8>, behind: Seq<u8>)
    requires
        before.len() > 0,
        before.push(DOT) + behind != seq![DOT, DOT],
        forall|i: int| 0 <= i < behind.len() ==> behind[i] != DOT,
    ensures
        stem(before.push(DOT) + behind) == before,
        extension(before.push(DOT) + behind) == Some(behind),
        stem(behind) == behind,
        extension(behind) is None,
        stem(seq![DOT] + behind) == seq![DOT] + behind,
        extension(seq![DOT] + behind) is None,
        stem(seq![DOT, DOT]) == seq![DOT, DOT],
        extension(seq![DOT, DOT]) is None,
        DOT == '.' as u8,
{
    let name = before.push(DOT) + behind;
    let n = before.len() as int;
    lemma_last_of(name, DOT);
    assert(name[n] == DOT);
    assert forall|i: int| n < i < name.len() implies name[i] != DOT by {
        assert(name[i] == behind[i - n - 1]);
    }
    assert(last_of(name, DOT) == n);
    assert(name.take(n) =~= before);
    assert(name.skip(n + 1) =~= behind);
    lemma_last_of(behind, DOT);
    let hidden = seq![DOT] + behind;
    lemma_last_of(hidden, DOT);
    assert forall|i: int| 0 < i < hidden.len() implies hidden[i] != DOT by {
        assert(hidden[i] == behind[i - 1]);
    }
}

} // verus!
