//! Text: the string operations that the rest of the library is built from, each with what it
//! computes stated over sequences of characters.

use vstd::prelude::*;
use vstd::utf8::*;

verus! {

/// The character sequences that a sequence of strings holds.
pub open spec fn views(v: Seq<String>) -> Seq<Seq<char>> {
    Seq::new(v.len(), |i: int| v[i]@)
}

/// The bytes that a sequence of byte strings holds.
pub open spec fn byte_views(v: Seq<Vec<u8>>) -> Seq<Seq<u8>> {
    Seq::new(v.len(), |i: int| v[i]@)
}

/// Pushing a string pushes its characters.
pub proof fn lemma_views_push(v: Seq<String>, s: String)
    ensures
        views(v.push(s)) == views(v).push(s@),
{
    assert(views(v.push(s)) =~= views(v).push(s@));
}

/// The characters of `s`, one by one.
pub fn chars_of(s: &str) -> (r: Vec<char>)
    ensures
        r@ == s@,
{
    let mut out: Vec<char> = Vec::new();
    for c in it: s.chars()
        invariant
            it.seq() == s@,
            out@ == s@.take(it.index() as int),
    {
        out.push(c);
    }
    out
}

/// The string made of the characters `from..to` of `cs`.
pub fn string_of(cs: &[char], from: usize, to: usize) -> (r: String)
    requires
        from <= to <= cs@.len(),
    ensures
        r@ == cs@.subrange(from as int, to as int),
{
    let mut out = String::new();
    let mut i: usize = from;
    while i < to
        invariant
            from <= i <= to <= cs@.len(),
            out@ == cs@.subrange(from as int, i as int),
        decreases to - i,
    {
        out.push(cs[i]);
        i = i + 1;
        assert(out@ =~= cs@.subrange(from as int, i as int));
    }
    out
}

/// Whether two byte strings are the same.
pub fn same_bytes(a: &[u8], b: &[u8]) -> (r: bool)
    ensures
        r == (a@ == b@),
{
    if a.len() != b.len() {
        return false;
    }
    let mut i: usize = 0;
    while i < a.len()
        invariant
            i <= a@.len() == b@.len(),
            forall|j: int| 0 <= j < i ==> a@[j] == b@[j],
        decreases a@.len() - i,
    {
        if a[i] != b[i] {
            return false;
        }
        i = i + 1;
    }
    assert(a@ =~= b@);
    true
}

/// Two texts with one encoding are one text.
pub proof fn lemma_encoding_injective(a: Seq<char>, b: Seq<char>)
    requires
        encode_utf8(a) == encode_utf8(b),
    ensures
        a == b,
{
    encode_utf8_decode_utf8(a);
    encode_utf8_decode_utf8(b);
}

/// Whether two texts are the same.
pub fn same_text(a: &str, b: &str) -> (r: bool)
    ensures
        r == (a@ == b@),
{
    let r = same_bytes(a.as_bytes(), b.as_bytes());
    proof {
        if r {
            lemma_encoding_injective(a@, b@);
        }
    }
    r
}

/// The number of bytes that the UTF-8 encoding of `s` takes.
pub fn byte_len(s: &str) -> (r: usize)
    ensures
        r == encode_utf8(s@).len(),
{
    s.as_bytes().len()
}

/// Copies a byte string.
pub fn copy_bytes(b: &[u8]) -> (r: Vec<u8>)
    ensures
        r@ == b@,
{
    vstd::slice::slice_to_vec(b)
}

/// Appends `b` to `out`.
pub fn push_bytes(out: &mut Vec<u8>, b: &[u8])
    ensures
        final(out)@ == old(out)@ + b@,
{
    out.extend_from_slice(b);
    assert(out@ =~= old(out)@ + b@);
}

/// The first position at which `c` stands in `s`, or the length of `s`.
pub open spec fn first_of(s: Seq<char>, c: char) -> int
    decreases s.len(),
{
    if s.len() == 0 || s[0] == c {
        0
    } else {
        1 + first_of(s.drop_first(), c)
    }
}

/// What `first_of` finds is the first one.
pub proof fn lemma_first_of(s: Seq<char>, c: char)
    ensures
        0 <= first_of(s, c) <= s.len(),
        forall|i: int| 0 <= i < first_of(s, c) ==> s[i] != c,
        first_of(s, c) < s.len() ==> s[first_of(s, c)] == c,
    decreases s.len(),
{
    if s.len() > 0 && s[0] != c {
        let rest = s.drop_first();
        lemma_first_of(rest, c);
        assert forall|i: int| 0 <= i < first_of(s, c) implies s[i] != c by {
            if i > 0 {
                assert(s[i] == rest[i - 1]);
            }
        }
    }
}

/// A position before which `c` does not stand and at which it does, or the end, is the first.
pub proof fn lemma_first_of_is(s: Seq<char>, c: char, k: int)
    requires
        0 <= k <= s.len(),
        forall|i: int| 0 <= i < k ==> s[i] != c,
        k < s.len() ==> s[k] == c,
    ensures
        first_of(s, c) == k,
{
    lemma_first_of(s, c);
    let f = first_of(s, c);
    if f < k {
        assert(s[f] != c);
    }
    if k < f {
        assert(s[k] != c);
    }
}

/// The first position at or after `from` at which `c` stands, or the length.
pub fn find_char(cs: &[char], from: usize, c: char) -> (r: usize)
    requires
        from <= cs@.len(),
    ensures
        from <= r <= cs@.len(),
        r - from == first_of(cs@.skip(from as int), c),
{
    let mut i: usize = from;
    while i < cs.len() && cs[i] != c
        invariant
            from <= i <= cs@.len(),
            forall|j: int| from <= j < i ==> cs@[j] != c,
        decreases cs@.len() - i,
    {
        i = i + 1;
    }
    proof {
        let tail = cs@.skip(from as int);
        assert forall|j: int| 0 <= j < i - from implies tail[j] != c by {
            assert(tail[j] == cs@[j + from]);
        }
        lemma_first_of_is(tail, c, i - from);
    }
    i
}

/// The characters with the Unicode property White_Space.
pub open spec fn white_space(c: char) -> bool {
    let u = c as u32;
    ||| 0x9 <= u <= 0xd
    ||| u == 0x20
    ||| u == 0x85
    ||| u == 0xa0
    ||| u == 0x1680
    ||| 0x2000 <= u <= 0x200a
    ||| u == 0x2028
    ||| u == 0x2029
    ||| u == 0x202f
    ||| u == 0x205f
    ||| u == 0x3000
}

/// Whether `c` is white space.
pub fn is_white_space(c: char) -> (r: bool)
    ensures
        r == white_space(c),
{
    let u: u32 = c as u32;
    (0x9 <= u && u <= 0xd) || u == 0x20 || u == 0x85 || u == 0xa0 || u == 0x1680 || (0x2000 <= u
        && u <= 0x200a) || u == 0x2028 || u == 0x2029 || u == 0x202f || u == 0x205f || u == 0x3000
}

/// `s` without its leading white space.
pub open spec fn trim_start(s: Seq<char>) -> Seq<char>
    decreases s.len(),
{
    if s.len() > 0 && white_space(s[0]) {
        trim_start(s.drop_first())
    } else {
        s
    }
}

/// `s` without its trailing white space.
pub open spec fn trim_end(s: Seq<char>) -> Seq<char>
    decreases s.len(),
{
    if s.len() > 0 && white_space(s.last()) {
        trim_end(s.drop_last())
    } else {
        s
    }
}

/// `s` without the white space around it.
pub open spec fn trim(s: Seq<char>) -> Seq<char> {
    trim_end(trim_start(s))
}

/// The part of `cs[from..to]` that is left when the white space around it is taken away.
pub fn trim_range(cs: &[char], from: usize, to: usize) -> (r: (usize, usize))
    requires
        from <= to <= cs@.len(),
    ensures
        from <= r.0 <= r.1 <= to,
        cs@.subrange(r.0 as int, r.1 as int) == trim(cs@.subrange(from as int, to as int)),
{
    let ghost whole = cs@.subrange(from as int, to as int);
    let mut i: usize = from;
    while i < to && is_white_space(cs[i])
        invariant
            from <= i <= to <= cs@.len(),
            trim_start(whole) == trim_start(cs@.subrange(i as int, to as int)),
        decreases to - i,
    {
        assert(cs@.subrange(i as int, to as int).drop_first() =~= cs@.subrange(i + 1, to as int));
        i = i + 1;
    }
    let ghost head = cs@.subrange(i as int, to as int);
    assert(trim_start(whole) == head);
    let mut j: usize = to;
    while i < j && is_white_space(cs[j - 1])
        invariant
            from <= i <= j <= to <= cs@.len(),
            trim_end(head) == trim_end(cs@.subrange(i as int, j as int)),
        decreases j - i,
    {
        assert(cs@.subrange(i as int, j as int).drop_last() =~= cs@.subrange(i as int, j - 1));
        j = j - 1;
    }
    assert(trim_end(head) == cs@.subrange(i as int, j as int));
    (i, j)
}

/// `s` without the white space around it.
pub fn trimmed(s: &str) -> (r: String)
    ensures
        r@ == trim(s@),
{
    let cs = chars_of(s);
    let (i, j) = trim_range(cs.as_slice(), 0, cs.len());
    assert(cs@.subrange(0, cs@.len() as int) =~= s@);
    string_of(cs.as_slice(), i, j)
}

/// `line` without the carriage return at its end, if one is there.
pub open spec fn strip_cr(line: Seq<char>) -> Seq<char> {
    if line.len() > 0 && line.last() == '\r' {
        line.drop_last()
    } else {
        line
    }
}

/// The lines of `s`: a line ends with a line feed, or with a carriage return and a line feed, and
/// the last one may end with nothing.
pub open spec fn lines(s: Seq<char>) -> Seq<Seq<char>>
    decreases s.len(),
{
    let k = first_of(s, '\n');
    if s.len() == 0 {
        Seq::empty()
    } else if k < 0 || k >= s.len() {
        seq![s]
    } else {
        seq![strip_cr(s.take(k))] + lines(s.skip(k + 1))
    }
}

/// The lines of `s`.
pub fn lines_of(s: &str) -> (r: Vec<String>)
    ensures
        views(r@) == lines(s@),
{
    let cs = chars_of(s);
    let mut out: Vec<String> = Vec::new();
    let mut pos: usize = 0;
    proof {
        assert(s@.skip(0) =~= s@);
        assert(views(out@) + lines(s@) =~= lines(s@));
    }
    while pos < cs.len()
        invariant
            cs@ == s@,
            pos <= cs@.len(),
            views(out@) + lines(s@.skip(pos as int)) == lines(s@),
        decreases cs@.len() - pos,
    {
        let ghost rest = s@.skip(pos as int);
        let ghost before = out@;
        let end = find_char(cs.as_slice(), pos, '\n');
        if end >= cs.len() {
            out.push(string_of(cs.as_slice(), pos, end));
            proof {
                let line = out@.last();
                assert(line@ =~= rest);
                lemma_views_push(before, line);
                assert(lines(rest) =~= seq![line@]);
                assert(views(out@) + lines(s@.skip(end as int)) =~= views(before) + lines(rest));
            }
            pos = end;
        } else {
            let stop: usize = if end > pos && cs[end - 1] == '\r' {
                end - 1
            } else {
                end
            };
            out.push(string_of(cs.as_slice(), pos, stop));
            proof {
                let line = out@.last();
                let k = end - pos;
                assert(rest.take(k) =~= s@.subrange(pos as int, end as int));
                assert(line@ =~= strip_cr(rest.take(k)));
                assert(rest.skip(k + 1) =~= s@.skip(end + 1));
                lemma_views_push(before, line);
                assert(views(out@) + lines(s@.skip(end + 1)) =~= views(before) + lines(rest));
            }
            pos = end + 1;
        }
    }
    proof {
        assert(lines(s@.skip(pos as int)) =~= Seq::<Seq<char>>::empty());
        assert(views(out@) =~= lines(s@));
    }
    out
}

/// `needle` stands in `hay` at position `i`.
pub open spec fn occurs_at(hay: Seq<char>, needle: Seq<char>, i: int) -> bool {
    0 <= i && i + needle.len() <= hay.len() && hay.subrange(i, i + needle.len() as int) == needle
}

/// `needle` stands somewhere in `hay`.
pub open spec fn contains(hay: Seq<char>, needle: Seq<char>) -> bool {
    exists|i: int| occurs_at(hay, needle, i)
}

/// Whether `needle` stands in `hay` at position `i`.
pub fn matches_at(hay: &[char], needle: &[char], i: usize) -> (r: bool)
    ensures
        r == occurs_at(hay@, needle@, i as int),
{
    if i > hay.len() || needle.len() > hay.len() - i {
        return false;
    }
    let mut j: usize = 0;
    while j < needle.len()
        invariant
            i + needle@.len() <= hay.len(),
            j <= needle@.len(),
            forall|m: int| 0 <= m < j ==> hay@[i + m] == needle@[m],
        decreases needle@.len() - j,
    {
        if hay[i + j] != needle[j] {
            assert(hay@.subrange(i as int, i + needle@.len() as int)[j as int] != needle@[j as int]);
            return false;
        }
        j = j + 1;
    }
    assert(hay@.subrange(i as int, i + needle@.len() as int) =~= needle@);
    true
}

/// Whether `needle` stands somewhere in `hay`.
pub fn text_contains(hay: &str, needle: &str) -> (r: bool)
    ensures
        r == contains(hay@, needle@),
{
    let h = chars_of(hay);
    let n = chars_of(needle);
    let mut i: usize = 0;
    while i <= h.len()
        invariant
            h@ == hay@,
            n@ == needle@,
            i <= h@.len() + 1,
            forall|m: int| 0 <= m < i ==> !occurs_at(hay@, needle@, m),
        decreases h@.len() + 1 - i,
    {
        if matches_at(h.as_slice(), n.as_slice(), i) {
            return true;
        }
        if i == h.len() {
            return false;
        }
        i = i + 1;
    }
    false
}

/// Whether `s` begins with `prefix`.
pub fn text_starts_with(s: &str, prefix: &str) -> (r: bool)
    ensures
        r == prefix@.is_prefix_of(s@),
{
    let a = chars_of(s);
    let b = chars_of(prefix);
    let r = matches_at(a.as_slice(), b.as_slice(), 0);
    assert(prefix@.len() <= s@.len() ==> s@.subrange(0, prefix@.len() as int) == s@.take(
        prefix@.len() as int,
    ));
    assert(prefix@.is_prefix_of(s@) ==> s@.take(prefix@.len() as int) =~= prefix@);
    r
}

/// What stands behind `prefix` in `s`, where `s` begins with it.
pub open spec fn after_prefix(s: Seq<char>, prefix: Seq<char>) -> Option<Seq<char>> {
    if prefix.is_prefix_of(s) {
        Some(s.skip(prefix.len() as int))
    } else {
        None
    }
}

/// The characters of an optional text.
pub open spec fn view_opt(s: Option<String>) -> Option<Seq<char>> {
    match s {
        Some(t) => Some(t@),
        None => None,
    }
}

/// A text, or what stands for it where there is none.
pub open spec fn text_or(s: Option<String>, default: Seq<char>) -> Seq<char> {
    match s {
        Some(t) => t@,
        None => default,
    }
}

/// A text, or what stands for it where there is none.
pub fn or_text<'a>(s: &'a Option<String>, default: &'a str) -> (r: &'a str)
    ensures
        r@ == text_or(*s, default@),
{
    match s {
        Some(t) => t.as_str(),
        None => default,
    }
}

/// What stands behind `prefix` in `s`, where `s` begins with it.
pub fn strip_prefix(s: &str, prefix: &str) -> (r: Option<String>)
    ensures
        view_opt(r) == after_prefix(s@, prefix@),
{
    if !text_starts_with(s, prefix) {
        return None;
    }
    let a = chars_of(s);
    let n = chars_of(prefix).len();
    assert(s@.skip(n as int) =~= s@.subrange(n as int, s@.len() as int));
    Some(string_of(a.as_slice(), n, a.len()))
}

/// `s` without any copy of `suffix` at its end.
pub open spec fn trim_suffixes(s: Seq<char>, suffix: Seq<char>) -> Seq<char>
    decreases s.len(),
{
    if suffix.len() > 0 && suffix.is_suffix_of(s) {
        trim_suffixes(s.take(s.len() - suffix.len()), suffix)
    } else {
        s
    }
}

/// `s` without any copy of `suffix` at its end.
pub fn without_suffixes(s: &str, suffix: &str) -> (r: String)
    ensures
        r@ == trim_suffixes(s@, suffix@),
{
    let a = chars_of(s);
    let b = chars_of(suffix);
    let mut end: usize = a.len();
    assert(s@.take(s@.len() as int) =~= s@);
    loop
        invariant
            a@ == s@,
            b@ == suffix@,
            end <= a@.len(),
            trim_suffixes(s@, suffix@) == trim_suffixes(s@.take(end as int), suffix@),
        ensures
            end <= a@.len(),
            trim_suffixes(s@, suffix@) == s@.take(end as int),
        decreases end,
    {
        let ghost cur = s@.take(end as int);
        if b.len() == 0 || b.len() > end {
            break ;
        }
        let at: usize = end - b.len();
        let found = matches_at(a.as_slice(), b.as_slice(), at);
        proof {
            assert(s@.subrange(at as int, end as int) =~= cur.skip(at as int));
            assert(b@.is_suffix_of(cur) <==> cur.skip(at as int) =~= b@);
        }
        if !found {
            break ;
        }
        assert(cur.take(at as int) =~= s@.take(at as int));
        end = at;
    }
    assert(s@.take(end as int) =~= s@.subrange(0, end as int));
    string_of(a.as_slice(), 0, end)
}

/// `s` without any copy of `prefix` at its beginning.
pub open spec fn trim_prefixes(s: Seq<char>, prefix: Seq<char>) -> Seq<char>
    decreases s.len(),
{
    if prefix.len() > 0 && prefix.is_prefix_of(s) {
        trim_prefixes(s.skip(prefix.len() as int), prefix)
    } else {
        s
    }
}

/// `s` without any copy of `prefix` at its beginning.
pub fn without_prefixes(s: &str, prefix: &str) -> (r: String)
    ensures
        r@ == trim_prefixes(s@, prefix@),
{
    let a = chars_of(s);
    let b = chars_of(prefix);
    let mut from: usize = 0;
    assert(s@.skip(0) =~= s@);
    while b.len() > 0 && matches_at(a.as_slice(), b.as_slice(), from)
        invariant
            a@ == s@,
            b@ == prefix@,
            from <= a@.len(),
            trim_prefixes(s@, prefix@) == trim_prefixes(s@.skip(from as int), prefix@),
        decreases a@.len() - from,
    {
        let ghost cur = s@.skip(from as int);
        proof {
            assert(cur.take(b@.len() as int) =~= s@.subrange(from as int, from + b@.len() as int));
            assert(b@.is_prefix_of(cur)) by {
                assert(forall|i: int| 0 <= i < b@.len() ==> b@[i] == cur.take(b@.len() as int)[i]);
            }
            assert(cur.skip(b@.len() as int) =~= s@.skip(from + b@.len()));
        }
        assert(from + b@.len() <= a.len());
        from = from + b.len();
    }
    proof {
        let cur = s@.skip(from as int);
        if b@.len() > 0 && b@.is_prefix_of(cur) {
            assert(s@.subrange(from as int, from + b@.len() as int) =~= b@);
            assert(occurs_at(a@, b@, from as int));
        }
        assert(cur =~= s@.subrange(from as int, s@.len() as int));
    }
    string_of(a.as_slice(), from, a.len())
}

/// The first position at which `needle` stands in `s`.
pub open spec fn find_text(s: Seq<char>, needle: Seq<char>) -> Option<int>
    decreases s.len(),
{
    if needle.is_prefix_of(s) {
        Some(0)
    } else if s.len() == 0 {
        None
    } else {
        match find_text(s.drop_first(), needle) {
            Some(i) => Some(i + 1),
            None => None,
        }
    }
}

/// The first position in `hay` at which `needle` stands at or behind `from`.
pub fn find_from(hay: &[char], needle: &[char], from: usize) -> (r: Option<usize>)
    requires
        from <= hay@.len(),
    ensures
        match find_text(hay@.skip(from as int), needle@) {
            Some(k) => r == Some((from + k) as usize) && 0 <= k && from + k + needle@.len()
                <= hay@.len(),
            None => r is None,
        },
{
    let ghost whole = find_text(hay@.skip(from as int), needle@);
    let mut i: usize = from;
    loop
        invariant
            from <= i <= hay@.len(),
            whole == find_text(hay@.skip(from as int), needle@),
            whole == match find_text(hay@.skip(i as int), needle@) {
                Some(k) => Some(k + i - from),
                None => None,
            },
        decreases hay@.len() - i,
    {
        let ghost rest = hay@.skip(i as int);
        let found = matches_at(hay, needle, i);
        proof {
            if needle@.len() <= rest.len() {
                assert(hay@.subrange(i as int, i + needle@.len() as int) =~= rest.take(
                    needle@.len() as int,
                ));
                assert(needle@.is_prefix_of(rest) <==> rest.take(needle@.len() as int) =~= needle@);
            }
        }
        if found {
            return Some(i);
        }
        if i == hay.len() {
            return None;
        }
        assert(rest.drop_first() =~= hay@.skip(i + 1));
        i = i + 1;
    }
}

/// The encoding of two texts, one behind the other.
pub proof fn lemma_encode_concat(a: Seq<char>, b: Seq<char>)
    ensures
        encode_utf8(a + b) == encode_utf8(a) + encode_utf8(b),
    decreases a.len(),
{
    if a.len() == 0 {
        assert(a + b =~= b);
        assert(encode_utf8(a) + encode_utf8(b) =~= encode_utf8(b));
    } else {
        lemma_encode_concat(a.drop_first(), b);
        assert((a + b).drop_first() =~= a.drop_first() + b);
        assert((a + b)[0] == a[0]);
        assert(encode_utf8(a + b) =~= encode_utf8(a) + encode_utf8(b));
    }
}

/// The bytes of ASCII that stand in an encoding stand for characters of ASCII.
pub proof fn lemma_ascii_bytes(s: Seq<char>, b: u8)
    requires
        b < 0x80,
        forall|i: int| 0 <= i < s.len() ==> s[i] as u32 != b as u32,
    ensures
        forall|i: int| 0 <= i < encode_utf8(s).len() ==> encode_utf8(s)[i] != b,
    decreases s.len(),
{
    if s.len() > 0 {
        let u = s[0] as u32;
        let head = encode_scalar(u);
        let tail = encode_utf8(s.drop_first());
        assert forall|i: int| 0 <= i < s.drop_first().len() implies s.drop_first()[i] as u32
            != b as u32 by {
            assert(s.drop_first()[i] == s[i + 1]);
        }
        lemma_ascii_bytes(s.drop_first(), b);
        lemma_scalar_bytes(u, b);
        assert forall|i: int| 0 <= i < encode_utf8(s).len() implies encode_utf8(s)[i] != b by {
            if i >= head.len() {
                assert(encode_utf8(s)[i] == tail[i - head.len()]);
            }
        }
    }
}

/// The same of one character.
proof fn lemma_scalar_bytes(u: u32, b: u8)
    requires
        b < 0x80,
        u != b as u32,
    ensures
        forall|i: int| 0 <= i < encode_scalar(u).len() ==> encode_scalar(u)[i] != b,
{
    assert(u <= 0x7f ==> leading_byte_width_1(u) != b) by (bit_vector)
        requires
            b < 0x80,
            u != b as u32,
    ;
    assert(leading_byte_width_2(u) != b) by (bit_vector)
        requires
            b < 0x80,
    ;
    assert(leading_byte_width_3(u) != b) by (bit_vector)
        requires
            b < 0x80,
    ;
    assert(leading_byte_width_4(u) != b) by (bit_vector)
        requires
            b < 0x80,
    ;
    assert(last_continuation_byte(u) != b) by (bit_vector)
        requires
            b < 0x80,
    ;
    assert(second_last_continuation_byte(u) != b) by (bit_vector)
        requires
            b < 0x80,
    ;
    assert(third_last_continuation_byte(u) != b) by (bit_vector)
        requires
            b < 0x80,
    ;
}

/// Of the characters of ASCII, tab, line feed, vertical tab, form feed, carriage return and blank
/// are white space, and no others.
pub proof fn law_ascii_white_space(c: char)
    requires
        (c as u32) < 0x80,
    ensures
        white_space(c) <==> c == '\t' || c == '\n' || c as u32 == 0xb || c as u32 == 0xc || c == '\r'
            || c == ' ',
{
}

/// Nothing but white space is in a text.
pub open spec fn blank(s: Seq<char>) -> bool {
    forall|i: int| 0 <= i < s.len() ==> white_space(#[trigger] s[i])
}

/// No white space stands at either end of a text.
pub open spec fn bare(s: Seq<char>) -> bool {
    s.len() > 0 ==> !white_space(s[0]) && !white_space(s.last())
}

/// Trimming its end takes white space from a text, and leaves none there.
proof fn lemma_trim_end(s: Seq<char>)
    ensures
        trim_end(s).is_prefix_of(s),
        blank(s.skip(trim_end(s).len() as int)),
        trim_end(s).len() > 0 ==> !white_space(trim_end(s).last()),
    decreases s.len(),
{
    if s.len() > 0 && white_space(s.last()) {
        let less = s.drop_last();
        lemma_trim_end(less);
        let n = trim_end(s).len() as int;
        let cut = s.skip(n);
        assert forall|i: int| 0 <= i < cut.len() implies white_space(#[trigger] cut[i]) by {
            if i + n < less.len() {
                assert(cut[i] == less.skip(n)[i]);
            }
        }
    }
}

/// The same of the beginning of a text.
proof fn lemma_trim_start(s: Seq<char>)
    ensures
        trim_start(s).is_suffix_of(s),
        blank(s.take(s.len() - trim_start(s).len())),
        trim_start(s).len() > 0 ==> !white_space(trim_start(s)[0]),
    decreases s.len(),
{
    if s.len() > 0 && white_space(s[0]) {
        let less = s.drop_first();
        lemma_trim_start(less);
        let t = trim_start(s);
        let n = s.len() - t.len();
        let cut = s.take(n);
        assert(less.skip(less.len() - t.len()) =~= s.skip(n));
        assert forall|i: int| 0 <= i < cut.len() implies white_space(#[trigger] cut[i]) by {
            if i > 0 {
                assert(cut[i] == less.take(less.len() - t.len())[i - 1]);
            }
        }
    }
}

/// A text is what trimming leaves of it, with white space on both sides; and what is left has none
/// at its ends.
pub proof fn law_trim(s: Seq<char>)
    ensures
        exists|a: Seq<char>, b: Seq<char>| #[trigger] (a + trim(s) + b) == s && blank(a) && blank(b),
        bare(trim(s)),
{
    let t = trim_start(s);
    lemma_trim_start(s);
    lemma_trim_end(t);
    let a = s.take(s.len() - t.len());
    let r = trim(s);
    let b = t.skip(r.len() as int);
    assert(t =~= r + b);
    assert(s =~= a + t);
    assert(a + r + b =~= s);
    if r.len() > 0 {
        assert(r[0] == t[0]);
    }
}

/// A text with no white space at its ends is what trimming leaves, whatever white space is put
/// around it.
pub proof fn law_trim_around(a: Seq<char>, s: Seq<char>, b: Seq<char>)
    requires
        blank(a),
        blank(b),
        bare(s),
    ensures
        trim(a + s + b) == s,
{
    lemma_trim_start_blank(a, s + b);
    assert(a + s + b =~= a + (s + b));
    if s.len() == 0 {
        assert(s + b =~= b);
        lemma_trim_start_blank(b, Seq::empty());
        assert(b + Seq::<char>::empty() =~= b);
        assert(trim_start(Seq::<char>::empty()) =~= s);
    } else {
        assert((s + b)[0] == s[0]);
        lemma_trim_end_blank(s, b);
    }
}

/// White space at the beginning is trimmed away.
proof fn lemma_trim_start_blank(a: Seq<char>, s: Seq<char>)
    requires
        blank(a),
    ensures
        trim_start(a + s) == trim_start(s),
    decreases a.len(),
{
    if a.len() == 0 {
        assert(a + s =~= s);
    } else {
        assert(white_space(a[0]));
        assert((a + s).drop_first() =~= a.drop_first() + s);
        assert forall|i: int| 0 <= i < a.drop_first().len() implies white_space(
            #[trigger] a.drop_first()[i],
        ) by {
            assert(a.drop_first()[i] == a[i + 1]);
        }
        lemma_trim_start_blank(a.drop_first(), s);
    }
}

/// White space at the end is trimmed away.
pub proof fn lemma_trim_end_blank(s: Seq<char>, b: Seq<char>)
    requires
        blank(b),
        s.len() > 0 ==> !white_space(s.last()),
    ensures
        trim_end(s + b) == s,
    decreases b.len(),
{
    if b.len() == 0 {
        assert(s + b =~= s);
    } else {
        assert(white_space(b[b.len() - 1]));
        assert((s + b).drop_last() =~= s + b.drop_last());
        assert forall|i: int| 0 <= i < b.drop_last().len() implies white_space(
            #[trigger] b.drop_last()[i],
        ) by {
            assert(b.drop_last()[i] == b[i]);
        }
        lemma_trim_end_blank(s, b.drop_last());
    }
}

/// No line feed is in a text.
pub open spec fn unbroken(s: Seq<char>) -> bool {
    forall|i: int| 0 <= i < s.len() ==> s[i] != '\n'
}

/// A line feed ends a line, and a carriage return before it is part of that end; what follows has
/// its own lines. Text without a line feed is one line, and no text is none.
pub proof fn law_lines(s: Seq<char>, rest: Seq<char>)
    requires
        unbroken(s),
    ensures
        lines(s.push('\n') + rest) == seq![
            if s.len() > 0 && s.last() == '\r' {
                s.drop_last()
            } else {
                s
            },
        ] + lines(rest),
        s.len() > 0 ==> lines(s) == seq![s],
        lines(Seq::<char>::empty()) == Seq::<Seq<char>>::empty(),
{
    let all = s.push('\n') + rest;
    let n = s.len() as int;
    assert forall|i: int| 0 <= i < n implies all[i] != '\n' by {
        assert(all[i] == s[i]);
    }
    assert(all[n] == '\n');
    lemma_first_of_is(all, '\n', n);
    assert(all.take(n) =~= s);
    assert(all.skip(n + 1) =~= rest);
    lemma_first_of_is(s, '\n', n);
}

/// A text stands in another exactly when the other is made of it and of something before and
/// behind it.
pub proof fn law_contains(s: Seq<char>, needle: Seq<char>)
    ensures
        contains(s, needle) <==> exists|a: Seq<char>, b: Seq<char>| #[trigger] (a + needle + b) == s,
{
    if contains(s, needle) {
        let i = choose|i: int| occurs_at(s, needle, i);
        let a = s.take(i);
        let b = s.skip(i + needle.len());
        assert(a + needle + b =~= s);
    }
    if exists|a: Seq<char>, b: Seq<char>| #[trigger] (a + needle + b) == s {
        let (a, b) = choose|a: Seq<char>, b: Seq<char>| #[trigger] (a + needle + b) == s;
        let i = a.len() as int;
        assert(s.subrange(i, i + needle.len() as int) =~= needle);
        assert(occurs_at(s, needle, i));
    }
}

/// What is found of a text is the first place at which it stands, and it is found if there is one.
pub proof fn law_find_text(s: Seq<char>, needle: Seq<char>)
    ensures
        match find_text(s, needle) {
            Some(i) => occurs_at(s, needle, i) && forall|j: int|
                j < i ==> !#[trigger] occurs_at(s, needle, j),
            None => forall|j: int| !#[trigger] occurs_at(s, needle, j),
        },
    decreases s.len(),
{
    if needle.len() <= s.len() {
        assert(needle.is_prefix_of(s) <==> s.subrange(0, needle.len() as int) =~= needle);
    }
    if !needle.is_prefix_of(s) && s.len() > 0 {
        let rest = s.drop_first();
        law_find_text(rest, needle);
        assert forall|j: int| j > 0 implies (#[trigger] occurs_at(s, needle, j) <==> occurs_at(
            rest,
            needle,
            j - 1,
        )) by {
            if j + needle.len() <= s.len() {
                assert(s.subrange(j, j + needle.len() as int) =~= rest.subrange(
                    j - 1,
                    j - 1 + needle.len() as int,
                ));
            }
        }
        assert(!occurs_at(s, needle, 0));
        match find_text(s, needle) {
            Some(i) => {
                assert(occurs_at(rest, needle, i - 1));
                assert(occurs_at(s, needle, i));
                assert forall|j: int| j < i implies !#[trigger] occurs_at(s, needle, j) by {
                    if j > 0 {
                        assert(!occurs_at(rest, needle, j - 1));
                    }
                }
            },
            None => {
                assert forall|j: int| !#[trigger] occurs_at(s, needle, j) by {
                    if j > 0 {
                        assert(!occurs_at(rest, needle, j - 1));
                    }
                }
            },
        }
    }
}

/// Copies of a suffix are taken off one by one, until the text does not end with it.
pub proof fn law_trim_suffixes(s: Seq<char>, suffix: Seq<char>)
    requires
        suffix.len() > 0,
    ensures
        trim_suffixes(s + suffix, suffix) == trim_suffixes(s, suffix),
        !suffix.is_suffix_of(s) ==> trim_suffixes(s, suffix) == s,
        !suffix.is_suffix_of(trim_suffixes(s, suffix)),
    decreases s.len(),
{
    let all = s + suffix;
    assert(all.skip(s.len() as int) =~= suffix);
    assert(all.take(s.len() as int) =~= s);
    if suffix.is_suffix_of(s) {
        law_trim_suffixes(s.take(s.len() - suffix.len()), suffix);
    }
}

/// Copies of a prefix are taken off one by one, until the text does not begin with it.
pub proof fn law_trim_prefixes(s: Seq<char>, prefix: Seq<char>)
    requires
        prefix.len() > 0,
    ensures
        trim_prefixes(prefix + s, prefix) == trim_prefixes(s, prefix),
        !prefix.is_prefix_of(s) ==> trim_prefixes(s, prefix) == s,
        !prefix.is_prefix_of(trim_prefixes(s, prefix)),
    decreases s.len(),
{
    let all = prefix + s;
    assert(all.skip(prefix.len() as int) =~= s);
    if prefix.is_prefix_of(s) {
        law_trim_prefixes(s.skip(prefix.len() as int), prefix);
    }
}

/// A text has a rest behind a prefix exactly when it is made of the two.
pub proof fn law_after_prefix(s: Seq<char>, prefix: Seq<char>, rest: Seq<char>)
    ensures
        after_prefix(s, prefix) == Some(rest) <==> s == prefix + rest,
{
    if s == prefix + rest {
        assert(s.skip(prefix.len() as int) =~= rest);
    }
    if after_prefix(s, prefix) == Some(rest) {
        assert(s =~= prefix + rest);
    }
}

/// A place at which a text stands, and before which it does not, is the one that is found.
pub proof fn lemma_find_text_is(s: Seq<char>, needle: Seq<char>, n: int)
    requires
        occurs_at(s, needle, n),
        forall|j: int| 0 <= j < n ==> !#[trigger] occurs_at(s, needle, j),
    ensures
        find_text(s, needle) == Some(n),
{
    law_find_text(s, needle);
    let found = find_text(s, needle);
    if found is None {
        assert(!occurs_at(s, needle, n));
    } else {
        let i = found->0;
        assert(occurs_at(s, needle, i));
        if n < i {
            assert(!occurs_at(s, needle, n));
        }
        if i < n {
            assert(!occurs_at(s, needle, i));
        }
    }
}

/// A text that does not stand in another is not found there.
pub proof fn lemma_find_text_none(s: Seq<char>, needle: Seq<char>)
    requires
        !contains(s, needle),
    ensures
        find_text(s, needle) is None,
{
    law_find_text(s, needle);
    if find_text(s, needle) is Some {
        assert(occurs_at(s, needle, find_text(s, needle)->0));
    }
}

/// Beyond ASCII, white space is the characters that Unicode lists as such.
pub proof fn law_wide_white_space(c: char)
    requires
        (c as u32) >= 0x80,
    ensures
        white_space(c) <==> c == '\u{85}' || c == '\u{a0}' || c == '\u{1680}' || ('\u{2000}' <= c && c
            <= '\u{200a}') || c == '\u{2028}' || c == '\u{2029}' || c == '\u{202f}' || c == '\u{205f}'
            || c == '\u{3000}',
{
}

} // verus!
