//! Recorded sessions: a line of JSON for the header, then one for each event.

use crate::order::encoded;
use crate::outside::{clock_seconds, lossy, lossy_text, text_of_utf8};
use crate::text::{
    blank, chars_of, copy_bytes, is_white_space, lemma_ascii_bytes, lemma_trim_end_blank, or_text,
    push_bytes, same_text, string_of, text_or, trim_end, white_space,
};
use vstd::prelude::*;
use vstd::utf8::*;

verus! {

/// `\n`
pub const LINE_FEED: u8 = 0x0a;

/// What the first line of a recording says.
#[derive(Debug, Clone)]
pub struct Header {
    pub version: u8,
    pub width: u16,
    pub height: u16,
    /// Seconds since the epoch.
    pub timestamp: i64,
    pub command: String,
    /// Names and values from the environment of the session.
    pub env: Vec<(String, String)>,
}

/// What one further line says: when, what kind, and the text. The time is in seconds since the
/// start, as the bits of a 64-bit float.
#[derive(Debug, Clone)]
pub struct Event(pub u64, pub String, pub String);

/// A recording as far as it could be read.
#[derive(Debug, Clone)]
pub struct Cast {
    pub header: Header,
    /// The events that stand before the first line that could not be read.
    pub events: Vec<Event>,
    /// Whether every line could be read.
    pub intact: bool,
}

/// Why a line is refused.
#[derive(Debug, Clone, Copy, PartialEq, Eq, Structural)]
pub enum CastError {
    /// The line is not valid UTF-8.
    InvalidUtf8,
    /// A line of the recording could not be read.
    Unreadable,
}

/// The first position of a line feed in `s`, or the length of `s`.
pub open spec fn line_len(s: Seq<u8>) -> int
    decreases s.len(),
{
    if s.len() == 0 || s[0] == LINE_FEED {
        0
    } else {
        1 + line_len(s.drop_first())
    }
}

/// The lines of `s`, without the line feeds that end them.
pub open spec fn byte_lines(s: Seq<u8>) -> Seq<Seq<u8>>
    decreases s.len(),
{
    if s.len() == 0 {
        Seq::empty()
    } else {
        seq![line(s)] + byte_lines(after_line(s))
    }
}

/// The first line of `s`.
pub open spec fn line(s: Seq<u8>) -> Seq<u8> {
    s.take(line_len(s))
}

/// What is left of `s` behind its first line.
pub open spec fn after_line(s: Seq<u8>) -> Seq<u8> {
    if s.len() == 0 {
        s
    } else if 0 <= line_len(s) < s.len() {
        s.skip(line_len(s) + 1)
    } else {
        Seq::empty()
    }
}

/// `line_len` finds the first line feed.
pub proof fn lemma_line_len(s: Seq<u8>)
    ensures
        0 <= line_len(s) <= s.len(),
        forall|i: int| 0 <= i < line_len(s) ==> s[i] != LINE_FEED,
        line_len(s) < s.len() ==> s[line_len(s)] == LINE_FEED,
    decreases s.len(),
{
    if s.len() > 0 && s[0] != LINE_FEED {
        lemma_line_len(s.drop_first());
        assert forall|i: int| 0 <= i < line_len(s) implies s[i] != LINE_FEED by {
            if i > 0 {
                assert(s[i] == s.drop_first()[i - 1]);
            }
        }
    }
}

/// A position before which no line feed stands, and at which one does, or the end, is the first.
pub proof fn lemma_line_len_is(s: Seq<u8>, k: int)
    requires
        0 <= k <= s.len(),
        forall|i: int| 0 <= i < k ==> s[i] != LINE_FEED,
        k < s.len() ==> s[k] == LINE_FEED,
    ensures
        line_len(s) == k,
{
    lemma_line_len(s);
    if line_len(s) < k {
        assert(s[line_len(s)] != LINE_FEED);
    }
    if k < line_len(s) {
        assert(s[k] != LINE_FEED);
    }
}

/// The text of a line: the white space at its end does not count.
pub open spec fn line_text(line: Seq<u8>) -> Result<Seq<char>, CastError> {
    if valid_utf8(line) {
        Ok(trim_end(decode_utf8(line)))
    } else {
        Err(CastError::InvalidUtf8)
    }
}

/// Reads a recording line by line.
pub struct CastReader<'a> {
    data: &'a [u8],
    pos: usize,
}

/// The characters of a text that may have been refused.
pub open spec fn view_res(r: Result<String, CastError>) -> Result<Seq<char>, CastError> {
    match r {
        Ok(t) => Ok(t@),
        Err(e) => Err(e),
    }
}

impl<'a> CastReader<'a> {
    pub closed spec fn wf(&self) -> bool {
        self.pos <= self.data@.len()
    }

    /// What has not been read yet.
    pub closed spec fn rest(&self) -> Seq<u8> {
        self.data@.skip(self.pos as int)
    }

    /// Reads from the beginning of `data`.
    pub fn new(data: &'a [u8]) -> (r: Self)
        ensures
            r.wf(),
            r.rest() == data@,
    {
        assert(data@.skip(0) =~= data@);
        CastReader { data, pos: 0 }
    }

    /// The text of the next line, and whether there was one: at the end it is empty.
    fn read_line(&mut self) -> (r: (Result<String, CastError>, bool))
        requires
            old(self).wf(),
        ensures
            final(self).wf(),
            final(self).rest() == after_line(old(self).rest()),
            view_res(r.0) == line_text(line(old(self).rest())),
            r.1 == (old(self).rest().len() > 0),
    {
        let ghost s = self.rest();
        let start: usize = self.pos;
        let mut end: usize = start;
        while end < self.data.len() && self.data[end] != LINE_FEED
            invariant
                start == self.pos,
                start <= end <= self.data@.len(),
                forall|i: int| start <= i < end ==> self.data@[i] != LINE_FEED,
            decreases self.data@.len() - end,
        {
            end = end + 1;
        }
        let bytes = copy_bytes(vstd::slice::slice_subrange(self.data, start, end));
        proof {
            let k = end - start;
            assert forall|i: int| 0 <= i < k implies s[i] != LINE_FEED by {
                assert(s[i] == self.data@[start + i]);
            }
            lemma_line_len_is(s, k);
            assert(bytes@ =~= line(s));
        }
        let more = start < self.data.len();
        let after: usize = if end < self.data.len() {
            end + 1
        } else {
            end
        };
        self.pos = after;
        assert(self.rest() =~= after_line(s));
        match text_of_utf8(bytes) {
            None => (Err(CastError::InvalidUtf8), more),
            Some(text) => {
                let cs = chars_of(text.as_str());
                let mut n: usize = cs.len();
                assert(cs@.take(cs@.len() as int) =~= cs@);
                while n > 0 && is_white_space(cs[n - 1])
                    invariant
                        n <= cs@.len(),
                        trim_end(cs@) == trim_end(cs@.take(n as int)),
                    decreases n,
                {
                    assert(cs@.take(n as int).drop_last() =~= cs@.take(n - 1));
                    n = n - 1;
                }
                assert(n > 0 ==> cs@.take(n as int).last() == cs@[n - 1]);
                assert(cs@.subrange(0, n as int) =~= cs@.take(n as int));
                (Ok(string_of(cs.as_slice(), 0, n)), more)
            },
        }
    }
}

/// Reads the line that holds the header. An empty recording has an empty one.
pub fn read_header(r: &mut CastReader<'_>) -> (res: Result<String, CastError>)
    requires
        old(r).wf(),
    ensures
        final(r).wf(),
        final(r).rest() == after_line(old(r).rest()),
        view_res(res) == line_text(line(old(r).rest())),
{
    let (text, _) = r.read_line();
    text
}

/// Reads the line that holds the next event, if there is one.
pub fn read_event(r: &mut CastReader<'_>) -> (res: Result<Option<String>, CastError>)
    requires
        old(r).wf(),
    ensures
        final(r).wf(),
        final(r).rest() == after_line(old(r).rest()),
        old(r).rest().len() == 0 ==> res == Ok::<Option<String>, CastError>(None),
        old(r).rest().len() > 0 ==> match line_text(line(old(r).rest())) {
            Ok(t) => res is Ok && res->Ok_0 is Some && res->Ok_0->0@ == t,
            Err(e) => res == Err::<Option<String>, CastError>(e),
        },
{
    let (text, more) = r.read_line();
    if !more {
        return Ok(None);
    }
    match text {
        Ok(t) => Ok(Some(t)),
        Err(e) => Err(e),
    }
}

/// Collects the lines of a recording for the place that it is written to.
pub struct CastWriter {
    inner: Vec<u8>,
}

impl CastWriter {
    /// What was written and not yet handed over.
    pub closed spec fn pending(&self) -> Seq<u8> {
        self.inner@
    }

    /// Begins a recording with its header.
    pub fn new(header_json: &[u8]) -> (r: Self)
        ensures
            r.pending() == header_json@.push(LINE_FEED),
    {
        let mut inner = copy_bytes(header_json);
        inner.push(LINE_FEED);
        CastWriter { inner }
    }

    /// Writes one event.
    pub fn write_output(&mut self, event_json: &[u8])
        ensures
            final(self).pending() == old(self).pending() + event_json@.push(LINE_FEED),
    {
        push_bytes(&mut self.inner, event_json);
        self.inner.push(LINE_FEED);
        assert(self.inner@ =~= old(self).inner@ + event_json@.push(LINE_FEED));
    }

    /// Hands over what was written since the last time.
    pub fn flush(&mut self) -> (r: Vec<u8>)
        ensures
            r@ == old(self).pending(),
            final(self).pending() == Seq::<u8>::empty(),
    {
        let out = copy_bytes(self.inner.as_slice());
        self.inner = Vec::new();
        out
    }
}

/// `lines`, each with a line feed behind it.
pub open spec fn terminated(lines: Seq<Seq<u8>>) -> Seq<u8>
    decreases lines.len(),
{
    if lines.len() == 0 {
        Seq::empty()
    } else {
        terminated(lines.drop_last()) + lines.last().push(LINE_FEED)
    }
}

/// No line feed stands in `line`.
pub open spec fn one_line(line: Seq<u8>) -> bool {
    forall|i: int| 0 <= i < line.len() ==> line[i] != LINE_FEED
}

/// A line that ends stands apart from what follows it.
proof fn lemma_first_line(first: Seq<u8>, rest: Seq<u8>)
    requires
        one_line(first),
    ensures
        line(first.push(LINE_FEED) + rest) == first,
        after_line(first.push(LINE_FEED) + rest) == rest,
{
    let s = first.push(LINE_FEED) + rest;
    assert forall|i: int| 0 <= i < first.len() implies s[i] != LINE_FEED by {
        assert(s[i] == first[i]);
    }
    lemma_line_len_is(s, first.len() as int);
    assert(s.take(first.len() as int) =~= first);
    assert(s.skip(first.len() as int + 1) =~= rest);
}

/// `terminated`, taken from the front.
proof fn lemma_terminated_front(lines: Seq<Seq<u8>>)
    requires
        lines.len() > 0,
    ensures
        terminated(lines) == lines[0].push(LINE_FEED) + terminated(lines.drop_first()),
    decreases lines.len(),
{
    if lines.len() == 1 {
        assert(lines.drop_last() =~= Seq::<Seq<u8>>::empty());
        assert(lines.drop_first() =~= Seq::<Seq<u8>>::empty());
        assert(terminated(lines) =~= lines[0].push(LINE_FEED) + terminated(lines.drop_first()));
    } else {
        lemma_terminated_front(lines.drop_last());
        assert(lines.drop_last().drop_first() =~= lines.drop_first().drop_last());
        assert(lines.drop_first().last() == lines.last());
        assert(terminated(lines) =~= lines[0].push(LINE_FEED) + terminated(lines.drop_first()));
    }
}

/// The lines that were written to a recording are the lines that are read from it.
pub proof fn law_lines_read_back(lines: Seq<Seq<u8>>)
    requires
        forall|i: int| 0 <= i < lines.len() ==> one_line(#[trigger] lines[i]),
    ensures
        byte_lines(terminated(lines)) == lines,
    decreases lines.len(),
{
    if lines.len() > 0 {
        let rest = lines.drop_first();
        lemma_terminated_front(lines);
        lemma_first_line(lines[0], terminated(rest));
        assert forall|i: int| 0 <= i < rest.len() implies one_line(#[trigger] rest[i]) by {
            assert(rest[i] == lines[i + 1]);
        }
        law_lines_read_back(rest);
        assert(byte_lines(terminated(lines)) =~= lines);
    } else {
        assert(byte_lines(terminated(lines)) =~= lines);
    }
}

/// The kind of the events that hold what a session printed.
pub open spec fn is_output(ev: Event) -> bool {
    ev.1@ == "o"@
}

/// Whether an event holds what the session printed.
pub fn shows_output(ev: &Event) -> (r: bool)
    ensures
        r == is_output(*ev),
{
    same_text(ev.1.as_str(), "o")
}

/// The event that holds what a session printed at `time`. What is not valid UTF-8 is replaced.
pub fn output_event(time: u64, data: &[u8]) -> (r: Event)
    ensures
        r.0 == time,
        is_output(r),
        r.2@ == lossy(data@),
{
    Event(time, "o".to_owned(), lossy_text(data))
}

/// The header of a session that begins at `timestamp`.
pub fn new_header(
    timestamp: i64,
    command: String,
    shell: Option<String>,
    term: Option<String>,
) -> (r: Header)
    ensures
        r.version == 2,
        r.width == 80,
        r.height == 24,
        r.timestamp == timestamp,
        r.command@ == command@,
        r.env@.len() == 2,
        r.env@[0].0@ == "SHELL"@,
        r.env@[0].1@ == text_or(shell, "/bin/bash"@),
        r.env@[1].0@ == "TERM"@,
        r.env@[1].1@ == text_or(term, "xterm-256color"@),
{
    let mut env: Vec<(String, String)> = Vec::new();
    env.push(("SHELL".to_owned(), or_text(&shell, "/bin/bash").to_owned()));
    env.push(("TERM".to_owned(), or_text(&term, "xterm-256color").to_owned()));
    Header { version: 2, width: 80, height: 24, timestamp, command, env }
}

/// What the clock shows, as a signed number: a number with the top bit set is negative.
pub open spec fn timestamp_value(seconds: Option<u64>) -> int {
    match seconds {
        None => 0,
        Some(s) => if s < 0x8000_0000_0000_0000 {
            s as int
        } else {
            s - 0x1_0000_0000_0000_0000
        },
    }
}

/// What the clock shows, as a timestamp; 0 where it stands before the epoch.
pub fn timestamp_of(seconds: Option<u64>) -> (r: i64)
    ensures
        r == timestamp_value(seconds),
{
    match seconds {
        None => 0,
        Some(s) => {
            let r: i64 = #[verifier::truncate]
            (s as i64);
            proof {
                assert(s < 0x8000_0000_0000_0000 ==> (s as i64) == s) by (bit_vector);
                assert(s >= 0x8000_0000_0000_0000 ==> (s as i64) == s - 0x1_0000_0000_0000_0000)
                    by (bit_vector);
            }
            r
        },
    }
}

/// The seconds since the epoch.
pub fn now_ts() -> (r: i64)
    ensures
        exists|seconds: Option<u64>| r == #[trigger] timestamp_value(seconds),
{
    let seconds = clock_seconds();
    timestamp_of(seconds)
}

/// A text that stands on a line as it is: no line feed is in it, and no white space at its end.
pub open spec fn fits_a_line(text: Seq<char>) -> bool {
    &&& trim_end(text) == text
    &&& forall|i: int| 0 <= i < text.len() ==> text[i] != '\n'
}

/// The texts that were written to a recording, each on a line, are the texts that are read from
/// it, in order and no others.
pub proof fn law_texts_read_back(texts: Seq<Seq<char>>)
    requires
        forall|i: int| 0 <= i < texts.len() ==> fits_a_line(#[trigger] texts[i]),
    ensures
        byte_lines(terminated(encoded(texts))).len() == texts.len(),
        forall|i: int|
            0 <= i < texts.len() ==> line_text(
                #[trigger] byte_lines(terminated(encoded(texts)))[i],
            ) == Ok::<Seq<char>, CastError>(texts[i]),
{
    let lines = encoded(texts);
    assert forall|i: int| 0 <= i < lines.len() implies one_line(#[trigger] lines[i]) by {
        let text = texts[i];
        assert(fits_a_line(text));
        assert forall|j: int| 0 <= j < text.len() implies text[j] as u32 != LINE_FEED as u32 by {
            char_u32_cast(text[j], text[j] as u32);
            char_u32_cast('\n', '\n' as u32);
        }
        lemma_ascii_bytes(text, LINE_FEED);
    }
    law_lines_read_back(lines);
    assert forall|i: int| 0 <= i < texts.len() implies line_text(#[trigger] lines[i]) == Ok::<
        Seq<char>,
        CastError,
    >(texts[i]) by {
        assert(fits_a_line(texts[i]));
        encode_utf8_valid_utf8(texts[i]);
        encode_utf8_decode_utf8(texts[i]);
    }
}

/// What a writer collects: the header makes the first line, and each event one more.
pub proof fn law_written_lines(header: Seq<u8>, lines: Seq<Seq<u8>>, event: Seq<u8>)
    ensures
        terminated(seq![header]) == header.push(LINE_FEED),
        terminated(lines.push(event)) == terminated(lines) + event.push(LINE_FEED),
{
    reveal_with_fuel(terminated, 2);
    assert(seq![header].drop_last() =~= Seq::<Seq<u8>>::empty());
    assert(terminated(seq![header]) =~= header.push(LINE_FEED));
    assert(lines.push(event).drop_last() =~= lines);
}

/// What a reader reads: each time the first of the lines that are left, until none is.
pub proof fn law_read_lines(rest: Seq<u8>)
    ensures
        byte_lines(rest).len() == 0 <==> rest.len() == 0,
        rest.len() > 0 ==> byte_lines(rest)[0] == line(rest),
        rest.len() > 0 ==> byte_lines(after_line(rest)) == byte_lines(rest).drop_first(),
{
    if rest.len() > 0 {
        assert(byte_lines(rest).drop_first() =~= byte_lines(after_line(rest)));
    }
}

/// However things are written as texts: if each is written on a line and read back from its text,
/// then a recording of some of them gives them back, in order and no others.
pub proof fn law_recorded_read_back<T>(
    things: Seq<T>,
    write: spec_fn(T) -> Seq<char>,
    read: spec_fn(Seq<char>) -> Option<T>,
)
    requires
        forall|i: int|
            0 <= i < things.len() ==> fits_a_line(write(#[trigger] things[i])) && read(
                write(things[i]),
            ) == Some(things[i]),
    ensures
        ({
            let found = byte_lines(terminated(encoded(things.map_values(write))));
            &&& found.len() == things.len()
            &&& forall|i: int|
                0 <= i < things.len() ==> line_text(#[trigger] found[i]) is Ok && read(
                    line_text(found[i])->Ok_0,
                ) == Some(things[i])
        }),
{
    let texts = things.map_values(write);
    assert forall|i: int| 0 <= i < texts.len() implies fits_a_line(#[trigger] texts[i]) by {
        assert(texts[i] == write(things[i]));
    }
    law_texts_read_back(texts);
}

/// The lines of a recording, one by one: a line feed ends a line, and what is behind the last one
/// is a line too, unless it is empty.
pub proof fn law_byte_lines(first: Seq<u8>, rest: Seq<u8>)
    requires
        forall|i: int| 0 <= i < first.len() ==> first[i] != '\n' as u8,
    ensures
        byte_lines(first.push('\n' as u8) + rest) == seq![first] + byte_lines(rest),
        first.len() > 0 ==> byte_lines(first) == seq![first],
        byte_lines(Seq::<u8>::empty()) == Seq::<Seq<u8>>::empty(),
{
    lemma_first_line(first, rest);
    lemma_line_len_is(first, first.len() as int);
    assert(first.take(first.len() as int) =~= first);
    if first.len() > 0 {
        assert(after_line(first) =~= Seq::<u8>::empty());
        assert(byte_lines(after_line(first)) =~= Seq::<Seq<u8>>::empty());
        assert(line(first) =~= first);
        assert(byte_lines(first) =~= seq![first]);
    }
}

/// The text of a line is what the bytes encode, without the white space at its end. Bytes that
/// encode nothing have none.
pub proof fn law_line_text(text: Seq<char>, space: Seq<char>, bytes: Seq<u8>)
    requires
        blank(space),
        text.len() > 0 ==> !white_space(text.last()),
    ensures
        line_text(encode_utf8(text + space)) == Ok::<Seq<char>, CastError>(text),
        !valid_utf8(bytes) ==> line_text(bytes) == Err::<Seq<char>, CastError>(
            CastError::InvalidUtf8,
        ),
{
    encode_utf8_valid_utf8(text + space);
    encode_utf8_decode_utf8(text + space);
    lemma_trim_end_blank(text, space);
}

/// The events that hold output are those whose kind is the letter o.
pub proof fn law_output_kind(ev: Event)
    ensures
        is_output(ev) <==> ev.1@ == seq!['o'],
{
    reveal_strlit("o");
    assert("o"@ =~= seq!['o']);
}

/// A clock that stands behind the epoch by a number of seconds that can be kept gives that number.
pub proof fn law_timestamp(seconds: u64)
    requires
        seconds <= i64::MAX,
    ensures
        timestamp_value(Some(seconds)) == seconds,
        timestamp_value(None) == 0,
{
}

} // verus!
