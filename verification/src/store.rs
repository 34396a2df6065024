//! Where sessions are kept: the local directory of a user, and the central store with a directory
//! for each user.

use crate::cast::{byte_lines, law_lines_read_back, one_line, terminated, Cast, Event};
use crate::config::Config;
use crate::crypto::{
    chunks_of, decrypt_stream, encrypt_stream, encrypted, frames_open, is_encrypted, joined,
    law_sealed_opens, opened, sealed, seals, CryptoError, Format, KEY_SIZE, MAGIC,
};
use crate::format::{
    cell_views, decimal, law_decimals_differ, law_row, left, left_cell, left_column, lemma_decimal,
    plain, plain_cell, prefixed, push_i64, push_two_digits, push_u64, rendered, row, row_of,
    signed_decimal, text_of_u64, two_digits,
};
use crate::order::{
    encoded, keys, law_ordered_contains, law_ordered_texts_contains,
    lemma_ordered_texts, ordered, ordered_texts, sort,
};
use crate::outside::{
    civil_text, datable, is_stamp, local_stamp, local_text, local_time, lossy, lossy_text,
    unicode_alphanumeric,
};
use crate::path::{
    base_name, base_name_of, extension, has_extension, join, join_path, last_of,
    law_base_name_of_join, law_stem_extension, lemma_last_of, split_dot, stem, stem_of, DOT,
    SEPARATOR,
};
use crate::seconds::{whole, whole_seconds};
use crate::text::{
    byte_views, chars_of, copy_bytes, lemma_ascii_bytes, lemma_encode_concat, lemma_views_push,
    or_text, same_text, text_or, trim_suffixes, view_opt, views, without_suffixes,
};
use vstd::prelude::*;
use vstd::string::*;
use vstd::utf8::*;

verus! {

/// Where the sessions of the user are kept.
pub fn local_dir(cfg: &Config) -> (r: Vec<u8>)
    ensures
        r@ == cfg@.local_dir,
{
    copy_bytes(cfg.local_dir.as_slice())
}

/// Where the sessions of all users are kept.
pub fn central_dir(cfg: &Config) -> (r: Vec<u8>)
    ensures
        r@ == cfg@.central_dir,
{
    copy_bytes(cfg.central_dir.as_slice())
}

/// Something that stands in a directory.
#[derive(Debug)]
pub struct DirEntry {
    pub name: Vec<u8>,
    pub is_dir: bool,
    pub is_symlink: bool,
    /// When it was written last, in seconds since the epoch.
    pub modified: i64,
}

/// The directory of a user in the central store, and what stands in it, where it could be read.
#[derive(Debug)]
pub struct UserDir {
    pub user: String,
    pub entries: Option<Vec<DirEntry>>,
}

/// A character that may stand in the name of a user.
pub open spec fn user_char(c: char) -> bool {
    unicode_alphanumeric(c) || c == '_' || c == '-' || c == '.'
}

/// A directory that belongs to a user, by its name.
pub open spec fn user_entry(e: DirEntry) -> bool {
    let name = lossy(e.name@);
    &&& e.is_dir
    &&& !e.is_symlink
    &&& forall|i: int| 0 <= i < name.len() ==> user_char(#[trigger] name[i])
}

/// The users that have a directory, as the directories come.
pub open spec fn user_names(entries: Seq<DirEntry>) -> Seq<Seq<char>>
    decreases entries.len(),
{
    if entries.len() == 0 {
        Seq::empty()
    } else {
        let before = user_names(entries.drop_last());
        if user_entry(entries.last()) {
            before.push(lossy(entries.last().name@))
        } else {
            before
        }
    }
}

/// Whether every character may stand in the name of a user.
fn is_user_name(name: &str) -> (r: bool)
    ensures
        r == forall|i: int| 0 <= i < name@.len() ==> user_char(#[trigger] name@[i]),
{
    let cs = chars_of(name);
    let mut i: usize = 0;
    while i < cs.len()
        invariant
            cs@ == name@,
            i <= cs@.len(),
            forall|j: int| 0 <= j < i ==> user_char(#[trigger] name@[j]),
        decreases cs@.len() - i,
    {
        let c = cs[i];
        if !(c.is_alphanumeric() || c == '_' || c == '-' || c == '.') {
            assert(!user_char(name@[i as int]));
            return false;
        }
        i = i + 1;
    }
    true
}

/// The users that have a directory among `entries`, in order.
pub fn users(entries: &Vec<DirEntry>) -> (r: Vec<String>)
    ensures
        views(r@) == ordered_texts(user_names(entries@)),
{
    let mut out: Vec<String> = Vec::new();
    let mut i: usize = 0;
    assert(views(out@) =~= user_names(entries@.take(0)));
    while i < entries.len()
        invariant
            i <= entries@.len(),
            views(out@) == user_names(entries@.take(i as int)),
        decreases entries@.len() - i,
    {
        let ghost longer = entries@.take(i + 1);
        let ghost before = out@;
        assert(longer.drop_last() =~= entries@.take(i as int));
        let e = &entries[i];
        assert(longer.last() == *e);
        if e.is_dir && !e.is_symlink {
            let name = lossy_text(e.name.as_slice());
            if is_user_name(name.as_str()) {
                proof {
                    lemma_views_push(before, name);
                }
                out.push(name);
            }
        }
        i = i + 1;
    }
    assert(entries@.take(i as int) =~= entries@);
    let ghost found = out@;
    let r = sort(out);
    proof {
        assert(keys(found) =~= encoded(user_names(entries@)));
        lemma_ordered_texts(r@, user_names(entries@));
    }
    r
}

/// A recorded session, by its name.
pub open spec fn cast_entry(e: DirEntry) -> bool {
    !e.is_symlink && extension(e.name@) == Some(encode_utf8("cast"@))
}

/// The sessions in a directory, as they come.
pub open spec fn casts_in(dir: Seq<u8>, entries: Seq<DirEntry>) -> Seq<Seq<u8>>
    decreases entries.len(),
{
    if entries.len() == 0 {
        Seq::empty()
    } else {
        let before = casts_in(dir, entries.drop_last());
        if cast_entry(entries.last()) {
            before.push(join(dir, entries.last().name@))
        } else {
            before
        }
    }
}

/// The sessions in a directory, in order.
pub open spec fn cast_paths(dir: Seq<u8>, entries: Seq<DirEntry>) -> Seq<Seq<u8>> {
    ordered(casts_in(dir, entries))
}

/// Whether an entry is a recorded session.
fn is_cast_entry(e: &DirEntry) -> (r: bool)
    ensures
        r == cast_entry(*e),
{
    !e.is_symlink && has_extension(e.name.as_slice(), "cast".as_bytes())
}

/// The paths of the sessions in a directory, in order.
pub fn cast_files(dir: &[u8], entries: &Vec<DirEntry>) -> (r: Vec<Vec<u8>>)
    ensures
        byte_views(r@) == cast_paths(dir@, entries@),
{
    let mut out: Vec<Vec<u8>> = Vec::new();
    let mut i: usize = 0;
    assert(byte_views(out@) =~= casts_in(dir@, entries@.take(0)));
    while i < entries.len()
        invariant
            i <= entries@.len(),
            byte_views(out@) == casts_in(dir@, entries@.take(i as int)),
        decreases entries@.len() - i,
    {
        let ghost longer = entries@.take(i + 1);
        let ghost before = out@;
        assert(longer.drop_last() =~= entries@.take(i as int));
        let e = &entries[i];
        assert(longer.last() == *e);
        if is_cast_entry(e) {
            out.push(join_path(dir, e.name.as_slice()));
            assert(byte_views(out@) =~= byte_views(before).push(join(dir@, e.name@)));
        }
        i = i + 1;
    }
    assert(entries@.take(i as int) =~= entries@);
    let ghost found = out@;
    let r = sort(out);
    proof {
        assert(keys(found) =~= byte_views(found));
        assert(keys(r@) =~= byte_views(r@));
    }
    r
}

/// A recorded session that was written last before a time.
pub open spec fn old_entry(e: DirEntry, before: i64) -> bool {
    cast_entry(e) && e.modified < before
}

/// The old sessions in a directory, as they come.
pub open spec fn old_casts_in(dir: Seq<u8>, entries: Seq<DirEntry>, before: i64) -> Seq<Seq<u8>>
    decreases entries.len(),
{
    if entries.len() == 0 {
        Seq::empty()
    } else {
        let first = old_casts_in(dir, entries.drop_last(), before);
        if old_entry(entries.last(), before) {
            first.push(join(dir, entries.last().name@))
        } else {
            first
        }
    }
}

/// The old sessions in a directory, in order.
pub open spec fn old_cast_paths(dir: Seq<u8>, entries: Seq<DirEntry>, before: i64) -> Seq<Seq<u8>> {
    ordered(old_casts_in(dir, entries, before))
}

/// The paths of the sessions in a directory that were written last before a time, in order.
pub fn old_cast_files(dir: &[u8], entries: &Vec<DirEntry>, before: i64) -> (r: Vec<Vec<u8>>)
    ensures
        byte_views(r@) == old_cast_paths(dir@, entries@, before),
{
    let mut out: Vec<Vec<u8>> = Vec::new();
    let mut i: usize = 0;
    assert(byte_views(out@) =~= old_casts_in(dir@, entries@.take(0), before));
    while i < entries.len()
        invariant
            i <= entries@.len(),
            byte_views(out@) == old_casts_in(dir@, entries@.take(i as int), before),
        decreases entries@.len() - i,
    {
        let ghost longer = entries@.take(i + 1);
        let ghost so_far = out@;
        assert(longer.drop_last() =~= entries@.take(i as int));
        let e = &entries[i];
        assert(longer.last() == *e);
        if is_cast_entry(e) && e.modified < before {
            out.push(join_path(dir, e.name.as_slice()));
            assert(byte_views(out@) =~= byte_views(so_far).push(join(dir@, e.name@)));
        }
        i = i + 1;
    }
    assert(entries@.take(i as int) =~= entries@);
    let ghost found = out@;
    let r = sort(out);
    proof {
        assert(keys(found) =~= byte_views(found));
        assert(keys(r@) =~= byte_views(r@));
    }
    r
}

/// The directory of a user in the central store.
pub open spec fn user_dir(central: Seq<u8>, user: Seq<char>) -> Seq<u8> {
    join(central, encode_utf8(user))
}

/// The sessions that are kept of a user.
pub open spec fn kept(central: Seq<u8>, user: Seq<char>, entries: Seq<DirEntry>) -> Seq<Seq<u8>> {
    cast_paths(user_dir(central, user), entries)
}

/// The paths of the sessions that are kept of a user, in order; `entries` is what stands in the
/// directory of the user.
pub fn user_sessions(cfg: &Config, user: &str, entries: &Vec<DirEntry>) -> (r: Vec<Vec<u8>>)
    ensures
        byte_views(r@) == kept(cfg@.central_dir, user@, entries@),
{
    let dir = join_path(cfg.central_dir.as_slice(), user.as_bytes());
    cast_files(dir.as_slice(), entries)
}

/// The name by which a session is asked for: its file name without the extension.
pub open spec fn session_of(path: Seq<u8>) -> Seq<char> {
    lossy(stem(base_name(path)))
}

/// The name by which the session at `path` is asked for.
pub fn session_name(path: &[u8]) -> (r: String)
    ensures
        r@ == session_of(path@),
{
    lossy_text(stem_of(base_name_of(path).as_slice()).as_slice())
}

/// What a user means by `id`, which may carry the extension.
pub open spec fn wanted(id: Seq<char>) -> Seq<char> {
    trim_suffixes(id, ".cast"@)
}

/// What a user means by `id`, which may carry the extension.
pub fn wanted_session(id: &str) -> (r: String)
    ensures
        r@ == wanted(id@),
{
    without_suffixes(id, ".cast")
}

/// The first of some sessions that goes by the name `id`.
pub open spec fn first_named(paths: Seq<Seq<u8>>, id: Seq<char>) -> Option<Seq<u8>>
    decreases paths.len(),
{
    if paths.len() == 0 {
        None
    } else if session_of(paths[0]) == id {
        Some(paths[0])
    } else {
        first_named(paths.drop_first(), id)
    }
}

/// Why a session is not found.
#[derive(Debug, Clone, Copy, PartialEq, Eq, Structural)]
pub enum StoreError {
    /// No user has it.
    NotFound,
    /// The directory with this number could not be read, and none before it has it.
    Unreadable(usize),
}

/// The session that goes by the name `id`, and its user, from directory `k` on.
pub open spec fn located(central: Seq<u8>, id: Seq<char>, dirs: Seq<UserDir>, k: int) -> Result<
    (Seq<u8>, Seq<char>),
    StoreError,
>
    decreases dirs.len() - k,
{
    if k < 0 || k >= dirs.len() {
        Err(StoreError::NotFound)
    } else {
        match dirs[k].entries {
            None => Err(StoreError::Unreadable(k as usize)),
            Some(entries) => match first_named(kept(central, dirs[k].user@, entries@), id) {
                Some(path) => Ok((path, dirs[k].user@)),
                None => located(central, id, dirs, k + 1),
            },
        }
    }
}

/// The first of some sessions that goes by the name `id`.
fn find_named(paths: &Vec<Vec<u8>>, id: &str) -> (r: Option<Vec<u8>>)
    ensures
        match first_named(byte_views(paths@), id@) {
            Some(p) => r is Some && r->0@ == p,
            None => r is None,
        },
{
    let ghost all = byte_views(paths@);
    let mut i: usize = 0;
    assert(all.skip(0) =~= all);
    while i < paths.len()
        invariant
            i <= paths@.len(),
            all == byte_views(paths@),
            first_named(all, id@) == first_named(all.skip(i as int), id@),
        decreases paths@.len() - i,
    {
        let path = &paths[i];
        assert(all.skip(i as int)[0] == path@);
        assert(all.skip(i as int).drop_first() =~= all.skip(i + 1));
        if same_text(session_name(path.as_slice()).as_str(), id) {
            return Some(copy_bytes(path.as_slice()));
        }
        i = i + 1;
    }
    None
}

/// The path of the session that a user means by `id`, and the user whose session it is: the first
/// one, in the order of the users and then of the sessions.
pub fn find_central(cfg: &Config, id: &str, dirs: &Vec<UserDir>) -> (r: Result<
    (Vec<u8>, String),
    StoreError,
>)
    ensures
        match located(cfg@.central_dir, wanted(id@), dirs@, 0) {
            Ok((path, user)) => r is Ok && r->Ok_0.0@ == path && r->Ok_0.1@ == user,
            Err(e) => r == Err::<(Vec<u8>, String), StoreError>(e),
        },
{
    let key = wanted_session(id);
    let mut k: usize = 0;
    while k < dirs.len()
        invariant
            k <= dirs@.len(),
            key@ == wanted(id@),
            located(cfg@.central_dir, key@, dirs@, 0) == located(
                cfg@.central_dir,
                key@,
                dirs@,
                k as int,
            ),
        decreases dirs@.len() - k,
    {
        match &dirs[k].entries {
            None => {
                return Err(StoreError::Unreadable(k));
            },
            Some(entries) => {
                let paths = user_sessions(cfg, dirs[k].user.as_str(), entries);
                if let Some(path) = find_named(&paths, key.as_str()) {
                    return Ok((path, dirs[k].user.as_str().to_owned()));
                }
            },
        }
        k = k + 1;
    }
    Err(StoreError::NotFound)
}

/// What a stored file holds in plain: an encrypted one is opened, another one stands as it is.
pub open spec fn plain_cast(key: Seq<u8>, data: Seq<u8>) -> Result<Seq<u8>, CryptoError> {
    if encrypted(data) {
        match opened(key, data).1 {
            Ok(_) => Ok(opened(key, data).0),
            Err(e) => Err(e),
        }
    } else {
        Ok(data)
    }
}

/// What a stored file holds in plain. The key matters only where the file is encrypted.
pub fn read_plain_cast(data: &[u8], key: &[u8]) -> (r: Result<Vec<u8>, CryptoError>)
    ensures
        match plain_cast(key@, data@) {
            Ok(text) => r is Ok && r->Ok_0@ == text,
            Err(e) => r == Err::<Vec<u8>, CryptoError>(e),
        },
{
    if !is_encrypted(data) {
        return Ok(copy_bytes(data));
    }
    let mut out: Vec<u8> = Vec::new();
    match decrypt_stream(data, &mut out, key) {
        Ok(_) => {
            assert(out@ =~= opened(key@, data@).0);
            Ok(out)
        },
        Err(e) => Err(e),
    }
}

/// What becomes of a local session that is taken into the central store.
#[derive(Debug)]
pub enum Ingest {
    /// It is encrypted: the file is moved as it is.
    Move,
    /// It is plain: these bytes are stored, and the file is removed.
    Store(Vec<u8>),
}

/// Where an entry of the local directory goes in the central store, if it is a session.
pub fn ingest_path(cfg: &Config, user: &str, e: &DirEntry) -> (r: Option<Vec<u8>>)
    ensures
        r is Some <==> cast_entry(*e),
        r matches Some(p) ==> p@ == join(
            user_dir(cfg@.central_dir, user@),
            encode_utf8(lossy(e.name@)),
        ),
{
    if !is_cast_entry(e) {
        return None;
    }
    let dir = join_path(cfg.central_dir.as_slice(), user.as_bytes());
    let name = lossy_text(e.name.as_slice());
    Some(join_path(dir.as_slice(), name.as_str().as_bytes()))
}

/// What is taken into the central store from the local directory, as it comes: from where, and to
/// where.
pub open spec fn ingest_list(
    local: Seq<u8>,
    central: Seq<u8>,
    user: Seq<char>,
    entries: Seq<DirEntry>,
) -> Seq<(Seq<u8>, Seq<u8>)>
    decreases entries.len(),
{
    if entries.len() == 0 {
        Seq::empty()
    } else {
        let before = ingest_list(local, central, user, entries.drop_last());
        let name = entries.last().name@;
        if cast_entry(entries.last()) {
            before.push((join(local, name), join(user_dir(central, user), encode_utf8(lossy(name)))))
        } else {
            before
        }
    }
}

/// Pairs of paths.
pub open spec fn move_views(moves: Seq<(Vec<u8>, Vec<u8>)>) -> Seq<(Seq<u8>, Seq<u8>)> {
    Seq::new(moves.len(), |i: int| (moves[i].0@, moves[i].1@))
}

/// What is taken into the central store from the local directory, in which `entries` stand: from
/// where, and to where.
pub fn ingest_moves(cfg: &Config, user: &str, entries: &Vec<DirEntry>) -> (r: Vec<
    (Vec<u8>, Vec<u8>),
>)
    ensures
        move_views(r@) == ingest_list(cfg@.local_dir, cfg@.central_dir, user@, entries@),
{
    let mut out: Vec<(Vec<u8>, Vec<u8>)> = Vec::new();
    let mut i: usize = 0;
    assert(move_views(out@) =~= ingest_list(
        cfg@.local_dir,
        cfg@.central_dir,
        user@,
        entries@.take(0),
    ));
    while i < entries.len()
        invariant
            i <= entries@.len(),
            move_views(out@) == ingest_list(
                cfg@.local_dir,
                cfg@.central_dir,
                user@,
                entries@.take(i as int),
            ),
        decreases entries@.len() - i,
    {
        let ghost before = out@;
        let e = &entries[i];
        proof {
            assert(entries@.take(i + 1).drop_last() =~= entries@.take(i as int));
            assert(entries@.take(i + 1).last() == *e);
        }
        if let Some(dest) = ingest_path(cfg, user, e) {
            let source = join_path(cfg.local_dir.as_slice(), e.name.as_slice());
            out.push((source, dest));
            assert(move_views(out@) =~= move_views(before).push((source@, dest@)));
        }
        i = i + 1;
    }
    assert(entries@.take(i as int) =~= entries@);
    out
}

/// What becomes of a local session that holds `data`. What is stored of a plain one is a stream of
/// the current format, and reads back as `data`.
pub fn ingest_local(data: &[u8], key: &[u8]) -> (r: Result<Ingest, CryptoError>)
    ensures
        r is Err <==> !encrypted(data@) && key@.len() != KEY_SIZE,
        r matches Err(e) ==> e == CryptoError::InvalidKey,
        r matches Ok(Ingest::Move) ==> encrypted(data@),
        r matches Ok(Ingest::Store(out)) ==> !encrypted(data@) && seals(key@, data@, out@)
            && MAGIC@.is_prefix_of(out@) && plain_cast(key@, out@) == Ok::<Seq<u8>, CryptoError>(
            data@,
        ),
{
    if is_encrypted(data) {
        return Ok(Ingest::Move);
    }
    let mut out: Vec<u8> = Vec::new();
    match encrypt_stream(data, &mut out, key) {
        Err(e) => Err(e),
        Ok(()) => {
            proof {
                let stream = choose|stream: Seq<u8>|
                    out@ == Seq::<u8>::empty() + stream && #[trigger] seals(
                        key@,
                        data@,
                        stream,
                    ) && encrypted(stream) && opened(key@, stream) == (
                        data@,
                        Ok::<Format, CryptoError>(Format::V2),
                    );
                assert(out@ =~= stream);
                let prefix = choose|prefix: Seq<u8>|
                    prefix.len() == 4 && stream == #[trigger] sealed(key@, prefix, chunks_of(data@));
                assert(stream.take(6) =~= MAGIC@);
            }
            Ok(Ingest::Store(out))
        },
    }
}

/// The name of a user, or their number where no name is known.
pub fn user_or_uid(name: Option<String>, uid: u32) -> (r: String)
    ensures
        r@ == text_or(name, decimal(uid as nat)),
{
    match name {
        Some(n) => n,
        None => text_of_u64(uid as u64),
    }
}

/// The name of the session that process `pid` began at the time of `stamp`.
pub open spec fn session_id(stamp: Seq<char>, pid: int) -> Seq<char> {
    stamp + "-"@ + signed_decimal(pid)
}

/// The name of the session that process `pid` began at the time of `stamp`.
pub fn id_at(stamp: &str, pid: i64) -> (r: String)
    ensures
        r@ == session_id(stamp@, pid as int),
{
    let mut out = prefixed(stamp, "-");
    push_i64(&mut out, pid);
    out
}

/// The name of a session that process `pid` begins now.
pub fn new_id(pid: i64) -> (r: String)
    ensures
        exists|stamp: Seq<char>|
            is_stamp(stamp) && r@ == #[trigger] session_id(stamp, pid as int),
{
    let stamp = local_stamp("%Y%m%dT%H%M%S%.9f");
    id_at(stamp.as_str(), pid)
}

/// The file name of the session `id`.
pub open spec fn cast_name(id: Seq<char>) -> Seq<char> {
    id + ".cast"@
}

/// The file name of a session that process `pid` begins now.
pub fn new_name(pid: u32) -> (r: String)
    ensures
        exists|stamp: Seq<char>|
            is_stamp(stamp) && r@ == cast_name(#[trigger] session_id(stamp, pid as int)),
{
    prefixed(new_id(pid as i64).as_str(), ".cast")
}

/// Where the session that process `pid` begins now is kept, if the user keeps it.
pub fn new_local_path(cfg: &Config, pid: u32) -> (r: Vec<u8>)
    ensures
        exists|stamp: Seq<char>|
            is_stamp(stamp) && r@ == join(
                cfg@.local_dir,
                encode_utf8(cast_name(#[trigger] session_id(stamp, pid as int))),
            ),
{
    let name = new_name(pid);
    join_path(cfg.local_dir.as_slice(), name.as_str().as_bytes())
}

/// A time of so many seconds, in hours, minutes and seconds.
pub open spec fn duration_text(secs: int) -> Seq<char> {
    let h = secs / 3600;
    let m = secs / 60 % 60;
    let s = secs % 60;
    if h > 0 {
        decimal(h as nat) + "h"@ + two_digits(m as nat) + "m"@ + two_digits(s as nat) + "s"@
    } else if m > 0 {
        decimal(m as nat) + "m"@ + two_digits(s as nat) + "s"@
    } else {
        decimal(s as nat) + "s"@
    }
}

/// A time, as the bits of a float, in hours, minutes and seconds. A negative one is none.
pub fn human_duration(bits: u64) -> (r: String)
    ensures
        r@ == duration_text(whole(bits, u64::MAX as int)),
{
    let secs = whole_seconds(bits, u64::MAX);
    let h: u64 = secs / 3600;
    let m: u64 = secs / 60 % 60;
    let s: u64 = secs % 60;
    let mut out = String::new();
    if h > 0 {
        push_u64(&mut out, h);
        out.append("h");
        push_two_digits(&mut out, m);
        out.append("m");
        push_two_digits(&mut out, s);
    } else if m > 0 {
        push_u64(&mut out, m);
        out.append("m");
        push_two_digits(&mut out, s);
    } else {
        push_u64(&mut out, s);
    }
    out.append("s");
    assert(out@ =~= duration_text(secs as int));
    out
}

/// The time of the last event of a recording, as the bits of a float: zero where there is none.
pub open spec fn last_time(cast: Cast) -> u64 {
    if cast.events@.len() == 0 {
        0
    } else {
        cast.events@.last().0
    }
}

/// How long a recording is; nothing where a line of it could not be read.
pub open spec fn cast_duration(cast: Cast) -> Option<Seq<char>> {
    if cast.intact {
        Some(duration_text(whole(last_time(cast), u64::MAX as int)))
    } else {
        None
    }
}

/// How long a recording is; nothing where a line of it could not be read.
pub fn duration(cast: &Cast) -> (r: Option<String>)
    ensures
        view_opt(r) == cast_duration(*cast),
{
    if !cast.intact {
        return None;
    }
    let n = cast.events.len();
    let last: u64 = if n == 0 {
        0
    } else {
        cast.events[n - 1].0
    };
    Some(human_duration(last))
}

/// A session in a list: where it is, and what it holds, where its header could be read.
#[derive(Debug)]
pub struct ListedSession {
    pub path: Vec<u8>,
    pub cast: Option<Cast>,
}

/// The row of a session in a list, given when it began, where that is known.
pub open spec fn session_row(
    name: Seq<char>,
    cast: Option<Cast>,
    started: Option<String>,
) -> Seq<char> {
    let duration = match cast {
        Some(c) => match cast_duration(c) {
            Some(d) => d,
            None => "-"@,
        },
        None => "-"@,
    };
    let command = match cast {
        Some(c) => c.header.command@,
        None => "(unreadable)"@,
    };
    row(
        seq![
            left("SAVED"@, 8),
            left(name, 29),
            left(text_or(started, "?"@), 20),
            left(duration, 10),
            plain(command),
        ],
    )
}

/// The row of a session in a list, given when it began, where that is known.
pub fn row_at(name: &str, cast: &Option<Cast>, started: &Option<String>) -> (r: String)
    ensures
        r@ == session_row(name@, *cast, *started),
{
    let length = match cast {
        Some(c) => duration(c),
        None => None,
    };
    let command: &str = match cast {
        Some(c) => c.header.command.as_str(),
        None => "(unreadable)",
    };
    let when = or_text(started, "?");
    let long = or_text(&length, "-");
    let cells = vec![
        left_cell("SAVED", 8),
        left_cell(name, 29),
        left_cell(when, 20),
        left_cell(long, 10),
        plain_cell(command),
    ];
    assert(cell_views(cells@) =~= seq![
        left("SAVED"@, 8),
        left(name@, 29),
        left(when@, 20),
        left(long@, 10),
        plain(command@),
    ]);
    row_of(&cells)
}

/// `started` is when a session began, by its header: there is no time without a header, nor for a
/// timestamp that has no date.
pub open spec fn starts(cast: Option<Cast>, started: Option<String>) -> bool {
    match cast {
        None => started is None,
        Some(c) => {
            &&& started is Some <==> datable(c.header.timestamp as int)
            &&& started is Some ==> local_text(c.header.timestamp as int, started->0@)
        },
    }
}

/// `line` is the row of a session, whatever the time zone is.
pub open spec fn shows_session(line: Seq<char>, name: Seq<char>, cast: Option<Cast>) -> bool {
    exists|started: Option<String>|
        #[trigger] starts(cast, started) && line == session_row(name, cast, started)
}

/// The row of a session in a list.
pub fn print_session_row(name: &str, cast: &Option<Cast>) -> (r: String)
    ensures
        shows_session(r@, name@, *cast),
{
    let started = match cast {
        Some(c) => local_time(c.header.timestamp, "%Y-%m-%d %H:%M:%S"),
        None => None,
    };
    assert(starts(*cast, started));
    row_at(name, cast, &started)
}

/// The table of some sessions: a line that heads the columns, then a row for each.
pub open spec fn shows_sessions(
    lines: Seq<Seq<char>>,
    head: Seq<char>,
    sessions: Seq<ListedSession>,
) -> bool {
    &&& lines.len() == sessions.len() + 1
    &&& lines[0] == head
    &&& forall|i: int|
        0 <= i < sessions.len() ==> shows_session(
            #[trigger] lines[i + 1],
            lossy(base_name(sessions[i].path@)),
            sessions[i].cast,
        )
}

/// The table of some sessions.
pub fn session_table(head: &str, sessions: &Vec<ListedSession>) -> (r: Vec<String>)
    ensures
        shows_sessions(views(r@), head@, sessions@),
{
    let mut out: Vec<String> = Vec::new();
    out.push(head.to_owned());
    let mut i: usize = 0;
    while i < sessions.len()
        invariant
            i <= sessions@.len(),
            shows_sessions(views(out@), head@, sessions@.take(i as int)),
        decreases sessions@.len() - i,
    {
        let ghost before = out@;
        let s = &sessions[i];
        let name = lossy_text(base_name_of(s.path.as_slice()).as_slice());
        out.push(print_session_row(name.as_str(), &s.cast));
        proof {
            let line = out@.last();
            lemma_views_push(before, line);
            let some = sessions@.take(i as int);
            let more = sessions@.take(i + 1);
            let v = views(out@);
            assert forall|k: int| 0 <= k < more.len() implies shows_session(
                #[trigger] v[k + 1],
                lossy(base_name(more[k].path@)),
                more[k].cast,
            ) by {
                if k < i {
                    assert(some[k] == more[k]);
                    assert(v[k + 1] == views(before)[k + 1]);
                }
            }
        }
        i = i + 1;
    }
    assert(sessions@.take(i as int) =~= sessions@);
    out
}

/// What is shown of the local sessions; `sessions` is nothing where there is no directory.
pub fn list_local(cfg: &Config, sessions: &Option<Vec<ListedSession>>) -> (r: Vec<String>)
    ensures
        match *sessions {
            None => views(r@) == seq!["no recordings yet (dir: "@ + lossy(cfg@.local_dir) + ")"@],
            Some(list) => shows_sessions(
                views(r@),
                "STATUS   FILE                          STARTED              DURATION   COMMAND"@,
                list@,
            ),
        },
{
    match sessions {
        None => {
            let mut line = "no recordings yet (dir: ".to_owned();
            line.append(lossy_text(cfg.local_dir.as_slice()).as_str());
            line.append(")");
            let out = vec![line];
            assert(views(out@) =~= seq!["no recordings yet (dir: "@ + lossy(cfg@.local_dir) + ")"@]);
            out
        },
        Some(list) => session_table(
            "STATUS   FILE                          STARTED              DURATION   COMMAND",
            list,
        ),
    }
}

/// `id` with the extension and without it mean the same session.
pub proof fn law_extension_optional(id: Seq<char>)
    ensures
        wanted(id + ".cast"@) == wanted(id),
{
    reveal_strlit(".cast");
    let full = id + ".cast"@;
    assert(full.skip(id.len() as int) =~= ".cast"@);
    assert(full.take(id.len() as int) =~= id);
    assert(".cast"@.is_suffix_of(full));
}

/// The encoding of the extension.
proof fn lemma_cast_bytes()
    ensures
        encode_utf8(".cast"@) == seq![0x2eu8] + encode_utf8("cast"@),
        encode_utf8("cast"@) == seq![0x63u8, 0x61u8, 0x73u8, 0x74u8],
{
    reveal_strlit(".cast");
    reveal_strlit("cast");
    is_ascii_chars_encode_utf8("cast"@);
    is_ascii_chars_encode_utf8(".cast"@);
    assert(encode_utf8("cast"@) =~= seq![0x63u8, 0x61u8, 0x73u8, 0x74u8]);
    assert(encode_utf8(".cast"@) =~= seq![0x2eu8] + encode_utf8("cast"@));
}

/// The file name of a session has the extension that sessions have, and the name of the session
/// before it.
pub proof fn law_cast_name(id: Seq<char>)
    requires
        id.len() > 0,
    ensures
        extension(encode_utf8(cast_name(id))) == Some(encode_utf8("cast"@)),
        stem(encode_utf8(cast_name(id))) == encode_utf8(id),
{
    let name = encode_utf8(cast_name(id));
    let head = encode_utf8(id);
    lemma_encode_concat(id, ".cast"@);
    lemma_cast_bytes();
    assert(name =~= head + seq![0x2eu8, 0x63u8, 0x61u8, 0x73u8, 0x74u8]);
    assert(encode_utf8(id).len() > 0) by {
        assert(encode_utf8(id) == encode_scalar(id[0] as u32) + encode_utf8(id.drop_first()));
    }
    let n = head.len() as int;
    lemma_last_of(name, DOT);
    let l = last_of(name, DOT);
    assert(name[n] == DOT);
    assert(name[n + 1] != DOT && name[n + 2] != DOT && name[n + 3] != DOT && name[n + 4] != DOT);
    assert(l == n);
    assert(name.skip(n + 1) =~= encode_utf8("cast"@));
    assert(name.take(n) =~= head);
}

/// No separator stands in the file name of a session if none stands in its name.
pub proof fn lemma_cast_name_plain(id: Seq<char>)
    requires
        forall|i: int| 0 <= i < id.len() ==> id[i] != '/',
    ensures
        forall|i: int|
            0 <= i < encode_utf8(cast_name(id)).len() ==> encode_utf8(cast_name(id))[i] != SEPARATOR,
{
    let text = cast_name(id);
    reveal_strlit(".cast");
    assert forall|i: int| 0 <= i < text.len() implies text[i] as u32 != SEPARATOR as u32 by {
        let c = text[i];
        if i >= id.len() {
            assert(c == ".cast"@[i - id.len()]);
        } else {
            assert(c == id[i]);
        }
        assert(c != '/');
        char_u32_cast(c, c as u32);
        char_u32_cast('/', '/' as u32);
    }
    lemma_ascii_bytes(text, SEPARATOR);
}

/// The session that was put into a directory under its file name goes by its own name.
pub proof fn law_session_of(dir: Seq<u8>, id: Seq<char>)
    requires
        dir.len() > 0,
        id.len() > 0,
        forall|i: int| 0 <= i < id.len() ==> id[i] != '/',
    ensures
        session_of(join(dir, encode_utf8(cast_name(id)))) == id,
{
    lemma_cast_name_plain(id);
    law_base_name_of_join(dir, encode_utf8(cast_name(id)));
    law_cast_name(id);
    encode_utf8_valid_utf8(id);
    encode_utf8_decode_utf8(id);
}

/// What `first_named` finds goes by the name and is one of the sessions; it finds one if there is
/// one.
proof fn lemma_first_named(paths: Seq<Seq<u8>>, id: Seq<char>)
    ensures
        match first_named(paths, id) {
            Some(p) => session_of(p) == id && paths.contains(p),
            None => forall|p: Seq<u8>| #[trigger] paths.contains(p) ==> session_of(p) != id,
        },
    decreases paths.len(),
{
    if paths.len() > 0 && session_of(paths[0]) != id {
        let rest = paths.drop_first();
        lemma_first_named(rest, id);
        match first_named(paths, id) {
            Some(p) => {
                let i = choose|i: int| 0 <= i < rest.len() && rest[i] == p;
                assert(paths[i + 1] == p);
            },
            None => {
                assert forall|p: Seq<u8>| #[trigger] paths.contains(p) implies session_of(p)
                    != id by {
                    let i = choose|i: int| 0 <= i < paths.len() && paths[i] == p;
                    if i > 0 {
                        assert(rest[i - 1] == p);
                        assert(rest.contains(p));
                    }
                }
            },
        }
    } else if paths.len() > 0 {
        assert(paths[0] == first_named(paths, id)->0);
    }
}

/// Directory `k` was read, and holds the session at `path`.
pub open spec fn holds(central: Seq<u8>, dirs: Seq<UserDir>, k: int, path: Seq<u8>) -> bool {
    &&& 0 <= k < dirs.len()
    &&& dirs[k].entries is Some
    &&& kept(central, dirs[k].user@, dirs[k].entries->0@).contains(path)
}

/// A directory from number `k` on, which belongs to `user`, holds the session at `path`.
pub open spec fn kept_for(
    central: Seq<u8>,
    dirs: Seq<UserDir>,
    k: int,
    path: Seq<u8>,
    user: Seq<char>,
) -> bool {
    exists|j: int| k <= j && #[trigger] holds(central, dirs, j, path) && dirs[j].user@ == user
}

/// A session that is found goes by the name, and is kept in the directory of its user. When none
/// is found, every directory was read and none holds one.
pub proof fn law_located(central: Seq<u8>, id: Seq<char>, dirs: Seq<UserDir>, k: int)
    requires
        0 <= k <= dirs.len() <= usize::MAX,
    ensures
        located(central, id, dirs, k) matches Ok((path, user)) ==> session_of(path) == id
            && kept_for(central, dirs, k, path, user),
        located(central, id, dirs, k) matches Err(StoreError::NotFound) ==> forall|
            j: int,
            path: Seq<u8>,
        |
            k <= j && #[trigger] holds(central, dirs, j, path) ==> session_of(path) != id,
        located(central, id, dirs, k) matches Err(StoreError::Unreadable(j)) ==> k <= j
            < dirs.len() && dirs[j as int].entries is None,
    decreases dirs.len() - k,
{
    if k < dirs.len() && dirs[k].entries is Some {
        let paths = kept(central, dirs[k].user@, dirs[k].entries->0@);
        lemma_first_named(paths, id);
        match first_named(paths, id) {
            Some(path) => {
                assert(holds(central, dirs, k, path));
                assert(kept_for(central, dirs, k, path, dirs[k].user@));
            },
            None => {
                law_located(central, id, dirs, k + 1);
                assert(located(central, id, dirs, k) == located(central, id, dirs, k + 1));
                if located(central, id, dirs, k) == Err::<(Seq<u8>, Seq<char>), StoreError>(
                    StoreError::NotFound,
                ) {
                    assert forall|j: int, path: Seq<u8>|
                        k <= j && #[trigger] holds(central, dirs, j, path) implies session_of(path)
                        != id by {
                        assert(j == k ==> paths.contains(path));
                    }
                }
            },
        }
    }
}

/// An entry that is a session is among the sessions of the directory.
proof fn lemma_casts_in(dir: Seq<u8>, entries: Seq<DirEntry>, i: int)
    requires
        0 <= i < entries.len(),
        cast_entry(entries[i]),
    ensures
        casts_in(dir, entries).contains(join(dir, entries[i].name@)),
    decreases entries.len(),
{
    let path = join(dir, entries[i].name@);
    let before = casts_in(dir, entries.drop_last());
    let all = casts_in(dir, entries);
    if i == entries.len() - 1 {
        assert(all[all.len() - 1] == path);
    } else {
        lemma_casts_in(dir, entries.drop_last(), i);
        assert(entries.drop_last()[i] == entries[i]);
        let j = choose|j: int| 0 <= j < before.len() && before[j] == path;
        assert(all[j] == path);
    }
}

/// The name of a session does not end with the extension, nor does a separator stand in it.
pub proof fn lemma_session_id(stamp: Seq<char>, pid: int)
    requires
        is_stamp(stamp),
    ensures
        session_id(stamp, pid).len() > 0,
        forall|i: int| 0 <= i < session_id(stamp, pid).len() ==> session_id(stamp, pid)[i] != '/',
        wanted(session_id(stamp, pid)) == session_id(stamp, pid),
{
    let id = session_id(stamp, pid);
    let number = signed_decimal(pid);
    reveal_strlit("-");
    reveal_strlit(".cast");
    lemma_decimal((if pid < 0 {
        -pid
    } else {
        pid
    }) as nat);
    assert(number.len() > 0);
    assert('0' <= number.last() && number.last() <= '9');
    assert forall|i: int| 0 <= i < id.len() implies id[i] != '/' by {
        if i < stamp.len() {
            assert(id[i] == stamp[i]);
        } else if i > stamp.len() {
            assert(id[i] == number[i - stamp.len() - 1]);
        }
    }
    assert(id.last() == number.last());
    if ".cast"@.is_suffix_of(id) {
        assert(id.skip(id.len() - 5)[4] == id.last());
        assert(id[id.len() - 1] == ".cast"@[4]);
    }
}

/// A session that was begun is found by its name, as long as every directory can be read.
pub proof fn law_begun_session_found(
    central: Seq<u8>,
    dirs: Seq<UserDir>,
    k: int,
    i: int,
    stamp: Seq<char>,
    pid: int,
)
    requires
        central.len() > 0,
        dirs.len() <= usize::MAX,
        forall|j: int| 0 <= j < dirs.len() ==> (#[trigger] dirs[j]).entries is Some,
        0 <= k < dirs.len(),
        0 <= i < dirs[k].entries->0@.len(),
        !dirs[k].entries->0@[i].is_symlink,
        is_stamp(stamp),
        dirs[k].entries->0@[i].name@ == encode_utf8(cast_name(session_id(stamp, pid))),
    ensures
        located(central, wanted(session_id(stamp, pid)), dirs, 0) is Ok,
        session_of(located(central, wanted(session_id(stamp, pid)), dirs, 0)->Ok_0.0)
            == session_id(stamp, pid),
{
    let id = session_id(stamp, pid);
    let entries = dirs[k].entries->0@;
    let dir = user_dir(central, dirs[k].user@);
    let path = join(dir, entries[i].name@);
    lemma_session_id(stamp, pid);
    law_cast_name(id);
    assert(dir.len() > 0);
    law_session_of(dir, id);
    lemma_casts_in(dir, entries, i);
    law_ordered_contains(casts_in(dir, entries), path);
    assert(holds(central, dirs, k, path));
    law_located(central, id, dirs, 0);
}

/// What was recorded is what is read: the lines of a recording come back from the file that the
/// daemon made of it, however they were cut into frames on the way.
pub proof fn law_recording_kept(
    key: Seq<u8>,
    prefix: Seq<u8>,
    chunks: Seq<Seq<u8>>,
    lines: Seq<Seq<u8>>,
)
    requires
        key.len() == KEY_SIZE,
        prefix.len() == 4,
        frames_open(key, prefix, 0, chunks),
        joined(chunks) == terminated(lines),
        forall|i: int| 0 <= i < lines.len() ==> one_line(#[trigger] lines[i]),
    ensures
        plain_cast(key, sealed(key, prefix, chunks)) == Ok::<Seq<u8>, CryptoError>(
            terminated(lines),
        ),
        byte_lines(terminated(lines)) == lines,
{
    law_sealed_opens(key, prefix, chunks);
    law_lines_read_back(lines);
}

/// A user is listed exactly when there is a directory of theirs.
pub proof fn law_users_listed(entries: Seq<DirEntry>, user: Seq<char>)
    ensures
        ordered_texts(user_names(entries)).contains(user) <==> exists|i: int|
            0 <= i < entries.len() && user_entry(#[trigger] entries[i]) && lossy(entries[i].name@)
                == user,
{
    law_ordered_texts_contains(user_names(entries), user);
    lemma_user_names(entries, user);
}

/// The same before the users are put in order.
proof fn lemma_user_names(entries: Seq<DirEntry>, user: Seq<char>)
    ensures
        user_names(entries).contains(user) <==> exists|i: int|
            0 <= i < entries.len() && user_entry(#[trigger] entries[i]) && lossy(entries[i].name@)
                == user,
    decreases entries.len(),
{
    if entries.len() > 0 {
        let fewer = entries.drop_last();
        let before = user_names(fewer);
        let all = user_names(entries);
        lemma_user_names(fewer, user);
        if before.contains(user) {
            let j = choose|j: int| 0 <= j < before.len() && before[j] == user;
            assert(all[j] == user);
            let i = choose|i: int|
                0 <= i < fewer.len() && user_entry(#[trigger] fewer[i]) && lossy(fewer[i].name@)
                    == user;
            assert(entries[i] == fewer[i]);
        }
        if exists|i: int|
            0 <= i < entries.len() && user_entry(#[trigger] entries[i]) && lossy(entries[i].name@)
                == user {
            let i = choose|i: int|
                0 <= i < entries.len() && user_entry(#[trigger] entries[i]) && lossy(
                    entries[i].name@,
                ) == user;
            if i == entries.len() - 1 {
                assert(all[all.len() - 1] == user);
            } else {
                assert(fewer[i] == entries[i]);
                assert(before.contains(user));
            }
        }
        if all.contains(user) && !before.contains(user) {
            let j = choose|j: int| 0 <= j < all.len() && all[j] == user;
            if j < before.len() {
                assert(before[j] == user);
            }
            assert(user_entry(entries[entries.len() - 1]));
        }
    }
}

/// A path is listed exactly when it is of a session that stands in the directory.
pub proof fn law_sessions_listed(dir: Seq<u8>, entries: Seq<DirEntry>, path: Seq<u8>)
    ensures
        cast_paths(dir, entries).contains(path) <==> exists|i: int|
            0 <= i < entries.len() && cast_entry(#[trigger] entries[i]) && join(dir, entries[i].name@)
                == path,
{
    law_ordered_contains(casts_in(dir, entries), path);
    if exists|i: int|
        0 <= i < entries.len() && cast_entry(#[trigger] entries[i]) && join(dir, entries[i].name@)
            == path {
        let i = choose|i: int|
            0 <= i < entries.len() && cast_entry(#[trigger] entries[i]) && join(
                dir,
                entries[i].name@,
            ) == path;
        lemma_casts_in(dir, entries, i);
    }
    if casts_in(dir, entries).contains(path) {
        lemma_casts_from(dir, entries, path);
    }
}

/// A session of the directory comes from one of its entries.
proof fn lemma_casts_from(dir: Seq<u8>, entries: Seq<DirEntry>, path: Seq<u8>)
    requires
        casts_in(dir, entries).contains(path),
    ensures
        exists|i: int|
            0 <= i < entries.len() && cast_entry(#[trigger] entries[i]) && join(dir, entries[i].name@)
                == path,
    decreases entries.len(),
{
    let fewer = entries.drop_last();
    let before = casts_in(dir, fewer);
    let all = casts_in(dir, entries);
    let j = choose|j: int| 0 <= j < all.len() && all[j] == path;
    if j < before.len() {
        assert(before[j] == path);
        lemma_casts_from(dir, fewer, path);
        let i = choose|i: int|
            0 <= i < fewer.len() && cast_entry(#[trigger] fewer[i]) && join(dir, fewer[i].name@)
                == path;
        assert(entries[i] == fewer[i]);
    } else {
        assert(cast_entry(entries[entries.len() - 1]));
    }
}

/// A local session whose name is text keeps its name when it is taken into the central store, and
/// is then listed there.
pub proof fn law_ingested_session_listed(
    central: Seq<u8>,
    user: Seq<char>,
    e: DirEntry,
    entries: Seq<DirEntry>,
    i: int,
)
    requires
        cast_entry(e),
        valid_utf8(e.name@),
        0 <= i < entries.len(),
        entries[i].name@ == encode_utf8(lossy(e.name@)),
        !entries[i].is_symlink,
    ensures
        entries[i].name@ == e.name@,
        kept(central, user, entries).contains(
            join(user_dir(central, user), encode_utf8(lossy(e.name@))),
        ),
{
    decode_utf8_encode_utf8(e.name@);
    law_sessions_listed(
        user_dir(central, user),
        entries,
        join(user_dir(central, user), entries[i].name@),
    );
    assert(cast_entry(entries[i]));
}

/// A path is among the old ones exactly when it is of a session in the directory that was written
/// last before the time.
pub proof fn law_old_sessions_listed(
    dir: Seq<u8>,
    entries: Seq<DirEntry>,
    before: i64,
    path: Seq<u8>,
)
    ensures
        old_cast_paths(dir, entries, before).contains(path) <==> exists|i: int|
            0 <= i < entries.len() && old_entry(#[trigger] entries[i], before) && join(
                dir,
                entries[i].name@,
            ) == path,
{
    law_ordered_contains(old_casts_in(dir, entries, before), path);
    lemma_old_casts(dir, entries, before, path);
}

/// The same before the sessions are put in order.
proof fn lemma_old_casts(dir: Seq<u8>, entries: Seq<DirEntry>, before: i64, path: Seq<u8>)
    ensures
        old_casts_in(dir, entries, before).contains(path) <==> exists|i: int|
            0 <= i < entries.len() && old_entry(#[trigger] entries[i], before) && join(
                dir,
                entries[i].name@,
            ) == path,
    decreases entries.len(),
{
    if entries.len() > 0 {
        let fewer = entries.drop_last();
        let first = old_casts_in(dir, fewer, before);
        let all = old_casts_in(dir, entries, before);
        lemma_old_casts(dir, fewer, before, path);
        if first.contains(path) {
            let j = choose|j: int| 0 <= j < first.len() && first[j] == path;
            assert(all[j] == path);
            let i = choose|i: int|
                0 <= i < fewer.len() && old_entry(#[trigger] fewer[i], before) && join(
                    dir,
                    fewer[i].name@,
                ) == path;
            assert(entries[i] == fewer[i]);
        }
        if exists|i: int|
            0 <= i < entries.len() && old_entry(#[trigger] entries[i], before) && join(
                dir,
                entries[i].name@,
            ) == path {
            let i = choose|i: int|
                0 <= i < entries.len() && old_entry(#[trigger] entries[i], before) && join(
                    dir,
                    entries[i].name@,
                ) == path;
            if i == entries.len() - 1 {
                assert(all[all.len() - 1] == path);
            } else {
                assert(fewer[i] == entries[i]);
                assert(first.contains(path));
            }
        }
        if all.contains(path) && !first.contains(path) {
            let j = choose|j: int| 0 <= j < all.len() && all[j] == path;
            if j < first.len() {
                assert(first[j] == path);
            }
            assert(old_entry(entries[entries.len() - 1], before));
        }
    }
}

/// What is left in the local directory once its sessions were taken into the central store.
pub open spec fn left_behind(entries: Seq<DirEntry>) -> Seq<DirEntry>
    decreases entries.len(),
{
    if entries.len() == 0 {
        entries
    } else if cast_entry(entries.last()) {
        left_behind(entries.drop_last())
    } else {
        left_behind(entries.drop_last()).push(entries.last())
    }
}

/// Taking the local sessions into the central store a second time, with nothing recorded since,
/// takes nothing; nor is anything taken where the directory is empty.
pub proof fn law_ingest_once(
    local: Seq<u8>,
    central: Seq<u8>,
    user: Seq<char>,
    entries: Seq<DirEntry>,
)
    ensures
        ingest_list(local, central, user, left_behind(entries)).len() == 0,
        ingest_list(local, central, user, entries).len() + left_behind(entries).len()
            == entries.len(),
        forall|i: int|
            0 <= i < left_behind(entries).len() ==> !cast_entry(#[trigger] left_behind(entries)[i]),
    decreases entries.len(),
{
    if entries.len() > 0 {
        let fewer = entries.drop_last();
        law_ingest_once(local, central, user, fewer);
        let before = left_behind(fewer);
        if !cast_entry(entries.last()) {
            let all = before.push(entries.last());
            assert(all.drop_last() =~= before);
            assert forall|i: int| 0 <= i < all.len() implies !cast_entry(#[trigger] all[i]) by {
                if i < before.len() {
                    assert(all[i] == before[i]);
                }
            }
        }
    }
}

/// A user has a directory, and no link, whose name is made of letters, digits, `_`, `-` and `.`.
pub proof fn law_user_entry(e: DirEntry)
    ensures
        user_entry(e) <==> e.is_dir && !e.is_symlink && forall|i: int|
            0 <= i < lossy(e.name@).len() ==> (unicode_alphanumeric(#[trigger] lossy(e.name@)[i])
                || lossy(e.name@)[i] == '_' || lossy(e.name@)[i] == '-' || lossy(e.name@)[i] == '.'),
{
    let name = lossy(e.name@);
    if user_entry(e) {
        assert forall|i: int| 0 <= i < name.len() implies (unicode_alphanumeric(#[trigger] name[i])
            || name[i] == '_' || name[i] == '-' || name[i] == '.') by {
            assert(user_char(name[i]));
        }
    }
    if forall|i: int|
        0 <= i < name.len() ==> (unicode_alphanumeric(#[trigger] name[i]) || name[i] == '_'
            || name[i] == '-' || name[i] == '.') {
        assert forall|i: int| 0 <= i < name.len() implies user_char(#[trigger] name[i]) by {}
    }
}

/// A session is no link, and its file name is something with `.cast` behind it.
pub proof fn law_cast_entry(e: DirEntry, name: Seq<u8>)
    ensures
        cast_entry(e) ==> !e.is_symlink && e.name@.len() > 5 && e.name@.skip(e.name@.len() - 5)
            == encode_utf8(".cast"@),
        !e.is_symlink && name.len() > 0 && e.name@ == name + encode_utf8(".cast"@) ==> cast_entry(e),
{
    lemma_cast_bytes();
    let tail = encode_utf8("cast"@);
    assert(encode_utf8(".cast"@) =~= seq![DOT] + tail);
    if cast_entry(e) {
        let n = split_dot(e.name@);
        lemma_last_of(e.name@, DOT);
        assert(e.name@.skip(n + 1) == tail);
        assert(e.name@.skip(n) =~= seq![DOT] + tail);
        assert(n == e.name@.len() - 5);
    }
    if !e.is_symlink && name.len() > 0 && e.name@ == name + encode_utf8(".cast"@) {
        assert(e.name@ =~= name.push(DOT) + tail);
        assert(e.name@.len() > 2);
        law_stem_extension(name, tail);
    }
}

/// An old session is one that was written last before the time, and no other.
pub proof fn law_old_entry(e: DirEntry, before: i64)
    ensures
        old_entry(e, before) <==> cast_entry(e) && e.modified < before,
        cast_entry(e) ==> (old_entry(e, before) <==> !(before <= e.modified)),
{
}

/// A name that does not end with the extension is meant as it is.
pub proof fn law_plain_id(id: Seq<char>)
    requires
        !".cast"@.is_suffix_of(id),
    ensures
        wanted(id) == id,
{
}

/// A session that is found is the first that goes by the name: no user before its user has one,
/// and of that user no session before it does.
pub proof fn law_located_first(central: Seq<u8>, id: Seq<char>, dirs: Seq<UserDir>, k: int)
    requires
        0 <= k <= dirs.len(),
        located(central, id, dirs, k) is Ok,
    ensures
        exists|j: int|
            k <= j < dirs.len() && (#[trigger] dirs[j]).entries is Some && dirs[j].user@ == located(
                central,
                id,
                dirs,
                k,
            )->Ok_0.1 && found_first(
                kept(central, dirs[j].user@, dirs[j].entries->0@),
                id,
                located(central, id, dirs, k)->Ok_0.0,
            ) && forall|l: int|
                k <= l < j ==> (#[trigger] dirs[l]).entries is Some && forall|p: Seq<u8>| #[trigger]
                    kept(central, dirs[l].user@, dirs[l].entries->0@).contains(p) ==> session_of(p)
                        != id,
    decreases dirs.len() - k,
{
    let paths = kept(central, dirs[k].user@, dirs[k].entries->0@);
    lemma_first_named(paths, id);
    match first_named(paths, id) {
        Some(path) => {
            lemma_found_first(paths, id);
            assert(dirs[k].entries is Some);
        },
        None => {
            law_located_first(central, id, dirs, k + 1);
            let j = choose|j: int|
                k + 1 <= j < dirs.len() && (#[trigger] dirs[j]).entries is Some && dirs[j].user@
                    == located(central, id, dirs, k + 1)->Ok_0.1 && found_first(
                    kept(central, dirs[j].user@, dirs[j].entries->0@),
                    id,
                    located(central, id, dirs, k + 1)->Ok_0.0,
                ) && forall|l: int|
                    k + 1 <= l < j ==> (#[trigger] dirs[l]).entries is Some && forall|p: Seq<u8>|
                        #[trigger]
                        kept(central, dirs[l].user@, dirs[l].entries->0@).contains(p)
                            ==> session_of(p) != id;
            assert(dirs[j].entries is Some);
        },
    }
}

/// `path` is the first of some sessions that goes by a name.
pub open spec fn found_first(paths: Seq<Seq<u8>>, id: Seq<char>, path: Seq<u8>) -> bool {
    exists|i: int|
        0 <= i < paths.len() && #[trigger] paths[i] == path && session_of(path) == id && forall|j: int|
            0 <= j < i ==> session_of(#[trigger] paths[j]) != id
}

/// `first_named` finds the first.
proof fn lemma_found_first(paths: Seq<Seq<u8>>, id: Seq<char>)
    requires
        first_named(paths, id) is Some,
    ensures
        found_first(paths, id, first_named(paths, id)->0),
    decreases paths.len(),
{
    let path = first_named(paths, id)->0;
    if session_of(paths[0]) == id {
        assert(paths[0] == path);
    } else {
        let rest = paths.drop_first();
        lemma_found_first(rest, id);
        let i = choose|i: int|
            0 <= i < rest.len() && #[trigger] rest[i] == path && session_of(path) == id && forall|
                j: int,
            |
                0 <= j < i ==> session_of(#[trigger] rest[j]) != id;
        assert(paths[i + 1] == path);
        assert forall|j: int| 0 <= j < i + 1 implies session_of(#[trigger] paths[j]) != id by {
            if j > 0 {
                assert(paths[j] == rest[j - 1]);
            }
        }
    }
}

/// A file that does not begin with a magic header is read as it is; of another, what it holds, or
/// why it cannot be opened.
pub proof fn law_plain_cast(key: Seq<u8>, data: Seq<u8>)
    ensures
        !encrypted(data) ==> plain_cast(key, data) == Ok::<Seq<u8>, CryptoError>(data),
        encrypted(data) && opened(key, data).1 is Ok ==> plain_cast(key, data) == Ok::<
            Seq<u8>,
            CryptoError,
        >(opened(key, data).0),
        encrypted(data) && opened(key, data).1 is Err ==> plain_cast(key, data) == Err::<
            Seq<u8>,
            CryptoError,
        >(opened(key, data).1->Err_0),
{
}

/// A time of so many hours, minutes and seconds is written with these numbers; hours that are none
/// are left out, and so are minutes where there are no hours.
pub proof fn law_duration_text(h: nat, m: nat, s: nat)
    requires
        m < 60,
        s < 60,
    ensures
        h > 0 ==> duration_text((h * 3600 + m * 60 + s) as int) == decimal(h) + "h"@ + two_digits(m) + "m"@
            + two_digits(s) + "s"@,
        h == 0 && m > 0 ==> duration_text((m * 60 + s) as int) == decimal(m) + "m"@ + two_digits(s)
            + "s"@,
        h == 0 && m == 0 ==> duration_text(s as int) == decimal(s) + "s"@,
{
    let t = (h * 3600 + m * 60 + s) as int;
    assert(t / 3600 == h);
    assert(t / 60 == h * 60 + m);
    assert(t / 60 % 60 == m);
    assert(t % 60 == s);
}

/// A recording is as long as its last event says, and one without events takes no time; of one
/// that could not be read to its end that is not known.
pub proof fn law_cast_duration(cast: Cast, before: Seq<Event>, last: Event)
    ensures
        !cast.intact ==> cast_duration(cast) is None,
        cast.intact && cast.events@ == before.push(last) ==> cast_duration(cast) == Some(
            duration_text(whole(last.0, u64::MAX as int)),
        ),
        cast.intact && cast.events@.len() == 0 ==> cast_duration(cast) == Some("0s"@),
{
    reveal_strlit("0s");
    reveal_strlit("s");
    if cast.intact && cast.events@.len() == 0 {
        assert(whole(0, u64::MAX as int) == 0);
        assert(decimal(0) =~= seq!['0']);
        assert(duration_text(0) =~= "0s"@);
    }
}

/// A session is taken into the central store from the local directory under its own name, and into
/// the directory of the user; what is no session is not.
pub proof fn law_ingest_moves(
    local: Seq<u8>,
    central: Seq<u8>,
    user: Seq<char>,
    entries: Seq<DirEntry>,
    source: Seq<u8>,
    dest: Seq<u8>,
)
    ensures
        ingest_list(local, central, user, entries).contains((source, dest)) <==> exists|i: int|
            0 <= i < entries.len() && cast_entry(#[trigger] entries[i]) && source == join(
                local,
                entries[i].name@,
            ) && dest == join(join(central, encode_utf8(user)), encode_utf8(lossy(entries[i].name@))),
    decreases entries.len(),
{
    if entries.len() > 0 {
        let fewer = entries.drop_last();
        let before = ingest_list(local, central, user, fewer);
        let all = ingest_list(local, central, user, entries);
        let pair = (source, dest);
        law_ingest_moves(local, central, user, fewer, source, dest);
        if before.contains(pair) {
            let j = choose|j: int| 0 <= j < before.len() && before[j] == pair;
            assert(all[j] == pair);
            let i = choose|i: int|
                0 <= i < fewer.len() && cast_entry(#[trigger] fewer[i]) && source == join(
                    local,
                    fewer[i].name@,
                ) && dest == join(
                    join(central, encode_utf8(user)),
                    encode_utf8(lossy(fewer[i].name@)),
                );
            assert(entries[i] == fewer[i]);
        }
        if all.contains(pair) && !before.contains(pair) {
            let j = choose|j: int| 0 <= j < all.len() && all[j] == pair;
            if j < before.len() {
                assert(before[j] == pair);
            }
            assert(cast_entry(entries[entries.len() - 1]));
        }
        if exists|i: int|
            0 <= i < entries.len() && cast_entry(#[trigger] entries[i]) && source == join(
                local,
                entries[i].name@,
            ) && dest == join(
                join(central, encode_utf8(user)),
                encode_utf8(lossy(entries[i].name@)),
            ) {
            let i = choose|i: int|
                0 <= i < entries.len() && cast_entry(#[trigger] entries[i]) && source == join(
                    local,
                    entries[i].name@,
                ) && dest == join(
                    join(central, encode_utf8(user)),
                    encode_utf8(lossy(entries[i].name@)),
                );
            if i == entries.len() - 1 {
                assert(all[all.len() - 1] == pair);
            } else {
                assert(fewer[i] == entries[i]);
                assert(before.contains(pair));
            }
        }
    }
}

/// The row of a session shows its name, when it began, how long it is and its command, in this
/// order, with a mark for what is not known.
pub proof fn law_session_row(name: Seq<char>, cast: Option<Cast>, started: Option<String>)
    ensures
        session_row(name, cast, started) == left_column("SAVED"@, 8) + " "@ + left_column(name, 29)
            + " "@ + left_column(
            if started is Some {
                started->0@
            } else {
                "?"@
            },
            20,
        ) + " "@ + left_column(
            if cast is Some && cast->0.intact {
                cast_duration(cast->0)->0
            } else {
                "-"@
            },
            10,
        ) + " "@ + if cast is Some {
            cast->0.header.command@
        } else {
            "(unreadable)"@
        },
{
    reveal_strlit(" ");
    assert(" "@ =~= seq![' ']);
    let a = left("SAVED"@, 8);
    let b = left(name, 29);
    let c = left(text_or(started, "?"@), 20);
    let length = if cast is Some && cast->0.intact {
        cast_duration(cast->0)->0
    } else {
        "-"@
    };
    let command = if cast is Some {
        cast->0.header.command@
    } else {
        "(unreadable)"@
    };
    let d = left(length, 10);
    let e = plain(command);
    law_row(seq![a], a);
    law_row(seq![a], b);
    assert(seq![a].push(b) =~= seq![a, b]);
    law_row(seq![a, b], c);
    assert(seq![a, b].push(c) =~= seq![a, b, c]);
    law_row(seq![a, b, c], d);
    assert(seq![a, b, c].push(d) =~= seq![a, b, c, d]);
    law_row(seq![a, b, c, d], e);
    assert(seq![a, b, c, d].push(e) =~= seq![a, b, c, d, e]);
    assert(rendered(e) =~= command);
}

/// A list of sessions has a row for each, in order, with the name of its file and with the time of
/// its header, shifted by less than a day; the time is left open only where there is no header, or
/// no date for it.
pub proof fn law_shows_sessions(
    lines: Seq<Seq<char>>,
    head: Seq<char>,
    sessions: Seq<ListedSession>,
    i: int,
)
    requires
        shows_sessions(lines, head, sessions),
        0 <= i < sessions.len(),
    ensures
        lines.len() == sessions.len() + 1,
        lines[0] == head,
        sessions[i].cast is None ==> lines[i + 1] == session_row(
            lossy(base_name(sessions[i].path@)),
            None,
            None,
        ),
        sessions[i].cast is Some ==> exists|started: Option<String>|
            lines[i + 1] == #[trigger] session_row(
                lossy(base_name(sessions[i].path@)),
                sessions[i].cast,
                started,
            ) && (started is Some <==> -8_334_601_228_800 <= sessions[i].cast->0.header.timestamp
                <= 8_210_266_876_799) && (started is Some ==> exists|t: int|
                sessions[i].cast->0.header.timestamp - 86_400 < t
                    < sessions[i].cast->0.header.timestamp + 86_400 && started->0@
                    == #[trigger] civil_text(t, "%Y-%m-%d %H:%M:%S"@)),
{
    let name = lossy(base_name(sessions[i].path@));
    let cast = sessions[i].cast;
    assert(shows_session(lines[i + 1], name, cast));
    let started = choose|started: Option<String>| #[trigger]
        starts(cast, started) && lines[i + 1] == session_row(name, cast, started);
    assert(lines[i + 1] == session_row(name, cast, started));
}

/// Two sessions have the same name only if they were begun at the same time by the same process.
pub proof fn law_session_ids_differ(stamp: Seq<char>, pid: int, other: Seq<char>, number: int)
    requires
        stamp.len() == other.len(),
        session_id(stamp, pid) == session_id(other, number),
    ensures
        stamp == other,
        pid == number,
        session_id(stamp, pid) == stamp.push('-') + signed_decimal(pid),
{
    let (a, b) = (session_id(stamp, pid), session_id(other, number));
    let n = stamp.len() as int;
    reveal_strlit("-");
    assert("-"@ =~= seq!['-']);
    assert(a =~= stamp.push('-') + signed_decimal(pid));
    assert(a.take(n) =~= stamp);
    assert(b.take(n) =~= other);
    assert(a.skip(n + 1) =~= signed_decimal(pid));
    assert(b.skip(n + 1) =~= signed_decimal(number));
    law_decimals_differ(pid, number);
}

} // verus!
