//! The daemon: what it answers to a request, and the sessions that are being recorded through it.

use crate::config::Config;
use crate::format::prefixed;
use crate::outside::is_stamp;
use crate::path::{base_name, join, join_path, law_base_name_of_join};
use crate::store::{
    cast_name, law_extension_optional, lemma_cast_name_plain, lemma_session_id, new_id, session_id,
    user_dir, wanted, wanted_session,
};
use crate::text::{
    after_prefix, copy_bytes, law_after_prefix, same_text, strip_prefix, trim, trimmed,
};
use vstd::hash_map::StringHashMap;
use vstd::prelude::*;
use vstd::string::*;
use vstd::utf8::*;

verus! {

/// The sessions that are being recorded, by name, and where each is kept.
pub struct Registry {
    live: StringHashMap<Vec<u8>>,
}

/// The sessions that are being recorded.
pub type Live = Map<Seq<char>, Seq<u8>>;

impl View for Registry {
    type V = Live;

    closed spec fn view(&self) -> Live {
        self.live@.map_values(|path: Vec<u8>| path@)
    }
}

impl Registry {
    /// There are finitely many sessions.
    pub open spec fn wf(&self) -> bool {
        self@.dom().finite()
    }

    /// No session is being recorded.
    pub fn new() -> (r: Self)
        ensures
            r.wf(),
            r@ == Live::empty(),
    {
        let r = Registry { live: StringHashMap::new() };
        assert(r@ =~= Live::empty());
        r
    }

    /// How many sessions are being recorded.
    pub fn len(&self) -> (r: usize)
        ensures
            r == self@.len(),
    {
        assert(self@.dom() =~= self.live@.dom());
        self.live.len()
    }

    /// Enters a session that begins.
    pub fn insert(&mut self, id: String, path: Vec<u8>)
        ensures
            old(self).wf() ==> final(self).wf(),
            final(self)@ == old(self)@.insert(id@, path@),
    {
        self.live.insert(id, path);
        assert(self@ =~= old(self)@.insert(id@, path@));
    }

    /// Takes out a session that ended.
    pub fn remove(&mut self, id: &str)
        ensures
            old(self).wf() ==> final(self).wf(),
            final(self)@ == old(self)@.remove(id@),
    {
        self.live.remove(id);
        assert(self@ =~= old(self)@.remove(id@));
    }

    /// Where a session that is being recorded is kept.
    pub fn get(&self, id: &str) -> (r: Option<Vec<u8>>)
        ensures
            match r {
                Some(path) => self@.contains_key(id@) && path@ == self@[id@],
                None => !self@.contains_key(id@),
            },
    {
        match self.live.get(id) {
            Some(path) => Some(copy_bytes(path.as_slice())),
            None => None,
        }
    }
}

/// What the daemon does with a request.
#[derive(Debug)]
pub enum Action {
    /// It records what follows.
    Record,
    /// It shows the session that goes by this name.
    Tail(String),
    /// It answers with this line.
    Refuse(&'static str),
}

/// What the daemon does with a request.
pub enum ActionView {
    Record,
    Tail(Seq<char>),
    Refuse(Seq<char>),
}

impl View for Action {
    type V = ActionView;

    open spec fn view(&self) -> ActionView {
        match *self {
            Action::Record => ActionView::Record,
            Action::Tail(id) => ActionView::Tail(id@),
            Action::Refuse(line) => ActionView::Refuse(line@),
        }
    }
}

/// What the daemon does with a request that user `uid` makes while `live` sessions are being
/// recorded, of which there may be `cap`.
pub open spec fn decided(line: Seq<char>, uid: u32, live: nat, cap: nat) -> ActionView {
    let request = trim(line);
    if request == "REC"@ {
        if live >= cap {
            ActionView::Refuse("ERR session cap reached\n"@)
        } else {
            ActionView::Record
        }
    } else {
        match after_prefix(request, "TAIL "@) {
            Some(id) => if uid != 0 {
                ActionView::Refuse("ERR tail requires root\n"@)
            } else {
                ActionView::Tail(trim(id))
            },
            None => ActionView::Refuse("ERR unknown command\n"@),
        }
    }
}

/// What the daemon does with a request that user `uid` makes.
pub fn handle(line: &str, uid: u32, cfg: &Config, registry: &Registry) -> (r: Action)
    ensures
        r@ == decided(line@, uid, registry@.len(), cfg.session_cap as nat),
{
    let request = trimmed(line);
    if same_text(request.as_str(), "REC") {
        if registry.len() >= cfg.session_cap {
            return Action::Refuse("ERR session cap reached\n");
        }
        return Action::Record;
    }
    match strip_prefix(request.as_str(), "TAIL ") {
        Some(id) => {
            if uid != 0 {
                return Action::Refuse("ERR tail requires root\n");
            }
            Action::Tail(trimmed(id.as_str()))
        },
        None => Action::Refuse("ERR unknown command\n"),
    }
}

/// Where the session `id` of a user is kept.
pub open spec fn session_path(central: Seq<u8>, user: Seq<char>, id: Seq<char>) -> Seq<u8> {
    join(user_dir(central, user), encode_utf8(cast_name(id)))
}

/// Where the session `id` of a user is kept.
pub fn path_of_session(cfg: &Config, user: &str, id: &str) -> (r: Vec<u8>)
    ensures
        r@ == session_path(cfg@.central_dir, user@, id@),
{
    let dir = join_path(cfg.central_dir.as_slice(), user.as_bytes());
    let name = prefixed(id, ".cast");
    join_path(dir.as_slice(), name.as_str().as_bytes())
}

/// The name of a session that a user begins now through process `pid`, and where it is kept.
pub fn handle_rec(cfg: &Config, user: &str, pid: i32) -> (r: (String, Vec<u8>))
    ensures
        exists|stamp: Seq<char>|
            is_stamp(stamp) && r.0@ == #[trigger] session_id(stamp, pid as int),
        r.1@ == session_path(cfg@.central_dir, user@, r.0@),
{
    let id = new_id(pid as i64);
    let path = path_of_session(cfg, user, id.as_str());
    (id, path)
}

/// Where the session is kept that a user means by `id`, or what the daemon answers where it is not
/// being recorded.
pub open spec fn followed(live: Live, id: Seq<char>) -> Result<Seq<u8>, Seq<char>> {
    if live.contains_key(wanted(id)) {
        Ok(live[wanted(id)])
    } else {
        Err("ERR no active session "@ + wanted(id) + "\n"@)
    }
}

/// Where the session is kept that a user means by `id`, or what the daemon answers where it is not
/// being recorded.
pub fn handle_tail(registry: &Registry, id: &str) -> (r: Result<Vec<u8>, String>)
    ensures
        match followed(registry@, id@) {
            Ok(path) => r is Ok && r->Ok_0@ == path,
            Err(line) => r is Err && r->Err_0@ == line,
        },
{
    let id = wanted_session(id);
    match registry.get(id.as_str()) {
        Some(path) => Ok(path),
        None => {
            let mut out = prefixed("ERR no active session ", id.as_str());
            out.append("\n");
            Err(out)
        },
    }
}

/// While a session is being recorded it can be followed by its name, with the extension and
/// without it.
pub proof fn law_begun_session_followed(live: Live, stamp: Seq<char>, pid: int, path: Seq<u8>)
    requires
        is_stamp(stamp),
    ensures
        followed(live.insert(session_id(stamp, pid), path), session_id(stamp, pid)) == Ok::<
            Seq<u8>,
            Seq<char>,
        >(path),
        followed(live.insert(session_id(stamp, pid), path), cast_name(session_id(stamp, pid)))
            == Ok::<Seq<u8>, Seq<char>>(path),
{
    lemma_session_id(stamp, pid);
    law_extension_optional(session_id(stamp, pid));
}

/// A session that ended cannot be followed any more, and the others can as before.
pub proof fn law_ended_session_gone(live: Live, id: Seq<char>, other: Seq<char>)
    ensures
        followed(live.remove(wanted(id)), id) is Err,
        wanted(other) != wanted(id) ==> followed(live.remove(wanted(id)), other) == followed(
            live,
            other,
        ),
{
}

/// Recording one more session when the daemon agrees to it does not exceed the cap.
pub proof fn law_cap_kept(
    line: Seq<char>,
    uid: u32,
    live: Live,
    cap: nat,
    id: Seq<char>,
    path: Seq<u8>,
)
    requires
        live.dom().finite(),
        decided(line, uid, live.len(), cap) is Record,
    ensures
        live.insert(id, path).len() <= cap,
{
    assert(live.insert(id, path).dom() =~= live.dom().insert(id));
}

/// Only the superuser gets to follow a session.
pub proof fn law_only_root_follows(line: Seq<char>, uid: u32, live: nat, cap: nat)
    requires
        decided(line, uid, live, cap) is Tail,
    ensures
        uid == 0,
{
}

/// A session that is begun through the daemon is kept right in the directory of its user.
pub proof fn law_session_stays_inside(
    central: Seq<u8>,
    user: Seq<char>,
    stamp: Seq<char>,
    pid: int,
)
    requires
        central.len() > 0,
        is_stamp(stamp),
    ensures
        user_dir(central, user).is_prefix_of(session_path(central, user, session_id(stamp, pid))),
        base_name(session_path(central, user, session_id(stamp, pid))) == encode_utf8(
            cast_name(session_id(stamp, pid)),
        ),
{
    let id = session_id(stamp, pid);
    lemma_session_id(stamp, pid);
    lemma_cast_name_plain(id);
    law_base_name_of_join(user_dir(central, user), encode_utf8(cast_name(id)));
}

/// A request to record is granted exactly while there are fewer sessions than the cap, whoever
/// makes it, and whatever white space is around it.
pub proof fn law_record_request(line: Seq<char>, uid: u32, live: nat, cap: nat)
    requires
        trim(line) == "REC"@,
    ensures
        live < cap ==> decided(line, uid, live, cap) == ActionView::Record,
        live >= cap ==> decided(line, uid, live, cap) == ActionView::Refuse(
            "ERR session cap reached\n"@,
        ),
{
}

/// A request to follow a session gives the superuser the session that is named, however many are
/// being recorded, and refuses others.
pub proof fn law_tail_request(line: Seq<char>, id: Seq<char>, uid: u32, live: nat, cap: nat)
    requires
        trim(line) == "TAIL "@ + id,
    ensures
        uid == 0 ==> decided(line, uid, live, cap) == ActionView::Tail(trim(id)),
        uid != 0 ==> decided(line, uid, live, cap) == ActionView::Refuse("ERR tail requires root\n"@),
{
    reveal_strlit("REC");
    reveal_strlit("TAIL ");
    let request = "TAIL "@ + id;
    assert(request[0] == 'T');
    assert("REC"@[0] == 'R');
    law_after_prefix(request, "TAIL "@, id);
}

/// Any other request is refused.
pub proof fn law_other_request(line: Seq<char>, uid: u32, live: nat, cap: nat)
    requires
        trim(line) != "REC"@,
        forall|id: Seq<char>| trim(line) != #[trigger] ("TAIL "@ + id),
    ensures
        decided(line, uid, live, cap) == ActionView::Refuse("ERR unknown command\n"@),
{
    if let Some(id) = after_prefix(trim(line), "TAIL "@) {
        law_after_prefix(trim(line), "TAIL "@, id);
        assert(trim(line) == "TAIL "@ + id);
    }
}

/// What the daemon answers where a session is not being recorded names it without the extension.
pub proof fn law_not_followed(live: Live, id: Seq<char>)
    requires
        !live.contains_key(wanted(id)),
    ensures
        followed(live, id) == Err::<Seq<u8>, Seq<char>>(
            "ERR no active session "@ + wanted(id) + "\n"@,
        ),
{
}

/// A session is kept in the central store, in the directory of its user, in a file of its name.
pub proof fn law_session_path(central: Seq<u8>, user: Seq<char>, id: Seq<char>)
    ensures
        session_path(central, user, id) == join(
            join(central, encode_utf8(user)),
            encode_utf8(id + ".cast"@),
        ),
{
}

} // verus!
