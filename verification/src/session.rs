//! Sessions read from Codex JSONL rollout logs: the per-line state machine that
//! builds a session, the identifier taken from a rollout file name, and the
//! turn counts.
use vstd::prelude::*;
use crate::json::{content_text, content_text_exec, get_string, get_string_exec, payload_string,
    payload_string_exec,
};
use crate::redact::{is_noise, is_noise_chars, sanitize_chars, sanitized};
use crate::text::{
    chars_eq, chars_eq_str, chars_of, ends_with, ends_with_exec, find_char_in, find_char_in_exec,
    lemma_find_char_in, slice_copy, starts_with, starts_with_exec, string_of,
};

verus! {

/// One message of a session.
#[derive(Clone)]
pub struct Message {
    pub timestamp: String,
    pub role: String,
    pub text: String,
}

/// Model of a message.
pub struct MessageView {
    pub timestamp: Seq<char>,
    pub role: Seq<char>,
    pub text: Seq<char>,
}

impl View for Message {
    type V = MessageView;

    open spec fn view(&self) -> MessageView {
        MessageView { timestamp: self.timestamp@, role: self.role@, text: self.text@ }
    }
}

/// A local session, as summarised from its rollout log.
#[derive(Clone)]
pub struct Session {
    pub id: String,
    /// The log's path, as text.
    pub path: String,
    pub first_timestamp: String,
    pub last_timestamp: String,
    pub cwd: String,
    pub provider: String,
    pub model: String,
    pub source: String,
    pub thread_name: String,
    pub messages: Vec<Message>,
    pub errors: Vec<String>,
    pub event_types: Vec<String>,
}

/// Model of a session.
pub struct SessionView {
    pub id: Seq<char>,
    pub path: Seq<char>,
    pub first_timestamp: Seq<char>,
    pub last_timestamp: Seq<char>,
    pub cwd: Seq<char>,
    pub provider: Seq<char>,
    pub model: Seq<char>,
    pub source: Seq<char>,
    pub thread_name: Seq<char>,
    pub messages: Seq<MessageView>,
    pub errors: Seq<Seq<char>>,
    pub event_types: Seq<Seq<char>>,
}

/// The views of a sequence of strings.
pub open spec fn strings_view(v: Seq<String>) -> Seq<Seq<char>> {
    v.map_values(|s: String| s@)
}

impl View for Session {
    type V = SessionView;

    open spec fn view(&self) -> SessionView {
        SessionView {
            id: self.id@,
            path: self.path@,
            first_timestamp: self.first_timestamp@,
            last_timestamp: self.last_timestamp@,
            cwd: self.cwd@,
            provider: self.provider@,
            model: self.model@,
            source: self.source@,
            thread_name: self.thread_name@,
            messages: self.messages@.map_values(|m: Message| m@),
            errors: strings_view(self.errors@),
            event_types: strings_view(self.event_types@),
        }
    }
}

// ---------------------------------------------------------------------------
// Turn counts
// ---------------------------------------------------------------------------

/// Number of messages with the given role.
pub open spec fn count_role(ms: Seq<MessageView>, role: Seq<char>) -> nat
    decreases ms.len(),
{
    if ms.len() == 0 {
        0
    } else {
        count_role(ms.drop_last(), role) + if ms.last().role == role {
            1nat
        } else {
            0nat
        }
    }
}

/// Number of occurrences of `e` in `es`.
pub open spec fn count_eq(es: Seq<Seq<char>>, e: Seq<char>) -> nat
    decreases es.len(),
{
    if es.len() == 0 {
        0
    } else {
        count_eq(es.drop_last(), e) + if es.last() == e {
            1nat
        } else {
            0nat
        }
    }
}

proof fn lemma_count_role_le(ms: Seq<MessageView>, role: Seq<char>)
    ensures
        count_role(ms, role) <= ms.len(),
    decreases ms.len(),
{
    if ms.len() > 0 {
        lemma_count_role_le(ms.drop_last(), role);
    }
}

proof fn lemma_count_eq_le(es: Seq<Seq<char>>, e: Seq<char>)
    ensures
        count_eq(es, e) <= es.len(),
    decreases es.len(),
{
    if es.len() > 0 {
        lemma_count_eq_le(es.drop_last(), e);
    }
}

fn count_messages_with_role(ms: &Vec<Message>, role: &str) -> (n: usize)
    ensures
        n == count_role(ms@.map_values(|m: Message| m@), role@),
{
    let r = chars_of(role);
    let ghost mv = ms@.map_values(|m: Message| m@);
    let mut n: usize = 0;
    let mut i: usize = 0;
    while i < ms.len()
        invariant
            i <= ms.len(),
            mv == ms@.map_values(|m: Message| m@),
            r@ == role@,
            n == count_role(mv.take(i as int), role@),
        decreases ms.len() - i,
    {
        proof {
            assert(mv.take(i + 1).drop_last() =~= mv.take(i as int));
            lemma_count_role_le(mv.take(i as int), role@);
        }
        let mr = chars_of(ms[i].role.as_str());
        if chars_eq(mr.as_slice(), r.as_slice()) {
            n = n + 1;
        }
        i = i + 1;
    }
    assert(mv.take(ms.len() as int) =~= mv);
    n
}

fn count_strings_equal(es: &Vec<String>, e: &str) -> (n: usize)
    ensures
        n == count_eq(strings_view(es@), e@),
{
    let r = chars_of(e);
    let ghost ev = strings_view(es@);
    let mut n: usize = 0;
    let mut i: usize = 0;
    while i < es.len()
        invariant
            i <= es.len(),
            ev == strings_view(es@),
            r@ == e@,
            n == count_eq(ev.take(i as int), e@),
        decreases es.len() - i,
    {
        proof {
            assert(ev.take(i + 1).drop_last() =~= ev.take(i as int));
            lemma_count_eq_le(ev.take(i as int), e@);
        }
        let x = chars_of(es[i].as_str());
        if chars_eq(x.as_slice(), r.as_slice()) {
            n = n + 1;
        }
        i = i + 1;
    }
    assert(ev.take(es.len() as int) =~= ev);
    n
}

impl Session {
    /// A session of the log at `path` with nothing read yet.
    pub fn new(path: String) -> (s: Session)
        ensures
            s@ == empty_session(path@),
    {
        let s = Session {
            id: String::new(),
            path,
            first_timestamp: String::new(),
            last_timestamp: String::new(),
            cwd: String::new(),
            provider: String::new(),
            model: String::new(),
            source: String::new(),
            thread_name: String::new(),
            messages: Vec::new(),
            errors: Vec::new(),
            event_types: Vec::new(),
        };
        assert(s@.messages =~= Seq::<MessageView>::empty());
        assert(s@.errors =~= Seq::<Seq<char>>::empty());
        assert(s@.event_types =~= Seq::<Seq<char>>::empty());
        s
    }

    /// Number of user messages.
    pub fn user_turns(&self) -> (n: usize)
        ensures
            n == count_role(self@.messages, "user"@),
    {
        count_messages_with_role(&self.messages, "user")
    }

    /// Number of assistant messages.
    pub fn assistant_turns(&self) -> (n: usize)
        ensures
            n == count_role(self@.messages, "assistant"@),
    {
        count_messages_with_role(&self.messages, "assistant")
    }

    /// Number of recorded `turn_aborted` events.
    pub fn aborted_turns(&self) -> (n: usize)
        ensures
            n == count_eq(self@.event_types, "turn_aborted"@),
    {
        count_strings_equal(&self.event_types, "turn_aborted")
    }

    /// Number of recorded `thread_rolled_back` events.
    pub fn rolled_back_turns(&self) -> (n: usize)
        ensures
            n == count_eq(self@.event_types, "thread_rolled_back"@),
    {
        count_strings_equal(&self.event_types, "thread_rolled_back")
    }
}

// ---------------------------------------------------------------------------
// Reading a log
// ---------------------------------------------------------------------------

/// A session of the log at `path` with nothing read yet.
pub open spec fn empty_session(path: Seq<char>) -> SessionView {
    SessionView {
        id: seq![],
        path: path,
        first_timestamp: seq![],
        last_timestamp: seq![],
        cwd: seq![],
        provider: seq![],
        model: seq![],
        source: seq![],
        thread_name: seq![],
        messages: seq![],
        errors: seq![],
        event_types: seq![],
    }
}

/// The value found, or the empty text.
pub open spec fn or_empty(o: Option<Seq<char>>) -> Seq<char> {
    match o {
        Some(v) => v,
        None => seq![],
    }
}

/// The value found, or `d`.
pub open spec fn or_else(o: Option<Seq<char>>, d: Seq<char>) -> Seq<char> {
    match o {
        Some(v) => v,
        None => d,
    }
}

/// One of the last three messages is a user message with this text.
pub open spec fn recent_user_duplicate(ms: Seq<MessageView>, text: Seq<char>) -> bool {
    exists|j: int|
        ms.len() - 3 <= j < ms.len() && 0 <= j && (#[trigger] ms[j]).role == "user"@ && ms[j].text
            == text
}

/// Roles whose messages are kept from `response_item` lines.
pub open spec fn is_message_role(role: Seq<char>) -> bool {
    role == "user"@ || role == "assistant"@ || role == "tool"@ || role == "function"@
}

/// A `session_meta` line: identity, working directory, provider, model and
/// source (or originator) from its payload.
pub open spec fn meta_step(s: SessionView, line: Seq<char>) -> Option<SessionView> {
    let idl = payload_string(line, "id"@);
    let cwdl = payload_string(line, "cwd"@);
    let provl = payload_string(line, "model_provider"@);
    let modell = payload_string(line, "model"@);
    let srcl = payload_string(line, "source"@);
    let origl = payload_string(line, "originator"@);
    if idl is None || cwdl is None || provl is None || modell is None || srcl is None {
        None
    } else if srcl->0 is None && origl is None {
        None
    } else {
        Some(
            SessionView {
                id: or_else(idl->0, s.id),
                cwd: or_else(cwdl->0, s.cwd),
                provider: or_else(provl->0, s.provider),
                model: or_else(modell->0, s.model),
                source: match srcl->0 {
                    Some(v) => v,
                    None => or_else(origl->0, s.source),
                },
                ..s
            },
        )
    }
}

/// A `turn_context` line: working directory and model from its payload.
pub open spec fn context_step(s: SessionView, line: Seq<char>) -> Option<SessionView> {
    let cwdl = payload_string(line, "cwd"@);
    let modell = payload_string(line, "model"@);
    if cwdl is None || modell is None {
        None
    } else {
        Some(SessionView { cwd: or_else(cwdl->0, s.cwd), model: or_else(modell->0, s.model), ..s })
    }
}

/// An `event_msg` line: its event type is recorded; an `error` adds its
/// sanitized message; a `user_message` adds a user message unless its
/// sanitized text is empty or noise.
pub open spec fn event_step(s: SessionView, line: Seq<char>, ts: Seq<char>) -> Option<SessionView> {
    let etl = payload_string(line, "type"@);
    if etl is None {
        None
    } else {
        let et = or_empty(etl->0);
        let s2 = if et.len() > 0 {
            SessionView { event_types: s.event_types.push(et), ..s }
        } else {
            s
        };
        if et == "error"@ || et == "user_message"@ {
            let ml = payload_string(line, "message"@);
            if ml is None {
                None
            } else {
                match ml->0 {
                    None => Some(s2),
                    Some(m) => if et == "error"@ {
                        Some(SessionView { errors: s2.errors.push(sanitized(m)), ..s2 })
                    } else {
                        let text = sanitized(m);
                        if text.len() > 0 && !is_noise(text) {
                            Some(
                                SessionView {
                                    messages: s2.messages.push(
                                        MessageView { timestamp: ts, role: "user"@, text: text },
                                    ),
                                    ..s2
                                },
                            )
                        } else {
                            Some(s2)
                        }
                    },
                }
            }
        } else {
            Some(s2)
        }
    }
}

/// A `response_item` line of payload type `message` with a known role adds a
/// message with its sanitized content text, unless that is empty or noise, or
/// a user message repeating one of the last three messages.
pub open spec fn response_step(s: SessionView, line: Seq<char>, ts: Seq<char>) -> Option<
    SessionView,
> {
    let ptl = payload_string(line, "type"@);
    if ptl is None {
        None
    } else if ptl->0 != Some("message"@) {
        Some(s)
    } else {
        let rl = payload_string(line, "role"@);
        if rl is None {
            None
        } else {
            match rl->0 {
                None => Some(s),
                Some(role) => if !is_message_role(role) {
                    Some(s)
                } else {
                    let ct = content_text(line);
                    if ct is None {
                        None
                    } else {
                        let text = sanitized(ct->0);
                        if text.len() > 0 && !is_noise(text) && !(role == "user"@
                            && recent_user_duplicate(s.messages, text)) {
                            Some(
                                SessionView {
                                    messages: s.messages.push(
                                        MessageView { timestamp: ts, role: role, text: text },
                                    ),
                                    ..s
                                },
                            )
                        } else {
                            Some(s)
                        }
                    }
                },
            }
        }
    }
}

/// The effect of one log line on the session (`parse_session`'s loop body):
/// its `timestamp` extends the time range, its `type` selects the update.
/// `None` where a lookup of the line falls outside its domain.
pub open spec fn line_step(s: SessionView, line: Seq<char>) -> Option<SessionView> {
    let tsl = get_string(line, "timestamp"@);
    let tyl = get_string(line, "type"@);
    if tsl is None || tyl is None {
        None
    } else {
        let ts = or_empty(tsl->0);
        let s1 = if ts.len() > 0 {
            SessionView {
                first_timestamp: if s.first_timestamp.len() == 0 {
                    ts
                } else {
                    s.first_timestamp
                },
                last_timestamp: ts,
                ..s
            }
        } else {
            s
        };
        let typ = or_empty(tyl->0);
        if typ == "session_meta"@ {
            meta_step(s1, line)
        } else if typ == "turn_context"@ {
            context_step(s1, line)
        } else if typ == "event_msg"@ {
            event_step(s1, line, ts)
        } else if typ == "response_item"@ {
            response_step(s1, line, ts)
        } else {
            Some(s1)
        }
    }
}

/// Reading one log line keeps the messages so far and adds at most one, and a
/// message it adds carries that line's own `timestamp` value (empty when the
/// line has none); a line with a non-empty timestamp also sets the session's
/// last timestamp to it.
pub proof fn law_line_message_timestamp(s: SessionView, line: Seq<char>)
    requires
        line_step(s, line) is Some,
    ensures
        ({
            let s2 = line_step(s, line)->0;
            let ts = or_empty(get_string(line, "timestamp"@)->0);
            &&& s.messages.len() <= s2.messages.len() <= s.messages.len() + 1
            &&& s2.messages.take(s.messages.len() as int) == s.messages
            &&& (s2.messages.len() > s.messages.len() ==> s2.messages.last().timestamp == ts)
            &&& (ts.len() > 0 ==> s2.last_timestamp == ts)
        }),
{
    let s2 = line_step(s, line)->0;
    assert(s.messages.take(s.messages.len() as int) =~= s.messages);
    if s2.messages.len() > s.messages.len() {
        assert(s2.messages =~= s.messages.push(s2.messages.last()));
    }
    assert(s2.messages.take(s.messages.len() as int) =~= s.messages);
}

/// The session after all `lines`, in order.
pub open spec fn absorb_lines(s: SessionView, lines: Seq<Seq<char>>) -> Option<SessionView>
    decreases lines.len(),
{
    if lines.len() == 0 {
        Some(s)
    } else {
        match line_step(s, lines[0]) {
            None => None,
            Some(s2) => absorb_lines(s2, lines.drop_first()),
        }
    }
}

/// `parse_session`: the session read from the log lines of the file at `path`
/// named `file_name`, its id taken from the file name when the log gives none.
pub open spec fn parsed_session(path: Seq<char>, file_name: Seq<char>, lines: Seq<Seq<char>>) -> Option<
    SessionView,
> {
    match absorb_lines(empty_session(path), lines) {
        None => None,
        Some(s) => Some(
            if s.id.len() == 0 {
                SessionView { id: session_id_of(file_name), ..s }
            } else {
                s
            },
        ),
    }
}

/// The text after the second `-` of `s`, if there are two.
pub open spec fn after_second_dash(s: Seq<char>) -> Option<Seq<char>> {
    match find_char_in(s, seq!['-'], 0) {
        None => None,
        Some(i) => match find_char_in(s, seq!['-'], i + 1) {
            None => None,
            Some(j) => Some(s.skip(j + 1)),
        },
    }
}

/// `Path::file_stem` of a file name: the name without its last extension (a
/// leading dot starts no extension).
pub open spec fn file_stem(name: Seq<char>) -> Seq<char> {
    match last_dot(name) {
        None => name,
        Some(d) => if d == 0 || name == ".."@ {
            name
        } else {
            name.take(d)
        },
    }
}

/// Index of the last `.` of `s`.
pub open spec fn last_dot(s: Seq<char>) -> Option<int>
    decreases s.len(),
{
    if s.len() == 0 {
        None
    } else if s.last() == '.' {
        Some(s.len() - 1)
    } else {
        last_dot(s.drop_last())
    }
}

/// `session_id`: for `rollout-<date>-<time>-<id>.jsonl` the `<id>` (what follows
/// the second `-` after `rollout-`), otherwise the file stem.
pub open spec fn session_id_of(name: Seq<char>) -> Seq<char> {
    if starts_with(name, "rollout-"@) && ends_with(name.skip(8), ".jsonl"@) {
        let core = name.skip(8).take(name.len() - 8 - 6);
        match after_second_dash(core) {
            Some(id) => id,
            None => file_stem(name),
        }
    } else {
        file_stem(name)
    }
}

fn last_dot_exec(s: &[char]) -> (r: Option<usize>)
    ensures
        r matches Some(d) ==> last_dot(s@) == Some(d as int) && d < s.len(),
        r is None ==> last_dot(s@) is None,
{
    let mut i: usize = s.len();
    assert(s@.take(s.len() as int) =~= s@);
    while i > 0
        invariant
            i <= s.len(),
            last_dot(s@) == last_dot(s@.take(i as int)),
        decreases i,
    {
        assert(s@.take(i as int).drop_last() =~= s@.take(i - 1));
        if s[i - 1] == '.' {
            return Some(i - 1);
        }
        i = i - 1;
    }
    None
}

fn file_stem_exec(name: &[char]) -> (r: Vec<char>)
    ensures
        r@ == file_stem(name@),
{
    let whole = slice_copy(name, 0, name.len());
    assert(whole@ =~= name@);
    match last_dot_exec(name) {
        None => whole,
        Some(d) => {
            if d == 0 || chars_eq_str(name, "..") {
                whole
            } else {
                let r = slice_copy(name, 0, d);
                assert(r@ =~= name@.take(d as int));
                r
            }
        },
    }
}

/// `session_id(path)` for the file name of the path.
pub fn session_id(file_name: &str) -> (r: String)
    ensures
        r@ == session_id_of(file_name@),
{
    let name = chars_of(file_name);
    let r = session_id_chars(name.as_slice());
    string_of(r.as_slice())
}

fn session_id_chars(name: &[char]) -> (r: Vec<char>)
    ensures
        r@ == session_id_of(name@),
{
    let pre = chars_of("rollout-");
    let suf = chars_of(".jsonl");
    proof {
        reveal_strlit("rollout-");
        reveal_strlit(".jsonl");
    }
    if starts_with_exec(name, pre.as_slice()) {
        let rest = &name[8..name.len()];
        assert(rest@ =~= name@.skip(8));
        if ends_with_exec(rest, suf.as_slice()) {
            let core = &name[8..name.len() - 6];
            assert(core@ =~= name@.skip(8).take(name@.len() - 8 - 6));
            let dash = vec!['-'];
            assert(dash@ =~= seq!['-']);
            match find_char_in_exec(core, dash.as_slice(), 0) {
                None => {},
                Some(i) => {
                    proof {
                        lemma_find_char_in(core@, seq!['-'], 0);
                    }
                    match find_char_in_exec(core, dash.as_slice(), i + 1) {
                        None => {},
                        Some(j) => {
                            proof {
                                lemma_find_char_in(core@, seq!['-'], i + 1);
                            }
                            let id = slice_copy(core, j + 1, core.len());
                            assert(id@ =~= core@.skip(j + 1));
                            return id;
                        },
                    }
                },
            }
        }
    }
    file_stem_exec(name)
}


/// The model of a lookup result.
pub open spec fn lookup_view(r: Option<Option<Vec<char>>>) -> Option<Option<Seq<char>>> {
    match r {
        None => None,
        Some(None) => Some(None),
        Some(Some(v)) => Some(Some(v@)),
    }
}

pub(crate) fn lookup(line: &[char], key: &str) -> (r: Option<Option<Vec<char>>>)
    ensures
        lookup_view(r) == get_string(line@, key@),
{
    let k = chars_of(key);
    get_string_exec(line, k.as_slice())
}

fn lookup_payload(line: &[char], key: &str) -> (r: Option<Option<Vec<char>>>)
    ensures
        lookup_view(r) == payload_string(line@, key@),
{
    let k = chars_of(key);
    payload_string_exec(line, k.as_slice())
}

/// Sets `field` to the value found, if any.
fn set_if_found(field: &mut String, found: Option<Vec<char>>)
    ensures
        final(field)@ == or_else(crate::json::vec_opt_view(found), old(field)@),
{
    match found {
        Some(v) => {
            *field = string_of(v.as_slice());
        },
        None => {},
    }
}

fn or_empty_exec(found: Option<Vec<char>>) -> (r: Vec<char>)
    ensures
        r@ == or_empty(crate::json::vec_opt_view(found)),
{
    match found {
        Some(v) => v,
        None => Vec::new(),
    }
}

fn push_message(s: &mut Session, ts: &[char], role: &[char], text: &[char])
    ensures
        final(s)@ == (SessionView {
            messages: old(s)@.messages.push(
                MessageView { timestamp: ts@, role: role@, text: text@ },
            ),
            ..old(s)@
        }),
{
    let m = Message { timestamp: string_of(ts), role: string_of(role), text: string_of(text) };
    let ghost before = s.messages@;
    s.messages.push(m);
    assert(s.messages@.map_values(|m: Message| m@) =~= before.map_values(|m: Message| m@).push(
        m@,
    ));
}

fn push_string(v: &mut Vec<String>, x: &[char])
    ensures
        strings_view(final(v)@) == strings_view(old(v)@).push(x@),
{
    let ghost before = v@;
    v.push(string_of(x));
    assert(strings_view(v@) =~= strings_view(before).push(x@));
}

fn recent_user_duplicate_exec(ms: &Vec<Message>, text: &[char]) -> (r: bool)
    ensures
        r == recent_user_duplicate(ms@.map_values(|m: Message| m@), text@),
{
    let ghost mv = ms@.map_values(|m: Message| m@);
    let n = ms.len();
    let start: usize = if n >= 3 {
        n - 3
    } else {
        0
    };
    let mut j: usize = start;
    while j < n
        invariant
            start <= j <= n,
            n == ms.len(),
            start == (if n >= 3 { n - 3 } else { 0 }),
            mv == ms@.map_values(|m: Message| m@),
            forall|k: int| start <= k < j ==> !((#[trigger] mv[k]).role == "user"@ && mv[k].text == text@),
        decreases n - j,
    {
        let role = chars_of(ms[j].role.as_str());
        let mt = chars_of(ms[j].text.as_str());
        if chars_eq_str(role.as_slice(), "user") && chars_eq(mt.as_slice(), text) {
            assert(mv[j as int].role == "user"@ && mv[j as int].text == text@);
            return true;
        }
        j = j + 1;
    }
    false
}

/// Applies one log line to the session; `false` (and the session unspecified)
/// where a lookup falls outside its domain.
fn absorb_line(s: &mut Session, line: &[char]) -> (ok: bool)
    ensures
        ok ==> line_step(old(s)@, line@) == Some(final(s)@),
        !ok ==> line_step(old(s)@, line@) is None,
{
    let tsl = lookup(line, "timestamp");
    let tyl = lookup(line, "type");
    if tsl.is_none() || tyl.is_none() {
        return false;
    }
    let ts = or_empty_exec(tsl.unwrap());
    if ts.len() > 0 {
        if s.first_timestamp.as_str().is_empty() {
            s.first_timestamp = string_of(ts.as_slice());
        }
        s.last_timestamp = string_of(ts.as_slice());
    }
    let ghost s1 = s@;
    let typ = or_empty_exec(tyl.unwrap());
    if chars_eq_str(typ.as_slice(), "session_meta") {
        let idl = lookup_payload(line, "id");
        let cwdl = lookup_payload(line, "cwd");
        let provl = lookup_payload(line, "model_provider");
        let modell = lookup_payload(line, "model");
        let srcl = lookup_payload(line, "source");
        if idl.is_none() || cwdl.is_none() || provl.is_none() || modell.is_none() || srcl.is_none() {
            return false;
        }
        let src = srcl.unwrap();
        let src = match src {
            Some(v) => Some(v),
            None => {
                let origl = lookup_payload(line, "originator");
                if origl.is_none() {
                    return false;
                }
                origl.unwrap()
            },
        };
        set_if_found(&mut s.id, idl.unwrap());
        set_if_found(&mut s.cwd, cwdl.unwrap());
        set_if_found(&mut s.provider, provl.unwrap());
        set_if_found(&mut s.model, modell.unwrap());
        set_if_found(&mut s.source, src);
        return true;
    } else if chars_eq_str(typ.as_slice(), "turn_context") {
        let cwdl = lookup_payload(line, "cwd");
        let modell = lookup_payload(line, "model");
        if cwdl.is_none() || modell.is_none() {
            return false;
        }
        set_if_found(&mut s.cwd, cwdl.unwrap());
        set_if_found(&mut s.model, modell.unwrap());
        return true;
    } else if chars_eq_str(typ.as_slice(), "event_msg") {
        let etl = lookup_payload(line, "type");
        if etl.is_none() {
            return false;
        }
        let et = or_empty_exec(etl.unwrap());
        if et.len() > 0 {
            push_string(&mut s.event_types, et.as_slice());
        }
        let is_error = chars_eq_str(et.as_slice(), "error");
        let is_user = chars_eq_str(et.as_slice(), "user_message");
        if is_error || is_user {
            let ml = lookup_payload(line, "message");
            if ml.is_none() {
                return false;
            }
            match ml.unwrap() {
                None => {},
                Some(m) => {
                    let text = sanitize_chars(m.as_slice());
                    if is_error {
                        push_string(&mut s.errors, text.as_slice());
                    } else if text.len() > 0 && !is_noise_chars(text.as_slice()) {
                        let user = chars_of("user");
                        push_message(s, ts.as_slice(), user.as_slice(), text.as_slice());
                    }
                },
            }
        }
        return true;
    } else if chars_eq_str(typ.as_slice(), "response_item") {
        let ptl = lookup_payload(line, "type");
        if ptl.is_none() {
            return false;
        }
        let pt = ptl.unwrap();
        let is_message = match &pt {
            Some(v) => chars_eq_str(v.as_slice(), "message"),
            None => false,
        };
        if !is_message {
            return true;
        }
        let rl = lookup_payload(line, "role");
        if rl.is_none() {
            return false;
        }
        let role = match rl.unwrap() {
            None => {
                return true;
            },
            Some(r) => r,
        };
        let known = chars_eq_str(role.as_slice(), "user") || chars_eq_str(role.as_slice(), "assistant")
            || chars_eq_str(role.as_slice(), "tool") || chars_eq_str(role.as_slice(), "function");
        if !known {
            return true;
        }
        let ct = content_text_exec(line);
        let ct = match ct {
            None => {
                return false;
            },
            Some(c) => c,
        };
        let text = sanitize_chars(ct.as_slice());
        if text.len() > 0 && !is_noise_chars(text.as_slice()) {
            let dup = chars_eq_str(role.as_slice(), "user") && recent_user_duplicate_exec(
                &s.messages,
                text.as_slice(),
            );
            if !dup {
                push_message(s, ts.as_slice(), role.as_slice(), text.as_slice());
            }
        }
        return true;
    }
    true
}


/// Reads all lines into the session; `None` where a line falls outside the
/// lookups' domain.
fn absorb_all(s0: Session, lines: &Vec<String>) -> (r: Option<Session>)
    ensures
        r matches Some(s) ==> absorb_lines(s0@, strings_view(lines@)) == Some(s@),
        r is None ==> absorb_lines(s0@, strings_view(lines@)) is None,
{
    let ghost lv = strings_view(lines@);
    let mut s = s0;
    let mut i: usize = 0;
    assert(lv.skip(0) =~= lv);
    while i < lines.len()
        invariant
            i <= lines.len(),
            lv == strings_view(lines@),
            absorb_lines(s0@, lv) == absorb_lines(s@, lv.skip(i as int)),
        decreases lines.len() - i,
    {
        let line = chars_of(lines[i].as_str());
        assert(lv.skip(i as int)[0] == line@);
        assert(lv.skip(i as int).drop_first() =~= lv.skip(i + 1));
        let ok = absorb_line(&mut s, line.as_slice());
        if !ok {
            return None;
        }
        i = i + 1;
    }
    assert(lv.skip(lines.len() as int) =~= Seq::<Seq<char>>::empty());
    Some(s)
}

fn try_parse_session(path: String, file_name: &str, lines: &Vec<String>) -> (r: Option<Session>)
    ensures
        r matches Some(s) ==> parsed_session(path@, file_name@, strings_view(lines@)) == Some(s@),
        r is None ==> parsed_session(path@, file_name@, strings_view(lines@)) is None,
{
    let s0 = Session::new(path);
    match absorb_all(s0, lines) {
        None => None,
        Some(mut s) => {
            if s.id.as_str().is_empty() {
                s.id = session_id(file_name);
            }
            Some(s)
        },
    }
}

/// Whether `parse_session` is defined on these log lines: no lookup it makes
/// slices inside a multi-byte character.
pub fn parse_session_defined(path: &str, file_name: &str, lines: &Vec<String>) -> (r: bool)
    ensures
        r == parsed_session(path@, file_name@, strings_view(lines@)) is Some,
{
    let p = string_of(chars_of(path).as_slice());
    try_parse_session(p, file_name, lines).is_some()
}

/// `parse_session`: the session built from the lines of the log at `path`
/// (whose file name is `file_name`), in order.
pub fn parse_session(path: String, file_name: &str, lines: &Vec<String>) -> (r: Session)
    requires
        parsed_session(path@, file_name@, strings_view(lines@)) is Some,
    ensures
        parsed_session(path@, file_name@, strings_view(lines@)) == Some(r@),
{
    try_parse_session(path, file_name, lines).unwrap()
}

} // verus!
