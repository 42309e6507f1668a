//! Provider sync: which provider sessions and agents are moved to, how a
//! session log is rewritten, and the report of a sync or of its preview.
use vstd::prelude::*;
use crate::config::{
    agent_provider, agent_provider_from_text, replace_model_provider_line, replaced_provider_text,
    ConfigSummary, ConfigView,
};
use crate::json::{get_string, get_string_exec, json_quote, law_payload_write_then_read,
    lemma_json_quote_one_line, lemma_payload_value_slot_drop_cr, lemma_payload_value_slot_range, payload_key_has_colon,
    payload_string, payload_string_exec, payload_value_slot, replace_payload_exec,
    replace_payload_string,
};
use crate::session::{lookup_view, or_empty, strings_view};
use crate::text::{
    chars_eq, chars_eq_str, chars_of, decimal, decimal_exec, extend, extend_str, join, join_exec,
    lemma_lines_acc_no_newline, lemma_lines_of_lines_text, lines, lines_text, one_line_text,
    split_lines, string_of, strip_cr, zero_pad, zero_padded,
};

verus! {

/// The error of a sync whose current provider is unusable.
pub open spec fn missing_provider_message() -> Seq<char> {
    "current model_provider is missing or not defined"@
}

/// The provider to sync to: the configured current provider, which must be
/// set and defined by a provider table.
pub open spec fn sync_target(cfg: ConfigView) -> Result<Seq<char>, Seq<char>> {
    let current = or_empty(cfg.model_provider);
    if current.len() == 0 || !cfg.providers.contains(current) {
        Err(missing_provider_message())
    } else {
        Ok(current)
    }
}

/// `render_sync`'s check of the configuration: the current provider, or the
/// error that ends the sync.
pub fn sync_provider(cfg: &ConfigSummary) -> (r: Result<String, String>)
    ensures
        match r {
            Ok(p) => sync_target(cfg@) == Ok::<Seq<char>, Seq<char>>(p@),
            Err(e) => sync_target(cfg@) == Err::<Seq<char>, Seq<char>>(e@),
        },
{
    let current = match &cfg.model_provider {
        Some(p) => chars_of(p.as_str()),
        None => Vec::new(),
    };
    assert(current@ == or_empty(cfg@.model_provider));
    if current.len() == 0 {
        return Err(string_of(chars_of("current model_provider is missing or not defined").as_slice()));
    }
    let ghost pv = strings_view(cfg.providers@);
    let mut i: usize = 0;
    while i < cfg.providers.len()
        invariant
            i <= cfg.providers.len(),
            pv == strings_view(cfg.providers@),
            current@ == or_empty(cfg@.model_provider),
            current@.len() > 0,
            forall|k: int| 0 <= k < i ==> pv[k] != current@,
        decreases cfg.providers.len() - i,
    {
        let x = chars_of(cfg.providers[i].as_str());
        if chars_eq(x.as_slice(), current.as_slice()) {
            assert(pv[i as int] == current@);
            assert(pv.contains(current@));
            return Ok(string_of(current.as_slice()));
        }
        i = i + 1;
    }
    assert(!pv.contains(current@));
    Err(string_of(chars_of("current model_provider is missing or not defined").as_slice()))
}

/// An agent whose provider is set and differs from the current one is moved.
pub open spec fn agent_needs_move(provider: Seq<char>, current: Seq<char>) -> bool {
    provider.len() > 0 && provider != current
}

/// Whether an agent with this provider is moved to `current`.
pub fn agent_needs_sync(provider: &str, current: &str) -> (r: bool)
    ensures
        r == agent_needs_move(provider@, current@),
{
    let p = chars_of(provider);
    let c = chars_of(current);
    p.len() > 0 && !chars_eq(p.as_slice(), c.as_slice())
}

/// The rewriting of a session log so far: the lines written, whether one
/// changed, and the provider last seen in a `session_meta` payload.
pub struct SyncView {
    pub lines: Seq<Seq<char>>,
    pub changed: bool,
    pub old: Seq<char>,
}

/// One line of a session log during sync: a `session_meta` line whose payload
/// names another (non-empty) provider gets `current` written in its place.
/// `None` where a lookup falls outside its domain.
pub open spec fn sync_step(st: SyncView, line: Seq<char>, current: Seq<char>) -> Option<SyncView> {
    let tl = get_string(line, "type"@);
    if tl is None {
        None
    } else if tl->0 != Some("session_meta"@) {
        Some(SyncView { lines: st.lines.push(line), ..st })
    } else {
        let pl = payload_string(line, "model_provider"@);
        if pl is None {
            None
        } else {
            match pl->0 {
                None => Some(SyncView { lines: st.lines.push(line), ..st }),
                Some(prov) => if prov.len() > 0 && prov != current {
                    Some(
                        SyncView {
                            lines: st.lines.push(
                                replace_payload_string(line, "model_provider"@, current),
                            ),
                            changed: true,
                            old: prov,
                        },
                    )
                } else {
                    Some(SyncView { lines: st.lines.push(line), old: prov, ..st })
                },
            }
        }
    }
}

/// The state after the lines `ls`, in order.
pub open spec fn sync_lines(st: SyncView, ls: Seq<Seq<char>>, current: Seq<char>) -> Option<SyncView>
    decreases ls.len(),
{
    if ls.len() == 0 {
        Some(st)
    } else {
        match sync_step(st, ls[0], current) {
            None => None,
            Some(st2) => sync_lines(st2, ls.drop_first(), current),
        }
    }
}

/// The sync of a session log's text: whether it changes, the provider it had,
/// and its new text (the lines joined by newlines, with a final newline).
pub open spec fn synced_session(text: Seq<char>, current: Seq<char>) -> Option<(bool, Seq<char>, Seq<char>)> {
    match sync_lines(SyncView { lines: seq![], changed: false, old: seq![] }, lines(text), current) {
        None => None,
        Some(st) => Some((st.changed, st.old, join(st.lines, "\n"@) + "\n"@)),
    }
}

/// A log line that the sync rewrites: a `session_meta` line whose payload names
/// a provider that is set and differs from `current`.
pub open spec fn rewrites(line: Seq<char>, current: Seq<char>) -> bool {
    &&& get_string(line, "type"@) == Some(Some("session_meta"@))
    &&& payload_string(line, "model_provider"@) matches Some(Some(p))
    &&& p.len() > 0
    &&& p != current
}

/// The line that the sync writes for `line`.
pub open spec fn synced_line(line: Seq<char>, current: Seq<char>) -> Seq<char> {
    if rewrites(line, current) {
        replace_payload_string(line, "model_provider"@, current)
    } else {
        line
    }
}

/// The outcome of syncing one session log.
pub struct SessionSync {
    /// Whether a `session_meta` line was rewritten.
    pub changed: bool,
    /// The provider named by the last `session_meta` payload.
    pub old_provider: String,
    /// The log's new text.
    pub new_text: String,
}

fn try_sync_session(text: &str, current: &str) -> (r: Option<SessionSync>)
    ensures
        r matches Some(s) ==> synced_session(text@, current@) == Some((s.changed, s.old_provider@, s.new_text@)),
        r is None ==> synced_session(text@, current@) is None,
{
    let t = chars_of(text);
    let cur = chars_of(current);
    let ls = split_lines(t.as_slice());
    let ghost lv = ls@.map_values(|w: Vec<char>| w@);
    let ghost st0 = SyncView { lines: seq![], changed: false, old: seq![] };
    let mut out: Vec<Vec<char>> = Vec::new();
    let mut changed = false;
    let mut old: Vec<char> = Vec::new();
    let ty = chars_of("type");
    let mp = chars_of("model_provider");
    let mut i: usize = 0;
    assert(lv.skip(0) =~= lv);
    assert(out@.map_values(|w: Vec<char>| w@) =~= Seq::<Seq<char>>::empty());
    assert(old@ =~= Seq::<char>::empty());
    while i < ls.len()
        invariant
            i <= ls.len(),
            lv == ls@.map_values(|w: Vec<char>| w@),
            lv == lines(t@),
            t@ == text@,
            cur@ == current@,
            ty@ == "type"@,
            mp@ == "model_provider"@,
            st0 == (SyncView { lines: seq![], changed: false, old: seq![] }),
            sync_lines(st0, lv, current@) == sync_lines(
                SyncView { lines: out@.map_values(|w: Vec<char>| w@), changed: changed, old: old@ },
                lv.skip(i as int),
                current@,
            ),
        decreases ls.len() - i,
    {
        assert(lv.skip(i as int).drop_first() =~= lv.skip(i + 1));
        assert(lv.skip(i as int)[0] == ls@[i as int]@);
        let ghost before = out@.map_values(|w: Vec<char>| w@);
        let ghost state = SyncView { lines: before, changed: changed, old: old@ };
        let line = ls[i].as_slice();
        let tl = get_string_exec(line, ty.as_slice());
        if tl.is_none() {
            assert(sync_step(state, line@, current@) is None);
            assert(sync_lines(state, lv.skip(i as int), current@) is None);
            return None;
        }
        let is_meta = match &tl.unwrap() {
            Some(v) => chars_eq_str(v.as_slice(), "session_meta"),
            None => false,
        };
        let mut pushed = false;
        if is_meta {
            let pl = payload_string_exec(line, mp.as_slice());
            if pl.is_none() {
                assert(sync_step(state, line@, current@) is None);
                assert(sync_lines(state, lv.skip(i as int), current@) is None);
                    return None;
            }
            match pl.unwrap() {
                None => {},
                Some(prov) => {
                    if prov.len() > 0 && !chars_eq(prov.as_slice(), cur.as_slice()) {
                        let nl = replace_payload_exec(line, mp.as_slice(), cur.as_slice());
                        out.push(nl);
                        assert(out@.map_values(|w: Vec<char>| w@) =~= before.push(nl@));
                        changed = true;
                        pushed = true;
                    }
                    old = prov;
                },
            }
        }
        if !pushed {
            let cp = crate::text::slice_copy(line, 0, line.len());
            assert(cp@ =~= line@);
            out.push(cp);
            assert(out@.map_values(|w: Vec<char>| w@) =~= before.push(line@));
        }
        i = i + 1;
    }
    assert(lv.skip(ls.len() as int) =~= Seq::<Seq<char>>::empty());
    let nl = chars_of("\n");
    let mut body = join_exec(&out, nl.as_slice());
    extend(&mut body, nl.as_slice());
    Some(SessionSync { changed, old_provider: string_of(old.as_slice()), new_text: string_of(body.as_slice()) })
}

/// Whether the sync of a session log is defined on its text: no lookup it
/// makes slices inside a multi-byte character.
pub fn sync_session_text_defined(text: &str, current: &str) -> (r: bool)
    ensures
        r == synced_session(text@, current@) is Some,
{
    try_sync_session(text, current).is_some()
}

/// The sync of one session log's text to provider `current` (the loop body of
/// `render_sync` over sessions, before any file is written).
pub fn sync_session_text(text: &str, current: &str) -> (r: SessionSync)
    requires
        synced_session(text@, current@) is Some,
    ensures
        synced_session(text@, current@) == Some((r.changed, r.old_provider@, r.new_text@)),
{
    try_sync_session(text, current).unwrap()
}

// ---------------------------------------------------------------------------
// Report
// ---------------------------------------------------------------------------

/// `true` or `false`.
pub open spec fn bool_text(b: bool) -> Seq<char> {
    if b {
        "true"@
    } else {
        "false"@
    }
}

/// The report lines of moved items: `  <kind> <name>: <from> -> <current>`.
pub open spec fn change_lines(kind: Seq<char>, changes: Seq<(Seq<char>, Seq<char>)>, current: Seq<char>) -> Seq<char>
    decreases changes.len(),
{
    if changes.len() == 0 {
        seq![]
    } else {
        change_lines(kind, changes.drop_last(), current) + "  "@ + kind + " "@ + changes.last().0
            + ": "@ + changes.last().1 + " -> "@ + current + "\r\n"@
    }
}

/// The report of `render_sync` for the given changes of agents and sessions
/// (each a file name and the provider it had), in the order found.
pub open spec fn sync_report(
    current: Seq<char>,
    providers: Seq<Seq<char>>,
    dry_run: bool,
    agents: Seq<(Seq<char>, Seq<char>)>,
    sessions: Seq<(Seq<char>, Seq<char>)>,
    backup: Seq<char>,
) -> Seq<char> {
    "current provider: "@ + current + "\r\ndefined providers: "@ + join(providers, ", "@)
        + "\r\ndry run:          "@ + bool_text(dry_run) + "\r\n"@ + change_lines(
        "agent"@,
        agents,
        current,
    ) + "agent refs:       "@ + decimal(agents.len()) + " change(s)\r\n"@ + change_lines(
        "session"@,
        sessions,
        current,
    ) + "session refs:     "@ + decimal(sessions.len()) + " change(s)\r\n"@ + (if !dry_run && (
    agents.len() > 0 || sessions.len() > 0) {
        "backup:           "@ + backup + "\r\n"@
    } else {
        seq![]
    }) + (if agents.len() == 0 && sessions.len() == 0 {
        "status:           already synced\r\n"@
    } else {
        seq![]
    })
}

/// The model of a list of changes.
pub open spec fn changes_view(v: Seq<(String, String)>) -> Seq<(Seq<char>, Seq<char>)> {
    v.map_values(|e: (String, String)| (e.0@, e.1@))
}

// ---------------------------------------------------------------------------
// The files a sync writes
// ---------------------------------------------------------------------------

/// What the sync asks to be done to a file, named by its file name: copy it
/// into the backup folder, or replace its text.
pub enum SyncAction {
    Backup(String),
    Write(String, String),
}

/// Model of a file action.
pub enum SyncActionView {
    Backup(Seq<char>),
    Write(Seq<char>, Seq<char>),
}

impl View for SyncAction {
    type V = SyncActionView;

    open spec fn view(&self) -> SyncActionView {
        match self {
            SyncAction::Backup(n) => SyncActionView::Backup(n@),
            SyncAction::Write(n, t) => SyncActionView::Write(n@, t@),
        }
    }
}

/// The model of a list of file actions.
pub open spec fn actions_view(v: Seq<SyncAction>) -> Seq<SyncActionView> {
    v.map_values(|a: SyncAction| a@)
}

/// The actions for one file that the sync moves: none in a preview or when the
/// file does not change; otherwise its backup, then the new text.
pub open spec fn file_actions(name: Seq<char>, changed: bool, dry_run: bool, new_text: Seq<char>) -> Seq<
    SyncActionView,
> {
    if changed && !dry_run {
        seq![SyncActionView::Backup(name), SyncActionView::Write(name, new_text)]
    } else {
        seq![]
    }
}

/// Every write of a file comes after a backup of that file.
pub open spec fn backed_up_before_written(acts: Seq<SyncActionView>) -> bool {
    forall|i: int|
        0 <= i < acts.len() && (#[trigger] acts[i] is Write) ==> exists|j: int|
            0 <= j < i && acts[j] == SyncActionView::Backup(acts[i]->Write_0)
}

fn copy_string(s: &str) -> (r: String)
    ensures
        r@ == s@,
{
    string_of(chars_of(s).as_slice())
}

fn file_actions_exec(name: &str, changed: bool, dry_run: bool, new_text: String) -> (r: Vec<SyncAction>)
    ensures
        actions_view(r@) == file_actions(name@, changed, dry_run, new_text@),
{
    let mut acts: Vec<SyncAction> = Vec::new();
    if changed && !dry_run {
        acts.push(SyncAction::Backup(copy_string(name)));
        acts.push(SyncAction::Write(copy_string(name), new_text));
    }
    assert(actions_view(acts@) =~= file_actions(name@, changed, dry_run, new_text@));
    acts
}

/// `render_sync`'s handling of one session log named `name` whose text is
/// `text`: a log that changes is listed with the provider it had and, unless
/// previewing, backed up and then rewritten.
pub fn session_sync_step(
    name: &str,
    text: &str,
    current: &str,
    dry_run: bool,
    changes: &mut Vec<(String, String)>,
) -> (actions: Vec<SyncAction>)
    requires
        synced_session(text@, current@) is Some,
    ensures
        synced_session(text@, current@) matches Some((changed, old_p, new_text)) ==> {
            &&& changes_view(final(changes)@) == if changed {
                changes_view(old(changes)@).push((name@, old_p))
            } else {
                changes_view(old(changes)@)
            }
            &&& actions_view(actions@) == file_actions(name@, changed, dry_run, new_text)
        },
{
    let r = sync_session_text(text, current);
    if r.changed {
        let ghost before = changes_view(changes@);
        changes.push((copy_string(name), copy_string(r.old_provider.as_str())));
        assert(changes_view(changes@) =~= before.push((name@, r.old_provider@)));
    }
    file_actions_exec(name, r.changed, dry_run, r.new_text)
}

/// The agent whose file text is `text` is moved from the provider it names:
/// that provider, when it is set and differs from `current`.
pub open spec fn agent_move(text: Seq<char>, current: Seq<char>) -> Option<Seq<char>> {
    match agent_provider(lines(text)) {
        Some(p) => if agent_needs_move(p, current) {
            Some(p)
        } else {
            None
        },
        None => None,
    }
}

/// `render_sync`'s handling of one agent file named `name` whose text is
/// `text`: an agent that is moved is listed with the provider it had and,
/// unless previewing, backed up and then given `current` on its
/// `model_provider` line.
pub fn agent_sync_step(
    name: &str,
    text: &str,
    current: &str,
    dry_run: bool,
    changes: &mut Vec<(String, String)>,
) -> (actions: Vec<SyncAction>)
    ensures
        changes_view(final(changes)@) == match agent_move(text@, current@) {
            Some(p) => changes_view(old(changes)@).push((name@, p)),
            None => changes_view(old(changes)@),
        },
        actions_view(actions@) == file_actions(
            name@,
            agent_move(text@, current@) is Some,
            dry_run,
            replaced_provider_text(text@, current@),
        ),
{
    let found = agent_provider_from_text(text);
    let mut moved = false;
    if let Some(p) = found {
        if agent_needs_sync(p.as_str(), current) {
            let ghost before = changes_view(changes@);
            let ghost pv = p@;
            changes.push((copy_string(name), p));
            assert(changes_view(changes@) =~= before.push((name@, pv)));
            moved = true;
        }
    }
    if moved && !dry_run {
        let updated = replace_model_provider_line(text, current);
        file_actions_exec(name, moved, dry_run, updated)
    } else {
        let acts: Vec<SyncAction> = Vec::new();
        assert(actions_view(acts@) =~= file_actions(
            name@,
            agent_move(text@, current@) is Some,
            dry_run,
            replaced_provider_text(text@, current@),
        ));
        acts
    }
}

/// A preview asks for no file action, and every file that a sync writes is
/// backed up first: of the actions for any file, none in a preview, and each
/// write follows a backup of the same file.
pub proof fn law_sync_actions_safe(name: Seq<char>, changed: bool, dry_run: bool, new_text: Seq<char>)
    ensures
        dry_run ==> file_actions(name, changed, dry_run, new_text).len() == 0,
        backed_up_before_written(file_actions(name, changed, dry_run, new_text)),
{
    let acts = file_actions(name, changed, dry_run, new_text);
    assert forall|i: int| 0 <= i < acts.len() && (#[trigger] acts[i] is Write) implies exists|j: int|
        0 <= j < i && acts[j] == SyncActionView::Backup(acts[i]->Write_0) by {
        assert(i == 1);
        assert(acts[0] == SyncActionView::Backup(name));
    }
}

fn push_change_lines(out: &mut Vec<char>, kind: &str, changes: &Vec<(String, String)>, current: &[char])
    ensures
        final(out)@ == old(out)@ + change_lines(kind@, changes_view(changes@), current@),
{
    let ghost cv = changes_view(changes@);
    let mut i: usize = 0;
    assert(cv.take(0) =~= Seq::<(Seq<char>, Seq<char>)>::empty());
    assert(old(out)@ + Seq::<char>::empty() =~= old(out)@);
    while i < changes.len()
        invariant
            i <= changes.len(),
            cv == changes_view(changes@),
            out@ == old(out)@ + change_lines(kind@, cv.take(i as int), current@),
        decreases changes.len() - i,
    {
        assert(cv.take(i + 1).drop_last() =~= cv.take(i as int));
        let ghost before = out@;
        extend_str(out, "  ");
        extend_str(out, kind);
        extend_str(out, " ");
        extend_str(out, changes[i].0.as_str());
        extend_str(out, ": ");
        extend_str(out, changes[i].1.as_str());
        extend_str(out, " -> ");
        extend(out, current);
        extend_str(out, "\r\n");
        let ghost e = cv[i as int];
        assert(out@ =~= before + "  "@ + kind@ + " "@ + e.0 + ": "@ + e.1 + " -> "@ + current@
            + "\r\n"@);
        i = i + 1;
    }
    assert(cv.take(changes.len() as int) =~= cv);
}

/// `render_sync`'s report for the changes found (see `sync_report`).
pub fn render_sync_report(
    current: &str,
    providers: &Vec<String>,
    dry_run: bool,
    agents: &Vec<(String, String)>,
    sessions: &Vec<(String, String)>,
    backup: &str,
) -> (r: String)
    ensures
        r@ == sync_report(
            current@,
            strings_view(providers@),
            dry_run,
            changes_view(agents@),
            changes_view(sessions@),
            backup@,
        ),
{
    let cur = chars_of(current);
    let mut pv: Vec<Vec<char>> = Vec::new();
    let mut i: usize = 0;
    while i < providers.len()
        invariant
            i <= providers.len(),
            pv@.map_values(|w: Vec<char>| w@) == strings_view(providers@).take(i as int),
        decreases providers.len() - i,
    {
        let ghost before = pv@.map_values(|w: Vec<char>| w@);
        pv.push(chars_of(providers[i].as_str()));
        assert(pv@.map_values(|w: Vec<char>| w@) =~= before.push(providers@[i as int]@));
        assert(strings_view(providers@).take(i + 1) =~= strings_view(providers@).take(i as int).push(
            providers@[i as int]@,
        ));
        i = i + 1;
    }
    assert(strings_view(providers@).take(providers.len() as int) =~= strings_view(providers@));
    let sep = chars_of(", ");
    let joined = join_exec(&pv, sep.as_slice());
    let mut out = chars_of("current provider: ");
    extend(&mut out, cur.as_slice());
    extend_str(&mut out, "\r\ndefined providers: ");
    extend(&mut out, joined.as_slice());
    extend_str(&mut out, "\r\ndry run:          ");
    if dry_run {
        extend_str(&mut out, "true");
    } else {
        extend_str(&mut out, "false");
    }
    extend_str(&mut out, "\r\n");
    push_change_lines(&mut out, "agent", agents, cur.as_slice());
    extend_str(&mut out, "agent refs:       ");
    let na = decimal_exec(agents.len());
    extend(&mut out, na.as_slice());
    extend_str(&mut out, " change(s)\r\n");
    push_change_lines(&mut out, "session", sessions, cur.as_slice());
    extend_str(&mut out, "session refs:     ");
    let ns = decimal_exec(sessions.len());
    extend(&mut out, ns.as_slice());
    extend_str(&mut out, " change(s)\r\n");
    let ghost mid = out@;
    if !dry_run && (agents.len() > 0 || sessions.len() > 0) {
        extend_str(&mut out, "backup:           ");
        extend_str(&mut out, backup);
        extend_str(&mut out, "\r\n");
    }
    let ghost mid2 = out@;
    if agents.len() == 0 && sessions.len() == 0 {
        extend_str(&mut out, "status:           already synced\r\n");
    }
    let ghost a = changes_view(agents@);
    let ghost s = changes_view(sessions@);
    assert(a.len() == agents.len());
    assert(s.len() == sessions.len());
    assert(out@ =~= sync_report(
        current@,
        strings_view(providers@),
        dry_run,
        a,
        s,
        backup@,
    ));
    string_of(out.as_slice())
}

/// The name of the backup folder of a sync made at the given UTC time:
/// `provider-sync-backup-YYYYMMDD-hhmmss`.
pub open spec fn backup_folder_name(year: u16, month: u16, day: u16, hour: u16, minute: u16, second: u16) -> Seq<char> {
    "provider-sync-backup-"@ + zero_pad(decimal(year as nat), 4) + zero_pad(decimal(month as nat), 2)
        + zero_pad(decimal(day as nat), 2) + "-"@ + zero_pad(decimal(hour as nat), 2) + zero_pad(
        decimal(minute as nat),
        2,
    ) + zero_pad(decimal(second as nat), 2)
}

/// `provider-sync-backup-` followed by `timestamp_compact` of the given time.
pub fn backup_folder(year: u16, month: u16, day: u16, hour: u16, minute: u16, second: u16) -> (r: String)
    ensures
        r@ == backup_folder_name(year, month, day, hour, minute, second),
{
    let mut out = chars_of("provider-sync-backup-");
    extend(&mut out, zero_padded(year, 4).as_slice());
    extend(&mut out, zero_padded(month, 2).as_slice());
    extend(&mut out, zero_padded(day, 2).as_slice());
    extend_str(&mut out, "-");
    extend(&mut out, zero_padded(hour, 2).as_slice());
    extend(&mut out, zero_padded(minute, 2).as_slice());
    extend(&mut out, zero_padded(second, 2).as_slice());
    string_of(out.as_slice())
}

// ---------------------------------------------------------------------------
// Laws
// ---------------------------------------------------------------------------

/// What the sync writes for the lines `ls`, and whether it changes one.
proof fn lemma_sync_lines_effect(st: SyncView, ls: Seq<Seq<char>>, current: Seq<char>)
    requires
        sync_lines(st, ls, current) is Some,
    ensures
        sync_lines(st, ls, current)->0.lines == st.lines + ls.map_values(
            |l: Seq<char>| synced_line(l, current),
        ),
        (forall|i: int| 0 <= i < ls.len() ==> !rewrites(#[trigger] ls[i], current)) ==> sync_lines(
            st,
            ls,
            current,
        )->0.changed == st.changed,
    decreases ls.len(),
{
    if ls.len() == 0 {
        assert(st.lines + ls.map_values(|l: Seq<char>| synced_line(l, current)) =~= st.lines);
    } else {
        let st2 = sync_step(st, ls[0], current)->0;
        assert(st2.lines == st.lines.push(synced_line(ls[0], current)));
        assert(!rewrites(ls[0], current) ==> st2.changed == st.changed);
        let t = ls.drop_first();
        lemma_sync_lines_effect(st2, t, current);
        assert(st.lines + ls.map_values(|l: Seq<char>| synced_line(l, current)) =~= st2.lines
            + t.map_values(|l: Seq<char>| synced_line(l, current)));
        if forall|i: int| 0 <= i < ls.len() ==> !rewrites(#[trigger] ls[i], current) {
            assert forall|i: int| 0 <= i < t.len() implies !rewrites(#[trigger] t[i], current) by {
                assert(t[i] == ls[i + 1]);
            }
            assert(!rewrites(ls[0], current));
        }
    }
}

/// A rewritten line is still a single line, and the sync leaves it alone once
/// a final carriage return is stripped from it; so does a line it kept.
proof fn lemma_synced_line(line: Seq<char>, current: Seq<char>)
    requires
        one_line_text(line),
        !rewrites(line, current) ==> !rewrites(strip_cr(line), current),
        rewrites(line, current) ==> payload_value_slot(line, "model_provider"@) is Some
            && payload_key_has_colon(line, "model_provider"@),
    ensures
        one_line_text(synced_line(line, current)),
        !rewrites(strip_cr(synced_line(line, current)), current),
{
    if rewrites(line, current) {
        let mp = "model_provider"@;
        let (a, b) = payload_value_slot(line, mp)->0;
        lemma_payload_value_slot_range(line, mp);
        lemma_json_quote_one_line(current);
        let q = json_quote(current);
        let out = line.take(a) + q + line.skip(b);
        assert(synced_line(line, current) == out);
        assert forall|k: int| 0 <= k < out.len() implies #[trigger] out[k] != '\n' by {
            if k < a {
                assert(out[k] == line[k]);
            } else if k < a + q.len() {
                assert(out[k] == q[k - a]);
            } else {
                assert(out[k] == line[k - a - q.len() + b]);
            }
        }
        if b < line.len() && line.last() == '\r' {
            let l2 = line.drop_last();
            lemma_payload_value_slot_drop_cr(line, mp);
            assert(out.last() == line.last());
            assert(strip_cr(out) =~= l2.take(a) + q + l2.skip(b));
            assert(strip_cr(out) == replace_payload_string(l2, mp, current));
            law_payload_write_then_read(l2, mp, current);
        } else {
            if b < line.len() {
                assert(out.last() == line.last());
            } else {
                assert(out.last() == q.last());
            }
            assert(strip_cr(out) == out);
            law_payload_write_then_read(line, mp, current);
        }
    }
}

/// Syncing a synced session log changes nothing: the second sync of the text
/// that a sync to `current` wrote finds no line to rewrite, whenever it runs
/// without a lookup falling outside its domain. This holds when every line
/// that the sync rewrites has its first `"model_provider"` key after
/// `"payload"` followed by a colon and a value that ends, and no line that it
/// keeps becomes one to rewrite once a final carriage return is dropped (the
/// written text ends each line with a newline, which drops it).
pub proof fn law_session_sync_settles(text: Seq<char>, current: Seq<char>)
    requires
        forall|i: int|
            0 <= i < lines(text).len() && !rewrites(#[trigger] lines(text)[i], current) ==> !rewrites(
                strip_cr(lines(text)[i]),
                current,
            ),
        forall|i: int|
            0 <= i < lines(text).len() && rewrites(#[trigger] lines(text)[i], current) ==> payload_value_slot(
                lines(text)[i],
                "model_provider"@,
            ) is Some && payload_key_has_colon(lines(text)[i], "model_provider"@),
    ensures
        synced_session(text, current) matches Some((_, _, written)) ==> (synced_session(written, current) matches Some(
            (again, _, _),
        ) ==> !again),
{
    reveal_strlit("\n");
    let ls = lines(text);
    let st0 = SyncView { lines: seq![], changed: false, old: seq![] };
    if sync_lines(st0, ls, current) is Some {
        lemma_sync_lines_effect(st0, ls, current);
        let outs = ls.map_values(|l: Seq<char>| synced_line(l, current));
        assert(sync_lines(st0, ls, current)->0.lines =~= outs);
        let written = join(outs, "\n"@) + "\n"@;
        assert(written == lines_text(outs, true));
        lemma_lines_acc_no_newline(text, seq![]);
        assert forall|i: int| 0 <= i < outs.len() implies one_line_text(#[trigger] outs[i]) && !rewrites(
            strip_cr(outs[i]),
            current,
        ) by {
            lemma_synced_line(ls[i], current);
        }
        if outs.len() >= 1 {
            lemma_lines_of_lines_text(outs);
            let again = outs.map_values(|l: Seq<char>| strip_cr(l));
            assert(lines(written) == again);
            assert forall|i: int| 0 <= i < again.len() implies !rewrites(#[trigger] again[i], current) by {
                assert(again[i] == strip_cr(outs[i]));
            }
            if sync_lines(st0, again, current) is Some {
                lemma_sync_lines_effect(st0, again, current);
            }
        } else {
            let e = Seq::<char>::empty();
            assert(written =~= seq!['\n']);
            assert(lines(written) =~= seq![e]) by {
                assert(written[0] == '\n');
                assert(written.drop_first() =~= e);
                assert(strip_cr(e) == e);
                assert(crate::text::lines_acc(e, seq![]) =~= Seq::<Seq<char>>::empty());
                assert(lines(written) == seq![strip_cr(e)] + crate::text::lines_acc(e, seq![]));
            }
            assert(!rewrites(e, current)) by {
                crate::text::lemma_find_from(e, crate::json::key_marker("type"@), 0);
            }
            if sync_lines(st0, seq![e], current) is Some {
                lemma_sync_lines_effect(st0, seq![e], current);
            }
        }
    }
}

} // verus!
