//! The list of local sessions: thread names from the session index, which log
//! files count as rollouts, which archived copies are dropped, and the order in
//! which sessions are listed.
use vstd::prelude::*;
use crate::json::get_string;
use crate::session::{lookup, lookup_view, strings_view, Session, SessionView};
use crate::text::{chars_eq, chars_of, contains, contains_str, ends_with, starts_with, starts_with_str,
    ends_with_exec, string_of,
};

verus! {

// ---------------------------------------------------------------------------
// Thread names
// ---------------------------------------------------------------------------

/// One line of `session_index.jsonl`: its `id` and `thread_name` when both are
/// present; `None` outside the lookups' domain.
pub open spec fn index_entry(line: Seq<char>) -> Option<Option<(Seq<char>, Seq<char>)>> {
    let idl = get_string(line, "id"@);
    let nl = get_string(line, "thread_name"@);
    if idl is None || nl is None {
        None
    } else {
        match (idl->0, nl->0) {
            (Some(i), Some(n)) => Some(Some((i, n))),
            _ => Some(None),
        }
    }
}

/// The entries of the index lines, in order (`thread_names`).
pub open spec fn index_entries(lines: Seq<Seq<char>>) -> Option<Seq<(Seq<char>, Seq<char>)>>
    decreases lines.len(),
{
    if lines.len() == 0 {
        Some(seq![])
    } else {
        match (index_entries(lines.drop_last()), index_entry(lines.last())) {
            (Some(es), Some(Some(e))) => Some(es.push(e)),
            (Some(es), Some(None)) => Some(es),
            _ => None,
        }
    }
}

/// The model of index entries.
pub open spec fn entries_view(es: Seq<(String, String)>) -> Seq<(Seq<char>, Seq<char>)> {
    es.map_values(|e: (String, String)| (e.0@, e.1@))
}

/// The name that the last entry for `id` gives (later entries override
/// earlier ones).
pub open spec fn name_for(es: Seq<(Seq<char>, Seq<char>)>, id: Seq<char>) -> Option<Seq<char>>
    decreases es.len(),
{
    if es.len() == 0 {
        None
    } else if es.last().0 == id {
        Some(es.last().1)
    } else {
        name_for(es.drop_last(), id)
    }
}

fn try_thread_index(lines: &Vec<String>) -> (r: Option<Vec<(String, String)>>)
    ensures
        r matches Some(es) ==> index_entries(strings_view(lines@)) == Some(entries_view(es@)),
        r is None ==> index_entries(strings_view(lines@)) is None,
{
    let ghost lv = strings_view(lines@);
    let mut out: Vec<(String, String)> = Vec::new();
    let mut i: usize = 0;
    assert(lv.take(0) =~= Seq::<Seq<char>>::empty());
    assert(entries_view(out@) =~= Seq::<(Seq<char>, Seq<char>)>::empty());
    while i < lines.len()
        invariant
            i <= lines.len(),
            lv == strings_view(lines@),
            index_entries(lv.take(i as int)) == Some(entries_view(out@)),
        decreases lines.len() - i,
    {
        assert(lv.take(i + 1).drop_last() =~= lv.take(i as int));
        let line = chars_of(lines[i].as_str());
        let idl = lookup(line.as_slice(), "id");
        let nl = lookup(line.as_slice(), "thread_name");
        if idl.is_none() || nl.is_none() {
            proof {
                lemma_index_entries_none(lv, i as int);
            }
            return None;
        }
        match (idl.unwrap(), nl.unwrap()) {
            (Some(a), Some(b)) => {
                let ghost before = out@;
                out.push((string_of(a.as_slice()), string_of(b.as_slice())));
                assert(entries_view(out@) =~= entries_view(before).push((a@, b@)));
            },
            _ => {},
        }
        i = i + 1;
    }
    assert(lv.take(lines.len() as int) =~= lv);
    Some(out)
}

proof fn lemma_index_entries_none(lv: Seq<Seq<char>>, i: int)
    requires
        0 <= i < lv.len(),
        index_entry(lv[i]) is None,
    ensures
        index_entries(lv) is None,
    decreases lv.len(),
{
    if i < lv.len() - 1 {
        assert(lv.drop_last()[i] == lv[i]);
        lemma_index_entries_none(lv.drop_last(), i);
    }
}

/// Whether `thread_names` is defined on the lines of the session index.
pub fn thread_index_defined(lines: &Vec<String>) -> (r: bool)
    ensures
        r == index_entries(strings_view(lines@)) is Some,
{
    try_thread_index(lines).is_some()
}

/// `thread_names`: the `(id, thread_name)` entries of the session index, in
/// file order.
pub fn thread_names(lines: &Vec<String>) -> (r: Vec<(String, String)>)
    requires
        index_entries(strings_view(lines@)) is Some,
    ensures
        index_entries(strings_view(lines@)) == Some(entries_view(r@)),
{
    try_thread_index(lines).unwrap()
}

/// The thread name that the entries give to `id`.
pub fn thread_name_for(entries: &Vec<(String, String)>, id: &str) -> (r: Option<String>)
    ensures
        crate::json::opt_view(r) == name_for(entries_view(entries@), id@),
{
    let ghost ev = entries_view(entries@);
    let key = chars_of(id);
    let mut i: usize = entries.len();
    assert(ev.take(entries.len() as int) =~= ev);
    while i > 0
        invariant
            i <= entries.len(),
            ev == entries_view(entries@),
            key@ == id@,
            name_for(ev, id@) == name_for(ev.take(i as int), id@),
        decreases i,
    {
        assert(ev.take(i as int).drop_last() =~= ev.take(i - 1));
        let k = chars_of(entries[i - 1].0.as_str());
        if chars_eq(k.as_slice(), key.as_slice()) {
            let n = chars_of(entries[i - 1].1.as_str());
            return Some(string_of(n.as_slice()));
        }
        i = i - 1;
    }
    None
}

// ---------------------------------------------------------------------------
// Log files
// ---------------------------------------------------------------------------

/// A rollout log's file name: `rollout-*.jsonl`.
pub open spec fn rollout_file_name(name: Seq<char>) -> bool {
    starts_with(name, "rollout-"@) && ends_with(name, ".jsonl"@)
}

/// Whether a file name is that of a rollout log.
pub fn is_rollout_file_name(name: &str) -> (r: bool)
    ensures
        r == rollout_file_name(name@),
{
    let n = chars_of(name);
    let suf = chars_of(".jsonl");
    starts_with_str(n.as_slice(), "rollout-") && ends_with_exec(n.as_slice(), suf.as_slice())
}

/// Whether a directory name is that of a restore backup (`restore-backup-*`).
pub fn is_restore_backup_dir_name(name: &str) -> (r: bool)
    ensures
        r == starts_with(name@, "restore-backup-"@),
{
    let n = chars_of(name);
    starts_with_str(n.as_slice(), "restore-backup-")
}

/// A log path inside `archived_sessions` or a restore backup.
pub open spec fn archive_path(p: Seq<char>) -> bool {
    contains(p, "\\archived_sessions\\"@) || contains(p, "\\restore-backup-"@)
}

/// Whether a log path lies in an archive.
pub fn is_archive_path(p: &str) -> (r: bool)
    ensures
        r == archive_path(p@),
{
    let v = chars_of(p);
    contains_str(v.as_slice(), "\\archived_sessions\\") || contains_str(
        v.as_slice(),
        "\\restore-backup-",
    )
}

// ---------------------------------------------------------------------------
// The listed sessions
// ---------------------------------------------------------------------------

/// The session with its thread name from the index, if the index names it.
pub open spec fn with_thread_name(s: SessionView, es: Seq<(Seq<char>, Seq<char>)>) -> SessionView {
    match name_for(es, s.id) {
        Some(n) => SessionView { thread_name: n, ..s },
        None => s,
    }
}

/// The sessions kept, in order, given the ids `seen` in earlier non-archived
/// logs: those with an id, except archived copies of a session already seen.
pub open spec fn kept_sessions(
    ss: Seq<SessionView>,
    es: Seq<(Seq<char>, Seq<char>)>,
    seen: Seq<Seq<char>>,
) -> Seq<SessionView>
    decreases ss.len(),
{
    if ss.len() == 0 {
        seq![]
    } else {
        let s = ss[0];
        let rest = ss.drop_first();
        if s.id.len() == 0 {
            kept_sessions(rest, es, seen)
        } else if archive_path(s.path) && seen.contains(s.id) {
            kept_sessions(rest, es, seen)
        } else {
            seq![with_thread_name(s, es)] + kept_sessions(
                rest,
                es,
                if archive_path(s.path) {
                    seen
                } else {
                    seen.push(s.id)
                },
            )
        }
    }
}

/// Code-point order of two texts, which is the order of their UTF-8 bytes
/// (`Ord` for `String`).
pub open spec fn chars_lt(a: Seq<char>, b: Seq<char>) -> bool
    decreases a.len(),
{
    if a.len() == 0 {
        b.len() > 0
    } else if b.len() == 0 {
        false
    } else if a[0] != b[0] {
        a[0] < b[0]
    } else {
        chars_lt(a.drop_first(), b.drop_first())
    }
}

/// The key by which sessions are listed: the first timestamp, or the path
/// when there is none.
pub open spec fn sort_key(s: SessionView) -> Seq<char> {
    if s.first_timestamp.len() == 0 {
        s.path
    } else {
        s.first_timestamp
    }
}

/// Where a session of key `k` goes among sorted sessions: after every session
/// whose key is not greater.
pub open spec fn insert_pos(sorted: Seq<SessionView>, k: Seq<char>, i: int) -> int
    decreases sorted.len() - i,
{
    if i < 0 || i >= sorted.len() {
        sorted.len() as int
    } else if chars_lt(k, sort_key(sorted[i])) {
        i
    } else {
        insert_pos(sorted, k, i + 1)
    }
}

/// Stable sort by `sort_key` (`sort_by_key`), as insertion of each session in
/// turn.
pub open spec fn sorted_sessions(ss: Seq<SessionView>) -> Seq<SessionView>
    decreases ss.len(),
{
    if ss.len() == 0 {
        seq![]
    } else {
        let sorted = sorted_sessions(ss.drop_last());
        sorted.insert(insert_pos(sorted, sort_key(ss.last()), 0), ss.last())
    }
}

/// The model of a list of sessions.
pub open spec fn sessions_view(v: Seq<Session>) -> Seq<SessionView> {
    v.map_values(|s: Session| s@)
}

/// `load_sessions` after reading: the sessions kept from the parsed logs (in
/// log order), named from the index, sorted by key.
pub open spec fn listed_sessions(ss: Seq<SessionView>, es: Seq<(Seq<char>, Seq<char>)>) -> Seq<
    SessionView,
> {
    sorted_sessions(kept_sessions(ss, es, seq![]))
}

fn chars_lt_exec(a: &[char], b: &[char]) -> (r: bool)
    ensures
        r == chars_lt(a@, b@),
{
    let mut i: usize = 0;
    assert(a@.skip(0) =~= a@);
    assert(b@.skip(0) =~= b@);
    while i < a.len() && i < b.len() && a[i] == b[i]
        invariant
            i <= a.len(),
            i <= b.len(),
            chars_lt(a@, b@) == chars_lt(a@.skip(i as int), b@.skip(i as int)),
        decreases a.len() - i,
    {
        assert(a@.skip(i as int).drop_first() =~= a@.skip(i + 1));
        assert(b@.skip(i as int).drop_first() =~= b@.skip(i + 1));
        i = i + 1;
    }
    if i == a.len() {
        i < b.len()
    } else if i == b.len() {
        false
    } else {
        a[i] < b[i]
    }
}

fn sort_key_exec(s: &Session) -> (r: Vec<char>)
    ensures
        r@ == sort_key(s@),
{
    if s.first_timestamp.as_str().is_empty() {
        chars_of(s.path.as_str())
    } else {
        chars_of(s.first_timestamp.as_str())
    }
}

fn insert_position(out: &Vec<Session>, key: &[char]) -> (j: usize)
    ensures
        j == insert_pos(sessions_view(out@), key@, 0),
        j <= out.len(),
{
    let ghost sorted = sessions_view(out@);
    let mut j: usize = 0;
    while j < out.len()
        invariant
            j <= out.len(),
            sorted == sessions_view(out@),
            insert_pos(sorted, key@, 0) == insert_pos(sorted, key@, j as int),
        decreases out.len() - j,
    {
        let kj = sort_key_exec(&out[j]);
        if chars_lt_exec(key, kj.as_slice()) {
            return j;
        }
        j = j + 1;
    }
    j
}

/// Stable sort of sessions by `sort_key`.
pub fn sort_sessions(input: Vec<Session>) -> (r: Vec<Session>)
    ensures
        sessions_view(r@) == sorted_sessions(sessions_view(input@)),
{
    let ghost iv = sessions_view(input@);
    let mut out: Vec<Session> = Vec::new();
    let mut rest = input;
    let n = rest.len();
    let mut i: usize = 0;
    assert(iv.take(0) =~= Seq::<SessionView>::empty());
    assert(sessions_view(out@) =~= Seq::<SessionView>::empty());
    assert(sessions_view(rest@) =~= iv.skip(0));
    while i < n
        invariant
            i <= n,
            n == iv.len(),
            rest.len() == n - i,
            sessions_view(rest@) == iv.skip(i as int),
            sessions_view(out@) == sorted_sessions(iv.take(i as int)),
        decreases n - i,
    {
        let ghost rv = sessions_view(rest@);
        let ghost rs = rest@;
        let s = rest.remove(0);
        assert(rest@ =~= rs.subrange(1, rs.len() as int));
        assert(s@ == rv[0]);
        assert(sessions_view(rest@) =~= rv.drop_first());
        assert(rv.drop_first() =~= iv.skip(i + 1));
        assert(iv.take(i + 1).drop_last() =~= iv.take(i as int));
        let key = sort_key_exec(&s);
        let ghost sorted = sessions_view(out@);
        let j = insert_position(&out, key.as_slice());
        out.insert(j, s);
        assert(sessions_view(out@) =~= sorted.insert(j as int, s@));
        i = i + 1;
    }
    assert(iv.take(n as int) =~= iv);
    out
}


fn seen_contains(seen: &Vec<Vec<char>>, id: &[char]) -> (r: bool)
    ensures
        r == seen@.map_values(|v: Vec<char>| v@).contains(id@),
{
    let ghost sv = seen@.map_values(|v: Vec<char>| v@);
    let mut i: usize = 0;
    while i < seen.len()
        invariant
            i <= seen.len(),
            sv == seen@.map_values(|v: Vec<char>| v@),
            forall|k: int| 0 <= k < i ==> sv[k] != id@,
        decreases seen.len() - i,
    {
        if chars_eq(seen[i].as_slice(), id) {
            assert(sv[i as int] == id@);
            return true;
        }
        i = i + 1;
    }
    false
}

/// The sessions kept from the parsed logs, in log order, named from the index:
/// sessions without an id are dropped, and so is an archived copy of a session
/// whose live log came earlier.
pub fn select_sessions(parsed: Vec<Session>, entries: &Vec<(String, String)>) -> (r: Vec<Session>)
    ensures
        sessions_view(r@) == kept_sessions(sessions_view(parsed@), entries_view(entries@), seq![]),
{
    let ghost iv = sessions_view(parsed@);
    let ghost es = entries_view(entries@);
    let mut out: Vec<Session> = Vec::new();
    let mut seen: Vec<Vec<char>> = Vec::new();
    let mut rest = parsed;
    let n = rest.len();
    let mut i: usize = 0;
    assert(sessions_view(rest@) =~= iv.skip(0));
    assert(seen@.map_values(|v: Vec<char>| v@) =~= Seq::<Seq<char>>::empty());
    assert(sessions_view(out@) =~= Seq::<SessionView>::empty());
    while i < n
        invariant
            i <= n,
            n == iv.len(),
            es == entries_view(entries@),
            rest.len() == n - i,
            sessions_view(rest@) == iv.skip(i as int),
            kept_sessions(iv, es, seq![]) == sessions_view(out@) + kept_sessions(
                iv.skip(i as int),
                es,
                seen@.map_values(|v: Vec<char>| v@),
            ),
        decreases n - i,
    {
        let ghost rv = sessions_view(rest@);
        let ghost rs = rest@;
        let ghost sv = seen@.map_values(|v: Vec<char>| v@);
        let ghost before = sessions_view(out@);
        let mut s = rest.remove(0);
        assert(rest@ =~= rs.subrange(1, rs.len() as int));
        assert(s@ == rv[0]);
        assert(sessions_view(rest@) =~= rv.drop_first());
        assert(rv.drop_first() =~= iv.skip(i + 1));
        let id = chars_of(s.id.as_str());
        if id.len() > 0 {
            let arch = is_archive_path(s.path.as_str());
            if !(arch && seen_contains(&seen, id.as_slice())) {
                let ghost s0 = s@;
                match thread_name_for(entries, s.id.as_str()) {
                    Some(name) => {
                        s.thread_name = name;
                    },
                    None => {},
                }
                assert(s@ == with_thread_name(s0, es));
                if !arch {
                    seen.push(id);
                    assert(seen@.map_values(|v: Vec<char>| v@) =~= sv.push(s0.id));
                }
                out.push(s);
                assert(sessions_view(out@) =~= before.push(with_thread_name(s0, es)));
                assert(before + (seq![with_thread_name(s0, es)] + kept_sessions(
                    iv.skip(i + 1),
                    es,
                    seen@.map_values(|v: Vec<char>| v@),
                )) =~= sessions_view(out@) + kept_sessions(
                    iv.skip(i + 1),
                    es,
                    seen@.map_values(|v: Vec<char>| v@),
                ));
            }
        }
        i = i + 1;
    }
    assert(iv.skip(n as int) =~= Seq::<SessionView>::empty());
    assert(sessions_view(out@) + Seq::<SessionView>::empty() =~= sessions_view(out@));
    out
}

/// `load_sessions` once the logs are read: the kept sessions (see
/// `select_sessions`) sorted by first timestamp, or by path when a session has
/// none, equal keys keeping log order.
pub fn list_sessions(parsed: Vec<Session>, entries: &Vec<(String, String)>) -> (r: Vec<Session>)
    ensures
        sessions_view(r@) == listed_sessions(sessions_view(parsed@), entries_view(entries@)),
{
    let kept = select_sessions(parsed, entries);
    sort_sessions(kept)
}


// ---------------------------------------------------------------------------
// Laws
// ---------------------------------------------------------------------------

proof fn lemma_lt_irreflexive(a: Seq<char>)
    ensures
        !chars_lt(a, a),
    decreases a.len(),
{
    if a.len() > 0 {
        lemma_lt_irreflexive(a.drop_first());
    }
}

proof fn lemma_lt_transitive(a: Seq<char>, b: Seq<char>, c: Seq<char>)
    requires
        chars_lt(a, b),
        chars_lt(b, c),
    ensures
        chars_lt(a, c),
    decreases a.len(),
{
    if a.len() > 0 && b.len() > 0 && c.len() > 0 {
        if a[0] == b[0] && b[0] == c[0] {
            lemma_lt_transitive(a.drop_first(), b.drop_first(), c.drop_first());
        }
    }
}

proof fn lemma_lt_total(a: Seq<char>, b: Seq<char>)
    requires
        a != b,
    ensures
        chars_lt(a, b) || chars_lt(b, a),
    decreases a.len(),
{
    if a.len() > 0 && b.len() > 0 && a[0] == b[0] {
        if a.drop_first() == b.drop_first() {
            assert(a =~= seq![a[0]] + a.drop_first());
            assert(b =~= seq![b[0]] + b.drop_first());
        }
        lemma_lt_total(a.drop_first(), b.drop_first());
    } else if a.len() == 0 && b.len() == 0 {
        assert(a =~= b);
    } else if a.len() > 0 && b.len() > 0 {
    }
}

/// `b` comes before `a` in the order of `k`: not after it.
proof fn lemma_lt_le(a: Seq<char>, b: Seq<char>, c: Seq<char>)
    requires
        chars_lt(a, b),
        !chars_lt(c, b),
    ensures
        chars_lt(a, c),
        !chars_lt(c, a),
{
    if b != c {
        lemma_lt_total(b, c);
        lemma_lt_transitive(a, b, c);
    }
    if chars_lt(c, a) {
        lemma_lt_transitive(c, a, c);
        lemma_lt_irreflexive(c);
    }
}

/// Sessions ordered by key: no session has a greater key than a later one.
pub open spec fn ordered_by_key(ss: Seq<SessionView>) -> bool {
    forall|i: int, j: int| 0 <= i < j < ss.len() ==> !chars_lt(sort_key(ss[j]), sort_key(ss[i]))
}

proof fn lemma_insert_pos(sorted: Seq<SessionView>, k: Seq<char>, i: int)
    requires
        0 <= i <= sorted.len(),
    ensures
        i <= insert_pos(sorted, k, i) <= sorted.len(),
        forall|j: int| i <= j < insert_pos(sorted, k, i) ==> !chars_lt(k, sort_key(#[trigger] sorted[j])),
        insert_pos(sorted, k, i) < sorted.len() ==> chars_lt(k, sort_key(sorted[insert_pos(sorted, k, i)])),
    decreases sorted.len() - i,
{
    if i < sorted.len() && !chars_lt(k, sort_key(sorted[i])) {
        lemma_insert_pos(sorted, k, i + 1);
    }
}

proof fn lemma_insert_ordered(sorted: Seq<SessionView>, x: SessionView)
    requires
        ordered_by_key(sorted),
    ensures
        ordered_by_key(sorted.insert(insert_pos(sorted, sort_key(x), 0), x)),
{
    let k = sort_key(x);
    lemma_insert_pos(sorted, k, 0);
    let p = insert_pos(sorted, k, 0);
    let t = sorted.insert(p, x);
    assert forall|i: int, j: int| 0 <= i < j < t.len() implies !chars_lt(
        sort_key(t[j]),
        sort_key(t[i]),
    ) by {
        if i < p && j < p {
            assert(t[i] == sorted[i] && t[j] == sorted[j]);
        } else if i < p && j == p {
            assert(t[i] == sorted[i] && t[j] == x);
        } else if i < p && j > p {
            assert(t[i] == sorted[i] && t[j] == sorted[j - 1]);
        } else if i == p {
            assert(t[i] == x && t[j] == sorted[j - 1]);
            assert(chars_lt(k, sort_key(sorted[p])));
            if j - 1 > p {
                assert(!chars_lt(sort_key(sorted[j - 1]), sort_key(sorted[p])));
            } else {
                lemma_lt_irreflexive(sort_key(sorted[p]));
            }
            lemma_lt_le(k, sort_key(sorted[p]), sort_key(sorted[j - 1]));
        } else {
            assert(t[i] == sorted[i - 1] && t[j] == sorted[j - 1]);
        }
    }
}

/// The listed sessions are in order of their keys (first timestamp, or path).
pub proof fn law_sorted_sessions_ordered(ss: Seq<SessionView>)
    ensures
        ordered_by_key(sorted_sessions(ss)),
        sorted_sessions(ss).len() == ss.len(),
    decreases ss.len(),
{
    if ss.len() > 0 {
        law_sorted_sessions_ordered(ss.drop_last());
        let sorted = sorted_sessions(ss.drop_last());
        lemma_insert_pos(sorted, sort_key(ss.last()), 0);
        lemma_insert_ordered(sorted, ss.last());
    }
}


/// Every kept session has an id, and a kept session's id is in `seen` only
/// when it is not archived; a kept live session's id is never that of a later
/// kept archived copy.
proof fn lemma_kept_sessions(ss: Seq<SessionView>, es: Seq<(Seq<char>, Seq<char>)>, seen: Seq<Seq<char>>)
    ensures
        forall|i: int| 0 <= i < kept_sessions(ss, es, seen).len() ==> (#[trigger] kept_sessions(ss, es, seen)[i]).id.len() > 0,
        forall|i: int|
            0 <= i < kept_sessions(ss, es, seen).len() && archive_path(
                (#[trigger] kept_sessions(ss, es, seen)[i]).path,
            ) ==> !seen.contains(kept_sessions(ss, es, seen)[i].id),
        forall|i: int, j: int|
            0 <= i < j < kept_sessions(ss, es, seen).len() && !archive_path(
                (#[trigger] kept_sessions(ss, es, seen)[i]).path,
            ) && archive_path((#[trigger] kept_sessions(ss, es, seen)[j]).path) ==> kept_sessions(
                ss,
                es,
                seen,
            )[i].id != kept_sessions(ss, es, seen)[j].id,
    decreases ss.len(),
{
    if ss.len() == 0 {
        assert(kept_sessions(ss, es, seen).len() == 0);
    } else {
        let s0 = ss[0];
        let rest = ss.drop_first();
        if s0.id.len() == 0 || (archive_path(s0.path) && seen.contains(s0.id)) {
            lemma_kept_sessions(rest, es, seen);
            assert(kept_sessions(ss, es, seen) == kept_sessions(rest, es, seen));
        } else {
            let seen2 = if archive_path(s0.path) {
                seen
            } else {
                seen.push(s0.id)
            };
            lemma_kept_sessions(rest, es, seen2);
            let k = kept_sessions(ss, es, seen);
            let tail = kept_sessions(rest, es, seen2);
            let first = with_thread_name(s0, es);
            assert(k == seq![first] + tail);
            assert(first.id == s0.id && first.path == s0.path);
            assert forall|i: int| 0 <= i < k.len() implies (#[trigger] k[i]).id.len() > 0 by {
                if i > 0 {
                    assert(k[i] == tail[i - 1]);
                }
            }
            assert forall|i: int| 0 <= i < k.len() && archive_path((#[trigger] k[i]).path) implies !seen.contains(
                k[i].id,
            ) by {
                if i > 0 {
                    assert(k[i] == tail[i - 1]);
                    if !archive_path(s0.path) && seen.contains(k[i].id) {
                        let w = choose|w: int| 0 <= w < seen.len() && seen[w] == k[i].id;
                        assert(seen2[w] == seen[w]);
                        assert(seen2.contains(k[i].id));
                    }
                }
            }
            assert forall|i: int, j: int|
                0 <= i < j < k.len() && !archive_path((#[trigger] k[i]).path) && archive_path(
                    (#[trigger] k[j]).path,
                ) implies k[i].id != k[j].id by {
                assert(k[j] == tail[j - 1]);
                if i == 0 {
                    assert(seen2.contains(s0.id)) by {
                        assert(seen2[seen2.len() - 1] == s0.id);
                    }
                } else {
                    assert(k[i] == tail[i - 1]);
                }
            }
        }
    }
}

/// Sorting keeps every session: the sorted sessions are the given ones, each as
/// often as given.
pub proof fn law_sorted_sessions_permutes(ss: Seq<SessionView>)
    ensures
        sorted_sessions(ss).to_multiset() == ss.to_multiset(),
    decreases ss.len(),
{
    if ss.len() > 0 {
        let init = ss.drop_last();
        law_sorted_sessions_permutes(init);
        let sorted = sorted_sessions(init);
        law_sorted_sessions_ordered(init);
        lemma_insert_pos(sorted, sort_key(ss.last()), 0);
        let pos = insert_pos(sorted, sort_key(ss.last()), 0);
        vstd::seq_lib::to_multiset_insert(sorted, pos, ss.last());
        vstd::seq_lib::to_multiset_build(init, ss.last());
        assert(init.push(ss.last()) =~= ss);
        assert(sorted_sessions(ss) == sorted.insert(pos, ss.last()));
        assert(sorted_sessions(ss).to_multiset() == init.to_multiset().insert(ss.last()));
    } else {
        assert(ss =~= Seq::<SessionView>::empty());
        assert(sorted_sessions(ss) =~= ss);
    }
}

/// The listed sessions all have ids, and no archived copy is listed beside
/// an earlier live log of the same session.
pub proof fn law_kept_sessions_unique(ss: Seq<SessionView>, es: Seq<(Seq<char>, Seq<char>)>)
    ensures
        forall|i: int| 0 <= i < kept_sessions(ss, es, seq![]).len() ==> (#[trigger] kept_sessions(ss, es, seq![])[i]).id.len() > 0,
        forall|i: int, j: int|
            0 <= i < j < kept_sessions(ss, es, seq![]).len() && !archive_path(
                (#[trigger] kept_sessions(ss, es, seq![])[i]).path,
            ) && archive_path((#[trigger] kept_sessions(ss, es, seq![])[j]).path) ==> kept_sessions(
                ss,
                es,
                seq![],
            )[i].id != kept_sessions(ss, es, seq![])[j].id,
{
    lemma_kept_sessions(ss, es, seq![]);
}

} // verus!
