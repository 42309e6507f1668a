//! The texts shown for a session: list entry, preview, detail, native resume
//! command, resume-risk diagnosis and restore prompt.
use vstd::prelude::*;
use crate::config::{quote_toml, quote_toml_chars, ConfigSummary, ConfigView};
use crate::session::{count_eq, count_role, MessageView, Session, SessionView, strings_view};
use crate::text::{
    chars_eq, chars_eq_str, chars_of, contains, contains_str, ends_with, lemma_contains_split, decimal, decimal_exec, extend,
    extend_str, join, join_exec, split_whitespace, string_of, trim_end, trim_end_chars, utf8_len,
    utf8_len_at_most, words,
};

verus! {

/// `s`, or `d` when `s` is empty.
pub open spec fn or_default(s: Seq<char>, d: Seq<char>) -> Seq<char> {
    if s.len() == 0 {
        d
    } else {
        s
    }
}

/// The first `n` elements of `s`, or all of them (`Iterator::take`).
pub open spec fn take_upto<A>(s: Seq<A>, n: int) -> Seq<A> {
    if n >= s.len() {
        s
    } else {
        s.take(n)
    }
}

/// `compact_time(v)`: `-` for no time, otherwise its first 19 characters with
/// `T` shown as a space.
pub open spec fn compact_time(v: Seq<char>) -> Seq<char> {
    if v.len() == 0 {
        "-"@
    } else {
        take_upto(v, 19).map_values(|c: char| if c == 'T' {
            ' '
        } else {
            c
        })
    }
}

/// `one_line(t, limit)`: the words of `t` joined by single spaces; when that
/// has more than `limit` UTF-8 bytes, its first `limit - 1` characters (none
/// for `limit` 0) without trailing whitespace, followed by `…`.
pub open spec fn one_line(t: Seq<char>, limit: nat) -> Seq<char> {
    let c = join(words(t), " "@);
    if utf8_len(c) <= limit {
        c
    } else {
        trim_end(take_upto(c, if limit == 0 {
            0
        } else {
            limit - 1
        })) + "…"@
    }
}

fn or_default_chars(s: &str, d: &str) -> (r: Vec<char>)
    ensures
        r@ == or_default(s@, d@),
{
    if s.is_empty() {
        chars_of(d)
    } else {
        chars_of(s)
    }
}

/// `compact_time` on characters.
pub fn compact_time_chars(v: &[char]) -> (r: Vec<char>)
    ensures
        r@ == compact_time(v@),
        r@.len() <= 19,
        forall|i: int| 0 <= i < r@.len() ==> r@[i] != 'T',
{
    if v.len() == 0 {
        let r = chars_of("-");
        proof {
            reveal_strlit("-");
        }
        return r;
    }
    let n: usize = if v.len() < 19 {
        v.len()
    } else {
        19
    };
    let ghost src = take_upto(v@, 19);
    assert(src =~= v@.take(n as int));
    let mut out: Vec<char> = Vec::new();
    let mut i: usize = 0;
    while i < n
        invariant
            i <= n <= v.len(),
            n <= 19,
            src =~= v@.take(n as int),
            out@ == src.take(i as int).map_values(|c: char| if c == 'T' {
                ' '
            } else {
                c
            }),
        decreases n - i,
    {
        let c = v[i];
        out.push(if c == 'T' {
            ' '
        } else {
            c
        });
        assert(src.take(i + 1) =~= src.take(i as int).push(c));
        assert(out@ =~= src.take(i + 1).map_values(|c: char| if c == 'T' {
            ' '
        } else {
            c
        }));
        i = i + 1;
    }
    assert(src.take(n as int) =~= src);
    out
}

/// `compact_time(v)`.
pub fn compact_time_of(v: &str) -> (r: String)
    ensures
        r@ == compact_time(v@),
        r@.len() <= 19,
        forall|i: int| 0 <= i < r@.len() ==> r@[i] != 'T',
{
    let c = chars_of(v);
    let r = compact_time_chars(c.as_slice());
    string_of(r.as_slice())
}

/// `one_line` on characters.
pub fn one_line_chars(t: &[char], limit: usize) -> (r: Vec<char>)
    ensures
        r@ == one_line(t@, limit as nat),
        r@.len() <= if limit == 0 { 1 } else { limit as int },
{
    let ws = split_whitespace(t);
    let sp = chars_of(" ");
    let c = join_exec(&ws, sp.as_slice());
    if utf8_len_at_most(c.as_slice(), limit) {
        proof {
            crate::text::lemma_utf8_len_bounds(c@);
        }
        return c;
    }
    let keep: usize = if limit == 0 {
        0
    } else {
        limit - 1
    };
    let n: usize = if keep < c.len() {
        keep
    } else {
        c.len()
    };
    let head = &c[0..n];
    assert(head@ =~= take_upto(c@, keep as int));
    let mut out = trim_end_chars(head);
    proof {
        crate::text::lemma_trim_end_prefix(head@);
        reveal_strlit("…");
    }
    extend_str(&mut out, "…");
    out
}

/// `one_line(t, limit)`: the text on one line, cut to about `limit` bytes.
pub fn one_line_of(t: &str, limit: usize) -> (r: String)
    ensures
        r@ == one_line(t@, limit as nat),
        r@.len() <= if limit == 0 { 1 } else { limit as int },
{
    let c = chars_of(t);
    let r = one_line_chars(c.as_slice(), limit);
    string_of(r.as_slice())
}

/// The user messages, in order.
pub open spec fn user_messages(ms: Seq<MessageView>) -> Seq<MessageView>
    decreases ms.len(),
{
    if ms.len() == 0 {
        seq![]
    } else if ms.last().role == "user"@ {
        user_messages(ms.drop_last()).push(ms.last())
    } else {
        user_messages(ms.drop_last())
    }
}

/// The last `n` elements of `s`, in order.
pub open spec fn last_n<A>(s: Seq<A>, n: int) -> Seq<A> {
    if s.len() <= n {
        s
    } else {
        s.skip(s.len() - n)
    }
}

/// Detail lines of errors: `  - <error on one line>`.
pub open spec fn error_lines(es: Seq<Seq<char>>) -> Seq<char>
    decreases es.len(),
{
    if es.len() == 0 {
        seq![]
    } else {
        error_lines(es.drop_last()) + "  - "@ + one_line(es.last(), 180) + "\r\n"@
    }
}

/// Detail lines of prompts: `  - <time> <text on one line>`.
pub open spec fn prompt_lines(ms: Seq<MessageView>) -> Seq<char>
    decreases ms.len(),
{
    if ms.len() == 0 {
        seq![]
    } else {
        prompt_lines(ms.drop_last()) + "  - "@ + compact_time(ms.last().timestamp) + " "@ + one_line(
            ms.last().text,
            220,
        ) + "\r\n"@
    }
}

/// `render_detail(s)`.
pub open spec fn detail_text(s: SessionView) -> Seq<char> {
    let users = user_messages(s.messages);
    "id:        "@ + s.id + "\r\nname:      "@ + or_default(s.thread_name, "unnamed"@)
        + "\r\npath:      "@ + s.path + "\r\ntime:      "@ + s.first_timestamp + " -> "@
        + s.last_timestamp + "\r\ncwd:       "@ + or_default(s.cwd, "unknown"@)
        + "\r\nprovider:  "@ + or_default(s.provider, "unknown"@) + "\r\nmodel:     "@
        + or_default(s.model, "unknown"@) + "\r\nsource:    "@ + or_default(s.source, "unknown"@)
        + "\r\nturns:     user="@ + decimal(count_role(s.messages, "user"@)) + " assistant="@
        + decimal(count_role(s.messages, "assistant"@)) + "\r\nevents:    aborted="@ + decimal(
        count_eq(s.event_types, "turn_aborted"@),
    ) + " rolled_back="@ + decimal(count_eq(s.event_types, "thread_rolled_back"@)) + "\r\n"@ + (
    if s.errors.len() > 0 {
        "errors:\r\n"@ + error_lines(take_upto(s.errors, 5))
    } else {
        seq![]
    }) + (if users.len() > 0 {
        "recent user prompts:\r\n"@ + prompt_lines(last_n(users, 20))
    } else {
        seq![]
    })
}

fn push_usize(out: &mut Vec<char>, n: usize)
    ensures
        final(out)@ == old(out)@ + decimal(n as nat),
{
    let d = decimal_exec(n);
    extend(out, d.as_slice());
}

fn user_messages_exec(ms: &Vec<crate::session::Message>) -> (r: Vec<usize>)
    ensures
        r@.len() == user_messages(ms@.map_values(|m: crate::session::Message| m@)).len(),
        forall|k: int| 0 <= k < r@.len() ==> #[trigger] r@[k] < ms.len() && ms@[r@[k] as int]@
            == user_messages(ms@.map_values(|m: crate::session::Message| m@))[k],
{
    let ghost mv = ms@.map_values(|m: crate::session::Message| m@);
    let mut r: Vec<usize> = Vec::new();
    let mut i: usize = 0;
    while i < ms.len()
        invariant
            i <= ms.len(),
            mv == ms@.map_values(|m: crate::session::Message| m@),
            r@.len() == user_messages(mv.take(i as int)).len(),
            forall|k: int| 0 <= k < r@.len() ==> #[trigger] r@[k] < ms.len() && ms@[r@[k] as int]@
                == user_messages(mv.take(i as int))[k],
        decreases ms.len() - i,
    {
        assert(mv.take(i + 1).drop_last() =~= mv.take(i as int));
        let role = chars_of(ms[i].role.as_str());
        if chars_eq_str(role.as_slice(), "user") {
            r.push(i);
        }
        i = i + 1;
    }
    assert(mv.take(ms.len() as int) =~= mv);
    r
}

/// `render_detail(s)`: identity, place, time range, provider, model, source,
/// turn and event counts, up to five errors and the last twenty user prompts.
pub fn render_detail(s: &Session) -> (r: String)
    ensures
        r@ == detail_text(s@),
{
    let ghost sv = s@;
    let mut out = chars_of("id:        ");
    extend_str(&mut out, s.id.as_str());
    extend_str(&mut out, "\r\nname:      ");
    extend(&mut out, or_default_chars(s.thread_name.as_str(), "unnamed").as_slice());
    extend_str(&mut out, "\r\npath:      ");
    extend_str(&mut out, s.path.as_str());
    extend_str(&mut out, "\r\ntime:      ");
    extend_str(&mut out, s.first_timestamp.as_str());
    extend_str(&mut out, " -> ");
    extend_str(&mut out, s.last_timestamp.as_str());
    extend_str(&mut out, "\r\ncwd:       ");
    extend(&mut out, or_default_chars(s.cwd.as_str(), "unknown").as_slice());
    extend_str(&mut out, "\r\nprovider:  ");
    extend(&mut out, or_default_chars(s.provider.as_str(), "unknown").as_slice());
    extend_str(&mut out, "\r\nmodel:     ");
    extend(&mut out, or_default_chars(s.model.as_str(), "unknown").as_slice());
    extend_str(&mut out, "\r\nsource:    ");
    extend(&mut out, or_default_chars(s.source.as_str(), "unknown").as_slice());
    extend_str(&mut out, "\r\nturns:     user=");
    push_usize(&mut out, s.user_turns());
    extend_str(&mut out, " assistant=");
    push_usize(&mut out, s.assistant_turns());
    extend_str(&mut out, "\r\nevents:    aborted=");
    push_usize(&mut out, s.aborted_turns());
    extend_str(&mut out, " rolled_back=");
    push_usize(&mut out, s.rolled_back_turns());
    extend_str(&mut out, "\r\n");
    let ghost head = out@;
    assert(head =~= "id:        "@ + sv.id + "\r\nname:      "@ + or_default(sv.thread_name, "unnamed"@)
        + "\r\npath:      "@ + sv.path + "\r\ntime:      "@ + sv.first_timestamp + " -> "@
        + sv.last_timestamp + "\r\ncwd:       "@ + or_default(sv.cwd, "unknown"@)
        + "\r\nprovider:  "@ + or_default(sv.provider, "unknown"@) + "\r\nmodel:     "@
        + or_default(sv.model, "unknown"@) + "\r\nsource:    "@ + or_default(sv.source, "unknown"@)
        + "\r\nturns:     user="@ + decimal(count_role(sv.messages, "user"@)) + " assistant="@
        + decimal(count_role(sv.messages, "assistant"@)) + "\r\nevents:    aborted="@ + decimal(
        count_eq(sv.event_types, "turn_aborted"@),
    ) + " rolled_back="@ + decimal(count_eq(sv.event_types, "thread_rolled_back"@)) + "\r\n"@);
    // errors
    let ghost ev = strings_view(s.errors@);
    if s.errors.len() > 0 {
        extend_str(&mut out, "errors:\r\n");
        let n: usize = if s.errors.len() < 5 {
            s.errors.len()
        } else {
            5
        };
        let ghost shown = take_upto(ev, 5);
        assert(shown =~= ev.take(n as int));
        let ghost base = out@;
        let mut i: usize = 0;
        assert(shown.take(0) =~= Seq::<Seq<char>>::empty());
        assert(base + error_lines(shown.take(0)) =~= base);
        while i < n
            invariant
                i <= n <= s.errors.len(),
                ev == strings_view(s.errors@),
                shown =~= ev.take(n as int),
                out@ == base + error_lines(shown.take(i as int)),
            decreases n - i,
        {
            assert(shown.take(i + 1).drop_last() =~= shown.take(i as int));
            let ghost before = out@;
            extend_str(&mut out, "  - ");
            let e = chars_of(s.errors[i].as_str());
            extend(&mut out, one_line_chars(e.as_slice(), 180).as_slice());
            extend_str(&mut out, "\r\n");
            assert(out@ =~= before + "  - "@ + one_line(ev[i as int], 180) + "\r\n"@);
            i = i + 1;
        }
        assert(shown.take(n as int) =~= shown);
    }
    let ghost mid = out@;
    // recent user prompts
    let ghost users = user_messages(sv.messages);
    let idx = user_messages_exec(&s.messages);
    if idx.len() > 0 {
        extend_str(&mut out, "recent user prompts:\r\n");
        let start: usize = if idx.len() > 20 {
            idx.len() - 20
        } else {
            0
        };
        let ghost shown = last_n(users, 20);
        assert(shown =~= users.skip(start as int));
        let ghost base = out@;
        let mut i: usize = start;
        assert(shown.take(0) =~= Seq::<MessageView>::empty());
        assert(base + prompt_lines(shown.take(0)) =~= base);
        while i < idx.len()
            invariant
                start <= i <= idx.len(),
                idx@.len() == users.len(),
                users == user_messages(s@.messages),
                shown =~= users.skip(start as int),
                forall|k: int| 0 <= k < idx@.len() ==> #[trigger] idx@[k] < s.messages.len()
                    && s.messages@[idx@[k] as int]@ == users[k],
                out@ == base + prompt_lines(shown.take(i - start)),
            decreases idx.len() - i,
        {
            assert(shown.take(i - start + 1).drop_last() =~= shown.take(i - start));
            let ghost before = out@;
            let m = &s.messages[idx[i]];
            assert(m@ == shown[i - start]);
            extend_str(&mut out, "  - ");
            let ts = chars_of(m.timestamp.as_str());
            extend(&mut out, compact_time_chars(ts.as_slice()).as_slice());
            extend_str(&mut out, " ");
            let tx = chars_of(m.text.as_str());
            extend(&mut out, one_line_chars(tx.as_slice(), 220).as_slice());
            extend_str(&mut out, "\r\n");
            assert(out@ =~= before + "  - "@ + compact_time(m@.timestamp) + " "@ + one_line(
                m@.text,
                220,
            ) + "\r\n"@);
            i = i + 1;
        }
        assert(shown.take(idx.len() - start) =~= shown);
    }
    assert(out@ =~= detail_text(sv));
    string_of(out.as_slice())
}


/// The last user message, if any.
pub open spec fn last_user_message(ms: Seq<MessageView>) -> Option<MessageView>
    decreases ms.len(),
{
    if ms.len() == 0 {
        None
    } else if ms.last().role == "user"@ {
        Some(ms.last())
    } else {
        last_user_message(ms.drop_last())
    }
}

/// `render_restore(s)`: the Markdown prompt that asks a new session to restore
/// this one from its local log, ending with the last user request.
pub open spec fn restore_text(s: SessionView) -> Seq<char> {
    "# Codex Local Session Restore\n\nPlease restore this local Codex session and continue work.\n\n## Session\n\n- Session id: `"@
        + s.id + "`\n- Thread name: `"@ + or_default(s.thread_name, s.id)
        + "`\n- Original cwd: `"@ + or_default(s.cwd, "unknown"@) + "`\n- Original provider: `"@
        + or_default(s.provider, "unknown"@) + "`\n- Time range: `"@ + s.first_timestamp
        + "` -> `"@ + s.last_timestamp + "`\n- Local JSONL: `"@ + s.path
        + "`\n\n## Restore Requirements\n\n1. Read `Local JSONL` first; do not rely on server-side `/resume`.\n2. Summarize latest target, constraints, files, verification status, and remaining work.\n3. Treat the last real user request as current.\n"@
        + match last_user_message(s.messages) {
        Some(m) => "\n## Last User Request\n\n"@ + m.text + "\n"@,
        None => seq![],
    }
}

fn last_user_index(ms: &Vec<crate::session::Message>) -> (r: Option<usize>)
    ensures
        match r {
            Some(i) => i < ms.len() && last_user_message(ms@.map_values(|m: crate::session::Message| m@))
                == Some(ms@[i as int]@),
            None => last_user_message(ms@.map_values(|m: crate::session::Message| m@)) is None,
        },
{
    let ghost mv = ms@.map_values(|m: crate::session::Message| m@);
    let mut i: usize = ms.len();
    assert(mv.take(ms.len() as int) =~= mv);
    while i > 0
        invariant
            i <= ms.len(),
            mv == ms@.map_values(|m: crate::session::Message| m@),
            last_user_message(mv) == last_user_message(mv.take(i as int)),
        decreases i,
    {
        assert(mv.take(i as int).drop_last() =~= mv.take(i - 1));
        let role = chars_of(ms[i - 1].role.as_str());
        if chars_eq_str(role.as_slice(), "user") {
            return Some(i - 1);
        }
        i = i - 1;
    }
    None
}

/// `render_restore(s)`.
pub fn render_restore(s: &Session) -> (r: String)
    ensures
        r@ == restore_text(s@),
{
    let ghost sv = s@;
    let mut out = chars_of(
        "# Codex Local Session Restore\n\nPlease restore this local Codex session and continue work.\n\n## Session\n\n- Session id: `",
    );
    extend_str(&mut out, s.id.as_str());
    extend_str(&mut out, "`\n- Thread name: `");
    extend(&mut out, or_default_chars(s.thread_name.as_str(), s.id.as_str()).as_slice());
    extend_str(&mut out, "`\n- Original cwd: `");
    extend(&mut out, or_default_chars(s.cwd.as_str(), "unknown").as_slice());
    extend_str(&mut out, "`\n- Original provider: `");
    extend(&mut out, or_default_chars(s.provider.as_str(), "unknown").as_slice());
    extend_str(&mut out, "`\n- Time range: `");
    extend_str(&mut out, s.first_timestamp.as_str());
    extend_str(&mut out, "` -> `");
    extend_str(&mut out, s.last_timestamp.as_str());
    extend_str(&mut out, "`\n- Local JSONL: `");
    extend_str(&mut out, s.path.as_str());
    extend_str(
        &mut out,
        "`\n\n## Restore Requirements\n\n1. Read `Local JSONL` first; do not rely on server-side `/resume`.\n2. Summarize latest target, constraints, files, verification status, and remaining work.\n3. Treat the last real user request as current.\n",
    );
    let ghost head = out@;
    match last_user_index(&s.messages) {
        Some(i) => {
            extend_str(&mut out, "\n## Last User Request\n\n");
            extend_str(&mut out, s.messages[i].text.as_str());
            extend_str(&mut out, "\n");
        },
        None => {},
    }
    assert(out@ =~= restore_text(sv));
    string_of(out.as_slice())
}

/// `render_native(s)` with the configuration `c`: the session's and the
/// current provider, whether a native resume is possible, and the `codex
/// resume` command for the session's provider.
pub open spec fn native_text(s: SessionView, c: ConfigView) -> Seq<char> {
    let cur = crate::session::or_empty(c.model_provider);
    let head = "session:          "@ + s.id + " ("@ + or_default(s.thread_name, "unnamed"@)
        + ")\r\nsession provider: "@ + or_default(s.provider, "unknown"@) + "\r\ncurrent provider: "@
        + or_default(cur, "unknown"@) + "\r\nconfig:           "@ + c.path + "\r\n"@;
    if s.provider.len() == 0 {
        head
            + "native status:    blocked\r\nreason:           session JSONL does not record original provider\r\n"@
    } else {
        head + (if !c.providers.contains(s.provider) {
            "native status:    blocked\r\nreason:           provider '"@ + s.provider
                + "' is not defined in current config\r\n"@
        } else {
            "native status:    possible\r\nnote:             provider must support response-chain resume\r\n"@
        }) + "command:\r\n  codex resume "@ + s.id + " -c model_provider="@ + quote_toml(s.provider)
            + " -c disable_response_storage=false"@ + (if s.cwd.len() > 0 {
            " -C \""@ + s.cwd + "\""@
        } else {
            seq![]
        }) + "\r\n"@
    }
}

fn strings_contain(v: &Vec<String>, x: &[char]) -> (r: bool)
    ensures
        r == strings_view(v@).contains(x@),
{
    let ghost sv = strings_view(v@);
    let mut i: usize = 0;
    while i < v.len()
        invariant
            i <= v.len(),
            sv == strings_view(v@),
            forall|k: int| 0 <= k < i ==> sv[k] != x@,
        decreases v.len() - i,
    {
        let y = chars_of(v[i].as_str());
        if chars_eq(y.as_slice(), x) {
            assert(sv[i as int] == x@);
            return true;
        }
        i = i + 1;
    }
    false
}

fn current_provider_chars(c: &ConfigSummary) -> (r: Vec<char>)
    ensures
        r@ == crate::session::or_empty(c@.model_provider),
{
    match &c.model_provider {
        Some(p) => chars_of(p.as_str()),
        None => Vec::new(),
    }
}

/// `render_native(s)` with the configuration `c`.
pub fn render_native(s: &Session, c: &ConfigSummary) -> (r: String)
    ensures
        r@ == native_text(s@, c@),
{
    let ghost sv = s@;
    let ghost cv = c@;
    let cur = current_provider_chars(c);
    let mut out = chars_of("session:          ");
    extend_str(&mut out, s.id.as_str());
    extend_str(&mut out, " (");
    extend(&mut out, or_default_chars(s.thread_name.as_str(), "unnamed").as_slice());
    extend_str(&mut out, ")\r\nsession provider: ");
    extend(&mut out, or_default_chars(s.provider.as_str(), "unknown").as_slice());
    extend_str(&mut out, "\r\ncurrent provider: ");
    if cur.len() == 0 {
        extend_str(&mut out, "unknown");
    } else {
        extend(&mut out, cur.as_slice());
    }
    extend_str(&mut out, "\r\nconfig:           ");
    extend_str(&mut out, c.path.as_str());
    extend_str(&mut out, "\r\n");
    let ghost head = out@;
    if s.provider.as_str().is_empty() {
        extend_str(
            &mut out,
            "native status:    blocked\r\nreason:           session JSONL does not record original provider\r\n",
        );
        assert(out@ =~= native_text(sv, cv));
        return string_of(out.as_slice());
    }
    let prov = chars_of(s.provider.as_str());
    if !strings_contain(&c.providers, prov.as_slice()) {
        extend_str(&mut out, "native status:    blocked\r\nreason:           provider '");
        extend(&mut out, prov.as_slice());
        extend_str(&mut out, "' is not defined in current config\r\n");
    } else {
        extend_str(
            &mut out,
            "native status:    possible\r\nnote:             provider must support response-chain resume\r\n",
        );
    }
    extend_str(&mut out, "command:\r\n  codex resume ");
    extend_str(&mut out, s.id.as_str());
    extend_str(&mut out, " -c model_provider=");
    extend(&mut out, quote_toml_chars(prov.as_slice()).as_slice());
    extend_str(&mut out, " -c disable_response_storage=false");
    if !s.cwd.as_str().is_empty() {
        extend_str(&mut out, " -C \"");
        extend_str(&mut out, s.cwd.as_str());
        extend_str(&mut out, "\"");
    }
    extend_str(&mut out, "\r\n");
    assert(out@ =~= native_text(sv, cv));
    string_of(out.as_slice())
}


/// An error that shows a failed API call.
pub open spec fn is_api_error(e: Seq<char>) -> bool {
    contains(e, "/v1/responses"@) || contains(e, "Invalid URL"@) || contains(e, "Bad Gateway"@)
}

/// An error that shows a stream closed early.
pub open spec fn is_stream_error(e: Seq<char>) -> bool {
    contains(e, "stream disconnected before completion"@)
}

/// The risk that the first telling error shows, if any.
pub open spec fn error_risk(es: Seq<Seq<char>>) -> Option<Seq<char>>
    decreases es.len(),
{
    if es.len() == 0 {
        None
    } else if is_api_error(es[0]) {
        Some("session already recorded API error: "@ + one_line(es[0], 160))
    } else if is_stream_error(es[0]) {
        Some("session recorded a stream that closed before response.completed"@)
    } else {
        error_risk(es.drop_first())
    }
}

/// `seq![r]` when `b`, otherwise nothing.
pub open spec fn when(b: bool, r: Seq<char>) -> Seq<Seq<char>> {
    if b {
        seq![r]
    } else {
        seq![]
    }
}

/// The resume risks that `render_doctor` lists, in order.
pub open spec fn doctor_risks(s: SessionView, c: ConfigView) -> Seq<Seq<char>> {
    let cur = crate::session::or_empty(c.model_provider);
    let aborted = count_eq(s.event_types, "turn_aborted"@);
    let rolled = count_eq(s.event_types, "thread_rolled_back"@);
    when(
        cur.len() > 0 && s.provider.len() > 0 && cur != s.provider,
        "provider changed: session used '"@ + s.provider + "', current config uses '"@ + cur + "'"@,
    ) + when(
        c.disable_response_storage == Some("true"@),
        "disable_response_storage is true, so server-side response-chain resume may be unavailable"@,
    ) + when(
        c.wire_api == Some("responses"@),
        "current provider uses the Responses API; provider compatibility must include response storage/readback"@,
    ) + when(
        count_role(s.messages, "assistant"@) == 0,
        "session has no completed assistant messages in local JSONL"@,
    ) + when(aborted > 0, "session records "@ + decimal(aborted) + " aborted turn(s)"@) + when(
        rolled > 0,
        "session records "@ + decimal(rolled) + " rollback event(s)"@,
    ) + match error_risk(s.errors) {
        Some(r) => seq![r],
        None => seq![],
    }
}

/// Report lines of risks: `  - <risk>`.
pub open spec fn risk_lines(rs: Seq<Seq<char>>) -> Seq<char>
    decreases rs.len(),
{
    if rs.len() == 0 {
        seq![]
    } else {
        risk_lines(rs.drop_last()) + "  - "@ + rs.last() + "\r\n"@
    }
}

/// `render_doctor(s)` with the configuration `c`: the facts that bear on a
/// `/resume` and the risks found.
pub open spec fn doctor_text(s: SessionView, c: ConfigView) -> Seq<char> {
    let cur = crate::session::or_empty(c.model_provider);
    let risks = doctor_risks(s, c);
    "session:          "@ + s.id + " ("@ + or_default(s.thread_name, "unnamed"@)
        + ")\r\nsession provider: "@ + or_default(s.provider, "unknown"@) + "\r\ncurrent provider: "@
        + or_default(cur, "unknown"@) + "\r\ncurrent base_url: "@ + crate::session::or_else(
        c.base_url,
        "unknown"@,
    ) + "\r\nwire_api:         "@ + crate::session::or_else(c.wire_api, "unknown"@)
        + "\r\nstorage disabled: "@ + crate::session::or_else(
        c.disable_response_storage,
        "unknown"@,
    ) + "\r\nprovider exists:  "@ + crate::sync::bool_text(
        s.provider.len() > 0 && c.providers.contains(s.provider),
    ) + "\r\nassistant turns:  "@ + decimal(count_role(s.messages, "assistant"@))
        + "\r\naborted turns:    "@ + decimal(count_eq(s.event_types, "turn_aborted"@))
        + "\r\nrollback events:  "@ + decimal(count_eq(s.event_types, "thread_rolled_back"@))
        + "\r\n"@ + if risks.len() == 0 {
        "resume risk:      no obvious local risk found\r\n"@
    } else {
        "resume risk:      high\r\nwhy:\r\n"@ + risk_lines(risks)
    }
}

fn error_risk_exec(es: &Vec<String>) -> (r: Option<Vec<char>>)
    ensures
        crate::json::vec_opt_view(r) == error_risk(strings_view(es@)),
{
    let ghost ev = strings_view(es@);
    let mut i: usize = 0;
    assert(ev.skip(0) =~= ev);
    while i < es.len()
        invariant
            i <= es.len(),
            ev == strings_view(es@),
            error_risk(ev) == error_risk(ev.skip(i as int)),
        decreases es.len() - i,
    {
        assert(ev.skip(i as int).drop_first() =~= ev.skip(i + 1));
        assert(ev.skip(i as int)[0] == es@[i as int]@);
        let e = chars_of(es[i].as_str());
        if contains_str(e.as_slice(), "/v1/responses") || contains_str(e.as_slice(), "Invalid URL")
            || contains_str(e.as_slice(), "Bad Gateway") {
            let mut r = chars_of("session already recorded API error: ");
            extend(&mut r, one_line_chars(e.as_slice(), 160).as_slice());
            return Some(r);
        }
        if contains_str(e.as_slice(), "stream disconnected before completion") {
            return Some(chars_of("session recorded a stream that closed before response.completed"));
        }
        i = i + 1;
    }
    assert(ev.skip(es.len() as int) =~= Seq::<Seq<char>>::empty());
    None
}

fn opt_is(o: &Option<String>, v: &str) -> (r: bool)
    ensures
        r == (crate::json::opt_view(*o) == Some(v@)),
{
    match o {
        Some(x) => {
            let a = chars_of(x.as_str());
            chars_eq_str(a.as_slice(), v)
        },
        None => false,
    }
}

fn push_opt_or(out: &mut Vec<char>, o: &Option<String>, d: &str)
    ensures
        final(out)@ == old(out)@ + crate::session::or_else(crate::json::opt_view(*o), d@),
{
    match o {
        Some(x) => extend_str(out, x.as_str()),
        None => extend_str(out, d),
    }
}

fn push_risk(risks: &mut Vec<Vec<char>>, r: Vec<char>)
    ensures
        final(risks)@.map_values(|w: Vec<char>| w@) == old(risks)@.map_values(|w: Vec<char>| w@).push(r@),
{
    let ghost before = risks@.map_values(|w: Vec<char>| w@);
    risks.push(r);
    assert(risks@.map_values(|w: Vec<char>| w@) =~= before.push(r@));
}

fn doctor_risks_exec(s: &Session, c: &ConfigSummary) -> (risks: Vec<Vec<char>>)
    ensures
        risks@.map_values(|w: Vec<char>| w@) == doctor_risks(s@, c@),
{
    let ghost sv = s@;
    let ghost cv = c@;
    let cur = current_provider_chars(c);
    let prov = chars_of(s.provider.as_str());
    let assistant = s.assistant_turns();
    let aborted = s.aborted_turns();
    let rolled = s.rolled_back_turns();
    let mut risks: Vec<Vec<char>> = Vec::new();
    assert(risks@.map_values(|w: Vec<char>| w@) =~= Seq::<Seq<char>>::empty());
    if cur.len() > 0 && prov.len() > 0 && !chars_eq(cur.as_slice(), prov.as_slice()) {
        let mut r = chars_of("provider changed: session used '");
        extend(&mut r, prov.as_slice());
        extend_str(&mut r, "', current config uses '");
        extend(&mut r, cur.as_slice());
        extend_str(&mut r, "'");
        push_risk(&mut risks, r);
    }
    if opt_is(&c.disable_response_storage, "true") {
        push_risk(&mut risks, chars_of(
            "disable_response_storage is true, so server-side response-chain resume may be unavailable",
        ));
    }
    if opt_is(&c.wire_api, "responses") {
        push_risk(&mut risks, chars_of(
            "current provider uses the Responses API; provider compatibility must include response storage/readback",
        ));
    }
    if assistant == 0 {
        push_risk(&mut risks, chars_of("session has no completed assistant messages in local JSONL"));
    }
    if aborted > 0 {
        let mut r = chars_of("session records ");
        push_usize(&mut r, aborted);
        extend_str(&mut r, " aborted turn(s)");
        push_risk(&mut risks, r);
    }
    if rolled > 0 {
        let mut r = chars_of("session records ");
        push_usize(&mut r, rolled);
        extend_str(&mut r, " rollback event(s)");
        push_risk(&mut risks, r);
    }
    match error_risk_exec(&s.errors) {
        Some(r) => push_risk(&mut risks, r),
        None => {},
    }
    assert(risks@.map_values(|w: Vec<char>| w@) =~= doctor_risks(sv, cv));
    risks
}

fn push_risk_lines(out: &mut Vec<char>, risks: &Vec<Vec<char>>)
    ensures
        final(out)@ == old(out)@ + risk_lines(risks@.map_values(|w: Vec<char>| w@)),
{
    let ghost rv = risks@.map_values(|w: Vec<char>| w@);
    let mut i: usize = 0;
    assert(rv.take(0) =~= Seq::<Seq<char>>::empty());
    assert(old(out)@ + risk_lines(rv.take(0)) =~= old(out)@);
    while i < risks.len()
        invariant
            i <= risks.len(),
            rv == risks@.map_values(|w: Vec<char>| w@),
            out@ == old(out)@ + risk_lines(rv.take(i as int)),
        decreases risks.len() - i,
    {
        assert(rv.take(i + 1).drop_last() =~= rv.take(i as int));
        let ghost before = out@;
        extend_str(out, "  - ");
        extend(out, risks[i].as_slice());
        extend_str(out, "\r\n");
        assert(out@ =~= before + "  - "@ + rv[i as int] + "\r\n"@);
        i = i + 1;
    }
    assert(rv.take(risks.len() as int) =~= rv);
}

/// `render_doctor(s)` with the configuration `c`.
pub fn render_doctor(s: &Session, c: &ConfigSummary) -> (r: String)
    ensures
        r@ == doctor_text(s@, c@),
{
    let ghost sv = s@;
    let ghost cv = c@;
    let risks = doctor_risks_exec(s, c);
    let cur = current_provider_chars(c);
    let prov = chars_of(s.provider.as_str());
    let mut out = chars_of("session:          ");
    extend_str(&mut out, s.id.as_str());
    extend_str(&mut out, " (");
    extend(&mut out, or_default_chars(s.thread_name.as_str(), "unnamed").as_slice());
    extend_str(&mut out, ")\r\nsession provider: ");
    extend(&mut out, or_default_chars(s.provider.as_str(), "unknown").as_slice());
    extend_str(&mut out, "\r\ncurrent provider: ");
    if cur.len() == 0 {
        extend_str(&mut out, "unknown");
    } else {
        extend(&mut out, cur.as_slice());
    }
    extend_str(&mut out, "\r\ncurrent base_url: ");
    push_opt_or(&mut out, &c.base_url, "unknown");
    extend_str(&mut out, "\r\nwire_api:         ");
    push_opt_or(&mut out, &c.wire_api, "unknown");
    extend_str(&mut out, "\r\nstorage disabled: ");
    push_opt_or(&mut out, &c.disable_response_storage, "unknown");
    extend_str(&mut out, "\r\nprovider exists:  ");
    if prov.len() > 0 && strings_contain(&c.providers, prov.as_slice()) {
        extend_str(&mut out, "true");
    } else {
        extend_str(&mut out, "false");
    }
    extend_str(&mut out, "\r\nassistant turns:  ");
    push_usize(&mut out, s.assistant_turns());
    extend_str(&mut out, "\r\naborted turns:    ");
    push_usize(&mut out, s.aborted_turns());
    extend_str(&mut out, "\r\nrollback events:  ");
    push_usize(&mut out, s.rolled_back_turns());
    extend_str(&mut out, "\r\n");
    if risks.len() == 0 {
        extend_str(&mut out, "resume risk:      no obvious local risk found\r\n");
    } else {
        extend_str(&mut out, "resume risk:      high\r\nwhy:\r\n");
        push_risk_lines(&mut out, &risks);
    }
    assert(out@ =~= doctor_text(sv, cv));
    string_of(out.as_slice())
}

/// The details pane for a selected session (`preview_selected`).
pub open spec fn preview_text(s: SessionView) -> Seq<char> {
    "Selected session\r\n\r\nid:       "@ + s.id + "\r\nupdated:  "@ + compact_time(s.last_timestamp)
        + "\r\nprovider: "@ + or_default(s.provider, "unknown"@) + "\r\nturns:    "@ + decimal(
        count_role(s.messages, "user"@),
    ) + "\r\ncontext:  "@ + or_default(s.thread_name, "unnamed"@) + " | "@ + or_default(
        s.cwd,
        "unknown cwd"@,
    )
        + "\r\n\r\nClick Show Detail, Diagnose /resume Risk, Native Resume Command, or Provider Sync actions."@
}

/// The preview of a selected session (`preview_selected`).
pub fn render_preview(s: &Session) -> (r: String)
    ensures
        r@ == preview_text(s@),
{
    let mut out = chars_of("Selected session\r\n\r\nid:       ");
    extend_str(&mut out, s.id.as_str());
    extend_str(&mut out, "\r\nupdated:  ");
    let lt = chars_of(s.last_timestamp.as_str());
    extend(&mut out, compact_time_chars(lt.as_slice()).as_slice());
    extend_str(&mut out, "\r\nprovider: ");
    extend(&mut out, or_default_chars(s.provider.as_str(), "unknown").as_slice());
    extend_str(&mut out, "\r\nturns:    ");
    push_usize(&mut out, s.user_turns());
    extend_str(&mut out, "\r\ncontext:  ");
    extend(&mut out, or_default_chars(s.thread_name.as_str(), "unnamed").as_slice());
    extend_str(&mut out, " | ");
    extend(&mut out, or_default_chars(s.cwd.as_str(), "unknown cwd").as_slice());
    extend_str(
        &mut out,
        "\r\n\r\nClick Show Detail, Diagnose /resume Risk, Native Resume Command, or Provider Sync actions.",
    );
    assert(out@ =~= preview_text(s@));
    string_of(out.as_slice())
}

/// The entry of a session in the session list (`apply_filter`).
pub open spec fn list_item(s: SessionView) -> Seq<char> {
    compact_time(s.last_timestamp) + "  "@ + or_default(s.provider, "unknown"@) + "  turns "@
        + decimal(count_role(s.messages, "user"@)) + " | "@ + or_default(s.thread_name, "unnamed"@)
        + " | "@ + s.id
}

/// The list entry of a session: last update, provider, user turns, thread
/// name and id.
pub fn list_item_text(s: &Session) -> (r: String)
    ensures
        r@ == list_item(s@),
{
    let lt = chars_of(s.last_timestamp.as_str());
    let mut out = compact_time_chars(lt.as_slice());
    extend_str(&mut out, "  ");
    extend(&mut out, or_default_chars(s.provider.as_str(), "unknown").as_slice());
    extend_str(&mut out, "  turns ");
    push_usize(&mut out, s.user_turns());
    extend_str(&mut out, " | ");
    extend(&mut out, or_default_chars(s.thread_name.as_str(), "unnamed").as_slice());
    extend_str(&mut out, " | ");
    extend_str(&mut out, s.id.as_str());
    assert(out@ =~= list_item(s@));
    string_of(out.as_slice())
}

/// The file name of an exported restore prompt: `codex-restore-` and the first
/// eight characters of the session id, `.md`.
pub open spec fn restore_file(id: Seq<char>) -> Seq<char> {
    "codex-restore-"@ + take_upto(id, 8) + ".md"@
}

/// The file name under which `export_restore` writes a session's prompt.
pub fn restore_file_name(id: &str) -> (r: String)
    ensures
        r@ == restore_file(id@),
{
    let v = chars_of(id);
    let n: usize = if v.len() < 8 {
        v.len()
    } else {
        8
    };
    let head = &v[0..n];
    assert(head@ =~= take_upto(v@, 8));
    let mut out = chars_of("codex-restore-");
    extend(&mut out, head);
    extend_str(&mut out, ".md");
    string_of(out.as_slice())
}

// ---------------------------------------------------------------------------
// Laws
// ---------------------------------------------------------------------------

proof fn lemma_risk_lines_append(a: Seq<Seq<char>>, b: Seq<Seq<char>>)
    ensures
        risk_lines(a + b) == risk_lines(a) + risk_lines(b),
    decreases b.len(),
{
    if b.len() == 0 {
        assert(a + b =~= a);
        assert(risk_lines(a) + risk_lines(b) =~= risk_lines(a));
    } else {
        lemma_risk_lines_append(a, b.drop_last());
        assert((a + b).drop_last() =~= a + b.drop_last());
        assert((a + b).last() == b.last());
    }
}

/// The diagnosis ends with its risk section.
proof fn lemma_doctor_text_tail(s: SessionView, c: ConfigView)
    requires
        doctor_risks(s, c).len() > 0,
    ensures
        ({
            let t = doctor_text(s, c);
            let tail = "resume risk:      high\r\nwhy:\r\n"@ + risk_lines(doctor_risks(s, c));
            t == t.take(t.len() - tail.len()) + tail
        }),
{
    let t = doctor_text(s, c);
    let tail = "resume risk:      high\r\nwhy:\r\n"@ + risk_lines(doctor_risks(s, c));
    assert(t =~= t.take(t.len() - tail.len()) + tail);
}

/// The risks with the rollback risk in its place.
proof fn lemma_doctor_risks_rollback(s: SessionView, c: ConfigView)
    requires
        count_eq(s.event_types, "thread_rolled_back"@) > 0,
    ensures
        exists|x: Seq<Seq<char>>, y: Seq<Seq<char>>|
            doctor_risks(s, c) == x + seq![
                "session records "@ + decimal(count_eq(s.event_types, "thread_rolled_back"@))
                    + " rollback event(s)"@,
            ] + y,
{
    let n = count_eq(s.event_types, "thread_rolled_back"@);
    let r = "session records "@ + decimal(n) + " rollback event(s)"@;
    let cur = crate::session::or_empty(c.model_provider);
    let aborted = count_eq(s.event_types, "turn_aborted"@);
    let x = when(
        cur.len() > 0 && s.provider.len() > 0 && cur != s.provider,
        "provider changed: session used '"@ + s.provider + "', current config uses '"@ + cur + "'"@,
    ) + when(
        c.disable_response_storage == Some("true"@),
        "disable_response_storage is true, so server-side response-chain resume may be unavailable"@,
    ) + when(
        c.wire_api == Some("responses"@),
        "current provider uses the Responses API; provider compatibility must include response storage/readback"@,
    ) + when(
        count_role(s.messages, "assistant"@) == 0,
        "session has no completed assistant messages in local JSONL"@,
    ) + when(aborted > 0, "session records "@ + decimal(aborted) + " aborted turn(s)"@);
    let y = match error_risk(s.errors) {
        Some(e) => seq![e],
        None => Seq::<Seq<char>>::empty(),
    };
    assert(doctor_risks(s, c) == x + seq![r] + y);
}

/// A session that records rollbacks is diagnosed at high risk, and the
/// diagnosis lists the number of its `thread_rolled_back` events.
#[verifier::spinoff_prover]
pub proof fn law_doctor_lists_rollbacks(s: SessionView, c: ConfigView)
    requires
        count_eq(s.event_types, "thread_rolled_back"@) > 0,
    ensures
        contains(
            doctor_text(s, c),
            "  - session records "@ + decimal(count_eq(s.event_types, "thread_rolled_back"@))
                + " rollback event(s)\r\n"@,
        ),
        contains(doctor_text(s, c), "resume risk:      high\r\n"@),
{
    let n = count_eq(s.event_types, "thread_rolled_back"@);
    let r = "session records "@ + decimal(n) + " rollback event(s)"@;
    let risks = doctor_risks(s, c);
    lemma_doctor_risks_rollback(s, c);
    let (x, y) = choose|x: Seq<Seq<char>>, y: Seq<Seq<char>>| risks == x + seq![r] + y;
    assert(risks.len() > 0);
    lemma_risk_lines_append(x + seq![r], y);
    lemma_risk_lines_append(x, seq![r]);
    assert(seq![r].drop_last() =~= Seq::<Seq<char>>::empty());
    let line = "  - session records "@ + decimal(n) + " rollback event(s)\r\n"@;
    assert(risk_lines(seq![r]) =~= line) by {
        reveal_strlit("  - ");
        reveal_strlit("  - session records ");
        reveal_strlit("session records ");
        reveal_strlit(" rollback event(s)");
        reveal_strlit(" rollback event(s)\r\n");
        reveal_strlit("\r\n");
        assert(risk_lines(seq![r]) == risk_lines(Seq::<Seq<char>>::empty()) + "  - "@ + r + "\r\n"@);
    }
    lemma_doctor_text_tail(s, c);
    let t = doctor_text(s, c);
    let hdr = "resume risk:      high\r\nwhy:\r\n"@;
    let pre = t.take(t.len() - (hdr + risk_lines(risks)).len());
    assert(risk_lines(risks) == risk_lines(x) + line + risk_lines(y));
    assert(t =~= (pre + hdr + risk_lines(x)) + line + risk_lines(y));
    lemma_contains_split(pre + hdr + risk_lines(x), line, risk_lines(y));
    assert(hdr =~= "resume risk:      high\r\n"@ + "why:\r\n"@) by {
        reveal_strlit("resume risk:      high\r\nwhy:\r\n");
        reveal_strlit("resume risk:      high\r\n");
        reveal_strlit("why:\r\n");
    }
    assert(t =~= pre + "resume risk:      high\r\n"@ + ("why:\r\n"@ + risk_lines(risks)));
    lemma_contains_split(pre, "resume risk:      high\r\n"@, "why:\r\n"@ + risk_lines(risks));
}

proof fn lemma_last_user_message(ms: Seq<MessageView>, k: int)
    requires
        0 <= k < ms.len(),
        ms[k].role == "user"@,
        forall|j: int| k < j < ms.len() ==> (#[trigger] ms[j]).role != "user"@,
    ensures
        last_user_message(ms) == Some(ms[k]),
    decreases ms.len(),
{
    if k < ms.len() - 1 {
        assert(ms.last() == ms[ms.len() - 1]);
        assert(ms.drop_last()[k] == ms[k]);
        assert forall|j: int| k < j < ms.drop_last().len() implies (#[trigger] ms.drop_last()[j]).role
            != "user"@ by {
            assert(ms.drop_last()[j] == ms[j]);
        }
        lemma_last_user_message(ms.drop_last(), k);
    }
}

/// The restore prompt ends with the text of the session's last user message:
/// the user message after which no message has the role `user`.
pub proof fn law_restore_ends_with_last_user_request(s: SessionView, k: int)
    requires
        0 <= k < s.messages.len(),
        s.messages[k].role == "user"@,
        forall|j: int| k < j < s.messages.len() ==> (#[trigger] s.messages[j]).role != "user"@,
    ensures
        ends_with(restore_text(s), "\n## Last User Request\n\n"@ + s.messages[k].text + "\n"@),
{
    lemma_last_user_message(s.messages, k);
    let suf = "\n## Last User Request\n\n"@ + s.messages[k].text + "\n"@;
    let t = restore_text(s);
    let pre = t.take(t.len() - suf.len());
    assert(t =~= pre + suf);
    assert(t.subrange(t.len() - suf.len(), t.len() as int) =~= suf);
}

} // verus!
