//! The parts of Codex's `config.toml` and agent files that matter for resuming
//! sessions: the current provider, response storage, the provider's base URL and
//! wire API, and the defined providers; and the rewriting of an agent's
//! `model_provider` line.
use vstd::prelude::*;
use crate::session::strings_view;
use crate::text::{
    chars_eq, chars_of, ends_with, ends_with_exec, extend, extend_str, find_char_in,
    find_char_in_exec, is_ws, join, join_exec, lemma_find_char_in, lemma_trim_end_prefix,
    lemma_trim_start_suffix, lines, lines_acc, strip_cr, trim_end, one_line_text, lines_text,
    lemma_lines_acc_no_newline, lemma_lines_text_front,
    skip_ws, slice_copy, split_lines, starts_with, starts_with_exec, starts_with_str, string_of,
    trim, trim_chars, trim_start, trim_start_chars,
};

verus! {

/// What `read_config` gathers.
pub struct ConfigSummary {
    pub model_provider: Option<String>,
    pub disable_response_storage: Option<String>,
    pub base_url: Option<String>,
    pub wire_api: Option<String>,
    /// The providers defined by `[model_providers.<name>]` tables, each once, in
    /// order of first definition.
    pub providers: Vec<String>,
    /// The configuration file's path, as text.
    pub path: String,
}

/// Model of a configuration summary.
pub struct ConfigView {
    pub model_provider: Option<Seq<char>>,
    pub disable_response_storage: Option<Seq<char>>,
    pub base_url: Option<Seq<char>>,
    pub wire_api: Option<Seq<char>>,
    pub providers: Seq<Seq<char>>,
    pub path: Seq<char>,
}

impl View for ConfigSummary {
    type V = ConfigView;

    open spec fn view(&self) -> ConfigView {
        ConfigView {
            model_provider: crate::json::opt_view(self.model_provider),
            disable_response_storage: crate::json::opt_view(self.disable_response_storage),
            base_url: crate::json::opt_view(self.base_url),
            wire_api: crate::json::opt_view(self.wire_api),
            providers: strings_view(self.providers@),
            path: self.path@,
        }
    }
}

/// The summary of a configuration file that could not be read.
pub open spec fn empty_config(path: Seq<char>) -> ConfigView {
    ConfigView {
        model_provider: None,
        disable_response_storage: None,
        base_url: None,
        wire_api: None,
        providers: seq![],
        path: path,
    }
}

/// `toml_value(line)`: what follows the first `=`, trimmed, without its
/// surrounding double quotes when it has them.
pub open spec fn toml_value(line: Seq<char>) -> Seq<char> {
    let v = match find_char_in(line, seq!['='], 0) {
        Some(i) => trim(line.skip(i + 1)),
        None => seq![],
    };
    if v.len() >= 2 && v[0] == '"' && v.last() == '"' {
        v.subrange(1, v.len() - 1)
    } else {
        v
    }
}

/// `s` without leading double quotes.
pub open spec fn trim_start_quotes(s: Seq<char>) -> Seq<char>
    decreases s.len(),
{
    if s.len() > 0 && s[0] == '"' {
        trim_start_quotes(s.drop_first())
    } else {
        s
    }
}

/// `s` without trailing double quotes.
pub open spec fn trim_end_quotes(s: Seq<char>) -> Seq<char>
    decreases s.len(),
{
    if s.len() > 0 && s.last() == '"' {
        trim_end_quotes(s.drop_last())
    } else {
        s
    }
}

/// `s.trim_matches('"')`.
pub open spec fn trim_quotes(s: Seq<char>) -> Seq<char> {
    trim_end_quotes(trim_start_quotes(s))
}

/// `names` with `name` added at the end unless present (a set insertion).
pub open spec fn insert_name(names: Seq<Seq<char>>, name: Seq<char>) -> Seq<Seq<char>> {
    if names.contains(name) {
        names
    } else {
        names.push(name)
    }
}

/// `[model_providers.`.
pub open spec fn table_prefix() -> Seq<char> {
    "[model_providers."@
}

/// The state of the configuration scan: the summary so far, the current
/// provider and whether the last provider table is that of the current one.
pub struct ConfigScan {
    pub cfg: ConfigView,
    pub current: Seq<char>,
    pub in_current: bool,
}

/// The effect of one line of `config.toml` (`read_config`'s loop body).
pub open spec fn config_step(st: ConfigScan, raw: Seq<char>) -> ConfigScan {
    let line = trim(raw);
    if line.len() == 0 || line[0] == '#' {
        st
    } else if starts_with(line, "model_provider"@) {
        let v = toml_value(line);
        ConfigScan { cfg: ConfigView { model_provider: Some(v), ..st.cfg }, current: v, ..st }
    } else if starts_with(line, "disable_response_storage"@) {
        ConfigScan {
            cfg: ConfigView { disable_response_storage: Some(toml_value(line)), ..st.cfg },
            ..st
        }
    } else if starts_with(line, table_prefix()) && line.len() >= 18 && line.last() == ']' {
        let name = trim_quotes(line.subrange(17, line.len() - 1));
        ConfigScan {
            cfg: ConfigView { providers: insert_name(st.cfg.providers, name), ..st.cfg },
            in_current: name == st.current,
            ..st
        }
    } else {
        let c1 = if st.in_current && starts_with(line, "base_url"@) {
            ConfigView { base_url: Some(toml_value(line)), ..st.cfg }
        } else {
            st.cfg
        };
        let c2 = if st.in_current && starts_with(line, "wire_api"@) {
            ConfigView { wire_api: Some(toml_value(line)), ..c1 }
        } else {
            c1
        };
        ConfigScan { cfg: c2, ..st }
    }
}

/// The scan state after the lines `ls`, in order.
pub open spec fn config_scan(st: ConfigScan, ls: Seq<Seq<char>>) -> ConfigScan
    decreases ls.len(),
{
    if ls.len() == 0 {
        st
    } else {
        config_scan(config_step(st, ls[0]), ls.drop_first())
    }
}

/// `read_config` of a file at `path` whose text is `text`.
pub open spec fn parsed_config(path: Seq<char>, text: Seq<char>) -> ConfigView {
    config_scan(ConfigScan { cfg: empty_config(path), current: seq![], in_current: false }, lines(text)).cfg
}

/// `toml_value` on characters.
pub fn toml_value_chars(line: &[char]) -> (r: Vec<char>)
    ensures
        r@ == toml_value(line@),
{
    let eq = vec!['='];
    assert(eq@ =~= seq!['=']);
    let v = match find_char_in_exec(line, eq.as_slice(), 0) {
        Some(i) => {
            proof {
                lemma_find_char_in(line@, seq!['='], 0);
            }
            assert(i < line.len());
            let rest = &line[i + 1..line.len()];
            assert(rest@ =~= line@.skip(i + 1));
            trim_chars(rest)
        },
        None => Vec::new(),
    };
    if v.len() >= 2 && v[0] == '"' && v[v.len() - 1] == '"' {
        slice_copy(v.as_slice(), 1, v.len() - 1)
    } else {
        v
    }
}

/// `toml_value(line)`: the text after the first `=`, trimmed and unquoted.
pub fn toml_value_of(line: &str) -> (r: String)
    ensures
        r@ == toml_value(line@),
{
    let l = chars_of(line);
    let v = toml_value_chars(l.as_slice());
    string_of(v.as_slice())
}

fn trim_quotes_chars(s: &[char]) -> (r: Vec<char>)
    ensures
        r@ == trim_quotes(s@),
{
    let mut a: usize = 0;
    assert(s@.subrange(0, s.len() as int) =~= s@);
    while a < s.len() && s[a] == '"'
        invariant
            a <= s.len(),
            trim_start_quotes(s@) == trim_start_quotes(s@.subrange(a as int, s.len() as int)),
        decreases s.len() - a,
    {
        assert(s@.subrange(a as int, s.len() as int).drop_first() =~= s@.subrange(
            a + 1,
            s.len() as int,
        ));
        a = a + 1;
    }
    let t = slice_copy(s, a, s.len());
    let mut b: usize = t.len();
    assert(t@.subrange(0, t.len() as int) =~= t@);
    while b > 0 && t[b - 1] == '"'
        invariant
            b <= t.len(),
            trim_end_quotes(t@) == trim_end_quotes(t@.subrange(0, b as int)),
        decreases b,
    {
        assert(t@.subrange(0, b as int).drop_last() =~= t@.subrange(0, b - 1));
        b = b - 1;
    }
    slice_copy(t.as_slice(), 0, b)
}

fn insert_name_exec(names: &mut Vec<String>, name: &[char])
    ensures
        strings_view(final(names)@) == insert_name(strings_view(old(names)@), name@),
{
    let ghost nv = strings_view(names@);
    let mut i: usize = 0;
    while i < names.len()
        invariant
            i <= names.len(),
            nv == strings_view(names@),
            forall|k: int| 0 <= k < i ==> nv[k] != name@,
        decreases names.len() - i,
    {
        let x = chars_of(names[i].as_str());
        if chars_eq(x.as_slice(), name) {
            assert(nv[i as int] == name@);
            return;
        }
        i = i + 1;
    }
    assert(!nv.contains(name@));
    names.push(string_of(name));
    assert(strings_view(names@) =~= nv.push(name@));
}

impl ConfigSummary {
    /// The summary of a configuration file at `path` that could not be read.
    pub fn empty(path: String) -> (c: ConfigSummary)
        ensures
            c@ == empty_config(path@),
    {
        let c = ConfigSummary {
            model_provider: None,
            disable_response_storage: None,
            base_url: None,
            wire_api: None,
            providers: Vec::new(),
            path,
        };
        assert(c@.providers =~= Seq::<Seq<char>>::empty());
        c
    }
}

/// Applies one line of the configuration.
fn config_step_exec(c: &mut ConfigSummary, current: &mut Vec<char>, in_current: &mut bool, raw: &[char])
    ensures
        (ConfigScan { cfg: final(c)@, current: final(current)@, in_current: *final(in_current) })
            == config_step(
            ConfigScan { cfg: old(c)@, current: old(current)@, in_current: *old(in_current) },
            raw@,
        ),
{
    let line = trim_chars(raw);
    if line.len() == 0 || line[0] == '#' {
        return;
    }
    let prefix = chars_of("[model_providers.");
    proof {
        reveal_strlit("[model_providers.");
    }
    if starts_with_str(line.as_slice(), "model_provider") {
        let v = toml_value_chars(line.as_slice());
        c.model_provider = Some(string_of(v.as_slice()));
        *current = v;
    } else if starts_with_str(line.as_slice(), "disable_response_storage") {
        let v = toml_value_chars(line.as_slice());
        c.disable_response_storage = Some(string_of(v.as_slice()));
    } else if starts_with_exec(line.as_slice(), prefix.as_slice()) && line.len() >= 18 && line[line.len()
        - 1] == ']' {
        let inner = &line[17..line.len() - 1];
        let name = trim_quotes_chars(inner);
        insert_name_exec(&mut c.providers, name.as_slice());
        *in_current = chars_eq(name.as_slice(), current.as_slice());
    } else {
        if *in_current && starts_with_str(line.as_slice(), "base_url") {
            let v = toml_value_chars(line.as_slice());
            c.base_url = Some(string_of(v.as_slice()));
        }
        if *in_current && starts_with_str(line.as_slice(), "wire_api") {
            let v = toml_value_chars(line.as_slice());
            c.wire_api = Some(string_of(v.as_slice()));
        }
    }
}

proof fn lemma_config_scan_unique(st: ConfigScan, ls: Seq<Seq<char>>)
    requires
        st.cfg.providers.no_duplicates(),
    ensures
        config_scan(st, ls).cfg.providers.no_duplicates(),
    decreases ls.len(),
{
    if ls.len() > 0 {
        let st2 = config_step(st, ls[0]);
        let line = trim(ls[0]);
        if starts_with(line, table_prefix()) && line.len() >= 18 && line.last() == ']' {
            let name = trim_quotes(line.subrange(17, line.len() - 1));
            let ps = st.cfg.providers;
            if !ps.contains(name) {
                assert forall|i: int, j: int| 0 <= i < j < ps.push(name).len() implies ps.push(name)[i]
                    != ps.push(name)[j] by {
                    if j == ps.len() {
                        assert(ps.push(name)[i] == ps[i]);
                    }
                }
            }
        }
        assert(st2.cfg.providers.no_duplicates());
        lemma_config_scan_unique(st2, ls.drop_first());
    }
}

/// Each provider table is listed once: the providers that `read_config`
/// gathers hold no name twice.
pub proof fn law_config_providers_unique(path: Seq<char>, text: Seq<char>)
    ensures
        parsed_config(path, text).providers.no_duplicates(),
{
    let st0 = ConfigScan { cfg: empty_config(path), current: seq![], in_current: false };
    assert(st0.cfg.providers =~= Seq::<Seq<char>>::empty());
    lemma_config_scan_unique(st0, lines(text));
}

/// `read_config` once the file at `path` is read as `text`.
pub fn parse_config(path: String, text: &str) -> (c: ConfigSummary)
    ensures
        c@ == parsed_config(path@, text@),
        c@.providers.no_duplicates(),
{
    proof {
        law_config_providers_unique(path@, text@);
    }
    let t = chars_of(text);
    let ls = split_lines(t.as_slice());
    let ghost lv = ls@.map_values(|w: Vec<char>| w@);
    let mut c = ConfigSummary::empty(path);
    let mut current: Vec<char> = Vec::new();
    let mut in_current = false;
    let ghost st0 = ConfigScan { cfg: c@, current: seq![], in_current: false };
    assert(current@ =~= Seq::<char>::empty());
    let mut i: usize = 0;
    assert(lv.skip(0) =~= lv);
    while i < ls.len()
        invariant
            i <= ls.len(),
            lv == ls@.map_values(|w: Vec<char>| w@),
            config_scan(st0, lv) == config_scan(
                ConfigScan { cfg: c@, current: current@, in_current: in_current },
                lv.skip(i as int),
            ),
        decreases ls.len() - i,
    {
        assert(lv.skip(i as int).drop_first() =~= lv.skip(i + 1));
        config_step_exec(&mut c, &mut current, &mut in_current, ls[i].as_slice());
        i = i + 1;
    }
    assert(lv.skip(ls.len() as int) =~= Seq::<Seq<char>>::empty());
    c
}

// ---------------------------------------------------------------------------
// Agent files
// ---------------------------------------------------------------------------

/// Escaping for a TOML basic string: `\` and `"` get a backslash.
pub open spec fn toml_escape(s: Seq<char>) -> Seq<char>
    decreases s.len(),
{
    if s.len() == 0 {
        seq![]
    } else {
        (if s[0] == '\\' {
            seq!['\\', '\\']
        } else if s[0] == '"' {
            seq!['\\', '"']
        } else {
            seq![s[0]]
        }) + toml_escape(s.drop_first())
    }
}

/// `quote_toml(s)`: `s` as a TOML basic string.
pub open spec fn quote_toml(s: Seq<char>) -> Seq<char> {
    seq!['"'] + toml_escape(s) + seq!['"']
}

proof fn lemma_toml_escape_append(a: Seq<char>, b: Seq<char>)
    ensures
        toml_escape(a + b) == toml_escape(a) + toml_escape(b),
    decreases a.len(),
{
    if a.len() == 0 {
        assert(a + b =~= b);
    } else {
        lemma_toml_escape_append(a.drop_first(), b);
        assert((a + b).drop_first() =~= a.drop_first() + b);
    }
}

/// `quote_toml` on characters.
pub fn quote_toml_chars(s: &[char]) -> (r: Vec<char>)
    ensures
        r@ == quote_toml(s@),
{
    let mut out: Vec<char> = Vec::new();
    out.push('"');
    let mut i: usize = 0;
    while i < s.len()
        invariant
            i <= s.len(),
            out@ == seq!['"'] + toml_escape(s@.take(i as int)),
        decreases s.len() - i,
    {
        let c = s[i];
        proof {
            assert(s@.take(i + 1) =~= s@.take(i as int) + seq![c]);
            lemma_toml_escape_append(s@.take(i as int), seq![c]);
            assert(seq![c].drop_first() =~= Seq::<char>::empty());
            assert(toml_escape(Seq::<char>::empty()) =~= Seq::<char>::empty());
        }
        let ghost before = out@;
        if c == '\\' {
            out.push('\\');
            out.push('\\');
        } else if c == '"' {
            out.push('\\');
            out.push('"');
        } else {
            out.push(c);
        }
        assert(out@ =~= before + toml_escape(seq![c]));
        i = i + 1;
    }
    out.push('"');
    assert(s@.take(s.len() as int) =~= s@);
    out
}

/// `quote_toml(s)`.
pub fn quote_toml_of(s: &str) -> (r: String)
    ensures
        r@ == quote_toml(s@),
{
    let v = chars_of(s);
    let q = quote_toml_chars(v.as_slice());
    string_of(q.as_slice())
}

/// The provider of the first line of an agent file that (trimmed) starts with
/// `model_provider` (`read_agent_provider` once the file is read).
pub open spec fn agent_provider(ls: Seq<Seq<char>>) -> Option<Seq<char>>
    decreases ls.len(),
{
    if ls.len() == 0 {
        None
    } else if starts_with(trim(ls[0]), "model_provider"@) {
        Some(toml_value(trim(ls[0])))
    } else {
        agent_provider(ls.drop_first())
    }
}

/// `read_agent_provider` once the agent file is read as `text`.
pub fn agent_provider_from_text(text: &str) -> (r: Option<String>)
    ensures
        crate::json::opt_view(r) == agent_provider(lines(text@)),
{
    let t = chars_of(text);
    let ls = split_lines(t.as_slice());
    let ghost lv = ls@.map_values(|w: Vec<char>| w@);
    let mut i: usize = 0;
    assert(lv.skip(0) =~= lv);
    while i < ls.len()
        invariant
            i <= ls.len(),
            lv == ls@.map_values(|w: Vec<char>| w@),
            lv == lines(text@),
            agent_provider(lv) == agent_provider(lv.skip(i as int)),
        decreases ls.len() - i,
    {
        assert(lv.skip(i as int).drop_first() =~= lv.skip(i + 1));
        assert(lv.skip(i as int)[0] == ls@[i as int]@);
        let l = trim_chars(ls[i].as_slice());
        if starts_with_str(l.as_slice(), "model_provider") {
            let v = toml_value_chars(l.as_slice());
            return Some(string_of(v.as_slice()));
        }
        i = i + 1;
    }
    assert(lv.skip(ls.len() as int) =~= Seq::<Seq<char>>::empty());
    None
}

/// The lines with the first one whose text (after indentation) starts with
/// `model_provider` replaced by its indentation followed by `replacement`.
pub open spec fn replace_provider_lines(ls: Seq<Seq<char>>, replacement: Seq<char>) -> Seq<Seq<char>>
    decreases ls.len(),
{
    if ls.len() == 0 {
        seq![]
    } else if starts_with(trim_start(ls[0]), "model_provider"@) {
        seq![ls[0].take(ls[0].len() - trim_start(ls[0]).len()) + replacement] + ls.drop_first()
    } else {
        seq![ls[0]] + replace_provider_lines(ls.drop_first(), replacement)
    }
}

/// `replace_model_provider_line(text, provider)`: the lines of `text` with the
/// first `model_provider` line set to `model_provider = "<provider>"` (keeping
/// its indentation), joined by newlines, with a final newline when `text` has
/// one.
pub open spec fn replaced_provider_text(text: Seq<char>, provider: Seq<char>) -> Seq<char> {
    let body = join(
        replace_provider_lines(lines(text), "model_provider = "@ + quote_toml(provider)),
        "\n"@,
    );
    if ends_with(text, "\n"@) {
        body + "\n"@
    } else {
        body
    }
}

/// `replace_model_provider_line(text, provider)`.
pub fn replace_model_provider_line(text: &str, provider: &str) -> (r: String)
    ensures
        r@ == replaced_provider_text(text@, provider@),
{
    let t = chars_of(text);
    let ls = split_lines(t.as_slice());
    let ghost lv = ls@.map_values(|w: Vec<char>| w@);
    let pv = chars_of(provider);
    let mut replacement = chars_of("model_provider = ");
    let q = quote_toml_chars(pv.as_slice());
    extend(&mut replacement, q.as_slice());
    let ghost rep = replacement@;
    let mut out: Vec<Vec<char>> = Vec::new();
    let mut changed = false;
    let mut i: usize = 0;
    assert(lv.skip(0) =~= lv);
    assert(out@.map_values(|w: Vec<char>| w@) =~= Seq::<Seq<char>>::empty());
    while i < ls.len()
        invariant
            i <= ls.len(),
            lv == ls@.map_values(|w: Vec<char>| w@),
            rep == replacement@,
            !changed ==> replace_provider_lines(lv, rep) == out@.map_values(|w: Vec<char>| w@)
                + replace_provider_lines(lv.skip(i as int), rep),
            changed ==> replace_provider_lines(lv, rep) == out@.map_values(|w: Vec<char>| w@)
                + lv.skip(i as int),
        decreases ls.len() - i,
    {
        let ghost before = out@.map_values(|w: Vec<char>| w@);
        assert(lv.skip(i as int).drop_first() =~= lv.skip(i + 1));
        let line = ls[i].as_slice();
        let k = skip_ws(line, 0);
        assert(line@.subrange(0, line.len() as int) =~= line@);
        let rest = &line[k..line.len()];
        if !changed && starts_with_str(rest, "model_provider") {
            let mut nl = slice_copy(line, 0, k);
            extend(&mut nl, replacement.as_slice());
            proof {
                lemma_trim_start_suffix(line@);
                assert(line@.take(line@.len() - trim_start(line@).len()) =~= line@.subrange(0, k as int));
            }
            out.push(nl);
            assert(out@.map_values(|w: Vec<char>| w@) =~= before.push(nl@));
            changed = true;
        } else {
            let cp = slice_copy(line, 0, line.len());
            out.push(cp);
            assert(out@.map_values(|w: Vec<char>| w@) =~= before.push(lv[i as int]));
        }
        assert(before.push(lv[i as int]) + lv.skip(i + 1) =~= before + lv.skip(i as int));
        i = i + 1;
    }
    assert(lv.skip(ls.len() as int) =~= Seq::<Seq<char>>::empty());
    assert(out@.map_values(|w: Vec<char>| w@) + Seq::<Seq<char>>::empty() =~= out@.map_values(
        |w: Vec<char>| w@,
    ));
    let nl = chars_of("\n");
    let mut body = join_exec(&out, nl.as_slice());
    if ends_with_exec(t.as_slice(), nl.as_slice()) {
        extend(&mut body, nl.as_slice());
    }
    string_of(body.as_slice())
}


// ---------------------------------------------------------------------------
// Laws
// ---------------------------------------------------------------------------

proof fn lemma_trim_start_take_prefix(x: Seq<char>, n: int, p: Seq<char>)
    requires
        0 <= n <= x.len(),
        starts_with(trim_start(x.take(n)), p),
    ensures
        starts_with(trim_start(x), p),
    decreases x.len(),
{
    if x.len() > 0 && n > 0 && is_ws(x[0]) {
        assert(x.take(n).drop_first() =~= x.drop_first().take(n - 1));
        lemma_trim_start_take_prefix(x.drop_first(), n - 1, p);
    } else if n == 0 || x.len() == 0 {
        assert(x.take(n).len() == 0);
        assert(trim_start(x.take(n)) =~= x.take(n));
        if p.len() > 0 {
            assert(false);
        } else {
            assert(x.subrange(0, 0) =~= p);
            assert(trim_start(x).subrange(0, 0) =~= p);
        }
    } else {
        assert(trim_start(x.take(n)) == x.take(n));
        assert(trim_start(x) == x);
        assert(x.take(n).subrange(0, p.len() as int) =~= x.subrange(0, p.len() as int));
    }
}

/// A line that `read_agent_provider` takes (trimmed, it starts with
/// `model_provider`) is one that `replace_model_provider_line` rewrites (after
/// its indentation it starts so), also without a final carriage return.
proof fn lemma_reader_match(x: Seq<char>)
    requires
        starts_with(trim(strip_cr(x)), "model_provider"@),
    ensures
        starts_with(trim_start(x), "model_provider"@),
{
    let y = strip_cr(x);
    lemma_trim_end_prefix(trim_start(y));
    let t = trim_start(y);
    let mp = "model_provider"@;
    assert(trim(y) == t.take(trim(y).len() as int));
    assert(t.subrange(0, mp.len() as int) =~= trim(y).subrange(0, mp.len() as int));
    if y.len() < x.len() {
        assert(y =~= x.take(x.len() - 1));
        lemma_trim_start_take_prefix(x, x.len() - 1, mp);
    } else {
        assert(y == x);
    }
}

/// The replacement line reads back as the escaped provider.
proof fn lemma_read_replacement(indent: Seq<char>, provider: Seq<char>)
    requires
        forall|k: int| 0 <= k < indent.len() ==> is_ws(#[trigger] indent[k]),
    ensures
        ({
            let l = indent + "model_provider = "@ + quote_toml(provider);
            &&& strip_cr(l) == l
            &&& starts_with(trim(l), "model_provider"@)
            &&& toml_value(trim(l)) == toml_escape(provider)
        }),
{
    reveal_strlit("model_provider = ");
    reveal_strlit("model_provider");
    let rep = "model_provider = "@ + quote_toml(provider);
    let l = indent + rep;
    let q = quote_toml(provider);
    assert(l.last() == '"');
    assert(strip_cr(l) == l);
    lemma_trim_run_prefix(indent, rep);
    assert(trim_start(l) == rep);
    assert(trim_end(rep) == rep);
    assert(trim(l) == rep);
    assert(rep.subrange(0, 14) =~= "model_provider"@);
    assert forall|j: int| 0 <= j < 15 implies !seq!['='].contains(#[trigger] rep[j]) by {
        assert(rep[j] == "model_provider = "@[j]);
    }
    assert(rep[15] == '=');
    assert(seq!['='][0] == '=');
    assert(seq!['='].contains(rep[15]));
    crate::text::lemma_find_char_in_unique(rep, seq!['='], 0, 15);
    assert(rep.skip(16) =~= seq![' '] + q);
    assert(is_ws(' '));
    assert(trim_start(seq![' '] + q) == q) by {
        assert((seq![' '] + q)[0] == ' ');
        assert((seq![' '] + q).drop_first() =~= q);
        assert(q[0] == '"');
        assert(trim_start(q) == q);
    }
    assert(trim_end(q) == q);
    assert(q.subrange(1, q.len() - 1) =~= toml_escape(provider));
    assert(toml_value(trim(l)) == toml_escape(provider));
    assert(indent + "model_provider = "@ + quote_toml(provider) =~= l);
}

proof fn lemma_trim_run_prefix(indent: Seq<char>, rep: Seq<char>)
    requires
        forall|k: int| 0 <= k < indent.len() ==> is_ws(#[trigger] indent[k]),
        rep.len() > 0,
        !is_ws(rep[0]),
    ensures
        trim_start(indent + rep) == rep,
    decreases indent.len(),
{
    if indent.len() == 0 {
        assert(indent + rep =~= rep);
    } else {
        assert((indent + rep).drop_first() =~= indent.drop_first() + rep);
        assert forall|k: int| 0 <= k < indent.drop_first().len() implies is_ws(#[trigger] indent.drop_first()[k]) by {
            assert(indent.drop_first()[k] == indent[k + 1]);
        }
        lemma_trim_run_prefix(indent.drop_first(), rep);
    }
}

proof fn lemma_toml_escape_one_line(s: Seq<char>)
    requires
        one_line_text(s),
    ensures
        one_line_text(toml_escape(s)),
    decreases s.len(),
{
    if s.len() > 0 {
        assert forall|k: int| 0 <= k < s.drop_first().len() implies #[trigger] s.drop_first()[k] != '\n' by {
            assert(s.drop_first()[k] == s[k + 1]);
        }
        lemma_toml_escape_one_line(s.drop_first());
        let h = if s[0] == '\\' {
            seq!['\\', '\\']
        } else if s[0] == '"' {
            seq!['\\', '"']
        } else {
            seq![s[0]]
        };
        let t = toml_escape(s.drop_first());
        assert(toml_escape(s) == h + t);
        assert forall|k: int| 0 <= k < (h + t).len() implies #[trigger] (h + t)[k] != '\n' by {
            if k < h.len() {
                assert((h + t)[k] == h[k]);
            } else {
                assert((h + t)[k] == t[k - h.len()]);
            }
        }
    }
}

/// The rewritten line holds no line break.
proof fn lemma_replacement_one_line(indent: Seq<char>, provider: Seq<char>)
    requires
        one_line_text(indent),
        one_line_text(provider),
    ensures
        one_line_text(indent + "model_provider = "@ + quote_toml(provider)),
{
    reveal_strlit("model_provider = ");
    lemma_toml_escape_one_line(provider);
    let a = indent + "model_provider = "@;
    let q = quote_toml(provider);
    let e = toml_escape(provider);
    assert forall|k: int| 0 <= k < q.len() implies #[trigger] q[k] != '\n' by {
        if k > 0 && k < q.len() - 1 {
            assert(q[k] == e[k - 1]);
        }
    }
    assert forall|k: int| 0 <= k < (a + q).len() implies #[trigger] (a + q)[k] != '\n' by {
        if k < indent.len() {
            assert((a + q)[k] == indent[k]);
        } else if k < a.len() {
            assert((a + q)[k] == "model_provider = "@[k - indent.len()]);
        } else {
            assert((a + q)[k] == q[k - a.len()]);
        }
    }
}

proof fn lemma_replace_provider_lines_len(ls: Seq<Seq<char>>, rep: Seq<char>)
    ensures
        replace_provider_lines(ls, rep).len() == ls.len(),
    decreases ls.len(),
{
    if ls.len() > 0 {
        lemma_replace_provider_lines_len(ls.drop_first(), rep);
    }
}

proof fn lemma_agent_read_after_write(ls: Seq<Seq<char>>, provider: Seq<char>, nl: bool)
    requires
        forall|i: int| 0 <= i < ls.len() ==> one_line_text(#[trigger] ls[i]),
        one_line_text(provider),
        exists|i: int| 0 <= i < ls.len() && starts_with(trim_start(#[trigger] ls[i]), "model_provider"@),
    ensures
        agent_provider(
            lines(
                lines_text(replace_provider_lines(ls, "model_provider = "@ + quote_toml(provider)), nl),
            ),
        ) == Some(toml_escape(provider)),
    decreases ls.len(),
{
    let rep = "model_provider = "@ + quote_toml(provider);
    let out = replace_provider_lines(ls, rep);
    let mp = "model_provider"@;
    lemma_replace_provider_lines_len(ls, rep);
    let w = choose|i: int| 0 <= i < ls.len() && starts_with(trim_start(#[trigger] ls[i]), mp);
    assert(ls.len() >= 1);
    assert(one_line_text(ls[0]));
    if starts_with(trim_start(ls[0]), mp) {
        let indent = ls[0].take(ls[0].len() - trim_start(ls[0]).len());
        lemma_trim_start_suffix(ls[0]);
        assert forall|k: int| 0 <= k < indent.len() implies is_ws(#[trigger] indent[k]) by {
            assert(indent[k] == ls[0][k]);
        }
        assert forall|k: int| 0 <= k < indent.len() implies #[trigger] indent[k] != '\n' by {
            assert(indent[k] == ls[0][k]);
        }
        lemma_read_replacement(indent, provider);
        lemma_replacement_one_line(indent, provider);
        let l0 = indent + rep;
        assert(l0 =~= indent + "model_provider = "@ + quote_toml(provider));
        assert(out == seq![l0] + ls.drop_first());
        assert(out[0] == l0);
        lemma_lines_text_front(out, nl);
        let r = lines(lines_text(out, nl));
        assert(r.len() >= 1 && r[0] == l0) by {
            if out.len() >= 2 {
                assert(r == seq![strip_cr(l0)] + lines(lines_text(out.drop_first(), nl)));
            } else if nl {
            } else {
                assert(l0.len() > 0);
            }
        }
        assert(agent_provider(r) == Some(toml_value(trim(l0))));
    } else {
        assert(w > 0);
        let tail = ls.drop_first();
        assert(tail[w - 1] == ls[w]);
        assert forall|i: int| 0 <= i < tail.len() implies one_line_text(#[trigger] tail[i]) by {
            assert(tail[i] == ls[i + 1]);
        }
        lemma_agent_read_after_write(tail, provider, nl);
        assert(out == seq![ls[0]] + replace_provider_lines(tail, rep));
        assert(out.drop_first() =~= replace_provider_lines(tail, rep));
        assert(out[0] == ls[0]);
        lemma_lines_text_front(out, nl);
        let r = lines(lines_text(out, nl));
        assert(r == seq![strip_cr(ls[0])] + lines(lines_text(out.drop_first(), nl)));
        if starts_with(trim(strip_cr(ls[0])), mp) {
            lemma_reader_match(ls[0]);
        }
        assert(r.drop_first() =~= lines(lines_text(out.drop_first(), nl)));
    }
}

/// Setting an agent file's provider and reading it back gives the provider as
/// written in its TOML string: after `replace_model_provider_line(text,
/// provider)`, `read_agent_provider` finds the rewritten line first and reads
/// `provider` escaped for TOML (itself when it holds no `\` or `"`). This holds
/// when `text` has a line that `replace_model_provider_line` rewrites and
/// `provider` is a single line.
pub proof fn law_agent_provider_write_then_read(text: Seq<char>, provider: Seq<char>)
    requires
        exists|i: int|
            0 <= i < lines(text).len() && starts_with(trim_start(#[trigger] lines(text)[i]), "model_provider"@),
        one_line_text(provider),
    ensures
        agent_provider(lines(replaced_provider_text(text, provider))) == Some(toml_escape(provider)),
{
    reveal_strlit("\n");
    lemma_lines_acc_no_newline(text, seq![]);
    let nl = ends_with(text, "\n"@);
    let out = replace_provider_lines(lines(text), "model_provider = "@ + quote_toml(provider));
    assert(replaced_provider_text(text, provider) == lines_text(out, nl));
    lemma_agent_read_after_write(lines(text), provider, nl);
}

proof fn lemma_toml_escape_plain(s: Seq<char>)
    requires
        forall|k: int| 0 <= k < s.len() ==> #[trigger] s[k] != '\\' && s[k] != '"',
    ensures
        toml_escape(s) == s,
    decreases s.len(),
{
    if s.len() > 0 {
        assert forall|k: int| 0 <= k < s.drop_first().len() implies #[trigger] s.drop_first()[k] != '\\'
            && s.drop_first()[k] != '"' by {
            assert(s.drop_first()[k] == s[k + 1]);
        }
        lemma_toml_escape_plain(s.drop_first());
        assert(s[0] != '\\' && s[0] != '"');
        assert(seq![s[0]] + s.drop_first() =~= s);
    }
}

/// A provider that needs no TOML escaping (no `\` or `"`, on one line) reads
/// back exactly as written: after `replace_model_provider_line(text, provider)`
/// the agent's provider is `provider` itself, so a later sync to the same
/// provider leaves the agent alone.
pub proof fn law_agent_provider_settles(text: Seq<char>, provider: Seq<char>)
    requires
        exists|i: int|
            0 <= i < lines(text).len() && starts_with(trim_start(#[trigger] lines(text)[i]), "model_provider"@),
        forall|k: int|
            0 <= k < provider.len() ==> #[trigger] provider[k] != '\\' && provider[k] != '"'
                && provider[k] != '\n',
    ensures
        agent_provider(lines(replaced_provider_text(text, provider))) == Some(provider),
{
    lemma_toml_escape_plain(provider);
    law_agent_provider_write_then_read(text, provider);
}

} // verus!
