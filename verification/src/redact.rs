//! Cleaning of message text taken from session logs: whitespace is collapsed and
//! words that look like credentials are redacted.
use vstd::prelude::*;
use crate::text::{
    ascii_lower, is_word, lemma_join_single_spaced, single_spaced, is_ws, lemma_find_char_in_unique, lemma_join_chars, lemma_join_ends,
    lemma_remove_nul_chars, lemma_remove_nul_none, lemma_words_acc_shape, lemma_words_join,
    trim_end, trim_start, ascii_lower_chars, ascii_lower_seq, chars_of, extend, extend_str, find_char_in,
    find_char_in_exec, join, join_exec, lemma_find_char_in, remove_nul, remove_nul_exec,
    split_whitespace, starts_with, starts_with_exec, starts_with_str, string_of, trim, trim_chars,
    utf8_len, utf8_len_at_most, words,
};

verus! {

/// Prefixes (in lower case) of words that carry a credential after `=` or `:`.
pub open spec fn secret_markers() -> Seq<Seq<char>> {
    seq![
        "api_key"@,
        "apikey"@,
        "api-key"@,
        "token"@,
        "password"@,
        "secret"@,
        "bearer"@,
    ]
}

/// The lower-cased word begins with one of the secret markers.
pub open spec fn has_secret_marker(lower: Seq<char>) -> bool {
    exists|i: int| 0 <= i < secret_markers().len() && starts_with(lower, #[trigger] secret_markers()[i])
}

/// `=` and `:`, the separators of a key and its value.
pub open spec fn assignment_chars() -> Seq<char> {
    seq!['=', ':']
}

/// `redact_word(word)`: an API key (`sk-` in any case, at least 16 UTF-8 bytes)
/// becomes `<redacted>`; a word that starts with a secret marker and holds `=`
/// or `:` keeps what precedes the first of them, followed by `=<redacted>`;
/// any other word is kept.
pub open spec fn redacted_word(word: Seq<char>) -> Seq<char> {
    let lower = ascii_lower_seq(word);
    if starts_with(lower, "sk-"@) && utf8_len(word) >= 16 {
        "<redacted>"@
    } else if has_secret_marker(lower) && find_char_in(word, assignment_chars(), 0) is Some {
        word.take(find_char_in(word, assignment_chars(), 0)->0) + "=<redacted>"@
    } else {
        word
    }
}

/// `sanitize(text)`: NUL characters removed, words redacted and joined by single
/// spaces.
pub open spec fn sanitized(text: Seq<char>) -> Seq<char> {
    trim(join(words(remove_nul(text)).map_values(|w: Seq<char>| redacted_word(w)), " "@))
}

/// `noise(text)`: injected context rather than a user request.
pub open spec fn is_noise(text: Seq<char>) -> bool {
    let t = trim(text);
    starts_with(t, "<environment_context>"@) || starts_with(t, "# AGENTS.md instructions"@)
}

/// Redaction of one word.
pub fn redact_word_chars(word: &[char]) -> (r: Vec<char>)
    ensures
        r@ == redacted_word(word@),
{
    let lower = ascii_lower_chars(word);
    if starts_with_str(lower.as_slice(), "sk-") && !utf8_len_at_most(word, 15) {
        return chars_of("<redacted>");
    }
    let markers: [&str; 7] = ["api_key", "apikey", "api-key", "token", "password", "secret", "bearer"];
    let ghost ms = secret_markers();
    let mut i: usize = 0;
    let mut found = false;
    while i < 7
        invariant
            i <= 7,
            lower@ == ascii_lower_seq(word@),
            ms == secret_markers(),
            forall|k: int| 0 <= k < 7 ==> (#[trigger] markers@[k])@ == ms[k],
            found <==> exists|k: int| 0 <= k < i && starts_with(lower@, #[trigger] ms[k]),
        decreases 7 - i,
    {
        if starts_with_str(lower.as_slice(), markers[i]) {
            found = true;
        }
        i = i + 1;
    }
    let set = vec!['=', ':'];
    assert(set@ =~= assignment_chars());
    if found {
        match find_char_in_exec(word, set.as_slice(), 0) {
            Some(idx) => {
                proof {
                    lemma_find_char_in(word@, assignment_chars(), 0);
                }
                let mut out = crate::text::slice_copy(word, 0, idx);
                assert(out@ =~= word@.take(idx as int));
                extend_str(&mut out, "=<redacted>");
                return out;
            },
            None => {},
        }
    }
    let r = crate::text::slice_copy(word, 0, word.len());
    assert(r@ =~= word@);
    r
}


/// `sanitize` on characters.
pub fn sanitize_chars(text: &[char]) -> (r: Vec<char>)
    ensures
        r@ == sanitized(text@),
{
    let clean = remove_nul_exec(text);
    let ws = split_whitespace(clean.as_slice());
    let ghost wv = ws@.map_values(|w: Vec<char>| w@);
    let mut red: Vec<Vec<char>> = Vec::new();
    let mut i: usize = 0;
    while i < ws.len()
        invariant
            i <= ws.len(),
            wv == ws@.map_values(|w: Vec<char>| w@),
            red@.map_values(|w: Vec<char>| w@) == wv.take(i as int).map_values(
                |w: Seq<char>| redacted_word(w),
            ),
        decreases ws.len() - i,
    {
        let r = redact_word_chars(ws[i].as_slice());
        let ghost before = red@.map_values(|w: Vec<char>| w@);
        red.push(r);
        assert(red@.map_values(|w: Vec<char>| w@) =~= before.push(r@));
        assert(wv.take(i + 1).map_values(|w: Seq<char>| redacted_word(w)) =~= wv.take(
            i as int,
        ).map_values(|w: Seq<char>| redacted_word(w)).push(redacted_word(wv[i as int])));
        i = i + 1;
    }
    assert(wv.take(ws.len() as int) =~= wv);
    let sp = chars_of(" ");
    let joined = join_exec(&red, sp.as_slice());
    trim_chars(joined.as_slice())
}

/// `sanitize(text)`: the text with NUL characters removed, its words redacted
/// (see `redact_word`) and joined by single spaces.
pub fn sanitize(text: &str) -> (r: String)
    ensures
        r@ == sanitized(text@),
{
    let t = chars_of(text);
    let r = sanitize_chars(t.as_slice());
    string_of(r.as_slice())
}

/// `redact_word(word)`.
pub fn redact_word(word: &str) -> (r: String)
    ensures
        r@ == redacted_word(word@),
{
    let w = chars_of(word);
    let r = redact_word_chars(w.as_slice());
    string_of(r.as_slice())
}

/// `noise` on characters.
pub fn is_noise_chars(text: &[char]) -> (r: bool)
    ensures
        r == is_noise(text@),
{
    let t = trim_chars(text);
    starts_with_str(t.as_slice(), "<environment_context>") || starts_with_str(
        t.as_slice(),
        "# AGENTS.md instructions",
    )
}

/// `noise(text)`: the text (trimmed) starts with an injected environment context
/// or with AGENTS.md instructions.
pub fn noise(text: &str) -> (r: bool)
    ensures
        r == is_noise(text@),
{
    let t = chars_of(text);
    is_noise_chars(t.as_slice())
}


// ---------------------------------------------------------------------------
// Laws
// ---------------------------------------------------------------------------

proof fn lemma_markers()
    ensures
        secret_markers().len() == 7,
        forall|i: int, k: int|
            0 <= i < 7 && 0 <= k < secret_markers()[i].len() ==> #[trigger] secret_markers()[i][k]
                != '=' && secret_markers()[i][k] != ':',
        forall|i: int|
            0 <= i < 7 ==> (#[trigger] secret_markers()[i]).len() >= 5 && secret_markers()[i][0] != '<'
                && !(secret_markers()[i][0] == 's' && secret_markers()[i][1] == 'k'),
{
    reveal_strlit("api_key");
    reveal_strlit("apikey");
    reveal_strlit("api-key");
    reveal_strlit("token");
    reveal_strlit("password");
    reveal_strlit("secret");
    reveal_strlit("bearer");
    let ms = secret_markers();
    assert(ms[0] == "api_key"@);
    assert(ms[1] == "apikey"@);
    assert(ms[2] == "api-key"@);
    assert(ms[3] == "token"@);
    assert(ms[4] == "password"@);
    assert(ms[5] == "secret"@);
    assert(ms[6] == "bearer"@);
}

proof fn lemma_lower_prefix(w: Seq<char>, n: int)
    requires
        0 <= n <= w.len(),
    ensures
        ascii_lower_seq(w.take(n)) == ascii_lower_seq(w).take(n),
        ascii_lower_seq(w).len() == w.len(),
{
    assert(ascii_lower_seq(w.take(n)) =~= ascii_lower_seq(w).take(n));
}

/// Redacting a redacted word changes nothing.
pub proof fn law_redact_word_idempotent(w: Seq<char>)
    ensures
        redacted_word(redacted_word(w)) == redacted_word(w),
{
    reveal_strlit("<redacted>");
    reveal_strlit("=<redacted>");
    reveal_strlit("sk-");
    lemma_markers();
    let lower = ascii_lower_seq(w);
    let ms = secret_markers();
    if starts_with(lower, "sk-"@) && utf8_len(w) >= 16 {
        let r = "<redacted>"@;
        let lr = ascii_lower_seq(r);
        assert(lr[0] == '<');
        assert(!starts_with(lr, "sk-"@)) by {
            if starts_with(lr, "sk-"@) {
                assert(lr.subrange(0, 3)[0] == lr[0]);
                assert("sk-"@[0] == 's');
            }
        }
        assert forall|i: int| 0 <= i < ms.len() implies !starts_with(lr, #[trigger] ms[i]) by {
            if starts_with(lr, ms[i]) {
                assert(lr.subrange(0, ms[i].len() as int)[0] == lr[0]);
            }
        }
    } else if has_secret_marker(lower) && find_char_in(w, assignment_chars(), 0) is Some {
        let idx = find_char_in(w, assignment_chars(), 0)->0;
        crate::text::lemma_find_char_in(w, assignment_chars(), 0);
        let i = choose|i: int| 0 <= i < ms.len() && starts_with(lower, #[trigger] ms[i]);
        let m = ms[i];
        // the first separator comes after the marker
        assert(idx >= m.len()) by {
            if idx < m.len() {
                assert(lower[idx] == lower.subrange(0, m.len() as int)[idx]);
                assert(lower[idx] == m[idx]);
                assert(lower[idx] == ascii_lower(w[idx]));
                assert(assignment_chars().contains(w[idx]));
            }
        }
        let r = w.take(idx) + "=<redacted>"@;
        let lr = ascii_lower_seq(r);
        lemma_lower_prefix(w, idx);
        lemma_lower_prefix(r, idx);
        assert(r.take(idx) =~= w.take(idx));
        assert(lr.take(idx) == lower.take(idx));
        assert(lr.subrange(0, m.len() as int) =~= lower.subrange(0, m.len() as int));
        assert(starts_with(lr, m));
        assert(has_secret_marker(lr));
        assert(!starts_with(lr, "sk-"@)) by {
            if starts_with(lr, "sk-"@) {
                assert(lr[0] == 's' && lr[1] == 'k');
                assert(lower[0] == lr[0] && lower[1] == lr[1]);
                assert(m[0] == lower[0] && m[1] == lower[1]);
            }
        }
        assert forall|j: int| 0 <= j < idx implies !assignment_chars().contains(#[trigger] r[j]) by {
            assert(r[j] == w[j]);
        }
        assert(r[idx] == '=');
        assert(assignment_chars().contains(r[idx]));
        lemma_find_char_in_unique(r, assignment_chars(), 0, idx);
        assert(r.take(idx) + "=<redacted>"@ =~= r);
    } else {
    }
}

/// Redacting a word without NUL gives a word without NUL.
pub proof fn lemma_redact_shape(w: Seq<char>)
    requires
        is_word(w),
        forall|k: int| 0 <= k < w.len() ==> #[trigger] w[k] != '\0',
    ensures
        is_word(redacted_word(w)),
        forall|k: int| 0 <= k < redacted_word(w).len() ==> #[trigger] redacted_word(w)[k] != '\0',
{
    reveal_strlit("<redacted>");
    reveal_strlit("=<redacted>");
    let lower = ascii_lower_seq(w);
    let r = redacted_word(w);
    if starts_with(lower, "sk-"@) && utf8_len(w) >= 16 {
        assert(r == "<redacted>"@);
    } else if has_secret_marker(lower) && find_char_in(w, assignment_chars(), 0) is Some {
        let idx = find_char_in(w, assignment_chars(), 0)->0;
        crate::text::lemma_find_char_in(w, assignment_chars(), 0);
        assert forall|k: int| 0 <= k < r.len() implies !is_ws(#[trigger] r[k]) && r[k] != '\0' by {
            if k < idx {
                assert(r[k] == w[k]);
            } else {
                assert(r[k] == "=<redacted>"@[k - idx]);
            }
        }
    }
}

/// Sanitizing a sanitized text changes nothing: its words are already
/// redacted, single-spaced and free of NUL characters.
pub proof fn law_sanitize_idempotent(t: Seq<char>)
    ensures
        sanitized(sanitized(t)) == sanitized(t),
{
    reveal_strlit(" ");
    let clean = remove_nul(t);
    lemma_remove_nul_chars(t);
    let ws = words(clean);
    lemma_words_acc_shape(clean, seq![], '\0');
    let rs = ws.map_values(|w: Seq<char>| redacted_word(w));
    assert forall|i: int| 0 <= i < rs.len() implies is_word(#[trigger] rs[i]) && forall|k: int|
        0 <= k < rs[i].len() ==> #[trigger] rs[i][k] != '\0' by {
        assert(is_word(ws[i]));
        assert forall|k: int| 0 <= k < ws[i].len() implies #[trigger] ws[i][k] != '\0' by {
        }
        lemma_redact_shape(ws[i]);
    }
    let j = join(rs, " "@);
    if rs.len() == 0 {
        assert(j =~= Seq::<char>::empty());
        assert(trim_start(j) =~= j);
        assert(trim_end(j) =~= j);
        assert(remove_nul(j) =~= j);
        assert(words(j) =~= Seq::<Seq<char>>::empty());
        assert(words(j).map_values(|w: Seq<char>| redacted_word(w)) =~= Seq::<Seq<char>>::empty());
    } else {
        lemma_join_ends(rs);
        assert(is_word(rs[0]));
        assert(is_word(rs[rs.len() - 1]));
        assert(!is_ws(j[0]));
        assert(!is_ws(j.last()));
        assert(trim_start(j) == j);
        assert(trim_end(j) == j);
        assert forall|i: int, k: int| 0 <= i < rs.len() && 0 <= k < rs[i].len() implies #[trigger] rs[i][k]
            != '\0' by {
        }
        lemma_join_chars(rs, '\0');
        lemma_remove_nul_none(j);
        lemma_words_join(rs);
        assert forall|i: int| 0 <= i < rs.len() implies #[trigger] redacted_word(rs[i]) == rs[i] by {
            law_redact_word_idempotent(ws[i]);
        }
        assert(rs.map_values(|w: Seq<char>| redacted_word(w)) =~= rs);
    }
}

/// The shape of sanitized text: no NUL character, no whitespace at either
/// end, and whitespace only as single spaces between words.
pub proof fn law_sanitized_shape(t: Seq<char>)
    ensures
        forall|k: int| 0 <= k < sanitized(t).len() ==> #[trigger] sanitized(t)[k] != '\0',
        sanitized(t).len() > 0 ==> !is_ws(sanitized(t)[0]) && !is_ws(sanitized(t).last()),
        single_spaced(sanitized(t)),
{
    reveal_strlit(" ");
    let clean = remove_nul(t);
    lemma_remove_nul_chars(t);
    let ws = words(clean);
    lemma_words_acc_shape(clean, seq![], '\0');
    let rs = ws.map_values(|w: Seq<char>| redacted_word(w));
    assert forall|i: int| 0 <= i < rs.len() implies is_word(#[trigger] rs[i]) && forall|k: int|
        0 <= k < rs[i].len() ==> #[trigger] rs[i][k] != '\0' by {
        assert(is_word(ws[i]));
        assert forall|k: int| 0 <= k < ws[i].len() implies #[trigger] ws[i][k] != '\0' by {
        }
        lemma_redact_shape(ws[i]);
    }
    let j = join(rs, " "@);
    if rs.len() == 0 {
        assert(j =~= Seq::<char>::empty());
        assert(trim_start(j) =~= j);
        assert(trim_end(j) =~= j);
    } else {
        lemma_join_ends(rs);
        assert(is_word(rs[0]));
        assert(is_word(rs[rs.len() - 1]));
        assert(trim_start(j) == j);
        assert(trim_end(j) == j);
        assert forall|i: int, k: int| 0 <= i < rs.len() && 0 <= k < rs[i].len() implies #[trigger] rs[i][k]
            != '\0' by {
        }
        lemma_join_chars(rs, '\0');
        lemma_join_single_spaced(rs);
    }
    assert(sanitized(t) == j);
}

/// A word that starts (in ASCII lower case) with `api_key`, `apikey`,
/// `api-key`, `token`, `password`, `secret` or `bearer` and holds `=` or `:`
/// shows nothing after its first `=` or `:`: it becomes what precedes that
/// separator followed by `=<redacted>`.
pub proof fn law_redact_assignment(w: Seq<char>, k: int)
    requires
        ({
            let lower = ascii_lower_seq(w);
            ||| starts_with(lower, "api_key"@)
            ||| starts_with(lower, "apikey"@)
            ||| starts_with(lower, "api-key"@)
            ||| starts_with(lower, "token"@)
            ||| starts_with(lower, "password"@)
            ||| starts_with(lower, "secret"@)
            ||| starts_with(lower, "bearer"@)
        }),
        0 <= k < w.len(),
        w[k] == '=' || w[k] == ':',
        forall|j: int| 0 <= j < k ==> #[trigger] w[j] != '=' && w[j] != ':',
    ensures
        redacted_word(w) == w.take(k) + "=<redacted>"@,
{
    reveal_strlit("api_key");
    reveal_strlit("apikey");
    reveal_strlit("api-key");
    reveal_strlit("token");
    reveal_strlit("password");
    reveal_strlit("secret");
    reveal_strlit("bearer");
    reveal_strlit("sk-");
    let lower = ascii_lower_seq(w);
    let ms = secret_markers();
    let m = if starts_with(lower, "api_key"@) {
        0int
    } else if starts_with(lower, "apikey"@) {
        1int
    } else if starts_with(lower, "api-key"@) {
        2int
    } else if starts_with(lower, "token"@) {
        3int
    } else if starts_with(lower, "password"@) {
        4int
    } else if starts_with(lower, "secret"@) {
        5int
    } else {
        6int
    };
    assert(ms[0] == "api_key"@);
    assert(ms[1] == "apikey"@);
    assert(ms[2] == "api-key"@);
    assert(ms[3] == "token"@);
    assert(ms[4] == "password"@);
    assert(ms[5] == "secret"@);
    assert(ms[6] == "bearer"@);
    assert(starts_with(lower, ms[m]));
    assert(has_secret_marker(lower));
    assert(!starts_with(lower, "sk-"@)) by {
        assert(lower[0] == ms[m][0]);
        if starts_with(lower, "sk-"@) {
            assert(lower[0] == "sk-"@[0]);
            assert(lower[1] == "sk-"@[1]);
            assert(lower[1] == ms[m][1]);
        }
    }
    assert(assignment_chars()[0] == '=' && assignment_chars()[1] == ':');
    assert forall|j: int| 0 <= j < k implies !assignment_chars().contains(#[trigger] w[j]) by {
        if assignment_chars().contains(w[j]) {
            let q = choose|q: int| 0 <= q < 2 && assignment_chars()[q] == w[j];
        }
    }
    assert(assignment_chars().contains(w[k]));
    lemma_find_char_in_unique(w, assignment_chars(), 0, k);
}

} // verus!
