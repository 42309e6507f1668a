//! Character-level text primitives: the models of the `str` operations that the
//! session, configuration and rendering code relies on, with verified executable
//! counterparts working on slices of `char`.
use vstd::prelude::*;

verus! {

// ---------------------------------------------------------------------------
// Models
// ---------------------------------------------------------------------------

/// Unicode `White_Space`, the property that `char::is_whitespace` tests.
pub open spec fn is_ws(c: char) -> bool {
    ||| ('\u{9}' <= c && c <= '\u{d}')
    ||| c == ' '
    ||| c == '\u{85}'
    ||| c == '\u{a0}'
    ||| c == '\u{1680}'
    ||| ('\u{2000}' <= c && c <= '\u{200a}')
    ||| c == '\u{2028}'
    ||| c == '\u{2029}'
    ||| c == '\u{202f}'
    ||| c == '\u{205f}'
    ||| c == '\u{3000}'
}

/// `s` with its leading whitespace removed (`str::trim_start`).
pub open spec fn trim_start(s: Seq<char>) -> Seq<char>
    decreases s.len(),
{
    if s.len() > 0 && is_ws(s[0]) {
        trim_start(s.drop_first())
    } else {
        s
    }
}

/// `s` with its trailing whitespace removed (`str::trim_end`).
pub open spec fn trim_end(s: Seq<char>) -> Seq<char>
    decreases s.len(),
{
    if s.len() > 0 && is_ws(s.last()) {
        trim_end(s.drop_last())
    } else {
        s
    }
}

/// `s` with whitespace removed on both sides (`str::trim`).
pub open spec fn trim(s: Seq<char>) -> Seq<char> {
    trim_end(trim_start(s))
}

/// `pat` occurs in `s` starting at index `i`.
pub open spec fn occurs_at(s: Seq<char>, pat: Seq<char>, i: int) -> bool {
    0 <= i && i + pat.len() <= s.len() && s.subrange(i, i + pat.len()) == pat
}

/// The first index at or after `i` where `pat` occurs in `s`.
pub open spec fn find_from(s: Seq<char>, pat: Seq<char>, i: int) -> Option<int>
    decreases s.len() + 1 - i,
{
    if i < 0 || i + pat.len() > s.len() {
        None
    } else if occurs_at(s, pat, i) {
        Some(i)
    } else {
        find_from(s, pat, i + 1)
    }
}

/// The first index where `pat` occurs in `s` (`str::find`).
pub open spec fn find(s: Seq<char>, pat: Seq<char>) -> Option<int> {
    find_from(s, pat, 0)
}

/// `pat` occurs somewhere in `s` (`str::contains`).
pub open spec fn contains(s: Seq<char>, pat: Seq<char>) -> bool {
    find(s, pat) is Some
}

/// The first index at or after `i` whose character belongs to `set`.
pub open spec fn find_char_in(s: Seq<char>, set: Seq<char>, i: int) -> Option<int>
    decreases s.len() - i,
{
    if i < 0 || i >= s.len() {
        None
    } else if set.contains(s[i]) {
        Some(i)
    } else {
        find_char_in(s, set, i + 1)
    }
}

/// `s` begins with `p` (`str::starts_with`).
pub open spec fn starts_with(s: Seq<char>, p: Seq<char>) -> bool {
    p.len() <= s.len() && s.subrange(0, p.len() as int) == p
}

/// `s` ends with `p` (`str::ends_with`).
pub open spec fn ends_with(s: Seq<char>, p: Seq<char>) -> bool {
    p.len() <= s.len() && s.subrange(s.len() - p.len(), s.len() as int) == p
}

/// The words of `s` that follow the partial word `cur`: maximal runs of
/// non-whitespace characters, in order.
pub open spec fn words_acc(s: Seq<char>, cur: Seq<char>) -> Seq<Seq<char>>
    decreases s.len(),
{
    if s.len() == 0 {
        if cur.len() > 0 {
            seq![cur]
        } else {
            seq![]
        }
    } else if is_ws(s[0]) {
        (if cur.len() > 0 {
            seq![cur]
        } else {
            Seq::<Seq<char>>::empty()
        }) + words_acc(s.drop_first(), seq![])
    } else {
        words_acc(s.drop_first(), cur.push(s[0]))
    }
}

/// The words of `s` (`str::split_whitespace`).
pub open spec fn words(s: Seq<char>) -> Seq<Seq<char>> {
    words_acc(s, seq![])
}

/// The pieces of `ws` joined by `sep` (`[String]::join`).
pub open spec fn join(ws: Seq<Seq<char>>, sep: Seq<char>) -> Seq<char>
    decreases ws.len(),
{
    if ws.len() == 0 {
        seq![]
    } else if ws.len() == 1 {
        ws[0]
    } else {
        join(ws.drop_last(), sep) + sep + ws.last()
    }
}

/// `line` without one trailing carriage return.
pub open spec fn strip_cr(line: Seq<char>) -> Seq<char> {
    if line.len() > 0 && line.last() == '\r' {
        line.drop_last()
    } else {
        line
    }
}

/// The lines of `s` that follow the partial line `cur` (`str::lines`): pieces
/// ended by `'\n'`, each without a `'\r'` just before that `'\n'`; a last piece
/// without `'\n'` counts only if it is not empty.
pub open spec fn lines_acc(s: Seq<char>, cur: Seq<char>) -> Seq<Seq<char>>
    decreases s.len(),
{
    if s.len() == 0 {
        if cur.len() > 0 {
            seq![cur]
        } else {
            seq![]
        }
    } else if s[0] == '\n' {
        seq![strip_cr(cur)] + lines_acc(s.drop_first(), seq![])
    } else {
        lines_acc(s.drop_first(), cur.push(s[0]))
    }
}

/// The lines of `s` (`str::lines`).
pub open spec fn lines(s: Seq<char>) -> Seq<Seq<char>> {
    lines_acc(s, seq![])
}

/// Number of bytes of the UTF-8 encoding of `c`.
pub open spec fn utf8_char_len(c: char) -> nat {
    if (c as u32) < 0x80 {
        1
    } else if (c as u32) < 0x800 {
        2
    } else if (c as u32) < 0x10000 {
        3
    } else {
        4
    }
}

/// Number of bytes of the UTF-8 encoding of `s` (`str::len`).
pub open spec fn utf8_len(s: Seq<char>) -> nat
    decreases s.len(),
{
    if s.len() == 0 {
        0
    } else {
        utf8_char_len(s[0]) + utf8_len(s.drop_first())
    }
}

/// ASCII lower case of one character (`char::to_ascii_lowercase`).
pub open spec fn ascii_lower(c: char) -> char {
    if 'A' <= c && c <= 'Z' {
        ((c as u32) + 32) as char
    } else {
        c
    }
}

/// ASCII lower case of a string (`str::to_ascii_lowercase`).
pub open spec fn ascii_lower_seq(s: Seq<char>) -> Seq<char> {
    s.map_values(|c: char| ascii_lower(c))
}

/// The decimal digit for `d < 10`.
pub open spec fn digit_char(d: nat) -> char {
    ((d + 48) as u32) as char
}

/// Decimal representation of `n` without leading zeros (`{}` of an integer).
pub open spec fn decimal(n: nat) -> Seq<char>
    decreases n,
{
    if n < 10 {
        seq![digit_char(n)]
    } else {
        decimal(n / 10).push(digit_char(n % 10))
    }
}

/// `s` padded on the left with `'0'` up to `width` characters (`{:0width$}`).
pub open spec fn zero_pad(s: Seq<char>, width: nat) -> Seq<char> {
    if s.len() >= width {
        s
    } else {
        Seq::new((width - s.len()) as nat, |i: int| '0') + s
    }
}

/// `text` with every `'\0'` removed.
pub open spec fn remove_nul(s: Seq<char>) -> Seq<char>
    decreases s.len(),
{
    if s.len() == 0 {
        s
    } else if s.last() == '\0' {
        remove_nul(s.drop_last())
    } else {
        remove_nul(s.drop_last()).push(s.last())
    }
}

// ---------------------------------------------------------------------------
// Lemmas
// ---------------------------------------------------------------------------

pub proof fn lemma_trim_start_suffix(s: Seq<char>)
    ensures
        trim_start(s).len() <= s.len(),
        trim_start(s) == s.skip(s.len() - trim_start(s).len()),
        forall|i: int| 0 <= i < s.len() - trim_start(s).len() ==> is_ws(#[trigger] s[i]),
        trim_start(s).len() > 0 ==> !is_ws(trim_start(s)[0]),
    decreases s.len(),
{
    if s.len() > 0 && is_ws(s[0]) {
        lemma_trim_start_suffix(s.drop_first());
        assert(s.drop_first().skip(s.drop_first().len() - trim_start(s).len()) =~= s.skip(
            s.len() - trim_start(s).len(),
        ));
        assert forall|i: int| 0 <= i < s.len() - trim_start(s).len() implies is_ws(
            #[trigger] s[i],
        ) by {
            if i > 0 {
                assert(s[i] == s.drop_first()[i - 1]);
            }
        }
    } else {
        assert(s.skip(0) =~= s);
    }
}

pub proof fn lemma_trim_end_prefix(s: Seq<char>)
    ensures
        trim_end(s).len() <= s.len(),
        trim_end(s) == s.take(trim_end(s).len() as int),
        forall|i: int| trim_end(s).len() <= i < s.len() ==> is_ws(#[trigger] s[i]),
        trim_end(s).len() > 0 ==> !is_ws(trim_end(s).last()),
    decreases s.len(),
{
    if s.len() > 0 && is_ws(s.last()) {
        lemma_trim_end_prefix(s.drop_last());
        assert(s.drop_last().take(trim_end(s).len() as int) =~= s.take(
            trim_end(s).len() as int,
        ));
        assert forall|i: int| trim_end(s).len() <= i < s.len() implies is_ws(#[trigger] s[i]) by {
            if i < s.len() - 1 {
                assert(s[i] == s.drop_last()[i]);
            }
        }
    } else {
        assert(s.take(s.len() as int) =~= s);
    }
}

/// Characterisation of `find_from` as the least occurrence at or after `i`.
pub proof fn lemma_find_from(s: Seq<char>, pat: Seq<char>, i: int)
    requires
        0 <= i,
    ensures
        find_from(s, pat, i) matches Some(k) ==> i <= k && occurs_at(s, pat, k) && forall|j: int|
            i <= j < k ==> !occurs_at(s, pat, j),
        find_from(s, pat, i) is None ==> forall|j: int| i <= j ==> !occurs_at(s, pat, j),
    decreases s.len() + 1 - i,
{
    if i + pat.len() > s.len() {
    } else if occurs_at(s, pat, i) {
    } else {
        lemma_find_from(s, pat, i + 1);
    }
}

/// A first occurrence that is characterised as such is what `find_from` returns.
pub proof fn lemma_find_from_unique(s: Seq<char>, pat: Seq<char>, i: int, k: int)
    requires
        0 <= i <= k,
        occurs_at(s, pat, k),
        forall|j: int| i <= j < k ==> !occurs_at(s, pat, j),
    ensures
        find_from(s, pat, i) == Some(k),
    decreases k - i,
{
    if i < k {
        lemma_find_from_unique(s, pat, i + 1, k);
    }
}

/// Dropping the last character of a text that has something after its leading
/// whitespace drops the last character of its trimmed form.
pub proof fn lemma_trim_start_drop_last(s: Seq<char>)
    requires
        trim_start(s).len() >= 1,
    ensures
        trim_start(s.drop_last()) == trim_start(s).drop_last(),
    decreases s.len(),
{
    lemma_trim_start_suffix(s);
    if is_ws(s[0]) {
        assert(trim_start(s) == trim_start(s.drop_first()));
        if s.len() == 1 {
            assert(s.drop_first().len() == 0);
            assert(trim_start(s.drop_first()).len() == 0);
        }
        assert(s.len() >= 2);
        assert(s.drop_last().drop_first() =~= s.drop_first().drop_last());
        lemma_trim_start_drop_last(s.drop_first());
    } else if s.len() >= 2 {
        assert(s.drop_last()[0] == s[0]);
    } else {
        assert(s.drop_last().len() == 0);
        assert(trim_start(s.drop_last()) =~= s.drop_last());
    }
}

/// Where two texts agree up to `a`, a search for a character of `set` that
/// ends before `a` in one ends there in the other.
pub proof fn lemma_find_char_in_prefix(s1: Seq<char>, s2: Seq<char>, set: Seq<char>, i: int, a: int)
    requires
        0 <= i,
        a <= s1.len(),
        a <= s2.len(),
        s1.take(a) == s2.take(a),
        find_char_in(s1, set, i) matches Some(k) && k < a,
    ensures
        find_char_in(s2, set, i) == find_char_in(s1, set, i),
    decreases s1.len() - i,
{
    lemma_find_char_in(s1, set, i);
    assert(s1[i] == s1.take(a)[i]);
    assert(s2[i] == s2.take(a)[i]);
    if !set.contains(s1[i]) {
        lemma_find_char_in_prefix(s1, s2, set, i + 1, a);
    }
}

/// A text holds each piece it is made of.
pub proof fn lemma_contains_split(pre: Seq<char>, pat: Seq<char>, post: Seq<char>)
    ensures
        contains(pre + pat + post, pat),
{
    let s = pre + pat + post;
    assert(s.subrange(pre.len() as int, (pre.len() + pat.len()) as int) =~= pat);
    assert(occurs_at(s, pat, pre.len() as int));
    lemma_find_from(s, pat, 0);
}

/// Occurrence is transitive: a text holding `mid` holds whatever `mid` holds.
pub proof fn lemma_contains_trans(s: Seq<char>, mid: Seq<char>, pat: Seq<char>)
    requires
        contains(s, mid),
        contains(mid, pat),
    ensures
        contains(s, pat),
{
    lemma_find_from(s, mid, 0);
    lemma_find_from(mid, pat, 0);
    let a = find(s, mid)->0;
    let b = find(mid, pat)->0;
    assert(s.subrange(a + b, a + b + pat.len()) =~= mid.subrange(b, b + pat.len()));
    assert(occurs_at(s, pat, a + b));
    lemma_find_from(s, pat, 0);
}

pub proof fn lemma_find_char_in(s: Seq<char>, set: Seq<char>, i: int)
    requires
        0 <= i,
    ensures
        find_char_in(s, set, i) matches Some(k) ==> i <= k < s.len() && set.contains(s[k])
            && forall|j: int| i <= j < k ==> !set.contains(#[trigger] s[j]),
        find_char_in(s, set, i) is None ==> forall|j: int|
            i <= j < s.len() ==> !set.contains(#[trigger] s[j]),
    decreases s.len() - i,
{
    if i < s.len() && !set.contains(s[i]) {
        lemma_find_char_in(s, set, i + 1);
    }
}

pub proof fn lemma_utf8_len_append(a: Seq<char>, b: Seq<char>)
    ensures
        utf8_len(a + b) == utf8_len(a) + utf8_len(b),
    decreases a.len(),
{
    if a.len() == 0 {
        assert(a + b =~= b);
    } else {
        lemma_utf8_len_append(a.drop_first(), b);
        assert((a + b).drop_first() =~= a.drop_first() + b);
    }
}

pub proof fn lemma_utf8_len_bounds(s: Seq<char>)
    ensures
        s.len() <= utf8_len(s) <= 4 * s.len(),
    decreases s.len(),
{
    if s.len() > 0 {
        lemma_utf8_len_bounds(s.drop_first());
    }
}

/// A first occurrence that lies inside a common prefix is the first occurrence
/// in both sequences.
pub proof fn lemma_find_from_prefix(s1: Seq<char>, s2: Seq<char>, pat: Seq<char>, i: int, a: int)
    requires
        0 <= i,
        a <= s1.len(),
        a <= s2.len(),
        s1.take(a) == s2.take(a),
        find_from(s1, pat, i) matches Some(k) && k + pat.len() <= a,
    ensures
        find_from(s2, pat, i) == find_from(s1, pat, i),
{
    lemma_find_from(s1, pat, i);
    let k = find_from(s1, pat, i)->0;
    assert forall|j: int| 0 <= j && j + pat.len() <= a implies (occurs_at(s1, pat, j)
        <==> occurs_at(s2, pat, j)) by {
        assert(s1.subrange(j, j + pat.len()) =~= s1.take(a).subrange(j, j + pat.len()));
        assert(s2.subrange(j, j + pat.len()) =~= s2.take(a).subrange(j, j + pat.len()));
    }
    assert forall|j: int| i <= j < k implies !occurs_at(s2, pat, j) by {
        assert(!occurs_at(s1, pat, j));
    }
    lemma_find_from_unique(s2, pat, i, k);
}

/// Searching a suffix is searching the whole from the suffix's start.
pub proof fn lemma_find_from_skip(s: Seq<char>, pat: Seq<char>, i: int, j: int)
    requires
        0 <= i <= s.len(),
        0 <= j,
    ensures
        find_from(s.skip(i), pat, j) == match find_from(s, pat, i + j) {
            Some(k) => Some(k - i),
            None => None,
        },
{
    let t = s.skip(i);
    assert forall|m: int| 0 <= m implies (occurs_at(t, pat, m) <==> occurs_at(s, pat, m + i)) by {
        if m + pat.len() <= t.len() {
            assert(t.subrange(m, m + pat.len()) =~= s.subrange(m + i, m + i + pat.len()));
        }
    }
    lemma_find_from(s, pat, i + j);
    lemma_find_from(t, pat, j);
    match find_from(s, pat, i + j) {
        Some(k) => {
            assert forall|m: int| j <= m < k - i implies !occurs_at(t, pat, m) by {
                assert(!occurs_at(s, pat, m + i));
            }
            lemma_find_from_unique(t, pat, j, k - i);
        },
        None => {
            if find_from(t, pat, j) is Some {
                let m = find_from(t, pat, j)->0;
                assert(occurs_at(s, pat, m + i));
            }
        },
    }
}

/// Skipping a run of whitespace that ends before a non-whitespace character or
/// at the end.
pub proof fn lemma_trim_start_run(s: Seq<char>, i: int, j: int)
    requires
        0 <= i <= j <= s.len(),
        forall|k: int| i <= k < j ==> is_ws(#[trigger] s[k]),
        j == s.len() || !is_ws(s[j]),
    ensures
        trim_start(s.skip(i)) == s.skip(j),
    decreases j - i,
{
    if i == j {
        if j == s.len() {
            assert(s.skip(j).len() == 0);
        } else {
            assert(s.skip(j)[0] == s[j]);
        }
    } else {
        assert(s.skip(i)[0] == s[i]);
        assert(s.skip(i).drop_first() =~= s.skip(i + 1));
        lemma_trim_start_run(s, i + 1, j);
    }
}


/// Splitting at a space: the words of `x + " " + y` are those of `x` followed
/// by those of `y`.
pub proof fn lemma_words_acc_space(x: Seq<char>, y: Seq<char>, cur: Seq<char>)
    ensures
        words_acc(x + seq![' '] + y, cur) == words_acc(x, cur) + words_acc(y, seq![]),
    decreases x.len(),
{
    let s = x + seq![' '] + y;
    if x.len() == 0 {
        assert(s[0] == ' ');
        assert(s.drop_first() =~= y);
        if cur.len() > 0 {
            assert(words_acc(x, cur) =~= seq![cur]);
        } else {
            assert(words_acc(x, cur) =~= Seq::<Seq<char>>::empty());
        }
        assert(is_ws(' '));
    } else {
        assert(s[0] == x[0]);
        assert(s.drop_first() =~= x.drop_first() + seq![' '] + y);
        if is_ws(x[0]) {
            lemma_words_acc_space(x.drop_first(), y, seq![]);
        } else {
            lemma_words_acc_space(x.drop_first(), y, cur.push(x[0]));
        }
    }
}

/// A text without whitespace is one word (with what precedes it).
pub proof fn lemma_words_acc_no_ws(w: Seq<char>, cur: Seq<char>)
    requires
        forall|i: int| 0 <= i < w.len() ==> !is_ws(#[trigger] w[i]),
    ensures
        words_acc(w, cur) == if (cur + w).len() > 0 {
            seq![cur + w]
        } else {
            Seq::<Seq<char>>::empty()
        },
    decreases w.len(),
{
    if w.len() == 0 {
        assert(cur + w =~= cur);
    } else {
        assert(!is_ws(w[0]));
        assert forall|i: int| 0 <= i < w.drop_first().len() implies !is_ws(
            #[trigger] w.drop_first()[i],
        ) by {
            assert(w.drop_first()[i] == w[i + 1]);
        }
        lemma_words_acc_no_ws(w.drop_first(), cur.push(w[0]));
        assert(cur.push(w[0]) + w.drop_first() =~= cur + w);
    }
}

/// A word: not empty, without whitespace.
pub open spec fn is_word(w: Seq<char>) -> bool {
    w.len() > 0 && forall|i: int| 0 <= i < w.len() ==> !is_ws(#[trigger] w[i])
}

/// Words joined by spaces split back into those words.
pub proof fn lemma_words_join(ws: Seq<Seq<char>>)
    requires
        forall|i: int| 0 <= i < ws.len() ==> is_word(#[trigger] ws[i]),
    ensures
        words(join(ws, " "@)) == ws,
    decreases ws.len(),
{
    reveal_strlit(" ");
    assert(" "@ =~= seq![' ']);
    if ws.len() == 0 {
        assert(words(Seq::<char>::empty()) =~= Seq::<Seq<char>>::empty());
    } else if ws.len() == 1 {
        assert(is_word(ws[0]));
        lemma_words_acc_no_ws(ws[0], seq![]);
        assert(Seq::<char>::empty() + ws[0] =~= ws[0]);
        assert(ws =~= seq![ws[0]]);
    } else {
        let init = ws.drop_last();
        assert forall|i: int| 0 <= i < init.len() implies is_word(#[trigger] init[i]) by {
            assert(init[i] == ws[i]);
        }
        lemma_words_join(init);
        lemma_words_acc_space(join(init, " "@), ws.last(), seq![]);
        assert(is_word(ws[ws.len() - 1]));
        lemma_words_acc_no_ws(ws.last(), seq![]);
        assert(Seq::<char>::empty() + ws.last() =~= ws.last());
        assert(ws =~= init.push(ws.last()));
    }
}

/// The joined text begins with the first word and ends with the last.
pub proof fn lemma_join_ends(ws: Seq<Seq<char>>)
    requires
        ws.len() > 0,
        forall|i: int| 0 <= i < ws.len() ==> is_word(#[trigger] ws[i]),
    ensures
        join(ws, " "@).len() > 0,
        join(ws, " "@)[0] == ws[0][0],
        join(ws, " "@).last() == ws.last().last(),
    decreases ws.len(),
{
    assert(is_word(ws[0]));
    if ws.len() > 1 {
        let init = ws.drop_last();
        assert forall|i: int| 0 <= i < init.len() implies is_word(#[trigger] init[i]) by {
            assert(init[i] == ws[i]);
        }
        lemma_join_ends(init);
        assert(is_word(ws[ws.len() - 1]));
    }
}

/// Whitespace in `s` is only single spaces between non-whitespace characters.
pub open spec fn single_spaced(s: Seq<char>) -> bool {
    forall|k: int|
        0 <= k < s.len() && #[trigger] is_ws(s[k]) ==> s[k] == ' ' && 0 < k < s.len() - 1 && !is_ws(
            s[k - 1],
        ) && !is_ws(s[k + 1])
}

/// Words joined by spaces are single-spaced.
pub proof fn lemma_join_single_spaced(ws: Seq<Seq<char>>)
    requires
        forall|i: int| 0 <= i < ws.len() ==> is_word(#[trigger] ws[i]),
    ensures
        single_spaced(join(ws, " "@)),
    decreases ws.len(),
{
    reveal_strlit(" ");
    if ws.len() == 1 {
        assert(is_word(ws[0]));
    } else if ws.len() > 1 {
        let init = ws.drop_last();
        assert forall|i: int| 0 <= i < init.len() implies is_word(#[trigger] init[i]) by {
            assert(init[i] == ws[i]);
        }
        lemma_join_single_spaced(init);
        lemma_join_ends(init);
        let a = join(init, " "@);
        let l = ws.last();
        assert(is_word(ws[ws.len() - 1]));
        let j = join(ws, " "@);
        assert(j == a + " "@ + l);
        assert forall|k: int| 0 <= k < j.len() && #[trigger] is_ws(j[k]) implies j[k] == ' ' && 0 < k < j.len()
            - 1 && !is_ws(j[k - 1]) && !is_ws(j[k + 1]) by {
            if k < a.len() {
                assert(j[k] == a[k]);
                assert(is_ws(a[k]));
                assert(j[k - 1] == a[k - 1]);
                assert(j[k + 1] == a[k + 1]);
            } else if k == a.len() {
                assert(j[k - 1] == a.last());
                assert(j[k + 1] == l[0]);
            } else {
                assert(j[k] == l[k - a.len() - 1]);
            }
        }
    }
}

/// The joined text holds only characters of the words and spaces.
pub proof fn lemma_join_chars(ws: Seq<Seq<char>>, c: char)
    requires
        c != ' ',
        forall|i: int, k: int| 0 <= i < ws.len() && 0 <= k < ws[i].len() ==> #[trigger] ws[i][k] != c,
    ensures
        forall|k: int| 0 <= k < join(ws, " "@).len() ==> #[trigger] join(ws, " "@)[k] != c,
    decreases ws.len(),
{
    reveal_strlit(" ");
    if ws.len() > 1 {
        let init = ws.drop_last();
        assert forall|i: int, k: int| 0 <= i < init.len() && 0 <= k < init[i].len() implies #[trigger] init[i][k] != c by {
            assert(init[i] == ws[i]);
        }
        lemma_join_chars(init, c);
        let j = join(ws, " "@);
        let a = join(init, " "@);
        assert forall|k: int| 0 <= k < j.len() implies #[trigger] j[k] != c by {
            if k < a.len() {
                assert(j[k] == a[k]);
            } else if k == a.len() {
                assert(j[k] == ' ');
            } else {
                assert(j[k] == ws.last()[k - a.len() - 1]);
            }
        }
    } else if ws.len() == 1 {
        assert forall|k: int| 0 <= k < join(ws, " "@).len() implies #[trigger] join(ws, " "@)[k] != c by {
            assert(ws[0][k] != c);
        }
    }
}

/// Removing NUL characters from a text without any leaves it unchanged.
pub proof fn lemma_remove_nul_none(s: Seq<char>)
    requires
        forall|k: int| 0 <= k < s.len() ==> #[trigger] s[k] != '\0',
    ensures
        remove_nul(s) == s,
    decreases s.len(),
{
    if s.len() > 0 {
        lemma_remove_nul_none(s.drop_last());
        assert(s.drop_last().push(s.last()) =~= s);
    }
}

/// Characters of `remove_nul(s)` are characters of `s` other than NUL.
pub proof fn lemma_remove_nul_chars(s: Seq<char>)
    ensures
        forall|k: int| 0 <= k < remove_nul(s).len() ==> #[trigger] remove_nul(s)[k] != '\0',
    decreases s.len(),
{
    if s.len() > 0 {
        lemma_remove_nul_chars(s.drop_last());
        let r = remove_nul(s.drop_last());
        if s.last() != '\0' {
            assert forall|k: int| 0 <= k < r.push(s.last()).len() implies #[trigger] r.push(
                s.last(),
            )[k] != '\0' by {
                if k < r.len() {
                    assert(r.push(s.last())[k] == r[k]);
                }
            }
        }
    }
}

/// The words of a text are words, made of its characters.
pub proof fn lemma_words_acc_shape(s: Seq<char>, cur: Seq<char>, c: char)
    requires
        forall|k: int| 0 <= k < cur.len() ==> !is_ws(#[trigger] cur[k]) && cur[k] != c,
        forall|k: int| 0 <= k < s.len() ==> #[trigger] s[k] != c,
    ensures
        forall|i: int| 0 <= i < words_acc(s, cur).len() ==> is_word(#[trigger] words_acc(s, cur)[i]),
        forall|i: int, k: int|
            0 <= i < words_acc(s, cur).len() && 0 <= k < words_acc(s, cur)[i].len() ==> #[trigger] words_acc(
                s,
                cur,
            )[i][k] != c,
    decreases s.len(),
{
    let r = words_acc(s, cur);
    if s.len() == 0 {
        if cur.len() > 0 {
            assert(r =~= seq![cur]);
            assert(is_word(cur));
            assert forall|i: int| 0 <= i < r.len() implies is_word(#[trigger] r[i]) by {
                assert(r[i] == cur);
            }
            assert forall|i: int, k: int| 0 <= i < r.len() && 0 <= k < r[i].len() implies #[trigger] r[i][k] != c by {
                assert(r[i] == cur);
            }
        } else {
            assert(r =~= Seq::<Seq<char>>::empty());
        }
    } else {
        assert forall|k: int| 0 <= k < s.drop_first().len() implies #[trigger] s.drop_first()[k] != c by {
            assert(s.drop_first()[k] == s[k + 1]);
        }
        if is_ws(s[0]) {
            lemma_words_acc_shape(s.drop_first(), seq![], c);
            let tail = words_acc(s.drop_first(), seq![]);
            let head = if cur.len() > 0 {
                seq![cur]
            } else {
                Seq::<Seq<char>>::empty()
            };
            assert(r == head + tail);
            if cur.len() > 0 {
                assert(is_word(cur));
            }
            assert forall|i: int| 0 <= i < r.len() implies is_word(#[trigger] r[i]) by {
                if i < head.len() {
                    assert(r[i] == cur);
                } else {
                    assert(r[i] == tail[i - head.len()]);
                }
            }
            assert forall|i: int, k: int| 0 <= i < r.len() && 0 <= k < r[i].len() implies #[trigger] r[i][k] != c by {
                if i < head.len() {
                    assert(r[i] == cur);
                } else {
                    assert(r[i] == tail[i - head.len()]);
                }
            }
        } else {
            let cur2 = cur.push(s[0]);
            assert forall|k: int| 0 <= k < cur2.len() implies !is_ws(#[trigger] cur2[k]) && cur2[k] != c by {
                if k < cur.len() {
                    assert(cur2[k] == cur[k]);
                }
            }
            lemma_words_acc_shape(s.drop_first(), cur2, c);
            assert(r == words_acc(s.drop_first(), cur2));
        }
    }
}


pub proof fn lemma_find_char_in_unique(s: Seq<char>, set: Seq<char>, i: int, k: int)
    requires
        0 <= i <= k < s.len(),
        set.contains(s[k]),
        forall|j: int| i <= j < k ==> !set.contains(#[trigger] s[j]),
    ensures
        find_char_in(s, set, i) == Some(k),
    decreases k - i,
{
    if i < k {
        lemma_find_char_in_unique(s, set, i + 1, k);
    }
}

// ---------------------------------------------------------------------------
// Lines
// ---------------------------------------------------------------------------

/// No newline in `s`.
pub open spec fn one_line_text(s: Seq<char>) -> bool {
    forall|k: int| 0 <= k < s.len() ==> #[trigger] s[k] != '\n'
}

pub proof fn lemma_lines_acc_no_newline(s: Seq<char>, cur: Seq<char>)
    requires
        one_line_text(cur),
    ensures
        forall|i: int| 0 <= i < lines_acc(s, cur).len() ==> one_line_text(#[trigger] lines_acc(s, cur)[i]),
    decreases s.len(),
{
    let r = lines_acc(s, cur);
    if s.len() == 0 {
        if cur.len() == 0 {
            assert(r.len() == 0);
        }
        if cur.len() > 0 {
            assert(r =~= seq![cur]);
            assert forall|i: int| 0 <= i < r.len() implies one_line_text(#[trigger] r[i]) by {
                assert(r[i] == cur);
            }
        }
    } else if s[0] == '\n' {
        lemma_lines_acc_no_newline(s.drop_first(), seq![]);
        let tail = lines_acc(s.drop_first(), seq![]);
        assert(r == seq![strip_cr(cur)] + tail);
        assert(one_line_text(strip_cr(cur))) by {
            assert forall|k: int| 0 <= k < strip_cr(cur).len() implies #[trigger] strip_cr(cur)[k] != '\n' by {
                assert(strip_cr(cur)[k] == cur[k]);
            }
        }
        assert forall|i: int| 0 <= i < r.len() implies one_line_text(#[trigger] r[i]) by {
            if i > 0 {
                assert(r[i] == tail[i - 1]);
            }
        }
    } else {
        let cur2 = cur.push(s[0]);
        assert forall|k: int| 0 <= k < cur2.len() implies #[trigger] cur2[k] != '\n' by {
            if k < cur.len() {
                assert(cur2[k] == cur[k]);
            }
        }
        lemma_lines_acc_no_newline(s.drop_first(), cur2);
        assert(r == lines_acc(s.drop_first(), cur2));
    }
}

/// Lines of a text that holds a line break after its first piece.
pub proof fn lemma_lines_acc_break(x: Seq<char>, rest: Seq<char>, cur: Seq<char>)
    requires
        one_line_text(x),
    ensures
        lines_acc(x + "\n"@ + rest, cur) == seq![strip_cr(cur + x)] + lines_acc(rest, seq![]),
    decreases x.len(),
{
    reveal_strlit("\n");
    let s = x + "\n"@ + rest;
    if x.len() == 0 {
        assert(s[0] == '\n');
        assert(s.drop_first() =~= rest);
        assert(cur + x =~= cur);
    } else {
        assert(s[0] == x[0]);
        assert(x[0] != '\n');
        assert(s.drop_first() =~= x.drop_first() + "\n"@ + rest);
        assert forall|k: int| 0 <= k < x.drop_first().len() implies #[trigger] x.drop_first()[k] != '\n' by {
            assert(x.drop_first()[k] == x[k + 1]);
        }
        lemma_lines_acc_break(x.drop_first(), rest, cur.push(x[0]));
        assert(cur.push(x[0]) + x.drop_first() =~= cur + x);
    }
}

/// Lines of a text without a line break.
pub proof fn lemma_lines_acc_last(x: Seq<char>, cur: Seq<char>)
    requires
        one_line_text(x),
    ensures
        lines_acc(x, cur) == if (cur + x).len() > 0 {
            seq![cur + x]
        } else {
            Seq::<Seq<char>>::empty()
        },
    decreases x.len(),
{
    if x.len() == 0 {
        assert(cur + x =~= cur);
    } else {
        assert forall|k: int| 0 <= k < x.drop_first().len() implies #[trigger] x.drop_first()[k] != '\n' by {
            assert(x.drop_first()[k] == x[k + 1]);
        }
        lemma_lines_acc_last(x.drop_first(), cur.push(x[0]));
        assert(cur.push(x[0]) + x.drop_first() =~= cur + x);
    }
}

/// Joining from the front.
pub proof fn lemma_join_front(ls: Seq<Seq<char>>, sep: Seq<char>)
    requires
        ls.len() >= 2,
    ensures
        join(ls, sep) == ls[0] + sep + join(ls.drop_first(), sep),
    decreases ls.len(),
{
    if ls.len() > 2 {
        let dl = ls.drop_last();
        let df = ls.drop_first();
        lemma_join_front(dl, sep);
        assert(dl.drop_first() =~= df.drop_last());
        assert(df.last() == ls.last());
        assert(dl[0] == ls[0]);
        assert(join(df, sep) == join(df.drop_last(), sep) + sep + df.last());
        assert(join(ls, sep) == join(dl, sep) + sep + ls.last());
        assert(join(ls, sep) =~= ls[0] + sep + join(df, sep));
    } else {
        assert(ls.drop_last() =~= seq![ls[0]]);
        assert(ls.drop_first() =~= seq![ls[1]]);
        assert(join(seq![ls[0]], sep) == ls[0]);
        assert(join(seq![ls[1]], sep) == ls[1]);
    }
}

/// A text whose lines are `ls`, with a final newline when `nl`.
pub open spec fn lines_text(ls: Seq<Seq<char>>, nl: bool) -> Seq<char> {
    if nl {
        join(ls, "\n"@) + "\n"@
    } else {
        join(ls, "\n"@)
    }
}

pub proof fn lemma_lines_text_front(ls: Seq<Seq<char>>, nl: bool)
    requires
        ls.len() >= 1,
        one_line_text(ls[0]),
    ensures
        ls.len() >= 2 ==> lines(lines_text(ls, nl)) == seq![strip_cr(ls[0])] + lines(
            lines_text(ls.drop_first(), nl),
        ),
        ls.len() == 1 && nl ==> lines(lines_text(ls, nl)) == seq![strip_cr(ls[0])],
        ls.len() == 1 && !nl ==> lines(lines_text(ls, nl)) == if ls[0].len() > 0 {
            seq![ls[0]]
        } else {
            Seq::<Seq<char>>::empty()
        },
{
    reveal_strlit("\n");
    assert(Seq::<char>::empty() + ls[0] =~= ls[0]);
    if ls.len() >= 2 {
        lemma_join_front(ls, "\n"@);
        let rest = lines_text(ls.drop_first(), nl);
        assert(lines_text(ls, nl) =~= ls[0] + "\n"@ + rest);
        lemma_lines_acc_break(ls[0], rest, seq![]);
    } else if nl {
        assert(lines_text(ls, nl) =~= ls[0] + "\n"@ + Seq::<char>::empty());
        lemma_lines_acc_break(ls[0], Seq::<char>::empty(), seq![]);
        assert(lines_acc(Seq::<char>::empty(), seq![]) =~= Seq::<Seq<char>>::empty());
        assert(seq![strip_cr(ls[0])] + Seq::<Seq<char>>::empty() =~= seq![strip_cr(ls[0])]);
    } else {
        assert(lines_text(ls, nl) == ls[0]);
        lemma_lines_acc_last(ls[0], seq![]);
    }
}

/// The lines of single-line texts joined with a final newline are those
/// texts, each without a final carriage return.
pub proof fn lemma_lines_of_lines_text(ls: Seq<Seq<char>>)
    requires
        ls.len() >= 1,
        forall|i: int| 0 <= i < ls.len() ==> one_line_text(#[trigger] ls[i]),
    ensures
        lines(lines_text(ls, true)) == ls.map_values(|l: Seq<char>| strip_cr(l)),
    decreases ls.len(),
{
    assert(one_line_text(ls[0]));
    lemma_lines_text_front(ls, true);
    if ls.len() >= 2 {
        let t = ls.drop_first();
        assert forall|i: int| 0 <= i < t.len() implies one_line_text(#[trigger] t[i]) by {
            assert(t[i] == ls[i + 1]);
        }
        lemma_lines_of_lines_text(t);
        assert(seq![strip_cr(ls[0])] + t.map_values(|l: Seq<char>| strip_cr(l)) =~= ls.map_values(
            |l: Seq<char>| strip_cr(l),
        ));
    } else {
        assert(seq![strip_cr(ls[0])] =~= ls.map_values(|l: Seq<char>| strip_cr(l)));
    }
}

// ---------------------------------------------------------------------------
// Executable primitives
// ---------------------------------------------------------------------------

/// Appends one character to a string: `String::push`, which the standard library
/// documents as appending the given `char` to the end of the string.
#[verifier::external_body]
pub(crate) fn push_char(s: &mut String, c: char)
    ensures
        final(s)@ == old(s)@.push(c),
{
    s.push(c);
}

/// The characters of a string slice, in order.
pub fn chars_of(s: &str) -> (v: Vec<char>)
    ensures
        v@ == s@,
{
    let mut v: Vec<char> = Vec::new();
    for c in it: s.chars()
        invariant
            v@ == it.seq().take(it.index() as int),
            it.seq() == s@,
    {
        v.push(c);
    }
    v
}

/// The string made of the given characters.
pub fn string_of(v: &[char]) -> (s: String)
    ensures
        s@ == v@,
{
    let mut s = String::new();
    let mut i: usize = 0;
    while i < v.len()
        invariant
            i <= v.len(),
            s@ == v@.take(i as int),
        decreases v.len() - i,
    {
        push_char(&mut s, v[i]);
        assert(v@.take(i + 1) =~= v@.take(i as int).push(v@[i as int]));
        i = i + 1;
    }
    assert(v@.take(v.len() as int) =~= v@);
    s
}

/// A copy of `v[from..to]`.
pub fn slice_copy(v: &[char], from: usize, to: usize) -> (r: Vec<char>)
    requires
        from <= to <= v.len(),
    ensures
        r@ == v@.subrange(from as int, to as int),
{
    let mut r: Vec<char> = Vec::new();
    let mut i: usize = from;
    while i < to
        invariant
            from <= i <= to <= v.len(),
            r@ == v@.subrange(from as int, i as int),
        decreases to - i,
    {
        r.push(v[i]);
        assert(v@.subrange(from as int, i + 1) =~= v@.subrange(from as int, i as int).push(
            v@[i as int],
        ));
        i = i + 1;
    }
    r
}

/// Appends `w` to `out`.
pub fn extend(out: &mut Vec<char>, w: &[char])
    ensures
        final(out)@ == old(out)@ + w@,
{
    let mut i: usize = 0;
    while i < w.len()
        invariant
            i <= w.len(),
            out@ == old(out)@ + w@.take(i as int),
        decreases w.len() - i,
    {
        out.push(w[i]);
        assert(w@.take(i + 1) =~= w@.take(i as int).push(w@[i as int]));
        i = i + 1;
    }
    assert(w@.take(w.len() as int) =~= w@);
}

/// Appends the characters of `w` to `out`.
pub fn extend_str(out: &mut Vec<char>, w: &str)
    ensures
        final(out)@ == old(out)@ + w@,
{
    let v = chars_of(w);
    extend(out, v.as_slice());
}

/// Equality of two character sequences.
pub fn chars_eq(a: &[char], b: &[char]) -> (r: bool)
    ensures
        r == (a@ == b@),
{
    if a.len() != b.len() {
        return false;
    }
    let mut i: usize = 0;
    while i < a.len()
        invariant
            a.len() == b.len(),
            i <= a.len(),
            forall|j: int| 0 <= j < i ==> a@[j] == b@[j],
        decreases a.len() - i,
    {
        if a[i] != b[i] {
            return false;
        }
        i = i + 1;
    }
    assert(a@ =~= b@);
    true
}

/// Equality of a character sequence with a string slice.
pub fn chars_eq_str(a: &[char], b: &str) -> (r: bool)
    ensures
        r == (a@ == b@),
{
    let bv = chars_of(b);
    chars_eq(a, bv.as_slice())
}

/// `char::is_whitespace`.
pub fn is_whitespace(c: char) -> (r: bool)
    ensures
        r == is_ws(c),
{
    ('\u{9}' <= c && c <= '\u{d}') || c == ' ' || c == '\u{85}' || c == '\u{a0}' || c
        == '\u{1680}' || ('\u{2000}' <= c && c <= '\u{200a}') || c == '\u{2028}' || c == '\u{2029}'
        || c == '\u{202f}' || c == '\u{205f}' || c == '\u{3000}'
}

/// Index of the first character of `s[from..]` that is not whitespace.
pub fn skip_ws(s: &[char], from: usize) -> (k: usize)
    requires
        from <= s.len(),
    ensures
        from <= k <= s.len(),
        s@.subrange(k as int, s.len() as int) == trim_start(s@.subrange(from as int, s.len() as int)),
{
    let mut k: usize = from;
    while k < s.len() && is_whitespace(s[k])
        invariant
            from <= k <= s.len(),
            trim_start(s@.subrange(k as int, s.len() as int)) == trim_start(
                s@.subrange(from as int, s.len() as int),
            ),
        decreases s.len() - k,
    {
        assert(s@.subrange(k as int, s.len() as int).drop_first() =~= s@.subrange(
            k + 1,
            s.len() as int,
        ));
        k = k + 1;
    }
    k
}

/// Index just past the last character of `s[..to]` that is not whitespace.
pub fn skip_ws_back(s: &[char], to: usize) -> (k: usize)
    requires
        to <= s.len(),
    ensures
        k <= to,
        s@.subrange(0, k as int) == trim_end(s@.subrange(0, to as int)),
{
    let mut k: usize = to;
    while k > 0 && is_whitespace(s[k - 1])
        invariant
            k <= to <= s.len(),
            trim_end(s@.subrange(0, k as int)) == trim_end(s@.subrange(0, to as int)),
        decreases k,
    {
        assert(s@.subrange(0, k as int).drop_last() =~= s@.subrange(0, k - 1));
        k = k - 1;
    }
    k
}

/// `str::trim_start`.
pub fn trim_start_chars(s: &[char]) -> (r: Vec<char>)
    ensures
        r@ == trim_start(s@),
{
    let k = skip_ws(s, 0);
    assert(s@.subrange(0, s.len() as int) =~= s@);
    slice_copy(s, k, s.len())
}

/// `str::trim_end`.
pub fn trim_end_chars(s: &[char]) -> (r: Vec<char>)
    ensures
        r@ == trim_end(s@),
{
    let k = skip_ws_back(s, s.len());
    assert(s@.subrange(0, s.len() as int) =~= s@);
    slice_copy(s, 0, k)
}

/// `str::trim`.
pub fn trim_chars(s: &[char]) -> (r: Vec<char>)
    ensures
        r@ == trim(s@),
{
    let t = trim_start_chars(s);
    trim_end_chars(t.as_slice())
}

/// Whether `pat` occurs in `s` at `i`.
pub fn occurs_at_exec(s: &[char], pat: &[char], i: usize) -> (r: bool)
    ensures
        r == occurs_at(s@, pat@, i as int),
{
    if pat.len() > s.len() || i > s.len() - pat.len() {
        return false;
    }
    let mut j: usize = 0;
    while j < pat.len()
        invariant
            i + pat.len() <= s.len(),
            j <= pat.len(),
            forall|k: int| 0 <= k < j ==> s@[i + k] == pat@[k],
        decreases pat.len() - j,
    {
        if s[i + j] != pat[j] {
            assert(s@.subrange(i as int, i + pat.len())[j as int] != pat@[j as int]);
            return false;
        }
        j = j + 1;
    }
    assert(s@.subrange(i as int, i + pat.len()) =~= pat@);
    true
}

/// `str::find` from index `from`.
pub fn find_from_exec(s: &[char], pat: &[char], from: usize) -> (r: Option<usize>)
    ensures
        r matches Some(k) ==> find_from(s@, pat@, from as int) == Some(k as int),
        r is None ==> find_from(s@, pat@, from as int) is None,
{
    if pat.len() > s.len() || from > s.len() - pat.len() {
        return None;
    }
    let last = s.len() - pat.len();
    let mut i: usize = from;
    loop
        invariant
            from <= i <= last,
            last == s.len() - pat.len(),
            find_from(s@, pat@, from as int) == find_from(s@, pat@, i as int),
        decreases last - i,
    {
        if occurs_at_exec(s, pat, i) {
            return Some(i);
        }
        if i == last {
            assert(find_from(s@, pat@, i + 1) is None);
            return None;
        }
        i = i + 1;
    }
}

/// `str::contains`.
pub fn contains_exec(s: &[char], pat: &[char]) -> (r: bool)
    ensures
        r == contains(s@, pat@),
{
    find_from_exec(s, pat, 0).is_some()
}

/// `str::contains` with a string slice pattern.
pub fn contains_str(s: &[char], pat: &str) -> (r: bool)
    ensures
        r == contains(s@, pat@),
{
    let p = chars_of(pat);
    contains_exec(s, p.as_slice())
}

/// First index at or after `from` of a character of `set`.
pub fn find_char_in_exec(s: &[char], set: &[char], from: usize) -> (r: Option<usize>)
    ensures
        r matches Some(k) ==> find_char_in(s@, set@, from as int) == Some(k as int),
        r is None ==> find_char_in(s@, set@, from as int) is None,
{
    let mut i: usize = from;
    while i < s.len()
        invariant
            from <= i,
            find_char_in(s@, set@, from as int) == find_char_in(s@, set@, i as int),
        decreases s.len() - i,
    {
        let mut j: usize = 0;
        let mut hit = false;
        while j < set.len()
            invariant
                j <= set.len(),
                i < s.len(),
                hit == exists|k: int| 0 <= k < j && set@[k] == s@[i as int],
            decreases set.len() - j,
        {
            if set[j] == s[i] {
                hit = true;
            }
            j = j + 1;
        }
        if hit {
            return Some(i);
        }
        i = i + 1;
    }
    None
}

/// `str::starts_with`.
pub fn starts_with_exec(s: &[char], p: &[char]) -> (r: bool)
    ensures
        r == starts_with(s@, p@),
{
    if p.len() > s.len() {
        return false;
    }
    let r = occurs_at_exec(s, p, 0);
    r
}

/// `str::starts_with` with a string slice pattern.
pub fn starts_with_str(s: &[char], p: &str) -> (r: bool)
    ensures
        r == starts_with(s@, p@),
{
    let pv = chars_of(p);
    starts_with_exec(s, pv.as_slice())
}

/// `str::ends_with`.
pub fn ends_with_exec(s: &[char], p: &[char]) -> (r: bool)
    ensures
        r == ends_with(s@, p@),
{
    if p.len() > s.len() {
        return false;
    }
    occurs_at_exec(s, p, s.len() - p.len())
}

/// `str::split_whitespace`.
pub fn split_whitespace(s: &[char]) -> (r: Vec<Vec<char>>)
    ensures
        r@.map_values(|w: Vec<char>| w@) == words(s@),
{
    let mut out: Vec<Vec<char>> = Vec::new();
    let mut cur: Vec<char> = Vec::new();
    let mut i: usize = 0;
    assert(s@.subrange(0, s.len() as int) =~= s@);
    assert(out@.map_values(|w: Vec<char>| w@) =~= Seq::<Seq<char>>::empty());
    while i < s.len()
        invariant
            i <= s.len(),
            words(s@) == out@.map_values(|w: Vec<char>| w@) + words_acc(
                s@.subrange(i as int, s.len() as int),
                cur@,
            ),
        decreases s.len() - i,
    {
        let ghost rest = s@.subrange(i as int, s.len() as int);
        assert(rest.drop_first() =~= s@.subrange(i + 1, s.len() as int));
        if is_whitespace(s[i]) {
            if cur.len() > 0 {
                let ghost before = out@.map_values(|w: Vec<char>| w@);
                out.push(cur);
                assert(out@.map_values(|w: Vec<char>| w@) =~= before + seq![cur@]);
            }
            cur = Vec::new();
        } else {
            cur.push(s[i]);
        }
        i = i + 1;
    }
    if cur.len() > 0 {
        let ghost before = out@.map_values(|w: Vec<char>| w@);
        out.push(cur);
        assert(out@.map_values(|w: Vec<char>| w@) =~= before + seq![cur@]);
    } else {
        assert(out@.map_values(|w: Vec<char>| w@) =~= out@.map_values(|w: Vec<char>| w@) + words_acc(
            seq![],
            cur@,
        ));
    }
    out
}

/// `[String]::join`.
pub fn join_exec(ws: &Vec<Vec<char>>, sep: &[char]) -> (r: Vec<char>)
    ensures
        r@ == join(ws@.map_values(|w: Vec<char>| w@), sep@),
{
    let ghost wv = ws@.map_values(|w: Vec<char>| w@);
    let mut out: Vec<char> = Vec::new();
    let mut i: usize = 0;
    while i < ws.len()
        invariant
            i <= ws.len(),
            wv == ws@.map_values(|w: Vec<char>| w@),
            out@ == join(wv.take(i as int), sep@),
        decreases ws.len() - i,
    {
        assert(wv.take(i + 1).drop_last() =~= wv.take(i as int));
        if i > 0 {
            extend(&mut out, sep);
        } else {
            assert(out@ =~= seq![]);
        }
        extend(&mut out, ws[i].as_slice());
        proof {
            if i == 0 {
                assert(out@ =~= wv.take(1)[0]);
            }
        }
        i = i + 1;
    }
    assert(wv.take(ws.len() as int) =~= wv);
    out
}

/// `str::lines`.
pub fn split_lines(s: &[char]) -> (r: Vec<Vec<char>>)
    ensures
        r@.map_values(|w: Vec<char>| w@) == lines(s@),
{
    let mut out: Vec<Vec<char>> = Vec::new();
    let mut cur: Vec<char> = Vec::new();
    let mut i: usize = 0;
    assert(s@.subrange(0, s.len() as int) =~= s@);
    assert(out@.map_values(|w: Vec<char>| w@) =~= Seq::<Seq<char>>::empty());
    while i < s.len()
        invariant
            i <= s.len(),
            lines(s@) == out@.map_values(|w: Vec<char>| w@) + lines_acc(
                s@.subrange(i as int, s.len() as int),
                cur@,
            ),
        decreases s.len() - i,
    {
        let ghost rest = s@.subrange(i as int, s.len() as int);
        assert(rest.drop_first() =~= s@.subrange(i + 1, s.len() as int));
        if s[i] == '\n' {
            if cur.len() > 0 && cur[cur.len() - 1] == '\r' {
                cur.pop();
            }
            let ghost before = out@.map_values(|w: Vec<char>| w@);
            out.push(cur);
            assert(out@.map_values(|w: Vec<char>| w@) =~= before + seq![cur@]);
            cur = Vec::new();
        } else {
            cur.push(s[i]);
        }
        i = i + 1;
    }
    if cur.len() > 0 {
        let ghost before = out@.map_values(|w: Vec<char>| w@);
        out.push(cur);
        assert(out@.map_values(|w: Vec<char>| w@) =~= before + seq![cur@]);
    } else {
        assert(out@.map_values(|w: Vec<char>| w@) =~= out@.map_values(|w: Vec<char>| w@) + lines_acc(
            seq![],
            cur@,
        ));
    }
    out
}

/// Number of UTF-8 bytes of one character (`char::len_utf8`).
pub fn utf8_char_len_exec(c: char) -> (n: usize)
    ensures
        n == utf8_char_len(c),
{
    let v = c as u32;
    if v < 0x80 {
        1
    } else if v < 0x800 {
        2
    } else if v < 0x10000 {
        3
    } else {
        4
    }
}

/// Whether the UTF-8 encoding of `s` has at most `limit` bytes.
pub fn utf8_len_at_most(s: &[char], limit: usize) -> (r: bool)
    ensures
        r == (utf8_len(s@) <= limit),
{
    let mut total: usize = 0;
    let mut i: usize = 0;
    assert(s@.subrange(0, s.len() as int) =~= s@);
    while i < s.len()
        invariant
            i <= s.len(),
            total <= limit,
            utf8_len(s@) == total + utf8_len(s@.subrange(i as int, s.len() as int)),
        decreases s.len() - i,
    {
        assert(s@.subrange(i as int, s.len() as int).drop_first() =~= s@.subrange(
            i + 1,
            s.len() as int,
        ));
        let b = utf8_char_len_exec(s[i]);
        if b > limit - total {
            proof {
                lemma_utf8_len_bounds(s@.subrange(i + 1, s.len() as int));
            }
            return false;
        }
        total = total + b;
        i = i + 1;
    }
    assert(s@.subrange(s.len() as int, s.len() as int) =~= Seq::<char>::empty());
    true
}

/// `char::to_ascii_lowercase`.
pub fn ascii_lower_exec(c: char) -> (r: char)
    ensures
        r == ascii_lower(c),
{
    if 'A' <= c && c <= 'Z' {
        let v = (c as u32) + 32;
        char_from_ascii(v)
    } else {
        c
    }
}

/// The character of an ASCII code.
fn char_from_ascii(v: u32) -> (c: char)
    requires
        v < 128,
    ensures
        c == v as char,
{
    let b = v as u8;
    let c = b as char;
    assert(c as u32 == v);
    c
}

/// `str::to_ascii_lowercase`.
pub fn ascii_lower_chars(s: &[char]) -> (r: Vec<char>)
    ensures
        r@ == ascii_lower_seq(s@),
{
    let mut out: Vec<char> = Vec::new();
    let mut i: usize = 0;
    while i < s.len()
        invariant
            i <= s.len(),
            out@ == ascii_lower_seq(s@.take(i as int)),
        decreases s.len() - i,
    {
        out.push(ascii_lower_exec(s[i]));
        assert(ascii_lower_seq(s@.take(i + 1)) =~= ascii_lower_seq(s@.take(i as int)).push(
            ascii_lower(s@[i as int]),
        ));
        i = i + 1;
    }
    assert(s@.take(s.len() as int) =~= s@);
    out
}

/// Decimal representation of `n` (`{}` of a `usize`).
pub fn decimal_exec(n: usize) -> (r: Vec<char>)
    ensures
        r@ == decimal(n as nat),
    decreases n,
{
    if n < 10 {
        let d = char_from_ascii((n as u32) + 48);
        let mut r: Vec<char> = Vec::new();
        r.push(d);
        assert(r@ =~= seq![digit_char(n as nat)]);
        r
    } else {
        let mut r = decimal_exec(n / 10);
        let d = char_from_ascii(((n % 10) as u32) + 48);
        r.push(d);
        r
    }
}

/// `{:0width$}` of a `u16`.
pub fn zero_padded(n: u16, width: usize) -> (r: Vec<char>)
    ensures
        r@ == zero_pad(decimal(n as nat), width as nat),
{
    let d = decimal_exec(n as usize);
    if d.len() >= width {
        return d;
    }
    let mut r: Vec<char> = Vec::new();
    let mut i: usize = 0;
    while i < width - d.len()
        invariant
            d.len() < width,
            i <= width - d.len(),
            r@ == Seq::new(i as nat, |k: int| '0'),
        decreases width - d.len() - i,
    {
        r.push('0');
        assert(r@ =~= Seq::new((i + 1) as nat, |k: int| '0'));
        i = i + 1;
    }
    extend(&mut r, d.as_slice());
    r
}

/// `text.replace('\0', "")`.
pub fn remove_nul_exec(s: &[char]) -> (r: Vec<char>)
    ensures
        r@ == remove_nul(s@),
{
    let mut out: Vec<char> = Vec::new();
    let mut i: usize = 0;
    while i < s.len()
        invariant
            i <= s.len(),
            out@ == remove_nul(s@.take(i as int)),
        decreases s.len() - i,
    {
        assert(s@.take(i + 1).drop_last() =~= s@.take(i as int));
        if s[i] != '\0' {
            out.push(s[i]);
        }
        i = i + 1;
    }
    assert(s@.take(s.len() as int) =~= s@);
    out
}

} // verus!
