//! The decisions of the main window: which command a notification stands for,
//! the progress indicator, which sessions the search shows, and which session
//! is selected.
use vstd::prelude::*;
use crate::catalog::sessions_view;
use crate::session::{Session, SessionView};
use crate::text::{chars_of, contains, contains_exec, lemma_contains_split, decimal, decimal_exec, extend, extend_str,
    string_of,
};

verus! {

/// Control identifier of the session list.
pub const ID_LIST: i32 = 1001;
/// Control identifier of the details pane.
pub const ID_DETAILS: i32 = 1002;
/// Control identifier of the search box.
pub const ID_SEARCH: i32 = 1003;
/// Control identifier of the "Include archived" check box.
pub const ID_INCLUDE_ARCHIVED: i32 = 1004;
/// Control identifier of the "Refresh" button.
pub const ID_REFRESH: i32 = 1005;
/// Control identifier of the "Open sessions" button.
pub const ID_OPEN: i32 = 1006;
/// Control identifier of the "Native Resume Command" button.
pub const ID_NATIVE: i32 = 1007;
/// Control identifier of the "Diagnose /resume Risk" button.
pub const ID_DOCTOR: i32 = 1008;
/// Control identifier of the "Show Detail" button.
pub const ID_DETAIL: i32 = 1009;
/// Control identifier of the "Preview Sync" button.
pub const ID_PREVIEW_SYNC: i32 = 1010;
/// Control identifier of the "Sync to Current Provider" button.
pub const ID_SYNC: i32 = 1011;
/// Control identifier of the "Export Restore File" button.
pub const ID_EXPORT: i32 = 1012;
/// Control identifier of the "Copy Restore Prompt" button.
pub const ID_COPY: i32 = 1013;
/// Control identifier of the progress line.
pub const ID_PROGRESS: i32 = 1014;
/// Notification code of a list box whose selection changed (`LBN_SELCHANGE`).
pub const LIST_SELECTION_CHANGED: u16 = 1;
/// Notification code of an edit control whose text changed (`EN_CHANGE`).
pub const EDIT_CHANGED: u16 = 0x300;

/// What a `WM_COMMAND` notification asks for.
#[derive(PartialEq, Eq, Structural, Clone, Copy, Debug)]
pub enum UiCommand {
    Refresh,
    ToggleArchived,
    OpenSessions,
    SelectionChanged,
    SearchChanged,
    ShowDetail,
    NativeCommand,
    Diagnose,
    PreviewSync,
    Sync,
    ExportRestore,
    CopyRestore,
}

/// The command for control `id` sending notification `code`.
pub open spec fn command_of(id: int, code: int) -> Option<UiCommand> {
    if id == ID_REFRESH {
        Some(UiCommand::Refresh)
    } else if id == ID_INCLUDE_ARCHIVED {
        Some(UiCommand::ToggleArchived)
    } else if id == ID_OPEN {
        Some(UiCommand::OpenSessions)
    } else if id == ID_LIST && code == LIST_SELECTION_CHANGED {
        Some(UiCommand::SelectionChanged)
    } else if id == ID_SEARCH && code == EDIT_CHANGED {
        Some(UiCommand::SearchChanged)
    } else if id == ID_DETAIL {
        Some(UiCommand::ShowDetail)
    } else if id == ID_NATIVE {
        Some(UiCommand::NativeCommand)
    } else if id == ID_DOCTOR {
        Some(UiCommand::Diagnose)
    } else if id == ID_PREVIEW_SYNC {
        Some(UiCommand::PreviewSync)
    } else if id == ID_SYNC {
        Some(UiCommand::Sync)
    } else if id == ID_EXPORT {
        Some(UiCommand::ExportRestore)
    } else if id == ID_COPY {
        Some(UiCommand::CopyRestore)
    } else {
        None
    }
}

/// `handle_command`'s decoding: the control id is the low 16 bits of `wparam`,
/// the notification code the next 16.
pub fn command_for(wparam: usize) -> (r: Option<UiCommand>)
    ensures
        r == command_of(wparam as int % 0x10000, (wparam as int / 0x10000) % 0x10000),
{
    let low = wparam & 0xffff;
    let high = (wparam >> 16) & 0xffff;
    assert(wparam & 0xffff == wparam % 0x10000) by (bit_vector);
    assert((wparam >> 16) & 0xffff == (wparam / 0x10000) % 0x10000) by (bit_vector);
    let id = low as i32;
    let code = high as u16;
    if id == ID_REFRESH {
        Some(UiCommand::Refresh)
    } else if id == ID_INCLUDE_ARCHIVED {
        Some(UiCommand::ToggleArchived)
    } else if id == ID_OPEN {
        Some(UiCommand::OpenSessions)
    } else if id == ID_LIST && code == LIST_SELECTION_CHANGED {
        Some(UiCommand::SelectionChanged)
    } else if id == ID_SEARCH && code == EDIT_CHANGED {
        Some(UiCommand::SearchChanged)
    } else if id == ID_DETAIL {
        Some(UiCommand::ShowDetail)
    } else if id == ID_NATIVE {
        Some(UiCommand::NativeCommand)
    } else if id == ID_DOCTOR {
        Some(UiCommand::Diagnose)
    } else if id == ID_PREVIEW_SYNC {
        Some(UiCommand::PreviewSync)
    } else if id == ID_SYNC {
        Some(UiCommand::Sync)
    } else if id == ID_EXPORT {
        Some(UiCommand::ExportRestore)
    } else if id == ID_COPY {
        Some(UiCommand::CopyRestore)
    } else {
        None
    }
}

// ---------------------------------------------------------------------------
// Progress
// ---------------------------------------------------------------------------

/// The progress line when an action starts: `<label>  0%`.
pub fn progress_start_text(label: &str) -> (r: String)
    ensures
        r@ == label@ + "  0%"@,
{
    let mut out = chars_of(label);
    extend_str(&mut out, "  0%");
    string_of(out.as_slice())
}

/// The step after a timer tick: seven more, at most 95.
pub open spec fn next_step(step: nat) -> nat {
    if step + 7 <= 95 {
        step + 7
    } else {
        95
    }
}

/// `tick_progress`'s new step.
pub fn next_progress_step(step: usize) -> (r: usize)
    requires
        step + 7 <= usize::MAX,
    ensures
        r == next_step(step as nat),
{
    if step + 7 <= 95 {
        step + 7
    } else {
        95
    }
}

/// `n` copies of `c`.
pub open spec fn repeat_char(c: char, n: nat) -> Seq<char> {
    Seq::new(n, |i: int| c)
}

/// The progress line at `step` percent: a bar of ten cells, one filled per ten
/// percent.
pub open spec fn progress_text(step: nat) -> Seq<char> {
    let bars: nat = if step / 10 <= 10 {
        step / 10
    } else {
        10
    };
    "Working ["@ + repeat_char('█', bars) + repeat_char('░', (10 - bars) as nat) + "] "@ + decimal(step)
        + "%"@
}

fn push_repeat(out: &mut Vec<char>, c: char, n: usize)
    ensures
        final(out)@ == old(out)@ + repeat_char(c, n as nat),
{
    let mut i: usize = 0;
    while i < n
        invariant
            i <= n,
            out@ == old(out)@ + repeat_char(c, i as nat),
        decreases n - i,
    {
        out.push(c);
        assert(repeat_char(c, (i + 1) as nat) =~= repeat_char(c, i as nat).push(c));
        i = i + 1;
    }
}

/// `tick_progress`'s progress line.
pub fn progress_bar_text(step: usize) -> (r: String)
    ensures
        r@ == progress_text(step as nat),
{
    let bars: usize = if step / 10 <= 10 {
        step / 10
    } else {
        10
    };
    let mut out = chars_of("Working [");
    push_repeat(&mut out, '█', bars);
    push_repeat(&mut out, '░', 10 - bars);
    extend_str(&mut out, "] ");
    extend(&mut out, decimal_exec(step).as_slice());
    extend_str(&mut out, "%");
    string_of(out.as_slice())
}

// ---------------------------------------------------------------------------
// Search
// ---------------------------------------------------------------------------

/// The lower case of a text as `str::to_lowercase` gives it (Unicode case
/// mapping, including its context-dependent rules).
pub uninterp spec fn unicode_lowercase(s: Seq<char>) -> Seq<char>;

/// `str::to_lowercase`, which the standard library documents as the lowercase
/// equivalent of the text, a new `String`, determined by the text alone; it
/// maps the text character by character, so the empty text stays empty. What
/// the lowercase of a character is, is left to the name `unicode_lowercase`.
#[verifier::external_body]
fn to_lowercase(s: &str) -> (r: String)
    ensures
        r@ == unicode_lowercase(s@),
        s@.len() == 0 ==> r@.len() == 0,
{
    s.to_lowercase()
}

/// The lower case of a search text or needle, as the search compares them.
pub fn lowercase(s: &str) -> (r: String)
    ensures
        r@ == unicode_lowercase(s@),
        s@.len() == 0 ==> r@.len() == 0,
{
    to_lowercase(s)
}

/// The text that the search looks in: id, thread name, provider and working
/// directory separated by spaces.
pub open spec fn search_text(s: SessionView) -> Seq<char> {
    s.id + " "@ + s.thread_name + " "@ + s.provider + " "@ + s.cwd
}

/// A lower-cased search text is shown for a lower-cased needle: the needle is
/// empty or occurs in it.
pub open spec fn needle_matches(hay: Seq<char>, needle: Seq<char>) -> bool {
    needle.len() == 0 || contains(hay, needle)
}

/// Whether a lower-cased search text is shown for a lower-cased needle.
pub fn matches_needle(hay: &str, needle: &str) -> (r: bool)
    ensures
        r == needle_matches(hay@, needle@),
{
    let h = chars_of(hay);
    let n = chars_of(needle);
    n.len() == 0 || contains_exec(h.as_slice(), n.as_slice())
}

/// The indices of the sessions shown for `needle`, in order.
pub open spec fn shown_indices(ss: Seq<SessionView>, needle: Seq<char>) -> Seq<usize>
    decreases ss.len(),
{
    if ss.len() == 0 {
        seq![]
    } else if needle_matches(unicode_lowercase(search_text(ss.last())), unicode_lowercase(needle)) {
        shown_indices(ss.drop_last(), needle).push((ss.len() - 1) as usize)
    } else {
        shown_indices(ss.drop_last(), needle)
    }
}

/// `apply_filter`'s choice of sessions: the indices of those whose search text,
/// in lower case, is matched by the needle in lower case.
pub fn filter_sessions(sessions: &Vec<Session>, needle: &str) -> (r: Vec<usize>)
    ensures
        r@ == shown_indices(sessions_view(sessions@), needle@),
        needle@.len() == 0 ==> r@ == Seq::new(sessions.len() as nat, |k: int| k as usize),
{
    let ghost sv = sessions_view(sessions@);
    let lowered = lowercase(needle);
    let mut out: Vec<usize> = Vec::new();
    let mut i: usize = 0;
    assert(sv.take(0) =~= Seq::<SessionView>::empty());
    while i < sessions.len()
        invariant
            i <= sessions.len(),
            sv == sessions_view(sessions@),
            lowered@ == unicode_lowercase(needle@),
            needle@.len() == 0 ==> lowered@.len() == 0,
            out@ == shown_indices(sv.take(i as int), needle@),
            lowered@.len() == 0 ==> out@ == Seq::new(i as nat, |k: int| k as usize),
        decreases sessions.len() - i,
    {
        assert(sv.take(i + 1).drop_last() =~= sv.take(i as int));
        let s = &sessions[i];
        let mut hay = chars_of(s.id.as_str());
        extend_str(&mut hay, " ");
        extend_str(&mut hay, s.thread_name.as_str());
        extend_str(&mut hay, " ");
        extend_str(&mut hay, s.provider.as_str());
        extend_str(&mut hay, " ");
        extend_str(&mut hay, s.cwd.as_str());
        assert(hay@ =~= search_text(sv[i as int]));
        let hay_s = string_of(hay.as_slice());
        let hay_lower = lowercase(hay_s.as_str());
        let ghost before = out@;
        if matches_needle(hay_lower.as_str(), lowered.as_str()) {
            out.push(i);
        }
        proof {
            if lowered@.len() == 0 {
                assert(out@ =~= Seq::new((i + 1) as nat, |k: int| k as usize));
            }
        }
        i = i + 1;
    }
    assert(sv.take(sessions.len() as int) =~= sv);
    out
}

/// The shown rows list sessions in their order, each at most once: the indices
/// are increasing and within the session list (of any length a `Vec` can
/// have).
pub proof fn law_shown_indices_ordered(ss: Seq<SessionView>, needle: Seq<char>)
    requires
        ss.len() <= usize::MAX,
    ensures
        forall|i: int| 0 <= i < shown_indices(ss, needle).len() ==> #[trigger] shown_indices(ss, needle)[i] < ss.len(),
        forall|i: int, j: int|
            0 <= i < j < shown_indices(ss, needle).len() ==> #[trigger] shown_indices(ss, needle)[i]
                < #[trigger] shown_indices(ss, needle)[j],
    decreases ss.len(),
{
    if ss.len() > 0 {
        law_shown_indices_ordered(ss.drop_last(), needle);
        let prev = shown_indices(ss.drop_last(), needle);
        let r = shown_indices(ss, needle);
        if r != prev {
            assert(r == prev.push((ss.len() - 1) as usize));
            assert forall|i: int| 0 <= i < r.len() implies #[trigger] r[i] < ss.len() by {
                if i < prev.len() {
                    assert(r[i] == prev[i]);
                }
            }
            assert forall|i: int, j: int| 0 <= i < j < r.len() implies #[trigger] r[i] < #[trigger] r[j] by {
                assert(r[i] == prev[i]);
                assert(prev[i] < ss.drop_last().len());
                if j < prev.len() {
                    assert(r[j] == prev[j]);
                } else {
                    assert(r[j] == ss.len() - 1);
                }
            }
        }
    }
}

/// A narrower search shows no more: when the lower-cased second search text
/// holds the lower-cased first one, every session shown for the second is
/// shown for the first.
pub proof fn law_narrower_search_subset(ss: Seq<SessionView>, q1: Seq<char>, q2: Seq<char>)
    requires
        contains(unicode_lowercase(q2), unicode_lowercase(q1)),
    ensures
        forall|x: usize| #[trigger] shown_indices(ss, q2).contains(x) ==> shown_indices(ss, q1).contains(x),
    decreases ss.len(),
{
    if ss.len() > 0 {
        let init = ss.drop_last();
        law_narrower_search_subset(init, q1, q2);
        let h = unicode_lowercase(search_text(ss.last()));
        let n1 = unicode_lowercase(q1);
        let n2 = unicode_lowercase(q2);
        if needle_matches(h, n2) {
            if n2.len() == 0 {
                crate::text::lemma_find_from(n2, n1, 0);
                if n1.len() > 0 {
                    assert(false);
                }
            } else {
                crate::text::lemma_contains_trans(h, n2, n1);
            }
            assert(needle_matches(h, n1));
        }
        let a1 = shown_indices(init, q1);
        let a2 = shown_indices(init, q2);
        assert forall|x: usize| #[trigger] shown_indices(ss, q2).contains(x) implies shown_indices(
            ss,
            q1,
        ).contains(x) by {
            let r1 = shown_indices(ss, q1);
            let r2 = shown_indices(ss, q2);
            let k = choose|k: int| 0 <= k < r2.len() && r2[k] == x;
            if k < a2.len() {
                assert(r2[k] == a2[k]);
                assert(a2.contains(x));
                let m = choose|m: int| 0 <= m < a1.len() && a1[m] == x;
                assert(r1[m] == a1[m]);
            } else {
                assert(needle_matches(h, n2));
                assert(r1 == a1.push((ss.len() - 1) as usize));
                assert(r1[a1.len() as int] == x);
            }
        }
    }
}

/// The search looks in every field that the list shows of a session: its id,
/// thread name, provider and working directory each stand in the search text,
/// set apart by spaces.
pub proof fn law_search_text_fields(s: SessionView)
    ensures
        contains(search_text(s), s.id),
        contains(search_text(s), s.thread_name),
        contains(search_text(s), s.provider),
        contains(search_text(s), s.cwd),
        contains(search_text(s), s.id + " "@ + s.thread_name + " "@),
        contains(search_text(s), " "@ + s.provider + " "@ + s.cwd),
{
    let sp = " "@;
    let t = search_text(s);
    let e = Seq::<char>::empty();
    assert(t =~= e + s.id + (sp + s.thread_name + sp + s.provider + sp + s.cwd));
    lemma_contains_split(e, s.id, sp + s.thread_name + sp + s.provider + sp + s.cwd);
    assert(t =~= (s.id + sp) + s.thread_name + (sp + s.provider + sp + s.cwd));
    lemma_contains_split(s.id + sp, s.thread_name, sp + s.provider + sp + s.cwd);
    assert(t =~= (s.id + sp + s.thread_name + sp) + s.provider + (sp + s.cwd));
    lemma_contains_split(s.id + sp + s.thread_name + sp, s.provider, sp + s.cwd);
    assert(t =~= (s.id + sp + s.thread_name + sp + s.provider + sp) + s.cwd + e);
    lemma_contains_split(s.id + sp + s.thread_name + sp + s.provider + sp, s.cwd, e);
    assert(t =~= e + (s.id + sp + s.thread_name + sp) + (s.provider + sp + s.cwd));
    lemma_contains_split(e, s.id + sp + s.thread_name + sp, s.provider + sp + s.cwd);
    assert(t =~= (s.id + sp + s.thread_name) + (sp + s.provider + sp + s.cwd) + e);
    lemma_contains_split(s.id + sp + s.thread_name, sp + s.provider + sp + s.cwd, e);
}

/// A session is shown exactly when the lower case of the needle is empty or
/// occurs in the lower case of its search text.
pub proof fn law_shown_exactly_matching(ss: Seq<SessionView>, needle: Seq<char>, i: int)
    requires
        0 <= i < ss.len() <= usize::MAX,
    ensures
        shown_indices(ss, needle).contains(i as usize) <==> (unicode_lowercase(needle).len() == 0
            || contains(unicode_lowercase(search_text(ss[i])), unicode_lowercase(needle))),
    decreases ss.len(),
{
    let n = unicode_lowercase(needle);
    let m = needle_matches(unicode_lowercase(search_text(ss[i])), n);
    let init = ss.drop_last();
    let prev = shown_indices(init, needle);
    let r = shown_indices(ss, needle);
    law_shown_indices_ordered(init, needle);
    if i < ss.len() - 1 {
        assert(init[i] == ss[i]);
        law_shown_exactly_matching(init, needle, i);
        if r.contains(i as usize) {
            let k = choose|k: int| 0 <= k < r.len() && r[k] == i as usize;
            if k < prev.len() {
                assert(r[k] == prev[k]);
            } else {
                assert(r[k] == (ss.len() - 1) as usize);
            }
        }
        if prev.contains(i as usize) {
            let k = choose|k: int| 0 <= k < prev.len() && prev[k] == i as usize;
            assert(r[k] == prev[k]);
        }
    } else {
        assert(ss.last() == ss[i]);
        if r.contains(i as usize) && !m {
            let k = choose|k: int| 0 <= k < r.len() && r[k] == i as usize;
            assert(r == prev);
            assert(prev[k] < init.len());
        }
        if m {
            assert(r[prev.len() as int] == i as usize);
        }
    }
}

// ---------------------------------------------------------------------------
// Selection
// ---------------------------------------------------------------------------

/// The session that list row `sel` shows, if there is one.
pub open spec fn selected_index(shown: Seq<usize>, sel: int, n: int) -> Option<usize> {
    if sel < 0 || sel >= shown.len() || shown[sel] >= n {
        None
    } else {
        Some(shown[sel])
    }
}

/// `selected_session`'s choice: the index of the session in list row `sel`,
/// when the row exists (`sel` is negative when nothing is selected).
pub fn select_session(shown: &Vec<usize>, sel: isize, n_sessions: usize) -> (r: Option<usize>)
    ensures
        r == selected_index(shown@, sel as int, n_sessions as int),
{
    if sel < 0 {
        return None;
    }
    let k = sel as usize;
    if k >= shown.len() {
        return None;
    }
    let idx = shown[k];
    if idx >= n_sessions {
        None
    } else {
        Some(idx)
    }
}

} // verus!
