use vstd::prelude::*;
use vstd::string::StrSliceExecFns;

verus! {

/// The window title.
pub const APP_TITLE: &'static str = "Диаграмма Хассе";

/// The status shown once the application is ready for a relation to be entered.
pub const READY_MESSAGE: &'static str = "Каркас приложения готов. Следующий шаг — ввод матрицы отношения на множестве 1..n.";

/// `pattern` occurs in `text` as a contiguous piece.
pub open spec fn contains_text(text: Seq<char>, pattern: Seq<char>) -> bool {
    exists|start: int| 0 <= start && start + pattern.len() <= text.len() && #[trigger] text.subrange(start, start + pattern.len()) == pattern
}

/// The state of the application right after start-up.
#[derive(Debug, Clone, PartialEq, Eq)]
pub struct BootstrapState {
    app_title: &'static str,
    status_message: String,
}

impl BootstrapState {
    /// The title the state carries.
    pub closed spec fn title(&self) -> Seq<char> {
        self.app_title@
    }

    /// The status message the state carries.
    pub closed spec fn status(&self) -> Seq<char> {
        self.status_message@
    }

    /// The start-up state: the application title and the ready message.
    pub fn new() -> (state: Self)
        ensures
            state.title() == APP_TITLE@,
            state.status() == READY_MESSAGE@,
            contains_text(state.status(), "1..n"@),
    {
        let state = Self { app_title: APP_TITLE, status_message: READY_MESSAGE.to_owned() };
        proof {
            reveal_strlit("Каркас приложения готов. Следующий шаг — ввод матрицы отношения на множестве 1..n.");
            reveal_strlit("1..n");
            assert(state.status().subrange(77int, 77int + "1..n"@.len()) =~= "1..n"@);
        }
        state
    }

    /// The window title.
    pub fn app_title(&self) -> (title: &'static str)
        ensures
            title@ == self.title(),
    {
        self.app_title
    }

    /// The status message.
    pub fn status_message(&self) -> (message: &str)
        ensures
            message@ == self.status(),
    {
        self.status_message.as_str()
    }

    /// Whether the status invites the user to enter a relation on `1..n`.
    pub fn is_ready_for_matrix_input(&self) -> (ready: bool)
        ensures
            ready == contains_text(self.status(), "1..n"@),
    {
        contains_text_exec(self.status_message.as_str(), "1..n")
    }
}

impl Default for BootstrapState {
    fn default() -> (state: Self)
        ensures
            state.title() == APP_TITLE@,
            state.status() == READY_MESSAGE@,
    {
        Self::new()
    }
}

/// Whether `pattern` occurs in `text`, comparing character by character.
pub fn contains_text_exec(text: &str, pattern: &str) -> (found: bool)
    ensures
        found == contains_text(text@, pattern@),
{
    let text_len = text.unicode_len();
    let pattern_len = pattern.unicode_len();
    if pattern_len > text_len {
        return false;
    }
    let mut start: usize = 0;
    while start <= text_len - pattern_len
        invariant
            text_len == text@.len(),
            pattern_len == pattern@.len(),
            pattern_len <= text_len,
            start <= text_len - pattern_len + 1,
            forall|s: int| 0 <= s < start ==> #[trigger] text@.subrange(s, s + pattern@.len()) != pattern@,
        decreases text_len - start,
    {
        let mut offset: usize = 0;
        let mut matches: bool = true;
        while offset < pattern_len
            invariant
                text_len == text@.len(),
                pattern_len == pattern@.len(),
                start + pattern_len <= text_len,
                offset <= pattern_len,
                matches <==> forall|k: int| 0 <= k < offset ==> text@[start + k] == pattern@[k],
            decreases pattern_len - offset,
        {
            if text.get_char(start + offset) != pattern.get_char(offset) {
                matches = false;
            }
            offset = offset + 1;
        }
        if matches {
            assert(text@.subrange(start as int, start + pattern@.len()) =~= pattern@);
            return true;
        }
        proof {
            let k = choose|k: int| 0 <= k < offset && text@[start + k] != pattern@[k];
            assert(text@.subrange(start as int, start + pattern@.len())[k] != pattern@[k]);
        }
        start = start + 1;
    }
    false
}

} // verus!
