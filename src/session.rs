use vstd::prelude::*;

use crate::index::{build_index, is_index_of, names};
use crate::order::{seq_lt, strictly_sorted};
use crate::text::{
    contains_seq, contains_str, has_prefix, has_whitespace, has_ws, lower_of, lowercase,
    starts_with_str, trim, trim_start, trim_start_str, trim_str,
};

verus! {

/// The most candidates offered at once.
pub const MAX_CANDIDATES: usize = 50;

/// What a query must begin with to ask for elevated privileges.
pub open spec fn sudo_prefix() -> Seq<char> {
    "sudo "@
}

/// The text that candidates are matched against: the query trimmed and
/// lowercased, with a leading privilege prefix taken off.
pub open spec fn filter_text(query: Seq<char>) -> Seq<char> {
    let t = lower_of(trim(query));
    if has_prefix(t, sudo_prefix()) {
        t.subrange(sudo_prefix().len() as int, t.len() as int)
    } else {
        t
    }
}

/// Whether `name` matches the filter text `q`: `q` is empty, or the lowercase
/// form of `name` contains it.
pub open spec fn name_matches(name: Seq<char>, q: Seq<char>) -> bool {
    q.len() == 0 || contains_seq(lower_of(name), q)
}

/// The names of `index` that match `q`, in index order.
pub open spec fn select(index: Seq<Seq<char>>, q: Seq<char>) -> Seq<Seq<char>>
    decreases index.len(),
{
    if index.len() == 0 {
        Seq::empty()
    } else {
        let r = select(index.drop_last(), q);
        if name_matches(index.last(), q) {
            r.push(index.last())
        } else {
            r
        }
    }
}

/// At most the first `n` elements of `s`.
pub open spec fn first_n<T>(s: Seq<T>, n: nat) -> Seq<T> {
    if s.len() <= n {
        s
    } else {
        s.take(n as int)
    }
}

/// The candidates that `query` leaves of `index`.
pub open spec fn candidates(index: Seq<Seq<char>>, query: Seq<char>) -> Seq<Seq<char>> {
    first_n(select(index, filter_text(query)), MAX_CANDIDATES as nat)
}

/// The cursor kept inside a list of `n` candidates.
pub open spec fn clamp_cursor(c: nat, n: nat) -> nat {
    if n == 0 {
        0
    } else if c >= n {
        (n - 1) as nat
    } else {
        c
    }
}

/// The cursor after moving forward, wrapping past the end.
pub open spec fn next_cursor(c: nat, n: nat) -> nat {
    (((c + 1) as int) % (n as int)) as nat
}

/// The cursor after moving back, wrapping past the start.
pub open spec fn prev_cursor(c: nat, n: nat) -> nat {
    if c == 0 {
        (n - 1) as nat
    } else {
        (c - 1) as nat
    }
}


/// Moving forward and then back, or back and then forward, returns the cursor
/// to where it was, in any non-empty list of candidates.
pub proof fn lemma_cursor_moves_inverse(c: nat, n: nat)
    requires
        c < n,
    ensures
        prev_cursor(next_cursor(c, n), n) == c,
        next_cursor(prev_cursor(c, n), n) == c,
        next_cursor(c, n) < n,
        prev_cursor(c, n) < n,
{
    if c + 1 < n {
        assert(((c + 1) as int) % (n as int) == c + 1) by (nonlinear_arith)
            requires
                c + 1 < n,
        ;
    } else {
        assert(((c + 1) as int) % (n as int) == 0) by (nonlinear_arith)
            requires
                c + 1 == n,
        ;
    }
    if c == 0 {
        assert(((n - 1 + 1) as int) % (n as int) == 0) by (nonlinear_arith)
            requires
                n > 0,
        ;
    } else {
        assert(((c - 1 + 1) as int) % (n as int) == c) by (nonlinear_arith)
            requires
                0 < c < n,
        ;
    }
}

/// What a candidate list that `query` narrows `index` to is: no longer than
/// the limit, each candidate taken from the index and matching the filter
/// text, in index order (kept sorted when the index is), and, for an empty
/// filter text, the first names of the index.
pub proof fn lemma_candidates_shape(index: Seq<Seq<char>>, query: Seq<char>)
    ensures
        candidates(index, query).len() <= MAX_CANDIDATES,
        forall|k: int|
            0 <= k < candidates(index, query).len() ==> index.contains(
                #[trigger] candidates(index, query)[k],
            ) && name_matches(candidates(index, query)[k], filter_text(query)),
        filter_text(query).len() == 0 ==> candidates(index, query) == first_n(
            index,
            MAX_CANDIDATES as nat,
        ),
        strictly_sorted(index) ==> strictly_sorted(candidates(index, query)),
{
    let q = filter_text(query);
    lemma_select(index, q);
    let c = candidates(index, query);
    let sel = select(index, q);
    assert forall|k: int| 0 <= k < c.len() implies index.contains(#[trigger] c[k]) && name_matches(
        c[k],
        q,
    ) by {
        assert(c[k] == sel[k]);
    }
    if strictly_sorted(index) {
        assert forall|p: int, q: int| 0 <= p < q < c.len() implies seq_lt(
            #[trigger] c[p],
            #[trigger] c[q],
        ) by {
            assert(c[p] == sel[p] && c[q] == sel[q]);
        }
    }
}

proof fn lemma_select(index: Seq<Seq<char>>, q: Seq<char>)
    ensures
        forall|k: int|
            0 <= k < select(index, q).len() ==> index.contains(#[trigger] select(index, q)[k])
                && name_matches(select(index, q)[k], q),
        q.len() == 0 ==> select(index, q) == index,
        select(index, q).len() <= index.len(),
        strictly_sorted(index) ==> strictly_sorted(select(index, q)),
    decreases index.len(),
{
    if index.len() > 0 {
        let d = index.drop_last();
        lemma_select(d, q);
        let r = select(d, q);
        let s = select(index, q);
        assert forall|k: int| 0 <= k < s.len() implies index.contains(#[trigger] s[k])
            && name_matches(s[k], q) by {
            if k < r.len() {
                assert(s[k] == r[k]);
                let j = choose|j: int| 0 <= j < d.len() && d[j] == r[k];
                assert(index[j] == r[k]);
            } else {
                assert(s[k] == index.last());
                assert(index[index.len() - 1] == s[k]);
            }
        }
        if q.len() == 0 {
            assert(index =~= d.push(index.last()));
        }
        if strictly_sorted(index) {
            assert forall|p: int, t: int| 0 <= p < t < d.len() implies seq_lt(
                #[trigger] d[p],
                #[trigger] d[t],
            ) by {
                assert(d[p] == index[p] && d[t] == index[t]);
            }
            assert forall|p: int, t: int| 0 <= p < t < s.len() implies seq_lt(
                #[trigger] s[p],
                #[trigger] s[t],
            ) by {
                if t < r.len() {
                    assert(s[p] == r[p] && s[t] == r[t]);
                } else {
                    assert(s[p] == r[p]);
                    let j = choose|j: int| 0 <= j < d.len() && d[j] == r[p];
                    assert(index[j] == r[p]);
                    assert(s[t] == index[index.len() - 1]);
                }
            }
        }
    } else {
        if q.len() == 0 {
            assert(index =~= Seq::<Seq<char>>::empty());
        }
    }
}


/// Where the launcher stands: narrowing the list, or asking for the password
/// that runs `target_command` with elevated privileges.
#[derive(Clone, Debug, PartialEq, Eq)]
pub enum LaunchState {
    Search,
    AwaitingCredential { target_command: String },
}

/// What a commit asks to run: a command line as it is, or a command line to run
/// through the elevation helper with the password it needs.
#[derive(Clone, Debug, PartialEq, Eq)]
pub enum LaunchRequest {
    Plain(String),
    Privileged(String, String),
}

/// The keys that the launcher reacts to.
#[derive(Clone, Copy, Debug, PartialEq, Eq)]
pub enum Key {
    Escape,
    Enter,
    Tab,
    ArrowLeft,
    ArrowRight,
}

/// What the host does after an event: go on, close, or run a request and close.
#[derive(Clone, Debug, PartialEq, Eq)]
pub enum Outcome {
    Continue,
    Exit,
    Launch(LaunchRequest),
}

pub ghost enum StateView {
    Search,
    AwaitingCredential(Seq<char>),
}

pub ghost enum RequestView {
    Plain(Seq<char>),
    Privileged(Seq<char>, Seq<char>),
}

pub ghost enum OutcomeView {
    Continue,
    Exit,
    Launch(RequestView),
}

impl View for LaunchState {
    type V = StateView;

    open spec fn view(&self) -> StateView {
        match self {
            LaunchState::Search => StateView::Search,
            LaunchState::AwaitingCredential { target_command } => StateView::AwaitingCredential(
                target_command@,
            ),
        }
    }
}

impl View for LaunchRequest {
    type V = RequestView;

    open spec fn view(&self) -> RequestView {
        match self {
            LaunchRequest::Plain(c) => RequestView::Plain(c@),
            LaunchRequest::Privileged(c, p) => RequestView::Privileged(c@, p@),
        }
    }
}

impl View for Outcome {
    type V = OutcomeView;

    open spec fn view(&self) -> OutcomeView {
        match self {
            Outcome::Continue => OutcomeView::Continue,
            Outcome::Exit => OutcomeView::Exit,
            Outcome::Launch(r) => OutcomeView::Launch(r@),
        }
    }
}

/// The request an optional request stands for.
pub open spec fn request_view(r: Option<LaunchRequest>) -> Option<RequestView> {
    match r {
        Some(q) => Some(q@),
        None => None,
    }
}

/// The whole state of a launcher session, as values.
pub ghost struct SessionView {
    pub index: Seq<Seq<char>>,
    pub candidates: Seq<Seq<char>>,
    pub query: Seq<char>,
    pub credential: Seq<char>,
    pub cursor: nat,
    pub state: StateView,
}

/// One launcher session: the program index, the search and password buffers,
/// the candidates and the cursor into them, and the launch state.
pub struct DeeMenu {
    pub all_executables: Vec<String>,
    pub filtered_executables: Vec<String>,
    pub search_query: String,
    pub password_query: String,
    pub selected_index: usize,
    pub state: LaunchState,
}

impl View for DeeMenu {
    type V = SessionView;

    open spec fn view(&self) -> SessionView {
        SessionView {
            index: names(self.all_executables@),
            candidates: names(self.filtered_executables@),
            query: self.search_query@,
            credential: self.password_query@,
            cursor: self.selected_index as nat,
            state: self.state@,
        }
    }
}

impl SessionView {
    /// The cursor points into the candidates, or is 0 when there are none.
    pub open spec fn cursor_ok(self) -> bool {
        if self.candidates.len() == 0 {
            self.cursor == 0
        } else {
            self.cursor < self.candidates.len()
        }
    }

    /// The session after the candidates are computed anew from the query.
    pub open spec fn refiltered(self) -> SessionView {
        let c = candidates(self.index, self.query);
        SessionView { candidates: c, cursor: clamp_cursor(self.cursor, c.len()), ..self }
    }
}

/// The session and request after a commit in session `s`.
pub open spec fn commit(s: SessionView) -> (SessionView, Option<RequestView>) {
    match s.state {
        StateView::Search => {
            let started = trim_start(s.query);
            let raw = trim(s.query);
            if has_prefix(started, sudo_prefix()) {
                let rest = trim(started.subrange(sudo_prefix().len() as int, started.len() as int));
                if rest.len() > 0 {
                    (SessionView { state: StateView::AwaitingCredential(rest), cursor: 0, ..s }, None)
                } else {
                    (s, None)
                }
            } else {
                let cmd = if s.candidates.len() > 0 && !has_ws(raw) {
                    s.candidates[s.cursor as int]
                } else {
                    raw
                };
                if cmd.len() > 0 {
                    (s, Some(RequestView::Plain(cmd)))
                } else {
                    (s, None)
                }
            }
        },
        StateView::AwaitingCredential(target) => {
            if s.credential.len() > 0 {
                (s, Some(RequestView::Privileged(target, s.credential)))
            } else {
                (s, None)
            }
        },
    }
}

/// The session after the cancel key: back to searching with the password
/// cleared, or unchanged when already searching.
pub open spec fn cancel(s: SessionView) -> SessionView {
    match s.state {
        StateView::Search => s,
        StateView::AwaitingCredential(_) => SessionView {
            state: StateView::Search,
            credential: Seq::empty(),
            ..s
        },
    }
}

/// The session after moving the cursor forward; only while searching, and
/// only over a non-empty list.
pub open spec fn advance(s: SessionView) -> SessionView {
    if s.state == StateView::Search && s.candidates.len() > 0 {
        SessionView { cursor: next_cursor(s.cursor, s.candidates.len()), ..s }
    } else {
        s
    }
}

/// The session after moving the cursor back; only while searching, and only
/// over a non-empty list.
pub open spec fn retreat(s: SessionView) -> SessionView {
    if s.state == StateView::Search && s.candidates.len() > 0 {
        SessionView { cursor: prev_cursor(s.cursor, s.candidates.len()), ..s }
    } else {
        s
    }
}

/// The session and outcome after `key` is pressed in session `s`.
pub open spec fn on_key_spec(s: SessionView, key: Key) -> (SessionView, OutcomeView) {
    match key {
        Key::Escape => if s.state == StateView::Search {
            (s, OutcomeView::Exit)
        } else {
            (cancel(s), OutcomeView::Continue)
        },
        Key::Tab | Key::ArrowRight => (advance(s), OutcomeView::Continue),
        Key::ArrowLeft => (retreat(s), OutcomeView::Continue),
        Key::Enter => {
            let (t, r) = commit(s);
            match r {
                Some(q) => (t, OutcomeView::Launch(q)),
                None => (t, OutcomeView::Continue),
            }
        },
    }
}

/// Cancelling the password prompt returns to searching with the password
/// cleared, and keeps the search text, the candidates and the cursor.
pub proof fn lemma_cancel_keeps_search(s: SessionView)
    requires
        s.state != StateView::Search,
    ensures
        cancel(s).state == StateView::Search,
        cancel(s).credential.len() == 0,
        cancel(s).query == s.query,
        cancel(s).candidates == s.candidates,
        cancel(s).cursor == s.cursor,
        cancel(s).index == s.index,
{
}

impl DeeMenu {
    pub open spec fn wf(&self) -> bool {
        self@.cursor_ok()
    }

    /// Computes the candidates anew from the search query and keeps the cursor
    /// inside them.
    pub fn update_filter(&mut self)
        ensures
            final(self)@ == old(self)@.refiltered(),
            final(self).wf(),
    {
        let trimmed = trim_str(self.search_query.as_str());
        let lowered = lowercase(trimmed.as_str());
        let prefix = "sudo ";
        proof {
            reveal_strlit("sudo ");
        }
        let clean = if starts_with_str(lowered.as_str(), prefix) {
            String::from_str(lowered.as_str().substring_char(5, lowered.as_str().unicode_len()))
        } else {
            lowered
        };
        let ghost q = filter_text(self.search_query@);
        assert(clean@ == q);
        let ghost all = names(self.all_executables@);
        let n = clean.as_str().unicode_len();
        let mut out: Vec<String> = Vec::new();
        let mut i: usize = 0;
        assert(all.take(0) =~= Seq::<Seq<char>>::empty());
        assert(names(out@) =~= Seq::<Seq<char>>::empty());
        while i < self.all_executables.len()
            invariant
                all == names(self.all_executables@),
                clean@ == q,
                n == q.len(),
                0 <= i <= all.len(),
                names(out@) == first_n(select(all.take(i as int), q), MAX_CANDIDATES as nat),
            decreases all.len() - i,
        {
            let ghost prev = select(all.take(i as int), q);
            proof {
                assert(all.take(i + 1).drop_last() =~= all.take(i as int));
                assert(all.take(i + 1).last() == all[i as int]);
            }
            if out.len() < MAX_CANDIDATES {
                let keep = n == 0 || contains_str(
                    lowercase(self.all_executables[i].as_str()).as_str(),
                    clean.as_str(),
                );
                if keep {
                    let ghost before = out@;
                    out.push(self.all_executables[i].clone());
                    assert(names(out@) =~= names(before).push(all[i as int]));
                }
            } else {
                proof {
                    let next = select(all.take(i + 1), q);
                    if next.len() > prev.len() {
                        assert(next.take(MAX_CANDIDATES as int) =~= prev.take(MAX_CANDIDATES as int));
                    }
                }
            }
            i = i + 1;
        }
        assert(all.take(all.len() as int) =~= all);
        self.filtered_executables = out;
        let len = self.filtered_executables.len();
        if len == 0 {
            self.selected_index = 0;
        } else if self.selected_index >= len {
            self.selected_index = len - 1;
        }
    }

    /// Resolves what a commit asks to run. While searching, a query that
    /// starts with the privilege prefix (leading whitespace aside) moves to
    /// asking for a password when a command follows it, and is ignored when
    /// none does; any
    /// other query runs the candidate under the cursor, or the query itself
    /// when it holds whitespace or nothing matched. While asking for a
    /// password, a non-empty password runs the pending command through the
    /// elevation helper. `None` means the session stays open.
    pub fn attempt_run(&mut self) -> (r: Option<LaunchRequest>)
        requires
            old(self).wf(),
        ensures
            (final(self)@, request_view(r)) == commit(old(self)@),
            final(self).wf(),
    {
        if let LaunchState::AwaitingCredential { target_command } = &self.state {
            if self.password_query.as_str().unicode_len() > 0 {
                return Some(
                    LaunchRequest::Privileged(target_command.clone(), self.password_query.clone()),
                );
            }
            return None;
        }
        let started = trim_start_str(self.search_query.as_str());
        let prefix = "sudo ";
        proof {
            reveal_strlit("sudo ");
        }
        if starts_with_str(started.as_str(), prefix) {
            let actual = trim_str(started.as_str().substring_char(5, started.as_str().unicode_len()));
            if actual.as_str().unicode_len() > 0 {
                self.state = LaunchState::AwaitingCredential { target_command: actual };
                self.selected_index = 0;
            }
            return None;
        }
        let raw = trim_str(self.search_query.as_str());
        let cmd = if self.filtered_executables.len() > 0 && !has_whitespace(raw.as_str()) {
            self.filtered_executables[self.selected_index].clone()
        } else {
            raw
        };
        if cmd.as_str().unicode_len() > 0 {
            Some(LaunchRequest::Plain(cmd))
        } else {
            None
        }
    }

    /// A new session: the index built from `entries` (each directory entry's
    /// name, and whether it is a directory), empty buffers, searching, with
    /// the first candidates offered.
    pub fn new(entries: Vec<(String, bool)>) -> (r: DeeMenu)
        ensures
            is_index_of(entries@, r@.index),
            r@.candidates == candidates(r@.index, Seq::empty()),
            r@.query.len() == 0,
            r@.credential.len() == 0,
            r@.cursor == 0,
            r@.state == StateView::Search,
            r.wf(),
    {
        let mut app = DeeMenu {
            all_executables: Vec::new(),
            filtered_executables: Vec::new(),
            search_query: String::new(),
            password_query: String::new(),
            selected_index: 0,
            state: LaunchState::Search,
        };
        app.scan_path(entries);
        app
    }

    /// Replaces the index with the one built from `entries` and computes the
    /// candidates anew.
    pub fn scan_path(&mut self, entries: Vec<(String, bool)>)
        ensures
            is_index_of(entries@, final(self)@.index),
            final(self)@ == (SessionView { index: final(self)@.index, ..old(self)@ }).refiltered(),
            final(self).wf(),
    {
        self.all_executables = build_index(entries);
        self.update_filter();
    }

    /// The search text was edited to `text`: the cursor goes back to the first
    /// candidate and the candidates are computed anew.
    pub fn set_search_query(&mut self, text: String)
        ensures
            final(self)@ == (SessionView { query: text@, cursor: 0, ..old(self)@ }).refiltered(),
            final(self).wf(),
    {
        self.search_query = text;
        self.selected_index = 0;
        self.update_filter();
    }

    /// The password text was edited to `text`.
    pub fn set_credential(&mut self, text: String)
        requires
            old(self).wf(),
        ensures
            final(self)@ == (SessionView { credential: text@, ..old(self)@ }),
            final(self).wf(),
    {
        self.password_query = text;
    }

    /// The cancel key: leaves the password prompt for the search, clearing the
    /// password. Returns whether the session should close, which it does when
    /// it was searching already.
    pub fn cancel(&mut self) -> (close: bool)
        requires
            old(self).wf(),
        ensures
            final(self)@ == cancel(old(self)@),
            close == (old(self)@.state == StateView::Search),
            final(self).wf(),
    {
        if matches!(self.state, LaunchState::Search) {
            return true;
        }
        self.state = LaunchState::Search;
        self.password_query = String::new();
        false
    }

    /// Handles a key press.
    pub fn on_key(&mut self, key: Key) -> (r: Outcome)
        requires
            old(self).wf(),
        ensures
            (final(self)@, r@) == on_key_spec(old(self)@, key),
            final(self).wf(),
    {
        match key {
            Key::Escape => {
                if self.cancel() {
                    Outcome::Exit
                } else {
                    Outcome::Continue
                }
            },
            Key::Tab | Key::ArrowRight => {
                self.advance();
                Outcome::Continue
            },
            Key::ArrowLeft => {
                self.retreat();
                Outcome::Continue
            },
            Key::Enter => match self.attempt_run() {
                Some(q) => Outcome::Launch(q),
                None => Outcome::Continue,
            },
        }
    }

    /// A click on candidate `i` while searching: the cursor moves there, the
    /// search text becomes its name, and the session commits. A click while
    /// the password is asked for is ignored.
    pub fn on_click(&mut self, i: usize) -> (r: Outcome)
        requires
            old(self).wf(),
            i < old(self)@.candidates.len(),
        ensures
            old(self)@.state != StateView::Search ==> final(self)@ == old(self)@ && r@
                == OutcomeView::Continue,
            old(self)@.state == StateView::Search ==> ({
                let s = SessionView {
                    cursor: i as nat,
                    query: old(self)@.candidates[i as int],
                    ..old(self)@
                };
                let (t, q) = commit(s);
                final(self)@ == t && r@ == match q {
                    Some(q) => OutcomeView::Launch(q),
                    None => OutcomeView::Continue,
                }
            }),
            final(self).wf(),
    {
        if !matches!(self.state, LaunchState::Search) {
            return Outcome::Continue;
        }
        self.selected_index = i;
        self.search_query = self.filtered_executables[i].clone();
        match self.attempt_run() {
            Some(q) => Outcome::Launch(q),
            None => Outcome::Continue,
        }
    }

    /// Moves the cursor to the next candidate, wrapping to the first.
    pub fn advance(&mut self)
        requires
            old(self).wf(),
        ensures
            final(self)@ == advance(old(self)@),
            final(self).wf(),
    {
        if matches!(self.state, LaunchState::Search) && self.filtered_executables.len() > 0 {
            proof {
                lemma_cursor_moves_inverse(self.selected_index as nat, self.filtered_executables@.len());
            }
            self.selected_index = (self.selected_index + 1) % self.filtered_executables.len();
        }
    }

    /// Moves the cursor to the previous candidate, wrapping to the last.
    pub fn retreat(&mut self)
        requires
            old(self).wf(),
        ensures
            final(self)@ == retreat(old(self)@),
            final(self).wf(),
    {
        if matches!(self.state, LaunchState::Search) && self.filtered_executables.len() > 0 {
            if self.selected_index == 0 {
                self.selected_index = self.filtered_executables.len() - 1;
            } else {
                self.selected_index = self.selected_index - 1;
            }
        }
    }
}

} // verus!
