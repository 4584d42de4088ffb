use vstd::prelude::*;

use crate::index::names;
use crate::session::{LaunchRequest, RequestView};
use crate::text::{is_whitespace_char, is_ws};

verus! {

/// The words of `s` from character `i` on, where the word under way began at
/// `start`: the runs of characters between whitespace.
pub open spec fn split_from(s: Seq<char>, start: int, i: int) -> Seq<Seq<char>>
    decreases s.len() - i,
{
    if i >= s.len() {
        if start < s.len() {
            seq![s.subrange(start, s.len() as int)]
        } else {
            Seq::empty()
        }
    } else if is_ws(s[i]) {
        let done = if start < i {
            seq![s.subrange(start, i)]
        } else {
            Seq::empty()
        };
        done + split_from(s, i + 1, i + 1)
    } else {
        split_from(s, start, i + 1)
    }
}

/// The words of `s`, as `str::split_whitespace` yields them.
pub open spec fn words(s: Seq<char>) -> Seq<Seq<char>> {
    split_from(s, 0, 0)
}

/// The words of `line`.
pub fn split_words(line: &str) -> (r: Vec<String>)
    ensures
        names(r@) == words(line@),
{
    let n = line.unicode_len();
    let mut out: Vec<String> = Vec::new();
    let mut start: usize = 0;
    let mut i: usize = 0;
    assert(names(out@) + split_from(line@, 0, 0) =~= split_from(line@, 0, 0));
    while i < n
        invariant
            n == line@.len(),
            0 <= start <= i <= n,
            words(line@) == names(out@) + split_from(line@, start as int, i as int),
        decreases n - i,
    {
        if is_whitespace_char(line.get_char(i)) {
            let ghost rest = split_from(line@, i + 1, i + 1);
            if start < i {
                let ghost before = names(out@);
                let w = String::from_str(line.substring_char(start, i));
                out.push(w);
                assert(names(out@) =~= before.push(line@.subrange(start as int, i as int)));
                assert(before + (seq![line@.subrange(start as int, i as int)] + rest) =~= names(out@)
                    + rest);
            } else {
                assert(Seq::<Seq<char>>::empty() + rest =~= rest);
            }
            start = i + 1;
        }
        i = i + 1;
    }
    if start < n {
        let ghost before = names(out@);
        out.push(String::from_str(line.substring_char(start, n)));
        assert(names(out@) =~= before.push(line@.subrange(start as int, n as int)));
        assert(before + seq![line@.subrange(start as int, n as int)] =~= names(out@));
    } else {
        assert(names(out@) + Seq::<Seq<char>>::empty() =~= names(out@));
    }
    out
}


/// The options given to the elevation helper before the target: read the
/// password from standard input, ignore cached credentials, end of options.
pub open spec fn helper_options() -> Seq<Seq<char>> {
    seq!["-S"@, "-k"@, "--"@]
}

/// The elevation helper's program name.
pub open spec fn helper_program() -> Seq<char> {
    "sudo"@
}

/// How a request is started, as values.
pub ghost struct PlanView {
    pub program: Seq<char>,
    pub args: Seq<Seq<char>>,
    pub secret: Option<Seq<char>>,
}

/// How `r` is started: nothing when its command line has no words; a plain
/// line runs its first word with the others as arguments; a privileged line
/// runs the elevation helper with its options and then the words, and hands it
/// the password on standard input.
pub open spec fn plan_of(r: RequestView) -> Option<PlanView> {
    match r {
        RequestView::Plain(line) => {
            let w = words(line);
            if w.len() == 0 {
                None
            } else {
                Some(PlanView { program: w[0], args: w.drop_first(), secret: None })
            }
        },
        RequestView::Privileged(line, secret) => {
            let w = words(line);
            if w.len() == 0 {
                None
            } else {
                Some(
                    PlanView {
                        program: helper_program(),
                        args: helper_options() + w,
                        secret: Some(secret),
                    },
                )
            }
        },
    }
}

/// A process to start: the program, its arguments, and what to write to its
/// standard input, if anything. The password travels only in `stdin_secret`.
pub struct SpawnPlan {
    pub program: String,
    pub args: Vec<String>,
    pub stdin_secret: Option<String>,
}

impl View for SpawnPlan {
    type V = PlanView;

    open spec fn view(&self) -> PlanView {
        PlanView {
            program: self.program@,
            args: names(self.args@),
            secret: match self.stdin_secret {
                Some(s) => Some(s@),
                None => None,
            },
        }
    }
}

/// The process that carries out `request`, or `None` when its command line
/// holds no words and nothing is started.
pub fn spawn_plan(request: LaunchRequest) -> (r: Option<SpawnPlan>)
    ensures
        match r {
            Some(p) => plan_of(request@) == Some(p@),
            None => plan_of(request@) is None,
        },
{
    match request {
        LaunchRequest::Plain(line) => {
            let mut w = split_words(line.as_str());
            if w.len() == 0 {
                return None;
            }
            let ghost all = names(w@);
            let program = w.remove(0);
            assert(names(w@) =~= all.drop_first());
            Some(SpawnPlan { program, args: w, stdin_secret: None })
        },
        LaunchRequest::Privileged(line, secret) => {
            let w = split_words(line.as_str());
            if w.len() == 0 {
                return None;
            }
            let mut args: Vec<String> = Vec::new();
            args.push(String::from_str("-S"));
            args.push(String::from_str("-k"));
            args.push(String::from_str("--"));
            assert(names(args@) =~= helper_options());
            let mut i: usize = 0;
            while i < w.len()
                invariant
                    0 <= i <= w@.len(),
                    names(args@) == helper_options() + names(w@).take(i as int),
                decreases w@.len() - i,
            {
                let ghost before = names(args@);
                args.push(w[i].clone());
                assert(names(args@) =~= before.push(w@[i as int]@));
                assert(names(w@).take(i + 1) =~= names(w@).take(i as int).push(w@[i as int]@));
                i = i + 1;
            }
            assert(names(w@).take(w@.len() as int) =~= names(w@));
            Some(
                SpawnPlan {
                    program: String::from_str("sudo"),
                    args,
                    stdin_secret: Some(secret),
                },
            )
        },
    }
}

} // verus!
