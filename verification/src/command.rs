//! The command grammar and the command executor.
//!
//! A command line is a one-letter verb followed by at most one argument; the
//! argument is everything after the first whitespace run, so a file path may
//! contain spaces. Executing a command never performs input or output
//! itself: it returns an [`Action`] that tells the surrounding program what
//! to do — lines to show, a file to save or load, or that the session ends.

use vstd::prelude::*;
use vstd::string::{StrSliceExecFns, StringExecFns};
use crate::date::valid_u32_text;
use crate::errors::Errors;
use crate::profile::{csv_text, render_lines_spec, spec_matches, Profile, ProfileV};
use crate::sort::{sort_profiles, sorted_by_field, stable_sort_map};
use crate::text::{dec_digits, dec_value, i32_value, is_space, is_space_char, parse_i32,
    parse_u32, trim_end_of, trim_end_spec, usize_to_string, valid_i32_text};

verus! {

/// A parsed command: one constructor per verb.
#[derive(Debug)]
pub enum Command {
    Quit,
    Check,
    Print(i32),
    Write(String),
    Read(String),
    Find(String),
    Sort(u32),
}

/// The mathematical image of a command.
pub enum CommandV {
    Quit,
    Check,
    Print(i32),
    Write(Seq<char>),
    Read(Seq<char>),
    Find(Seq<char>),
    Sort(u32),
}

impl View for Command {
    type V = CommandV;

    open spec fn view(&self) -> CommandV {
        match self {
            Command::Quit => CommandV::Quit,
            Command::Check => CommandV::Check,
            Command::Print(n) => CommandV::Print(*n),
            Command::Write(f) => CommandV::Write(f@),
            Command::Read(f) => CommandV::Read(f@),
            Command::Find(w) => CommandV::Find(w@),
            Command::Sort(k) => CommandV::Sort(*k),
        }
    }
}

/// What the surrounding program must do after a command has executed.
#[derive(Debug)]
pub enum Action {
    /// End the session.
    Terminate,
    /// Print these lines.
    Show(Vec<String>),
    /// Save these lines to this file.
    SaveFile(String, Vec<String>),
    /// Load lines from this file and hand them to the ingest path.
    LoadFile(String),
    /// Nothing further.
    Done,
}

/// The mathematical image of an action.
pub enum ActionV {
    Terminate,
    Show(Seq<Seq<char>>),
    SaveFile(Seq<char>, Seq<Seq<char>>),
    LoadFile(Seq<char>),
    Done,
}

impl View for Action {
    type V = ActionV;

    open spec fn view(&self) -> ActionV {
        match self {
            Action::Terminate => ActionV::Terminate,
            Action::Show(v) => ActionV::Show(v.deep_view()),
            Action::SaveFile(f, v) => ActionV::SaveFile(f@, v.deep_view()),
            Action::LoadFile(f) => ActionV::LoadFile(f@),
            Action::Done => ActionV::Done,
        }
    }
}

/// A parse result, with the command replaced by its image.
pub open spec fn command_result_view(r: Result<Command, Errors>) -> Result<CommandV, Errors> {
    match r {
        Ok(c) => Ok(c@),
        Err(e) => Err(e),
    }
}

/// An execution result, with the action replaced by its image.
pub open spec fn action_result_view(r: Result<Action, Errors>) -> Result<ActionV, Errors> {
    match r {
        Ok(a) => Ok(a@),
        Err(e) => Err(e),
    }
}

// ---------------------------------------------------------------------------
// The grammar
// ---------------------------------------------------------------------------

/// The index of the first whitespace character, or -1 when there is none.
pub open spec fn first_ws(s: Seq<char>) -> int
    decreases s.len(),
{
    if s.len() == 0 {
        -1
    } else if is_space(s[0]) {
        0
    } else {
        let r = first_ws(s.drop_first());
        if r < 0 {
            -1
        } else {
            r + 1
        }
    }
}

pub proof fn lemma_first_ws(s: Seq<char>)
    ensures
        -1 <= first_ws(s) < s.len(),
        first_ws(s) >= 0 ==> is_space(s[first_ws(s)]),
        forall|j: int| 0 <= j < first_ws(s) ==> !is_space(s[j]),
        first_ws(s) == -1 ==> forall|j: int| 0 <= j < s.len() ==> !is_space(s[j]),
    decreases s.len(),
{
    if s.len() > 0 && !is_space(s[0]) {
        lemma_first_ws(s.drop_first());
        let idx = first_ws(s);
        assert forall|j: int| 0 <= j < idx implies !is_space(s[j]) by {
            if j > 0 {
                assert(s.drop_first()[j - 1] == s[j]);
            }
        }
        if idx == -1 {
            assert forall|j: int| 0 <= j < s.len() implies !is_space(s[j]) by {
                if j > 0 {
                    assert(s.drop_first()[j - 1] == s[j]);
                }
            }
        }
    }
}

/// The sequence with all leading whitespace removed.
pub open spec fn skip_ws(s: Seq<char>) -> Seq<char>
    decreases s.len(),
{
    if s.len() > 0 && is_space(s[0]) {
        skip_ws(s.drop_first())
    } else {
        s
    }
}

/// What parsing a command line yields. The line is trimmed of trailing
/// whitespace; the verb is everything before the first whitespace run, the
/// argument everything after it. `Q` and `C` take no argument; `P`, `W`,
/// `R`, `F` and `S` require one; any other verb is unknown.
pub open spec fn spec_parse_command(s: Seq<char>) -> Result<CommandV, Errors> {
    let t = trim_end_spec(s);
    let i = first_ws(t);
    let verb = if i < 0 {
        t
    } else {
        t.take(i)
    };
    let has_arg = i >= 0;
    let arg = if i < 0 {
        Seq::<char>::empty()
    } else {
        skip_ws(t.skip(i))
    };
    if verb == seq!['Q'] {
        Ok(CommandV::Quit)
    } else if verb == seq!['C'] {
        Ok(CommandV::Check)
    } else if verb == seq!['P'] {
        if !has_arg {
            Err(Errors::InvalidFormat)
        } else if valid_i32_text(arg) {
            Ok(CommandV::Print(i32_value(arg) as i32))
        } else {
            Err(Errors::Parse)
        }
    } else if verb == seq!['W'] {
        if has_arg {
            Ok(CommandV::Write(arg))
        } else {
            Err(Errors::InvalidFormat)
        }
    } else if verb == seq!['R'] {
        if has_arg {
            Ok(CommandV::Read(arg))
        } else {
            Err(Errors::InvalidFormat)
        }
    } else if verb == seq!['F'] {
        if has_arg {
            Ok(CommandV::Find(arg))
        } else {
            Err(Errors::InvalidFormat)
        }
    } else if verb == seq!['S'] {
        if !has_arg {
            Err(Errors::InvalidFormat)
        } else if valid_u32_text(arg) {
            Ok(CommandV::Sort(dec_value(arg) as u32))
        } else {
            Err(Errors::Parse)
        }
    } else {
        Err(Errors::NotFound)
    }
}

/// The index of the first whitespace character in a string.
fn find_ws(s: &str) -> (r: Option<usize>)
    ensures
        r is Some <==> first_ws(s@) >= 0,
        r is Some ==> r.unwrap() == first_ws(s@),
{
    proof {
        lemma_first_ws(s@);
    }
    let len = s.unicode_len();
    let mut i: usize = 0;
    while i < len
        invariant
            0 <= i <= len,
            len == s@.len(),
            forall|j: int| 0 <= j < i ==> !is_space(s@[j]),
            -1 <= first_ws(s@) < s@.len(),
            first_ws(s@) >= 0 ==> is_space(s@[first_ws(s@)]),
            forall|j: int| 0 <= j < first_ws(s@) ==> !is_space(s@[j]),
            first_ws(s@) == -1 ==> forall|j: int| 0 <= j < s@.len() ==> !is_space(s@[j]),
        decreases len - i,
    {
        if is_space_char(s.get_char(i)) {
            proof {
                let idx = first_ws(s@);
                assert(idx != -1);
                assert(idx >= i as int);
                assert(idx <= i as int);
            }
            return Some(i);
        }
        i = i + 1;
    }
    proof {
        if first_ws(s@) >= 0 {
            assert(is_space(s@[first_ws(s@)]));
            assert(false);
        }
    }
    None
}

impl Command {
    /// Parses one command line (without its leading marker) as
    /// [`spec_parse_command`] says.
    pub fn parse(line: &str) -> (r: Result<Command, Errors>)
        ensures
            command_result_view(r) == spec_parse_command(line@),
    {
        let t = trim_end_of(line);
        let tlen = t.unicode_len();
        let ghost ts = t@;
        let verb_len: usize;
        let arg: &str;
        let has_arg: bool;
        match find_ws(t) {
            Some(ix) => {
                proof {
                    lemma_first_ws(ts);
                }
                let mut j: usize = ix;
                while j < tlen && is_space_char(t.get_char(j))
                    invariant
                        ix <= j <= tlen,
                        tlen == ts.len(),
                        t@ == ts,
                        skip_ws(ts.skip(ix as int)) == skip_ws(ts.skip(j as int)),
                    decreases tlen - j,
                {
                    proof {
                        let cur = ts.skip(j as int);
                        assert(cur[0] == ts[j as int]);
                        assert(cur.drop_first() =~= ts.skip(j as int + 1));
                    }
                    j = j + 1;
                }
                proof {
                    let cur = ts.skip(j as int);
                    if j < tlen {
                        assert(cur[0] == ts[j as int]);
                        assert(skip_ws(cur) == cur);
                    } else {
                        assert(cur =~= Seq::<char>::empty());
                        assert(skip_ws(cur) == cur);
                    }
                }
                verb_len = ix;
                arg = t.substring_char(j, tlen);
                has_arg = true;
                proof {
                    assert(arg@ =~= ts.skip(j as int));
                }
            },
            None => {
                verb_len = tlen;
                proof {
                    reveal_strlit("");
                }
                arg = "";
                has_arg = false;
            },
        }
        let ghost verb = if has_arg {
            ts.take(verb_len as int)
        } else {
            ts
        };
        if verb_len != 1 {
            proof {
                assert(verb.len() != 1);
            }
            return Err(Errors::NotFound);
        }
        let c = t.get_char(0);
        proof {
            assert(verb[0] == ts[0]);
            assert(verb =~= seq![c]);
        }
        if c == 'Q' {
            Ok(Command::Quit)
        } else if c == 'C' {
            Ok(Command::Check)
        } else if c == 'P' {
            if !has_arg {
                Err(Errors::InvalidFormat)
            } else {
                match parse_i32(arg) {
                    Some(n) => Ok(Command::Print(n)),
                    None => Err(Errors::Parse),
                }
            }
        } else if c == 'W' {
            if has_arg {
                Ok(Command::Write(arg.to_owned()))
            } else {
                Err(Errors::InvalidFormat)
            }
        } else if c == 'R' {
            if has_arg {
                Ok(Command::Read(arg.to_owned()))
            } else {
                Err(Errors::InvalidFormat)
            }
        } else if c == 'F' {
            if has_arg {
                Ok(Command::Find(arg.to_owned()))
            } else {
                Err(Errors::InvalidFormat)
            }
        } else if c == 'S' {
            if !has_arg {
                Err(Errors::InvalidFormat)
            } else {
                match parse_u32(arg) {
                    Some(k) => Ok(Command::Sort(k)),
                    None => Err(Errors::Parse),
                }
            }
        } else {
            proof {
                assert(verb != seq!['Q'] && verb != seq!['C'] && verb != seq!['P'] && verb
                    != seq!['W'] && verb != seq!['R'] && verb != seq!['F'] && verb
                    != seq!['S']);
            }
            Err(Errors::NotFound)
        }
    }
}

// ---------------------------------------------------------------------------
// The executor
// ---------------------------------------------------------------------------

/// The line that the count command shows.
pub open spec fn check_line(n: nat) -> Seq<char> {
    dec_digits(n) + " profile(s)."@
}

/// The lines that printing these records in order produces.
pub open spec fn render_all(ps: Seq<ProfileV>) -> Seq<Seq<char>>
    decreases ps.len(),
{
    if ps.len() == 0 {
        Seq::empty()
    } else {
        render_lines_spec(ps[0]) + render_all(ps.drop_first())
    }
}

pub proof fn lemma_render_all_push(ps: Seq<ProfileV>, p: ProfileV)
    ensures
        render_all(ps.push(p)) == render_all(ps) + render_lines_spec(p),
    decreases ps.len(),
{
    if ps.len() == 0 {
        assert(ps.push(p)[0] == p);
        assert(ps.push(p).drop_first() =~= Seq::<ProfileV>::empty());
        assert(render_all(Seq::<ProfileV>::empty()) == Seq::<Seq<char>>::empty());
        assert(render_all(ps.push(p)) == render_lines_spec(p) + Seq::<Seq<char>>::empty());
        assert(render_all(ps.push(p)) =~= render_all(ps) + render_lines_spec(p));
    } else {
        assert(ps.push(p)[0] == ps[0]);
        assert(ps.push(p).drop_first() =~= ps.drop_first().push(p));
        lemma_render_all_push(ps.drop_first(), p);
        assert(render_all(ps.push(p)) == render_lines_spec(ps[0]) + render_all(
            ps.drop_first().push(p),
        ));
        assert(render_all(ps.drop_first().push(p)) == render_all(ps.drop_first())
            + render_lines_spec(p));
        assert(render_all(ps) == render_lines_spec(ps[0]) + render_all(ps.drop_first()));
        assert(render_lines_spec(ps[0]) + (render_all(ps.drop_first()) + render_lines_spec(p))
            =~= (render_lines_spec(ps[0]) + render_all(ps.drop_first())) + render_lines_spec(
            p,
        ));
    }
}

/// The records the print command selects: the first n for positive n, all
/// for 0, the last |n| for negative n — never more than the store holds.
pub open spec fn print_selection(s: Seq<ProfileV>, n: int) -> Seq<ProfileV> {
    if n > 0 {
        if n < s.len() {
            s.take(n)
        } else {
            s
        }
    } else if n == 0 {
        s
    } else if s.len() + n > 0 {
        s.skip(s.len() + n)
    } else {
        s
    }
}

/// The records that match the needle, in store order.
pub open spec fn matching(s: Seq<ProfileV>, w: Seq<char>) -> Seq<ProfileV>
    decreases s.len(),
{
    if s.len() == 0 {
        Seq::empty()
    } else if spec_matches(s[0], w) {
        seq![s[0]] + matching(s.drop_first(), w)
    } else {
        matching(s.drop_first(), w)
    }
}

pub proof fn lemma_matching_push(s: Seq<ProfileV>, w: Seq<char>, p: ProfileV)
    ensures
        matching(s.push(p), w) == if spec_matches(p, w) {
            matching(s, w).push(p)
        } else {
            matching(s, w)
        },
    decreases s.len(),
{
    if s.len() == 0 {
        assert(s.push(p)[0] == p);
        assert(s.push(p).drop_first() =~= Seq::<ProfileV>::empty());
        assert(matching(Seq::<ProfileV>::empty(), w) == Seq::<ProfileV>::empty());
        if spec_matches(p, w) {
            assert(matching(s.push(p), w) == seq![p] + Seq::<ProfileV>::empty());
            assert(seq![p] + Seq::<ProfileV>::empty() =~= matching(s, w).push(p));
        } else {
            assert(matching(s.push(p), w) == matching(s, w));
        }
    } else {
        assert(s.push(p)[0] == s[0]);
        assert(s.push(p).drop_first() =~= s.drop_first().push(p));
        lemma_matching_push(s.drop_first(), w, p);
        if spec_matches(s[0], w) {
            assert(matching(s.push(p), w) == seq![s[0]] + matching(s.drop_first().push(p), w));
            assert(matching(s, w) == seq![s[0]] + matching(s.drop_first(), w));
            if spec_matches(p, w) {
                assert(seq![s[0]] + matching(s.drop_first(), w).push(p) =~= (seq![s[0]]
                    + matching(s.drop_first(), w)).push(p));
            }
        } else {
            assert(matching(s.push(p), w) == matching(s.drop_first().push(p), w));
            assert(matching(s, w) == matching(s.drop_first(), w));
        }
    }
}

/// The comma-separated line for each record, in order.
pub open spec fn csv_lines(s: Seq<ProfileV>) -> Seq<Seq<char>> {
    Seq::new(s.len(), |i: int| csv_text(s[i]))
}

/// The executor's contract, by command: what the store becomes and what
/// result comes back. Only a sort in range mutates the store; every other
/// command leaves it unchanged and describes its effect in the action.
pub open spec fn call_post(
    c: CommandV,
    before: Seq<ProfileV>,
    after: Seq<ProfileV>,
    r: Result<ActionV, Errors>,
) -> bool {
    match c {
        CommandV::Quit => after == before && r == Ok::<ActionV, Errors>(ActionV::Terminate),
        CommandV::Check => after == before && r == Ok::<ActionV, Errors>(
            ActionV::Show(seq![check_line(before.len())]),
        ),
        CommandV::Print(n) => after == before && r == Ok::<ActionV, Errors>(
            ActionV::Show(render_all(print_selection(before, n as int))),
        ),
        CommandV::Write(f) => after == before && r == Ok::<ActionV, Errors>(
            ActionV::SaveFile(f, csv_lines(before)),
        ),
        CommandV::Read(f) => after == before && r == Ok::<ActionV, Errors>(
            ActionV::LoadFile(f),
        ),
        CommandV::Find(w) => after == before && r == Ok::<ActionV, Errors>(
            ActionV::Show(render_all(matching(before, w))),
        ),
        CommandV::Sort(k) => if 1 <= k <= 5 {
            &&& sorted_by_field(k, after)
            &&& after.to_multiset() == before.to_multiset()
            &&& after.len() == before.len()
            &&& exists|m: Seq<int>| stable_sort_map(k, m, before, after)
            &&& r == Ok::<ActionV, Errors>(ActionV::Done)
        } else {
            after == before && r == Err::<ActionV, Errors>(Errors::InvalidValue)
        },
    }
}

/// Renders the records with indices in `start..end`.
fn render_range(profiles: &Vec<Profile>, start: usize, end: usize) -> (r: Vec<String>)
    requires
        start <= end <= profiles@.len(),
    ensures
        r.deep_view() == render_all(profiles.deep_view().subrange(start as int, end as int)),
{
    let ghost dv = profiles.deep_view();
    let mut out: Vec<String> = Vec::new();
    let mut i: usize = start;
    proof {
        assert(dv.subrange(start as int, start as int) =~= Seq::<ProfileV>::empty());
        assert(out.deep_view() =~= Seq::<Seq<char>>::empty());
    }
    while i < end
        invariant
            start <= i <= end <= profiles@.len(),
            dv == profiles.deep_view(),
            out.deep_view() == render_all(dv.subrange(start as int, i as int)),
        decreases end - i,
    {
        let ghost out_dv = out.deep_view();
        let mut lines = profiles[i].render_lines();
        let ghost lines_dv = lines.deep_view();
        proof {
            assert(profiles@[i as int]@ == dv[i as int]);
        }
        out.append(&mut lines);
        proof {
            assert(out.deep_view() =~= out_dv + lines_dv);
            assert(dv.subrange(start as int, i as int + 1) =~= dv.subrange(
                start as int,
                i as int,
            ).push(dv[i as int]));
            lemma_render_all_push(dv.subrange(start as int, i as int), dv[i as int]);
        }
        i = i + 1;
    }
    out
}

impl Command {
    /// Executes this command against the store, as [`call_post`] says.
    pub fn call(&self, profiles: &mut Vec<Profile>) -> (r: Result<Action, Errors>)
        ensures
            call_post(
                self@,
                old(profiles).deep_view(),
                final(profiles).deep_view(),
                action_result_view(r),
            ),
    {
        let ghost dv = profiles.deep_view();
        match self {
            Command::Quit => Ok(Action::Terminate),
            Command::Check => {
                let mut line = usize_to_string(profiles.len());
                line.append(" profile(s).");
                let mut v: Vec<String> = Vec::new();
                v.push(line);
                proof {
                    assert(v.deep_view() =~= seq![check_line(dv.len())]);
                }
                Ok(Action::Show(v))
            },
            Command::Print(num) => {
                let n: i32 = *num;
                let len = profiles.len();
                let start: usize;
                let end: usize;
                if n > 0 {
                    let nn = n as usize;
                    start = 0;
                    end = if nn < len {
                        nn
                    } else {
                        len
                    };
                } else if n == 0 {
                    start = 0;
                    end = len;
                } else {
                    let mag: u64 = if n == i32::MIN {
                        0x8000_0000u64
                    } else {
                        (-n) as u64
                    };
                    start = if mag >= len as u64 {
                        0
                    } else {
                        len - (mag as usize)
                    };
                    end = len;
                }
                let lines = render_range(profiles, start, end);
                proof {
                    assert(dv.subrange(start as int, end as int) =~= print_selection(
                        dv,
                        n as int,
                    ));
                }
                Ok(Action::Show(lines))
            },
            Command::Write(filename) => {
                let len = profiles.len();
                let mut lines: Vec<String> = Vec::new();
                let mut i: usize = 0;
                while i < len
                    invariant
                        0 <= i <= len <= profiles@.len(),
                        dv == profiles.deep_view(),
                        lines@.len() == i,
                        forall|j: int| 0 <= j < i ==> (#[trigger] lines@[j])@ == csv_text(dv[j]),
                    decreases len - i,
                {
                    let line = profiles[i].form_csv();
                    proof {
                        assert(profiles@[i as int]@ == dv[i as int]);
                    }
                    let ghost prev = lines@;
                    lines.push(line);
                    proof {
                        assert forall|j: int|
                            0 <= j < i as int + 1 implies (#[trigger] lines@[j])@ == csv_text(
                            dv[j],
                        ) by {
                            if j < i as int {
                                assert(lines@[j] == prev[j]);
                            }
                        }
                    }
                    i = i + 1;
                }
                proof {
                    assert forall|j: int|
                        0 <= j < len as int implies lines.deep_view()[j] == csv_text(dv[j]) by {
                        assert(lines.deep_view()[j] == lines@[j]@);
                    }
                    assert(lines.deep_view() =~= csv_lines(dv));
                }
                Ok(Action::SaveFile(filename.clone(), lines))
            },
            Command::Read(filename) => Ok(Action::LoadFile(filename.clone())),
            Command::Find(word) => {
                let len = profiles.len();
                let mut lines: Vec<String> = Vec::new();
                let mut i: usize = 0;
                proof {
                    assert(dv.take(0) =~= Seq::<ProfileV>::empty());
                    assert(lines.deep_view() =~= Seq::<Seq<char>>::empty());
                }
                while i < len
                    invariant
                        0 <= i <= len <= profiles@.len(),
                        dv == profiles.deep_view(),
                        lines.deep_view() == render_all(matching(dv.take(i as int), word@)),
                    decreases len - i,
                {
                    let ghost lines_dv = lines.deep_view();
                    proof {
                        assert(profiles@[i as int]@ == dv[i as int]);
                    }
                    if profiles[i].find_profile(word) {
                        let mut ls = profiles[i].render_lines();
                        let ghost ls_dv = ls.deep_view();
                        lines.append(&mut ls);
                        proof {
                            assert(lines.deep_view() =~= lines_dv + ls_dv);
                        }
                    }
                    proof {
                        assert(dv.take(i as int + 1) =~= dv.take(i as int).push(dv[i as int]));
                        lemma_matching_push(dv.take(i as int), word@, dv[i as int]);
                        if spec_matches(dv[i as int], word@) {
                            lemma_render_all_push(
                                matching(dv.take(i as int), word@),
                                dv[i as int],
                            );
                        }
                    }
                    i = i + 1;
                }
                proof {
                    assert(dv.take(len as int) =~= dv);
                }
                Ok(Action::Show(lines))
            },
            Command::Sort(k) => {
                let kk: u32 = *k;
                if 1 <= kk && kk <= 5 {
                    sort_profiles(profiles, kk);
                    Ok(Action::Done)
                } else {
                    Err(Errors::InvalidValue)
                }
            },
        }
    }
}

} // verus!
