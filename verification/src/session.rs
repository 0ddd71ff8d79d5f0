//! The session-level entry points: classifying an input line as a command or
//! a raw record, running it against the store, and ingesting the lines of an
//! imported file with the documented partial-failure behaviour.

use vstd::prelude::*;
use vstd::string::StrSliceExecFns;
use crate::command::{action_result_view, call_post, spec_parse_command, Action, Command};
use crate::errors::Errors;
use crate::profile::{spec_parse_profile, Profile, ProfileV};

verus! {

/// Parses a command line (already stripped of its `%` marker) and executes
/// it: the grammar's error if it does not parse, otherwise the executor's
/// contract [`call_post`].
pub fn discrimination(args: String, profiles: &mut Vec<Profile>) -> (r: Result<Action, Errors>)
    ensures
        match spec_parse_command(args@) {
            Ok(cv) => call_post(
                cv,
                old(profiles).deep_view(),
                final(profiles).deep_view(),
                action_result_view(r),
            ),
            Err(e) => final(profiles)@ == old(profiles)@ && r == Err::<Action, Errors>(e),
        },
{
    let cmd = match Command::parse(args.as_str()) {
        Ok(c) => c,
        Err(e) => {
            return Err(e);
        },
    };
    cmd.call(profiles)
}

/// A line is a command when it starts with the `%` marker.
pub open spec fn is_command_line(line: Seq<char>) -> bool {
    line.len() > 0 && line[0] == '%'
}

/// One step of the session loop: a `%`-prefixed line goes through the
/// command grammar and executor; any other line is ingested as a raw record
/// and appended to the store.
pub fn parse_line(line: &String, profiles: &mut Vec<Profile>) -> (r: Result<Action, Errors>)
    ensures
        is_command_line(line@) ==> match spec_parse_command(line@.skip(1)) {
            Ok(cv) => call_post(
                cv,
                old(profiles).deep_view(),
                final(profiles).deep_view(),
                action_result_view(r),
            ),
            Err(e) => final(profiles)@ == old(profiles)@ && r == Err::<Action, Errors>(e),
        },
        !is_command_line(line@) ==> match spec_parse_profile(line@) {
            Ok(pv) => final(profiles).deep_view() == old(profiles).deep_view().push(pv)
                && action_result_view(r) == Ok::<crate::command::ActionV, Errors>(
                crate::command::ActionV::Done,
            ),
            Err(e) => final(profiles)@ == old(profiles)@ && r == Err::<Action, Errors>(e),
        },
{
    let s = line.as_str();
    let len = s.unicode_len();
    if len > 0 && s.get_char(0) == '%' {
        let rest = s.substring_char(1, len).to_owned();
        proof {
            assert(rest@ =~= line@.skip(1));
        }
        discrimination(rest, profiles)
    } else {
        match Profile::parse_item(line) {
            Ok(p) => {
                let ghost dv = profiles.deep_view();
                let ghost pv = p@;
                profiles.push(p);
                proof {
                    assert(profiles.deep_view() =~= dv.push(pv));
                }
                Ok(Action::Done)
            },
            Err(e) => Err(e),
        }
    }
}

/// The index of the first line that does not parse as a record, or the
/// number of lines when they all parse.
pub open spec fn first_failure(lines: Seq<Seq<char>>) -> int
    decreases lines.len(),
{
    if lines.len() == 0 {
        0
    } else if spec_parse_profile(lines[0]) is Err {
        0
    } else {
        1 + first_failure(lines.drop_first())
    }
}

pub proof fn lemma_first_failure(lines: Seq<Seq<char>>)
    ensures
        0 <= first_failure(lines) <= lines.len(),
        forall|j: int|
            0 <= j < first_failure(lines) ==> spec_parse_profile(#[trigger] lines[j]) is Ok,
        first_failure(lines) < lines.len() ==> spec_parse_profile(
            lines[first_failure(lines)],
        ) is Err,
    decreases lines.len(),
{
    if lines.len() > 0 && !(spec_parse_profile(lines[0]) is Err) {
        lemma_first_failure(lines.drop_first());
        let k = first_failure(lines);
        assert forall|j: int|
            0 <= j < k implies spec_parse_profile(#[trigger] lines[j]) is Ok by {
            if j > 0 {
                assert(lines.drop_first()[j - 1] == lines[j]);
            }
        }
        if k < lines.len() {
            assert(lines.drop_first()[k - 1] == lines[k]);
        }
    }
}

/// The records that the lines before the first failure parse to.
pub open spec fn parsed_records(lines: Seq<Seq<char>>, k: int) -> Seq<ProfileV> {
    Seq::new(k as nat, |i: int| spec_parse_profile(lines[i])->Ok_0)
}

/// Appends the records parsed from `lines`, in order, stopping at the first
/// line that fails to parse: everything before it stays appended (no
/// rollback), its error comes back, and the lines after it are never
/// reached.
pub fn ingest_lines(profiles: &mut Vec<Profile>, lines: &Vec<String>) -> (r: Result<(), Errors>)
    ensures
        final(profiles).deep_view() == old(profiles).deep_view() + parsed_records(
            lines.deep_view(),
            first_failure(lines.deep_view()),
        ),
        first_failure(lines.deep_view()) == lines.deep_view().len() ==> r == Ok::<(), Errors>(
            (),
        ),
        first_failure(lines.deep_view()) < lines.deep_view().len() ==> r == Err::<(), Errors>(
            spec_parse_profile(lines.deep_view()[first_failure(lines.deep_view())])->Err_0,
        ),
{
    let ghost lv = lines.deep_view();
    let ghost base = profiles.deep_view();
    proof {
        lemma_first_failure(lv);
    }
    let n = lines.len();
    let mut i: usize = 0;
    while i < n
        invariant
            0 <= i <= n,
            n == lines@.len(),
            lv == lines.deep_view(),
            base == old(profiles).deep_view(),
            base.len() + i == profiles.deep_view().len(),
            forall|j: int| 0 <= j < i ==> spec_parse_profile(#[trigger] lv[j]) is Ok,
            profiles.deep_view() == base + parsed_records(lv, i as int),
            0 <= first_failure(lv) <= lv.len(),
            forall|j: int|
                0 <= j < first_failure(lv) ==> spec_parse_profile(#[trigger] lv[j]) is Ok,
            first_failure(lv) < lv.len() ==> spec_parse_profile(
                lv[first_failure(lv)],
            ) is Err,
        decreases n - i,
    {
        proof {
            assert(lines@[i as int]@ == lv[i as int]);
        }
        match Profile::parse_item(&lines[i]) {
            Ok(p) => {
                let ghost dv = profiles.deep_view();
                let ghost pv = p@;
                profiles.push(p);
                proof {
                    assert(profiles.deep_view() =~= dv.push(pv));
                    assert(profiles.deep_view() =~= base + parsed_records(lv, i as int + 1));
                }
                i = i + 1;
            },
            Err(e) => {
                proof {
                    // this is the first failing line
                    let k = first_failure(lv);
                    assert(spec_parse_profile(lv[i as int]) is Err);
                    assert(k <= i as int);
                    assert(k >= i as int);
                }
                return Err(e);
            },
        }
    }
    proof {
        assert(first_failure(lv) == lv.len()) by {
            if first_failure(lv) < lv.len() {
                assert(spec_parse_profile(lv[first_failure(lv)]) is Ok);
            }
        }
    }
    Ok(())
}

} // verus!
