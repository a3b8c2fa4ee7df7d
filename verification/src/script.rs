//! Compiling a show script: the text, line by line, through the safety
//! rules, into a validated sequence of cues or the first error.

pub use crate::cue::{Cue, CueView, ScriptError, ScriptErrorView, ScriptResult};

use crate::cue::parse_line;
use crate::order::{lemma_accept_keeps_order, lemma_start_orderly, orderly, sound};
use crate::text::{lines_of, split_lines, texts};
use crate::validate::{
    accept, boards_view, channels_view, cues_view, start, BoardsView, ChannelsView, Validator,
    ValidatorView,
};
use vstd::prelude::*;

verus! {

/// A compiled script.  `boards` and `channels` hold the declarations in the
/// order of their lines; no id and no name occurs twice in them.
#[derive(Debug, PartialEq)]
pub struct Script {
    /// The cues in the order in which they run.
    pub cues: Vec<Cue>,
    /// Each declared board: its id and hardware address.
    pub boards: Vec<(String, [u8; 6])>,
    /// Each declared channel: its name, then its board and slot.
    pub channels: Vec<(String, (String, u8))>,
    /// The seconds of all sleeps together.
    pub duration: u64,
}

/// [`Script`] as a mathematical value.
pub struct ScriptView {
    pub cues: Seq<CueView>,
    pub boards: BoardsView,
    pub channels: ChannelsView,
    pub duration: u64,
}

impl View for Script {
    type V = ScriptView;

    open spec fn view(&self) -> ScriptView {
        ScriptView {
            cues: cues_view(self.cues@),
            boards: boards_view(self.boards@),
            channels: channels_view(self.channels@),
            duration: self.duration,
        }
    }
}

impl ScriptView {
    /// What holds of every compiled script: its boards, channels and
    /// duration are those of its cues; no board id, hardware address,
    /// channel name or board slot is declared twice; every channel is on a
    /// declared board in a slot from 1 to 30; every fired channel is
    /// declared and fires once; no fire asks more than three channels of
    /// one board; and a sleep or pause stands between any two fires.
    pub open spec fn valid(self) -> bool {
        sound(self.cues, self.boards, self.channels, self.duration)
    }
}

/// The script that validation has built: the state without what only
/// validation needs.
pub open spec fn script_of(st: ValidatorView) -> ScriptView {
    ScriptView { cues: st.cues, boards: st.boards, channels: st.channels, duration: st.duration }
}

/// The state after line `lineno` with the text `line`: unchanged for a
/// line without a cue.
pub open spec fn feed(st: ValidatorView, line: Seq<char>, lineno: usize) -> Result<
    ValidatorView,
    ScriptErrorView,
> {
    match parse_line(line, lineno) {
        Err(e) => Err(e),
        Ok(None) => Ok(st),
        Ok(Some(cue)) => accept(st, cue, lineno),
    }
}

/// The state after the first `upto` of `lines`, or the first error among
/// them.  Lines count from one.
pub open spec fn run(lines: Seq<Seq<char>>, upto: int) -> Result<ValidatorView, ScriptErrorView>
    decreases upto,
{
    if upto <= 0 {
        Ok(start())
    } else {
        match run(lines, upto - 1) {
            Err(e) => Err(e),
            Ok(st) => feed(st, lines[upto - 1], upto as usize),
        }
    }
}

/// What the lines of a script compile to.
pub open spec fn compile_lines(lines: Seq<Seq<char>>) -> Result<ScriptView, ScriptErrorView> {
    match run(lines, lines.len() as int) {
        Ok(st) => Ok(script_of(st)),
        Err(e) => Err(e),
    }
}

/// What the text of a script compiles to.
pub open spec fn compile(text: Seq<char>) -> Result<ScriptView, ScriptErrorView> {
    compile_lines(lines_of(text))
}

/// The outcome of compiling as a mathematical value.
pub open spec fn script_outcome(r: ScriptResult<Script>) -> Result<ScriptView, ScriptErrorView> {
    match r {
        Ok(s) => Ok(s@),
        Err(e) => Err(e@),
    }
}

/// The first error ends compilation: later lines do not change it.
pub proof fn lemma_error_stays(lines: Seq<Seq<char>>, at: int, upto: int)
    requires
        0 <= at <= upto,
        run(lines, at) is Err,
    ensures
        run(lines, upto) == run(lines, at),
    decreases upto - at,
{
    if at < upto {
        lemma_error_stays(lines, at, upto - 1);
    }
}

/// Before the first error every beginning of the script is accepted.
pub proof fn lemma_accepted_so_far(lines: Seq<Seq<char>>, at: int, upto: int)
    requires
        0 <= at <= upto,
        run(lines, upto) is Ok,
    ensures
        run(lines, at) is Ok,
    decreases upto - at,
{
    if at < upto {
        lemma_accepted_so_far(lines, at, upto - 1);
    }
}

/// Every state that a script reaches is in order.
pub proof fn lemma_run_orderly(lines: Seq<Seq<char>>, upto: int)
    requires
        run(lines, upto) is Ok,
    ensures
        orderly(run(lines, upto)->Ok_0),
    decreases upto,
{
    if upto <= 0 {
        lemma_start_orderly();
    } else {
        lemma_run_orderly(lines, upto - 1);
        let st = run(lines, upto - 1)->Ok_0;
        match parse_line(lines[upto - 1], upto as usize) {
            Ok(Some(cue)) => {
                lemma_accept_keeps_order(st, cue, upto as usize);
            },
            _ => {},
        }
    }
}

impl Script {
    /// Compiles the lines of a script.
    pub fn from_lines(lines: &Vec<String>) -> (r: ScriptResult<Script>)
        ensures
            script_outcome(r) == compile_lines(texts(lines@)),
            r matches Ok(s) ==> s@.valid(),
    {
        let n = lines.len();
        let ghost lv = texts(lines@);
        let mut state = Validator::new();
        let mut i: usize = 0;
        while i < n
            invariant
                i <= n == lines.len(),
                lv == texts(lines@),
                run(lv, i as int) == Ok::<ValidatorView, ScriptErrorView>(state@),
            decreases n - i,
        {
            let lineno: usize = i + 1;
            match Cue::from_line(&lines[i], lineno) {
                Err(e) => {
                    proof {
                        assert(run(lv, i + 1) == Err::<ValidatorView, ScriptErrorView>(e@));
                        lemma_error_stays(lv, i + 1, n as int);
                    }
                    return Err(e);
                },
                Ok(None) => {},
                Ok(Some(cue)) => {
                    match state.accept(cue, lineno) {
                        Err(e) => {
                            proof {
                                assert(run(lv, i + 1) == Err::<ValidatorView, ScriptErrorView>(e@));
                                lemma_error_stays(lv, i + 1, n as int);
                            }
                            return Err(e);
                        },
                        Ok(next) => {
                            state = next;
                        },
                    }
                },
            }
            i += 1;
        }
        proof {
            lemma_run_orderly(lv, n as int);
        }
        Ok(
            Script {
                cues: state.cues,
                boards: state.boards,
                channels: state.channels,
                duration: state.duration,
            },
        )
    }

    /// Compiles the text of a script.
    pub fn from_string(script: String) -> (r: ScriptResult<Script>)
        ensures
            script_outcome(r) == compile(script@),
            r matches Ok(s) ==> s@.valid(),
    {
        let lines = split_lines(script.as_str());
        Script::from_lines(&lines)
    }
}

} // verus!
