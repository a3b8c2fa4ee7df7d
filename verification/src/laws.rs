//! Laws of the script compiler, each proved of every script.

use crate::cue::{parse_line, CueView, ScriptErrorView};
use crate::order::{fire_names, fired_in, is_rest, lemma_fired_in_holds, sleep_total};
use crate::script::{
    compile, compile_lines, lemma_accepted_so_far, lemma_error_stays, lemma_run_orderly, run,
    script_outcome, Script, ScriptResult, ScriptView,
};
use crate::validate::{
    binding_of, board_of, has_board, has_channel, load, ChannelsView, ValidatorView, MAX_PER_BOARD,
    MAX_SLOT,
};
use vstd::prelude::*;

verus! {

/// Compiling is a function of the text: whatever two compilations of one
/// text return, they return the same.
pub proof fn law_same_text_same_script(
    text: Seq<char>,
    first: ScriptResult<Script>,
    second: ScriptResult<Script>,
)
    requires
        script_outcome(first) == compile(text),
        script_outcome(second) == compile(text),
    ensures
        script_outcome(first) == script_outcome(second),
{
}

/// Every script that compiles is valid.
pub proof fn law_compiled_is_valid(lines: Seq<Seq<char>>)
    requires
        compile_lines(lines) is Ok,
    ensures
        compile_lines(lines)->Ok_0.valid(),
{
    lemma_run_orderly(lines, lines.len() as int);
}

/// The cues that the first `upto` of `lines` hold, in order.
pub open spec fn line_cues(lines: Seq<Seq<char>>, upto: int) -> Seq<CueView>
    decreases upto,
{
    if upto <= 0 {
        Seq::empty()
    } else {
        match parse_line(lines[upto - 1], upto as usize) {
            Ok(Some(cue)) => line_cues(lines, upto - 1).push(cue),
            _ => line_cues(lines, upto - 1),
        }
    }
}

/// The cues of a compiled script are the cues of its lines, in order.
pub proof fn law_cues_are_the_lines(lines: Seq<Seq<char>>, upto: int)
    requires
        run(lines, upto) is Ok,
    ensures
        run(lines, upto)->Ok_0.cues == line_cues(lines, upto),
    decreases upto,
{
    if upto > 0 {
        law_cues_are_the_lines(lines, upto - 1);
    }
}

/// The duration of a compiled script is the exact sum of its sleeps,
/// whatever other cues stand between them.
pub proof fn law_duration_is_sum_of_sleeps(lines: Seq<Seq<char>>)
    requires
        compile_lines(lines) is Ok,
    ensures
        compile_lines(lines)->Ok_0.duration == sleep_total(line_cues(lines, lines.len() as int)),
        compile_lines(lines)->Ok_0.duration == sleep_total(compile_lines(lines)->Ok_0.cues),
{
    lemma_run_orderly(lines, lines.len() as int);
    law_cues_are_the_lines(lines, lines.len() as int);
}

/// Cues that are no sleeps add nothing to the sum of sleeps.
pub proof fn law_sleep_total_of_sleeps_only(cues: Seq<CueView>)
    ensures
        sleep_total(cues) == sleep_total(cues.filter(|c: CueView| c is Sleep)),
    decreases cues.len(),
{
    reveal(Seq::filter);
    let only = |c: CueView| c is Sleep;
    if cues.len() > 0 {
        law_sleep_total_of_sleeps_only(cues.drop_last());
        let front = cues.drop_last().filter(only);
        if cues.last() is Sleep {
            assert(cues.filter(only) == front.push(cues.last()));
            assert(front.push(cues.last()).drop_last() =~= front);
        } else {
            assert(cues.filter(only) == front);
        }
    }
}

/// Where no channel is among the fired channels twice, a channel name
/// stands in one fire, at one place.
pub proof fn lemma_one_place(cues: Seq<CueView>, i: int, p: int, j: int, q: int)
    requires
        fired_in(cues).no_duplicates(),
        0 <= i <= j < cues.len(),
        0 <= p < fire_names(cues[i]).len(),
        0 <= q < fire_names(cues[j]).len(),
        fire_names(cues[i])[p] == fire_names(cues[j])[q],
    ensures
        i == j && p == q,
    decreases cues.len(),
{
    let last = cues.len() - 1;
    let front = cues.drop_last();
    let before = fired_in(front);
    let here = fire_names(cues.last());
    let all = fired_in(cues);
    assert(all == before + here);
    if j < last {
        assert forall|a: int, b: int| 0 <= a < before.len() && 0 <= b < before.len() && a != b implies before[a]
            != before[b] by {
            assert(all[a] == before[a] && all[b] == before[b]);
        }
        assert(front[i] == cues[i] && front[j] == cues[j]);
        lemma_one_place(front, i, p, j, q);
    } else if i == last {
        assert(all[before.len() + p] == here[p]);
        assert(all[before.len() + q] == here[q]);
    } else {
        assert(front[i] == cues[i]);
        lemma_fired_in_holds(front, i, p);
        let k = choose|k: int| 0 <= k < before.len() && before[k] == fire_names(cues[i])[p];
        assert(all[k] == before[k]);
        assert(all[before.len() + q] == here[q]);
    }
}

/// In a compiled script each fired channel stands in exactly one fire, at
/// one place in it: no channel fires twice.
pub proof fn law_each_channel_fires_once(lines: Seq<Seq<char>>, i: int, p: int, j: int, q: int)
    requires
        compile_lines(lines) is Ok,
        0 <= i < compile_lines(lines)->Ok_0.cues.len(),
        0 <= j < compile_lines(lines)->Ok_0.cues.len(),
        0 <= p < fire_names(compile_lines(lines)->Ok_0.cues[i]).len(),
        0 <= q < fire_names(compile_lines(lines)->Ok_0.cues[j]).len(),
        fire_names(compile_lines(lines)->Ok_0.cues[i])[p] == fire_names(compile_lines(lines)->Ok_0.cues[j])[q],
    ensures
        i == j && p == q,
{
    lemma_run_orderly(lines, lines.len() as int);
    let cues = compile_lines(lines)->Ok_0.cues;
    if i <= j {
        lemma_one_place(cues, i, p, j, q);
    } else {
        lemma_one_place(cues, j, q, i, p);
    }
}

/// In a compiled script no fire asks more than three channels of any one
/// board.
pub proof fn law_fire_within_board_limit(lines: Seq<Seq<char>>, i: int, board: Seq<char>)
    requires
        compile_lines(lines) is Ok,
        0 <= i < compile_lines(lines)->Ok_0.cues.len(),
    ensures
        load(compile_lines(lines)->Ok_0.channels, fire_names(compile_lines(lines)->Ok_0.cues[i]), board)
            <= MAX_PER_BOARD,
{
    lemma_run_orderly(lines, lines.len() as int);
}

/// Whether line `at` of `lines` holds a fire.
pub open spec fn fire_line(lines: Seq<Seq<char>>, at: int) -> bool {
    parse_line(lines[at], (at + 1) as usize) matches Ok(Some(cue)) && cue is Fire
}

/// Whether line `at` of `lines` holds a sleep or a pause.
pub open spec fn rest_line(lines: Seq<Seq<char>>, at: int) -> bool {
    parse_line(lines[at], (at + 1) as usize) matches Ok(Some(cue)) && is_rest(cue)
}

/// After an accepted fire, and for as long as no sleep or pause is
/// accepted, no fire may follow.
pub proof fn lemma_stays_closed(lines: Seq<Seq<char>>, i: int, upto: int)
    requires
        0 <= i < upto,
        fire_line(lines, i),
        forall|k: int| i < k < upto ==> !rest_line(lines, k),
        run(lines, upto) is Ok,
    ensures
        !run(lines, upto)->Ok_0.armed,
    decreases upto - i,
{
    lemma_accepted_so_far(lines, upto - 1, upto);
    if upto - 1 > i {
        lemma_stays_closed(lines, i, upto - 1);
        assert(!rest_line(lines, upto - 1));
    }
}

/// A fire that follows a fire with no sleep or pause between them is
/// refused as a fire without sleep, whatever channels it names: where the
/// lines before it are accepted, that is the error of the script.
pub proof fn law_fire_after_fire_is_refused(lines: Seq<Seq<char>>, i: int, j: int)
    requires
        0 <= i < j < lines.len(),
        fire_line(lines, i),
        fire_line(lines, j),
        forall|k: int| i < k < j ==> !rest_line(lines, k),
        run(lines, j) is Ok,
    ensures
        compile_lines(lines) == Err::<ScriptView, ScriptErrorView>(
            ScriptErrorView::FireWithoutSleep { lineno: (j + 1) as usize },
        ),
{
    lemma_stays_closed(lines, i, j);
    assert(run(lines, j + 1) == Err::<ValidatorView, ScriptErrorView>(
        ScriptErrorView::FireWithoutSleep { lineno: (j + 1) as usize },
    ));
    lemma_error_stays(lines, j + 1, lines.len() as int);
}

/// In a compiled script a sleep or a pause stands between any two fires.
pub proof fn law_compiled_fires_are_paced(lines: Seq<Seq<char>>, i: int, j: int)
    requires
        compile_lines(lines) is Ok,
        0 <= i < j < compile_lines(lines)->Ok_0.cues.len(),
        compile_lines(lines)->Ok_0.cues[i] is Fire,
        compile_lines(lines)->Ok_0.cues[j] is Fire,
    ensures
        exists|k: int| i < k < j && is_rest(#[trigger] compile_lines(lines)->Ok_0.cues[k]),
{
    lemma_run_orderly(lines, lines.len() as int);
}

/// A declared channel is bound to the board and slot of one of the
/// declarations.
pub proof fn lemma_binding_is_declared(channels: ChannelsView, name: Seq<char>)
    requires
        has_channel(channels, name),
    ensures
        exists|k: int|
            0 <= k < channels.len() && (#[trigger] channels[k]).0 == name && channels[k].1 == binding_of(
                channels,
                name,
            ),
    decreases channels.len(),
{
    let last = channels.len() - 1;
    if channels[last].0 == name {
        assert(channels[last].1 == binding_of(channels, name));
    } else {
        let front = channels.drop_last();
        let at = choose|k: int| 0 <= k < channels.len() && (#[trigger] channels[k]).0 == name;
        assert(front[at] == channels[at]);
        lemma_binding_is_declared(front, name);
        let k = choose|k: int|
            0 <= k < front.len() && (#[trigger] front[k]).0 == name && front[k].1 == binding_of(front, name);
        assert(channels[k] == front[k]);
    }
}

/// In a compiled script every fired channel is declared, on a declared
/// board, in a slot from 1 to 30.
pub proof fn law_fired_channels_are_declared(lines: Seq<Seq<char>>, i: int, p: int)
    requires
        compile_lines(lines) is Ok,
        0 <= i < compile_lines(lines)->Ok_0.cues.len(),
        0 <= p < fire_names(compile_lines(lines)->Ok_0.cues[i]).len(),
    ensures
        ({
            let script = compile_lines(lines)->Ok_0;
            let name = fire_names(script.cues[i])[p];
            &&& has_channel(script.channels, name)
            &&& has_board(script.boards, board_of(script.channels, name))
            &&& 1 <= binding_of(script.channels, name).1 <= MAX_SLOT
        }),
{
    lemma_run_orderly(lines, lines.len() as int);
    let script = compile_lines(lines)->Ok_0;
    let name = fire_names(script.cues[i])[p];
    lemma_fired_in_holds(script.cues, i, p);
    let f = choose|f: int| 0 <= f < fired_in(script.cues).len() && fired_in(script.cues)[f] == name;
    assert(has_channel(script.channels, fired_in(script.cues)[f]));
    lemma_binding_is_declared(script.channels, name);
}

} // verus!
