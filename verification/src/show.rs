//! What running a show decides: which discovered board stands for which
//! board of the script, whether a board is fit to fire, and which
//! commands a fire cue turns into.

use crate::order::{fire_names, fired_in, lemma_fired_in_holds};
use crate::portfire::{fire_frame, found_view, frame_of, Board, BoardView, OPEN_CIRCUIT, SLOTS};
use crate::script::ScriptView;
use crate::text::texts;
use crate::validate::{
    binding_of, board_of, boards_view, channels_view, find_channel, has_channel, listed, load,
    same_mac, slot_is_taken, slot_taken, BoardsView, ChannelsView, MAX_PER_BOARD,
};
use vstd::prelude::*;

verus! {

/// The highest bus voltage, in millivolts, of a board that is disarmed.
pub const DISARMED_MAX_MV: u16 = 1000;

/// The lowest bus voltage, in millivolts, that the show takes for armed
/// unless it is told another.
pub const ARMED_MIN_MV: u16 = 2500;

/// The lowest voltage of the continuity test loop, in tenths of a volt,
/// at which its readings count.
pub const LOOP_MIN_DV: u8 = 30;

/// Where among `found` the board with the hardware address `mac` is: the
/// latest, should several carry it.
pub open spec fn located(found: Seq<BoardView>, mac: Seq<u8>) -> Option<int>
    decreases found.len(),
{
    if found.len() == 0 {
        None
    } else if found.last().mac == mac {
        Some(found.len() - 1)
    } else {
        located(found.drop_last(), mac)
    }
}

/// Finds the discovered board with the hardware address `mac`.
pub fn locate(found: &Vec<Board>, mac: &[u8; 6]) -> (r: Option<usize>)
    ensures
        r is Some == located(found_view(found@), mac@) is Some,
        r matches Some(k) ==> k < found.len() && k == located(found_view(found@), mac@)->0
            && found@[k as int].mac@ == mac@,
{
    let ghost all = found_view(found@);
    let mut k: usize = found.len();
    proof {
        assert(all.take(k as int) =~= all);
    }
    while k > 0
        invariant
            k <= found.len(),
            all == found_view(found@),
            located(all, mac@) == located(all.take(k as int), mac@),
        decreases k,
    {
        k -= 1;
        proof {
            assert(all.take(k + 1).last() == all[k as int]);
            assert(all.take(k + 1).drop_last() =~= all.take(k as int));
        }
        if same_mac(&found[k].mac, mac) {
            return Some(k);
        }
    }
    None
}

/// The first board of the script at or after `from` that no discovered
/// board stands for.
pub open spec fn first_unmatched(boards: BoardsView, found: Seq<BoardView>, from: int) -> Option<int>
    decreases boards.len() - from,
{
    if from < 0 || from >= boards.len() {
        None
    } else if located(found, boards[from].1) is None {
        Some(from)
    } else {
        first_unmatched(boards, found, from + 1)
    }
}

/// Matches the boards of a script to the boards discovered, by hardware
/// address.  `Ok` holds for each board of the script, in order, the board
/// that stands for it; `Err` the place of the first board of the script
/// that was not discovered.
pub fn match_boards(boards: &Vec<(String, [u8; 6])>, found: &Vec<Board>) -> (r: Result<Vec<Board>, usize>)
    ensures
        match first_unmatched(boards_view(boards@), found_view(found@), 0) {
            Some(k) => r == Err::<Vec<Board>, usize>(k as usize),
            None => r matches Ok(m) && m.len() == boards.len() && forall|k: int|
                0 <= k < boards.len() ==> (#[trigger] m@[k])@ == found_view(found@)[located(
                    found_view(found@),
                    boards_view(boards@)[k].1,
                )->0],
        },
{
    let ghost bv = boards_view(boards@);
    let ghost fv = found_view(found@);
    let mut matched: Vec<Board> = Vec::new();
    let mut i: usize = 0;
    while i < boards.len()
        invariant
            i <= boards.len(),
            bv == boards_view(boards@),
            fv == found_view(found@),
            first_unmatched(bv, fv, 0) == first_unmatched(bv, fv, i as int),
            matched.len() == i,
            forall|k: int| 0 <= k < i ==> (#[trigger] matched@[k])@ == fv[located(fv, bv[k].1)->0],
        decreases boards.len() - i,
    {
        match locate(found, &boards[i].1) {
            None => {
                return Err(i);
            },
            Some(at) => {
                matched.push(found[at]);
            },
        }
        i += 1;
    }
    Ok(matched)
}

/// Whether a bus voltage in millivolts is that of a disarmed board.
pub fn disarmed_ok(millivolts: u16) -> (r: bool)
    ensures
        r == (millivolts <= DISARMED_MAX_MV),
{
    millivolts <= DISARMED_MAX_MV
}

/// Whether a bus voltage in millivolts is that of an armed board, which
/// shows at least `least` millivolts.
pub fn armed_ok(millivolts: u16, least: u16) -> (r: bool)
    ensures
        r == (millivolts >= least),
{
    millivolts >= least
}

/// Whether the continuity test loop has the voltage at which its readings
/// count: the last byte of the codes, in tenths of a volt.
pub fn loop_ok(codes: &[u8; 31]) -> (r: bool)
    ensures
        r == (codes@[30] >= LOOP_MIN_DV),
{
    codes[30] >= LOOP_MIN_DV
}

/// What is wrong with a slot of a board.
#[derive(Debug, PartialEq, Eq, Clone, Copy)]
pub enum SlotFault {
    /// The script has a channel in the slot, and nothing is connected.
    NotConnected,
    /// The script has no channel in the slot, and something is connected.
    Stray,
}

/// What is wrong with slot `num` of `board`, given the continuity codes of
/// the board and the channels of the script.
pub open spec fn slot_fault(channels: ChannelsView, board: Seq<char>, codes: Seq<u8>, num: int) -> Option<
    SlotFault,
> {
    let used = slot_taken(channels, board, num as u8);
    let open = codes[num - 1] == OPEN_CIRCUIT;
    if used && open {
        Some(SlotFault::NotConnected)
    } else if !used && !open {
        Some(SlotFault::Stray)
    } else {
        None
    }
}

/// The faults of the slots 1 to `upto` of `board`, by rising slot.
pub open spec fn faults_upto(channels: ChannelsView, board: Seq<char>, codes: Seq<u8>, upto: int) -> Seq<
    (u8, SlotFault),
>
    decreases upto,
{
    if upto <= 0 {
        Seq::empty()
    } else {
        match slot_fault(channels, board, codes, upto) {
            Some(fault) => faults_upto(channels, board, codes, upto - 1).push((upto as u8, fault)),
            None => faults_upto(channels, board, codes, upto - 1),
        }
    }
}

/// Holds the continuity codes of a board against the channels of the
/// script: every slot with a channel is to be connected, every other slot
/// is to be open.  Returns the slots that are not so.
pub fn continuity_faults(board_id: &String, codes: &[u8; 31], channels: &Vec<(String, (String, u8))>) -> (faults:
    Vec<(u8, SlotFault)>)
    ensures
        faults@ == faults_upto(channels_view(channels@), board_id@, codes@, SLOTS as int),
{
    let mut faults: Vec<(u8, SlotFault)> = Vec::new();
    let mut num: u8 = 1;
    while num <= 30
        invariant
            1 <= num <= 31,
            faults@ == faults_upto(channels_view(channels@), board_id@, codes@, num - 1),
        decreases 31 - num,
    {
        let used = slot_is_taken(channels, board_id, num);
        let open = codes[(num - 1) as usize] == OPEN_CIRCUIT;
        if used && open {
            faults.push((num, SlotFault::NotConnected));
        } else if !used && !open {
            faults.push((num, SlotFault::Stray));
        }
        num += 1;
    }
    faults
}

/// The slots of those of `names` that are channels on `board`, in the
/// order of the list.
pub open spec fn slots_on(channels: ChannelsView, names: Seq<Seq<char>>, board: Seq<char>) -> Seq<u8>
    decreases names.len(),
{
    if names.len() == 0 {
        Seq::empty()
    } else if board_of(channels, names.last()) == board {
        slots_on(channels, names.drop_last(), board).push(binding_of(channels, names.last()).1)
    } else {
        slots_on(channels, names.drop_last(), board)
    }
}

/// The boards that the channels `names` are on, each once, in the order in
/// which the list first comes to them.
pub open spec fn boards_on(channels: ChannelsView, names: Seq<Seq<char>>) -> Seq<Seq<char>>
    decreases names.len(),
{
    if names.len() == 0 {
        Seq::empty()
    } else if boards_on(channels, names.drop_last()).contains(board_of(channels, names.last())) {
        boards_on(channels, names.drop_last())
    } else {
        boards_on(channels, names.drop_last()).push(board_of(channels, names.last()))
    }
}

/// Whether a fire of `names` can be sent: every channel is declared, and
/// no board is asked for more than three.
pub open spec fn plannable(channels: ChannelsView, names: Seq<Seq<char>>) -> bool {
    &&& forall|p: int| 0 <= p < names.len() ==> has_channel(channels, #[trigger] names[p])
    &&& forall|board: Seq<char>| #[trigger] load(channels, names, board) <= MAX_PER_BOARD
}

/// The fire commands for a fire of `names`: one for each board that the
/// channels are on, with the slots of its channels in the order of the
/// list and zeros behind them.
pub open spec fn plan_of(channels: ChannelsView, names: Seq<Seq<char>>) -> Option<Seq<(Seq<char>, Seq<u8>)>> {
    if plannable(channels, names) {
        Some(
            Seq::new(
                boards_on(channels, names).len(),
                |g: int|
                    (
                        boards_on(channels, names)[g],
                        frame_of(slots_on(channels, names, boards_on(channels, names)[g]))->0,
                    ),
            ),
        )
    } else {
        None
    }
}

/// What [`fire_plan`] returns, as a mathematical value.
pub open spec fn plan_view(r: Option<Vec<(String, [u8; 3])>>) -> Option<Seq<(Seq<char>, Seq<u8>)>> {
    match r {
        Some(plan) => Some(Seq::new(plan@.len(), |g: int| (plan@[g].0@, plan@[g].1@))),
        None => None,
    }
}

/// A board has as many slots in the list as the list asks channels of it.
pub proof fn lemma_slots_count(channels: ChannelsView, names: Seq<Seq<char>>, board: Seq<char>)
    ensures
        slots_on(channels, names, board).len() == load(channels, names, board),
    decreases names.len(),
{
    if names.len() > 0 {
        lemma_slots_count(channels, names.drop_last(), board);
    }
}

/// A list asks nothing of a board that none of its channels is on.
pub proof fn lemma_untouched(channels: ChannelsView, names: Seq<Seq<char>>, board: Seq<char>)
    requires
        !boards_on(channels, names).contains(board),
    ensures
        load(channels, names, board) == 0,
    decreases names.len(),
{
    if names.len() > 0 {
        let front = boards_on(channels, names.drop_last());
        let b = board_of(channels, names.last());
        if front.contains(board) {
            let k = choose|k: int| 0 <= k < front.len() && front[k] == board;
            if !front.contains(b) {
                assert(front.push(b)[k] == board);
            }
            assert(boards_on(channels, names).contains(board));
        }
        if b == board {
            if !front.contains(b) {
                assert(front.push(b)[front.len() as int] == board);
            }
            assert(boards_on(channels, names).contains(board));
        }
        lemma_untouched(channels, names.drop_last(), board);
    }
}

/// Turns a fire of the channels `names` into the fire commands to send,
/// one for each board, or `None` where the fire cannot be sent.
pub fn fire_plan(names: &Vec<String>, channels: &Vec<(String, (String, u8))>) -> (r: Option<
    Vec<(String, [u8; 3])>,
>)
    ensures
        plan_view(r) == plan_of(channels_view(channels@), texts(names@)),
{
    let ghost cv = channels_view(channels@);
    let ghost nv = texts(names@);
    let n = names.len();
    let mut boards: Vec<String> = Vec::new();
    let mut i: usize = 0;
    while i < n
        invariant
            i <= n == names.len(),
            cv == channels_view(channels@),
            nv == texts(names@),
            forall|p: int| 0 <= p < i ==> has_channel(cv, #[trigger] nv[p]),
            texts(boards@) == boards_on(cv, nv.take(i as int)),
        decreases n - i,
    {
        proof {
            assert(nv.take(i + 1).drop_last() =~= nv.take(i as int));
            assert(nv.take(i + 1).last() == nv[i as int]);
            assert(texts(boards@).take(boards.len() as int) =~= texts(boards@));
        }
        match find_channel(channels, &names[i]) {
            None => {
                assert(!has_channel(cv, nv[i as int]));
                return None;
            },
            Some(k) => {
                if !listed(&boards, boards.len(), &channels[k].1.0) {
                    let ghost before = texts(boards@);
                    boards.push(channels[k].1.0.clone());
                    proof {
                        assert(texts(boards@) =~= before.push(board_of(cv, nv[i as int])));
                    }
                }
            },
        }
        i += 1;
    }
    proof {
        assert(nv.take(n as int) =~= nv);
    }
    let ghost bo = boards_on(cv, nv);
    let mut plan: Vec<(String, [u8; 3])> = Vec::new();
    let mut g: usize = 0;
    while g < boards.len()
        invariant
            g <= boards.len(),
            n == names.len(),
            cv == channels_view(channels@),
            nv == texts(names@),
            bo == boards_on(cv, nv),
            texts(boards@) == bo,
            forall|p: int| 0 <= p < n ==> has_channel(cv, #[trigger] nv[p]),
            plan.len() == g,
            forall|h: int|
                0 <= h < g ==> (#[trigger] plan@[h]).0@ == bo[h] && plan@[h].1@ == frame_of(
                    slots_on(cv, nv, bo[h]),
                )->0 && load(cv, nv, bo[h]) <= MAX_PER_BOARD,
        decreases boards.len() - g,
    {
        let mut slots: Vec<u8> = Vec::new();
        let mut p: usize = 0;
        assert(texts(boards@)[g as int] == boards@[g as int]@);
        while p < n
            invariant
                p <= n == names.len(),
                g < boards.len(),
                cv == channels_view(channels@),
                nv == texts(names@),
                boards@[g as int]@ == bo[g as int],
                forall|p: int| 0 <= p < n ==> has_channel(cv, #[trigger] nv[p]),
                slots@ == slots_on(cv, nv.take(p as int), bo[g as int]),
            decreases n - p,
        {
            proof {
                assert(nv.take(p + 1).drop_last() =~= nv.take(p as int));
                assert(nv.take(p + 1).last() == nv[p as int]);
                assert(has_channel(cv, nv[p as int]));
            }
            match find_channel(channels, &names[p]) {
                Some(k) => {
                    if channels[k].1.0 == boards[g] {
                        slots.push(channels[k].1.1);
                    }
                },
                None => {},
            }
            p += 1;
        }
        proof {
            assert(nv.take(n as int) =~= nv);
            lemma_slots_count(cv, nv, bo[g as int]);
        }
        match fire_frame(slots.as_slice()) {
            None => {
                return None;
            },
            Some(frame) => {
                plan.push((boards[g].clone(), frame));
            },
        }
        g += 1;
    }
    proof {
        assert forall|board: Seq<char>| #[trigger] load(cv, nv, board) <= MAX_PER_BOARD by {
            if bo.contains(board) {
                let h = choose|h: int| 0 <= h < bo.len() && bo[h] == board;
                assert(plan@[h].0@ == bo[h]);
            } else {
                lemma_untouched(cv, nv, board);
            }
        }
        assert(plan_view(Some(plan))->0 =~= plan_of(cv, nv)->0);
    }
    Some(plan)
}

/// Every fire of a valid script can be sent.
pub proof fn law_valid_fire_has_plan(script: ScriptView, i: int)
    requires
        script.valid(),
        0 <= i < script.cues.len(),
    ensures
        plan_of(script.channels, fire_names(script.cues[i])) is Some,
{
    let names = fire_names(script.cues[i]);
    assert forall|p: int| 0 <= p < names.len() implies has_channel(script.channels, #[trigger] names[p]) by {
        lemma_fired_in_holds(script.cues, i, p);
        let k = choose|k: int| 0 <= k < fired_in(script.cues).len() && fired_in(script.cues)[k] == names[p];
        assert(has_channel(script.channels, fired_in(script.cues)[k]));
    }
    assert forall|board: Seq<char>| #[trigger] load(script.channels, names, board) <= MAX_PER_BOARD by {
        assert(load(script.channels, fire_names(script.cues[i]), board) <= MAX_PER_BOARD);
    }
}

} // verus!
