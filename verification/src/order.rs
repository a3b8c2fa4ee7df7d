//! What holds of every script that the rules accept, and the proof that
//! each accepted cue keeps it so.

use crate::cue::CueView;
use crate::validate::{
    accept, binding_of, board_of, first_overloaded, first_refired, first_undeclared, has_board,
    has_channel, load, start, BoardsView, ChannelsView, ValidatorView, MAX_PER_BOARD, MAX_SLOT,
};
use vstd::prelude::*;

verus! {

/// The seconds of all sleeps among `cues`.
pub open spec fn sleep_total(cues: Seq<CueView>) -> nat
    decreases cues.len(),
{
    if cues.len() == 0 {
        0
    } else {
        sleep_total(cues.drop_last()) + match cues.last() {
            CueView::Sleep { time } => time as nat,
            _ => 0nat,
        }
    }
}

/// The boards that `cues` declare, in order.
pub open spec fn boards_in(cues: Seq<CueView>) -> BoardsView
    decreases cues.len(),
{
    if cues.len() == 0 {
        Seq::empty()
    } else {
        match cues.last() {
            CueView::Board { board_id, mac_address } => boards_in(cues.drop_last()).push(
                (board_id, mac_address),
            ),
            _ => boards_in(cues.drop_last()),
        }
    }
}

/// The channels that `cues` declare, in order.
pub open spec fn channels_in(cues: Seq<CueView>) -> ChannelsView
    decreases cues.len(),
{
    if cues.len() == 0 {
        Seq::empty()
    } else {
        match cues.last() {
            CueView::Channel { name, board_id, num } => channels_in(cues.drop_last()).push(
                (name, (board_id, num)),
            ),
            _ => channels_in(cues.drop_last()),
        }
    }
}

/// The channels that a cue fires: none unless it is a fire.
pub open spec fn fire_names(cue: CueView) -> Seq<Seq<char>> {
    match cue {
        CueView::Fire { channels } => channels,
        _ => Seq::empty(),
    }
}

/// Every channel that `cues` fire, in firing order.
pub open spec fn fired_in(cues: Seq<CueView>) -> Seq<Seq<char>>
    decreases cues.len(),
{
    if cues.len() == 0 {
        Seq::empty()
    } else {
        fired_in(cues.drop_last()) + fire_names(cues.last())
    }
}

/// Whether a cue is a sleep or a pause.
pub open spec fn is_rest(cue: CueView) -> bool {
    cue is Sleep || cue is Pause
}

/// Whether a fire may follow `cues`: there is no fire among them, or a
/// sleep or pause follows the last one.
pub open spec fn armed_after(cues: Seq<CueView>) -> bool
    decreases cues.len(),
{
    if cues.len() == 0 {
        true
    } else if cues.last() is Fire {
        false
    } else if is_rest(cues.last()) {
        true
    } else {
        armed_after(cues.drop_last())
    }
}

/// Whether between any two fires of `cues` there is a sleep or a pause.
pub open spec fn paced(cues: Seq<CueView>) -> bool {
    forall|i: int, j: int|
        0 <= i < j < cues.len() && (#[trigger] cues[i]) is Fire && (#[trigger] cues[j]) is Fire
            ==> exists|k: int| i < k < j && is_rest(#[trigger] cues[k])
}

/// Whether no board id and no hardware address is declared twice.
pub open spec fn distinct_boards(boards: BoardsView) -> bool {
    forall|i: int, j: int|
        0 <= i < j < boards.len() ==> (#[trigger] boards[i]).0 != (#[trigger] boards[j]).0
            && boards[i].1 != boards[j].1
}

/// Whether no channel name and no board slot is declared twice, and every
/// channel is on a declared board, in a slot from 1 to 30.
pub open spec fn sound_channels(boards: BoardsView, channels: ChannelsView) -> bool {
    &&& forall|i: int, j: int|
        0 <= i < j < channels.len() ==> (#[trigger] channels[i]).0 != (#[trigger] channels[j]).0
            && channels[i].1 != channels[j].1
    &&& forall|i: int|
        0 <= i < channels.len() ==> has_board(boards, (#[trigger] channels[i]).1.0) && 1
            <= channels[i].1.1 <= MAX_SLOT
}

/// Whether no cue asks more than three channels of any one board.
pub open spec fn light(channels: ChannelsView, cues: Seq<CueView>) -> bool {
    forall|i: int, board: Seq<char>|
        0 <= i < cues.len() ==> #[trigger] load(channels, fire_names(cues[i]), board)
            <= MAX_PER_BOARD
}

/// What holds of the parts of every compiled script.
pub open spec fn sound(cues: Seq<CueView>, boards: BoardsView, channels: ChannelsView, duration: u64) -> bool {
    &&& boards == boards_in(cues)
    &&& channels == channels_in(cues)
    &&& duration == sleep_total(cues)
    &&& paced(cues)
    &&& distinct_boards(boards)
    &&& sound_channels(boards, channels)
    &&& fired_in(cues).no_duplicates()
    &&& forall|k: int| 0 <= k < fired_in(cues).len() ==> has_channel(channels, #[trigger] fired_in(cues)[k])
    &&& light(channels, cues)
}

/// What holds of every state that validation reaches.
pub open spec fn orderly(st: ValidatorView) -> bool {
    &&& sound(st.cues, st.boards, st.channels, st.duration)
    &&& st.fired == fired_in(st.cues)
    &&& st.armed == armed_after(st.cues)
}

/// Where no listed channel has fired before, none of them has fired in an
/// earlier cue and none is listed twice.
pub proof fn lemma_none_refired(fired: Seq<Seq<char>>, names: Seq<Seq<char>>, from: int)
    requires
        0 <= from,
        first_refired(fired, names, from) is None,
    ensures
        forall|p: int|
            from <= p < names.len() ==> !fired.contains(#[trigger] names[p]) && !names.take(p).contains(
                names[p],
            ),
    decreases names.len() - from,
{
    if from < names.len() {
        lemma_none_refired(fired, names, from + 1);
    }
}

/// Where no listed channel is undeclared, all are declared.
pub proof fn lemma_none_undeclared(channels: ChannelsView, names: Seq<Seq<char>>, from: int)
    requires
        0 <= from,
        first_undeclared(channels, names, from) is None,
    ensures
        forall|p: int| from <= p < names.len() ==> has_channel(channels, #[trigger] names[p]),
    decreases names.len() - from,
{
    if from < names.len() {
        lemma_none_undeclared(channels, names, from + 1);
    }
}

/// Where no place in the list overloads its board, no beginning of the
/// list does.
pub proof fn lemma_none_overloaded_at(channels: ChannelsView, names: Seq<Seq<char>>, from: int)
    requires
        0 <= from,
        first_overloaded(channels, names, from) is None,
    ensures
        forall|p: int|
            from <= p < names.len() ==> load(
                channels,
                #[trigger] names.take(p + 1),
                board_of(channels, names[p]),
            ) <= MAX_PER_BOARD,
    decreases names.len() - from,
{
    if from < names.len() {
        lemma_none_overloaded_at(channels, names, from + 1);
    }
}

/// Where no place in the list overloads its board, the first `upto` names
/// ask at most three channels of any board.
pub proof fn lemma_none_overloaded(channels: ChannelsView, names: Seq<Seq<char>>, upto: int, board: Seq<char>)
    requires
        0 <= upto <= names.len(),
        first_overloaded(channels, names, 0) is None,
    ensures
        load(channels, names.take(upto), board) <= MAX_PER_BOARD,
    decreases upto,
{
    if upto > 0 {
        lemma_none_overloaded(channels, names, upto - 1, board);
        lemma_none_overloaded_at(channels, names, 0);
        assert(names.take(upto).drop_last() =~= names.take(upto - 1));
        assert(names.take(upto).last() == names[upto - 1]);
        assert(names.take((upto - 1) + 1) == names.take(upto));
    }
}

/// A later declaration under another name leaves a channel where it is.
pub proof fn lemma_binding_stays(channels: ChannelsView, entry: (Seq<char>, (Seq<char>, u8)), name: Seq<char>)
    requires
        name != entry.0,
    ensures
        binding_of(channels.push(entry), name) == binding_of(channels, name),
{
    assert(channels.push(entry).drop_last() =~= channels);
}

/// A later declaration under a new name leaves the load of a list of
/// declared channels as it is.
pub proof fn lemma_load_stays(
    channels: ChannelsView,
    entry: (Seq<char>, (Seq<char>, u8)),
    names: Seq<Seq<char>>,
    board: Seq<char>,
)
    requires
        !has_channel(channels, entry.0),
        forall|p: int| 0 <= p < names.len() ==> has_channel(channels, #[trigger] names[p]),
    ensures
        load(channels.push(entry), names, board) == load(channels, names, board),
    decreases names.len(),
{
    if names.len() > 0 {
        let front = names.drop_last();
        assert forall|p: int| 0 <= p < front.len() implies has_channel(channels, #[trigger] front[p]) by {
            assert(front[p] == names[p]);
        }
        lemma_load_stays(channels, entry, front, board);
        assert(has_channel(channels, names[names.len() - 1]));
        lemma_binding_stays(channels, entry, names.last());
    }
}

/// Each channel of each fire is among the channels fired.
pub proof fn lemma_fired_in_holds(cues: Seq<CueView>, i: int, p: int)
    requires
        0 <= i < cues.len(),
        0 <= p < fire_names(cues[i]).len(),
    ensures
        fired_in(cues).contains(fire_names(cues[i])[p]),
    decreases cues.len(),
{
    let front = fired_in(cues.drop_last());
    let back = fire_names(cues.last());
    if i == cues.len() - 1 {
        assert((front + back)[front.len() + p] == back[p]);
    } else {
        lemma_fired_in_holds(cues.drop_last(), i, p);
        let k = choose|k: int| 0 <= k < front.len() && front[k] == fire_names(cues[i])[p];
        assert((front + back)[k] == front[k]);
    }
}

/// The state before the first line is in order.
pub proof fn lemma_start_orderly()
    ensures
        orderly(start()),
{
    let st = start();
    assert(fired_in(st.cues) =~= Seq::<Seq<char>>::empty());
}

/// Where a fire may follow `cues`, a sleep or pause stands behind every
/// fire among them.
pub proof fn lemma_rest_after_fire(cues: Seq<CueView>, i: int)
    requires
        0 <= i < cues.len(),
        cues[i] is Fire,
        armed_after(cues),
    ensures
        exists|k: int| i < k < cues.len() && is_rest(#[trigger] cues[k]),
    decreases cues.len(),
{
    let last = cues.len() - 1;
    if is_rest(cues[last]) {
        assert(i < last && is_rest(cues[last]));
    } else {
        lemma_rest_after_fire(cues.drop_last(), i);
        let k = choose|k: int| i < k < cues.drop_last().len() && is_rest(#[trigger] cues.drop_last()[k]);
        assert(cues[k] == cues.drop_last()[k]);
        assert(i < k < cues.len() && is_rest(cues[k]));
    }
}

/// A further cue keeps the fires paced, if it is no fire or a fire may
/// follow.
pub proof fn lemma_paced_push(cues: Seq<CueView>, cue: CueView)
    requires
        paced(cues),
        cue is Fire ==> armed_after(cues),
    ensures
        paced(cues.push(cue)),
{
    let more = cues.push(cue);
    assert forall|i: int, j: int|
        0 <= i < j < more.len() && (#[trigger] more[i]) is Fire && (#[trigger] more[j]) is Fire implies exists|
        k: int,
    | i < k < j && is_rest(#[trigger] more[k]) by {
        if j < cues.len() {
            assert(cues[i] is Fire && cues[j] is Fire);
            let k = choose|k: int| i < k < j && is_rest(#[trigger] cues[k]);
            assert(more[k] == cues[k]);
            assert(i < k < j && is_rest(more[k]));
        } else {
            assert(cues[i] is Fire);
            lemma_rest_after_fire(cues, i);
            let k = choose|k: int| i < k < cues.len() && is_rest(#[trigger] cues[k]);
            assert(more[k] == cues[k]);
            assert(i < k < j && is_rest(more[k]));
        }
    }
}

/// A further cue that asks at most three channels of any board keeps
/// every cue within that limit.
pub proof fn lemma_light_push(channels: ChannelsView, cues: Seq<CueView>, cue: CueView)
    requires
        light(channels, cues),
        forall|board: Seq<char>| #[trigger] load(channels, fire_names(cue), board) <= MAX_PER_BOARD,
    ensures
        light(channels, cues.push(cue)),
{
    let more = cues.push(cue);
    assert forall|i: int, board: Seq<char>| 0 <= i < more.len() implies #[trigger] load(
        channels,
        fire_names(more[i]),
        board,
    ) <= MAX_PER_BOARD by {
        if i < cues.len() {
            assert(more[i] == cues[i]);
            assert(load(channels, fire_names(cues[i]), board) <= MAX_PER_BOARD);
        }
    }
}

/// A channel declared under a new name leaves every cue within the
/// limit.
pub proof fn lemma_light_new_channel(
    channels: ChannelsView,
    entry: (Seq<char>, (Seq<char>, u8)),
    cues: Seq<CueView>,
)
    requires
        light(channels, cues),
        !has_channel(channels, entry.0),
        forall|k: int| 0 <= k < fired_in(cues).len() ==> has_channel(channels, #[trigger] fired_in(cues)[k]),
    ensures
        light(channels.push(entry), cues),
{
    assert forall|i: int, board: Seq<char>| 0 <= i < cues.len() implies #[trigger] load(
        channels.push(entry),
        fire_names(cues[i]),
        board,
    ) <= MAX_PER_BOARD by {
        let names = fire_names(cues[i]);
        assert forall|p: int| 0 <= p < names.len() implies has_channel(channels, #[trigger] names[p]) by {
            lemma_fired_in_holds(cues, i, p);
            let k = choose|k: int| 0 <= k < fired_in(cues).len() && fired_in(cues)[k] == names[p];
            assert(has_channel(channels, fired_in(cues)[k]));
        }
        lemma_load_stays(channels, entry, names, board);
        assert(load(channels, fire_names(cues[i]), board) <= MAX_PER_BOARD);
    }
}

/// Channels that have not fired before, and are listed once each, fire
/// without any channel firing twice.
pub proof fn lemma_fired_once(fired: Seq<Seq<char>>, names: Seq<Seq<char>>)
    requires
        fired.no_duplicates(),
        first_refired(fired, names, 0) is None,
    ensures
        (fired + names).no_duplicates(),
{
    let all = fired + names;
    lemma_none_refired(fired, names, 0);
    assert forall|i: int, j: int| 0 <= i < all.len() && 0 <= j < all.len() && i != j implies all[i]
        != all[j] by {
        let (a, b) = if i < j {
            (i, j)
        } else {
            (j, i)
        };
        if b < fired.len() {
            assert(all[a] == fired[a] && all[b] == fired[b]);
        } else {
            let q = b - fired.len();
            assert(all[b] == names[q]);
            assert(!fired.contains(names[q]) && !names.take(q).contains(names[q]));
            if a < fired.len() {
                assert(all[a] == fired[a]);
                assert(fired.contains(fired[a]));
            } else {
                let p = a - fired.len();
                assert(all[a] == names[p]);
                assert(names.take(q)[p] == names[p]);
                assert(names.take(q).contains(names[p]));
            }
        }
    }
}

/// A declared channel stays declared when another is declared.
pub proof fn lemma_has_channel_stays(channels: ChannelsView, entry: (Seq<char>, (Seq<char>, u8)), name: Seq<char>)
    requires
        has_channel(channels, name),
    ensures
        has_channel(channels.push(entry), name),
{
    let k = choose|k: int| 0 <= k < channels.len() && (#[trigger] channels[k]).0 == name;
    assert(channels.push(entry)[k] == channels[k]);
}

/// A declared board stays declared when another is declared.
pub proof fn lemma_has_board_stays(boards: BoardsView, entry: (Seq<char>, Seq<u8>), id: Seq<char>)
    requires
        has_board(boards, id),
    ensures
        has_board(boards.push(entry), id),
{
    let k = choose|k: int| 0 <= k < boards.len() && (#[trigger] boards[k]).0 == id;
    assert(boards.push(entry)[k] == boards[k]);
}

/// Every cue that the rules accept leaves the state in order.
pub proof fn lemma_accept_keeps_order(st: ValidatorView, cue: CueView, lineno: usize)
    requires
        orderly(st),
        accept(st, cue, lineno) is Ok,
    ensures
        orderly(accept(st, cue, lineno)->Ok_0),
{
    let next = accept(st, cue, lineno)->Ok_0;
    let more = st.cues.push(cue);
    assert(more.drop_last() =~= st.cues);
    assert(more.last() == cue);
    assert(next.cues == more);
    match cue {
        CueView::Board { board_id, mac_address } => {
            let entry = (board_id, mac_address);
            assert(next.boards == st.boards.push(entry));
            assert(fired_in(more) =~= fired_in(st.cues));
            lemma_paced_push(st.cues, cue);
            assert forall|board: Seq<char>| #[trigger]
                load(st.channels, fire_names(cue), board) <= MAX_PER_BOARD by {}
            lemma_light_push(st.channels, st.cues, cue);
            assert forall|i: int, j: int| 0 <= i < j < next.boards.len() implies (#[trigger] next.boards[i]).0
                != (#[trigger] next.boards[j]).0 && next.boards[i].1 != next.boards[j].1 by {
                if j == st.boards.len() {
                    assert(next.boards[i] == st.boards[i]);
                } else {
                    assert(next.boards[i] == st.boards[i] && next.boards[j] == st.boards[j]);
                }
            }
            assert forall|i: int| 0 <= i < st.channels.len() implies has_board(
                next.boards,
                (#[trigger] st.channels[i]).1.0,
            ) by {
                lemma_has_board_stays(st.boards, entry, st.channels[i].1.0);
            }
        },
        CueView::Channel { name, board_id, num } => {
            let entry = (name, (board_id, num));
            assert(next.channels == st.channels.push(entry));
            assert(fired_in(more) =~= fired_in(st.cues));
            lemma_paced_push(st.cues, cue);
            lemma_light_new_channel(st.channels, entry, st.cues);
            assert forall|board: Seq<char>| #[trigger]
                load(next.channels, fire_names(cue), board) <= MAX_PER_BOARD by {}
            lemma_light_push(next.channels, st.cues, cue);
            assert forall|i: int, j: int| 0 <= i < j < next.channels.len() implies (
            #[trigger] next.channels[i]).0 != (#[trigger] next.channels[j]).0 && next.channels[i].1
                != next.channels[j].1 by {
                if j == st.channels.len() {
                    assert(next.channels[i] == st.channels[i]);
                } else {
                    assert(next.channels[i] == st.channels[i] && next.channels[j] == st.channels[j]);
                }
            }
            assert forall|i: int| 0 <= i < next.channels.len() implies has_board(
                next.boards,
                (#[trigger] next.channels[i]).1.0,
            ) && 1 <= next.channels[i].1.1 <= MAX_SLOT by {
                if i < st.channels.len() {
                    assert(next.channels[i] == st.channels[i]);
                }
            }
            assert forall|k: int| 0 <= k < fired_in(more).len() implies has_channel(
                next.channels,
                #[trigger] fired_in(more)[k],
            ) by {
                lemma_has_channel_stays(st.channels, entry, fired_in(st.cues)[k]);
            }
        },
        CueView::Fire { channels } => {
            assert(fired_in(more) == st.fired + channels);
            lemma_fired_once(st.fired, channels);
            lemma_none_undeclared(st.channels, channels, 0);
            lemma_paced_push(st.cues, cue);
            assert forall|board: Seq<char>| #[trigger]
                load(st.channels, fire_names(cue), board) <= MAX_PER_BOARD by {
                lemma_none_overloaded(st.channels, channels, channels.len() as int, board);
                assert(channels.take(channels.len() as int) =~= channels);
            }
            lemma_light_push(st.channels, st.cues, cue);
            assert forall|k: int| 0 <= k < fired_in(more).len() implies has_channel(
                next.channels,
                #[trigger] fired_in(more)[k],
            ) by {
                if k < st.fired.len() {
                    assert(fired_in(more)[k] == st.fired[k]);
                } else {
                    assert(fired_in(more)[k] == channels[k - st.fired.len()]);
                }
            }
        },
        _ => {
            assert(fired_in(more) =~= fired_in(st.cues));
            lemma_paced_push(st.cues, cue);
            assert forall|board: Seq<char>| #[trigger]
                load(st.channels, fire_names(cue), board) <= MAX_PER_BOARD by {}
            lemma_light_push(st.channels, st.cues, cue);
        },
    }
}

} // verus!
