//! The safety rules of a show script, as a state that takes one cue at a
//! time: what is declared so far, what has fired, and whether a fire is
//! allowed next.

use crate::cue::{Cue, CueView, ScriptError, ScriptErrorView, malformed};
use crate::text::texts;
use vstd::prelude::*;

verus! {

/// Declared boards in the order of their lines: id and hardware address.
pub type BoardsView = Seq<(Seq<char>, Seq<u8>)>;

/// Declared channels in the order of their lines: name, then board id and
/// slot.
pub type ChannelsView = Seq<(Seq<char>, (Seq<char>, u8))>;

/// The most channels that one fire may ask of one board.
pub const MAX_PER_BOARD: usize = 3;

/// The highest channel slot of a board; slots count from one.
pub const MAX_SLOT: u8 = 30;

/// Whether a board is declared under `id`.
pub open spec fn has_board(boards: BoardsView, id: Seq<char>) -> bool {
    exists|k: int| 0 <= k < boards.len() && (#[trigger] boards[k]).0 == id
}

/// Whether a board is declared with the hardware address `mac`.
pub open spec fn has_mac(boards: BoardsView, mac: Seq<u8>) -> bool {
    exists|k: int| 0 <= k < boards.len() && (#[trigger] boards[k]).1 == mac
}

/// Whether a channel is declared under `name`.
pub open spec fn has_channel(channels: ChannelsView, name: Seq<char>) -> bool {
    exists|k: int| 0 <= k < channels.len() && (#[trigger] channels[k]).0 == name
}

/// Whether some channel already holds slot `num` of board `board_id`.
pub open spec fn slot_taken(channels: ChannelsView, board_id: Seq<char>, num: u8) -> bool {
    exists|k: int| 0 <= k < channels.len() && (#[trigger] channels[k]).1 == (board_id, num)
}

/// The board and slot bound to `name`, by its latest declaration.
pub open spec fn binding_of(channels: ChannelsView, name: Seq<char>) -> (Seq<char>, u8)
    decreases channels.len(),
{
    if channels.len() == 0 {
        (Seq::empty(), 0)
    } else if channels.last().0 == name {
        channels.last().1
    } else {
        binding_of(channels.drop_last(), name)
    }
}

/// The board that the channel `name` is on.
pub open spec fn board_of(channels: ChannelsView, name: Seq<char>) -> Seq<char> {
    binding_of(channels, name).0
}

/// The first place at or after `from` in `names` whose channel has fired
/// before: in an earlier cue, or earlier in this list.
pub open spec fn first_refired(fired: Seq<Seq<char>>, names: Seq<Seq<char>>, from: int) -> Option<int>
    decreases names.len() - from,
{
    if from < 0 || from >= names.len() {
        None
    } else if fired.contains(names[from]) || names.take(from).contains(names[from]) {
        Some(from)
    } else {
        first_refired(fired, names, from + 1)
    }
}

/// The first place at or after `from` in `names` whose channel is not
/// declared.
pub open spec fn first_undeclared(channels: ChannelsView, names: Seq<Seq<char>>, from: int) -> Option<int>
    decreases names.len() - from,
{
    if from < 0 || from >= names.len() {
        None
    } else if !has_channel(channels, names[from]) {
        Some(from)
    } else {
        first_undeclared(channels, names, from + 1)
    }
}

/// How many of `names` are channels on `board`.
pub open spec fn load(channels: ChannelsView, names: Seq<Seq<char>>, board: Seq<char>) -> nat
    decreases names.len(),
{
    if names.len() == 0 {
        0
    } else {
        load(channels, names.drop_last(), board) + if board_of(channels, names.last()) == board {
            1nat
        } else {
            0nat
        }
    }
}

/// The first place at or after `from` in `names` with which the list so
/// far asks more than three channels of that channel's board.
pub open spec fn first_overloaded(channels: ChannelsView, names: Seq<Seq<char>>, from: int) -> Option<int>
    decreases names.len() - from,
{
    if from < 0 || from >= names.len() {
        None
    } else if load(channels, names.take(from + 1), board_of(channels, names[from])) > MAX_PER_BOARD {
        Some(from)
    } else {
        first_overloaded(channels, names, from + 1)
    }
}

/// The state of validation as a mathematical value.
pub struct ValidatorView {
    /// The cues accepted so far.
    pub cues: Seq<CueView>,
    /// The boards declared so far.
    pub boards: BoardsView,
    /// The channels declared so far.
    pub channels: ChannelsView,
    /// The seconds of all sleeps so far.
    pub duration: u64,
    /// The channels fired so far, in firing order.
    pub fired: Seq<Seq<char>>,
    /// Whether a sleep or pause has passed since the last fire.  True at
    /// the start: the first fire needs none before it.
    pub armed: bool,
}

/// The state before the first line.
pub open spec fn start() -> ValidatorView {
    ValidatorView {
        cues: Seq::empty(),
        boards: Seq::empty(),
        channels: Seq::empty(),
        duration: 0,
        fired: Seq::empty(),
        armed: true,
    }
}

/// Declaring a board: refused for an id already declared, then for a
/// hardware address already declared.
pub open spec fn declare_board(st: ValidatorView, board_id: Seq<char>, mac: Seq<u8>, lineno: usize) -> Result<
    ValidatorView,
    ScriptErrorView,
> {
    if has_board(st.boards, board_id) {
        Err(ScriptErrorView::DuplicateBoardId { lineno, board_id })
    } else if has_mac(st.boards, mac) {
        Err(ScriptErrorView::DuplicateBoardMac { lineno, mac_address: mac })
    } else {
        Ok(ValidatorView { boards: st.boards.push((board_id, mac)), ..st })
    }
}

/// Declaring a channel: refused for a name already declared, then for a
/// board and slot already taken, then for a board not declared, then for
/// a slot outside 1 to 30.
pub open spec fn declare_channel(
    st: ValidatorView,
    name: Seq<char>,
    board_id: Seq<char>,
    num: u8,
    lineno: usize,
) -> Result<ValidatorView, ScriptErrorView> {
    if has_channel(st.channels, name) {
        Err(ScriptErrorView::DuplicateChannel { lineno, name })
    } else if slot_taken(st.channels, board_id, num) {
        Err(ScriptErrorView::DuplicateChannelSlot { lineno, name })
    } else if !has_board(st.boards, board_id) {
        Err(ScriptErrorView::UnknownBoardId { lineno, board_id })
    } else if num == 0 || num > MAX_SLOT {
        Err(ScriptErrorView::InvalidChannelNum { lineno, num })
    } else {
        Ok(ValidatorView { channels: st.channels.push((name, (board_id, num))), ..st })
    }
}

/// Firing `names`: refused unless a sleep or pause has passed since the
/// last fire; then for the first listed channel that has fired before;
/// then for the first that is not declared; then for the first with which
/// a board is asked for more than three channels.  An accepted fire
/// records its channels as fired, and the next fire needs a sleep or pause
/// first.
pub open spec fn fire(st: ValidatorView, names: Seq<Seq<char>>, lineno: usize) -> Result<
    ValidatorView,
    ScriptErrorView,
> {
    if !st.armed {
        Err(ScriptErrorView::FireWithoutSleep { lineno })
    } else if let Some(i) = first_refired(st.fired, names, 0) {
        Err(ScriptErrorView::ChannelRefired { lineno, channel: names[i] })
    } else if let Some(i) = first_undeclared(st.channels, names, 0) {
        Err(ScriptErrorView::UndefinedChannel { lineno, channel: names[i] })
    } else if let Some(i) = first_overloaded(st.channels, names, 0) {
        Err(ScriptErrorView::ExcessChannelsPerBoard { lineno, board_id: board_of(st.channels, names[i]) })
    } else {
        Ok(ValidatorView { fired: st.fired + names, armed: false, ..st })
    }
}

/// Sleeping for `time` seconds: adds to the duration and lets a fire follow.
/// Refused only where the duration of the show would no longer fit in 64
/// bits.
pub open spec fn sleep(st: ValidatorView, time: u64, lineno: usize) -> Result<ValidatorView, ScriptErrorView> {
    if st.duration + time > u64::MAX {
        Err(malformed(lineno, "Invalid sleep time"@))
    } else {
        Ok(ValidatorView { duration: (st.duration + time) as u64, armed: true, ..st })
    }
}

/// What the rules say of `cue` in state `st`, the cue itself not yet
/// recorded.
pub open spec fn judge(st: ValidatorView, cue: CueView, lineno: usize) -> Result<ValidatorView, ScriptErrorView> {
    match cue {
        CueView::Board { board_id, mac_address } => declare_board(st, board_id, mac_address, lineno),
        CueView::Channel { name, board_id, num } => declare_channel(st, name, board_id, num, lineno),
        CueView::Fire { channels } => fire(st, channels, lineno),
        CueView::Sleep { time } => sleep(st, time, lineno),
        CueView::Pause => Ok(ValidatorView { armed: true, ..st }),
        CueView::Say { message } => Ok(st),
        CueView::Print { message } => Ok(st),
    }
}

/// The state after `cue` on line `lineno`, or the error that refuses it.
pub open spec fn accept(st: ValidatorView, cue: CueView, lineno: usize) -> Result<ValidatorView, ScriptErrorView> {
    match judge(st, cue, lineno) {
        Ok(next) => Ok(ValidatorView { cues: st.cues.push(cue), ..next }),
        Err(e) => Err(e),
    }
}

/// The boards of a script as a mathematical value.
pub open spec fn boards_view(v: Seq<(String, [u8; 6])>) -> BoardsView {
    Seq::new(v.len(), |k: int| (v[k].0@, v[k].1@))
}

/// The channels of a script as a mathematical value.
pub open spec fn channels_view(v: Seq<(String, (String, u8))>) -> ChannelsView {
    Seq::new(v.len(), |k: int| (v[k].0@, (v[k].1.0@, v[k].1.1)))
}

/// The cues of a script as a mathematical value.
pub open spec fn cues_view(v: Seq<Cue>) -> Seq<CueView> {
    Seq::new(v.len(), |k: int| v[k]@)
}

/// The state of validation: threaded through the lines of a script, one
/// cue at a time.
pub struct Validator {
    pub cues: Vec<Cue>,
    pub boards: Vec<(String, [u8; 6])>,
    pub channels: Vec<(String, (String, u8))>,
    pub duration: u64,
    pub fired: Vec<String>,
    pub armed: bool,
}

impl View for Validator {
    type V = ValidatorView;

    open spec fn view(&self) -> ValidatorView {
        ValidatorView {
            cues: cues_view(self.cues@),
            boards: boards_view(self.boards@),
            channels: channels_view(self.channels@),
            duration: self.duration,
            fired: texts(self.fired@),
            armed: self.armed,
        }
    }
}

/// The outcome of a step of validation as a mathematical value.
pub open spec fn step_outcome(r: Result<Validator, ScriptError>) -> Result<ValidatorView, ScriptErrorView> {
    match r {
        Ok(v) => Ok(v@),
        Err(e) => Err(e@),
    }
}

/// Whether two hardware addresses are the same.
pub fn same_mac(a: &[u8; 6], b: &[u8; 6]) -> (r: bool)
    ensures
        r == (a@ == b@),
{
    let r = a[0] == b[0] && a[1] == b[1] && a[2] == b[2] && a[3] == b[3] && a[4] == b[4] && a[5]
        == b[5];
    proof {
        if r {
            assert(a@ =~= b@);
        }
    }
    r
}

/// Whether `name` stands among the first `upto` of `names`.
pub fn listed(names: &Vec<String>, upto: usize, name: &String) -> (r: bool)
    requires
        upto <= names.len(),
    ensures
        r == texts(names@).take(upto as int).contains(name@),
{
    let mut k: usize = 0;
    while k < upto
        invariant
            k <= upto <= names.len(),
            forall|j: int| 0 <= j < k ==> texts(names@)[j] != name@,
        decreases upto - k,
    {
        if names[k] == *name {
            assert(texts(names@).take(upto as int)[k as int] == name@);
            return true;
        }
        k += 1;
    }
    false
}

/// Where the channel `name` is declared among `channels`, if it is.
pub fn find_channel(channels: &Vec<(String, (String, u8))>, name: &String) -> (r: Option<usize>)
    ensures
        r is Some == has_channel(channels_view(channels@), name@),
        r matches Some(k) ==> k < channels.len() && channels_view(channels@)[k as int].0 == name@
            && binding_of(channels_view(channels@), name@) == channels_view(channels@)[k as int].1,
{
    let ghost all = channels_view(channels@);
    let mut k: usize = channels.len();
    proof {
        assert(all.take(k as int) =~= all);
    }
    while k > 0
        invariant
            k <= channels.len(),
            all == channels_view(channels@),
            binding_of(all, name@) == binding_of(all.take(k as int), name@),
            forall|j: int| k <= j < all.len() ==> (#[trigger] all[j]).0 != name@,
        decreases k,
    {
        k -= 1;
        proof {
            assert(all.take(k + 1).last() == all[k as int]);
            assert(all.take(k + 1).drop_last() =~= all.take(k as int));
        }
        if channels[k].0 == *name {
            assert(all[k as int].0 == name@);
            return Some(k);
        }
    }
    None
}

/// Whether some channel among `channels` holds slot `num` of board
/// `board_id`.
pub fn slot_is_taken(channels: &Vec<(String, (String, u8))>, board_id: &String, num: u8) -> (r: bool)
    ensures
        r == slot_taken(channels_view(channels@), board_id@, num),
{
    let mut k: usize = 0;
    while k < channels.len()
        invariant
            k <= channels.len(),
            forall|j: int| 0 <= j < k ==> (#[trigger] channels_view(channels@)[j]).1 != (board_id@, num),
        decreases channels.len() - k,
    {
        if channels[k].1.0 == *board_id && channels[k].1.1 == num {
            assert(channels_view(channels@)[k as int].1 == (board_id@, num));
            return true;
        }
        k += 1;
    }
    false
}

impl Validator {
    /// The state before the first line.
    pub fn new() -> (v: Validator)
        ensures
            v@ == start(),
    {
        let v = Validator {
            cues: Vec::new(),
            boards: Vec::new(),
            channels: Vec::new(),
            duration: 0,
            fired: Vec::new(),
            armed: true,
        };
        proof {
            assert(v@.cues =~= start().cues);
            assert(v@.boards =~= start().boards);
            assert(v@.channels =~= start().channels);
            assert(v@.fired =~= start().fired);
        }
        v
    }

    /// Whether a board is declared under `id`.
    pub fn knows_board(&self, id: &String) -> (r: bool)
        ensures
            r == has_board(self@.boards, id@),
    {
        let mut k: usize = 0;
        while k < self.boards.len()
            invariant
                k <= self.boards.len(),
                forall|j: int| 0 <= j < k ==> (#[trigger] self@.boards[j]).0 != id@,
            decreases self.boards.len() - k,
        {
            if self.boards[k].0 == *id {
                assert(self@.boards[k as int].0 == id@);
                return true;
            }
            k += 1;
        }
        false
    }

    /// Whether a board is declared with the hardware address `mac`.
    pub fn knows_mac(&self, mac: &[u8; 6]) -> (r: bool)
        ensures
            r == has_mac(self@.boards, mac@),
    {
        let mut k: usize = 0;
        while k < self.boards.len()
            invariant
                k <= self.boards.len(),
                forall|j: int| 0 <= j < k ==> (#[trigger] self@.boards[j]).1 != mac@,
            decreases self.boards.len() - k,
        {
            if same_mac(&self.boards[k].1, mac) {
                assert(self@.boards[k as int].1 == mac@);
                return true;
            }
            k += 1;
        }
        false
    }

    /// Declares a board.
    pub fn declare_board(self, board_id: &String, mac: &[u8; 6], lineno: usize) -> (r: Result<
        Validator,
        ScriptError,
    >)
        ensures
            step_outcome(r) == declare_board(self@, board_id@, mac@, lineno),
    {
        if self.knows_board(board_id) {
            return Err(ScriptError::DuplicateBoardId { lineno: lineno, board_id: board_id.clone() });
        }
        if self.knows_mac(mac) {
            return Err(ScriptError::DuplicateBoardMac { lineno: lineno, mac_address: *mac });
        }
        let ghost before = self@;
        let mut next = self;
        next.boards.push((board_id.clone(), *mac));
        proof {
            assert(next@.boards =~= before.boards.push((board_id@, mac@)));
        }
        Ok(next)
    }

    /// Declares a channel.
    pub fn declare_channel(self, name: &String, board_id: &String, num: u8, lineno: usize) -> (r: Result<
        Validator,
        ScriptError,
    >)
        ensures
            step_outcome(r) == declare_channel(self@, name@, board_id@, num, lineno),
    {
        if find_channel(&self.channels, name).is_some() {
            return Err(ScriptError::DuplicateChannel { lineno: lineno, name: name.clone() });
        }
        if slot_is_taken(&self.channels, board_id, num) {
            return Err(ScriptError::DuplicateChannelSlot { lineno: lineno, name: name.clone() });
        }
        if !self.knows_board(board_id) {
            return Err(ScriptError::UnknownBoardId { lineno: lineno, board_id: board_id.clone() });
        }
        if num == 0 || num > MAX_SLOT {
            return Err(ScriptError::InvalidChannelNum { lineno: lineno, num: num });
        }
        let ghost before = self@;
        let mut next = self;
        next.channels.push((name.clone(), (board_id.clone(), num)));
        proof {
            assert(next@.channels =~= before.channels.push((name@, (board_id@, num))));
        }
        Ok(next)
    }

    /// Takes a sleep of `time` seconds.
    pub fn sleep(self, time: u64, lineno: usize) -> (r: Result<Validator, ScriptError>)
        ensures
            step_outcome(r) == sleep(self@, time, lineno),
    {
        if time > u64::MAX - self.duration {
            return ScriptError::parse_err(lineno, "Invalid sleep time");
        }
        let mut next = self;
        next.duration = next.duration + time;
        next.armed = true;
        Ok(next)
    }

    /// Takes a pause: a fire may follow.
    pub fn pause(self) -> (next: Validator)
        ensures
            next@ == (ValidatorView { armed: true, ..self@ }),
    {
        let mut next = self;
        next.armed = true;
        next
    }

    /// Takes a fire of the channels `names`.
    pub fn fire(self, names: &Vec<String>, lineno: usize) -> (r: Result<Validator, ScriptError>)
        ensures
            step_outcome(r) == fire(self@, texts(names@), lineno),
    {
        if !self.armed {
            return Err(ScriptError::FireWithoutSleep { lineno: lineno });
        }
        let n = names.len();
        let ghost st = self@;
        let ghost nv = texts(names@);
        let mut i: usize = 0;
        while i < n
            invariant
                i <= n == names.len(),
                nv == texts(names@),
                st == self@,
                st.armed,
                first_refired(st.fired, nv, 0) == first_refired(st.fired, nv, i as int),
            decreases n - i,
        {
            proof {
                assert(st.fired.take(self.fired.len() as int) =~= st.fired);
            }
            if listed(&self.fired, self.fired.len(), &names[i]) || listed(names, i, &names[i]) {
                return Err(ScriptError::ChannelRefired { lineno: lineno, channel: names[i].clone() });
            }
            i += 1;
        }
        i = 0;
        while i < n
            invariant
                i <= n == names.len(),
                nv == texts(names@),
                st == self@,
                st.armed,
                first_refired(st.fired, nv, 0) is None,
                first_undeclared(st.channels, nv, 0) == first_undeclared(st.channels, nv, i as int),
                forall|j: int| 0 <= j < i ==> has_channel(st.channels, #[trigger] nv[j]),
            decreases n - i,
        {
            if find_channel(&self.channels, &names[i]).is_none() {
                return Err(ScriptError::UndefinedChannel { lineno: lineno, channel: names[i].clone() });
            }
            i += 1;
        }
        i = 0;
        while i < n
            invariant
                i <= n == names.len(),
                nv == texts(names@),
                st == self@,
                st.armed,
                first_refired(st.fired, nv, 0) is None,
                first_undeclared(st.channels, nv, 0) is None,
                first_overloaded(st.channels, nv, 0) == first_overloaded(st.channels, nv, i as int),
                forall|j: int| 0 <= j < n ==> has_channel(st.channels, #[trigger] nv[j]),
            decreases n - i,
        {
            assert(has_channel(st.channels, nv[i as int]));
            let at = match find_channel(&self.channels, &names[i]) {
                Some(k) => k,
                None => 0,
            };
            let mut count: usize = 0;
            let mut j: usize = 0;
            while j <= i
                invariant
                    j <= i + 1 <= n == names.len(),
                    nv == texts(names@),
                    st == self@,
                    at < self.channels.len(),
                    st.channels[at as int].1.0 == board_of(st.channels, nv[i as int]),
                    count <= j,
                    count == load(st.channels, nv.take(j as int), board_of(st.channels, nv[i as int])),
                    forall|j: int| 0 <= j < n ==> has_channel(st.channels, #[trigger] nv[j]),
                decreases i + 1 - j,
            {
                proof {
                    assert(nv.take(j + 1).drop_last() =~= nv.take(j as int));
                    assert(nv.take(j + 1).last() == nv[j as int]);
                    assert(has_channel(st.channels, nv[j as int]));
                }
                match find_channel(&self.channels, &names[j]) {
                    Some(k) => {
                        if self.channels[k].1.0 == self.channels[at].1.0 {
                            count += 1;
                        }
                    },
                    None => {},
                }
                j += 1;
            }
            if count > MAX_PER_BOARD {
                return Err(
                    ScriptError::ExcessChannelsPerBoard {
                        lineno: lineno,
                        board_id: self.channels[at].1.0.clone(),
                    },
                );
            }
            i += 1;
        }
        let mut next = self;
        let mut k: usize = 0;
        while k < n
            invariant
                k <= n == names.len(),
                nv == texts(names@),
                next@.cues == st.cues,
                next@.boards == st.boards,
                next@.channels == st.channels,
                next@.duration == st.duration,
                next@.fired == st.fired + nv.take(k as int),
            decreases n - k,
        {
            let ghost before = next@.fired;
            next.fired.push(names[k].clone());
            proof {
                assert(next@.fired =~= before.push(nv[k as int]));
                assert(st.fired + nv.take(k + 1) =~= (st.fired + nv.take(k as int)).push(nv[k as int]));
            }
            k += 1;
        }
        next.armed = false;
        proof {
            assert(nv.take(n as int) =~= nv);
        }
        Ok(next)
    }

    /// Takes the cue of line `lineno`: the state with the cue recorded, or
    /// the error that refuses the script.
    pub fn accept(self, cue: Cue, lineno: usize) -> (r: Result<Validator, ScriptError>)
        ensures
            step_outcome(r) == accept(self@, cue@, lineno),
    {
        let ghost st = self@;
        let judged = match &cue {
            Cue::Board { board_id, mac_address } => self.declare_board(board_id, mac_address, lineno),
            Cue::Channel { name, board_id, num } => self.declare_channel(name, board_id, *num, lineno),
            Cue::Fire { channels } => self.fire(channels, lineno),
            Cue::Sleep { time } => self.sleep(*time, lineno),
            Cue::Pause => Ok(self.pause()),
            Cue::Say { message } => Ok(self),
            Cue::Print { message } => Ok(self),
        };
        assert(step_outcome(judged) == judge(st, cue@, lineno));
        match judged {
            Ok(v) => {
                let ghost before = v@;
                let ghost c = cue@;
                let mut next = v;
                next.cues.push(cue);
                proof {
                    assert(next@.cues =~= before.cues.push(c));
                    assert(before.cues == st.cues);
                }
                Ok(next)
            },
            Err(e) => Err(e),
        }
    }
}

} // verus!
