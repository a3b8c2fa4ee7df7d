//! The cues a show script is made of, the errors that refuse a script, and
//! the reading of a single line.

use crate::text::{
    as_spans, chars_of, copy_range, find_words, mac_of, number_up_to, parse_mac, parse_number, spans,
    spells, texts, words,
};
use vstd::prelude::*;

verus! {

/// Why a script was refused.  `lineno` counts lines from one.
#[derive(Debug, PartialEq)]
pub enum ScriptError {
    /// The line is malformed: wrong number of words, or a number or
    /// hardware address that cannot be read.
    Parse { lineno: usize, error: &'static str },
    /// A second board under an id already declared.
    DuplicateBoardId { lineno: usize, board_id: String },
    /// A second board with a hardware address already declared.
    DuplicateBoardMac { lineno: usize, mac_address: [u8; 6] },
    /// A second channel under a name already declared.
    DuplicateChannel { lineno: usize, name: String },
    /// A channel on a board and slot that another channel already holds.
    DuplicateChannelSlot { lineno: usize, name: String },
    /// A channel slot outside 1 to 30.
    InvalidChannelNum { lineno: usize, num: u8 },
    /// A channel on a board that was not declared.
    UnknownBoardId { lineno: usize, board_id: String },
    /// A channel fired a second time.
    ChannelRefired { lineno: usize, channel: String },
    /// A fire of a channel that was not declared.
    UndefinedChannel { lineno: usize, channel: String },
    /// A fire that asks more than three channels of one board at once.
    ExcessChannelsPerBoard { lineno: usize, board_id: String },
    /// A fire with no sleep or pause since the fire before it.
    FireWithoutSleep { lineno: usize },
}

/// [`ScriptError`] as a mathematical value.
pub enum ScriptErrorView {
    Parse { lineno: usize, error: Seq<char> },
    DuplicateBoardId { lineno: usize, board_id: Seq<char> },
    DuplicateBoardMac { lineno: usize, mac_address: Seq<u8> },
    DuplicateChannel { lineno: usize, name: Seq<char> },
    DuplicateChannelSlot { lineno: usize, name: Seq<char> },
    InvalidChannelNum { lineno: usize, num: u8 },
    UnknownBoardId { lineno: usize, board_id: Seq<char> },
    ChannelRefired { lineno: usize, channel: Seq<char> },
    UndefinedChannel { lineno: usize, channel: Seq<char> },
    ExcessChannelsPerBoard { lineno: usize, board_id: Seq<char> },
    FireWithoutSleep { lineno: usize },
}

impl View for ScriptError {
    type V = ScriptErrorView;

    open spec fn view(&self) -> ScriptErrorView {
        match *self {
            ScriptError::Parse { lineno, error } => ScriptErrorView::Parse { lineno, error: error@ },
            ScriptError::DuplicateBoardId { lineno, board_id } => ScriptErrorView::DuplicateBoardId {
                lineno,
                board_id: board_id@,
            },
            ScriptError::DuplicateBoardMac { lineno, mac_address } => ScriptErrorView::DuplicateBoardMac {
                lineno,
                mac_address: mac_address@,
            },
            ScriptError::DuplicateChannel { lineno, name } => ScriptErrorView::DuplicateChannel {
                lineno,
                name: name@,
            },
            ScriptError::DuplicateChannelSlot { lineno, name } => ScriptErrorView::DuplicateChannelSlot {
                lineno,
                name: name@,
            },
            ScriptError::InvalidChannelNum { lineno, num } => ScriptErrorView::InvalidChannelNum {
                lineno,
                num,
            },
            ScriptError::UnknownBoardId { lineno, board_id } => ScriptErrorView::UnknownBoardId {
                lineno,
                board_id: board_id@,
            },
            ScriptError::ChannelRefired { lineno, channel } => ScriptErrorView::ChannelRefired {
                lineno,
                channel: channel@,
            },
            ScriptError::UndefinedChannel { lineno, channel } => ScriptErrorView::UndefinedChannel {
                lineno,
                channel: channel@,
            },
            ScriptError::ExcessChannelsPerBoard {
                lineno,
                board_id,
            } => ScriptErrorView::ExcessChannelsPerBoard { lineno, board_id: board_id@ },
            ScriptError::FireWithoutSleep { lineno } => ScriptErrorView::FireWithoutSleep { lineno },
        }
    }
}

pub type ScriptResult<T> = Result<T, ScriptError>;

/// The malformed-line error for line `lineno` with the message `error`.
pub open spec fn malformed(lineno: usize, error: Seq<char>) -> ScriptErrorView {
    ScriptErrorView::Parse { lineno, error }
}

impl ScriptError {
    /// Refuses line `lineno` as malformed, with the message `error`.
    pub fn parse_err<T>(lineno: usize, error: &'static str) -> (r: ScriptResult<T>)
        ensures
            r matches Err(e) && e@ == malformed(lineno, error@),
    {
        Err(ScriptError::Parse { lineno: lineno, error: error })
    }

    /// Refuses line `lineno` for its number of words.
    pub fn parse_err_numargs<T>(lineno: usize) -> (r: ScriptResult<T>)
        ensures
            r matches Err(e) && e@ == malformed(lineno, "Wrong number of arguments"@),
    {
        Err(ScriptError::Parse { lineno: lineno, error: "Wrong number of arguments" })
    }
}

/// One instruction of a show, in the order of its line in the script.
#[derive(Debug, PartialEq)]
pub enum Cue {
    /// Declares a board by its hardware address.
    Board { board_id: String, mac_address: [u8; 6] },
    /// Names slot `num` of a board.
    Channel { name: String, board_id: String, num: u8 },
    /// Fires the named channels at once.
    Fire { channels: Vec<String> },
    /// Speaks a message.
    Say { message: String },
    /// Prints a message.
    Print { message: String },
    /// Waits for `time` seconds.
    Sleep { time: u64 },
    /// Waits for the operator.
    Pause,
}

/// [`Cue`] as a mathematical value.
pub enum CueView {
    Board { board_id: Seq<char>, mac_address: Seq<u8> },
    Channel { name: Seq<char>, board_id: Seq<char>, num: u8 },
    Fire { channels: Seq<Seq<char>> },
    Say { message: Seq<char> },
    Print { message: Seq<char> },
    Sleep { time: u64 },
    Pause,
}

impl View for Cue {
    type V = CueView;

    open spec fn view(&self) -> CueView {
        match *self {
            Cue::Board { board_id, mac_address } => CueView::Board {
                board_id: board_id@,
                mac_address: mac_address@,
            },
            Cue::Channel { name, board_id, num } => CueView::Channel {
                name: name@,
                board_id: board_id@,
                num,
            },
            Cue::Fire { channels } => CueView::Fire { channels: texts(channels@) },
            Cue::Say { message } => CueView::Say { message: message@ },
            Cue::Print { message } => CueView::Print { message: message@ },
            Cue::Sleep { time } => CueView::Sleep { time },
            Cue::Pause => CueView::Pause,
        }
    }
}

/// What a `say` or `print` line carries: nothing where the line has no
/// second word, else all that follows the keyword and the one white-space
/// character behind it, up to the end of the line.
pub open spec fn message_of(line: Seq<char>) -> Seq<char> {
    if spans(line).len() < 2 {
        Seq::empty()
    } else {
        line.subrange(spans(line)[0].1 + 1, line.len() as int)
    }
}

/// What line number `lineno` with the text `line` means: no cue for a line
/// without words or with `#` as its first word, else the cue that its
/// first word names, or the error for a line that is malformed.
pub open spec fn parse_line(line: Seq<char>, lineno: usize) -> Result<Option<CueView>, ScriptErrorView> {
    let w = words(line);
    if w.len() == 0 || w[0] == "#"@ {
        Ok(None)
    } else if w[0] == "say"@ {
        Ok(Some(CueView::Say { message: message_of(line) }))
    } else if w[0] == "print"@ {
        Ok(Some(CueView::Print { message: message_of(line) }))
    } else if w[0] == "sleep"@ {
        if w.len() != 2 {
            Err(malformed(lineno, "Wrong number of arguments"@))
        } else {
            match number_up_to(w[1], 10, u64::MAX as nat) {
                Some(time) => Ok(Some(CueView::Sleep { time: time as u64 })),
                None => Err(malformed(lineno, "Invalid sleep time"@)),
            }
        }
    } else if w[0] == "board"@ {
        if w.len() != 3 {
            Err(malformed(lineno, "Wrong number of arguments"@))
        } else {
            match mac_of(w[2]) {
                Some(mac_address) => Ok(Some(CueView::Board { board_id: w[1], mac_address })),
                None => Err(malformed(lineno, "Invalid MAC address"@)),
            }
        }
    } else if w[0] == "channel"@ {
        if w.len() != 4 {
            Err(malformed(lineno, "Wrong number of arguments"@))
        } else {
            match number_up_to(w[3], 10, u8::MAX as nat) {
                Some(num) => Ok(Some(CueView::Channel { name: w[1], board_id: w[2], num: num as u8 })),
                None => Err(malformed(lineno, "Invalid firing channel"@)),
            }
        }
    } else if w[0] == "fire"@ {
        if w.len() < 2 {
            Err(malformed(lineno, "Wrong number of arguments"@))
        } else {
            Ok(Some(CueView::Fire { channels: w.skip(1) }))
        }
    } else if w[0] == "pause"@ {
        if w.len() != 1 {
            Err(malformed(lineno, "Wrong number of arguments"@))
        } else {
            Ok(Some(CueView::Pause))
        }
    } else {
        Err(malformed(lineno, "Invalid command"@))
    }
}

/// The outcome of reading a line, as a mathematical value.
pub open spec fn line_outcome(r: ScriptResult<Option<Cue>>) -> Result<Option<CueView>, ScriptErrorView> {
    match r {
        Ok(None) => Ok(None),
        Ok(Some(cue)) => Ok(Some(cue@)),
        Err(e) => Err(e@),
    }
}

/// The word of `line` between the character indices `from` and `to`.
fn word_at(line: &str, from: usize, to: usize) -> (word: String)
    requires
        from <= to <= line@.len(),
    ensures
        word@ == line@.subrange(from as int, to as int),
{
    line.substring_char(from, to).to_owned()
}

impl Cue {
    /// Reads one line of a script.
    pub fn from_line(line: &String, lineno: usize) -> (r: ScriptResult<Option<Cue>>)
        ensures
            line_outcome(r) == parse_line(line@, lineno),
    {
        let text = line.as_str();
        let chars = chars_of(text);
        let n = chars.len();
        let found = find_words(&chars);
        let ghost w = words(line@);
        proof {
            assert(w.len() == found.len());
            assert forall|k: int| 0 <= k < found.len() implies #[trigger] w[k] == chars@.subrange(
                found@[k].0 as int,
                found@[k].1 as int,
            ) by {
                assert(as_spans(found@)[k] == spans(chars@)[k]);
            }
        }
        if found.len() == 0 {
            return Ok(None);
        }
        let (a, b) = found[0];
        assert(w[0] == chars@.subrange(a as int, b as int));
        if spells(&chars, a, b, "#") {
            Ok(None)
        } else if spells(&chars, a, b, "say") {
            let message = if found.len() < 2 {
                String::new()
            } else {
                assert(found@[0].1 < found@[1].0);
                assert(as_spans(found@)[0] == spans(chars@)[0]);
                word_at(text, b + 1, n)
            };
            Ok(Some(Cue::Say { message }))
        } else if spells(&chars, a, b, "print") {
            let message = if found.len() < 2 {
                String::new()
            } else {
                assert(found@[0].1 < found@[1].0);
                assert(as_spans(found@)[0] == spans(chars@)[0]);
                word_at(text, b + 1, n)
            };
            Ok(Some(Cue::Print { message }))
        } else if spells(&chars, a, b, "sleep") {
            if found.len() != 2 {
                return ScriptError::parse_err_numargs(lineno);
            }
            match parse_number(&chars, found[1].0, found[1].1, 10, u64::MAX) {
                Some(time) => Ok(Some(Cue::Sleep { time: time })),
                None => ScriptError::parse_err(lineno, "Invalid sleep time"),
            }
        } else if spells(&chars, a, b, "board") {
            if found.len() != 3 {
                return ScriptError::parse_err_numargs(lineno);
            }
            let address = copy_range(&chars, found[2].0, found[2].1);
            match parse_mac(&address) {
                Some(mac_address) => Ok(
                    Some(Cue::Board { board_id: word_at(text, found[1].0, found[1].1), mac_address }),
                ),
                None => ScriptError::parse_err(lineno, "Invalid MAC address"),
            }
        } else if spells(&chars, a, b, "channel") {
            if found.len() != 4 {
                return ScriptError::parse_err_numargs(lineno);
            }
            match parse_number(&chars, found[3].0, found[3].1, 10, 255) {
                Some(num) => Ok(
                    Some(
                        Cue::Channel {
                            name: word_at(text, found[1].0, found[1].1),
                            board_id: word_at(text, found[2].0, found[2].1),
                            num: num as u8,
                        },
                    ),
                ),
                None => ScriptError::parse_err(lineno, "Invalid firing channel"),
            }
        } else if spells(&chars, a, b, "fire") {
            if found.len() < 2 {
                return ScriptError::parse_err_numargs(lineno);
            }
            let mut channels: Vec<String> = Vec::new();
            let mut k: usize = 1;
            while k < found.len()
                invariant
                    1 <= k <= found.len(),
                    chars@ == text@,
                    w.len() == found.len(),
                    forall|j: int|
                        #![trigger found@[j]]
                        0 <= j < found.len() ==> found@[j].0 < found@[j].1 <= chars.len(),
                    forall|j: int|
                        0 <= j < found.len() ==> #[trigger] w[j] == chars@.subrange(
                            found@[j].0 as int,
                            found@[j].1 as int,
                        ),
                    channels.len() == k - 1,
                    texts(channels@) == w.subrange(1, k as int),
                decreases found.len() - k,
            {
                let name = word_at(text, found[k].0, found[k].1);
                let ghost before = channels@;
                channels.push(name);
                proof {
                    assert(name@ == w[k as int]);
                    assert forall|j: int| 0 <= j < channels.len() implies texts(channels@)[j] == w.subrange(
                        1,
                        k + 1,
                    )[j] by {
                        if j < before.len() {
                            assert(texts(before)[j] == w.subrange(1, k as int)[j]);
                        }
                    }
                    assert(texts(channels@) =~= w.subrange(1, k + 1));
                }
                k += 1;
            }
            proof {
                assert(w.subrange(1, k as int) =~= w.skip(1));
            }
            Ok(Some(Cue::Fire { channels: channels }))
        } else if spells(&chars, a, b, "pause") {
            if found.len() != 1 {
                return ScriptError::parse_err_numargs(lineno);
            }
            Ok(Some(Cue::Pause))
        } else {
            ScriptError::parse_err(lineno, "Invalid command")
        }
    }
}

} // verus!
