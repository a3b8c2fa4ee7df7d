//! Narration: the messages of a show that wait to be spoken.  The show
//! hands each message over with [`TTS::say`] and goes on; whoever drives the
//! speech engine takes them out again, oldest first.

use vstd::prelude::*;

verus! {

/// The queue of messages that wait to be spoken.
pub struct TTS {
    waiting: Vec<String>,
}

impl View for TTS {
    type V = Seq<Seq<char>>;

    /// The waiting messages, oldest first.
    closed spec fn view(&self) -> Seq<Seq<char>> {
        Seq::new(self.waiting@.len(), |k: int| self.waiting@[k]@)
    }
}

impl TTS {
    /// A queue with nothing waiting.
    pub fn new() -> (tts: TTS)
        ensures
            tts@ == Seq::<Seq<char>>::empty(),
    {
        let tts = TTS { waiting: Vec::new() };
        proof {
            assert(tts@ =~= Seq::<Seq<char>>::empty());
        }
        tts
    }

    /// Hands `text` over to be spoken after all that waits already.
    pub fn say(&mut self, text: &str)
        ensures
            final(self)@ == old(self)@.push(text@),
    {
        self.waiting.push(text.to_owned());
        proof {
            assert(self@ =~= old(self)@.push(text@));
        }
    }

    /// How many messages wait.
    pub fn waiting(&self) -> (n: usize)
        ensures
            n == self@.len(),
    {
        self.waiting.len()
    }

    /// Takes out the message that has waited longest, if any waits.
    pub fn take(&mut self) -> (message: Option<String>)
        ensures
            old(self)@.len() == 0 ==> message is None && final(self)@ == old(self)@,
            old(self)@.len() > 0 ==> message is Some && message->0@ == old(self)@[0] && final(self)@
                == old(self)@.skip(1),
    {
        if self.waiting.len() == 0 {
            None
        } else {
            let message = self.waiting.remove(0);
            proof {
                assert(self@ =~= old(self)@.skip(1));
            }
            Some(message)
        }
    }
}

} // verus!
