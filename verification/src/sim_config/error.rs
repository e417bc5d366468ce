//! Failures to configure a simulation.

use vstd::prelude::*;
use vstd::string::*;

use crate::counter::texts;

verus! {

/// A failure, as the messages that users see: what failed first, its causes behind it.
#[derive(Debug)]
pub struct ConfigError {
    messages: Vec<String>,
}

impl View for ConfigError {
    type V = Seq<Seq<char>>;

    closed spec fn view(&self) -> Seq<Seq<char>> {
        texts(self.messages@)
    }
}

impl ConfigError {
    /// There is a message.
    #[verifier::type_invariant]
    spec fn has_message(self) -> bool {
        self.messages@.len() > 0
    }

    /// A failure without a further cause.
    pub fn new(message: String) -> (error: Self)
        ensures
            error@ == seq![message@],
    {
        let mut messages: Vec<String> = Vec::new();
        messages.push(message);
        let error = ConfigError { messages };
        assert(error@ =~= seq![message@]);
        error
    }

    /// The failure as the cause of another.
    pub fn context(self, message: String) -> (error: Self)
        ensures
            error@ == seq![message@] + self@,
    {
        let mut messages: Vec<String> = Vec::new();
        messages.push(message);
        let mut causes = self.messages;
        messages.append(&mut causes);
        let error = ConfigError { messages };
        assert(error@ =~= seq![message@] + self@);
        error
    }

    /// The first message.
    pub fn to_string(&self) -> (text: String)
        ensures
            self@.len() > 0,
            text@ == self@[0],
    {
        proof {
            use_type_invariant(self);
        }
        self.messages[0].as_str().to_owned()
    }

    /// The message of the last cause.
    pub fn root_cause(&self) -> (text: String)
        ensures
            self@.len() > 0,
            text@ == self@.last(),
    {
        proof {
            use_type_invariant(self);
        }
        self.messages[self.messages.len() - 1].as_str().to_owned()
    }

    /// All messages, what failed first.
    pub fn messages(&self) -> (messages: Vec<String>)
        ensures
            texts(messages@) == self@,
    {
        let mut messages: Vec<String> = Vec::new();
        let mut i: usize = 0;
        while i < self.messages.len()
            invariant
                i <= self.messages@.len(),
                texts(messages@) == self@.take(i as int),
            decreases self.messages@.len() - i,
        {
            let ghost before = messages@;
            messages.push(self.messages[i].as_str().to_owned());
            assert(texts(messages@) =~= texts(before).push(self@[i as int]));
            assert(self@.take(i + 1) =~= self@.take(i as int).push(self@[i as int]));
            i += 1;
        }
        assert(self@.take(i as int) =~= self@);
        messages
    }
}

} // verus!
