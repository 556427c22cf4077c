//! The error type of the crate: a chain of messages, from the step that
//! failed last to the cause.
use crate::text;
use vstd::prelude::*;

verus! {

/// An error as a chain of messages, the outermost first.
#[derive(Debug)]
pub struct BundleError {
    pub messages: Vec<String>,
}

impl View for BundleError {
    type V = Seq<Seq<char>>;

    open spec fn view(&self) -> Seq<Seq<char>> {
        text::texts(self.messages@)
    }
}

/// A chain of one message.
pub open spec fn single(message: Seq<char>) -> Seq<Seq<char>> {
    seq![message]
}

/// The chain `cause` with one more message before it.
pub open spec fn wrapped(message: Seq<char>, cause: Seq<Seq<char>>) -> Seq<Seq<char>> {
    seq![message] + cause
}

/// The chain `e`, its first message with `place` behind it.
pub open spec fn located(e: Seq<Seq<char>>, place: Seq<char>) -> Seq<Seq<char>> {
    if e.len() == 0 {
        single(place)
    } else {
        e.update(0, e[0] + place)
    }
}

/// The first message of a chain.
pub open spec fn first(e: Seq<Seq<char>>) -> Seq<char> {
    if e.len() == 0 {
        Seq::empty()
    } else {
        e[0]
    }
}

impl BundleError {
    /// An error without a cause.
    pub fn new(message: String) -> (r: Self)
        ensures
            r@ == single(message@),
    {
        let mut messages: Vec<String> = Vec::new();
        messages.push(message);
        let r = BundleError { messages };
        assert(r@ =~= single(message@));
        r
    }

    /// The same error, seen from the step that `message` names.
    pub fn context(self, message: String) -> (r: Self)
        ensures
            r@ == wrapped(message@, self@),
    {
        let mut messages = self.messages;
        messages.insert(0, message);
        let r = BundleError { messages };
        assert(r@ =~= wrapped(message@, self@));
        r
    }

    /// The same error, its first message with `place` behind it.
    pub fn at(self, place: &str) -> (r: Self)
        ensures
            r@ == located(self@, place@),
    {
        let mut messages = self.messages;
        if messages.len() == 0 {
            return BundleError::new(place.to_owned());
        }
        let first = text::concat2(messages[0].as_str(), place);
        messages.set(0, first);
        let r = BundleError { messages };
        assert(r@ =~= located(self@, place@));
        r
    }

    /// The first message of the chain.
    pub fn message(&self) -> (r: String)
        ensures
            r@ == first(self@),
    {
        if self.messages.len() == 0 {
            let r = String::new();
            assert(r@ =~= first(self@));
            r
        } else {
            self.messages[0].clone()
        }
    }

    /// The whole chain on one line, with a colon between the messages.
    pub fn report(&self) -> (r: String)
        ensures
            r@ == text::join(self@, ": "@),
    {
        let mut r = String::new();
        let n: usize = self.messages.len();
        let mut i: usize = 0;
        assert(self@.take(0) =~= Seq::empty());
        while i < n
            invariant
                i <= n,
                n == self.messages.len(),
                r@ == text::join(self@.take(i as int), ": "@),
            decreases n - i,
        {
            if i > 0 {
                r.append(": ");
            }
            r.append(self.messages[i].as_str());
            assert(self@.take(i + 1).drop_last() =~= self@.take(i as int));
            assert(r@ =~= text::join(self@.take(i + 1), ": "@));
            i = i + 1;
        }
        assert(self@.take(n as int) =~= self@);
        r
    }
}

} // verus!
