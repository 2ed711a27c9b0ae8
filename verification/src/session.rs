use vstd::prelude::*;

verus! {

/// What a live-demo connection does with an incoming message.
#[derive(Debug, Clone, Copy, PartialEq, Eq, Structural)]
pub enum RequestVerdict {
    /// Run the request's command.
    Run,
    /// The message does not parse or its id is not above the last accepted
    /// one: report an error and close the connection.
    Close,
}

/// Request bookkeeping of one demo connection: accepted request ids
/// strictly increase, starting above zero.
pub struct Session {
    last_request: u32,
}

impl Session {
    /// The id of the last accepted request (zero before the first).
    pub closed spec fn last(&self) -> u32 {
        self.last_request
    }

    pub fn new() -> (r: Self)
        ensures
            r.last() == 0,
    {
        Session { last_request: 0 }
    }

    pub fn last_request(&self) -> (r: u32)
        ensures
            r == self.last(),
    {
        self.last_request
    }

    /// Decides on a message whose request id is `request_id`, or `None` when
    /// it does not parse.
    pub fn receive(&mut self, request_id: Option<u32>) -> (r: RequestVerdict)
        ensures
            match request_id {
                Some(id) => if id > old(self).last() {
                    r == RequestVerdict::Run && final(self).last() == id
                } else {
                    r == RequestVerdict::Close && final(self).last() == old(self).last()
                },
                None => r == RequestVerdict::Close && final(self).last() == old(self).last(),
            },
    {
        match request_id {
            Some(id) => {
                if id > self.last_request {
                    self.last_request = id;
                    RequestVerdict::Run
                } else {
                    RequestVerdict::Close
                }
            },
            None => RequestVerdict::Close,
        }
    }
}

/// After a failed substep the demo accepts only a reset.
pub fn command_permitted(desynchronized: bool, is_reset: bool) -> (r: bool)
    ensures
        r == (!desynchronized || is_reset),
{
    !desynchronized || is_reset
}

} // verus!
