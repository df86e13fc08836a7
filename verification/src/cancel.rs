use vstd::prelude::*;

verus! {

/// Level-triggered shutdown signal for the client process.
///
/// The flag only ever moves from "not set" to "set": no operation clears it.
/// The binaries share one token between their workers (behind a lock or an
/// atomic of their own); every loop polls it at least once per iteration.
pub struct CancellationToken {
    cancelled: bool,
}

impl CancellationToken {
    /// True once `cancel` has been called.
    pub closed spec fn is_set(self) -> bool {
        self.cancelled
    }

    /// The token as it stands after a `cancel` call.
    pub closed spec fn spec_cancel(self) -> CancellationToken {
        CancellationToken { cancelled: true }
    }

    /// A fresh token; the signal starts out clear.
    pub fn new() -> (r: CancellationToken)
        ensures
            !r.is_set(),
    {
        CancellationToken { cancelled: false }
    }

    /// Raises the shutdown signal. Idempotent: a second call changes nothing.
    pub fn cancel(&mut self)
        ensures
            *final(self) == old(self).spec_cancel(),
            final(self).is_set(),
    {
        self.cancelled = true;
    }

    /// Reports whether the shutdown signal has been raised.
    pub fn is_cancelled(&self) -> (r: bool)
        ensures
            r == self.is_set(),
    {
        self.cancelled
    }
}

impl Default for CancellationToken {
    /// Same as `new`: the signal starts out clear.
    fn default() -> (r: CancellationToken)
        ensures
            !r.is_set(),
    {
        CancellationToken::new()
    }
}

/// Law: `cancel` is idempotent, and once a token is cancelled,
/// `is_cancelled` reports true ever after — no operation clears the flag,
/// so a cancelled token stays cancelled whatever is called on it.
pub proof fn lemma_cancel_idempotent(t: CancellationToken)
    ensures
        t.spec_cancel().is_set(),
        t.spec_cancel().spec_cancel() == t.spec_cancel(),
        t.is_set() ==> t.spec_cancel() == t,
{
}

/// Level-triggered shutdown signal for the server process.
///
/// Behaves exactly as [`CancellationToken`]; the server keeps its own type so
/// that the two binaries' shutdown machinery stays independent.
pub struct ServerCancellationToken {
    cancelled: bool,
}

impl ServerCancellationToken {
    /// True once `cancel` has been called.
    pub closed spec fn is_set(self) -> bool {
        self.cancelled
    }

    /// The token as it stands after a `cancel` call.
    pub closed spec fn spec_cancel(self) -> ServerCancellationToken {
        ServerCancellationToken { cancelled: true }
    }

    /// A fresh token; the signal starts out clear.
    pub fn new() -> (r: ServerCancellationToken)
        ensures
            !r.is_set(),
    {
        ServerCancellationToken { cancelled: false }
    }

    /// Raises the shutdown signal. Idempotent: a second call changes nothing.
    pub fn cancel(&mut self)
        ensures
            *final(self) == old(self).spec_cancel(),
            final(self).is_set(),
    {
        self.cancelled = true;
    }

    /// Reports whether the shutdown signal has been raised.
    pub fn is_cancelled(&self) -> (r: bool)
        ensures
            r == self.is_set(),
    {
        self.cancelled
    }
}

impl Default for ServerCancellationToken {
    /// Same as `new`: the signal starts out clear.
    fn default() -> (r: ServerCancellationToken)
        ensures
            !r.is_set(),
    {
        ServerCancellationToken::new()
    }
}

/// Law: the server token's `cancel` is idempotent, and once it is cancelled,
/// `is_cancelled` reports true ever after.
pub proof fn lemma_server_cancel_idempotent(t: ServerCancellationToken)
    ensures
        t.spec_cancel().is_set(),
        t.spec_cancel().spec_cancel() == t.spec_cancel(),
        t.is_set() ==> t.spec_cancel() == t,
{
}

} // verus!
