//! The table of named handlers and what a dispatch through it reports.
use vstd::prelude::*;

use crate::error::{fails_with, Error};
use crate::function::payload::{debug_quoted, debug_str, FunctionOutput};
use crate::strmap::StringMap;

verus! {

broadcast use vstd::string::group_string_axioms;

/// The message for registering `name` twice.
pub open spec fn msg_already_registered(name: Seq<char>) -> Seq<char> {
    "handler already registered: "@ + name
}

/// The message for looking up a name that was never registered.
pub open spec fn msg_not_found(name: Seq<char>) -> Seq<char> {
    "function "@ + debug_str(name) + " not found in registry"@
}

/// Handlers by name. A name is registered at most once; the first
/// registration stays.
#[derive(Debug)]
pub struct Registry<H> {
    handlers: StringMap<H>,
}

impl<H> View for Registry<H> {
    type V = Map<Seq<char>, H>;

    closed spec fn view(&self) -> Map<Seq<char>, H> {
        self.handlers@
    }
}

impl<H> Registry<H> {
    /// An empty registry.
    pub fn new() -> (r: Self)
        ensures
            r@ == Map::<Seq<char>, H>::empty(),
            r@.dom().finite(),
    {
        Registry { handlers: StringMap::new() }
    }

    /// Registers `handler` under `name`. A name that is already taken is
    /// rejected and the registry is left as it was.
    pub fn register(&mut self, name: &str, handler: H) -> (r: Result<(), Error>)
        ensures
            old(self)@.contains_key(name@) ==> final(self)@ == old(self)@ && fails_with(
                r,
                msg_already_registered(name@),
            ),
            !old(self)@.contains_key(name@) ==> r is Ok && final(self)@ == old(self)@.insert(name@, handler)
                && final(self)@.dom().len() == old(self)@.dom().len() + 1,
            final(self)@.dom().finite(),
    {
        if self.handlers.contains_key(name) {
            let mut m = "handler already registered: ".to_string();
            m.append(name);
            return Err(Error::InvalidInput(m));
        }
        self.handlers.insert(name.to_string(), handler);
        Ok(())
    }

    /// `true` when a handler is registered under `name`.
    pub fn has(&self, name: &str) -> (r: bool)
        ensures
            r == self@.contains_key(name@),
    {
        self.handlers.contains_key(name)
    }

    /// The handler registered under `name`.
    pub fn get(&self, name: &str) -> (r: Result<&H, Error>)
        ensures
            self@.contains_key(name@) ==> (r matches Ok(h) && *h == self@[name@]),
            !self@.contains_key(name@) ==> fails_with(r, msg_not_found(name@)),
    {
        match self.handlers.get(name) {
            Some(h) => Ok(h),
            None => {
                let mut m = "function ".to_string();
                let q = debug_quoted(name);
                m.append(q.as_str());
                m.append(" not found in registry");
                Err(Error::InvalidInput(m))
            },
        }
    }

    /// Number of registered handlers.
    pub fn len(&self) -> (r: usize)
        ensures
            r == self@.dom().len(),
            self@.dom().finite(),
    {
        self.handlers.len()
    }

    /// `true` when no handler is registered.
    pub fn is_empty(&self) -> (r: bool)
        ensures
            r == (self@.dom().len() == 0),
    {
        self.handlers.is_empty()
    }
}

/// A handler registered under a free name is then found under it, and
/// every other registration is unchanged.
pub proof fn lemma_registered_is_found<H>(before: Map<Seq<char>, H>, name: Seq<char>, handler: H, after: Map<Seq<char>, H>)
    requires
        !before.contains_key(name),
        after == before.insert(name, handler),
    ensures
        after.contains_key(name),
        after[name] == handler,
        after.dom().len() == before.dom().len() + 1 || !before.dom().finite(),
        forall|k: Seq<char>| k != name ==> (#[trigger] after.contains_key(k) == before.contains_key(k)),
        forall|k: Seq<char>| k != name && before.contains_key(k) ==> #[trigger] after[k] == before[k],
{
    if before.dom().finite() {
        assert(after.dom() =~= before.dom().insert(name));
    }
}

/// What a dispatch reports once the handler has run: its output, or, when
/// the handler failed with the error text `text`, `PatternStopped` at the
/// handler's name with that text as the reason.
pub fn dispatch_result(name: &str, handled: Result<FunctionOutput, String>) -> (r: Result<FunctionOutput, Error>)
    ensures
        handled matches Ok(o) ==> r == Ok::<FunctionOutput, Error>(o),
        handled matches Err(text) ==> (r matches Err(Error::PatternStopped { position, reason }) && position@
            == name@ && reason@ == text@),
{
    match handled {
        Ok(o) => Ok(o),
        Err(text) => Err(Error::PatternStopped { position: name.to_string(), reason: text }),
    }
}

} // verus!
