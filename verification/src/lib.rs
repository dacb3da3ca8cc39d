//! A minimal observer/event notification library.
//!
//! An [`observable::TestObservable`] keeps a registry of non-owning handles to
//! observers; raising an event delivers it to every observer that is still
//! alive, in subscription order, and prunes the handles whose observers are
//! gone. Observers live in an [`observer::ObserverArena`] owned by the caller:
//! subscription never extends an observer's lifetime, and releasing the
//! owning slot revokes every handle to it.
//!
//! No verified function panics: the one hazard, overflow of an observer's
//! accumulated total, is excluded by `raise`'s precondition, which callers
//! check before raising.

pub mod event;
pub mod laws;
pub mod observable;
pub mod observer;
