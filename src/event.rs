//! The event record exchanged with the relays: a name and a payload.

use vstd::prelude::*;

verus! {

/// An event: the stream it belongs to and its payload.
#[derive(Debug, Clone)]
pub struct Event<T> {
    pub name: String,
    pub data: T,
}

/// An event whose name is borrowed.
#[derive(Debug, Clone)]
pub struct EventRef<'a, T> {
    pub name: &'a str,
    pub data: T,
}

impl<T> Event<T> {
    /// The event `name` carrying `data`.
    pub fn new(name: String, data: T) -> (r: Event<T>)
        ensures
            r.name@ == name@,
            r.data == data,
    {
        Event { name, data }
    }
}

impl<'a, T> EventRef<'a, T> {
    /// The event `name` carrying `data`, with the name borrowed.
    pub fn new(name: &'a str, data: T) -> (r: EventRef<'a, T>)
        ensures
            r.name@ == name@,
            r.data == data,
    {
        EventRef { name, data }
    }
}

} // verus!
