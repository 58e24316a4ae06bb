//! Elements, detached-element handles, and insertion outcomes.

use vstd::prelude::*;

verus! {

/// One element of the set: a 64-bit key that decides membership, and one
/// machine word of auxiliary metadata carried beside it. Two elements with
/// equal keys stand for the same member, whatever their metadata.
#[derive(Clone, Copy, PartialEq, Eq, Structural, Debug)]
pub struct Elem {
    pub key: u64,
    pub meta: u64,
}

impl Elem {
    /// Builds an element from its key and metadata.
    pub fn new(key: u64, meta: u64) -> (e: Elem)
        ensures
            e == (Elem { key, meta }),
    {
        Elem { key, meta }
    }
}

/// An element detached from a set by a successful removal or update.
///
/// The handle owns the detached record outright: once an operation has handed
/// a `Removed` back, no reader of any set can still observe the record, so
/// reading the element through the handle is safe for the handle's whole
/// lifetime, and mutation or consumption is always granted.
#[derive(Debug)]
pub struct Removed {
    elem: Elem,
}

impl View for Removed {
    type V = Elem;

    closed spec fn view(&self) -> Elem {
        self.elem
    }
}

impl Removed {
    /// Wraps a freshly detached record.
    pub(crate) fn make(elem: Elem) -> (r: Removed)
        ensures
            r@ == elem,
    {
        Removed { elem }
    }

    /// The detached element's key.
    pub fn key(&self) -> (k: u64)
        ensures
            k == self@.key,
    {
        self.elem.key
    }

    /// The detached element's metadata.
    pub fn meta(&self) -> (m: u64)
        ensures
            m == self@.meta,
    {
        self.elem.meta
    }

    /// The detached element.
    pub fn elem(&self) -> (e: Elem)
        ensures
            e == self@,
    {
        self.elem
    }

    /// Grants mutable access to the detached element. The handle owns the
    /// record, so no reader can observe it and access is always granted.
    pub fn try_as_mut(this: &mut Self) -> (r: Option<&mut Elem>)
        ensures
            r matches Some(e) && *e == old(this)@ && final(this)@ == *final(e),
    {
        Some(&mut this.elem)
    }

    /// Consumes the handle and hands the element out. The handle owns the
    /// record, so consumption is always granted.
    pub fn try_into(this: Self) -> (r: Result<Elem, Self>)
        ensures
            r matches Ok(e) && e == this@,
    {
        Ok(this.elem)
    }
}

/// The outcome of an insertion: a fresh element was published, an existing
/// colliding element was replaced and handed back detached, or the operation
/// declined and returned the rejected value.
#[derive(Debug)]
pub enum Insertion<E> {
    /// The element was created.
    Created,
    /// The element replaced a colliding element, handed back detached.
    Updated(Removed),
    /// The insertion was declined and performed nothing.
    Failed(E),
}

impl<E> Insertion<E> {
    /// Whether the insertion created an element.
    pub fn created(&self) -> (b: bool)
        ensures
            b == (self is Created),
    {
        match self {
            Insertion::Created => true,
            _ => false,
        }
    }

    /// The replaced element, where the insertion updated one.
    pub fn updated(&self) -> (r: Option<&Removed>)
        ensures
            (r is Some) == (self is Updated),
            r matches Some(x) ==> (self matches Insertion::Updated(u) && *x == u),
    {
        match self {
            Insertion::Updated(x) => Some(x),
            _ => None,
        }
    }

    /// Takes the replaced element out, or hands the outcome back unchanged.
    pub fn take_updated(self) -> (r: Result<Removed, Self>)
        ensures
            self matches Insertion::Updated(u) ==> (r matches Ok(x) && x == u),
            !(self is Updated) ==> (r matches Err(s) && s == self),
    {
        match self {
            Insertion::Updated(x) => Ok(x),
            other => Err(other),
        }
    }

    /// The rejected value, where the insertion failed.
    pub fn failed(&self) -> (r: Option<&E>)
        ensures
            (r is Some) == (self is Failed),
            r matches Some(x) ==> (self matches Insertion::Failed(e) && *x == e),
    {
        match self {
            Insertion::Failed(e) => Some(e),
            _ => None,
        }
    }

    /// Takes the rejected value out, or hands the outcome back unchanged.
    pub fn take_failed(self) -> (r: Result<E, Self>)
        ensures
            self matches Insertion::Failed(e) ==> (r matches Ok(x) && x == e),
            !(self is Failed) ==> (r matches Err(s) && s == self),
    {
        match self {
            Insertion::Failed(e) => Ok(e),
            other => Err(other),
        }
    }
}

} // verus!
