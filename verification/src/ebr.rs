//! Model of the epoch-based-reclamation (EBR) substrate: a participation
//! token ([`Barrier`]), and an atomic owning reference ([`AtomicArc`]) whose
//! pointer word carries two tag bits.
//!
//! In the concurrent design the fields of [`AtomicArc`] live in a single
//! machine word that is read and written with atomic instructions. Here the
//! owner is an ordinary `Option<Box<T>>` and every operation is a verified
//! function of the previous state.

use vstd::prelude::*;

verus! {

/// The two tag bits that the EBR layer packs into the low bits of a pointer.
#[derive(Clone, Copy, PartialEq, Eq, Structural, Debug)]
pub enum Tag {
    /// Neither bit is set.
    Neither,
    /// The first bit is set.
    First,
    /// The second bit is set.
    Second,
    /// Both bits are set.
    Both,
}

/// Participation token in the reclamation protocol.
///
/// In the concurrent design a `Barrier` pins its thread to the current
/// epoch, and destruction of owners handed to [`Barrier::reclaim`] is
/// deferred until every thread has left that epoch. In this sequential model
/// no other participant can hold a borrow, so a reclaimed owner may be
/// destroyed at once; the token is kept so that read and reclaim operations
/// retain the shape the protocol gives them.
pub struct Barrier {
    private: (),
}

impl Barrier {
    /// Enters a new guard scope.
    pub fn new() -> Barrier {
        Barrier { private: () }
    }

    /// Accepts an owner that was detached from an atomic and destroys it.
    pub fn reclaim<T>(&self, owner: Box<T>) {
        let _ = owner;
    }
}

/// Owner of at most one heap instance of `T`, together with a two-bit tag.
pub struct AtomicArc<T> {
    target: Option<Box<T>>,
    tag: Tag,
}

impl<T> AtomicArc<T> {
    /// The owned instance, if any.
    pub closed spec fn target_opt(&self) -> Option<T> {
        match self.target {
            Some(b) => Some(*b),
            None => None,
        }
    }

    /// The tag bits.
    pub closed spec fn tag_bits(&self) -> Tag {
        self.tag
    }

    /// Creates an owner of a fresh instance holding `t`.
    pub fn new(t: T) -> (r: AtomicArc<T>)
        ensures
            r.target_opt() == Some(t),
            r.tag_bits() == Tag::Neither,
    {
        AtomicArc { target: Some(Box::new(t)), tag: Tag::Neither }
    }

    /// Creates an owner of nothing.
    pub fn null() -> (r: AtomicArc<T>)
        ensures
            r.target_opt() is None,
            r.tag_bits() == Tag::Neither,
    {
        AtomicArc { target: None, tag: Tag::Neither }
    }

    /// Returns `true` iff no instance is owned.
    pub fn is_null(&self) -> (r: bool)
        ensures
            r == (self.target_opt() is None),
    {
        self.target.is_none()
    }

    /// Returns a borrowed pointer to the owned instance, if any.
    pub fn load(&self) -> (r: Option<&T>)
        ensures
            match r {
                Some(t) => self.target_opt() == Some(*t),
                None => self.target_opt() is None,
            },
    {
        match &self.target {
            Some(b) => Some(&**b),
            None => None,
        }
    }

    /// Returns the current tag bits.
    pub fn tag(&self) -> (r: Tag)
        ensures
            r == self.tag_bits(),
    {
        self.tag
    }

    /// Replaces the owner and the tag, returning the previous owner and tag
    /// so that the caller can hand the owner to [`Barrier::reclaim`].
    pub fn swap(&mut self, new: Option<Box<T>>, tag: Tag) -> (prev: (Option<Box<T>>, Tag))
        ensures
            final(self).target_opt() == (match new {
                Some(b) => Some(*b),
                None => None::<T>,
            }),
            final(self).tag_bits() == tag,
            (match prev.0 {
                Some(b) => old(self).target_opt() == Some(*b),
                None => old(self).target_opt() is None,
            }),
            prev.1 == old(self).tag_bits(),
    {
        let mut target = new;
        core::mem::swap(&mut self.target, &mut target);
        let prev_tag = self.tag;
        self.tag = tag;
        (target, prev_tag)
    }

    /// Sets the tag to `tag` iff `cond` accepts the current tag. Returns
    /// `true` iff the tag was replaced.
    pub fn update_tag_if<F: Fn(Tag) -> bool>(&mut self, tag: Tag, cond: F) -> (r: bool)
        requires
            call_requires(cond, (old(self).tag_bits(),)),
        ensures
            final(self).target_opt() == old(self).target_opt(),
            r ==> final(self).tag_bits() == tag && call_ensures(
                cond,
                (old(self).tag_bits(),),
                true,
            ),
            !r ==> *final(self) == *old(self) && call_ensures(cond, (old(self).tag_bits(),), false),
    {
        if cond(self.tag) {
            self.tag = tag;
            true
        } else {
            false
        }
    }
}

impl<T> Default for AtomicArc<T> {
    /// Same as [`AtomicArc::null`].
    fn default() -> (r: Self)
        ensures
            r.target_opt() is None,
            r.tag_bits() == Tag::Neither,
    {
        AtomicArc::null()
    }
}

} // verus!
