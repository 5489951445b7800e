//! The tree store: the authoritative tree, built on first need from a
//! one-shot factory and then updated in place.
use vstd::prelude::*;

verus! {

/// The bytes of one serialized tree state, as contracts speak of them.
pub type Encoding = Seq<u8>;

/// An accessibility tree as the store uses it: updates are applied in place,
/// and the whole current state serializes to one self-contained payload.
pub trait AccessTree<U> {
    /// The payload that the tree's current state serializes to. It exists
    /// for proofs only and is never called at run time.
    spec fn encoded(&self) -> Encoding;

    fn apply(&mut self, update: U);

    fn serialize(&self) -> (r: Vec<u8>)
        ensures
            r@ == self.encoded(),
    ;
}

/// Whether the tree has been built. A factory is held only until it is
/// called, so it can never run twice.
pub enum TreeSlot<T, F> {
    Pending(F),
    Ready(T),
    Failed,
}

/// The authoritative tree, with the updates applied to it so far.
pub struct TreeStore<T, U, F> {
    slot: TreeSlot<T, F>,
    history: Ghost<Seq<U>>,
}

impl<T: AccessTree<U>, U, F: FnOnce() -> Option<T>> TreeStore<T, U, F> {
    /// The factory has not been called yet.
    pub closed spec fn is_pending(&self) -> bool {
        self.slot is Pending
    }

    /// The factory has been called and built the tree.
    pub closed spec fn is_ready(&self) -> bool {
        self.slot is Ready
    }

    /// The factory that will build the tree, while it has not run.
    pub closed spec fn factory(&self) -> F {
        match self.slot {
            TreeSlot::Pending(f) => f,
            _ => arbitrary(),
        }
    }

    /// The tree, once built.
    pub closed spec fn tree(&self) -> T {
        match self.slot {
            TreeSlot::Ready(t) => t,
            _ => arbitrary(),
        }
    }

    /// Calling the pending factory of `before` left `self` with a tree
    /// exactly when the factory returned one, and that tree is the one it
    /// returned.
    pub open spec fn built_from_factory(&self, before: &Self) -> bool {
        before.is_pending() ==> exists|t: Option<T>|
            #![trigger call_ensures(before.factory(), (), t)]
            call_ensures(before.factory(), (), t) && self.is_ready() == (t is Some) && (t is Some
                ==> self.tree() == t->0)
    }

    /// Calling the pending factory of `before` left `self` with a tree
    /// exactly when the factory returned one.
    pub open spec fn built_as_factory_said(&self, before: &Self) -> bool {
        before.is_pending() ==> exists|t: Option<T>|
            call_ensures(before.factory(), (), t) && self.is_ready() == (t is Some)
    }

    /// The updates applied to the tree since it was built, oldest first.
    pub closed spec fn history(&self) -> Seq<U> {
        self.history@
    }

    pub closed spec fn wf(&self) -> bool {
        &&& (self.slot matches TreeSlot::Pending(f) ==> call_requires(f, ()))
        &&& (!(self.slot is Ready) ==> self.history@.len() == 0)
    }

    /// A store whose tree `factory` will build on first need.
    pub fn new(factory: F) -> (r: Self)
        requires
            call_requires(factory, ()),
        ensures
            r.wf(),
            r.is_pending(),
            !r.is_ready(),
            r.factory() == factory,
            r.history() == Seq::<U>::empty(),
    {
        TreeStore { slot: TreeSlot::Pending(factory), history: Ghost(Seq::empty()) }
    }

    /// Builds the tree if this has not been tried yet. The factory runs at
    /// most once over the store's life: a failed build is not retried.
    pub fn force(&mut self) -> (r: bool)
        requires
            old(self).wf(),
        ensures
            final(self).wf(),
            r == final(self).is_ready(),
            !final(self).is_pending(),
            old(self).is_ready() ==> final(self).is_ready(),
            !old(self).is_pending() ==> final(self).is_ready() == old(self).is_ready(),
            final(self).built_from_factory(old(self)),
            !old(self).is_pending() ==> final(self).tree() == old(self).tree(),
            final(self).history() == old(self).history(),
    {
        if let TreeSlot::Pending(_) = &self.slot {
            let mut slot = TreeSlot::Failed;
            std::mem::swap(&mut slot, &mut self.slot);
            if let TreeSlot::Pending(factory) = slot {
                let ghost f = factory;
                assert(f == old(self).factory());
                let built = factory();
                let ghost outcome = built;
                match built {
                    Some(tree) => {
                        self.slot = TreeSlot::Ready(tree);
                    },
                    None => {},
                }
                assert(call_ensures(f, (), outcome) && self.is_ready() == (outcome is Some) && (
                outcome is Some ==> self.tree() == outcome->0));
                assert(call_ensures(old(self).factory(), (), outcome));
                assert(self.built_from_factory(old(self)));
            }
        }
        match &self.slot {
            TreeSlot::Ready(_) => true,
            _ => false,
        }
    }

    /// Applies `update` to the tree, building the tree first if needed.
    /// Returns whether a tree was there to take it.
    pub fn apply(&mut self, update: U) -> (r: bool)
        requires
            old(self).wf(),
        ensures
            final(self).wf(),
            !final(self).is_pending(),
            r == final(self).is_ready(),
            old(self).is_ready() ==> r,
            !old(self).is_pending() ==> final(self).is_ready() == old(self).is_ready(),
            final(self).built_as_factory_said(old(self)),
            r ==> final(self).history() == old(self).history().push(update),
            !r ==> final(self).history() == old(self).history(),
    {
        if !self.force() {
            return false;
        }
        match &mut self.slot {
            TreeSlot::Ready(tree) => {
                tree.apply(update);
            },
            _ => {},
        }
        self.history = Ghost(self.history@.push(update));
        true
    }

    /// The current state of the tree as one payload, building the tree
    /// first if needed; `None` when no tree could be built.
    pub fn snapshot(&mut self) -> (r: Option<Vec<u8>>)
        requires
            old(self).wf(),
        ensures
            final(self).wf(),
            !final(self).is_pending(),
            r is Some == final(self).is_ready(),
            r matches Some(b) ==> b@ == final(self).tree().encoded(),
            old(self).is_ready() ==> r is Some,
            !old(self).is_pending() ==> final(self).is_ready() == old(self).is_ready(),
            final(self).built_from_factory(old(self)),
            !old(self).is_pending() ==> final(self).tree() == old(self).tree(),
            final(self).history() == old(self).history(),
    {
        if !self.force() {
            return None;
        }
        match &self.slot {
            TreeSlot::Ready(tree) => Some(tree.serialize()),
            _ => None,
        }
    }
}

} // verus!
