//! The entity and component abstractions.
//!
//! An entity kind declares, at compile time, a fixed set of optional fields
//! ("components"), each tagged with a small integer kind number. `EntityBase`
//! exposes that presence information both to specifications (`spec_has`) and
//! to executable code (`has_kind`); `Component` ties one concrete component
//! type to its kind number and to the accessors that read, write and clear it.

use vstd::prelude::*;

verus! {

/// A requested change to one component of an entity, applied by
/// [`EntityBase::with_component_change`].
pub enum ChangeComponent<C> {
    /// Leave the component as it is.
    NoChange,
    /// Replace the component by a new value, whether or not one was present.
    Replace(C),
    /// Remove the component without adding a new one.
    Remove,
}

/// An entity: a record with mandatory properties and a fixed, enumerable set
/// of optional components, each identified by a kind number below
/// `comp_kinds()`.
pub trait EntityBase: Sized {
    /// The properties an entity is created from, as a tuple in declaration
    /// order.
    type CreationParams;

    /// How many component kinds this entity kind declares.
    spec fn comp_kinds() -> nat;

    /// Whether the component with kind number `k` is currently populated.
    spec fn spec_has(&self, k: int) -> bool;

    /// Creates an entity with the given properties and no components.
    fn new(params: Self::CreationParams) -> (e: Self)
        ensures
            forall|k: int| !e.spec_has(k),
    ;

    /// The number of declared component kinds, as a runtime value.
    fn num_kinds() -> (n: u32)
        ensures
            n as nat == Self::comp_kinds(),
    ;

    /// Whether the component with kind number `k` is currently populated,
    /// as a runtime test.
    fn has_kind(&self, k: u32) -> (b: bool)
        ensures
            b == self.spec_has(k as int),
    ;
}

/// Convenience accessors available on every entity kind; implemented once,
/// below, for every `EntityBase`.
pub trait EntityOps: EntityBase {
    /// Returns the entity with the given component set. A previous value of
    /// that component is discarded.
    fn with<C: Component<Self>>(self, component: C) -> (r: Self)
        ensures
            r == C::spec_set(self, component),
    ;

    /// Returns the entity with the given component removed.
    fn with_removed<C: Component<Self>>(self) -> (r: Self)
        ensures
            r == C::spec_clear(self),
    ;

    /// Applies a [`ChangeComponent`] to the entity and returns it.
    fn with_component_change<C: Component<Self>>(self, change: ChangeComponent<C>) -> (r: Self)
        ensures
            match change {
                ChangeComponent::NoChange => r == self,
                ChangeComponent::Replace(c) => r == C::spec_set(self, c),
                ChangeComponent::Remove => r == C::spec_clear(self),
            },
    ;

    /// True if the entity currently has the requested component kind.
    fn has<C: Component<Self>>(&self) -> (b: bool)
        ensures
            b == self.spec_has(C::kind()),
    ;

    /// The requested component, if present.
    fn get<C: Component<Self>>(&self) -> (r: Option<&C>)
        ensures
            r is Some <==> self.spec_has(C::kind()),
            r matches Some(v) ==> *v == C::spec_value(*self),
    ;

    /// Mutable access to the requested component, which must be present.
    fn get_mut<C: Component<Self>>(&mut self) -> (r: &mut C)
        requires
            old(self).spec_has(C::kind()),
        ensures
            *r == C::spec_value(*old(self)),
            *final(self) == C::spec_set(*old(self), *final(r)),
    ;

    /// Removes a component from the entity, returning the previous value if
    /// one was present.
    fn remove<C: Component<Self>>(&mut self) -> (r: Option<C>)
        ensures
            *final(self) == C::spec_clear(*old(self)),
            r is Some <==> old(self).spec_has(C::kind()),
            r matches Some(v) ==> v == C::spec_value(*old(self)),
    ;

    /// Adds a component to the entity, replacing a previous value silently.
    fn add<C: Component<Self>>(&mut self, component: C)
        ensures
            *final(self) == C::spec_set(*old(self), component),
    ;

    /// Reads the requested component through the given observer. If the
    /// entity has the component, the observer's result is returned.
    fn peek<C: Component<Self>, O, F: FnOnce(&C) -> O>(&self, f: F) -> (r: Option<O>)
        requires
            forall|c: &C| #[trigger] f.requires((c,)),
        ensures
            r is Some <==> self.spec_has(C::kind()),
            r matches Some(o) ==> f.ensures((&C::spec_value(*self),), o),
    ;

    /// Updates the requested component in place through the given closure,
    /// which runs only if the entity has the component; its result is then
    /// returned. Which components are present never changes.
    fn mutate<C: Component<Self>, O, F: FnOnce(&mut C) -> O>(&mut self, f: F) -> (r: Option<O>)
        requires
            forall|c: &mut C| #[trigger] f.requires((c,)),
        ensures
            r is Some <==> old(self).spec_has(C::kind()),
            forall|k: int| final(self).spec_has(k) == old(self).spec_has(k),
    ;

    /// Returns the entity with the requested component updated in place, as
    /// [`Self::mutate`] does; the closure runs only if the component is
    /// present.
    fn with_mutation<C: Component<Self>, F: FnOnce(&mut C)>(self, f: F) -> (r: Self)
        requires
            forall|c: &mut C| #[trigger] f.requires((c,)),
        ensures
            forall|k: int| r.spec_has(k) == self.spec_has(k),
    ;
}

impl<E: EntityBase> EntityOps for E {
    fn with<C: Component<Self>>(self, component: C) -> (r: Self) {
        let mut e = self;
        component.set(&mut e);
        e
    }

    fn with_removed<C: Component<Self>>(self) -> (r: Self) {
        let mut e = self;
        let _ = C::remove(&mut e);
        e
    }

    fn with_component_change<C: Component<Self>>(self, change: ChangeComponent<C>) -> (r: Self) {
        match change {
            ChangeComponent::NoChange => self,
            ChangeComponent::Replace(c) => self.with(c),
            ChangeComponent::Remove => self.with_removed::<C>(),
        }
    }

    fn has<C: Component<Self>>(&self) -> (b: bool) {
        C::get(self).is_some()
    }

    fn get<C: Component<Self>>(&self) -> (r: Option<&C>) {
        C::get(self)
    }

    fn get_mut<C: Component<Self>>(&mut self) -> (r: &mut C) {
        C::get_mut(self)
    }

    fn remove<C: Component<Self>>(&mut self) -> (r: Option<C>) {
        C::remove(self)
    }

    fn add<C: Component<Self>>(&mut self, component: C) {
        component.set(self);
    }

    fn peek<C: Component<Self>, O, F: FnOnce(&C) -> O>(&self, f: F) -> (r: Option<O>) {
        match C::get(self) {
            Some(c) => Some(f(c)),
            None => None,
        }
    }

    fn mutate<C: Component<Self>, O, F: FnOnce(&mut C) -> O>(&mut self, f: F) -> (r: Option<O>) {
        if self.has::<C>() {
            let c = C::get_mut(self);
            proof {
                C::lemma_set(*old(self), *final(c));
            }
            let o = f(c);
            Some(o)
        } else {
            None
        }
    }

    fn with_mutation<C: Component<Self>, F: FnOnce(&mut C)>(self, f: F) -> (r: Self) {
        let mut e = self;
        let _ = e.mutate::<C, (), F>(f);
        e
    }
}

/// One component type of the entity kind `E`.
///
/// `kind()` is the component's kind number; `spec_set` and `spec_clear` are
/// the mathematical record updates that the executable accessors perform, and
/// the lemmas below pin down how they interact with `spec_has`.
pub trait Component<E: EntityBase>: Sized {
    /// The kind number of this component type.
    spec fn kind() -> int;

    /// The value stored for this component; meaningful only when
    /// `e.spec_has(kind())`.
    spec fn spec_value(e: E) -> Self;

    /// The entity with this component set to `v`.
    spec fn spec_set(e: E, v: Self) -> E;

    /// The entity with this component removed.
    spec fn spec_clear(e: E) -> E;

    /// Kind numbers lie below the entity's declared count.
    proof fn kind_in_range()
        ensures
            0 <= Self::kind() < E::comp_kinds(),
    ;

    /// Setting this component populates exactly its own kind and stores `v`.
    proof fn lemma_set(e: E, v: Self)
        ensures
            forall|k: int|
                Self::spec_set(e, v).spec_has(k) == if k == Self::kind() {
                    true
                } else {
                    e.spec_has(k)
                },
            Self::spec_value(Self::spec_set(e, v)) == v,
    ;

    /// Clearing this component empties exactly its own kind; on an entity
    /// without the component it is the identity.
    proof fn lemma_clear(e: E)
        ensures
            forall|k: int|
                Self::spec_clear(e).spec_has(k) == if k == Self::kind() {
                    false
                } else {
                    e.spec_has(k)
                },
            !e.spec_has(Self::kind()) ==> Self::spec_clear(e) == e,
    ;

    /// The kind number, as a runtime value.
    fn kind_id() -> (k: u32)
        ensures
            k as int == Self::kind(),
    ;

    /// Stores `self` as the entity's component of this kind.
    fn set(self, e: &mut E)
        ensures
            *final(e) == Self::spec_set(*old(e), self),
    ;

    /// The entity's component of this kind, if present.
    fn get(e: &E) -> (r: Option<&Self>)
        ensures
            r is Some <==> e.spec_has(Self::kind()),
            r matches Some(v) ==> *v == Self::spec_value(*e),
    ;

    /// Mutable access to the entity's component of this kind, which must be
    /// present.
    fn get_mut(e: &mut E) -> (r: &mut Self)
        requires
            old(e).spec_has(Self::kind()),
        ensures
            *r == Self::spec_value(*old(e)),
            *final(e) == Self::spec_set(*old(e), *final(r)),
    ;

    /// Removes the entity's component of this kind, returning the previous
    /// value if one was present.
    fn remove(e: &mut E) -> (r: Option<Self>)
        ensures
            *final(e) == Self::spec_clear(*old(e)),
            r is Some <==> old(e).spec_has(Self::kind()),
            r matches Some(v) ==> v == Self::spec_value(*old(e)),
    ;
}

} // verus!
