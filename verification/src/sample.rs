//! A small ready-made entity kind, written out by hand.
//!
//! A schema-declaration layer normally emits this shape: one mandatory
//! property (`age`), one optional field per component kind, and one
//! [`Component`] implementation per component type, with kind numbers
//! assigned in declaration order.

use vstd::prelude::*;
use vstd::pervasive::unreached;

use crate::entity::{Component, EntityBase};

verus! {

/// A sample component with kind number 0.
#[derive(Debug, PartialEq, Eq, Clone, Copy)]
pub struct ComponentA {
    pub alpha: i64,
}

/// A sample component with kind number 1.
#[derive(Debug, PartialEq, Eq, Clone, Copy)]
pub struct ComponentB {
    pub beta: i32,
}

/// A sample component with kind number 2.
#[derive(Debug, PartialEq, Eq, Clone, Copy)]
pub struct ComponentC {
    pub ceta: u32,
}

/// A sample entity with one property and three declared component kinds.
#[derive(Debug, PartialEq, Eq, Clone)]
pub struct Entity {
    pub age: u64,
    pub a: Option<ComponentA>,
    pub b: Option<ComponentB>,
    pub c: Option<ComponentC>,
}

impl EntityBase for Entity {
    type CreationParams = (u64,);

    open spec fn comp_kinds() -> nat {
        3
    }

    open spec fn spec_has(&self, k: int) -> bool {
        if k == 0 {
            self.a is Some
        } else if k == 1 {
            self.b is Some
        } else if k == 2 {
            self.c is Some
        } else {
            false
        }
    }

    fn new(params: (u64,)) -> (e: Self) {
        Entity { age: params.0, a: None, b: None, c: None }
    }

    fn num_kinds() -> (n: u32) {
        3
    }

    fn has_kind(&self, k: u32) -> (b: bool) {
        if k == 0 {
            self.a.is_some()
        } else if k == 1 {
            self.b.is_some()
        } else if k == 2 {
            self.c.is_some()
        } else {
            false
        }
    }
}

impl Component<Entity> for ComponentA {
    open spec fn kind() -> int {
        0
    }

    open spec fn spec_value(e: Entity) -> Self {
        e.a->0
    }

    open spec fn spec_set(e: Entity, v: Self) -> Entity {
        Entity { a: Some(v), ..e }
    }

    open spec fn spec_clear(e: Entity) -> Entity {
        Entity { a: None, ..e }
    }

    proof fn kind_in_range() {
    }

    proof fn lemma_set(e: Entity, v: Self) {
    }

    proof fn lemma_clear(e: Entity) {
    }

    fn kind_id() -> (k: u32) {
        0
    }

    fn set(self, e: &mut Entity) {
        e.a = Some(self);
    }

    fn get(e: &Entity) -> (r: Option<&Self>) {
        e.a.as_ref()
    }

    fn get_mut(e: &mut Entity) -> (r: &mut Self) {
        match &mut e.a {
            Some(v) => v,
            None => unreached(),
        }
    }

    fn remove(e: &mut Entity) -> (r: Option<Self>) {
        e.a.take()
    }
}

impl Component<Entity> for ComponentB {
    open spec fn kind() -> int {
        1
    }

    open spec fn spec_value(e: Entity) -> Self {
        e.b->0
    }

    open spec fn spec_set(e: Entity, v: Self) -> Entity {
        Entity { b: Some(v), ..e }
    }

    open spec fn spec_clear(e: Entity) -> Entity {
        Entity { b: None, ..e }
    }

    proof fn kind_in_range() {
    }

    proof fn lemma_set(e: Entity, v: Self) {
    }

    proof fn lemma_clear(e: Entity) {
    }

    fn kind_id() -> (k: u32) {
        1
    }

    fn set(self, e: &mut Entity) {
        e.b = Some(self);
    }

    fn get(e: &Entity) -> (r: Option<&Self>) {
        e.b.as_ref()
    }

    fn get_mut(e: &mut Entity) -> (r: &mut Self) {
        match &mut e.b {
            Some(v) => v,
            None => unreached(),
        }
    }

    fn remove(e: &mut Entity) -> (r: Option<Self>) {
        e.b.take()
    }
}

impl Component<Entity> for ComponentC {
    open spec fn kind() -> int {
        2
    }

    open spec fn spec_value(e: Entity) -> Self {
        e.c->0
    }

    open spec fn spec_set(e: Entity, v: Self) -> Entity {
        Entity { c: Some(v), ..e }
    }

    open spec fn spec_clear(e: Entity) -> Entity {
        Entity { c: None, ..e }
    }

    proof fn kind_in_range() {
    }

    proof fn lemma_set(e: Entity, v: Self) {
    }

    proof fn lemma_clear(e: Entity) {
    }

    fn kind_id() -> (k: u32) {
        2
    }

    fn set(self, e: &mut Entity) {
        e.c = Some(self);
    }

    fn get(e: &Entity) -> (r: Option<&Self>) {
        e.c.as_ref()
    }

    fn get_mut(e: &mut Entity) -> (r: &mut Self) {
        match &mut e.c {
            Some(v) => v,
            None => unreached(),
        }
    }

    fn remove(e: &mut Entity) -> (r: Option<Self>) {
        e.c.take()
    }
}

} // verus!
