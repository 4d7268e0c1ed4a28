//! The registry of resources: what each resource number stands for.

use std::collections::HashMap;
use vstd::prelude::*;
use vstd::std_specs::hash::group_hash_axioms;

verus! {

broadcast use group_hash_axioms;

pub type Resource = u16;

/// A resource and its name.
#[derive(Debug)]
pub struct ResourceDef {
    pub resource: Resource,
    pub name: String,
}

impl Clone for ResourceDef {
    fn clone(&self) -> (r: Self)
        ensures
            r == *self,
    {
        ResourceDef { resource: self.resource, name: self.name.clone() }
    }
}

/// The resources of a world, by number.
#[derive(Debug)]
pub struct ResourceRegistry {
    resources: HashMap<Resource, ResourceDef>,
}

impl Clone for ResourceRegistry {
    fn clone(&self) -> (r: Self)
        ensures
            r@ == self@,
    {
        ResourceRegistry { resources: self.resources.clone() }
    }
}

impl View for ResourceRegistry {
    type V = Map<Resource, ResourceDef>;

    closed spec fn view(&self) -> Map<Resource, ResourceDef> {
        self.resources@
    }
}

/// `d` is the resource `resource` with name `name`.
pub open spec fn resource_def_is(d: ResourceDef, resource: Resource, name: Seq<char>) -> bool {
    d.resource == resource && d.name@ == name
}

impl ResourceRegistry {
    pub fn empty() -> (r: ResourceRegistry)
        ensures
            r@ == Map::<Resource, ResourceDef>::empty(),
    {
        ResourceRegistry { resources: HashMap::new() }
    }

    /// The registry of the given resources.
    pub fn from_map(resources: HashMap<Resource, ResourceDef>) -> (r: ResourceRegistry)
        ensures
            r@ == resources@,
    {
        ResourceRegistry { resources }
    }

    /// The standard resources: common, iron and gold.
    pub fn default() -> (r: Self)
        ensures
            r@.dom() == set![0u16, 1u16, 2u16],
            resource_def_is(r@[0], 0, "Common"@),
            resource_def_is(r@[1], 1, "Iron"@),
            resource_def_is(r@[2], 2, "Gold"@),
    {
        let mut registry = ResourceRegistry { resources: HashMap::new() };
        registry.add(0, "Common");
        let ghost r0 = registry@;
        registry.add(1, "Iron");
        let ghost r1 = registry@;
        registry.add(2, "Gold");
        proof {
            assert(r0.contains_key(0));
            assert(r1.contains_key(0) && r1.contains_key(1));
            assert(registry@[0] == r0[0]);
            assert(registry@.dom() =~= set![0u16, 1u16, 2u16]);
        }
        registry
    }

    fn add(&mut self, resource: Resource, name: &str)
        ensures
            final(self)@.dom() == old(self)@.dom().insert(resource),
            resource_def_is(final(self)@[resource], resource, name@),
            forall|k: Resource| k != resource && #[trigger] old(self)@.contains_key(k) ==> final(self)@[k] == old(self)@[k],
    {
        self.resources.insert(resource, ResourceDef { resource, name: name.to_owned() });
    }

    /// The definition of `resource`, which must be registered.
    pub fn get_def(&self, resource: Resource) -> (r: &ResourceDef)
        requires
            self@.contains_key(resource),
        ensures
            *r == self@[resource],
    {
        self.resources.get(&resource).unwrap()
    }

    /// All registered resources.
    pub fn resources(&self) -> (r: &HashMap<Resource, ResourceDef>)
        ensures
            r@ == self@,
    {
        &self.resources
    }
}

} // verus!
