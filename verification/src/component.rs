//! A component: an instance of a blueprint, holding its package, its
//! blueprint name, its method authorization rules and its decoded state.
//!
//! Initializing a method resolves the component's soft authorization
//! rule into a hard rule by reading the referenced resources out of the
//! state value.

use vstd::prelude::*;
use crate::types::PackageAddress;

verus! {

/// A decoded state value: a tree of structs, enums and collections with
/// resource identifiers at the leaves.
#[derive(Debug, PartialEq, Eq)]
pub enum Value {
    Unit,
    Struct(Fields),
    Enum(u8, Fields),
    Array(Vec<Value>),
    Collection(Vec<Value>),
    Resource(u64),
    NonFungible(u64, u64),
}

/// The fields of a struct or enum value.
#[derive(Debug, PartialEq, Eq)]
pub enum Fields {
    Named(Vec<Value>),
    Unnamed(Vec<Value>),
    Unit,
}

/// A soft reference to the resource a rule demands: read from the
/// component state at a path, or given directly.
#[derive(Debug, PartialEq, Eq)]
pub enum ProofRuleResource {
    FromComponent(Vec<usize>),
    Resource(u64),
    NonFungible(u64, u64),
}

/// A list of soft resources.
#[derive(Debug, PartialEq, Eq)]
pub enum ResourceList {
    Nil,
    Cons(ProofRuleResource, Box<ResourceList>),
}

/// A soft authorization rule over soft resources.
#[derive(Debug, PartialEq, Eq)]
pub enum ProofRule {
    This(ProofRuleResource),
    SomeOfResource(u64, u64),
    AllOf(Box<RuleList>),
    OneOf(Box<RuleList>),
    CountOf(u64, ResourceList),
}

/// A list of soft rules.
#[derive(Debug, PartialEq, Eq)]
pub enum RuleList {
    Nil,
    Cons(ProofRule, Box<RuleList>),
}

/// A hard resource: fully resolved.
#[derive(Debug, Clone, Copy, PartialEq, Eq, Structural)]
pub enum HardProofRuleResource {
    Resource(u64),
    NonFungible(u64, u64),
}

/// A list of hard resources.
#[derive(Debug, PartialEq, Eq)]
pub enum HardResourceList {
    Nil,
    Cons(HardProofRuleResource, Box<HardResourceList>),
}

/// A hard authorization rule: what the auth layer actually checks.
#[derive(Debug, PartialEq, Eq)]
pub enum HardProofRule {
    This(HardProofRuleResource),
    SomeOfResource(u64, u64),
    AllOf(Box<HardRuleList>),
    OneOf(Box<HardRuleList>),
    CountOf(u64, HardResourceList),
}

/// A list of hard rules.
#[derive(Debug, PartialEq, Eq)]
pub enum HardRuleList {
    Nil,
    Cons(HardProofRule, Box<HardRuleList>),
}

/// The authorization demanded of one method.
#[derive(Debug, PartialEq, Eq)]
pub enum MethodAuthorization {
    Public,
    Protected(HardProofRule),
}

/// The value at `path` inside `v`, if the path resolves: each step
/// indexes the fields of a struct or enum, or the elements of a
/// collection.
pub open spec fn spec_get_from_value(path: Seq<usize>, v: Value) -> Option<Value>
    decreases path.len(), 2int,
{
    if path.len() == 0 {
        Some(v)
    } else {
        match v {
            Value::Struct(fields) => spec_get_from_fields(path, fields),
            Value::Enum(_, fields) => spec_get_from_fields(path, fields),
            Value::Array(values) => spec_get_from_vector(path, values@),
            Value::Collection(values) => spec_get_from_vector(path, values@),
            _ => None,
        }
    }
}

pub open spec fn spec_get_from_fields(path: Seq<usize>, fields: Fields) -> Option<Value>
    decreases path.len(), 1int,
{
    match fields {
        Fields::Named(values) => spec_get_from_vector(path, values@),
        Fields::Unnamed(values) => spec_get_from_vector(path, values@),
        Fields::Unit => None,
    }
}

pub open spec fn spec_get_from_vector(path: Seq<usize>, values: Seq<Value>) -> Option<Value>
    decreases path.len(), 0int,
{
    if path.len() == 0 {
        None
    } else if path[0] < values.len() {
        spec_get_from_value(path.drop_first(), values[path[0] as int])
    } else {
        None
    }
}

/// The hard resource a soft resource resolves to against the state
/// `dom`, if any: a state path must land on a resource leaf.
pub open spec fn spec_soft_to_hard_resource(pr: ProofRuleResource, dom: Value) -> Option<
    HardProofRuleResource,
> {
    match pr {
        ProofRuleResource::FromComponent(path) => match spec_get_from_value(path@, dom) {
            Some(Value::Resource(r)) => Some(HardProofRuleResource::Resource(r)),
            Some(Value::NonFungible(r, k)) => Some(HardProofRuleResource::NonFungible(r, k)),
            _ => None,
        },
        ProofRuleResource::Resource(r) => Some(HardProofRuleResource::Resource(r)),
        ProofRuleResource::NonFungible(r, k) => Some(HardProofRuleResource::NonFungible(r, k)),
    }
}

/// The hard rule a soft rule resolves to: an unresolvable single
/// resource collapses to an unsatisfiable empty alternative, and an
/// unresolvable member of a counted list is skipped.
pub open spec fn spec_soft_to_hard_rule(rule: ProofRule, dom: Value) -> HardProofRule
    decreases rule, 1int,
{
    match rule {
        ProofRule::This(pr) => match spec_soft_to_hard_resource(pr, dom) {
            Some(hard) => HardProofRule::This(hard),
            None => HardProofRule::OneOf(Box::new(HardRuleList::Nil)),
        },
        ProofRule::SomeOfResource(amount, r) => HardProofRule::SomeOfResource(amount, r),
        ProofRule::AllOf(rules) => HardProofRule::AllOf(
            Box::new(spec_soft_to_hard_rules(*rules, dom)),
        ),
        ProofRule::OneOf(rules) => HardProofRule::OneOf(
            Box::new(spec_soft_to_hard_rules(*rules, dom)),
        ),
        ProofRule::CountOf(count, resources) => HardProofRule::CountOf(
            count,
            spec_resolved_resources(resources, dom),
        ),
    }
}

pub open spec fn spec_soft_to_hard_rules(rules: RuleList, dom: Value) -> HardRuleList
    decreases rules, 0int,
{
    match rules {
        RuleList::Nil => HardRuleList::Nil,
        RuleList::Cons(first, rest) => HardRuleList::Cons(
            spec_soft_to_hard_rule(first, dom),
            Box::new(spec_soft_to_hard_rules(*rest, dom)),
        ),
    }
}

/// The resolvable members of a resource list, in order.
pub open spec fn spec_resolved_resources(resources: ResourceList, dom: Value) -> HardResourceList
    decreases resources,
{
    match resources {
        ResourceList::Nil => HardResourceList::Nil,
        ResourceList::Cons(first, rest) => match spec_soft_to_hard_resource(first, dom) {
            Some(hard) => HardResourceList::Cons(
                hard,
                Box::new(spec_resolved_resources(*rest, dom)),
            ),
            None => spec_resolved_resources(*rest, dom),
        },
    }
}

/// A component instance.
#[derive(Debug)]
pub struct Component {
    package_id: PackageAddress,
    blueprint_name: Vec<u8>,
    auth_rules: Vec<(u64, ProofRule)>,
    state: Value,
}

impl Component {
    pub closed spec fn spec_package_id(self) -> PackageAddress {
        self.package_id
    }

    pub closed spec fn spec_blueprint_name(self) -> Seq<u8> {
        self.blueprint_name@
    }

    pub closed spec fn spec_auth_rules(self) -> Seq<(u64, ProofRule)> {
        self.auth_rules@
    }

    pub closed spec fn spec_state(self) -> Value {
        self.state
    }

    /// The rule configured for a method, if any; the first entry for the
    /// method decides.
    pub open spec fn spec_rule_for(self, method: u64) -> Option<ProofRule> {
        rule_lookup(self.spec_auth_rules(), method)
    }

    pub fn new(
        package_id: PackageAddress,
        blueprint_name: Vec<u8>,
        auth_rules: Vec<(u64, ProofRule)>,
        state: Value,
    ) -> (r: Component)
        ensures
            r.spec_package_id() == package_id,
            r.spec_blueprint_name() == blueprint_name@,
            r.spec_auth_rules() == auth_rules@,
            r.spec_state() == state,
    {
        Component { package_id, blueprint_name, auth_rules, state }
    }

    fn get_from_vector<'a>(path: &[usize], values: &'a [Value]) -> (r: Option<&'a Value>)
        ensures
            match r {
                Some(v) => spec_get_from_vector(path@, values@) == Some(*v),
                None => spec_get_from_vector(path@, values@) is None,
            },
        decreases path@.len(), 0int,
    {
        if path.len() == 0 {
            return None;
        }
        let index = path[0];
        if index < values.len() {
            let (_, rest) = path.split_at(1);
            proof {
                assert(rest@ =~= path@.drop_first());
            }
            Component::get_from_value(rest, &values[index])
        } else {
            None
        }
    }

    fn get_from_fields<'a>(path: &[usize], fields: &'a Fields) -> (r: Option<&'a Value>)
        ensures
            match r {
                Some(v) => spec_get_from_fields(path@, *fields) == Some(*v),
                None => spec_get_from_fields(path@, *fields) is None,
            },
        decreases path@.len(), 1int,
    {
        match fields {
            Fields::Named(values) => Component::get_from_vector(path, values.as_slice()),
            Fields::Unnamed(values) => Component::get_from_vector(path, values.as_slice()),
            Fields::Unit => None,
        }
    }

    fn get_from_value<'a>(path: &[usize], value: &'a Value) -> (r: Option<&'a Value>)
        ensures
            match r {
                Some(v) => spec_get_from_value(path@, *value) == Some(*v),
                None => spec_get_from_value(path@, *value) is None,
            },
        decreases path@.len(), 2int,
    {
        if path.len() == 0 {
            return Some(value);
        }
        match value {
            Value::Struct(fields) => Component::get_from_fields(path, fields),
            Value::Enum(_, fields) => Component::get_from_fields(path, fields),
            Value::Array(values) => Component::get_from_vector(path, values.as_slice()),
            Value::Collection(values) => Component::get_from_vector(path, values.as_slice()),
            _ => None,
        }
    }

    fn soft_to_hard_resource(pr: &ProofRuleResource, dom: &Value) -> (r: Option<
        HardProofRuleResource,
    >)
        ensures
            r == spec_soft_to_hard_resource(*pr, *dom),
    {
        match pr {
            ProofRuleResource::FromComponent(path) => {
                match Component::get_from_value(path.as_slice(), dom) {
                    Some(Value::Resource(res)) => Some(HardProofRuleResource::Resource(*res)),
                    Some(Value::NonFungible(res, key)) => Some(
                        HardProofRuleResource::NonFungible(*res, *key),
                    ),
                    _ => None,
                }
            },
            ProofRuleResource::Resource(res) => Some(HardProofRuleResource::Resource(*res)),
            ProofRuleResource::NonFungible(res, key) => Some(
                HardProofRuleResource::NonFungible(*res, *key),
            ),
        }
    }

    fn soft_to_hard_rule(rule: &ProofRule, dom: &Value) -> (r: HardProofRule)
        ensures
            r == spec_soft_to_hard_rule(*rule, *dom),
        decreases *rule, 1int,
    {
        match rule {
            ProofRule::This(pr) => {
                match Component::soft_to_hard_resource(pr, dom) {
                    Some(hard) => HardProofRule::This(hard),
                    None => HardProofRule::OneOf(Box::new(HardRuleList::Nil)),
                }
            },
            ProofRule::SomeOfResource(amount, res) => HardProofRule::SomeOfResource(
                *amount,
                *res,
            ),
            ProofRule::AllOf(rules) => HardProofRule::AllOf(
                Box::new(Component::soft_to_hard_rules(rules, dom)),
            ),
            ProofRule::OneOf(rules) => HardProofRule::OneOf(
                Box::new(Component::soft_to_hard_rules(rules, dom)),
            ),
            ProofRule::CountOf(count, resources) => HardProofRule::CountOf(
                *count,
                Component::resolved_resources(resources, dom),
            ),
        }
    }

    fn soft_to_hard_rules(rules: &RuleList, dom: &Value) -> (r: HardRuleList)
        ensures
            r == spec_soft_to_hard_rules(*rules, *dom),
        decreases *rules, 0int,
    {
        match rules {
            RuleList::Nil => HardRuleList::Nil,
            RuleList::Cons(first, rest) => HardRuleList::Cons(
                Component::soft_to_hard_rule(first, dom),
                Box::new(Component::soft_to_hard_rules(rest, dom)),
            ),
        }
    }

    fn resolved_resources(resources: &ResourceList, dom: &Value) -> (r: HardResourceList)
        ensures
            r == spec_resolved_resources(*resources, *dom),
        decreases *resources,
    {
        match resources {
            ResourceList::Nil => HardResourceList::Nil,
            ResourceList::Cons(first, rest) => {
                match Component::soft_to_hard_resource(first, dom) {
                    Some(hard) => HardResourceList::Cons(
                        hard,
                        Box::new(Component::resolved_resources(rest, dom)),
                    ),
                    None => Component::resolved_resources(rest, dom),
                }
            },
        }
    }

    /// Resolves the authorization of a method against the current state:
    /// a configured rule hardens against the state; a method with no
    /// rule is public.
    pub fn initialize_method(&self, method: u64) -> (r: MethodAuthorization)
        ensures
            r == match self.spec_rule_for(method) {
                Some(rule) => MethodAuthorization::Protected(
                    spec_soft_to_hard_rule(rule, self.spec_state()),
                ),
                None => MethodAuthorization::Public,
            },
    {
        let count: usize = self.auth_rules.len();
        let mut i: usize = 0;
        while i < count
            invariant
                i <= count,
                count == self.auth_rules@.len(),
                rule_lookup(self.auth_rules@, method) == rule_lookup_from(
                    self.auth_rules@,
                    method,
                    i as int,
                ),
            decreases count - i,
        {
            if self.auth_rules[i].0 == method {
                let rule = &self.auth_rules[i].1;
                return MethodAuthorization::Protected(
                    Component::soft_to_hard_rule(rule, &self.state),
                );
            }
            i = i + 1;
        }
        MethodAuthorization::Public
    }

    pub fn auth_rules(&self) -> (r: &Vec<(u64, ProofRule)>)
        ensures
            r@ == self.spec_auth_rules(),
    {
        &self.auth_rules
    }

    pub fn package_id(&self) -> (r: PackageAddress)
        ensures
            r == self.spec_package_id(),
    {
        self.package_id
    }

    pub fn blueprint_name(&self) -> (r: &Vec<u8>)
        ensures
            r@ == self.spec_blueprint_name(),
    {
        &self.blueprint_name
    }

    pub fn state(&self) -> (r: &Value)
        ensures
            *r == self.spec_state(),
    {
        &self.state
    }

    pub fn set_state(&mut self, new_state: Value)
        ensures
            final(self).spec_state() == new_state,
            final(self).spec_package_id() == old(self).spec_package_id(),
            final(self).spec_blueprint_name() == old(self).spec_blueprint_name(),
            final(self).spec_auth_rules() == old(self).spec_auth_rules(),
    {
        self.state = new_state;
    }
}

/// The first configured rule for `method`, if any.
pub open spec fn rule_lookup(rules: Seq<(u64, ProofRule)>, method: u64) -> Option<ProofRule> {
    rule_lookup_from(rules, method, 0)
}

pub open spec fn rule_lookup_from(rules: Seq<(u64, ProofRule)>, method: u64, k: int) -> Option<
    ProofRule,
>
    decreases rules.len() - k,
{
    if k < 0 || k >= rules.len() {
        None
    } else if rules[k].0 == method {
        Some(rules[k].1)
    } else {
        rule_lookup_from(rules, method, k + 1)
    }
}

} // verus!
