//! Conditions: predicates over events, built from their configurations.
use vstd::prelude::*;
use crate::event::Event;

verus! {

/// A predicate over events.
pub trait Condition {
    /// Whether `e` satisfies the condition.
    spec fn holds(&self, e: &Event) -> bool;

    /// Checks `e` against the condition.
    fn check(&self, e: &Event) -> (r: bool)
        ensures
            r == self.holds(e),
    ;

    /// Checks `e` against the condition, explaining a failure. An implementation may give
    /// a more detailed explanation; by default it is "condition failed".
    fn check_with_context(&self, e: &Event) -> (r: Result<(), String>)
        ensures
            r is Ok <==> self.holds(e),
        default_ensures
            r is Ok <==> self.holds(e),
            r matches Err(m) ==> m@ == "condition failed"@,
    {
        if self.check(e) {
            Ok(())
        } else {
            Err(String::from_str("condition failed"))
        }
    }
}

/// The configuration of a kind of condition.
pub trait ConditionConfig {
    /// The condition the configuration builds.
    type Built: Condition;

    /// What building the configuration gives: the condition, or why it cannot be built.
    spec fn spec_build(&self) -> Result<Self::Built, String>;

    /// Builds the condition.
    fn build(&self) -> (r: Result<Self::Built, String>)
        ensures
            r == self.spec_build(),
    ;

    /// What building a condition written as a remap program gives.
    spec fn spec_build_remap(source: &String) -> Result<Self::Built, String>;

    /// Builds the condition that the remap program `source` expresses.
    fn build_remap(source: &String) -> (r: Result<Self::Built, String>)
        ensures
            r == Self::spec_build_remap(source),
    ;
}

/// A condition as configured: either a remap program given as a plain string, or a
/// configuration of some kind of condition.
#[derive(Debug, Clone)]
pub enum AnyCondition<M> {
    String(String),
    Config(M),
}

impl<M: ConditionConfig> AnyCondition<M> {
    /// Builds the condition: a string becomes a remap condition; a configuration builds
    /// the condition it describes.
    pub fn build(&self) -> (r: Result<M::Built, String>)
        ensures
            match self {
                AnyCondition::String(s) => r == M::spec_build_remap(s),
                AnyCondition::Config(m) => r == m.spec_build(),
            },
    {
        match self {
            AnyCondition::String(s) => M::build_remap(s),
            AnyCondition::Config(m) => m.build(),
        }
    }
}

} // verus!
