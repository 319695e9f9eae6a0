//! Roblox's classes, from the compiler's own tables.
//!
//! The tables are fixed, so each question asked of them has one answer for one
//! name, and that answer is named here.

use vstd::prelude::*;
use vstd::string::*;

use crate::text;

verus! {

/// Strings as texts.
pub open spec fn texts(list: Seq<&'static str>) -> Seq<Seq<char>> {
    list.map_values(|one: &'static str| one@)
}

/// Whether `Instance.new` can create a class of this name.
pub uninterp spec fn creatable(name: Seq<char>) -> bool;

/// Every settable property of a class, inherited ones too.
pub uninterp spec fn properties_of(class: Seq<char>) -> Seq<Seq<char>>;

/// Every event of a class, inherited ones too.
pub uninterp spec fn events_of(class: Seq<char>) -> Seq<Seq<char>>;

/// The class that a class inherits from, if the tables know one.
pub uninterp spec fn superclass_of(class: Seq<char>) -> Option<Seq<char>>;

/// Whether Roblox marks a member name deprecated.
pub uninterp spec fn deprecated(member: Seq<char>) -> bool;

/// The creatable class whose name is nearest to another name, if one is near.
pub uninterp spec fn nearest_class(name: Seq<char>) -> Option<Seq<char>>;

/// The members of a class whose names are nearest to another name.
pub uninterp spec fn nearest_members(class: Seq<char>, name: Seq<char>) -> Seq<Seq<char>>;

/// Whether a class has a settable property or an event of a name.
pub open spec fn has_member(class: Seq<char>, name: Seq<char>) -> bool {
    properties_of(class).contains(name) || events_of(class).contains(name)
}

/// [`luaux::roblox::is_class`]: whether the name is a class that `Instance.new`
/// can create.
#[verifier::external_body]
pub(crate) fn is_class(name: &str) -> (r: bool)
    ensures
        r == creatable(name@),
{
    luaux::roblox::is_class(name)
}

/// [`luaux::roblox::has_property`]: whether a property is among those that
/// [`properties`] lists.
#[verifier::external_body]
pub(crate) fn has_property(class: &str, property: &str) -> (r: bool)
    ensures
        r == properties_of(class@).contains(property@),
{
    luaux::roblox::has_property(class, property)
}

/// [`luaux::roblox::is_event`]: whether a name is among those that [`events`]
/// lists.
#[verifier::external_body]
pub(crate) fn is_event(class: &str, name: &str) -> (r: bool)
    ensures
        r == events_of(class@).contains(name@),
{
    luaux::roblox::is_event(class, name)
}

/// [`luaux::roblox::has_text_property`]: whether a class has a property named
/// `Text`.
#[verifier::external_body]
pub(crate) fn has_text_property(name: &str) -> (r: bool)
    ensures
        r == properties_of(name@).contains("Text"@),
{
    luaux::roblox::has_text_property(name)
}

/// [`luaux::roblox::creatable_classes`]: every class that [`is_class`] accepts,
/// once each and in byte order.
#[verifier::external_body]
pub(crate) fn creatable_classes() -> (r: Vec<&'static str>)
    ensures
        forall|i: int| 0 <= i < r@.len() ==> creatable((#[trigger] r@[i])@),
        forall|name: Seq<char>| creatable(name) ==> #[trigger] texts(r@).contains(name),
        forall|i: int, j: int|
            0 <= i < j < r@.len() ==> text::precedes((#[trigger] r@[i])@, (#[trigger] r@[j])@),
{
    luaux::roblox::creatable_classes().collect()
}

/// [`luaux::roblox::properties`]: the named list, in order.
#[verifier::external_body]
pub(crate) fn properties(class: &str) -> (r: Vec<&'static str>)
    ensures
        texts(r@) == properties_of(class@),
{
    luaux::roblox::properties(class).collect()
}

/// [`luaux::roblox::events`]: the named list, in order.
#[verifier::external_body]
pub(crate) fn events(class: &str) -> (r: Vec<&'static str>)
    ensures
        texts(r@) == events_of(class@),
{
    luaux::roblox::events(class).collect()
}

/// Strings that may be missing, as texts.
pub open spec fn maybe_text(one: Option<&'static str>) -> Option<Seq<char>> {
    match one {
        Some(one) => Some(one@),
        None => None,
    }
}

/// [`luaux::roblox::superclass`]: the named class.
#[verifier::external_body]
pub(crate) fn superclass(class: &str) -> (r: Option<&'static str>)
    ensures
        maybe_text(r) == superclass_of(class@),
{
    luaux::roblox::superclass(class)
}

/// [`luaux::roblox::closest_class`]: the named class.
#[verifier::external_body]
pub(crate) fn closest_class(name: &str) -> (r: Option<&'static str>)
    ensures
        maybe_text(r) == nearest_class(name@),
{
    luaux::roblox::closest_class(name)
}

/// [`luaux::roblox::closest_members`]: the named list, in order.
#[verifier::external_body]
pub(crate) fn closest_members(class: &str, name: &str) -> (r: Vec<&'static str>)
    ensures
        texts(r@) == nearest_members(class@, name@),
{
    luaux::roblox::closest_members(class, name)
}

/// Whether one of several names is the preferred one: not deprecated unless all
/// of them are, and the first in byte order of those like it.
pub open spec fn prefers(candidates: Seq<Seq<char>>, winner: Seq<char>) -> bool {
    &&& candidates.contains(winner)
    &&& forall|i: int|
        #![trigger candidates[i]]
        0 <= i < candidates.len() ==> {
            &&& deprecated(winner) ==> deprecated(candidates[i])
            &&& deprecated(winner) == deprecated(candidates[i]) ==> !text::precedes(
                candidates[i],
                winner,
            )
        }
}

/// [`luaux::config::preferred`], which picks the preferred one of several
/// names, and none of no names.
#[verifier::external_body]
pub(crate) fn preferred(candidates: Vec<&'static str>) -> (r: Option<&'static str>)
    ensures
        r is Some <==> candidates@.len() > 0,
        r matches Some(winner) ==> candidates@.contains(winner) && forall|i: int|
            #![trigger candidates@[i]]
            0 <= i < candidates@.len() ==> {
                &&& deprecated(winner@) ==> deprecated(candidates@[i]@)
                &&& deprecated(winner@) == deprecated(candidates@[i]@) ==> !text::precedes(
                    candidates@[i]@,
                    winner@,
                )
            },
{
    let mut candidates = candidates;
    luaux::config::preferred(&mut candidates)
}

} // verus!
