//! A project's settings: its `luaux.toml`, as the compiler reads it.
//!
//! The compiler keeps its alias tables to itself and answers questions about
//! them. The tables are named here, by what they hold, and each question is
//! answered from those names.

use vstd::prelude::*;
use vstd::string::*;

use luaux::config::Config;

use crate::text;

verus! {

/// The compiler's settings.
#[verifier::external_type_specification]
#[verifier::external_body]
pub struct ExConfig(luaux::config::Config);

/// A blanket renaming scheme.
#[derive(Debug, Clone, Copy, PartialEq, Eq, Structural)]
pub enum Scheme {
    /// Roblox's own spelling.
    Pascal,
    Camel,
    Snake,
    Flat,
}

/// The tags that settings lay claim to: each stands for a class, or, where
/// there is none, has been retired by a rename.
pub uninterp spec fn claimed_tags(config: Config) -> Map<Seq<char>, Option<Seq<char>>>;

/// The classes that an entry renames, each with its new name.
pub uninterp spec fn renamed_classes(config: Config) -> Map<Seq<char>, Seq<char>>;

/// The members that an entry renames on a class, each with its new name.
pub uninterp spec fn renamed_members(config: Config) -> Map<(Seq<char>, Seq<char>), Seq<char>>;

/// What an attribute written on a class may be read as: a member's name, or
/// nothing where the spelling has been retired. There is more than one reading
/// only where two members were given the same new name.
pub uninterp spec fn readings(config: Config) -> Map<
    (Seq<char>, Seq<char>),
    Set<Option<Seq<char>>>,
>;

/// The scheme for element names.
pub uninterp spec fn tag_scheme(config: Config) -> Scheme;

/// The scheme for properties and events.
pub uninterp spec fn member_scheme(config: Config) -> Scheme;

/// What elements are built with, as it is written out.
pub uninterp spec fn factory_of(config: Config) -> Seq<char>;

/// A Roblox name, rewritten into a scheme.
pub uninterp spec fn cased(scheme: Scheme, name: Seq<char>) -> Seq<char>;

/// What a tag stands for, as far as the settings say.
#[derive(Debug)]
pub enum Claim {
    /// This class.
    Class(String),
    /// Nothing any more.
    Retired,
    /// Nothing in particular.
    Unclaimed,
}

/// [`Config::resolve_element`]: whether the settings claim a tag, and for which
/// class. Its error, which is a retired spelling, comes with a message that is
/// dropped here.
#[verifier::external_body]
pub(crate) fn resolve_element(config: &Config, written: &str) -> (r: Claim)
    ensures
        match r {
            Claim::Class(class) => claimed_tags(*config).contains_key(written@) && claimed_tags(
                *config,
            )[written@] == Some(class@),
            Claim::Retired => claimed_tags(*config).contains_key(written@) && claimed_tags(
                *config,
            )[written@] is None,
            Claim::Unclaimed => !claimed_tags(*config).contains_key(written@),
        },
{
    match config.resolve_element(written) {
        Ok(Some(class)) => Claim::Class(class.to_string()),
        Ok(None) => Claim::Unclaimed,
        Err(_) => Claim::Retired,
    }
}

/// Whether an entry gives a member a spelling on a class.
pub open spec fn given(
    config: Config,
    class: Seq<char>,
    canonical: Seq<char>,
    written: Seq<char>,
) -> bool {
    renamed_members(config).contains_key((class, canonical)) && renamed_members(config)[(
        class,
        canonical,
    )] == written
}

/// Whether a spelling may be read that way, as far as the entries settle it.
///
/// One that entries give is read as a member that one of them gives it to. Any
/// other has one reading: none, if an entry renames it; itself, if none does and
/// there is no scheme.
pub open spec fn reads_as(
    config: Config,
    class: Seq<char>,
    written: Seq<char>,
    reading: Option<Seq<char>>,
) -> bool {
    if exists|name: Seq<char>| #[trigger] given(config, class, name, written) {
        reading matches Some(name) && given(config, class, name, written)
    } else {
        &&& forall|other: Option<Seq<char>>| #[trigger]
            readings(config)[(class, written)].contains(other) ==> other == reading
        &&& renamed_members(config).contains_key((class, written)) ==> reading is None
        &&& !renamed_members(config).contains_key((class, written)) && member_scheme(
            config,
        ) is Pascal ==> reading == Some(written)
    }
}

/// [`Config::resolve_property`]: one of the readings of an attribute, and one that
/// the entries allow. Which one is open where entries give the spelling to several
/// members, since the compiler walks a hash table.
#[verifier::external_body]
pub(crate) fn resolve_property(config: &Config, class: &str, written: &str) -> (r: Option<String>)
    ensures
        readings(*config)[(class@, written@)].contains(text::view_of(r)),
        reads_as(*config, class@, written@, text::view_of(r)),
{
    config.resolve_property(class, written).ok()
}

/// [`Config::element_name`]: what an entry renames a class to, or its own name.
/// An entry that renames a class also claims the new name for it.
#[verifier::external_body]
pub(crate) fn element_name(config: &Config, class: &str) -> (r: String)
    ensures
        r@ == if renamed_classes(*config).contains_key(class@) {
            renamed_classes(*config)[class@]
        } else {
            class@
        },
        renamed_classes(*config).contains_key(class@) ==> claimed_tags(*config).contains_key(r@)
            && claimed_tags(*config)[r@] == Some(class@),
{
    config.element_name(class).to_string()
}

/// [`Config::property_name`]: what an entry renames a member of a class to, or
/// its own name.
#[verifier::external_body]
pub(crate) fn property_name(config: &Config, class: &str, canonical: &str) -> (r: String)
    ensures
        r@ == if renamed_members(*config).contains_key((class@, canonical@)) {
            renamed_members(*config)[(class@, canonical@)]
        } else {
            canonical@
        },
{
    config.property_name(class, canonical).to_string()
}

/// [`Config::element_casing`], variant for variant.
#[verifier::external_body]
pub(crate) fn element_casing(config: &Config) -> (r: Scheme)
    ensures
        r == tag_scheme(*config),
{
    match config.element_casing() {
        luaux::config::Casing::Pascal => Scheme::Pascal,
        luaux::config::Casing::Camel => Scheme::Camel,
        luaux::config::Casing::Snake => Scheme::Snake,
        luaux::config::Casing::Flat => Scheme::Flat,
    }
}

/// [`Config::property_casing`], variant for variant.
#[verifier::external_body]
pub(crate) fn property_casing(config: &Config) -> (r: Scheme)
    ensures
        r == member_scheme(*config),
{
    match config.property_casing() {
        luaux::config::Casing::Pascal => Scheme::Pascal,
        luaux::config::Casing::Camel => Scheme::Camel,
        luaux::config::Casing::Snake => Scheme::Snake,
        luaux::config::Casing::Flat => Scheme::Flat,
    }
}

/// [`luaux::config::Casing::apply`]: a name rewritten into a scheme. Roblox's
/// own spelling is left as it is.
#[verifier::external_body]
pub(crate) fn apply(scheme: Scheme, name: &str) -> (r: String)
    ensures
        r@ == cased(scheme, name@),
        scheme is Pascal ==> r@ == name@,
{
    let casing = match scheme {
        Scheme::Pascal => luaux::config::Casing::Pascal,
        Scheme::Camel => luaux::config::Casing::Camel,
        Scheme::Snake => luaux::config::Casing::Snake,
        Scheme::Flat => luaux::config::Casing::Flat,
    };
    casing.apply(name)
}

/// The `create` of a [`luaux::config::Config`], as it stands.
#[verifier::external_body]
pub(crate) fn factory(config: &Config) -> (r: String)
    ensures
        r@ == factory_of(*config),
{
    config.create.clone()
}

} // verus!
