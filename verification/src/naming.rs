//! The project's own spelling of Roblox's names.
//!
//! `[elements] all` and `[properties] all` rename every class, property and
//! event at once, and a rename **retires** the original — so in a project with
//! `all = "camelCase"`, `<TextLabel>` is an error and `<textLabel>` is the tag.
//! The rule that follows is the whole reason this module exists:
//!
//! > the server must never show a name the user could not write in their file.
//!
//! Everything the server *produces* — completion labels, did-you-mean lists,
//! hover text — has to be generated in the project's spelling rather than echoed
//! from the Roblox tables.
//!
//! The transform itself is the compiler's, and so is the rule for what happens
//! when two names collide. What is left here is the direction the compiler does
//! not expose: canonical → written, for every name at once, which is what
//! completion enumerates.
//!
//! **Correctness comes from asking, not from reimplementing.** A candidate
//! spelling is offered only once the compiler confirms it maps back to the class
//! it came from, which is the round trip that matters: every name offered is one
//! the compiler then accepts. That also settles the two cases a transform alone
//! gets wrong — a class that lost a collision (its spelling belongs to the other
//! one) and a class that opted back out of the scheme with an identity entry
//! (its spelling is the canonical after all).
//!
//! Asking costs enough across the class list that it is done **once per
//! config**, when a [`Vocabulary`] is made.

use vstd::prelude::*;
use vstd::string::*;

use luaux::config::Config;

use crate::classes::{self, creatable_classes, events, preferred, properties};
use crate::settings::{
    self, apply, element_casing, element_name, property_casing, property_name, resolve_element,
    resolve_property, Claim, Scheme,
};
use crate::text::{self, is_before, same};

verus! {

/// A Roblox name and how this project writes it.
#[derive(Debug)]
pub struct Named {
    /// What the user types, and what completion offers.
    pub written: String,
    /// What Roblox calls it, and what the API tables are keyed by.
    pub canonical: &'static str,
}

/// A name and its spelling, as texts.
pub struct NamedView {
    pub written: Seq<char>,
    pub canonical: Seq<char>,
}

impl View for Named {
    type V = NamedView;

    open spec fn view(&self) -> NamedView {
        NamedView { written: self.written@, canonical: self.canonical@ }
    }
}

pub open spec fn named_views(list: Seq<Named>) -> Seq<NamedView> {
    list.map_values(|named: Named| named@)
}

/// The spellings to try for a name, best first.
///
/// The scheme's form is what a project with `all` expects; the canonical is the
/// fallback for the two cases where the scheme does not apply after all — an
/// identity entry that opted out, and no scheme at all. An explicit rename beats
/// the scheme and cannot collide with it.
pub open spec fn spellings_of(alias: Seq<char>, canonical: Seq<char>, scheme: Scheme) -> Seq<
    Seq<char>,
> {
    if alias != canonical {
        seq![alias]
    } else if scheme is Pascal {
        seq![canonical]
    } else {
        seq![settings::cased(scheme, canonical), canonical]
    }
}

/// What an entry renames a class to, or its own name.
pub open spec fn class_alias(config: Config, class: Seq<char>) -> Seq<char> {
    if settings::renamed_classes(config).contains_key(class) {
        settings::renamed_classes(config)[class]
    } else {
        class
    }
}

/// Whether the compiler takes a tag for a class on the settings' word.
pub open spec fn claimed_for(config: Config, written: Seq<char>, class: Seq<char>) -> bool {
    settings::claimed_tags(config).contains_key(written) && settings::claimed_tags(config)[written]
        == Some(class)
}

/// The first of some spellings that reaches a class; without a scheme, the
/// first.
pub open spec fn first_reaching(config: Config, class: Seq<char>, tried: Seq<Seq<char>>) -> Option<
    Seq<char>,
>
    decreases tried.len(),
{
    if tried.len() == 0 {
        None
    } else if settings::tag_scheme(config) is Pascal || claimed_for(config, tried[0], class) {
        Some(tried[0])
    } else {
        first_reaching(config, class, tried.drop_first())
    }
}

/// How a project writes a class, if it can.
pub open spec fn spelling_of(config: Config, class: Seq<char>) -> Option<Seq<char>> {
    first_reaching(
        config,
        class,
        spellings_of(class_alias(config, class), class, settings::tag_scheme(config)),
    )
}

/// Those of some classes that a project can write, as it writes them.
pub open spec fn spelled_classes(config: Config, list: Seq<Seq<char>>) -> Seq<NamedView>
    decreases list.len(),
{
    if list.len() == 0 {
        Seq::empty()
    } else {
        let before = spelled_classes(config, list.drop_last());
        match spelling_of(config, list.last()) {
            Some(written) => before.push(NamedView { written, canonical: list.last() }),
            None => before,
        }
    }
}

/// Whether these are all the classes that can be created, in byte order.
pub open spec fn all_classes(list: Seq<Seq<char>>) -> bool {
    &&& forall|i: int| 0 <= i < list.len() ==> classes::creatable(#[trigger] list[i])
    &&& forall|name: Seq<char>| classes::creatable(name) ==> #[trigger] list.contains(name)
    &&& forall|i: int, j: int|
        0 <= i < j < list.len() ==> text::precedes(#[trigger] list[i], #[trigger] list[j])
}

/// Whether the settings claim, for each of some classes that an entry renames,
/// the new name.
pub open spec fn renames_claim(config: Config, list: Seq<NamedView>) -> bool {
    forall|i: int|
        #![trigger list[i]]
        0 <= i < list.len() && settings::renamed_classes(config).contains_key(list[i].canonical)
            ==> claimed_for(
            config,
            settings::renamed_classes(config)[list[i].canonical],
            list[i].canonical,
        )
}

/// How a project writes a member of a class. An explicit entry stands on its
/// own; only names no entry claimed go through the scheme.
pub open spec fn member_spelling(config: Config, class: Seq<char>, canonical: Seq<char>) -> Seq<
    char,
> {
    let alias = if settings::renamed_members(config).contains_key((class, canonical)) {
        settings::renamed_members(config)[(class, canonical)]
    } else {
        canonical
    };
    if alias != canonical {
        alias
    } else if settings::member_scheme(config) is Pascal {
        canonical
    } else {
        settings::cased(settings::member_scheme(config), canonical)
    }
}

/// The properties and then the events of a class, each with its spelling.
pub open spec fn spelled_members(config: Config, class: Seq<char>) -> Seq<NamedView> {
    (classes::properties_of(class) + classes::events_of(class)).map_values(
        |canonical: Seq<char>|
            NamedView { written: member_spelling(config, class, canonical), canonical },
    )
}

/// Which of some names are spelled one way, in order.
pub open spec fn sharing(list: Seq<NamedView>, written: Seq<char>) -> Seq<Seq<char>>
    decreases list.len(),
{
    if list.len() == 0 {
        Seq::empty()
    } else {
        let before = sharing(list.drop_last(), written);
        if list.last().written == written {
            before.push(list.last().canonical)
        } else {
            before
        }
    }
}

/// Whether `settled` holds each spelling of `list` once, in byte order, with
/// the preferred one of the names that share it.
pub open spec fn settles(list: Seq<NamedView>, settled: Seq<NamedView>) -> bool {
    &&& forall|i: int, j: int|
        0 <= i < j < settled.len() ==> text::precedes(
            (#[trigger] settled[i]).written,
            (#[trigger] settled[j]).written,
        )
    &&& forall|i: int|
        0 <= i < settled.len() ==> classes::prefers(
            sharing(list, (#[trigger] settled[i]).written),
            settled[i].canonical,
        )
    &&& forall|i: int|
        0 <= i < list.len() ==> exists|j: int|
            0 <= j < settled.len() && (#[trigger] settled[j]).written == (
            #[trigger] list[i]).written
}

/// Those of some names that the compiler reads back as themselves; without a
/// scheme, all of them.
pub open spec fn read_back(
    scheme: Scheme,
    settled: Seq<NamedView>,
    taken: Seq<Option<Seq<char>>>,
) -> Seq<NamedView>
    decreases settled.len(),
{
    if settled.len() == 0 {
        Seq::empty()
    } else {
        let n = settled.len() - 1;
        let before = read_back(scheme, settled.drop_last(), taken);
        if scheme is Pascal || taken[n] == Some(settled.last().canonical) {
            before.push(settled.last())
        } else {
            before
        }
    }
}

/// Whether `offered` are the members of a class as a project writes them, for
/// one way of reading each spelling.
pub open spec fn offers(config: Config, class: Seq<char>, offered: Seq<NamedView>) -> bool {
    exists|settled: Seq<NamedView>, taken: Seq<Option<Seq<char>>>|
        #![trigger read_back(settings::member_scheme(config), settled, taken)]
        {
            &&& settles(spelled_members(config, class), settled)
            &&& taken.len() == settled.len()
            &&& forall|i: int|
                0 <= i < taken.len() && !(settings::member_scheme(config) is Pascal)
                    ==> settings::readings(config)[(class, settled[i].written)].contains(
                    #[trigger] taken[i],
                )
            &&& offered == read_back(settings::member_scheme(config), settled, taken)
        }
}

/// The spelling of the first name that is `canonical`, or else that itself.
pub open spec fn spelling_in(list: Seq<NamedView>, canonical: Seq<char>) -> Seq<char>
    decreases list.len(),
{
    if list.len() == 0 {
        canonical
    } else if list[0].canonical == canonical {
        list[0].written
    } else {
        spelling_in(list.drop_first(), canonical)
    }
}

/// A project's vocabulary, derived from its `luaux.toml`.
pub struct Vocabulary {
    elements: Vec<Named>,
}

impl Vocabulary {
    /// The elements that may be written.
    pub closed spec fn listed(self) -> Seq<NamedView> {
        named_views(self.elements@)
    }

    /// Whether this is the vocabulary of a project with these settings.
    pub open spec fn of(self, config: Config) -> bool {
        &&& exists|list: Seq<Seq<char>>| #[trigger]
            all_classes(list) && self.listed() == spelled_classes(config, list)
        &&& renames_claim(config, self.listed())
    }

    pub fn new(config: &Config) -> (r: Self)
        ensures
            r.of(*config),
    {
        let casing = element_casing(config);
        let list = creatable_classes();
        let mut elements: Vec<Named> = Vec::new();
        let mut i: usize = 0;
        while i < list.len()
            invariant
                i <= list@.len(),
                casing == settings::tag_scheme(*config),
                named_views(elements@) == spelled_classes(
                    *config,
                    classes::texts(list@).take(i as int),
                ),
                renames_claim(*config, named_views(elements@)),
            decreases list@.len() - i,
        {
            let class = list[i];
            proof {
                let taken = classes::texts(list@).take(i + 1);
                assert(taken.drop_last() =~= classes::texts(list@).take(i as int));
                assert(taken.last() == class@);
            }
            let alias = element_name(config, class);
            match reaching(config, class, spellings(alias.as_str(), class, casing)) {
                Some(written) => {
                    let named = Named { written, canonical: class };
                    assert(named_views(elements@.push(named)) =~= named_views(elements@).push(
                        named@,
                    ));
                    elements.push(named);
                },
                None => {},
            }
            i = i + 1;
        }
        proof {
            let all = classes::texts(list@);
            assert(all.take(all.len() as int) =~= all);
            assert forall|i: int, j: int| 0 <= i < j < all.len() implies text::precedes(
                #[trigger] all[i],
                #[trigger] all[j],
            ) by {
                assert(text::precedes(list@[i]@, list@[j]@));
            }
            assert forall|i: int| 0 <= i < all.len() implies classes::creatable(
                #[trigger] all[i],
            ) by {
                assert(classes::creatable(list@[i]@));
            }
            assert(all_classes(all));
        }
        Vocabulary { elements }
    }

    /// Every element this project may write, in its own spelling.
    pub fn elements(&self) -> (r: &[Named])
        ensures
            named_views(r@) == self.listed(),
    {
        self.elements.as_slice()
    }

    /// Every property and event on `class`, in this project's spelling.
    ///
    /// Collisions are resolved the compiler's way — the non-deprecated name
    /// wins, then byte order — because offering both would show two identical
    /// entries that mean different things.
    pub fn members(&self, config: &Config, class: &str) -> (r: Vec<Named>)
        ensures
            offers(*config, class@, named_views(r@)),
    {
        let casing = property_casing(config);
        let settled = settle(spell_members(config, class));
        let ghost all = named_views(settled@);
        let ghost mut taken: Seq<Option<Seq<char>>> = Seq::empty();
        let mut out: Vec<Named> = Vec::new();
        proof {
            assert(all.take(0) =~= Seq::<NamedView>::empty());
        }
        for named in it: settled
            invariant
                all == named_views(it.seq()),
                casing == settings::member_scheme(*config),
                taken.len() == it.index(),
                forall|i: int|
                    0 <= i < taken.len() && !(casing is Pascal) ==> settings::readings(
                        *config,
                    )[(class@, all[i].written)].contains(#[trigger] taken[i]),
                named_views(out@) == read_back(casing, all.take(it.index()), taken),
        {
            let ghost before = taken;
            // The same round trip as for elements. It is what catches an
            // identity entry, whose spelling the scheme would otherwise have
            // taken.
            let kept = match casing {
                Scheme::Pascal => {
                    proof {
                        taken = taken.push(None);
                    }
                    true
                },
                _ => {
                    let reading = resolve_property(config, class, named.written.as_str());
                    proof {
                        taken = taken.push(text::view_of(reading));
                    }
                    match reading {
                        Some(name) => same(name.as_str(), named.canonical),
                        None => false,
                    }
                },
            };
            proof {
                let more = all.take(it.index() + 1);
                assert(more.drop_last() =~= all.take(it.index()));
                assert(more.last() == named@);
                lemma_read_back_prefix(casing, all.take(it.index()), before, taken);
                assert(named_views(out@.push(named)) =~= named_views(out@).push(named@));
            }
            if kept {
                out.push(named);
            }
        }
        proof {
            assert(all.take(all.len() as int) =~= all);
            assert(named_views(out@) == read_back(settings::member_scheme(*config), all, taken));
        }
        out
    }

    /// How this project writes one class, for the places that name a single one
    /// — hover, and a did-you-mean.
    ///
    /// A class that reaches nothing — it lost a collision — has no spelling in
    /// this project. Its own name is the least wrong thing to show, and the
    /// compiler's diagnostic says the rest.
    pub fn element(&self, class: &str) -> (r: String)
        ensures
            r@ == spelling_in(self.listed(), class@),
    {
        look_up(&self.elements, class)
    }

    /// How this project writes one member of `class`.
    pub fn member(&self, config: &Config, class: &str, canonical: &str) -> (r: String)
        ensures
            exists|list: Seq<NamedView>| #[trigger]
                offers(*config, class@, list) && r@ == spelling_in(list, canonical@),
    {
        look_up(&self.members(config, class), canonical)
    }
}

/// The spelling of the first name that is `canonical`.
pub fn look_up(list: &Vec<Named>, canonical: &str) -> (r: String)
    ensures
        r@ == spelling_in(named_views(list@), canonical@),
{
    let ghost all = named_views(list@);
    let mut i: usize = 0;
    assert(all.skip(0) =~= all);
    while i < list.len()
        invariant
            i <= list@.len(),
            all == named_views(list@),
            spelling_in(all, canonical@) == spelling_in(all.skip(i as int), canonical@),
        decreases list@.len() - i,
    {
        proof {
            assert(all.skip(i as int)[0] == list@[i as int]@);
            assert(all.skip(i as int).drop_first() =~= all.skip(i + 1));
        }
        if same(list[i].canonical, canonical) {
            return list[i].written.clone();
        }
        i = i + 1;
    }
    canonical.to_owned()
}

/// The spellings to try for a name, best first.
fn spellings(alias: &str, canonical: &str, casing: Scheme) -> (r: Vec<String>)
    ensures
        r@.map_values(|one: String| one@) == spellings_of(alias@, canonical@, casing),
{
    let mut out: Vec<String> = Vec::new();
    if !same(alias, canonical) {
        out.push(alias.to_owned());
    } else if matches!(casing, Scheme::Pascal) {
        out.push(canonical.to_owned());
    } else {
        out.push(apply(casing, canonical));
        out.push(canonical.to_owned());
    }
    assert(out@.map_values(|one: String| one@) =~= spellings_of(alias@, canonical@, casing));
    out
}

/// The first of some spellings that reaches a class. The compiler is the
/// authority on whether a spelling does.
fn reaching(config: &Config, class: &str, tried: Vec<String>) -> (r: Option<String>)
    ensures
        text::view_of(r) == first_reaching(
            *config,
            class@,
            tried@.map_values(|one: String| one@),
        ),
{
    let casing = element_casing(config);
    let ghost all = tried@.map_values(|one: String| one@);
    let mut i: usize = 0;
    assert(all.skip(0) =~= all);
    while i < tried.len()
        invariant
            i <= tried@.len(),
            casing == settings::tag_scheme(*config),
            all == tried@.map_values(|one: String| one@),
            first_reaching(*config, class@, all) == first_reaching(
                *config,
                class@,
                all.skip(i as int),
            ),
        decreases tried@.len() - i,
    {
        proof {
            assert(all.skip(i as int)[0] == tried@[i as int]@);
            assert(all.skip(i as int).drop_first() =~= all.skip(i + 1));
        }
        let reached = match casing {
            Scheme::Pascal => true,
            _ => match resolve_element(config, tried[i].as_str()) {
                Claim::Class(found) => same(found.as_str(), class),
                _ => false,
            },
        };
        if reached {
            return Some(tried[i].clone());
        }
        i = i + 1;
    }
    None
}

/// The properties and then the events of a class, each with its spelling.
fn spell_members(config: &Config, class: &str) -> (r: Vec<Named>)
    ensures
        named_views(r@) == spelled_members(*config, class@),
{
    let mut list = properties(class);
    let mut more = events(class);
    assert(classes::texts(list@ + more@) =~= classes::texts(list@) + classes::texts(more@));
    list.append(&mut more);
    let casing = property_casing(config);
    let mut out: Vec<Named> = Vec::new();
    let mut i: usize = 0;
    while i < list.len()
        invariant
            i <= list@.len(),
            casing == settings::member_scheme(*config),
            classes::texts(list@) == classes::properties_of(class@) + classes::events_of(class@),
            named_views(out@) =~= spelled_members(*config, class@).take(i as int),
        decreases list@.len() - i,
    {
        let canonical = list[i];
        assert(classes::texts(list@)[i as int] == canonical@);
        let alias = property_name(config, class, canonical);
        let written = if same(alias.as_str(), canonical) {
            apply(casing, canonical)
        } else {
            alias
        };
        assert(written@ == member_spelling(*config, class@, canonical@));
        assert(spelled_members(*config, class@)[i as int] == (NamedView {
            written: written@,
            canonical: canonical@,
        }));
        let named = Named { written, canonical };
        proof {
            let all = spelled_members(*config, class@);
            assert(named_views(out@.push(named)) =~= named_views(out@).push(named@));
            assert(all.take(i + 1) =~= all.take(i as int).push(all[i as int]));
        }
        out.push(named);
        i = i + 1;
    }
    assert(named_views(out@) =~= spelled_members(*config, class@));
    out
}

/// Names that share a spelling.
struct Group {
    written: String,
    candidates: Vec<&'static str>,
}

/// Whether groups hold each spelling once, in byte order, with every name that
/// shares it.
spec fn grouped(list: Seq<NamedView>, groups: Seq<Group>) -> bool {
    &&& forall|i: int, j: int|
        0 <= i < j < groups.len() ==> text::precedes(
            (#[trigger] groups[i]).written@,
            (#[trigger] groups[j]).written@,
        )
    &&& forall|i: int|
        0 <= i < groups.len() ==> classes::texts((#[trigger] groups[i]).candidates@) == sharing(
            list,
            groups[i].written@,
        ) && groups[i].candidates@.len() > 0
    &&& forall|i: int|
        0 <= i < list.len() ==> exists|j: int|
            0 <= j < groups.len() && (#[trigger] groups[j]).written@ == (#[trigger] list[i]).written
}

/// Each spelling once, with the preferred one of the names that share it.
fn settle(list: Vec<Named>) -> (r: Vec<Named>)
    ensures
        settles(named_views(list@), named_views(r@)),
{
    let ghost all = named_views(list@);
    let mut groups: Vec<Group> = Vec::new();
    proof {
        assert(all.take(0) =~= Seq::<NamedView>::empty());
    }
    for named in it: list
        invariant
            all == named_views(it.seq()),
            grouped(all.take(it.index()), groups@),
    {
        proof {
            assert(all.take(it.index() + 1) =~= all.take(it.index()).push(named@));
        }
        join(&mut groups, named, Ghost(all.take(it.index())));
    }
    assert(all.take(all.len() as int) =~= all);
    let ghost whole = groups@;
    let mut out: Vec<Named> = Vec::new();
    for group in it: groups
        invariant
            it.seq() == whole,
            grouped(all, whole),
            out@.len() == it.index(),
            forall|i: int|
                #![trigger out@[i]]
                0 <= i < out@.len() ==> out@[i].written == whole[i].written && classes::prefers(
                    sharing(all, out@[i].written@),
                    out@[i].canonical@,
                ),
    {
        assert(group == whole[it.index()]);
        let ghost candidates = group.candidates@;
        match preferred(group.candidates) {
            Some(canonical) => {
                proof {
                    let at = choose|at: int|
                        0 <= at < candidates.len() && candidates[at] == canonical;
                    assert(classes::texts(candidates)[at] == canonical@);
                    assert(classes::prefers(classes::texts(candidates), canonical@));
                }
                out.push(Named { written: group.written, canonical });
            },
            None => {},
        }
    }
    proof {
        let settled = named_views(out@);
        assert forall|i: int, j: int| 0 <= i < j < settled.len() implies text::precedes(
            (#[trigger] settled[i]).written,
            (#[trigger] settled[j]).written,
        ) by {
            assert(out@[i].written == whole[i].written);
            assert(out@[j].written == whole[j].written);
        }
        assert forall|i: int| 0 <= i < settled.len() implies classes::prefers(
            sharing(all, (#[trigger] settled[i]).written),
            settled[i].canonical,
        ) by {
            assert(out@[i].written == whole[i].written);
        }
        assert forall|i: int| 0 <= i < all.len() implies exists|j: int|
            0 <= j < settled.len() && (#[trigger] settled[j]).written == (
            #[trigger] all[i]).written by {
            let j = choose|j: int|
                0 <= j < whole.len() && (#[trigger] whole[j]).written@ == all[i].written;
            assert(out@[j].written == whole[j].written);
            assert(settled[j].written == all[i].written);
        }
    }
    out
}

/// Puts one more name into its group.
fn join(groups: &mut Vec<Group>, named: Named, list: Ghost<Seq<NamedView>>)
    requires
        grouped(list@, old(groups)@),
    ensures
        grouped(list@.push(named@), final(groups)@),
{
    let ghost before = groups@;
    let ghost more = list@.push(named@);
    let mut at: usize = 0;
    while at < groups.len() && is_before(groups[at].written.as_str(), named.written.as_str())
        invariant
            groups@ == before,
            at <= groups@.len(),
            forall|j: int| 0 <= j < at ==> text::precedes((#[trigger] before[j]).written@, named.written@),
        decreases groups@.len() - at,
    {
        at = at + 1;
    }
    proof {
        assert(more.drop_last() =~= list@);
    }
    if at < groups.len() && same(groups[at].written.as_str(), named.written.as_str()) {
        let mut group = groups.remove(at);
        assert(classes::texts(group.candidates@.push(named.canonical)) =~= classes::texts(
            group.candidates@,
        ).push(named.canonical@));
        group.candidates.push(named.canonical);
        groups.insert(at, group);
        proof {
            assert forall|i: int| 0 <= i < groups@.len() implies (#[trigger] groups@[i]).written@
                == before[i].written@ && (i != at ==> groups@[i] == before[i]) by {}
            lemma_joined(list@, named@, before, groups@, at as int);
        }
    } else {
        proof {
            assert forall|j: int| at <= j < before.len() implies text::precedes(
                named.written@,
                (#[trigger] before[j]).written@,
            ) by {
                text::lemma_precedes(named.written@, before[at as int].written@, before[j].written@);
                if j > at {
                    assert(text::precedes(before[at as int].written@, before[j].written@));
                }
            }
        }
        let mut candidates: Vec<&'static str> = Vec::new();
        candidates.push(named.canonical);
        assert(classes::texts(candidates@) =~= seq![named.canonical@]);
        let ghost name = named@;
        let group = Group { written: named.written, candidates };
        groups.insert(at, group);
        proof {
            lemma_inserted(list@, name, before, groups@, at as int);
        }
    }
}

proof fn lemma_joined(
    list: Seq<NamedView>,
    named: NamedView,
    before: Seq<Group>,
    after: Seq<Group>,
    at: int,
)
    requires
        grouped(list, before),
        0 <= at < before.len(),
        after.len() == before.len(),
        forall|i: int|
            0 <= i < after.len() ==> (#[trigger] after[i]).written@ == before[i].written@ && (i != at
                ==> after[i] == before[i]),
        after[at].written@ == named.written,
        classes::texts(after[at].candidates@) == classes::texts(before[at].candidates@).push(
            named.canonical,
        ),
    ensures
        grouped(list.push(named), after),
{
    let more = list.push(named);
    assert(more.drop_last() =~= list);
    assert forall|i: int, j: int| 0 <= i < j < after.len() implies text::precedes(
        (#[trigger] after[i]).written@,
        (#[trigger] after[j]).written@,
    ) by {
        assert(text::precedes(before[i].written@, before[j].written@));
    }
    assert forall|i: int| 0 <= i < after.len() implies classes::texts(
        (#[trigger] after[i]).candidates@,
    ) == sharing(more, after[i].written@) && after[i].candidates@.len() > 0 by {
        assert(classes::texts(before[i].candidates@) == sharing(list, before[i].written@));
        if i != at {
            if i < at {
                assert(text::precedes(before[i].written@, before[at].written@));
            } else {
                assert(text::precedes(before[at].written@, before[i].written@));
            }
            text::lemma_precedes(before[i].written@, before[at].written@, before[i].written@);
            text::lemma_precedes(before[at].written@, before[i].written@, before[at].written@);
        } else {
            assert(classes::texts(after[at].candidates@).len() > 0);
        }
    }
    assert forall|i: int| 0 <= i < more.len() implies exists|j: int|
        0 <= j < after.len() && (#[trigger] after[j]).written@ == (#[trigger] more[i]).written by {
        if i < list.len() {
            assert(more[i] == list[i]);
            let j = choose|j: int|
                0 <= j < before.len() && (#[trigger] before[j]).written@ == list[i].written;
            assert(after[j].written@ == list[i].written);
        } else {
            assert(after[at].written@ == more[i].written);
        }
    }
}

proof fn lemma_inserted(
    list: Seq<NamedView>,
    named: NamedView,
    before: Seq<Group>,
    after: Seq<Group>,
    at: int,
)
    requires
        grouped(list, before),
        0 <= at <= before.len(),
        after == before.insert(at, after[at]),
        after[at].written@ == named.written,
        classes::texts(after[at].candidates@) == seq![named.canonical],
        forall|j: int|
            0 <= j < at ==> text::precedes((#[trigger] before[j]).written@, named.written),
        forall|j: int|
            at <= j < before.len() ==> text::precedes(
                named.written,
                (#[trigger] before[j]).written@,
            ),
    ensures
        grouped(list.push(named), after),
{
    let more = list.push(named);
    assert(more.drop_last() =~= list);
    assert forall|i: int| 0 <= i < before.len() implies (#[trigger] before[i]).written@
        != named.written by {
        text::lemma_precedes(named.written, before[i].written@, named.written);
    }
    assert forall|i: int| 0 <= i < list.len() implies (#[trigger] list[i]).written
        != named.written by {
        let j = choose|j: int|
            0 <= j < before.len() && (#[trigger] before[j]).written@ == list[i].written;
        assert(before[j].written@ != named.written);
    }
    lemma_none_sharing(list, named.written);
    assert forall|i: int, j: int| 0 <= i < j < after.len() implies text::precedes(
        (#[trigger] after[i]).written@,
        (#[trigger] after[j]).written@,
    ) by {
        let a = if i < at { i } else { i - 1 };
        let b = if j < at { j } else { j - 1 };
        if i != at && j != at {
            assert(text::precedes(before[a].written@, before[b].written@));
        }
    }
    assert forall|i: int| 0 <= i < after.len() implies classes::texts(
        (#[trigger] after[i]).candidates@,
    ) == sharing(more, after[i].written@) && after[i].candidates@.len() > 0 by {
        if i != at {
            let a = if i < at { i } else { i - 1 };
            assert(after[i] == before[a]);
            assert(classes::texts(before[a].candidates@) == sharing(list, before[a].written@));
        } else {
            assert(classes::texts(after[at].candidates@).len() == 1);
            assert(sharing(more, named.written) =~= seq![named.canonical]);
        }
    }
    assert forall|i: int| 0 <= i < more.len() implies exists|j: int|
        0 <= j < after.len() && (#[trigger] after[j]).written@ == (#[trigger] more[i]).written by {
        if i < list.len() {
            assert(more[i] == list[i]);
            let j = choose|j: int|
                0 <= j < before.len() && (#[trigger] before[j]).written@ == list[i].written;
            let k = if j < at { j } else { j + 1 };
            assert(after[k] == before[j]);
        } else {
            assert(after[at].written@ == more[i].written);
        }
    }
}

proof fn lemma_none_sharing(list: Seq<NamedView>, written: Seq<char>)
    requires
        forall|i: int| 0 <= i < list.len() ==> (#[trigger] list[i]).written != written,
    ensures
        sharing(list, written).len() == 0,
    decreases list.len(),
{
    if list.len() > 0 {
        lemma_none_sharing(list.drop_last(), written);
    }
}

proof fn lemma_read_back_prefix(
    scheme: Scheme,
    settled: Seq<NamedView>,
    a: Seq<Option<Seq<char>>>,
    b: Seq<Option<Seq<char>>>,
)
    requires
        settled.len() <= a.len(),
        a.len() <= b.len(),
        forall|i: int| 0 <= i < a.len() ==> a[i] == #[trigger] b[i],
    ensures
        read_back(scheme, settled, a) == read_back(scheme, settled, b),
    decreases settled.len(),
{
    if settled.len() > 0 {
        lemma_read_back_prefix(scheme, settled.drop_last(), a, b);
        assert(a[settled.len() - 1] == b[settled.len() - 1]);
    }
}

/// Whether the compiler accepts a spelling for a class: by the settings' claim,
/// or, where they claim nothing, as the class's own name.
pub open spec fn element_accepted(config: Config, named: NamedView) -> bool {
    if settings::claimed_tags(config).contains_key(named.written) {
        settings::claimed_tags(config)[named.written] == Some(named.canonical)
    } else {
        named.written == named.canonical && classes::creatable(named.written)
    }
}

/// Whether a class that only has its own name still has that: no entry has given
/// it to another class.
pub open spec fn keeps_its_name(config: Config, class: Seq<char>) -> bool {
    settings::tag_scheme(config) is Pascal && !settings::renamed_classes(config).contains_key(class)
        ==> !settings::claimed_tags(config).contains_key(class)
}

/// Every element offered is one the compiler then accepts as that class. The one
/// exception is a class that no entry renames, in a project without a scheme,
/// whose own name an entry has given to another class.
pub proof fn law_every_element_offered_is_accepted(
    vocabulary: Vocabulary,
    config: Config,
    i: int,
)
    requires
        vocabulary.of(config),
        0 <= i < vocabulary.listed().len(),
        keeps_its_name(config, vocabulary.listed()[i].canonical),
    ensures
        element_accepted(config, vocabulary.listed()[i]),
{
    let list = choose|list: Seq<Seq<char>>| #[trigger]
        all_classes(list) && vocabulary.listed() == spelled_classes(config, list);
    lemma_spelled_classes(config, list, i);
    let named = vocabulary.listed()[i];
    lemma_first_reaching(
        config,
        named.canonical,
        spellings_of(
            class_alias(config, named.canonical),
            named.canonical,
            settings::tag_scheme(config),
        ),
    );
}

/// So is the spelling that is shown for a single class, in a hover or a quick
/// fix, as long as the project can write the class at all.
pub proof fn law_a_class_is_shown_as_it_can_be_written(
    vocabulary: Vocabulary,
    config: Config,
    class: Seq<char>,
    i: int,
)
    requires
        vocabulary.of(config),
        0 <= i < vocabulary.listed().len(),
        vocabulary.listed()[i].canonical == class,
        keeps_its_name(config, class),
    ensures
        element_accepted(
            config,
            NamedView { written: spelling_in(vocabulary.listed(), class), canonical: class },
        ),
{
    let j = lemma_spelling_in(vocabulary.listed(), class, i);
    law_every_element_offered_is_accepted(vocabulary, config, j);
}

/// The spelling of a name that is listed is one of those listed for it.
proof fn lemma_spelling_in(list: Seq<NamedView>, canonical: Seq<char>, i: int) -> (r: int)
    requires
        0 <= i < list.len(),
        list[i].canonical == canonical,
    ensures
        0 <= r < list.len(),
        list[r] == (NamedView { written: spelling_in(list, canonical), canonical }),
    decreases list.len(),
{
    if list[0].canonical == canonical {
        0
    } else {
        1 + lemma_spelling_in(list.drop_first(), canonical, i - 1)
    }
}

proof fn lemma_spelled_classes(config: Config, list: Seq<Seq<char>>, i: int)
    requires
        0 <= i < spelled_classes(config, list).len(),
    ensures
        ({
            let named = spelled_classes(config, list)[i];
            list.contains(named.canonical) && spelling_of(config, named.canonical) == Some(
                named.written,
            )
        }),
    decreases list.len(),
{
    if list.len() > 0 {
        let before = spelled_classes(config, list.drop_last());
        if i < before.len() {
            lemma_spelled_classes(config, list.drop_last(), i);
            let named = before[i];
            let k = choose|k: int|
                0 <= k < list.drop_last().len() && list.drop_last()[k] == named.canonical;
            assert(list[k] == named.canonical);
        } else {
            assert(list[list.len() - 1] == list.last());
        }
    }
}

proof fn lemma_first_reaching(config: Config, class: Seq<char>, tried: Seq<Seq<char>>)
    ensures
        first_reaching(config, class, tried) matches Some(written) ==> tried.contains(written) && (
        settings::tag_scheme(config) is Pascal && tried.len() > 0 && written == tried[0]
            || claimed_for(config, written, class)),
    decreases tried.len(),
{
    if tried.len() > 0 {
        if settings::tag_scheme(config) is Pascal || claimed_for(config, tried[0], class) {
            assert(tried.contains(tried[0]));
        } else {
            lemma_first_reaching(config, class, tried.drop_first());
            if let Some(written) = first_reaching(config, class, tried.drop_first()) {
                let k = choose|k: int|
                    0 <= k < tried.drop_first().len() && tried.drop_first()[k] == written;
                assert(tried[k + 1] == written);
            }
        }
    }
}

/// No two members offered share a spelling.
pub proof fn law_no_two_members_share_a_spelling(
    config: Config,
    class: Seq<char>,
    offered: Seq<NamedView>,
    i: int,
    j: int,
)
    requires
        offers(config, class, offered),
        0 <= i < j < offered.len(),
    ensures
        offered[i].written != offered[j].written,
        text::precedes(offered[i].written, offered[j].written),
{
    let (settled, taken) = choose|settled: Seq<NamedView>, taken: Seq<Option<Seq<char>>>|
        #![trigger read_back(settings::member_scheme(config), settled, taken)]
        {
            &&& settles(spelled_members(config, class), settled)
            &&& taken.len() == settled.len()
            &&& forall|i: int|
                0 <= i < taken.len() && !(settings::member_scheme(config) is Pascal)
                    ==> settings::readings(config)[(class, settled[i].written)].contains(
                    #[trigger] taken[i],
                )
            &&& offered == read_back(settings::member_scheme(config), settled, taken)
        };
    let (a, b) = lemma_read_back_order(settings::member_scheme(config), settled, taken, i, j);
    assert(text::precedes(settled[a].written, settled[b].written));
    text::lemma_precedes(offered[i].written, offered[j].written, offered[i].written);
}

proof fn lemma_read_back_order(
    scheme: Scheme,
    settled: Seq<NamedView>,
    taken: Seq<Option<Seq<char>>>,
    i: int,
    j: int,
) -> (r: (int, int))
    requires
        0 <= i < j < read_back(scheme, settled, taken).len(),
    ensures
        0 <= r.0 < r.1 < settled.len(),
        settled[r.0] == read_back(scheme, settled, taken)[i],
        settled[r.1] == read_back(scheme, settled, taken)[j],
    decreases settled.len(),
{
    let before = read_back(scheme, settled.drop_last(), taken);
    if j < before.len() {
        lemma_read_back_order(scheme, settled.drop_last(), taken, i, j)
    } else {
        let a = lemma_read_back_from(scheme, settled.drop_last(), taken, i);
        (a, settled.len() - 1)
    }
}

proof fn lemma_read_back_from(
    scheme: Scheme,
    settled: Seq<NamedView>,
    taken: Seq<Option<Seq<char>>>,
    i: int,
) -> (r: int)
    requires
        0 <= i < read_back(scheme, settled, taken).len(),
    ensures
        0 <= r < settled.len(),
        settled[r] == read_back(scheme, settled, taken)[i],
        scheme is Pascal || taken[r] == Some(settled[r].canonical),
    decreases settled.len(),
{
    let before = read_back(scheme, settled.drop_last(), taken);
    if i < before.len() {
        lemma_read_back_from(scheme, settled.drop_last(), taken, i)
    } else {
        settled.len() - 1
    }
}

/// Under a scheme, every member offered is one the compiler reads back as
/// itself.
pub proof fn law_every_member_offered_is_read_back(
    config: Config,
    class: Seq<char>,
    offered: Seq<NamedView>,
    i: int,
)
    requires
        offers(config, class, offered),
        0 <= i < offered.len(),
        !(settings::member_scheme(config) is Pascal),
    ensures
        settings::readings(config)[(class, offered[i].written)].contains(
            Some(offered[i].canonical),
        ),
{
    let (settled, taken) = choose|settled: Seq<NamedView>, taken: Seq<Option<Seq<char>>>|
        #![trigger read_back(settings::member_scheme(config), settled, taken)]
        {
            &&& settles(spelled_members(config, class), settled)
            &&& taken.len() == settled.len()
            &&& forall|i: int|
                0 <= i < taken.len() && !(settings::member_scheme(config) is Pascal)
                    ==> settings::readings(config)[(class, settled[i].written)].contains(
                    #[trigger] taken[i],
                )
            &&& offered == read_back(settings::member_scheme(config), settled, taken)
        };
    let a = lemma_read_back_from(settings::member_scheme(config), settled, taken, i);
    assert(settings::readings(config)[(class, settled[a].written)].contains(taken[a]));
}

/// Whether no entry gives a member's spelling to another name.
pub open spec fn sole(config: Config, class: Seq<char>, named: NamedView) -> bool {
    forall|other: Seq<char>| #[trigger]
        settings::given(config, class, other, named.written) ==> other == named.canonical
}

/// What the compiler reads the spelling of a member as that was offered.
pub proof fn lemma_offered_is_read(
    config: Config,
    class: Seq<char>,
    offered: Seq<NamedView>,
    i: int,
    reading: Option<Seq<char>>,
)
    requires
        offers(config, class, offered),
        0 <= i < offered.len(),
        sole(config, class, offered[i]),
        settings::reads_as(config, class, offered[i].written, reading),
    ensures
        reading == Some(offered[i].canonical),
{
    let (settled, taken) = choose|settled: Seq<NamedView>, taken: Seq<Option<Seq<char>>>|
        #![trigger read_back(settings::member_scheme(config), settled, taken)]
        {
            &&& settles(spelled_members(config, class), settled)
            &&& taken.len() == settled.len()
            &&& forall|i: int|
                0 <= i < taken.len() && !(settings::member_scheme(config) is Pascal)
                    ==> settings::readings(config)[(class, settled[i].written)].contains(
                    #[trigger] taken[i],
                )
            &&& offered == read_back(settings::member_scheme(config), settled, taken)
        };
    let a = lemma_read_back_from(settings::member_scheme(config), settled, taken, i);
    let named = offered[i];
    if !settings::given(config, class, named.canonical, named.written) {
        if settings::member_scheme(config) is Pascal {
            let list = spelled_members(config, class);
            assert(classes::prefers(sharing(list, settled[a].written), settled[a].canonical));
            lemma_sharing(list, named.written, named.canonical);
            let k = choose|k: int|
                0 <= k < list.len() && (#[trigger] list[k]).canonical == named.canonical
                    && list[k].written == named.written;
            assert(named.written == member_spelling(config, class, named.canonical));
        } else {
            assert(settings::readings(config)[(class, settled[a].written)].contains(taken[a]));
        }
    }
}

/// Names that share a spelling are spelled that way.
proof fn lemma_sharing(list: Seq<NamedView>, written: Seq<char>, canonical: Seq<char>)
    requires
        sharing(list, written).contains(canonical),
    ensures
        exists|k: int|
            0 <= k < list.len() && (#[trigger] list[k]).canonical == canonical && list[k].written
                == written,
    decreases list.len(),
{
    if list.len() > 0 {
        let before = sharing(list.drop_last(), written);
        if before.contains(canonical) {
            lemma_sharing(list.drop_last(), written, canonical);
            let k = choose|k: int|
                0 <= k < list.drop_last().len() && (#[trigger] list.drop_last()[k]).canonical
                    == canonical && list.drop_last()[k].written == written;
            assert(list[k] == list.drop_last()[k]);
        } else {
            let n = choose|n: int|
                0 <= n < sharing(list, written).len() && sharing(list, written)[n] == canonical;
            if n < before.len() {
                assert(before[n] == canonical);
            }
            assert(list[list.len() - 1] == list.last());
        }
    }
}

} // verus!
