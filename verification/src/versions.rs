//! Which versions this is: of the server, and of the compiler in it.
//!
//! A language server built against a different compiler version than the one
//! producing `build/` reports diagnostics the build does not, which is worse
//! than reporting none. That is invisible unless both versions are stated.

use vstd::prelude::*;
use vstd::string::*;

use crate::pieces::{self, lines, strip_prefix};
use crate::prose::{self, around};
use crate::text::{self, same, trim, Edge};

verus! {

/// The version that lines of a lockfile give for a package, where `inside` says
/// whether they begin inside that package's entry.
pub open spec fn version_in(lines: Seq<Seq<char>>, name: Seq<char>, inside: bool) -> Option<Seq<char>>
    decreases lines.len(),
{
    if lines.len() == 0 {
        None
    } else {
        let line = text::trimmed(lines[0], Edge::White);
        let rest = lines.drop_first();
        if line == "[[package]]"@ {
            version_in(rest, name, false)
        } else if line == prose::between("name = \""@, name, "\""@) {
            version_in(rest, name, true)
        } else {
            match pieces::stripped(line, "version = "@) {
                Some(version) if inside => Some(text::trimmed(version, Edge::DoubleQuotes)),
                _ => version_in(rest, name, inside),
            }
        }
    }
}

/// Version of `name` as resolved in a Cargo lockfile.
///
/// The lockfile is the authority — it is what Cargo actually resolved, so it
/// cannot drift from what was linked.
pub fn locked_version(lock: &str, name: &str) -> (r: Option<String>)
    ensures
        text::view_of(r) == version_in(pieces::lines_of(lock@), name@, false),
{
    let all = lines(lock);
    let ghost views = pieces::lines_of(lock@);
    let sought = around("name = \"", name, "\"");
    let mut inside = false;
    let mut i: usize = 0;
    assert(views.skip(0) =~= views);
    while i < all.len()
        invariant
            i <= all@.len(),
            views == pieces::lines_of(lock@),
            views == all@.map_values(|line: &str| line@),
            sought@ == prose::between("name = \""@, name@, "\""@),
            version_in(views, name@, false) == version_in(views.skip(i as int), name@, inside),
        decreases all@.len() - i,
    {
        let line = trim(all[i], Edge::White);
        proof {
            assert(views[i as int] == all@[i as int]@);
            assert(views.skip(i as int)[0] == all@[i as int]@);
            assert(views.skip(i as int).drop_first() =~= views.skip(i + 1));
        }
        if same(line, "[[package]]") {
            inside = false;
        } else if same(line, sought.as_str()) {
            inside = true;
        } else if inside {
            if let Some(version) = strip_prefix(line, "version = ") {
                return Some(trim(version, Edge::DoubleQuotes).to_owned());
            }
        }
        i = i + 1;
    }
    None
}

/// The version of a package is the one that its own entry gives: entries before
/// it, of other packages, do not count, whatever versions they give, and nor does
/// anything after it. A package without an entry has none.
pub proof fn law_a_version_is_that_of_its_own_entry(
    before: Seq<Seq<char>>,
    after: Seq<Seq<char>>,
    named: Seq<char>,
    given: Seq<char>,
    name: Seq<char>,
    version: Seq<char>,
)
    requires
        forall|i: int|
            0 <= i < before.len() ==> text::trimmed(#[trigger] before[i], Edge::White)
                != prose::between("name = \""@, name, "\""@),
        text::trimmed(named, Edge::White) == prose::between("name = \""@, name, "\""@),
        text::trimmed(given, Edge::White) == "version = "@ + version,
    ensures
        version_in(before, name, false) is None,
        version_in(before + seq![named, given] + after, name, false) == Some(
            text::trimmed(version, Edge::DoubleQuotes),
        ),
{
    lemma_not_named(before, seq![named, given] + after, name);
    lemma_not_named(before, Seq::empty(), name);
    assert(before + Seq::<Seq<char>>::empty() =~= before);
    assert(before + (seq![named, given] + after) =~= before + seq![named, given] + after);
    let rest = seq![named, given] + after;
    lemma_lines_apart(name, version);
    assert(rest.drop_first()[0] == given);
    let line = "version = "@ + version;
    assert(pieces::stripped(line, "version = "@) == Some(version)) by {
        assert(line.take("version = "@.len() as int) =~= "version = "@);
        assert(line.skip("version = "@.len() as int) =~= version);
    }
    reveal_with_fuel(version_in, 3);
}

/// Lines that do not name a package are passed over.
proof fn lemma_not_named(before: Seq<Seq<char>>, after: Seq<Seq<char>>, name: Seq<char>)
    requires
        forall|i: int|
            0 <= i < before.len() ==> text::trimmed(#[trigger] before[i], Edge::White)
                != prose::between("name = \""@, name, "\""@),
    ensures
        version_in(before + after, name, false) == version_in(after, name, false),
    decreases before.len(),
{
    if before.len() == 0 {
        assert(before + after =~= after);
    } else {
        let rest = before.drop_first();
        assert((before + after).drop_first() =~= rest + after);
        assert((before + after)[0] == before[0]);
        assert forall|i: int| 0 <= i < rest.len() implies text::trimmed(
            #[trigger] rest[i],
            Edge::White,
        ) != prose::between("name = \""@, name, "\""@) by {
            assert(rest[i] == before[i + 1]);
        }
        lemma_not_named(rest, after, name);
    }
}

/// The lines of an entry are told apart.
proof fn lemma_lines_apart(name: Seq<char>, version: Seq<char>)
    ensures
        prose::between("name = \""@, name, "\""@) != "[[package]]"@,
        "version = "@ + version != "[[package]]"@,
        "version = "@ + version != prose::between("name = \""@, name, "\""@),
        pieces::stripped(prose::between("name = \""@, name, "\""@), "version = "@) is None,
{
    reveal_strlit("name = \"");
    reveal_strlit("version = ");
    reveal_strlit("[[package]]");
    assert(prose::between("name = \""@, name, "\""@)[0] == 'n');
    assert(("version = "@ + version)[0] == 'v');
    assert("[[package]]"@[0] == '[');
    assert("version = "@[0] == 'v');
}

} // verus!
