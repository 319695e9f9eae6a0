use luaux::config::Config;
use luaux_lsp::analysis::compile_text;
use luaux_lsp::luau::{find_misfit, tame};
use luaux_lsp::resolving::names_in;

#[test]
fn a_character_is_in_the_way_after_a_type() {
    assert_eq!(find_misfit("local x: { a: $ }", false), Some(14));
    assert_eq!(find_misfit("local x: T --[[ c ]] é", false), Some(21));
    assert_eq!(find_misfit("local x = t[k]:f() + $", false), Some(21));
    assert_eq!(find_misfit("local x: typeof(y) = $", false), Some(21));
    for text in ["local x = $", "f(a, $)", "$ é \\", "x ~= y", "-- $", "'$'", "[==[ $ ]] ]==]", "`$`"] {
        assert_eq!(find_misfit(text, false), None, "{text}");
    }
}

#[test]
fn a_strict_reading_finds_every_character_and_what_does_not_end() {
    for (text, at) in [
        ("x = $", 4),
        ("'a", 0),
        ("x -- c", 2),
        ("--[[ c", 0),
        ("1.2.3", 0),
        ("0x", 0),
        ("1e", 0),
        ("`a{", 3),
        ("{ x", 3),
        ("x ~ y", 2),
    ] {
        assert_eq!(find_misfit(text, true), Some(at), "{text}");
    }
    for text in ["x -- c\n", "'\\'$' .. \"\\\n$\"", "`a{b}$\\u{1F}{`$`}`", "{ 0xFF, 1e-3, .5, 1. }"] {
        assert_eq!(find_misfit(text, true), None, "{text}");
    }
}

#[test]
fn what_is_in_the_way_becomes_a_space() {
    assert_eq!(tame("local x: é"), "local x:  ");
    assert_eq!(tame("local x: $$ = $"), "local x:    = $");
    assert_eq!(tame("local x = 'é'"), "local x = 'é'");
    // After a string that does not end, any of them may be.
    assert_eq!(tame("local x = 'é\n$"), "local x = ' \n ");
}

const WORDS: &[&str] = &[
    ".", ":", "[", "]", "<", ">", "(", ")", "{", "}", ",", "=", "?", "|", "...", "->", "@", "::",
    "<<", "typeof", "type", "x", "local", "function", "end", "if", "return", "nil", "$", "~", "!",
    "\\", "é", "\"s\"", "'", "`a{", "}`", "`", "1", "1.2.", "[\"k\"]:", "--", "[[", "]]", "--[[",
    "\n", "\r",
];

const MARKUP: &[&str] = &[
    "<TextLabel>", "</TextLabel>", "<A>", "</A>", "<B/>", "A={", "{", "}", "{x :: ", "-- c\n", "A='q'",
    "<!-- a -->", "<!-->", "<!--->", "text!", "\n\u{a0}", "[[", "]]",
];

/// Whatever is typed, an answer comes back.
#[test]
fn every_text_is_answered() {
    let mut state = 7u64;
    let mut pick = |n: usize| {
        state = state.wrapping_mul(6364136223846793005).wrapping_add(1442695040888963407);
        (state >> 33) as usize % n
    };
    let config = Config::default();
    for _ in 0..4000 {
        let mut luau = ["", "local x: ", "type T<A... = (), ", "local x = y :: ", "#!\n"][pick(5)]
            .to_string();
        let mut markup = String::new();
        for _ in 0..1 + pick(12) {
            luau.push_str(WORDS[pick(WORDS.len())]);
            luau.push_str([" ", ""][pick(2)]);
            let words = [WORDS, MARKUP][pick(2)];
            markup.push_str(words[pick(words.len())]);
            markup.push_str([" ", ""][pick(2)]);
        }
        names_in(&luau, &config);
        compile_text(&format!("{luau}\nlocal create = f()\nlocal e = <Frame/>"), &config);
        compile_text(&format!("local create = f()\nlocal e = <Frame>{{{markup}}}</Frame>"), &config);
    }
}
