//! Sorting of command-line arguments into positional arguments, flags and
//! keyword arguments.

use vstd::prelude::*;
use crate::text::starts_with;

verus! {

/// The complaint about a keyword that ends the command line.
pub const MISSING_VALUE: &'static str =
    "Keywork arguments (--{keyword}) should have a following value.";

/// A keyword argument: a word that begins with two hyphens, and the word
/// that follows it.
#[derive(Debug, PartialEq, Eq)]
pub struct Keywords {
    pub keyword: String,
    pub value: String,
}

/// A keyword argument as plain values.
pub struct KeywordsView {
    pub keyword: Seq<char>,
    pub value: Seq<char>,
}

impl DeepView for Keywords {
    type V = KeywordsView;

    open spec fn deep_view(&self) -> KeywordsView {
        KeywordsView { keyword: self.keyword@, value: self.value@ }
    }
}

/// The arguments of a command line, sorted by their kind and otherwise in
/// the order in which they stood.
#[derive(Debug, PartialEq, Eq)]
pub struct Args {
    pub positional: Vec<String>,
    pub flags: Vec<String>,
    pub keywords: Vec<Keywords>,
}

/// Sorted arguments as plain values.
pub struct ArgsView {
    pub positional: Seq<Seq<char>>,
    pub flags: Seq<Seq<char>>,
    pub keywords: Seq<KeywordsView>,
}

impl View for Args {
    type V = ArgsView;

    open spec fn view(&self) -> ArgsView {
        ArgsView {
            positional: self.positional.deep_view(),
            flags: self.flags.deep_view(),
            keywords: self.keywords.deep_view(),
        }
    }
}

/// Whether `word` names a keyword: it begins with two hyphens.
pub open spec fn is_keyword(word: Seq<char>) -> bool {
    "--"@.is_prefix_of(word)
}

/// Whether `word` is a flag: it begins with one hyphen and is no keyword.
pub open spec fn is_flag(word: Seq<char>) -> bool {
    !is_keyword(word) && "-"@.is_prefix_of(word)
}

/// The arguments `so_far`, and those that the words from position `from` on
/// add to them. A keyword takes the word after it as its value, whatever
/// that word looks like; a keyword that is the last word has none, and then
/// there is no result.
pub open spec fn sort_from(words: Seq<Seq<char>>, from: int, so_far: ArgsView) -> Option<ArgsView>
    decreases words.len() - from,
{
    if from < 0 || from >= words.len() {
        Some(so_far)
    } else if is_keyword(words[from]) {
        if from + 1 < words.len() {
            sort_from(
                words,
                from + 2,
                ArgsView {
                    keywords: so_far.keywords.push(
                        KeywordsView { keyword: words[from], value: words[from + 1] },
                    ),
                    ..so_far
                },
            )
        } else {
            None
        }
    } else if is_flag(words[from]) {
        sort_from(words, from + 1, ArgsView { flags: so_far.flags.push(words[from]), ..so_far })
    } else {
        sort_from(
            words,
            from + 1,
            ArgsView { positional: so_far.positional.push(words[from]), ..so_far },
        )
    }
}

/// The sorted arguments of the command line `words`, whose first word, the
/// name of the program, is left out.
pub open spec fn sorted(words: Seq<Seq<char>>) -> Option<ArgsView> {
    sort_from(
        words,
        1,
        ArgsView { positional: Seq::empty(), flags: Seq::empty(), keywords: Seq::empty() },
    )
}

impl Args {
    /// Sorts the words of a command line. Fails on a keyword without a
    /// value, and on nothing else.
    pub fn build(args: Vec<String>) -> (r: Result<Args, &'static str>)
        ensures
            match sorted(args.deep_view()) {
                Some(parsed) => r is Ok && r->Ok_0@ == parsed,
                None => r is Err && r->Err_0@ == MISSING_VALUE@,
            },
    {
        let mut ret_args = Args { positional: Vec::new(), flags: Vec::new(), keywords: Vec::new() };
        let ghost words = args.deep_view();
        assert(ret_args@.positional =~= Seq::empty());
        assert(ret_args@.flags =~= Seq::empty());
        assert(ret_args@.keywords =~= Seq::empty());
        let mut i: usize = 1;
        while i < args.len()
            invariant
                1 <= i,
                words == args.deep_view(),
                sort_from(words, i as int, ret_args@) == sorted(words),
            decreases args.len() - i,
        {
            let ghost before = ret_args@;
            assert(words[i as int] == args[i as int]@);
            if starts_with(args[i].as_str(), "--") {
                if i + 1 < args.len() {
                    assert(words[i + 1] == args[i + 1]@);
                    let pair = Keywords { keyword: args[i].clone(), value: args[i + 1].clone() };
                    ret_args.keywords.push(pair);
                    assert(ret_args@.keywords =~= before.keywords.push(pair.deep_view()));
                    i += 2;
                } else {
                    return Err(MISSING_VALUE);
                }
            } else if starts_with(args[i].as_str(), "-") {
                ret_args.flags.push(args[i].clone());
                assert(ret_args@.flags =~= before.flags.push(words[i as int]));
                i += 1;
            } else {
                ret_args.positional.push(args[i].clone());
                assert(ret_args@.positional =~= before.positional.push(words[i as int]));
                i += 1;
            }
        }
        Ok(ret_args)
    }
}

} // verus!
