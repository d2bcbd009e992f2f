//! Zone-file lines: one record written as its name, its type and its strings
//! in quotes.

use crate::content::{ContentSet, SetView};
use vstd::prelude::*;
use vstd::string::*;

verus! {

/// The strings of a record from number `from` on, each after a space and
/// in double quotes.
pub open spec fn quoted(texts: Seq<Seq<char>>, from: int) -> Seq<char>
    decreases texts.len() - from,
{
    if from < 0 || from >= texts.len() {
        Seq::empty()
    } else {
        seq![' ', '"'] + texts[from] + seq!['"'] + quoted(texts, from + 1)
    }
}

/// The line that publishes a record under `postfix`: the label, a dot, the
/// domain, the type, the strings in order, and a line feed.
pub open spec fn zone_line_text(set: SetView, postfix: Seq<char>) -> Seq<char> {
    set.name + seq!['.'] + postfix + seq![' ', 'T', 'X', 'T'] + quoted(set.texts(), 0) + seq!['\n']
}

/// The strings before number `upto`, each after a space and in quotes.
pub open spec fn quoted_before(texts: Seq<Seq<char>>, upto: int) -> Seq<char>
    decreases upto,
{
    if upto <= 0 || upto > texts.len() {
        Seq::empty()
    } else {
        quoted_before(texts, upto - 1) + seq![' ', '"'] + texts[upto - 1] + seq!['"']
    }
}

/// Quoting from the front and quoting from the back give the same line.
pub proof fn lemma_quoted(texts: Seq<Seq<char>>, from: int)
    requires
        0 <= from <= texts.len(),
    ensures
        quoted_before(texts, from) + quoted(texts, from) == quoted(texts, 0),
    decreases from,
{
    if from == 0 {
        assert(quoted_before(texts, 0) + quoted(texts, 0) =~= quoted(texts, 0));
    } else {
        lemma_quoted(texts, from - 1);
        assert(quoted_before(texts, from) + quoted(texts, from) =~= quoted_before(texts, from - 1)
            + quoted(texts, from - 1));
    }
}

/// The line that publishes `set` in a zone file under the domain `postfix`.
pub fn zone_line(set: &ContentSet, postfix: &str) -> (line: String)
    ensures
        line@ == zone_line_text(set@, postfix@),
{
    proof {
        reveal_strlit(".");
        reveal_strlit(" TXT");
        reveal_strlit(" \"");
        reveal_strlit("\"");
        reveal_strlit("\n");
    }
    let mut line = set.name.clone();
    line.append(".");
    line.append(postfix);
    line.append(" TXT");
    let ghost head = line@;
    let ghost texts = set@.texts();
    proof {
        assert("."@ =~= seq!['.']);
        assert(" TXT"@ =~= seq![' ', 'T', 'X', 'T']);
        assert(head =~= set@.name + seq!['.'] + postfix@ + seq![' ', 'T', 'X', 'T']);
    }
    let mut i: usize = 0;
    while i < set.entries.len()
        invariant
            i <= set.entries@.len(),
            texts == set@.texts(),
            texts.len() == set.entries@.len(),
            line@ == head + quoted_before(texts, i as int),
        decreases set.entries@.len() - i,
    {
        let text = set.entries[i].to_string();
        assert(text@ == texts[i as int]);
        line.append(" \"");
        line.append(text.as_str());
        line.append("\"");
        i += 1;
        proof {
            reveal_strlit(" \"");
            reveal_strlit("\"");
            assert(" \""@ =~= seq![' ', '"']);
            assert("\""@ =~= seq!['"']);
            assert(line@ =~= head + quoted_before(texts, i as int));
        }
    }
    line.append("\n");
    proof {
        reveal_strlit("\n");
        assert("\n"@ =~= seq!['\n']);
        lemma_quoted(texts, texts.len() as int);
        assert(quoted(texts, texts.len() as int) =~= Seq::<char>::empty());
        assert(line@ =~= zone_line_text(set@, postfix@));
    }
    line
}

} // verus!
