//! The fixed stop-word list: common function words excluded from word
//! rankings and exported frequency tables.

use vstd::prelude::*;

use crate::strutil::str_eq;

verus! {

/// True when `w` is one of the fixed stop words.
pub open spec fn spec_is_stop_word(w: Seq<char>) -> bool {
    w == "a"@
    || w == "about"@
    || w == "above"@
    || w == "after"@
    || w == "again"@
    || w == "against"@
    || w == "all"@
    || w == "also"@
    || w == "am"@
    || w == "an"@
    || w == "and"@
    || w == "any"@
    || w == "are"@
    || w == "aren't"@
    || w == "as"@
    || w == "at"@
    || w == "be"@
    || w == "because"@
    || w == "been"@
    || w == "before"@
    || w == "being"@
    || w == "below"@
    || w == "between"@
    || w == "both"@
    || w == "but"@
    || w == "by"@
    || w == "can"@
    || w == "can't"@
    || w == "cannot"@
    || w == "com"@
    || w == "could"@
    || w == "couldn't"@
    || w == "did"@
    || w == "didn't"@
    || w == "do"@
    || w == "does"@
    || w == "doesn't"@
    || w == "doing"@
    || w == "don't"@
    || w == "down"@
    || w == "during"@
    || w == "each"@
    || w == "else"@
    || w == "ever"@
    || w == "few"@
    || w == "for"@
    || w == "from"@
    || w == "further"@
    || w == "get"@
    || w == "had"@
    || w == "hadn't"@
    || w == "has"@
    || w == "hasn't"@
    || w == "have"@
    || w == "haven't"@
    || w == "having"@
    || w == "he"@
    || w == "he'd"@
    || w == "he'll"@
    || w == "he's"@
    || w == "hence"@
    || w == "her"@
    || w == "here"@
    || w == "here's"@
    || w == "hers"@
    || w == "herself"@
    || w == "him"@
    || w == "himself"@
    || w == "his"@
    || w == "how"@
    || w == "how's"@
    || w == "however"@
    || w == "http"@
    || w == "i"@
    || w == "i'd"@
    || w == "i'll"@
    || w == "i'm"@
    || w == "i've"@
    || w == "if"@
    || w == "in"@
    || w == "into"@
    || w == "is"@
    || w == "isn't"@
    || w == "it"@
    || w == "it's"@
    || w == "its"@
    || w == "itself"@
    || w == "just"@
    || w == "k"@
    || w == "let's"@
    || w == "like"@
    || w == "me"@
    || w == "more"@
    || w == "most"@
    || w == "mustn't"@
    || w == "my"@
    || w == "myself"@
    || w == "no"@
    || w == "nor"@
    || w == "not"@
    || w == "of"@
    || w == "off"@
    || w == "on"@
    || w == "once"@
    || w == "only"@
    || w == "or"@
    || w == "other"@
    || w == "otherwise"@
    || w == "ought"@
    || w == "our"@
    || w == "ours"@
    || w == "ourselves"@
    || w == "out"@
    || w == "over"@
    || w == "own"@
    || w == "r"@
    || w == "same"@
    || w == "shall"@
    || w == "shan't"@
    || w == "she"@
    || w == "she'd"@
    || w == "she'll"@
    || w == "she's"@
    || w == "should"@
    || w == "shouldn't"@
    || w == "since"@
    || w == "so"@
    || w == "some"@
    || w == "such"@
    || w == "than"@
    || w == "that"@
    || w == "that's"@
    || w == "the"@
    || w == "their"@
    || w == "theirs"@
    || w == "them"@
    || w == "themselves"@
    || w == "then"@
    || w == "there"@
    || w == "there's"@
    || w == "therefore"@
    || w == "these"@
    || w == "they"@
    || w == "they'd"@
    || w == "they'll"@
    || w == "they're"@
    || w == "they've"@
    || w == "this"@
    || w == "those"@
    || w == "through"@
    || w == "to"@
    || w == "too"@
    || w == "under"@
    || w == "until"@
    || w == "up"@
    || w == "very"@
    || w == "was"@
    || w == "wasn't"@
    || w == "we"@
    || w == "we'd"@
    || w == "we'll"@
    || w == "we're"@
    || w == "we've"@
    || w == "were"@
    || w == "weren't"@
    || w == "what"@
    || w == "what's"@
    || w == "when"@
    || w == "when's"@
    || w == "where"@
    || w == "where's"@
    || w == "which"@
    || w == "while"@
    || w == "who"@
    || w == "who's"@
    || w == "whom"@
    || w == "why"@
    || w == "why's"@
    || w == "with"@
    || w == "won't"@
    || w == "would"@
    || w == "wouldn't"@
    || w == "www"@
    || w == "you"@
    || w == "you'd"@
    || w == "you'll"@
    || w == "you're"@
    || w == "you've"@
    || w == "your"@
    || w == "yours"@
    || w == "yourself"@
    || w == "yourselves"@
}

/// Executable test against the same list.
pub fn is_stop_word(w: &str) -> (r: bool)
    ensures
        r == spec_is_stop_word(w@),
{
    str_eq(w, "a")
        || str_eq(w, "about")
        || str_eq(w, "above")
        || str_eq(w, "after")
        || str_eq(w, "again")
        || str_eq(w, "against")
        || str_eq(w, "all")
        || str_eq(w, "also")
        || str_eq(w, "am")
        || str_eq(w, "an")
        || str_eq(w, "and")
        || str_eq(w, "any")
        || str_eq(w, "are")
        || str_eq(w, "aren't")
        || str_eq(w, "as")
        || str_eq(w, "at")
        || str_eq(w, "be")
        || str_eq(w, "because")
        || str_eq(w, "been")
        || str_eq(w, "before")
        || str_eq(w, "being")
        || str_eq(w, "below")
        || str_eq(w, "between")
        || str_eq(w, "both")
        || str_eq(w, "but")
        || str_eq(w, "by")
        || str_eq(w, "can")
        || str_eq(w, "can't")
        || str_eq(w, "cannot")
        || str_eq(w, "com")
        || str_eq(w, "could")
        || str_eq(w, "couldn't")
        || str_eq(w, "did")
        || str_eq(w, "didn't")
        || str_eq(w, "do")
        || str_eq(w, "does")
        || str_eq(w, "doesn't")
        || str_eq(w, "doing")
        || str_eq(w, "don't")
        || str_eq(w, "down")
        || str_eq(w, "during")
        || str_eq(w, "each")
        || str_eq(w, "else")
        || str_eq(w, "ever")
        || str_eq(w, "few")
        || str_eq(w, "for")
        || str_eq(w, "from")
        || str_eq(w, "further")
        || str_eq(w, "get")
        || str_eq(w, "had")
        || str_eq(w, "hadn't")
        || str_eq(w, "has")
        || str_eq(w, "hasn't")
        || str_eq(w, "have")
        || str_eq(w, "haven't")
        || str_eq(w, "having")
        || str_eq(w, "he")
        || str_eq(w, "he'd")
        || str_eq(w, "he'll")
        || str_eq(w, "he's")
        || str_eq(w, "hence")
        || str_eq(w, "her")
        || str_eq(w, "here")
        || str_eq(w, "here's")
        || str_eq(w, "hers")
        || str_eq(w, "herself")
        || str_eq(w, "him")
        || str_eq(w, "himself")
        || str_eq(w, "his")
        || str_eq(w, "how")
        || str_eq(w, "how's")
        || str_eq(w, "however")
        || str_eq(w, "http")
        || str_eq(w, "i")
        || str_eq(w, "i'd")
        || str_eq(w, "i'll")
        || str_eq(w, "i'm")
        || str_eq(w, "i've")
        || str_eq(w, "if")
        || str_eq(w, "in")
        || str_eq(w, "into")
        || str_eq(w, "is")
        || str_eq(w, "isn't")
        || str_eq(w, "it")
        || str_eq(w, "it's")
        || str_eq(w, "its")
        || str_eq(w, "itself")
        || str_eq(w, "just")
        || str_eq(w, "k")
        || str_eq(w, "let's")
        || str_eq(w, "like")
        || str_eq(w, "me")
        || str_eq(w, "more")
        || str_eq(w, "most")
        || str_eq(w, "mustn't")
        || str_eq(w, "my")
        || str_eq(w, "myself")
        || str_eq(w, "no")
        || str_eq(w, "nor")
        || str_eq(w, "not")
        || str_eq(w, "of")
        || str_eq(w, "off")
        || str_eq(w, "on")
        || str_eq(w, "once")
        || str_eq(w, "only")
        || str_eq(w, "or")
        || str_eq(w, "other")
        || str_eq(w, "otherwise")
        || str_eq(w, "ought")
        || str_eq(w, "our")
        || str_eq(w, "ours")
        || str_eq(w, "ourselves")
        || str_eq(w, "out")
        || str_eq(w, "over")
        || str_eq(w, "own")
        || str_eq(w, "r")
        || str_eq(w, "same")
        || str_eq(w, "shall")
        || str_eq(w, "shan't")
        || str_eq(w, "she")
        || str_eq(w, "she'd")
        || str_eq(w, "she'll")
        || str_eq(w, "she's")
        || str_eq(w, "should")
        || str_eq(w, "shouldn't")
        || str_eq(w, "since")
        || str_eq(w, "so")
        || str_eq(w, "some")
        || str_eq(w, "such")
        || str_eq(w, "than")
        || str_eq(w, "that")
        || str_eq(w, "that's")
        || str_eq(w, "the")
        || str_eq(w, "their")
        || str_eq(w, "theirs")
        || str_eq(w, "them")
        || str_eq(w, "themselves")
        || str_eq(w, "then")
        || str_eq(w, "there")
        || str_eq(w, "there's")
        || str_eq(w, "therefore")
        || str_eq(w, "these")
        || str_eq(w, "they")
        || str_eq(w, "they'd")
        || str_eq(w, "they'll")
        || str_eq(w, "they're")
        || str_eq(w, "they've")
        || str_eq(w, "this")
        || str_eq(w, "those")
        || str_eq(w, "through")
        || str_eq(w, "to")
        || str_eq(w, "too")
        || str_eq(w, "under")
        || str_eq(w, "until")
        || str_eq(w, "up")
        || str_eq(w, "very")
        || str_eq(w, "was")
        || str_eq(w, "wasn't")
        || str_eq(w, "we")
        || str_eq(w, "we'd")
        || str_eq(w, "we'll")
        || str_eq(w, "we're")
        || str_eq(w, "we've")
        || str_eq(w, "were")
        || str_eq(w, "weren't")
        || str_eq(w, "what")
        || str_eq(w, "what's")
        || str_eq(w, "when")
        || str_eq(w, "when's")
        || str_eq(w, "where")
        || str_eq(w, "where's")
        || str_eq(w, "which")
        || str_eq(w, "while")
        || str_eq(w, "who")
        || str_eq(w, "who's")
        || str_eq(w, "whom")
        || str_eq(w, "why")
        || str_eq(w, "why's")
        || str_eq(w, "with")
        || str_eq(w, "won't")
        || str_eq(w, "would")
        || str_eq(w, "wouldn't")
        || str_eq(w, "www")
        || str_eq(w, "you")
        || str_eq(w, "you'd")
        || str_eq(w, "you'll")
        || str_eq(w, "you're")
        || str_eq(w, "you've")
        || str_eq(w, "your")
        || str_eq(w, "yours")
        || str_eq(w, "yourself")
        || str_eq(w, "yourselves")
}

} // verus!
