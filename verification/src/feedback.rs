//! The feedback command's domain: the kinds of feedback a user may submit,
//! their names, and the help text the command layer shows.

use vstd::prelude::*;

use crate::strutil::str_eq;

verus! {

/// A kind of user feedback.
#[derive(Debug, PartialEq, Eq, Structural, Clone, Copy)]
pub enum FeedbackKind {
    Bug,
    Feature,
    Misc,
}

/// The name of each kind.
pub open spec fn spec_feedback_name(k: FeedbackKind) -> Seq<char> {
    match k {
        FeedbackKind::Bug => "bug"@,
        FeedbackKind::Feature => "feature"@,
        FeedbackKind::Misc => "misc"@,
    }
}

impl FeedbackKind {
    /// The kind's name.
    pub fn to_str(&self) -> (r: &'static str)
        ensures
            r@ == spec_feedback_name(*self),
    {
        match self {
            Self::Bug => "bug",
            Self::Feature => "feature",
            Self::Misc => "misc",
        }
    }

    /// Parses a kind from its name; any other text is refused, naming the
    /// offending input.
    pub fn from_str(s: &str) -> (r: Result<Self, String>)
        ensures
            match r {
                Ok(k) => spec_feedback_name(k) == s@,
                Err(e) => {
                    &&& s@ != "bug"@ && s@ != "feature"@ && s@ != "misc"@
                    &&& e@ == "Invalid FeedbackKind name "@ + s@
                },
            },
    {
        if str_eq(s, "bug") {
            Ok(Self::Bug)
        } else if str_eq(s, "feature") {
            Ok(Self::Feature)
        } else if str_eq(s, "misc") {
            Ok(Self::Misc)
        } else {
            Err(String::from_str("Invalid FeedbackKind name ").concat(s))
        }
    }

    /// Every kind, in declaration order.
    pub fn variants() -> (r: Vec<FeedbackKind>)
        ensures
            r@ == seq![FeedbackKind::Bug, FeedbackKind::Feature, FeedbackKind::Misc],
    {
        let mut v: Vec<FeedbackKind> = Vec::new();
        v.push(Self::Bug);
        v.push(Self::Feature);
        v.push(Self::Misc);
        proof {
            assert(v@ =~= seq![FeedbackKind::Bug, FeedbackKind::Feature, FeedbackKind::Misc]);
        }
        v
    }
}

/// The feedback command's help text; its tail after "Kind can be one of: "
/// lists every kind's name.
pub fn feedback_description() -> (r: &'static str)
    ensures
        r@ == (
        "Give you feedback on the bot which will be given to the bot admin/developer. Kind can be one of: bug|feature|misc"
        )@,
{
    "Give you feedback on the bot which will be given to the bot admin/developer. Kind can be one of: bug|feature|misc"
}

} // verus!
