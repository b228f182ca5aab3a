//! How to look for alternative plans.
use vstd::prelude::*;
use vstd::string::*;

verus! {

/// When to stop trying out combinations of rules.
#[derive(Clone, Copy, Debug, PartialEq, Eq, Structural)]
pub enum RuleBailStrategy {
    /// Stop when there are no more combinations.
    Never,
    /// A placeholder for stopping when no new plans have been found after a number of attempts;
    /// trying out goes on as with `Never`.
    Inactive(usize),
    /// Stop when a number of new plans have been found.
    Threshold(usize),
}

/// How to sample alternative plans from the query optimizer.
#[derive(Clone, Copy, Debug, PartialEq, Eq, Structural)]
pub enum SampleStrategy {
    /// Create alternative plans by extracting equivalent expressions from the memo table.
    MemoBased,
    /// Create alternative plans by trying out different combinations of rules.
    RuleBased(RuleBailStrategy),
    /// Create alternative plans by using different optimization hints.
    HintBased,
}

/// A text in lower case.
pub uninterp spec fn lowercase(text: Seq<char>) -> Seq<char>;

/// Whether a text is ASCII.
pub open spec fn ascii(text: Seq<char>) -> bool {
    forall|i: int| 0 <= i < text.len() ==> (#[trigger] text[i] as u32) < 128
}

/// An ASCII character in lower case.
pub open spec fn ascii_lower(c: char) -> char {
    if 'A' <= c && c <= 'Z' {
        (c as u32 + 32) as char
    } else {
        c
    }
}

/// A text in lower case.
///
/// `str::to_lowercase`: that the text alone decides the result, and that the result for an ASCII
/// text is that of its characters.
#[verifier::external_body]
fn to_lower(text: &str) -> (r: String)
    ensures
        r@ == lowercase(text@),
        ascii(text@) ==> r@ == text@.map_values(|c: char| ascii_lower(c)),
{
    text.to_lowercase()
}

/// The strategy that a name in lower case stands for.
pub open spec fn named_strategy(name: Seq<char>) -> Option<SampleStrategy> {
    if name == "memo"@ {
        Some(SampleStrategy::MemoBased)
    } else if name == "rule"@ {
        Some(SampleStrategy::RuleBased(RuleBailStrategy::Never))
    } else if name == "hint"@ {
        Some(SampleStrategy::HintBased)
    } else {
        None
    }
}

impl SampleStrategy {
    /// The strategy that a name in lower case stands for.
    pub fn from_lowercase(name: &String) -> (r: Result<SampleStrategy, &'static str>)
        ensures
            match r {
                Ok(strategy) => named_strategy(name@) == Some(strategy),
                Err(message) => named_strategy(name@) is None && message@ == "unknown backend"@,
            },
    {
        if *name == "memo".to_owned() {
            Ok(SampleStrategy::MemoBased)
        } else if *name == "rule".to_owned() {
            Ok(SampleStrategy::RuleBased(RuleBailStrategy::Never))
        } else if *name == "hint".to_owned() {
            Ok(SampleStrategy::HintBased)
        } else {
            Err("unknown backend")
        }
    }

    /// The strategy that a name stands for, in upper or lower case.
    pub fn from_str(s: &str) -> (r: Result<SampleStrategy, &'static str>)
        ensures
            match r {
                Ok(strategy) => named_strategy(lowercase(s@)) == Some(strategy),
                Err(message) => named_strategy(lowercase(s@)) is None && message@
                    == "unknown backend"@,
            },
            ascii(s@) ==> lowercase(s@) == s@.map_values(|c: char| ascii_lower(c)),
    {
        let lower: String = to_lower(s);
        SampleStrategy::from_lowercase(&lower)
    }

    /// Whether the strategy works with an optimizer that takes no hints.
    pub fn check_hintless(&self) -> (r: Result<(), &'static str>)
        ensures
            match r {
                Ok(_) => *self != SampleStrategy::HintBased,
                Err(message) => *self == SampleStrategy::HintBased && message@
                    == "optd-old doesn't support optimization hints"@,
            },
    {
        match self {
            SampleStrategy::HintBased => Err("optd-old doesn't support optimization hints"),
            _ => Ok(()),
        }
    }
}

/// An ASCII name stands for the same strategy in upper and lower case.
pub proof fn lemma_case_does_not_matter(a: Seq<char>, b: Seq<char>)
    requires
        lowercase(a) == a.map_values(|c: char| ascii_lower(c)),
        lowercase(b) == b.map_values(|c: char| ascii_lower(c)),
        a.len() == b.len(),
        forall|i: int| 0 <= i < a.len() ==> ascii_lower(#[trigger] a[i]) == ascii_lower(b[i]),
    ensures
        named_strategy(lowercase(a)) == named_strategy(lowercase(b)),
{
    assert(lowercase(a) =~= lowercase(b));
}

} // verus!
