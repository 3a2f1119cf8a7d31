//! The format registry: the ordered list of structured-text grammars the
//! loader knows how to try.

use vstd::prelude::*;

verus! {

/// A tag naming one supported structured-text grammar.
///
/// Two documents may be merged only when their tags are equal.  Adding a
/// format means adding a variant here together with its parser/serializer
/// pair; the merge logic itself never changes.
#[derive(Clone, Copy, Debug, PartialEq, Eq, Structural)]
pub enum Format {
    /// Sectioned `key=value` text: `[section]` headers followed by
    /// `key=value` lines.
    Ini,
}

/// The registry order: every known format, in the order the auto-detecting
/// loader tries them.
pub open spec fn registry() -> Seq<Format> {
    seq![Format::Ini]
}

/// The ordered list of known formats, as executable data.
pub fn all_formats() -> (v: Vec<Format>)
    ensures
        v@ == registry(),
{
    let mut v: Vec<Format> = Vec::new();
    v.push(Format::Ini);
    proof {
        assert(v@ =~= registry());
    }
    v
}

} // verus!
