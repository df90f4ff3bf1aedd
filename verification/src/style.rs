//! The style registry: the closed set of markup categories the parser can
//! emit, and the stable external identifier of each one.

use vstd::prelude::*;

verus! {

/// A markup category attached to a format span.
///
/// `Syntax` is synthetic: it is never produced by delimiter matching
/// itself, but derived afterwards for every grapheme index a matched
/// delimiter or an escape has claimed, so the host can render those
/// characters de-emphasized.
#[derive(Clone, Copy, Debug, PartialEq, Eq, Structural)]
pub enum Tag {
    Emphasis,
    Strong,
    Strikethrough,
    Code,
    Syntax,
}

/// The external identifier of a tag, as a sequence of characters.
pub open spec fn tag_label(tag: Tag) -> Seq<char> {
    match tag {
        Tag::Emphasis => "em"@,
        Tag::Strong => "strong"@,
        Tag::Strikethrough => "s"@,
        Tag::Code => "code"@,
        Tag::Syntax => "syntax"@,
    }
}

impl Tag {
    /// The stable identifier under which the host registers the visual
    /// style of this tag.
    pub fn to_string(&self) -> (r: String)
        ensures
            r@ == tag_label(*self),
    {
        match self {
            Tag::Emphasis => String::from_str("em"),
            Tag::Strong => String::from_str("strong"),
            Tag::Strikethrough => String::from_str("s"),
            Tag::Code => String::from_str("code"),
            Tag::Syntax => String::from_str("syntax"),
        }
    }
}

/// The ordered, closed set of tags the parser can produce.
pub fn styles_of() -> (v: Vec<Tag>)
    ensures
        v@ == seq![Tag::Emphasis, Tag::Strong, Tag::Strikethrough, Tag::Code, Tag::Syntax],
{
    let mut v: Vec<Tag> = Vec::new();
    v.push(Tag::Emphasis);
    v.push(Tag::Strong);
    v.push(Tag::Strikethrough);
    v.push(Tag::Code);
    v.push(Tag::Syntax);
    proof {
        assert(v@ =~= seq![
            Tag::Emphasis,
            Tag::Strong,
            Tag::Strikethrough,
            Tag::Code,
            Tag::Syntax,
        ]);
    }
    v
}

/// Distinct tags carry distinct external identifiers.
pub proof fn lemma_tag_labels_distinct(a: Tag, b: Tag)
    requires
        tag_label(a) == tag_label(b),
    ensures
        a == b,
{
    reveal_strlit("em");
    reveal_strlit("strong");
    reveal_strlit("s");
    reveal_strlit("code");
    reveal_strlit("syntax");
    let la = tag_label(a);
    let lb = tag_label(b);
    match a {
        Tag::Emphasis => assert(la.len() == 2),
        Tag::Strong => assert(la.len() == 6 && la[1] == 't'),
        Tag::Strikethrough => assert(la.len() == 1),
        Tag::Code => assert(la.len() == 4),
        Tag::Syntax => assert(la.len() == 6 && la[1] == 'y'),
    }
    match b {
        Tag::Emphasis => assert(lb.len() == 2),
        Tag::Strong => assert(lb.len() == 6 && lb[1] == 't'),
        Tag::Strikethrough => assert(lb.len() == 1),
        Tag::Code => assert(lb.len() == 4),
        Tag::Syntax => assert(lb.len() == 6 && lb[1] == 'y'),
    }
}

} // verus!
