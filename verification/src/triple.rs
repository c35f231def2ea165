//! Triples: a subject, a predicate and an object, taken from the content of a
//! memory.

use crate::score;
use crate::score::Score;
use crate::text;
use crate::text::{chars_of, same, to_lower};
use vstd::prelude::*;
use vstd::string::*;

verus! {

/// The predicates of triples.
#[derive(Debug, Clone, Copy, PartialEq, Eq, Hash, Structural)]
pub enum Predicate {
    /// One is a kind of the other.
    IsA,
    /// One is a part of the other.
    PartOf,
    /// One uses the other.
    Uses,
    /// One depends on the other.
    DependsOn,
    /// One is caused by the other.
    CausedBy,
    /// One leads to the other.
    LeadsTo,
    /// One implements the other.
    Implements,
    /// One contradicts the other.
    Contradicts,
    /// They are related in some way.
    RelatedTo,
}

/// A text with hyphens and spaces turned into underscores.
pub open spec fn underscored(s: Seq<char>) -> Seq<char> {
    s.map_values(
        |c: char|
            if c == '-' || c == ' ' {
                '_'
            } else {
                c
            },
    )
}

/// The predicate for a name in lower case with underscores. Names that are not
/// known mean that two things are related.
pub open spec fn predicate_named(n: Seq<char>) -> Predicate {
    if n == "is_a"@ || n == "isa"@ || n == "is"@ || n == "type_of"@ {
        Predicate::IsA
    } else if n == "part_of"@ || n == "partof"@ || n == "belongs_to"@ {
        Predicate::PartOf
    } else if n == "uses"@ || n == "use"@ || n == "utilizes"@ {
        Predicate::Uses
    } else if n == "depends_on"@ || n == "dependson"@ || n == "requires"@ {
        Predicate::DependsOn
    } else if n == "caused_by"@ || n == "causedby"@ || n == "due_to"@ {
        Predicate::CausedBy
    } else if n == "leads_to"@ || n == "leadsto"@ || n == "results_in"@ {
        Predicate::LeadsTo
    } else if n == "implements"@ || n == "implement"@ || n == "realizes"@ {
        Predicate::Implements
    } else if n == "contradicts"@ || n == "contradict"@ || n == "conflicts_with"@ {
        Predicate::Contradicts
    } else {
        Predicate::RelatedTo
    }
}

fn with_underscores(s: &str) -> (r: String)
    ensures
        r@ == underscored(s@),
{
    let chars: Vec<char> = chars_of(s);
    let mut out: String = String::new();
    let mut i: usize = 0;
    while i < chars.len()
        invariant
            i <= chars@.len(),
            chars@ == s@,
            out@ == underscored(s@).take(i as int),
        decreases chars.len() - i,
    {
        let c: char = if chars[i] == '-' || chars[i] == ' ' {
            '_'
        } else {
            chars[i]
        };
        out.push(c);
        proof {
            let all = underscored(s@);
            assert(all.take(i + 1) =~= all.take(i as int).push(all[i as int]));
        }
        i += 1;
    }
    assert(out@ =~= underscored(s@));
    out
}

impl Predicate {
    /// Reads a predicate in any of its spellings; what is not known means that
    /// two things are related.
    pub fn from_str_lossy(s: &str) -> (r: Predicate)
        ensures
            r == predicate_named(underscored(text::lowercase(s@))),
            s.is_ascii() ==> r == predicate_named(underscored(text::ascii_lowered(s@))),
    {
        let lower: String = to_lower(s);
        let name: String = with_underscores(lower.as_str());
        let n: &str = name.as_str();
        if same(n, "is_a") || same(n, "isa") || same(n, "is") || same(n, "type_of") {
            Predicate::IsA
        } else if same(n, "part_of") || same(n, "partof") || same(n, "belongs_to") {
            Predicate::PartOf
        } else if same(n, "uses") || same(n, "use") || same(n, "utilizes") {
            Predicate::Uses
        } else if same(n, "depends_on") || same(n, "dependson") || same(n, "requires") {
            Predicate::DependsOn
        } else if same(n, "caused_by") || same(n, "causedby") || same(n, "due_to") {
            Predicate::CausedBy
        } else if same(n, "leads_to") || same(n, "leadsto") || same(n, "results_in") {
            Predicate::LeadsTo
        } else if same(n, "implements") || same(n, "implement") || same(n, "realizes") {
            Predicate::Implements
        } else if same(n, "contradicts") || same(n, "contradict") || same(n, "conflicts_with") {
            Predicate::Contradicts
        } else {
            Predicate::RelatedTo
        }
    }

    /// The name of the predicate.
    pub open spec fn name(self) -> Seq<char> {
        match self {
            Predicate::IsA => "is_a"@,
            Predicate::PartOf => "part_of"@,
            Predicate::Uses => "uses"@,
            Predicate::DependsOn => "depends_on"@,
            Predicate::CausedBy => "caused_by"@,
            Predicate::LeadsTo => "leads_to"@,
            Predicate::Implements => "implements"@,
            Predicate::Contradicts => "contradicts"@,
            Predicate::RelatedTo => "related_to"@,
        }
    }

    /// The name of the predicate.
    pub fn as_str(&self) -> (r: &'static str)
        ensures
            r@ == self.name(),
    {
        match self {
            Predicate::IsA => "is_a",
            Predicate::PartOf => "part_of",
            Predicate::Uses => "uses",
            Predicate::DependsOn => "depends_on",
            Predicate::CausedBy => "caused_by",
            Predicate::LeadsTo => "leads_to",
            Predicate::Implements => "implements",
            Predicate::Contradicts => "contradicts",
            Predicate::RelatedTo => "related_to",
        }
    }
}

/// Whether a text has no upper-case letter, hyphen, space or character beyond
/// ASCII.
spec fn plain(s: Seq<char>) -> bool {
    forall|i: int|
        0 <= i < s.len() ==> !('A' <= #[trigger] s[i] <= 'Z') && s[i] != '-' && s[i] != ' '
            && (s[i] as u32) < 128
}

proof fn lemma_plain(s: Seq<char>)
    requires
        plain(s),
    ensures
        underscored(text::ascii_lowered(s)) == s,
        vstd::utf8::is_ascii_chars(s),
{
    assert forall|i: int| 0 <= i < s.len() implies #[trigger] underscored(
        text::ascii_lowered(s),
    )[i] == s[i] by {
        assert(text::ascii_lowered(s)[i] == s[i]);
    }
    assert(underscored(text::ascii_lowered(s)) =~= s);
}

/// A predicate is the one that its name is read as.
pub proof fn law_predicate_round_trip(p: Predicate)
    ensures
        vstd::utf8::is_ascii_chars(p.name()),
        predicate_named(underscored(text::ascii_lowered(p.name()))) == p,
{
    reveal_strlit("is_a");
    reveal_strlit("part_of");
    reveal_strlit("uses");
    reveal_strlit("depends_on");
    reveal_strlit("caused_by");
    reveal_strlit("leads_to");
    reveal_strlit("implements");
    reveal_strlit("contradicts");
    reveal_strlit("related_to");
    lemma_plain(p.name());
    lemma_literals();
}

/// The spellings differ in their lengths or in their first characters.
proof fn lemma_literals()
    ensures
        "is_a"@.len() == 4 && "is_a"@[0] == 'i' && "is_a"@[1] == 's',
        "isa"@.len() == 3 && "is"@.len() == 2,
        "type_of"@.len() == 7 && "type_of"@[0] == 't',
        "part_of"@.len() == 7 && "part_of"@[0] == 'p',
        "partof"@.len() == 6 && "partof"@[0] == 'p',
        "belongs_to"@.len() == 10 && "belongs_to"@[0] == 'b',
        "uses"@.len() == 4 && "uses"@[0] == 'u',
        "use"@.len() == 3 && "use"@[0] == 'u',
        "utilizes"@.len() == 8 && "utilizes"@[0] == 'u',
        "depends_on"@.len() == 10 && "depends_on"@[0] == 'd' && "depends_on"@[1] == 'e',
        "dependson"@.len() == 9 && "dependson"@[0] == 'd' && "dependson"@[1] == 'e',
        "requires"@.len() == 8 && "requires"@[0] == 'r',
        "caused_by"@.len() == 9 && "caused_by"@[0] == 'c' && "caused_by"@[1] == 'a',
        "causedby"@.len() == 8 && "causedby"@[0] == 'c' && "causedby"@[1] == 'a',
        "due_to"@.len() == 6 && "due_to"@[0] == 'd' && "due_to"@[1] == 'u',
        "leads_to"@.len() == 8 && "leads_to"@[0] == 'l',
        "leadsto"@.len() == 7 && "leadsto"@[0] == 'l',
        "results_in"@.len() == 10 && "results_in"@[0] == 'r' && "results_in"@[2] == 's',
        "implements"@.len() == 10 && "implements"@[0] == 'i' && "implements"@[1] == 'm',
        "implement"@.len() == 9 && "implement"@[0] == 'i' && "implement"@[1] == 'm',
        "realizes"@.len() == 8 && "realizes"@[0] == 'r',
        "contradicts"@.len() == 11 && "contradicts"@[0] == 'c',
        "contradict"@.len() == 10 && "contradict"@[0] == 'c',
        "conflicts_with"@.len() == 14,
        "related_to"@.len() == 10 && "related_to"@[0] == 'r' && "related_to"@[2] == 'l',
{
    reveal_strlit("is_a");
    reveal_strlit("isa");
    reveal_strlit("is");
    reveal_strlit("type_of");
    reveal_strlit("part_of");
    reveal_strlit("partof");
    reveal_strlit("belongs_to");
    reveal_strlit("uses");
    reveal_strlit("use");
    reveal_strlit("utilizes");
    reveal_strlit("depends_on");
    reveal_strlit("dependson");
    reveal_strlit("requires");
    reveal_strlit("caused_by");
    reveal_strlit("causedby");
    reveal_strlit("due_to");
    reveal_strlit("leads_to");
    reveal_strlit("leadsto");
    reveal_strlit("results_in");
    reveal_strlit("implements");
    reveal_strlit("implement");
    reveal_strlit("realizes");
    reveal_strlit("contradicts");
    reveal_strlit("contradict");
    reveal_strlit("conflicts_with");
    reveal_strlit("related_to");
}

/// Where a triple comes from.
#[derive(Debug, Clone, Copy, PartialEq, Eq, Structural)]
pub enum TripleSource {
    /// A language model.
    Llm,
    /// A rule.
    Rule,
    /// A person.
    Manual,
}

/// The kinds of entities that an extractor may name.
#[derive(Debug, Clone, Copy, PartialEq, Eq, Hash, Structural)]
pub enum EntityKind {
    /// A person.
    Person,
    /// An organization.
    Organization,
    /// A place.
    Place,
    /// A concept.
    Concept,
    /// An artifact.
    Artifact,
    /// An event.
    Event,
    /// A topic.
    Topic,
}

/// A triple.
#[derive(Debug, Clone, PartialEq, Eq)]
pub struct Triple {
    /// The subject.
    pub subject: String,
    /// The predicate.
    pub predicate: Predicate,
    /// The object.
    pub object: String,
    /// How certain it is, between zero and one.
    pub confidence: Score,
    /// Where it comes from.
    pub source: TripleSource,
    /// What the subject is, where the extractor told.
    pub subject_kind_hint: Option<EntityKind>,
    /// What the object is, where the extractor told.
    pub object_kind_hint: Option<EntityKind>,
}

impl Triple {
    /// A triple from a language model, with its confidence brought between zero
    /// and one.
    pub fn new(subject: String, predicate: Predicate, object: String, confidence: Score) -> (r:
        Triple)
        ensures
            r == (Triple {
                subject,
                predicate,
                object,
                confidence: confidence.bounded(
                    Score { bits: score::ZERO },
                    Score { bits: score::ONE },
                ),
                source: TripleSource::Llm,
                subject_kind_hint: None,
                object_kind_hint: None,
            }),
    {
        let confidence: Score = confidence.clamp(
            Score { bits: score::ZERO },
            Score { bits: score::ONE },
        );
        Triple {
            subject,
            predicate,
            object,
            confidence,
            source: TripleSource::Llm,
            subject_kind_hint: None,
            object_kind_hint: None,
        }
    }
}

/// The names of a predicate, in lower case and with underscores, are its own and
/// those that mean the same.
pub proof fn law_predicates_have_synonyms(n: Seq<char>)
    ensures
        n == "is_a"@ || n == "isa"@ || n == "is"@ || n == "type_of"@ ==> predicate_named(n) is IsA,
        n == "part_of"@ || n == "partof"@ || n == "belongs_to"@ ==> predicate_named(n) is PartOf,
        n == "uses"@ || n == "use"@ || n == "utilizes"@ ==> predicate_named(n) is Uses,
        n == "depends_on"@ || n == "dependson"@ || n == "requires"@ ==> predicate_named(
            n,
        ) is DependsOn,
        n == "caused_by"@ || n == "causedby"@ || n == "due_to"@ ==> predicate_named(n) is CausedBy,
        n == "leads_to"@ || n == "leadsto"@ || n == "results_in"@ ==> predicate_named(n) is LeadsTo,
        n == "implements"@ || n == "implement"@ || n == "realizes"@ ==> predicate_named(
            n,
        ) is Implements,
        n == "contradicts"@ || n == "contradict"@ || n == "conflicts_with"@ ==> predicate_named(
            n,
        ) is Contradicts,
{
    reveal_strlit("is_a");
    assert("is_a"@.len() == 4 && "is_a"@[0] == 'i');
    reveal_strlit("isa");
    assert("isa"@.len() == 3 && "isa"@[0] == 'i');
    reveal_strlit("is");
    assert("is"@.len() == 2 && "is"@[0] == 'i');
    reveal_strlit("type_of");
    assert("type_of"@.len() == 7 && "type_of"@[0] == 't');
    reveal_strlit("part_of");
    assert("part_of"@.len() == 7 && "part_of"@[0] == 'p');
    reveal_strlit("partof");
    assert("partof"@.len() == 6 && "partof"@[0] == 'p');
    reveal_strlit("belongs_to");
    assert("belongs_to"@.len() == 10 && "belongs_to"@[0] == 'b');
    reveal_strlit("uses");
    assert("uses"@.len() == 4 && "uses"@[0] == 'u');
    reveal_strlit("use");
    assert("use"@.len() == 3 && "use"@[0] == 'u');
    reveal_strlit("utilizes");
    assert("utilizes"@.len() == 8 && "utilizes"@[0] == 'u');
    reveal_strlit("depends_on");
    assert("depends_on"@.len() == 10 && "depends_on"@[0] == 'd');
    reveal_strlit("dependson");
    assert("dependson"@.len() == 9 && "dependson"@[0] == 'd');
    reveal_strlit("requires");
    assert("requires"@.len() == 8 && "requires"@[0] == 'r' && "requires"@[2] == 'q');
    reveal_strlit("caused_by");
    assert("caused_by"@.len() == 9 && "caused_by"@[0] == 'c');
    reveal_strlit("causedby");
    assert("causedby"@.len() == 8 && "causedby"@[0] == 'c');
    reveal_strlit("due_to");
    assert("due_to"@.len() == 6 && "due_to"@[0] == 'd');
    reveal_strlit("leads_to");
    assert("leads_to"@.len() == 8 && "leads_to"@[0] == 'l');
    reveal_strlit("leadsto");
    assert("leadsto"@.len() == 7 && "leadsto"@[0] == 'l');
    reveal_strlit("results_in");
    assert("results_in"@.len() == 10 && "results_in"@[0] == 'r');
    reveal_strlit("implements");
    assert("implements"@.len() == 10 && "implements"@[0] == 'i');
    reveal_strlit("implement");
    assert("implement"@.len() == 9 && "implement"@[0] == 'i');
    reveal_strlit("realizes");
    assert("realizes"@.len() == 8 && "realizes"@[0] == 'r' && "realizes"@[2] == 'a');
    reveal_strlit("contradicts");
    assert("contradicts"@.len() == 11 && "contradicts"@[0] == 'c');
    reveal_strlit("contradict");
    assert("contradict"@.len() == 10 && "contradict"@[0] == 'c');
    reveal_strlit("conflicts_with");
    assert("conflicts_with"@.len() == 14 && "conflicts_with"@[0] == 'c');
}

/// A relation that is none of the known ones is read as the loosest.
pub proof fn law_unknown_predicates_relate(n: Seq<char>, p: Predicate)
    requires
        predicate_named(n) == p,
        !(p is RelatedTo),
    ensures
        seq![
            "is_a"@,
            "isa"@,
            "is"@,
            "type_of"@,
            "part_of"@,
            "partof"@,
            "belongs_to"@,
            "uses"@,
            "use"@,
            "utilizes"@,
            "depends_on"@,
            "dependson"@,
            "requires"@,
            "caused_by"@,
            "causedby"@,
            "due_to"@,
            "leads_to"@,
            "leadsto"@,
            "results_in"@,
            "implements"@,
            "implement"@,
            "realizes"@,
            "contradicts"@,
            "contradict"@,
            "conflicts_with"@,
        ].contains(n),
{
    let known = seq![
        "is_a"@,
        "isa"@,
        "is"@,
        "type_of"@,
        "part_of"@,
        "partof"@,
        "belongs_to"@,
        "uses"@,
        "use"@,
        "utilizes"@,
        "depends_on"@,
        "dependson"@,
        "requires"@,
        "caused_by"@,
        "causedby"@,
        "due_to"@,
        "leads_to"@,
        "leadsto"@,
        "results_in"@,
        "implements"@,
        "implement"@,
        "realizes"@,
        "contradicts"@,
        "contradict"@,
        "conflicts_with"@,
    ];
    assert(n == known[0] || n == known[1] || n == known[2] || n == known[3] || n == known[4] || n
        == known[5] || n == known[6] || n == known[7] || n == known[8] || n == known[9] || n
        == known[10] || n == known[11] || n == known[12] || n == known[13] || n == known[14] || n
        == known[15] || n == known[16] || n == known[17] || n == known[18] || n == known[19] || n
        == known[20] || n == known[21] || n == known[22] || n == known[23] || n == known[24]);
}

/// Hyphens and blanks become underscores, and nothing else changes.
pub proof fn law_hyphens_and_blanks_become_underscores(s: Seq<char>, i: int)
    requires
        0 <= i < s.len(),
    ensures
        underscored(s).len() == s.len(),
        s[i] == '-' || s[i] == ' ' ==> underscored(s)[i] == '_',
        s[i] != '-' && s[i] != ' ' ==> underscored(s)[i] == s[i],
{
}

} // verus!
