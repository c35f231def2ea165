//! Rows of the unified tables: kinds, nodes, edges, and their attributes by
//! kind.

use crate::json;
use crate::json::{
    element_at, entry, find, object_value, parse, read_nullable, strings_value, text_value, JsonNode, JsonView,
};
use crate::score::Score;
use crate::substrate::attributes;
use crate::text;
use crate::text::{debug_text, same};
use vstd::prelude::*;
use vstd::string::*;

verus! {

/// The kind of a node. Kinds that this version does not know are kept by name.
#[derive(Debug, Clone, PartialEq, Eq, Hash)]
pub enum NodeKind {
    /// A memory.
    Memory,
    /// An entity.
    Entity,
    /// A topic.
    Topic,
    /// An insight.
    Insight,
    /// An episode.
    Episode,
    /// A plan.
    Plan,
    /// Another kind, by its name. Not meant to be written.
    Other(String),
}

/// Whether a name is that of a declared node kind.
pub open spec fn known_node_kind(s: Seq<char>) -> bool {
    s == "memory"@ || s == "entity"@ || s == "topic"@ || s == "insight"@ || s == "episode"@ || s
        == "plan"@
}

impl NodeKind {
    /// The name of the kind in the database.
    pub open spec fn name(self) -> Seq<char> {
        match self {
            NodeKind::Memory => "memory"@,
            NodeKind::Entity => "entity"@,
            NodeKind::Topic => "topic"@,
            NodeKind::Insight => "insight"@,
            NodeKind::Episode => "episode"@,
            NodeKind::Plan => "plan"@,
            NodeKind::Other(s) => s@,
        }
    }

    /// The name of the kind in the database.
    pub fn as_str(&self) -> (r: &str)
        ensures
            r@ == self.name(),
    {
        match self {
            NodeKind::Memory => "memory",
            NodeKind::Entity => "entity",
            NodeKind::Topic => "topic",
            NodeKind::Insight => "insight",
            NodeKind::Episode => "episode",
            NodeKind::Plan => "plan",
            NodeKind::Other(s) => s.as_str(),
        }
    }

    /// The kind with the given name: a declared one where there is one.
    pub fn from_name(s: &str) -> (r: NodeKind)
        ensures
            r.name() == s@,
            r is Other <==> !known_node_kind(s@),
    {
        if same(s, "memory") {
            NodeKind::Memory
        } else if same(s, "entity") {
            NodeKind::Entity
        } else if same(s, "topic") {
            NodeKind::Topic
        } else if same(s, "insight") {
            NodeKind::Insight
        } else if same(s, "episode") {
            NodeKind::Episode
        } else if same(s, "plan") {
            NodeKind::Plan
        } else {
            NodeKind::Other(s.to_owned())
        }
    }
}

impl std::str::FromStr for NodeKind {
    type Err = std::convert::Infallible;

    /// Reads the name of a kind. Every name is that of one.
    fn from_str(s: &str) -> (r: Result<NodeKind, std::convert::Infallible>)
        ensures
            r matches Ok(k) && k.name() == s@ && (k is Other <==> !known_node_kind(s@)),
    {
        Ok(NodeKind::from_name(s))
    }
}

/// A declared kind is the one that its name is read as.
pub proof fn law_node_kind_round_trip(kind: NodeKind, read: NodeKind)
    requires
        !(kind is Other),
        read.name() == kind.name(),
        read is Other <==> !known_node_kind(kind.name()),
    ensures
        read == kind,
{
    reveal_strlit("memory");
    reveal_strlit("entity");
    reveal_strlit("topic");
    reveal_strlit("insight");
    reveal_strlit("episode");
    reveal_strlit("plan");
    assert("memory"@[0] == 'm' && "entity"@[0] == 'e' && "topic"@[0] == 't' && "insight"@[0] == 'i'
        && "episode"@[1] == 'p' && "entity"@[1] == 'n' && "episode"@[0] == 'e' && "plan"@[0]
        == 'p');
}

/// The kind of an edge: one of six families.
#[derive(Debug, Clone, Copy, PartialEq, Eq, Hash, Structural)]
pub enum EdgeKind {
    /// A relation between things.
    Structure,
    /// A co-activation.
    Associative,
    /// A part of a whole.
    Containment,
    /// Where something comes from.
    Provenance,
    /// An order in time.
    Temporal,
    /// A replacement.
    Supersession,
}

/// Whether a name is that of an edge kind.
pub open spec fn known_edge_kind(s: Seq<char>) -> bool {
    s == "structural"@ || s == "associative"@ || s == "containment"@ || s == "provenance"@ || s
        == "temporal"@ || s == "supersession"@
}

impl EdgeKind {
    /// The name of the kind in the database.
    pub open spec fn name(self) -> Seq<char> {
        match self {
            EdgeKind::Structure => "structural"@,
            EdgeKind::Associative => "associative"@,
            EdgeKind::Containment => "containment"@,
            EdgeKind::Provenance => "provenance"@,
            EdgeKind::Temporal => "temporal"@,
            EdgeKind::Supersession => "supersession"@,
        }
    }

    /// The name of the kind in the database.
    pub fn as_str(&self) -> (r: &str)
        ensures
            r@ == self.name(),
    {
        match self {
            EdgeKind::Structure => "structural",
            EdgeKind::Associative => "associative",
            EdgeKind::Containment => "containment",
            EdgeKind::Provenance => "provenance",
            EdgeKind::Temporal => "temporal",
            EdgeKind::Supersession => "supersession",
        }
    }

    /// The kind with the given name.
    pub fn from_name(s: &str) -> (r: Result<EdgeKind, UnknownEdgeKind>)
        ensures
            match r {
                Ok(k) => known_edge_kind(s@) && k.name() == s@,
                Err(e) => !known_edge_kind(s@) && e.0@ == s@,
            },
    {
        if same(s, "structural") {
            Ok(EdgeKind::Structure)
        } else if same(s, "associative") {
            Ok(EdgeKind::Associative)
        } else if same(s, "containment") {
            Ok(EdgeKind::Containment)
        } else if same(s, "provenance") {
            Ok(EdgeKind::Provenance)
        } else if same(s, "temporal") {
            Ok(EdgeKind::Temporal)
        } else if same(s, "supersession") {
            Ok(EdgeKind::Supersession)
        } else {
            Err(UnknownEdgeKind(s.to_owned()))
        }
    }
}

impl std::str::FromStr for EdgeKind {
    type Err = UnknownEdgeKind;

    /// Reads the name of a kind.
    fn from_str(s: &str) -> (r: Result<EdgeKind, UnknownEdgeKind>)
        ensures
            match r {
                Ok(k) => known_edge_kind(s@) && k.name() == s@,
                Err(e) => !known_edge_kind(s@) && e.0@ == s@,
            },
    {
        EdgeKind::from_name(s)
    }
}

/// An edge kind is the one that its name is read as.
pub proof fn law_edge_kind_round_trip(kind: EdgeKind, read: EdgeKind)
    requires
        read.name() == kind.name(),
    ensures
        read == kind,
        known_edge_kind(kind.name()),
{
    reveal_strlit("structural");
    reveal_strlit("associative");
    reveal_strlit("containment");
    reveal_strlit("provenance");
    reveal_strlit("temporal");
    reveal_strlit("supersession");
    assert("structural"@[0] == 's' && "structural"@[1] == 't' && "supersession"@[1] == 'u');
    assert("associative"@[0] == 'a' && "containment"@[0] == 'c' && "provenance"@[0] == 'p');
    assert("temporal"@[0] == 't' && "supersession"@[0] == 's');
}

/// A name that is no edge kind.
#[derive(Debug, Clone, PartialEq, Eq)]
pub struct UnknownEdgeKind(pub String);

impl UnknownEdgeKind {
    /// What the error says: the name, and the kinds there are.
    pub fn text(&self) -> (r: String)
        ensures
            r@ == "unknown edge_kind "@ + text::debug_form(self.0@)
                + " (expected one of: structural, associative, containment, provenance, temporal, supersession)"@,
    {
        let mut out: String = "unknown edge_kind ".to_owned();
        out.append(debug_text(self.0.as_str()).as_str());
        out.append(
            " (expected one of: structural, associative, containment, provenance, temporal, supersession)",
        );
        out
    }
}

/// The layer of a memory.
#[derive(Debug, Clone, Copy, PartialEq, Eq, Hash, Structural)]
pub enum MemoryLayer {
    /// Kept for good.
    Core,
    /// In use.
    Working,
    /// Put away.
    Archive,
}

/// Whether a name is that of a memory layer.
pub open spec fn known_layer(s: Seq<char>) -> bool {
    s == "core"@ || s == "working"@ || s == "archive"@
}

impl MemoryLayer {
    /// The name of the layer in the database.
    pub open spec fn name(self) -> Seq<char> {
        match self {
            MemoryLayer::Core => "core"@,
            MemoryLayer::Working => "working"@,
            MemoryLayer::Archive => "archive"@,
        }
    }

    /// The name of the layer in the database.
    pub fn as_str(&self) -> (r: &'static str)
        ensures
            r@ == self.name(),
    {
        match self {
            MemoryLayer::Core => "core",
            MemoryLayer::Working => "working",
            MemoryLayer::Archive => "archive",
        }
    }

    /// The layer with the given name, or a message that names it.
    pub fn from_name(s: &str) -> (r: Result<MemoryLayer, String>)
        ensures
            match r {
                Ok(l) => known_layer(s@) && l.name() == s@,
                Err(e) => !known_layer(s@) && e@ == "unknown memory layer "@ + text::debug_form(s@),
            },
    {
        if same(s, "core") {
            Ok(MemoryLayer::Core)
        } else if same(s, "working") {
            Ok(MemoryLayer::Working)
        } else if same(s, "archive") {
            Ok(MemoryLayer::Archive)
        } else {
            let mut out: String = "unknown memory layer ".to_owned();
            out.append(debug_text(s).as_str());
            Err(out)
        }
    }
}

impl std::str::FromStr for MemoryLayer {
    type Err = String;

    /// Reads the name of a layer.
    fn from_str(s: &str) -> (r: Result<MemoryLayer, String>)
        ensures
            match r {
                Ok(l) => known_layer(s@) && l.name() == s@,
                Err(e) => !known_layer(s@) && e@ == "unknown memory layer "@ + text::debug_form(s@),
            },
    {
        MemoryLayer::from_name(s)
    }
}

/// A layer is the one that its name is read as.
pub proof fn law_layer_round_trip(layer: MemoryLayer, read: MemoryLayer)
    requires
        read.name() == layer.name(),
    ensures
        read == layer,
        known_layer(layer.name()),
{
    reveal_strlit("core");
    reveal_strlit("working");
    reveal_strlit("archive");
    assert("core"@[0] == 'c' && "working"@[0] == 'w' && "archive"@[0] == 'a');
}

/// The type of a memory.
#[derive(Debug, Clone, Copy, PartialEq, Eq, Hash, Structural)]
pub enum MemoryType {
    /// A fact.
    Factual,
    /// Something that happened.
    Episodic,
    /// A relation between people or things.
    Relational,
    /// A feeling.
    Emotional,
    /// How something is done.
    Procedural,
    /// An opinion.
    Opinion,
    /// Why something is so.
    Causal,
}

/// Whether a name is that of a memory type.
pub open spec fn known_type(s: Seq<char>) -> bool {
    s == "factual"@ || s == "episodic"@ || s == "relational"@ || s == "emotional"@ || s
        == "procedural"@ || s == "opinion"@ || s == "causal"@
}

impl MemoryType {
    /// The name of the type in the database.
    pub open spec fn name(self) -> Seq<char> {
        match self {
            MemoryType::Factual => "factual"@,
            MemoryType::Episodic => "episodic"@,
            MemoryType::Relational => "relational"@,
            MemoryType::Emotional => "emotional"@,
            MemoryType::Procedural => "procedural"@,
            MemoryType::Opinion => "opinion"@,
            MemoryType::Causal => "causal"@,
        }
    }

    /// The name of the type in the database.
    pub fn as_str(&self) -> (r: &'static str)
        ensures
            r@ == self.name(),
    {
        match self {
            MemoryType::Factual => "factual",
            MemoryType::Episodic => "episodic",
            MemoryType::Relational => "relational",
            MemoryType::Emotional => "emotional",
            MemoryType::Procedural => "procedural",
            MemoryType::Opinion => "opinion",
            MemoryType::Causal => "causal",
        }
    }

    /// The type with the given name, or a message that names it.
    pub fn from_name(s: &str) -> (r: Result<MemoryType, String>)
        ensures
            match r {
                Ok(t) => known_type(s@) && t.name() == s@,
                Err(e) => !known_type(s@) && e@ == "unknown memory_type "@ + text::debug_form(s@),
            },
    {
        if same(s, "factual") {
            Ok(MemoryType::Factual)
        } else if same(s, "episodic") {
            Ok(MemoryType::Episodic)
        } else if same(s, "relational") {
            Ok(MemoryType::Relational)
        } else if same(s, "emotional") {
            Ok(MemoryType::Emotional)
        } else if same(s, "procedural") {
            Ok(MemoryType::Procedural)
        } else if same(s, "opinion") {
            Ok(MemoryType::Opinion)
        } else if same(s, "causal") {
            Ok(MemoryType::Causal)
        } else {
            let mut out: String = "unknown memory_type ".to_owned();
            out.append(debug_text(s).as_str());
            Err(out)
        }
    }
}

impl std::str::FromStr for MemoryType {
    type Err = String;

    /// Reads the name of a type.
    fn from_str(s: &str) -> (r: Result<MemoryType, String>)
        ensures
            match r {
                Ok(t) => known_type(s@) && t.name() == s@,
                Err(e) => !known_type(s@) && e@ == "unknown memory_type "@ + text::debug_form(s@),
            },
    {
        MemoryType::from_name(s)
    }
}

/// A type is the one that its name is read as.
pub proof fn law_memory_type_round_trip(kind: MemoryType, read: MemoryType)
    requires
        read.name() == kind.name(),
    ensures
        read == kind,
        known_type(kind.name()),
{
    reveal_strlit("factual");
    reveal_strlit("episodic");
    reveal_strlit("relational");
    reveal_strlit("emotional");
    reveal_strlit("procedural");
    reveal_strlit("opinion");
    reveal_strlit("causal");
    assert("factual"@[0] == 'f' && "episodic"@[0] == 'e' && "episodic"@[1] == 'p');
    assert("relational"@[0] == 'r' && "emotional"@[0] == 'e' && "emotional"@[1] == 'm');
    assert("procedural"@[0] == 'p' && "opinion"@[0] == 'o' && "causal"@[0] == 'c');
}

// ---------------------------------------------------------------------------
// Attributes
// ---------------------------------------------------------------------------

/// The attributes of a memory.
#[derive(Debug, Clone, PartialEq, Eq)]
pub struct MemoryAttributes {
    /// Its tags.
    pub tags: Vec<String>,
    /// Where it comes from.
    pub source: Option<String>,
    /// What else was recorded with it, as JSON text.
    pub metadata: Option<String>,
}

/// The model of [`MemoryAttributes`].
pub struct MemoryAttributesView {
    /// Its tags.
    pub tags: Seq<Seq<char>>,
    /// Where it comes from.
    pub source: Option<Seq<char>>,
    /// What else was recorded with it.
    pub metadata: Option<Seq<char>>,
}

impl View for MemoryAttributes {
    type V = MemoryAttributesView;

    open spec fn view(&self) -> MemoryAttributesView {
        MemoryAttributesView {
            tags: text::views(self.tags@),
            source: text::opt_view(self.source),
            metadata: text::opt_view(self.metadata),
        }
    }
}

impl Default for MemoryAttributes {
    fn default() -> (r: MemoryAttributes)
        ensures
            r@ == (MemoryAttributesView { tags: Seq::empty(), source: None, metadata: None }),
    {
        let r: MemoryAttributes = MemoryAttributes {
            tags: Vec::new(),
            source: None,
            metadata: None,
        };
        assert(r@.tags =~= Seq::empty());
        r
    }
}

/// The strings that JSON texts hold, where each of them is a string.
pub open spec fn all_strings(items: Seq<Seq<char>>) -> Option<Seq<Seq<char>>>
    decreases items.len(),
{
    if items.len() == 0 {
        Some(Seq::empty())
    } else {
        match (all_strings(items.drop_last()), json::json_level(items.last())) {
            (Some(v), Some(JsonView::Text(s))) => Some(v.push(s)),
            _ => None,
        }
    }
}

/// The strings that JSON texts hold, where each of them is a string.
pub fn read_strings(items: &Vec<String>) -> (r: Option<Vec<String>>)
    ensures
        all_strings(text::views(items@)) == (match r {
            Some(v) => Some(text::views(v@)),
            None => None,
        }),
{
    let mut out: Vec<String> = Vec::new();
    let ghost all = text::views(items@);
    let mut i: usize = 0;
    assert(text::views(out@) =~= Seq::empty());
    while i < items.len()
        invariant
            i <= items@.len(),
            all == text::views(items@),
            all_strings(all.take(i as int)) == Some(text::views(out@)),
        decreases items.len() - i,
    {
        assert(all.take(i + 1).drop_last() =~= all.take(i as int));
        assert(all.take(i + 1).last() == all[i as int]);
        match parse(items[i].as_str()) {
            Some(JsonNode::Text(s)) => {
                let ghost before = text::views(out@);
                let ghost added = s@;
                out.push(s);
                assert(text::views(out@) =~= before.push(added));
            },
            _ => {
                proof {
                    lemma_unread_prefix(all, i + 1);
                }
                return None;
            },
        }
        i += 1;
    }
    assert(all.take(i as int) =~= all);
    Some(out)
}

/// A list with a prefix that cannot be read cannot be read.
proof fn lemma_unread_prefix(items: Seq<Seq<char>>, n: int)
    requires
        0 <= n <= items.len(),
        all_strings(items.take(n)) is None,
    ensures
        all_strings(items) is None,
    decreases items.len() - n,
{
    if n < items.len() {
        assert(items.take(n + 1).drop_last() =~= items.take(n));
        lemma_unread_prefix(items, n + 1);
    } else {
        assert(items.take(n) =~= items);
    }
}

/// The tags under a field: none where it is missing.
pub open spec fn tags_of(value: Option<Seq<char>>) -> Option<Seq<Seq<char>>> {
    match value {
        None => Some(Seq::empty()),
        Some(t) => match json::json_level(t) {
            Some(JsonView::Array(items)) => all_strings(items),
            _ => None,
        },
    }
}

/// The metadata under a field: none where it is missing or null.
pub open spec fn metadata_of(value: Option<Seq<char>>) -> Option<Seq<char>> {
    match value {
        None => None,
        Some(t) => if json::json_level(t) == Some(JsonView::Null) {
            None
        } else {
            Some(t)
        },
    }
}

/// The attributes that three fields hold.
pub open spec fn attributes_of(
    tags: Option<Seq<char>>,
    source: Option<Seq<char>>,
    metadata: Option<Seq<char>>,
) -> Option<MemoryAttributesView> {
    match (tags_of(tags), json::nullable_text(source)) {
        (Some(tags), Some(source)) => Some(
            MemoryAttributesView { tags, source, metadata: metadata_of(metadata) },
        ),
        _ => None,
    }
}

/// The attributes of a memory that a JSON text holds: an object with the
/// fields by name, others passed over, or an array with them in order.
pub open spec fn memory_attributes(t: Seq<char>) -> Option<MemoryAttributesView> {
    match json::json_level(t) {
        Some(JsonView::Object(e)) => attributes_of(
            json::lookup(e, "tags"@),
            json::lookup(e, "source"@),
            json::lookup(e, "metadata"@),
        ),
        Some(JsonView::Array(items)) => if items.len() > 3 {
            None
        } else {
            attributes_of(json::element(items, 0), json::element(items, 1), json::element(items, 2))
        },
        _ => None,
    }
}

fn read_fields(
    tags: Option<String>,
    source: Option<String>,
    metadata: Option<String>,
) -> (r: Option<MemoryAttributes>)
    ensures
        attributes_of(text::opt_view(tags), text::opt_view(source), text::opt_view(metadata)) == (
        match r {
            Some(m) => Some(m@),
            None => None,
        }),
{
    let read_tags: Option<Vec<String>> = match tags {
        None => {
            let none: Vec<String> = Vec::new();
            assert(text::views(none@) =~= Seq::empty());
            Some(none)
        },
        Some(t) => match parse(t.as_str()) {
            Some(JsonNode::Array(items)) => read_strings(&items),
            _ => None,
        },
    };
    let read_source: Option<Option<String>> = read_nullable(source);
    let read_metadata: Option<String> = match metadata {
        None => None,
        Some(t) => match parse(t.as_str()) {
            Some(JsonNode::Null) => None,
            _ => Some(t),
        },
    };
    match (read_tags, read_source) {
        (Some(tags), Some(source)) => {
            Some(MemoryAttributes { tags, source, metadata: read_metadata })
        },
        _ => None,
    }
}

/// The entries that the attributes of a memory are printed as.
pub open spec fn memory_entries(m: MemoryAttributesView) -> attributes::Entries {
    let first = match m.metadata {
        Some(t) => seq![("metadata"@, t)],
        None => Seq::empty(),
    };
    let second = match m.source {
        Some(s) => first.push(("source"@, json::json_string(s))),
        None => first,
    };
    second.push(("tags"@, json::json_array(json::string_texts(m.tags))))
}

impl MemoryAttributes {
    /// Reads the attributes of a memory from a JSON text.
    pub fn from_json(t: &str) -> (r: Option<MemoryAttributes>)
        ensures
            memory_attributes(t@) == (match r {
                Some(m) => Some(m@),
                None => None,
            }),
    {
        match parse(t) {
            Some(JsonNode::Object(e)) => {
                read_fields(find(&e, "tags"), find(&e, "source"), find(&e, "metadata"))
            },
            Some(JsonNode::Array(items)) => {
                if items.len() > 3 {
                    None
                } else {
                    read_fields(
                        element_at(&items, 0),
                        element_at(&items, 1),
                        element_at(&items, 2),
                    )
                }
            },
            _ => None,
        }
    }

    /// The JSON text of the attributes. What is read back from it are the
    /// attributes, where their metadata is a printed value other than `null`.
    pub fn to_json(&self) -> (r: String)
        ensures
            r@ == json::json_object(memory_entries(self@)),
            json::json_level(r@) is Some && (self@.metadata matches Some(t) ==> json::is_canonical(
                t,
            ) && json::json_level(t) != Some(JsonView::Null)) ==> memory_attributes(r@) == Some(
                self@,
            ),
    {
        let mut v: Vec<(String, String)> = Vec::new();
        assert(json::entries_view(v@) =~= Seq::empty());
        match &self.metadata {
            Some(t) => {
                v.push(entry("metadata", t.clone()));
                assert(json::entries_view(v@) =~= seq![("metadata"@, t@)]);
            },
            None => {},
        }
        let ghost first = json::entries_view(v@);
        match &self.source {
            Some(s) => {
                v.push(entry("source", text_value(s.as_str())));
                assert(json::entries_view(v@) =~= first.push(("source"@, json::json_string(s@))));
            },
            None => {},
        }
        let ghost second = json::entries_view(v@);
        let tags: String = strings_value(&self.tags);
        let ghost tags_text = tags@;
        v.push(entry("tags", tags));
        assert(json::entries_view(v@) =~= second.push(("tags"@, tags_text)));
        let r: String = object_value(&v);
        proof {
            let e = json::entries_view(v@);
            assert(e == memory_entries(self@));
            lemma_memory_entries(self@);
            if json::json_level(r@) is Some && (self@.metadata matches Some(t)
                ==> json::is_canonical(t) && json::json_level(t) != Some(JsonView::Null)) {
                assert(attributes::printed(e));
                lemma_all_strings(self@.tags);
                assert(memory_attributes(r@)->0.tags =~= self@.tags);
            }
        }
        r
    }
}

/// The strings of printed strings.
proof fn lemma_all_strings(tags: Seq<Seq<char>>)
    requires
        forall|i: int|
            0 <= i < tags.len() ==> json::json_level(#[trigger] json::string_texts(tags)[i])
                == Some(JsonView::Text(tags[i])),
    ensures
        all_strings(json::string_texts(tags)) == Some(tags),
    decreases tags.len(),
{
    if tags.len() > 0 {
        let d = tags.drop_last();
        assert(json::string_texts(tags).drop_last() =~= json::string_texts(d));
        assert forall|i: int| 0 <= i < d.len() implies json::json_level(
            #[trigger] json::string_texts(d)[i],
        ) == Some(JsonView::Text(d[i])) by {
            assert(json::string_texts(tags)[i] == json::string_texts(d)[i]);
        }
        lemma_all_strings(d);
        assert(json::string_texts(tags).last() == json::string_texts(tags)[tags.len() - 1]);
        assert(d.push(tags.last()) =~= tags);
    } else {
        assert(tags =~= Seq::empty());
    }
}

/// The entries stand in ascending order, and each is found under its key.
proof fn lemma_memory_entries(m: MemoryAttributesView)
    ensures
        attributes::ascending(memory_entries(m)),
        json::lookup(memory_entries(m), "tags"@) == Some(
            json::json_array(json::string_texts(m.tags)),
        ),
        json::lookup(memory_entries(m), "source"@) == (match m.source {
            Some(s) => Some(json::json_string(s)),
            None => None,
        }),
        json::lookup(memory_entries(m), "metadata"@) == m.metadata,
{
    reveal_strlit("metadata");
    reveal_strlit("source");
    reveal_strlit("tags");
    assert("metadata"@.first() == 'm' && "source"@.first() == 's' && "tags"@.first() == 't');
    assert(text::text_lt("metadata"@, "source"@));
    assert(text::text_lt("metadata"@, "tags"@));
    assert(text::text_lt("source"@, "tags"@));
    let e = memory_entries(m);
    let first = match m.metadata {
        Some(t) => seq![("metadata"@, t)],
        None => Seq::<(Seq<char>, Seq<char>)>::empty(),
    };
    let second = match m.source {
        Some(s) => first.push(("source"@, json::json_string(s))),
        None => first,
    };
    assert(e.drop_last() =~= second);
    if m.source is Some {
        assert(second.drop_last() =~= first);
    }
    if m.metadata is Some {
        assert(first.drop_last() =~= Seq::empty());
    }
    reveal_with_fuel(json::lookup, 4);
}

/// The attributes of a node, by its kind.
#[derive(Debug, Clone, PartialEq, Eq)]
pub enum NodeAttributes {
    /// Those of a memory.
    Memory(MemoryAttributes),
    /// Those of a kind without a form of its own, as they stand.
    Unknown {
        /// The kind.
        kind: String,
        /// The JSON text.
        attributes: String,
    },
}

impl NodeAttributes {
    /// The name of the kind that the attributes belong to.
    pub open spec fn kind(self) -> Seq<char> {
        match self {
            NodeAttributes::Memory(_) => "memory"@,
            NodeAttributes::Unknown { kind, .. } => kind@,
        }
    }

    /// Whether these are the attributes that a JSON text holds for a kind.
    pub open spec fn reads(self, kind: NodeKind, t: Seq<char>) -> bool {
        match self {
            NodeAttributes::Memory(m) => kind is Memory && memory_attributes(t) == Some(m@),
            NodeAttributes::Unknown { kind: k, attributes } => k@ == kind.name() && attributes@ == t
                && !(kind is Memory && memory_attributes(t) is Some),
        }
    }

    /// Reads the attributes of a node. Those of a memory that have not the form
    /// of a memory's are kept as they stand, as are those of other kinds.
    pub fn from_json(kind: &NodeKind, attributes: &str) -> (r: NodeAttributes)
        ensures
            r.reads(*kind, attributes@),
    {
        match kind {
            NodeKind::Memory => match MemoryAttributes::from_json(attributes) {
                Some(m) => NodeAttributes::Memory(m),
                None => NodeAttributes::Unknown {
                    kind: kind.as_str().to_owned(),
                    attributes: attributes.to_owned(),
                },
            },
            _ => NodeAttributes::Unknown {
                kind: kind.as_str().to_owned(),
                attributes: attributes.to_owned(),
            },
        }
    }

    /// The JSON text of the attributes.
    pub open spec fn json(self) -> Seq<char> {
        match self {
            NodeAttributes::Memory(m) => json::json_object(memory_entries(m@)),
            NodeAttributes::Unknown { attributes, .. } => attributes@,
        }
    }

    /// Whether what the attributes are printed as reads back as they are: their
    /// metadata is a printed value other than `null`.
    pub open spec fn settled(self) -> bool {
        self matches NodeAttributes::Memory(m) ==> (m@.metadata matches Some(t)
            ==> json::is_canonical(t) && json::json_level(t) != Some(JsonView::Null))
    }

    /// The JSON text of the attributes.
    pub fn into_json(self) -> (r: String)
        ensures
            r@ == self.json(),
            self matches NodeAttributes::Memory(m) ==> (self.settled() && json::json_level(r@)
                is Some ==> memory_attributes(r@) == Some(m@)),
    {
        match self {
            NodeAttributes::Memory(m) => m.to_json(),
            NodeAttributes::Unknown { attributes, .. } => attributes,
        }
    }

    /// The name of the kind that the attributes belong to.
    pub fn kind_str(&self) -> (r: &str)
        ensures
            r@ == self.kind(),
    {
        match self {
            NodeAttributes::Memory(_) => "memory",
            NodeAttributes::Unknown { kind, .. } => kind.as_str(),
        }
    }
}

/// The attributes of an edge. No kind of edge has a form of its own.
#[derive(Debug, Clone, PartialEq, Eq)]
pub enum EdgeAttributes {
    /// As they stand.
    Unknown {
        /// The kind.
        kind: String,
        /// The JSON text.
        attributes: String,
    },
}

impl EdgeAttributes {
    /// Reads the attributes of an edge: they are kept as they stand.
    pub fn from_json(kind: &EdgeKind, attributes: &str) -> (r: EdgeAttributes)
        ensures
            r->kind@ == kind.name(),
            r->attributes@ == attributes@,
    {
        EdgeAttributes::Unknown {
            kind: kind.as_str().to_owned(),
            attributes: attributes.to_owned(),
        }
    }

    /// The JSON text of the attributes.
    pub fn into_json(self) -> (r: String)
        ensures
            r@ == self->attributes@,
    {
        match self {
            EdgeAttributes::Unknown { attributes, .. } => attributes,
        }
    }

    /// The name of the kind that the attributes belong to.
    pub fn kind_str(&self) -> (r: &str)
        ensures
            r@ == self->kind@,
    {
        match self {
            EdgeAttributes::Unknown { kind, .. } => kind.as_str(),
        }
    }
}

// ---------------------------------------------------------------------------
// Rows
// ---------------------------------------------------------------------------

/// A row of `nodes`. Times and strengths are the doubles of the database.
#[derive(Debug, Clone, PartialEq, Eq)]
pub struct Node {
    /// Its id.
    pub id: String,
    /// Its kind.
    pub node_kind: NodeKind,
    /// Its namespace.
    pub namespace: String,
    /// The layer, of a memory.
    pub layer: Option<MemoryLayer>,
    /// The type, of a memory.
    pub memory_type: Option<MemoryType>,
    /// The content.
    pub content: String,
    /// The summary.
    pub summary: String,
    /// The attributes, as JSON text.
    pub attributes: String,
    /// The embedding, encoded.
    pub embedding: Option<Vec<u8>>,
    /// The model of the embedding.
    pub embedding_model: Option<String>,
    /// When it happened.
    pub occurred_at: Option<Score>,
    /// From when it holds.
    pub valid_from: Option<Score>,
    /// Until when it holds.
    pub valid_to: Option<Score>,
    /// When it was taken in.
    pub created_at: Score,
    /// When it was last changed.
    pub updated_at: Score,
    /// When an entity was first seen.
    pub first_seen: Option<Score>,
    /// When it was last seen.
    pub last_seen: Option<Score>,
    /// The activation.
    pub activation: Score,
    /// The working strength.
    pub working_strength: Score,
    /// The core strength.
    pub core_strength: Score,
    /// The node that replaced it.
    pub superseded_by: Option<String>,
    /// When it was deleted.
    pub deleted_at: Option<Score>,
    /// The agent.
    pub agent_id: Option<String>,
    /// The run that wrote it.
    pub source_run_id: Option<String>,
    /// Its row in the full-text index.
    pub fts_rowid: i64,
}

impl Node {
    /// The attributes, by the kind of the node.
    pub fn typed_attributes(&self) -> (r: NodeAttributes)
        ensures
            r.reads(self.node_kind, self.attributes@),
    {
        NodeAttributes::from_json(&self.node_kind, self.attributes.as_str())
    }

    /// Replaces the attributes, which have to belong to the kind of the node.
    /// Everything else stays, and the attributes of a memory read back as those
    /// given.
    pub fn set_typed_attributes(&mut self, typed: NodeAttributes)
        requires
            typed.kind() == old(self).node_kind.name(),
        ensures
            final(self).attributes@ == typed.json(),
            *final(self) == (Node { attributes: final(self).attributes, ..*old(self) }),
            typed matches NodeAttributes::Memory(m) ==> (typed.settled() && json::json_level(
                final(self).attributes@,
            ) is Some ==> memory_attributes(final(self).attributes@) == Some(m@)),
    {
        self.attributes = typed.into_json();
    }
}

/// A row of `edges`. Times and weights are the doubles of the database.
#[derive(Debug, Clone, PartialEq, Eq)]
pub struct Edge {
    /// Its id.
    pub id: String,
    /// The node it starts from.
    pub source_id: String,
    /// The node it points to.
    pub target_id: Option<String>,
    /// The literal it points to, as JSON text.
    pub target_literal: Option<String>,
    /// Its kind.
    pub edge_kind: EdgeKind,
    /// Whether the predicate is canonical or proposed.
    pub predicate_kind: String,
    /// The predicate.
    pub predicate: String,
    /// The summary.
    pub summary: String,
    /// The attributes, as JSON text.
    pub attributes: String,
    /// The weight.
    pub weight: Score,
    /// The activation.
    pub activation: Score,
    /// The confidence.
    pub confidence: Score,
    /// From when it holds.
    pub valid_from: Option<Score>,
    /// Until when it holds.
    pub valid_to: Option<Score>,
    /// When it was recorded.
    pub recorded_at: Score,
    /// When it was invalidated.
    pub invalidated_at: Option<Score>,
    /// The edge that invalidated it.
    pub invalidated_by: Option<String>,
    /// The edge it replaces.
    pub supersedes: Option<String>,
    /// The affect of the agent.
    pub agent_affect: Option<String>,
    /// The run that wrote it.
    pub source_run_id: Option<String>,
    /// The memory it comes from.
    pub source_memory_id: Option<String>,
    /// How it was resolved.
    pub resolution_method: String,
    /// Its namespace.
    pub namespace: String,
    /// When it was taken in.
    pub created_at: Score,
    /// When it was last changed.
    pub updated_at: Score,
}

impl Edge {
    /// Checks that the edge points to a node or to a literal, and not to both.
    pub fn validate_target(&self) -> (r: Result<(), &'static str>)
        ensures
            r is Ok <==> self.target_id is Some != self.target_literal is Some,
            r matches Err(e) ==> e@ == if self.target_id is Some {
                "both target_id and target_literal set (must be exactly one)"@
            } else {
                "neither target_id nor target_literal set (must be exactly one)"@
            },
    {
        match (self.target_id.is_some(), self.target_literal.is_some()) {
            (true, false) => Ok(()),
            (false, true) => Ok(()),
            (true, true) => Err("both target_id and target_literal set (must be exactly one)"),
            (false, false) => Err(
                "neither target_id nor target_literal set (must be exactly one)",
            ),
        }
    }

    /// The attributes of the edge.
    pub fn typed_attributes(&self) -> (r: EdgeAttributes)
        ensures
            r->kind@ == self.edge_kind.name(),
            r->attributes@ == self.attributes@,
    {
        EdgeAttributes::from_json(&self.edge_kind, self.attributes.as_str())
    }

    /// Replaces the attributes, which have to belong to the kind of the edge.
    /// Everything else stays.
    pub fn set_typed_attributes(&mut self, typed: EdgeAttributes)
        requires
            typed->kind@ == old(self).edge_kind.name(),
        ensures
            final(self).attributes@ == typed->attributes@,
            *final(self) == (Edge { attributes: final(self).attributes, ..*old(self) }),
    {
        self.attributes = typed.into_json();
    }
}

/// A list of values is read as texts where each of them is one, one by one and in
/// order, and not at all where one of them is none.
pub proof fn law_strings_are_read_one_by_one(items: Seq<Seq<char>>)
    ensures
        match all_strings(items) {
            Some(v) => v.len() == items.len() && forall|i: int|
                0 <= i < items.len() ==> json::json_level(#[trigger] items[i]) == Some(
                    JsonView::Text(v[i]),
                ),
            None => exists|i: int|
                0 <= i < items.len() && !(json::json_level(#[trigger] items[i]) matches Some(
                    JsonView::Text(_),
                )),
        },
    decreases items.len(),
{
    if items.len() > 0 {
        let d = items.drop_last();
        let n = items.len() - 1;
        law_strings_are_read_one_by_one(d);
        assert(items[n] == items.last());
        match all_strings(items) {
            Some(v) => {
                let rest = all_strings(d)->0;
                assert forall|i: int| 0 <= i < items.len() implies json::json_level(
                    #[trigger] items[i],
                ) == Some(JsonView::Text(v[i])) by {
                    if i < n {
                        assert(d[i] == items[i]);
                        assert(v[i] == rest[i]);
                    }
                }
            },
            None => {
                if all_strings(d) is None {
                    let i = choose|i: int|
                        0 <= i < d.len() && !(json::json_level(#[trigger] d[i]) matches Some(
                            JsonView::Text(_),
                        ));
                    assert(items[i] == d[i]);
                }
            },
        }
    }
}

/// The attributes of a memory are read from their fields: the tags from a list of
/// texts, or none where there is no list; the source from a text; and the
/// metadata as they are, unless they are null.
pub proof fn law_attributes_are_read_from_fields(
    t: Seq<char>,
    e: attributes::Entries,
    items: Seq<Seq<char>>,
    values: Seq<Seq<char>>,
    source: Seq<char>,
)
    requires
        json::json_level(t) == Some(JsonView::Object(e)),
        values.len() == 3,
        json::lookup(e, "tags"@) == Some(values[0]),
        json::lookup(e, "source"@) == Some(values[1]),
        json::lookup(e, "metadata"@) == Some(values[2]),
        json::json_level(values[0]) == Some(JsonView::Array(items)),
        json::json_level(values[1]) == Some(JsonView::Text(source)),
    ensures
        memory_attributes(t) is Some <==> forall|i: int|
            0 <= i < items.len() ==> (json::json_level(#[trigger] items[i]) matches Some(
                JsonView::Text(_),
            )),
        memory_attributes(t) matches Some(m) ==> {
            &&& m.source == Some(source)
            &&& m.metadata == (if json::json_level(values[2]) == Some(JsonView::Null) {
                None
            } else {
                Some(values[2])
            })
            &&& m.tags.len() == items.len()
            &&& forall|i: int|
                0 <= i < items.len() ==> json::json_level(#[trigger] items[i]) == Some(
                    JsonView::Text(m.tags[i]),
                )
        },
{
    law_strings_are_read_one_by_one(items);
}

/// The attributes of a node are read as those of a memory where it is one and
/// they have the form; all others are kept as they stand, with the kind.
pub proof fn law_other_attributes_are_kept(r: NodeAttributes, kind: NodeKind, t: Seq<char>)
    requires
        r.reads(kind, t),
    ensures
        r is Memory <==> kind is Memory && memory_attributes(t) is Some,
        r matches NodeAttributes::Memory(m) ==> memory_attributes(t) == Some(m@),
        r matches NodeAttributes::Unknown { kind: k, attributes } ==> k@ == kind.name()
            && attributes@ == t,
{
}

} // verus!
