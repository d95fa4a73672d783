//! Edges of the knowledge graph: directed, typed relationships.

use vstd::prelude::*;

use crate::clock::now_ts;
use crate::strength::STRENGTH_UNIT;
use crate::text::{
    ascii_lower, chars_of, eq_str, lower_seq, seq_without_char, string_from, strip_char,
};

verus! {

/// The fixed relation vocabulary.
#[derive(Debug, Clone, Copy, PartialEq, Eq, Hash, Structural)]
pub enum RelationType {
    /// Whole contains part.
    Contains,
    /// Part belongs to whole.
    PartOf,
    /// Instance of a kind.
    InstanceOf,
    /// Logical derivation.
    DerivesFrom,
    /// Causal or temporal lead.
    LeadsTo,
    /// Evidence in favour.
    Supports,
    /// Logical opposition.
    Contradicts,
    /// A more precise statement.
    Refines,
    /// Citation of an external source.
    References,
    /// General association.
    RelatedTo,
    /// Analogy across domains.
    AnalogousTo,
    /// Comes before.
    Precedes,
    /// Comes after.
    Follows,
    /// At the same time.
    Simultaneous,
}

impl Default for RelationType {
    /// The default relation is `RelatedTo`.
    fn default() -> (r: Self)
        ensures
            r == RelationType::RelatedTo,
    {
        RelationType::RelatedTo
    }
}

impl RelationType {
    /// The canonical CamelCase name.
    pub open spec fn spec_name(self) -> Seq<char> {
        match self {
            RelationType::Contains => "Contains"@,
            RelationType::PartOf => "PartOf"@,
            RelationType::InstanceOf => "InstanceOf"@,
            RelationType::DerivesFrom => "DerivesFrom"@,
            RelationType::LeadsTo => "LeadsTo"@,
            RelationType::Supports => "Supports"@,
            RelationType::Contradicts => "Contradicts"@,
            RelationType::Refines => "Refines"@,
            RelationType::References => "References"@,
            RelationType::RelatedTo => "RelatedTo"@,
            RelationType::AnalogousTo => "AnalogousTo"@,
            RelationType::Precedes => "Precedes"@,
            RelationType::Follows => "Follows"@,
            RelationType::Simultaneous => "Simultaneous"@,
        }
    }

    /// The canonical CamelCase name, as used in frontmatter.
    pub fn name(&self) -> (r: &'static str)
        ensures
            r@ == self.spec_name(),
    {
        match self {
            RelationType::Contains => "Contains",
            RelationType::PartOf => "PartOf",
            RelationType::InstanceOf => "InstanceOf",
            RelationType::DerivesFrom => "DerivesFrom",
            RelationType::LeadsTo => "LeadsTo",
            RelationType::Supports => "Supports",
            RelationType::Contradicts => "Contradicts",
            RelationType::Refines => "Refines",
            RelationType::References => "References",
            RelationType::RelatedTo => "RelatedTo",
            RelationType::AnalogousTo => "AnalogousTo",
            RelationType::Precedes => "Precedes",
            RelationType::Follows => "Follows",
            RelationType::Simultaneous => "Simultaneous",
        }
    }

    /// The lowercase name, as used in the `memexia:` predicate namespace.
    pub open spec fn spec_lower_name(self) -> Seq<char> {
        match self {
            RelationType::Contains => "contains"@,
            RelationType::PartOf => "partof"@,
            RelationType::InstanceOf => "instanceof"@,
            RelationType::DerivesFrom => "derivesfrom"@,
            RelationType::LeadsTo => "leadsto"@,
            RelationType::Supports => "supports"@,
            RelationType::Contradicts => "contradicts"@,
            RelationType::Refines => "refines"@,
            RelationType::References => "references"@,
            RelationType::RelatedTo => "relatedto"@,
            RelationType::AnalogousTo => "analogousto"@,
            RelationType::Precedes => "precedes"@,
            RelationType::Follows => "follows"@,
            RelationType::Simultaneous => "simultaneous"@,
        }
    }

    /// The lowercase name used in edge predicates.
    pub fn lower_name(&self) -> (r: &'static str)
        ensures
            r@ == self.spec_lower_name(),
    {
        match self {
            RelationType::Contains => "contains",
            RelationType::PartOf => "partof",
            RelationType::InstanceOf => "instanceof",
            RelationType::DerivesFrom => "derivesfrom",
            RelationType::LeadsTo => "leadsto",
            RelationType::Supports => "supports",
            RelationType::Contradicts => "contradicts",
            RelationType::Refines => "refines",
            RelationType::References => "references",
            RelationType::RelatedTo => "relatedto",
            RelationType::AnalogousTo => "analogousto",
            RelationType::Precedes => "precedes",
            RelationType::Follows => "follows",
            RelationType::Simultaneous => "simultaneous",
        }
    }
}

/// What `parse_relation_opt` yields: the relation whose name matches after
/// ASCII lowercasing and underscore removal, or whose listed synonym
/// matches exactly; `None` for anything else.
pub open spec fn spec_relation_of(s: Seq<char>) -> Option<RelationType> {
    let n = seq_without_char(lower_seq(s), '_');
    if n == "contains"@ || n == "包含"@ {
        Some(RelationType::Contains)
    } else if n == "partof"@ || n == "属于"@ {
        Some(RelationType::PartOf)
    } else if n == "instanceof"@ || n == "实例"@ {
        Some(RelationType::InstanceOf)
    } else if n == "derivesfrom"@ || n == "推导"@ {
        Some(RelationType::DerivesFrom)
    } else if n == "leadsto"@ || n == "导向"@ {
        Some(RelationType::LeadsTo)
    } else if n == "supports"@ || n == "支持"@ {
        Some(RelationType::Supports)
    } else if n == "contradicts"@ || n == "矛盾"@ {
        Some(RelationType::Contradicts)
    } else if n == "refines"@ || n == "精炼"@ {
        Some(RelationType::Refines)
    } else if n == "references"@ || n == "引用"@ {
        Some(RelationType::References)
    } else if n == "relatedto"@ || n == "相关"@ {
        Some(RelationType::RelatedTo)
    } else if n == "analogousto"@ || n == "类比"@ {
        Some(RelationType::AnalogousTo)
    } else if n == "precedes"@ || n == "先于"@ {
        Some(RelationType::Precedes)
    } else if n == "follows"@ || n == "后于"@ {
        Some(RelationType::Follows)
    } else if n == "simultaneous"@ || n == "同时"@ {
        Some(RelationType::Simultaneous)
    } else {
        None
    }
}

/// Resolve a relation name or synonym; `None` when the name is unknown.
pub fn parse_relation_opt(s: &str) -> (r: Option<RelationType>)
    ensures
        r == spec_relation_of(s@),
{
    let v = chars_of(s);
    let l = ascii_lower(&v);
    let n = strip_char(&l, '_');
    if eq_str(&n, "contains") || eq_str(&n, "包含") {
        Some(RelationType::Contains)
    } else if eq_str(&n, "partof") || eq_str(&n, "属于") {
        Some(RelationType::PartOf)
    } else if eq_str(&n, "instanceof") || eq_str(&n, "实例") {
        Some(RelationType::InstanceOf)
    } else if eq_str(&n, "derivesfrom") || eq_str(&n, "推导") {
        Some(RelationType::DerivesFrom)
    } else if eq_str(&n, "leadsto") || eq_str(&n, "导向") {
        Some(RelationType::LeadsTo)
    } else if eq_str(&n, "supports") || eq_str(&n, "支持") {
        Some(RelationType::Supports)
    } else if eq_str(&n, "contradicts") || eq_str(&n, "矛盾") {
        Some(RelationType::Contradicts)
    } else if eq_str(&n, "refines") || eq_str(&n, "精炼") {
        Some(RelationType::Refines)
    } else if eq_str(&n, "references") || eq_str(&n, "引用") {
        Some(RelationType::References)
    } else if eq_str(&n, "relatedto") || eq_str(&n, "相关") {
        Some(RelationType::RelatedTo)
    } else if eq_str(&n, "analogousto") || eq_str(&n, "类比") {
        Some(RelationType::AnalogousTo)
    } else if eq_str(&n, "precedes") || eq_str(&n, "先于") {
        Some(RelationType::Precedes)
    } else if eq_str(&n, "follows") || eq_str(&n, "后于") {
        Some(RelationType::Follows)
    } else if eq_str(&n, "simultaneous") || eq_str(&n, "同时") {
        Some(RelationType::Simultaneous)
    } else {
        None
    }
}

/// How an edge came to be.
#[derive(Debug, Clone, Copy, PartialEq, Eq, Structural)]
pub enum EdgeSource {
    /// Stated by the user.
    Explicit,
    /// Suggested by analysis.
    AI,
    /// Inferred from existing relations.
    Derived,
}

impl Default for EdgeSource {
    /// The default source is `Explicit`.
    fn default() -> (r: Self)
        ensures
            r == EdgeSource::Explicit,
    {
        EdgeSource::Explicit
    }
}

impl EdgeSource {
    /// The lowercase label of the source.
    pub open spec fn spec_label(self) -> Seq<char> {
        match self {
            EdgeSource::Explicit => "explicit"@,
            EdgeSource::AI => "ai"@,
            EdgeSource::Derived => "derived"@,
        }
    }

    /// The lowercase label of the source.
    pub fn label(&self) -> (r: &'static str)
        ensures
            r@ == self.spec_label(),
    {
        match self {
            EdgeSource::Explicit => "explicit",
            EdgeSource::AI => "ai",
            EdgeSource::Derived => "derived",
        }
    }
}

/// The mathematical model of an edge. Strength and confidence are carried
/// in thousandths of the unit.
#[verifier::ext_equal]
pub struct EdgeView {
    /// The stable edge IRI.
    pub id: Seq<char>,
    /// Source node IRI.
    pub from: Seq<char>,
    /// Target node IRI.
    pub to: Seq<char>,
    /// The relation type.
    pub relation: RelationType,
    /// Strength in thousandths, at most 1000.
    pub strength: int,
    /// Confidence in thousandths, at most 1000.
    pub confidence: int,
    /// Optional free-text description.
    pub description: Option<Seq<char>>,
    /// How the edge came to be.
    pub source: EdgeSource,
    /// Creation instant, seconds since the Unix epoch.
    pub created_at: int,
}

impl EdgeView {
    /// Strength and confidence lie in [0, 1].
    pub open spec fn in_range(self) -> bool {
        0 <= self.strength <= 1000 && 0 <= self.confidence <= 1000
    }
}

/// A directed, typed relationship between two nodes.
#[derive(Debug)]
pub struct Edge {
    /// The stable edge IRI, `urn:memexia:edge:<from>-<to>`.
    pub id: String,
    /// Source node IRI.
    pub from: String,
    /// Target node IRI.
    pub to: String,
    /// The relation type.
    pub relation: RelationType,
    /// Strength in thousandths of the unit (0 ..= 1000).
    pub strength: u32,
    /// Confidence in thousandths of the unit (0 ..= 1000).
    pub confidence: u32,
    /// Optional free-text description.
    pub description: Option<String>,
    /// How the edge came to be.
    pub source: EdgeSource,
    /// Creation instant, seconds since the Unix epoch.
    pub created_at: i64,
}

impl View for Edge {
    type V = EdgeView;

    open spec fn view(&self) -> EdgeView {
        EdgeView {
            id: self.id@,
            from: self.from@,
            to: self.to@,
            relation: self.relation,
            strength: self.strength as int,
            confidence: self.confidence as int,
            description: self.description.deep_view(),
            source: self.source,
            created_at: self.created_at as int,
        }
    }
}

impl DeepView for Edge {
    type V = EdgeView;

    open spec fn deep_view(&self) -> EdgeView {
        self.view()
    }
}

impl Clone for Edge {
    /// A clone carries the same model.
    fn clone(&self) -> (r: Self)
        ensures
            r@ == self@,
    {
        let description: Option<String> = match &self.description {
            Some(d) => Some(d.clone()),
            None => None,
        };
        let r = Edge {
            id: self.id.clone(),
            from: self.from.clone(),
            to: self.to.clone(),
            relation: self.relation,
            strength: self.strength,
            confidence: self.confidence,
            description,
            source: self.source,
            created_at: self.created_at,
        };
        proof {
            assert(r@ == self@);
        }
        r
    }
}

impl Edge {
    /// A new edge with full strength and confidence, stamped at the
    /// current instant.
    pub fn new(id: &str, from: &str, to: &str, relation: RelationType) -> (r: Edge)
        ensures
            r@.id == id@,
            r@.from == from@,
            r@.to == to@,
            r@.relation == relation,
            r@.strength == 1000,
            r@.confidence == 1000,
            r@.description is None,
            r@.source == EdgeSource::Explicit,
            r@.in_range(),
    {
        let now = now_ts();
        Edge::new_at(id, from, to, relation, now)
    }

    /// A new edge stamped with the given instant.
    pub fn new_at(id: &str, from: &str, to: &str, relation: RelationType, now: i64) -> (r: Edge)
        ensures
            r@ == (EdgeView {
                id: id@,
                from: from@,
                to: to@,
                relation,
                strength: 1000,
                confidence: 1000,
                description: None,
                source: EdgeSource::Explicit,
                created_at: now as int,
            }),
            r@.in_range(),
    {
        let idv = chars_of(id);
        let fv = chars_of(from);
        let tv = chars_of(to);
        let r = Edge {
            id: string_from(&idv),
            from: string_from(&fv),
            to: string_from(&tv),
            relation,
            strength: STRENGTH_UNIT,
            confidence: STRENGTH_UNIT,
            description: None,
            source: EdgeSource::Explicit,
            created_at: now,
        };
        proof {
            assert(r@ =~= (EdgeView {
                id: id@,
                from: from@,
                to: to@,
                relation,
                strength: 1000,
                confidence: 1000,
                description: None,
                source: EdgeSource::Explicit,
                created_at: now as int,
            }));
        }
        r
    }

    /// Set the strength, clamped into [0, 1]: a value above the unit is
    /// stored as the unit (thousandths are already non-negative).
    pub fn update_strength(&mut self, strength: u32)
        ensures
            final(self)@.strength == crate::strength::clamp_milli(strength as int),
            final(self)@ == (EdgeView { strength: final(self)@.strength, ..old(self)@ }),
    {
        if strength > STRENGTH_UNIT {
            self.strength = STRENGTH_UNIT;
        } else {
            self.strength = strength;
        }
    }

    /// Replace the description.
    pub fn update_description(&mut self, description: &str)
        ensures
            final(self)@.description == Some(description@),
            final(self)@ == (EdgeView { description: Some(description@), ..old(self)@ }),
    {
        let v = chars_of(description);
        self.description = Some(string_from(&v));
    }
}

/// The mathematical model of an edge filter.
#[verifier::ext_equal]
pub struct EdgeFilterView {
    /// Keep edges leaving this node.
    pub from: Option<Seq<char>>,
    /// Keep edges entering this node.
    pub to: Option<Seq<char>>,
    /// Keep edges with this relation.
    pub relation: Option<RelationType>,
    /// Keep edges at least this strong, in thousandths.
    pub min_strength: Option<int>,
}

/// Whether an edge passes a filter: every present field must match.
pub open spec fn matches_filter(e: EdgeView, f: EdgeFilterView) -> bool {
    (match f.from {
        Some(x) => e.from == x,
        None => true,
    }) && (match f.to {
        Some(x) => e.to == x,
        None => true,
    }) && (match f.relation {
        Some(x) => e.relation == x,
        None => true,
    }) && (match f.min_strength {
        Some(x) => e.strength >= x,
        None => true,
    })
}

/// A conjunctive filter over the edge set: every present field must match.
#[derive(Debug)]
pub struct EdgeFilter {
    /// Keep edges leaving this node.
    pub from: Option<String>,
    /// Keep edges entering this node.
    pub to: Option<String>,
    /// Keep edges with this relation.
    pub relation: Option<RelationType>,
    /// Keep edges at least this strong, in thousandths.
    pub min_strength: Option<u32>,
}

impl View for EdgeFilter {
    type V = EdgeFilterView;

    open spec fn view(&self) -> EdgeFilterView {
        EdgeFilterView {
            from: self.from.deep_view(),
            to: self.to.deep_view(),
            relation: self.relation,
            min_strength: match self.min_strength {
                Some(m) => Some(m as int),
                None => None,
            },
        }
    }
}

impl Default for EdgeFilter {
    /// The empty filter matches every edge.
    fn default() -> (r: Self)
        ensures
            r.from is None,
            r.to is None,
            r.relation is None,
            r.min_strength is None,
    {
        EdgeFilter { from: None, to: None, relation: None, min_strength: None }
    }
}

} // verus!
