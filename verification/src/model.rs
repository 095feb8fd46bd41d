//! Record kinds and their payloads, as the library sees them once the wire
//! form has been decoded: every payload field is typed, and a number keeps the
//! decimal it was written with.

use vstd::prelude::*;

use vstd::string::StringSliceAdditionalSpecFns;

use crate::json::{self, Json, JsonV};
use crate::num::Num;

verus! {

pub const PROTOCOL_VERSION: u32 = 1;

// ---------------------------------------------------------------- enums

/// The fifteen kinds of record.
#[derive(Clone, Copy, Debug, PartialEq, Eq, Structural)]
pub enum RecordKind {
    Project,
    Entity,
    Revision,
    Capture,
    Candidate,
    Promotion,
    Artifact,
    Observation,
    Goal,
    Baseline,
    Assessment,
    Link,
    Embedding,
    HeadChange,
    Publication,
}

impl RecordKind {
    pub open spec fn label_text(self) -> Seq<char> {
        match self {
            RecordKind::Project => "Project"@,
            RecordKind::Entity => "Entity"@,
            RecordKind::Revision => "Revision"@,
            RecordKind::Capture => "Capture"@,
            RecordKind::Candidate => "Candidate"@,
            RecordKind::Promotion => "Promotion"@,
            RecordKind::Artifact => "Artifact"@,
            RecordKind::Observation => "Observation"@,
            RecordKind::Goal => "Goal"@,
            RecordKind::Baseline => "Baseline"@,
            RecordKind::Assessment => "Assessment"@,
            RecordKind::Link => "Link"@,
            RecordKind::Embedding => "Embedding"@,
            RecordKind::HeadChange => "HeadChange"@,
            RecordKind::Publication => "Publication"@,
        }
    }

    /// Storage label placed next to the generic record label.
    pub fn label(self) -> (r: &'static str)
        ensures
            r@ == self.label_text(),
    {
        match self {
            RecordKind::Project => "Project",
            RecordKind::Entity => "Entity",
            RecordKind::Revision => "Revision",
            RecordKind::Capture => "Capture",
            RecordKind::Candidate => "Candidate",
            RecordKind::Promotion => "Promotion",
            RecordKind::Artifact => "Artifact",
            RecordKind::Observation => "Observation",
            RecordKind::Goal => "Goal",
            RecordKind::Baseline => "Baseline",
            RecordKind::Assessment => "Assessment",
            RecordKind::Link => "Link",
            RecordKind::Embedding => "Embedding",
            RecordKind::HeadChange => "HeadChange",
            RecordKind::Publication => "Publication",
        }
    }

    pub open spec fn name(self) -> Seq<char> {
        match self {
            RecordKind::Project => "project"@,
            RecordKind::Entity => "entity"@,
            RecordKind::Revision => "revision"@,
            RecordKind::Capture => "capture"@,
            RecordKind::Candidate => "candidate"@,
            RecordKind::Promotion => "promotion"@,
            RecordKind::Artifact => "artifact"@,
            RecordKind::Observation => "observation"@,
            RecordKind::Goal => "goal"@,
            RecordKind::Baseline => "baseline"@,
            RecordKind::Assessment => "assessment"@,
            RecordKind::Link => "link"@,
            RecordKind::Embedding => "embedding"@,
            RecordKind::HeadChange => "head_change"@,
            RecordKind::Publication => "publication"@,
        }
    }

    /// Wire name of the kind.
    pub fn as_str(self) -> (r: &'static str)
        ensures
            r@ == self.name(),
    {
        match self {
            RecordKind::Project => "project",
            RecordKind::Entity => "entity",
            RecordKind::Revision => "revision",
            RecordKind::Capture => "capture",
            RecordKind::Candidate => "candidate",
            RecordKind::Promotion => "promotion",
            RecordKind::Artifact => "artifact",
            RecordKind::Observation => "observation",
            RecordKind::Goal => "goal",
            RecordKind::Baseline => "baseline",
            RecordKind::Assessment => "assessment",
            RecordKind::Link => "link",
            RecordKind::Embedding => "embedding",
            RecordKind::HeadChange => "head_change",
            RecordKind::Publication => "publication",
        }
    }

    /// The kind whose wire name is `text`.
    pub fn parse_str(text: &str) -> (r: Option<RecordKind>)
        ensures
            match r {
                Some(k) => k.name() == text@,
                None => forall|k: RecordKind| k.name() != text@,
            },
    {
        let all: [RecordKind; 15] = [
            RecordKind::Project,
            RecordKind::Entity,
            RecordKind::Revision,
            RecordKind::Capture,
            RecordKind::Candidate,
            RecordKind::Promotion,
            RecordKind::Artifact,
            RecordKind::Observation,
            RecordKind::Goal,
            RecordKind::Baseline,
            RecordKind::Assessment,
            RecordKind::Link,
            RecordKind::Embedding,
            RecordKind::HeadChange,
            RecordKind::Publication,
        ];
        let mut i: usize = 0;
        while i < 15
            invariant
                0 <= i <= 15,
                forall|j: int| 0 <= j < i ==> (#[trigger] all@[j]).name() != text@,
            decreases 15 - i,
        {
            if crate::text::str_eq(all[i].as_str(), text) {
                return Some(all[i]);
            }
            i += 1;
        }
        proof {
            assert forall|k: RecordKind| k.name() != text@ by {
                let j: int = match k {
                    RecordKind::Project => 0,
                    RecordKind::Entity => 1,
                    RecordKind::Revision => 2,
                    RecordKind::Capture => 3,
                    RecordKind::Candidate => 4,
                    RecordKind::Promotion => 5,
                    RecordKind::Artifact => 6,
                    RecordKind::Observation => 7,
                    RecordKind::Goal => 8,
                    RecordKind::Baseline => 9,
                    RecordKind::Assessment => 10,
                    RecordKind::Link => 11,
                    RecordKind::Embedding => 12,
                    RecordKind::HeadChange => 13,
                    RecordKind::Publication => 14,
                };
                assert(all@[j] == k);
            }
        }
        None
    }

    pub open spec fn server_only(self) -> bool {
        self == RecordKind::HeadChange || self == RecordKind::Publication
    }

    /// Kinds the server writes itself; clients may not submit them in a package.
    pub fn is_server_only(self) -> (r: bool)
        ensures
            r == self.server_only(),
    {
        match self {
            RecordKind::HeadChange | RecordKind::Publication => true,
            _ => false,
        }
    }
}

#[derive(Clone, Copy, Debug, PartialEq, Eq, Structural)]
pub enum EntityKind {
    Schema,
    Core,
    Idea,
}

#[derive(Clone, Copy, Debug, PartialEq, Eq, Structural)]
pub enum LineageKind {
    Original,
    SemanticEdit,
    Split,
    Merge,
}

#[derive(Clone, Copy, Debug, PartialEq, Eq, Structural)]
pub enum ChangeKind {
    Initial,
    Composition,
    Correction,
    Semantic,
}

#[derive(Clone, Copy, Debug, PartialEq, Eq, Structural)]
pub enum Origin {
    Human,
    Ai,
    Import,
}

#[derive(Clone, Copy, Debug, PartialEq, Eq, Structural)]
pub enum ClaimMode {
    Extracted,
    Inferred,
}

#[derive(Clone, Copy, Debug, PartialEq, Eq, Structural)]
pub enum SourceKind {
    Paste,
    File,
    Url,
    Note,
    Tool,
}

#[derive(Clone, Copy, Debug, PartialEq, Eq, Structural)]
pub enum ProposedKind {
    Idea,
    Core,
    Schema,
    Goal,
    Link,
}

#[derive(Clone, Copy, Debug, PartialEq, Eq, Structural)]
pub enum CandidateStatus {
    Pending,
}

#[derive(Clone, Copy, Debug, PartialEq, Eq, Structural)]
pub enum ObservationStatus {
    Observed,
    Failed,
    Invalid,
    NotObserved,
    Negative,
}

#[derive(Clone, Copy, Debug, PartialEq, Eq, Structural)]
pub enum CriterionKind {
    Quantitative,
    Qualitative,
}

#[derive(Clone, Copy, Debug, PartialEq, Eq, Structural)]
pub enum Comparator {
    Lt,
    Lte,
    Gt,
    Gte,
    Eq,
    Ne,
}

#[derive(Clone, Copy, Debug, PartialEq, Eq, Structural)]
pub enum ProposalOrigin {
    Official,
    AiProposed,
}

#[derive(Clone, Copy, Debug, PartialEq, Eq, Structural)]
pub enum JudgeStatus {
    Met,
    Unmet,
    Unknown,
    Disputed,
    Recheck,
}

#[derive(Clone, Copy, Debug, PartialEq, Eq, Structural)]
pub enum LinkType {
    Derived,
    Applies,
    Implements,
    Depends,
    Similar,
    Support,
    Contradict,
    Impact,
}

#[derive(Clone, Copy, Debug, PartialEq, Eq, Structural)]
pub enum ImpactDirection {
    Increase,
    Decrease,
    Neutral,
    Unknown,
}

#[derive(Clone, Copy, Debug, PartialEq, Eq, Structural)]
pub enum EvidenceKind {
    Estimated,
    Observed,
}

#[derive(Clone, Copy, Debug, PartialEq, Eq, Structural)]
pub enum Stage {
    Working,
    Official,
}

impl LinkType {
    pub open spec fn rel_name(self) -> Seq<char> {
        match self {
            LinkType::Derived => "DERIVED"@,
            LinkType::Applies => "APPLIES"@,
            LinkType::Implements => "IMPLEMENTS"@,
            LinkType::Depends => "DEPENDS"@,
            LinkType::Similar => "SIMILAR"@,
            LinkType::Support => "SUPPORTS"@,
            LinkType::Contradict => "CONTRADICTS"@,
            LinkType::Impact => "IMPACTS"@,
        }
    }

    /// Whitelisted relationship type. Never built from client text.
    pub fn rel_type(self) -> (r: &'static str)
        ensures
            r@ == self.rel_name(),
    {
        match self {
            LinkType::Derived => "DERIVED",
            LinkType::Applies => "APPLIES",
            LinkType::Implements => "IMPLEMENTS",
            LinkType::Depends => "DEPENDS",
            LinkType::Similar => "SIMILAR",
            LinkType::Support => "SUPPORTS",
            LinkType::Contradict => "CONTRADICTS",
            LinkType::Impact => "IMPACTS",
        }
    }

    pub open spec fn name(self) -> Seq<char> {
        match self {
            LinkType::Derived => "derived"@,
            LinkType::Applies => "applies"@,
            LinkType::Implements => "implements"@,
            LinkType::Depends => "depends"@,
            LinkType::Similar => "similar"@,
            LinkType::Support => "support"@,
            LinkType::Contradict => "contradict"@,
            LinkType::Impact => "impact"@,
        }
    }

    /// Wire name of the link type.
    pub fn as_str(self) -> (r: &'static str)
        ensures
            r@ == self.name(),
    {
        match self {
            LinkType::Derived => "derived",
            LinkType::Applies => "applies",
            LinkType::Implements => "implements",
            LinkType::Depends => "depends",
            LinkType::Similar => "similar",
            LinkType::Support => "support",
            LinkType::Contradict => "contradict",
            LinkType::Impact => "impact",
        }
    }
}

impl Stage {
    pub open spec fn name(self) -> Seq<char> {
        match self {
            Stage::Working => "working"@,
            Stage::Official => "official"@,
        }
    }

    pub fn as_str(self) -> (r: &'static str)
        ensures
            r@ == self.name(),
    {
        match self {
            Stage::Working => "working",
            Stage::Official => "official",
        }
    }
}

/// Containment kind of a revision: the entity kind, plus `Project` for a
/// project-root revision.
#[derive(Clone, Copy, Debug, PartialEq, Eq, Structural)]
pub enum NodeKind {
    Project,
    Schema,
    Core,
    Idea,
}

impl NodeKind {
    pub open spec fn name(self) -> Seq<char> {
        match self {
            NodeKind::Project => "project"@,
            NodeKind::Schema => "schema"@,
            NodeKind::Core => "core"@,
            NodeKind::Idea => "idea"@,
        }
    }

    pub fn as_str(self) -> (r: &'static str)
        ensures
            r@ == self.name(),
    {
        match self {
            NodeKind::Project => "project",
            NodeKind::Schema => "schema",
            NodeKind::Core => "core",
            NodeKind::Idea => "idea",
        }
    }

    pub open spec fn of_entity(kind: EntityKind) -> NodeKind {
        match kind {
            EntityKind::Schema => NodeKind::Schema,
            EntityKind::Core => NodeKind::Core,
            EntityKind::Idea => NodeKind::Idea,
        }
    }

    pub fn from_entity(kind: EntityKind) -> (r: NodeKind)
        ensures
            r == NodeKind::of_entity(kind),
    {
        match kind {
            EntityKind::Schema => NodeKind::Schema,
            EntityKind::Core => NodeKind::Core,
            EntityKind::Idea => NodeKind::Idea,
        }
    }

    /// The containment table: a project root holds schemas, a schema or core
    /// holds cores and ideas, an idea holds nothing.
    pub open spec fn contains(self, child: NodeKind) -> bool {
        match self {
            NodeKind::Project => child == NodeKind::Schema,
            NodeKind::Schema | NodeKind::Core => child == NodeKind::Core || child == NodeKind::Idea,
            NodeKind::Idea => false,
        }
    }

    pub fn may_contain(self, child: NodeKind) -> (r: bool)
        ensures
            r == self.contains(child),
    {
        match self {
            NodeKind::Project => child == NodeKind::Schema,
            NodeKind::Schema | NodeKind::Core => child == NodeKind::Core || child == NodeKind::Idea,
            NodeKind::Idea => false,
        }
    }
}

/// Nothing contains a project root, and nothing sits inside an idea: every
/// containment chain starts at a project root and ends at an atom.
pub proof fn containment_has_no_way_back(parent: NodeKind, child: NodeKind)
    ensures
        parent.contains(child) ==> child != NodeKind::Project,
        NodeKind::Idea.contains(child) == false,
        parent.contains(child) ==> parent != NodeKind::Idea,
{
}

// ---------------------------------------------------------------- ids

pub open spec fn lower_byte(b: u8) -> bool {
    0x61 <= b <= 0x7a
}

pub open spec fn digit_byte(b: u8) -> bool {
    0x30 <= b <= 0x39
}

/// `[a-z][a-z0-9_.:-]{2,127}` over the UTF-8 bytes of the id.
pub open spec fn id_format(b: Seq<u8>) -> bool {
    &&& 3 <= b.len() <= 128
    &&& lower_byte(b[0])
    &&& forall|i: int|
        0 <= i < b.len() ==> lower_byte(#[trigger] b[i]) || digit_byte(b[i]) || b[i] == 0x5f
            || b[i] == 0x2e || b[i] == 0x3a || b[i] == 0x2d
}

/// `[a-z0-9][a-z0-9_-]{0,31}` over the UTF-8 bytes of the slug.
pub open spec fn slug_format(b: Seq<u8>) -> bool {
    &&& 1 <= b.len() <= 32
    &&& (lower_byte(b[0]) || digit_byte(b[0]))
    &&& forall|i: int|
        0 <= i < b.len() ==> lower_byte(#[trigger] b[i]) || digit_byte(b[i]) || b[i] == 0x5f
            || b[i] == 0x2d
}

/// Whether `id` has the documented record id format.
pub fn is_valid_id(id: &str) -> (r: bool)
    ensures
        r == id_format(id.spec_bytes()),
{
    let bytes = id.as_bytes();
    if bytes.len() < 3 || bytes.len() > 128 {
        return false;
    }
    if !(0x61 <= bytes[0] && bytes[0] <= 0x7a) {
        return false;
    }
    let mut i: usize = 0;
    while i < bytes.len()
        invariant
            0 <= i <= bytes@.len(),
            bytes@ == id.spec_bytes(),
            forall|j: int|
                0 <= j < i ==> lower_byte(#[trigger] bytes@[j]) || digit_byte(bytes@[j])
                    || bytes@[j] == 0x5f || bytes@[j] == 0x2e || bytes@[j] == 0x3a || bytes@[j]
                    == 0x2d,
        decreases bytes@.len() - i,
    {
        let b = bytes[i];
        if !((0x61 <= b && b <= 0x7a) || (0x30 <= b && b <= 0x39) || b == 0x5f || b == 0x2e || b
            == 0x3a || b == 0x2d) {
            return false;
        }
        i += 1;
    }
    true
}

/// Slugs used for tags, roles, slot ids and criterion ids.
pub fn is_valid_slug(text: &str) -> (r: bool)
    ensures
        r == slug_format(text.spec_bytes()),
{
    let bytes = text.as_bytes();
    if bytes.len() == 0 || bytes.len() > 32 {
        return false;
    }
    if !((0x61 <= bytes[0] && bytes[0] <= 0x7a) || (0x30 <= bytes[0] && bytes[0] <= 0x39)) {
        return false;
    }
    let mut i: usize = 0;
    while i < bytes.len()
        invariant
            0 <= i <= bytes@.len(),
            bytes@ == text.spec_bytes(),
            forall|j: int|
                0 <= j < i ==> lower_byte(#[trigger] bytes@[j]) || digit_byte(bytes@[j])
                    || bytes@[j] == 0x5f || bytes@[j] == 0x2d,
        decreases bytes@.len() - i,
    {
        let b = bytes[i];
        if !((0x61 <= b && b <= 0x7a) || (0x30 <= b && b <= 0x39) || b == 0x5f || b == 0x2d) {
            return false;
        }
        i += 1;
    }
    true
}


// ---------------------------------------------------------------- payloads

/// Copy of a list of strings, element for element.
pub fn copy_strings(v: &Vec<String>) -> (r: Vec<String>)
    ensures
        r@ == v@,
{
    v.clone()
}

#[derive(Debug)]
pub struct ProjectData {
    pub title: String,
    pub description: String,
}

impl Clone for ProjectData {
    fn clone(&self) -> (r: Self)
        ensures
            r == *self,
    {
        ProjectData { title: self.title.clone(), description: self.description.clone() }
    }
}

#[derive(Debug)]
pub struct EntityData {
    pub entity_kind: EntityKind,
    /// Origin project. Core/Idea may still be reused by other projects.
    pub project_id: String,
    pub title: String,
    pub tags: Vec<String>,
    pub derived_from: Vec<String>,
    pub lineage_kind: LineageKind,
}

impl EntityData {
    pub open spec fn same_as(&self, o: &EntityData) -> bool {
        &&& self.entity_kind == o.entity_kind
        &&& self.project_id == o.project_id
        &&& self.title == o.title
        &&& self.tags@ == o.tags@
        &&& self.derived_from@ == o.derived_from@
        &&& self.lineage_kind == o.lineage_kind
    }
}

impl Clone for EntityData {
    fn clone(&self) -> (r: Self)
        ensures
            r.same_as(self),
    {
        EntityData {
            entity_kind: self.entity_kind,
            project_id: self.project_id.clone(),
            title: self.title.clone(),
            tags: copy_strings(&self.tags),
            derived_from: copy_strings(&self.derived_from),
            lineage_kind: self.lineage_kind,
        }
    }
}

#[derive(Debug)]
pub struct Slot {
    pub slot_id: String,
    pub revision_id: String,
    pub roles: Vec<String>,
}

impl Slot {
    pub open spec fn same_as(&self, o: &Slot) -> bool {
        &&& self.slot_id == o.slot_id
        &&& self.revision_id == o.revision_id
        &&& self.roles@ == o.roles@
    }
}

impl Clone for Slot {
    fn clone(&self) -> (r: Self)
        ensures
            r.same_as(self),
    {
        Slot {
            slot_id: self.slot_id.clone(),
            revision_id: self.revision_id.clone(),
            roles: copy_strings(&self.roles),
        }
    }
}

pub open spec fn same_slots(a: Seq<Slot>, b: Seq<Slot>) -> bool {
    a.len() == b.len() && forall|i: int| 0 <= i < a.len() ==> (#[trigger] a[i]).same_as(&b[i])
}

fn copy_slots(v: &Vec<Slot>) -> (r: Vec<Slot>)
    ensures
        same_slots(r@, v@),
{
    let mut r: Vec<Slot> = Vec::new();
    let mut i: usize = 0;
    while i < v.len()
        invariant
            0 <= i <= v@.len(),
            r@.len() == i,
            forall|j: int| 0 <= j < i ==> (#[trigger] r@[j]).same_as(&v@[j]),
        decreases v@.len() - i,
    {
        r.push(v[i].clone());
        i += 1;
    }
    r
}

#[derive(Debug)]
pub struct SourceAnchor {
    pub capture_id: String,
    pub start: usize,
    pub end: usize,
}

impl Clone for SourceAnchor {
    fn clone(&self) -> (r: Self)
        ensures
            r == *self,
    {
        SourceAnchor { capture_id: self.capture_id.clone(), start: self.start, end: self.end }
    }
}

#[derive(Debug)]
pub struct Source {
    pub origin: Origin,
    pub capture_id: Option<String>,
    pub model: Option<String>,
    pub skill: Option<String>,
    pub claim_mode: ClaimMode,
    pub source_anchor: Option<SourceAnchor>,
}

impl Clone for Source {
    fn clone(&self) -> (r: Self)
        ensures
            r == *self,
    {
        Source {
            origin: self.origin,
            capture_id: self.capture_id.clone(),
            model: self.model.clone(),
            skill: self.skill.clone(),
            claim_mode: self.claim_mode,
            source_anchor: match &self.source_anchor {
                Some(a) => Some(a.clone()),
                None => None,
            },
        }
    }
}

#[derive(Debug)]
pub struct RevisionData {
    /// An `entity` record, or a `project` record for a project-root revision.
    pub entity_id: String,
    pub body: String,
    pub tags: Vec<String>,
    pub slots: Vec<Slot>,
    pub change_kind: ChangeKind,
    pub correction_of: Option<String>,
    pub correction_reason: Option<String>,
    pub previous_revision_id: Option<String>,
    pub source: Source,
}

impl RevisionData {
    pub open spec fn same_as(&self, o: &RevisionData) -> bool {
        &&& self.entity_id == o.entity_id
        &&& self.body == o.body
        &&& self.tags@ == o.tags@
        &&& same_slots(self.slots@, o.slots@)
        &&& self.change_kind == o.change_kind
        &&& self.correction_of == o.correction_of
        &&& self.correction_reason == o.correction_reason
        &&& self.previous_revision_id == o.previous_revision_id
        &&& self.source == o.source
    }
}

impl Clone for RevisionData {
    fn clone(&self) -> (r: Self)
        ensures
            r.same_as(self),
    {
        RevisionData {
            entity_id: self.entity_id.clone(),
            body: self.body.clone(),
            tags: copy_strings(&self.tags),
            slots: copy_slots(&self.slots),
            change_kind: self.change_kind,
            correction_of: self.correction_of.clone(),
            correction_reason: self.correction_reason.clone(),
            previous_revision_id: self.previous_revision_id.clone(),
            source: self.source.clone(),
        }
    }
}

#[derive(Debug)]
pub struct CaptureData {
    pub project_id: Option<String>,
    pub content: String,
    pub content_digest: Option<String>,
    pub media_type: String,
    pub source_kind: SourceKind,
    pub source_ref: Option<String>,
    pub occurred_at: Option<String>,
}

impl Clone for CaptureData {
    fn clone(&self) -> (r: Self)
        ensures
            r == *self,
    {
        CaptureData {
            project_id: self.project_id.clone(),
            content: self.content.clone(),
            content_digest: self.content_digest.clone(),
            media_type: self.media_type.clone(),
            source_kind: self.source_kind,
            source_ref: self.source_ref.clone(),
            occurred_at: self.occurred_at.clone(),
        }
    }
}

#[derive(Debug)]
pub struct CandidateData {
    pub project_id: String,
    pub capture_id: Option<String>,
    pub proposed_kind: ProposedKind,
    pub title: String,
    pub body: String,
    pub origin: Origin,
    pub model: Option<String>,
    pub skill: Option<String>,
    pub claim_mode: ClaimMode,
    pub source_anchor: Option<SourceAnchor>,
    pub status: CandidateStatus,
}

impl Clone for CandidateData {
    fn clone(&self) -> (r: Self)
        ensures
            r == *self,
    {
        CandidateData {
            project_id: self.project_id.clone(),
            capture_id: self.capture_id.clone(),
            proposed_kind: self.proposed_kind,
            title: self.title.clone(),
            body: self.body.clone(),
            origin: self.origin,
            model: self.model.clone(),
            skill: self.skill.clone(),
            claim_mode: self.claim_mode,
            source_anchor: match &self.source_anchor {
                Some(a) => Some(a.clone()),
                None => None,
            },
            status: self.status,
        }
    }
}

#[derive(Debug)]
pub struct PromotionData {
    pub candidate_id: String,
    pub entity_id: String,
    pub revision_id: String,
    pub actor: String,
    pub reason: String,
}

impl Clone for PromotionData {
    fn clone(&self) -> (r: Self)
        ensures
            r == *self,
    {
        PromotionData {
            candidate_id: self.candidate_id.clone(),
            entity_id: self.entity_id.clone(),
            revision_id: self.revision_id.clone(),
            actor: self.actor.clone(),
            reason: self.reason.clone(),
        }
    }
}

#[derive(Debug)]
pub struct ArtifactData {
    pub uri: String,
    pub digest: String,
    pub digest_alg: String,
    pub size_bytes: Option<u64>,
    pub media_type: Option<String>,
    /// Must be false: this release stores no artifact bytes.
    pub included_in_export: bool,
    pub note: String,
}

impl Clone for ArtifactData {
    fn clone(&self) -> (r: Self)
        ensures
            r == *self,
    {
        ArtifactData {
            uri: self.uri.clone(),
            digest: self.digest.clone(),
            digest_alg: self.digest_alg.clone(),
            size_bytes: self.size_bytes,
            media_type: self.media_type.clone(),
            included_in_export: self.included_in_export,
            note: self.note.clone(),
        }
    }
}


#[derive(Debug)]
pub struct Environment {
    pub code_ref: Option<String>,
    pub data_version: Option<String>,
    pub model_version: Option<String>,
    pub config_digest: Option<String>,
    pub runtime: Option<String>,
}

impl Clone for Environment {
    fn clone(&self) -> (r: Self)
        ensures
            r == *self,
    {
        Environment {
            code_ref: self.code_ref.clone(),
            data_version: self.data_version.clone(),
            model_version: self.model_version.clone(),
            config_digest: self.config_digest.clone(),
            runtime: self.runtime.clone(),
        }
    }
}

#[derive(Debug)]
pub struct ObservationData {
    pub project_id: String,
    pub target_revision_id: Option<String>,
    pub metric: Option<String>,
    /// The observed value as written: a number, a text, a boolean, or any
    /// other JSON value (which validation refuses).
    pub value: Option<Json>,
    pub unit: Option<String>,
    pub status: ObservationStatus,
    pub occurred_at: String,
    pub method: Option<String>,
    pub environment: Environment,
    pub artifact_ids: Vec<String>,
    pub capture_id: Option<String>,
    pub actor: String,
    pub note: String,
}

pub open spec fn json_opt(v: Option<Json>) -> Option<JsonV> {
    match v {
        Some(j) => Some(j.deep()),
        None => None,
    }
}

impl ObservationData {
    pub open spec fn same_as(&self, o: &ObservationData) -> bool {
        &&& self.project_id == o.project_id
        &&& self.target_revision_id == o.target_revision_id
        &&& self.metric == o.metric
        &&& json_opt(self.value) == json_opt(o.value)
        &&& self.unit == o.unit
        &&& self.status == o.status
        &&& self.occurred_at == o.occurred_at
        &&& self.method == o.method
        &&& self.environment == o.environment
        &&& self.artifact_ids@ == o.artifact_ids@
        &&& self.capture_id == o.capture_id
        &&& self.actor == o.actor
        &&& self.note == o.note
    }
}

impl Clone for ObservationData {
    fn clone(&self) -> (r: Self)
        ensures
            r.same_as(self),
    {
        ObservationData {
            project_id: self.project_id.clone(),
            target_revision_id: self.target_revision_id.clone(),
            metric: self.metric.clone(),
            value: match &self.value {
                Some(v) => Some(json::copy_json(v)),
                None => None,
            },
            unit: self.unit.clone(),
            status: self.status,
            occurred_at: self.occurred_at.clone(),
            method: self.method.clone(),
            environment: self.environment.clone(),
            artifact_ids: copy_strings(&self.artifact_ids),
            capture_id: self.capture_id.clone(),
            actor: self.actor.clone(),
            note: self.note.clone(),
        }
    }
}

#[derive(Debug)]
pub struct Scope {
    pub root_revision_id: String,
    pub slot_path: Vec<String>,
    pub target_revision_id: String,
}

impl Scope {
    pub open spec fn same_as(&self, o: &Scope) -> bool {
        &&& self.root_revision_id == o.root_revision_id
        &&& self.slot_path@ == o.slot_path@
        &&& self.target_revision_id == o.target_revision_id
    }
}

impl Clone for Scope {
    fn clone(&self) -> (r: Self)
        ensures
            r.same_as(self),
    {
        Scope {
            root_revision_id: self.root_revision_id.clone(),
            slot_path: copy_strings(&self.slot_path),
            target_revision_id: self.target_revision_id.clone(),
        }
    }
}

pub open spec fn num_opt(v: Option<Num>) -> Option<(bool, Seq<u8>, Seq<u8>)> {
    match v {
        Some(n) => Some(n.parts()),
        None => None,
    }
}

fn copy_num_opt(v: &Option<Num>) -> (r: Option<Num>)
    ensures
        num_opt(r) == num_opt(*v),
{
    match v {
        Some(n) => Some(n.clone()),
        None => None,
    }
}

#[derive(Debug)]
pub struct Criterion {
    pub criterion_id: String,
    pub kind: CriterionKind,
    pub statement: String,
    pub metric: Option<String>,
    pub comparator: Option<Comparator>,
    pub threshold: Option<Num>,
    pub unit: Option<String>,
    pub required: bool,
}

impl Criterion {
    pub open spec fn same_as(&self, o: &Criterion) -> bool {
        &&& self.criterion_id == o.criterion_id
        &&& self.kind == o.kind
        &&& self.statement == o.statement
        &&& self.metric == o.metric
        &&& self.comparator == o.comparator
        &&& num_opt(self.threshold) == num_opt(o.threshold)
        &&& self.unit == o.unit
        &&& self.required == o.required
    }
}

impl Clone for Criterion {
    fn clone(&self) -> (r: Self)
        ensures
            r.same_as(self),
    {
        Criterion {
            criterion_id: self.criterion_id.clone(),
            kind: self.kind,
            statement: self.statement.clone(),
            metric: self.metric.clone(),
            comparator: self.comparator,
            threshold: copy_num_opt(&self.threshold),
            unit: self.unit.clone(),
            required: self.required,
        }
    }
}

#[derive(Debug)]
pub struct GoalData {
    pub project_id: String,
    pub scope: Scope,
    pub statement: String,
    pub criteria: Vec<Criterion>,
    pub origin: ProposalOrigin,
    pub actor: String,
}

impl GoalData {
    pub open spec fn same_as(&self, o: &GoalData) -> bool {
        &&& self.project_id == o.project_id
        &&& self.scope.same_as(&o.scope)
        &&& self.statement == o.statement
        &&& self.criteria@.len() == o.criteria@.len()
        &&& forall|i: int|
            0 <= i < self.criteria@.len() ==> (#[trigger] self.criteria@[i]).same_as(
                &o.criteria@[i],
            )
        &&& self.origin == o.origin
        &&& self.actor == o.actor
    }
}

impl Clone for GoalData {
    fn clone(&self) -> (r: Self)
        ensures
            r.same_as(self),
    {
        let mut criteria: Vec<Criterion> = Vec::new();
        let mut i: usize = 0;
        while i < self.criteria.len()
            invariant
                0 <= i <= self.criteria@.len(),
                criteria@.len() == i,
                forall|j: int| 0 <= j < i ==> (#[trigger] criteria@[j]).same_as(&self.criteria@[j]),
            decreases self.criteria@.len() - i,
        {
            criteria.push(self.criteria[i].clone());
            i += 1;
        }
        GoalData {
            project_id: self.project_id.clone(),
            scope: self.scope.clone(),
            statement: self.statement.clone(),
            criteria,
            origin: self.origin,
            actor: self.actor.clone(),
        }
    }
}

#[derive(Debug)]
pub struct BaselineData {
    pub goal_id: String,
    pub criterion_ids: Vec<String>,
    pub constraints: Vec<String>,
    pub effective_from: String,
    /// May point at a baseline of a *different* goal with an identical scope.
    pub supersedes: Option<String>,
    pub actor: String,
    pub reason: String,
}

impl BaselineData {
    pub open spec fn same_as(&self, o: &BaselineData) -> bool {
        &&& self.goal_id == o.goal_id
        &&& self.criterion_ids@ == o.criterion_ids@
        &&& self.constraints@ == o.constraints@
        &&& self.effective_from == o.effective_from
        &&& self.supersedes == o.supersedes
        &&& self.actor == o.actor
        &&& self.reason == o.reason
    }
}

impl Clone for BaselineData {
    fn clone(&self) -> (r: Self)
        ensures
            r.same_as(self),
    {
        BaselineData {
            goal_id: self.goal_id.clone(),
            criterion_ids: copy_strings(&self.criterion_ids),
            constraints: copy_strings(&self.constraints),
            effective_from: self.effective_from.clone(),
            supersedes: self.supersedes.clone(),
            actor: self.actor.clone(),
            reason: self.reason.clone(),
        }
    }
}

#[derive(Debug)]
pub struct ProgressEstimate {
    pub percent: Num,
    pub rationale: String,
    pub evidence_record_ids: Vec<String>,
}

impl ProgressEstimate {
    pub open spec fn same_as(&self, o: &ProgressEstimate) -> bool {
        &&& self.percent.parts() == o.percent.parts()
        &&& self.rationale == o.rationale
        &&& self.evidence_record_ids@ == o.evidence_record_ids@
    }
}

impl Clone for ProgressEstimate {
    fn clone(&self) -> (r: Self)
        ensures
            r.same_as(self),
    {
        ProgressEstimate {
            percent: self.percent.clone(),
            rationale: self.rationale.clone(),
            evidence_record_ids: copy_strings(&self.evidence_record_ids),
        }
    }
}

#[derive(Debug)]
pub struct CriterionResult {
    pub criterion_id: String,
    pub status: JudgeStatus,
    pub observed_value: Option<Num>,
    pub note: String,
    pub progress_estimate: Option<ProgressEstimate>,
}

impl CriterionResult {
    pub open spec fn same_as(&self, o: &CriterionResult) -> bool {
        &&& self.criterion_id == o.criterion_id
        &&& self.status == o.status
        &&& num_opt(self.observed_value) == num_opt(o.observed_value)
        &&& self.note == o.note
        &&& self.progress_estimate.is_some() == o.progress_estimate.is_some()
        &&& self.progress_estimate.is_some() ==> self.progress_estimate.unwrap().same_as(
            &o.progress_estimate.unwrap(),
        )
    }
}

impl Clone for CriterionResult {
    fn clone(&self) -> (r: Self)
        ensures
            r.same_as(self),
    {
        CriterionResult {
            criterion_id: self.criterion_id.clone(),
            status: self.status,
            observed_value: copy_num_opt(&self.observed_value),
            note: self.note.clone(),
            progress_estimate: match &self.progress_estimate {
                Some(e) => Some(e.clone()),
                None => None,
            },
        }
    }
}

#[derive(Debug)]
pub struct AssessmentData {
    pub root_revision_id: String,
    pub slot_path: Vec<String>,
    pub target_revision_id: String,
    pub baseline_id: String,
    pub evidence_cutoff_seq: i64,
    pub evidence_cutoff_at: String,
    pub evaluator: String,
    pub rubric_version: String,
    pub origin: ProposalOrigin,
    pub status: JudgeStatus,
    pub criteria_results: Vec<CriterionResult>,
    pub evidence_observation_ids: Vec<String>,
    pub note: String,
}

impl AssessmentData {
    pub open spec fn same_as(&self, o: &AssessmentData) -> bool {
        &&& self.root_revision_id == o.root_revision_id
        &&& self.slot_path@ == o.slot_path@
        &&& self.target_revision_id == o.target_revision_id
        &&& self.baseline_id == o.baseline_id
        &&& self.evidence_cutoff_seq == o.evidence_cutoff_seq
        &&& self.evidence_cutoff_at == o.evidence_cutoff_at
        &&& self.evaluator == o.evaluator
        &&& self.rubric_version == o.rubric_version
        &&& self.origin == o.origin
        &&& self.status == o.status
        &&& self.criteria_results@.len() == o.criteria_results@.len()
        &&& forall|i: int|
            0 <= i < self.criteria_results@.len() ==> (
            #[trigger] self.criteria_results@[i]).same_as(&o.criteria_results@[i])
        &&& self.evidence_observation_ids@ == o.evidence_observation_ids@
        &&& self.note == o.note
    }
}

impl Clone for AssessmentData {
    fn clone(&self) -> (r: Self)
        ensures
            r.same_as(self),
    {
        let mut results: Vec<CriterionResult> = Vec::new();
        let mut i: usize = 0;
        while i < self.criteria_results.len()
            invariant
                0 <= i <= self.criteria_results@.len(),
                results@.len() == i,
                forall|j: int|
                    0 <= j < i ==> (#[trigger] results@[j]).same_as(&self.criteria_results@[j]),
            decreases self.criteria_results@.len() - i,
        {
            results.push(self.criteria_results[i].clone());
            i += 1;
        }
        AssessmentData {
            root_revision_id: self.root_revision_id.clone(),
            slot_path: copy_strings(&self.slot_path),
            target_revision_id: self.target_revision_id.clone(),
            baseline_id: self.baseline_id.clone(),
            evidence_cutoff_seq: self.evidence_cutoff_seq,
            evidence_cutoff_at: self.evidence_cutoff_at.clone(),
            evaluator: self.evaluator.clone(),
            rubric_version: self.rubric_version.clone(),
            origin: self.origin,
            status: self.status,
            criteria_results: results,
            evidence_observation_ids: copy_strings(&self.evidence_observation_ids),
            note: self.note.clone(),
        }
    }
}

#[derive(Debug)]
pub struct Impact {
    pub scope: String,
    pub direction: ImpactDirection,
    pub metric: Option<String>,
    pub magnitude: Option<Num>,
    pub unit: Option<String>,
    pub evidence_kind: EvidenceKind,
    pub observation_ids: Vec<String>,
    pub method: Option<String>,
}

impl Impact {
    pub open spec fn same_as(&self, o: &Impact) -> bool {
        &&& self.scope == o.scope
        &&& self.direction == o.direction
        &&& self.metric == o.metric
        &&& num_opt(self.magnitude) == num_opt(o.magnitude)
        &&& self.unit == o.unit
        &&& self.evidence_kind == o.evidence_kind
        &&& self.observation_ids@ == o.observation_ids@
        &&& self.method == o.method
    }
}

impl Clone for Impact {
    fn clone(&self) -> (r: Self)
        ensures
            r.same_as(self),
    {
        Impact {
            scope: self.scope.clone(),
            direction: self.direction,
            metric: self.metric.clone(),
            magnitude: copy_num_opt(&self.magnitude),
            unit: self.unit.clone(),
            evidence_kind: self.evidence_kind,
            observation_ids: copy_strings(&self.observation_ids),
            method: self.method.clone(),
        }
    }
}

#[derive(Debug)]
pub struct Similarity {
    pub score: Num,
    pub method: String,
}

impl Similarity {
    pub open spec fn same_as(&self, o: &Similarity) -> bool {
        self.score.parts() == o.score.parts() && self.method == o.method
    }
}

impl Clone for Similarity {
    fn clone(&self) -> (r: Self)
        ensures
            r.same_as(self),
    {
        Similarity { score: self.score.clone(), method: self.method.clone() }
    }
}

#[derive(Debug)]
pub struct LinkData {
    pub link_type: LinkType,
    pub from_id: String,
    pub to_id: String,
    pub note: String,
    pub actor: String,
    pub impact: Option<Impact>,
    pub similarity: Option<Similarity>,
}

impl LinkData {
    pub open spec fn same_as(&self, o: &LinkData) -> bool {
        &&& self.link_type == o.link_type
        &&& self.from_id == o.from_id
        &&& self.to_id == o.to_id
        &&& self.note == o.note
        &&& self.actor == o.actor
        &&& self.impact.is_some() == o.impact.is_some()
        &&& self.impact.is_some() ==> self.impact.unwrap().same_as(&o.impact.unwrap())
        &&& self.similarity.is_some() == o.similarity.is_some()
        &&& self.similarity.is_some() ==> self.similarity.unwrap().same_as(
            &o.similarity.unwrap(),
        )
    }
}

impl Clone for LinkData {
    fn clone(&self) -> (r: Self)
        ensures
            r.same_as(self),
    {
        LinkData {
            link_type: self.link_type,
            from_id: self.from_id.clone(),
            to_id: self.to_id.clone(),
            note: self.note.clone(),
            actor: self.actor.clone(),
            impact: match &self.impact {
                Some(i) => Some(i.clone()),
                None => None,
            },
            similarity: match &self.similarity {
                Some(x) => Some(x.clone()),
                None => None,
            },
        }
    }
}

#[derive(Debug)]
pub struct EmbeddingData {
    pub revision_id: String,
    pub model: String,
    pub dim: usize,
    pub values: Vec<Num>,
    pub normalized: bool,
}

impl EmbeddingData {
    pub open spec fn same_as(&self, o: &EmbeddingData) -> bool {
        &&& self.revision_id == o.revision_id
        &&& self.model == o.model
        &&& self.dim == o.dim
        &&& self.values@.len() == o.values@.len()
        &&& forall|i: int|
            0 <= i < self.values@.len() ==> (#[trigger] self.values@[i]).parts()
                == o.values@[i].parts()
        &&& self.normalized == o.normalized
    }
}

impl Clone for EmbeddingData {
    fn clone(&self) -> (r: Self)
        ensures
            r.same_as(self),
    {
        let mut values: Vec<Num> = Vec::new();
        let mut i: usize = 0;
        while i < self.values.len()
            invariant
                0 <= i <= self.values@.len(),
                values@.len() == i,
                forall|j: int| 0 <= j < i ==> (#[trigger] values@[j]).parts() == self.values@[j].parts(),
            decreases self.values@.len() - i,
        {
            values.push(self.values[i].clone());
            i += 1;
        }
        EmbeddingData {
            revision_id: self.revision_id.clone(),
            model: self.model.clone(),
            dim: self.dim,
            values,
            normalized: self.normalized,
        }
    }
}

#[derive(Debug)]
pub struct Decision {
    pub before: String,
    pub after: String,
    pub rationale: String,
}

impl Clone for Decision {
    fn clone(&self) -> (r: Self)
        ensures
            r == *self,
    {
        Decision {
            before: self.before.clone(),
            after: self.after.clone(),
            rationale: self.rationale.clone(),
        }
    }
}

#[derive(Debug)]
pub struct HeadChangeData {
    pub project_id: String,
    pub stage: Stage,
    pub before_revision_id: Option<String>,
    pub after_revision_id: String,
    pub reason: String,
    pub actor: String,
    pub meaningful: bool,
    pub decision: Decision,
}

impl Clone for HeadChangeData {
    fn clone(&self) -> (r: Self)
        ensures
            r == *self,
    {
        HeadChangeData {
            project_id: self.project_id.clone(),
            stage: self.stage,
            before_revision_id: self.before_revision_id.clone(),
            after_revision_id: self.after_revision_id.clone(),
            reason: self.reason.clone(),
            actor: self.actor.clone(),
            meaningful: self.meaningful,
            decision: self.decision.clone(),
        }
    }
}

#[derive(Debug)]
pub struct PublicationData {
    pub project_id: String,
    pub root_revision_id: String,
    pub label: String,
    pub published_at: String,
    pub notes: String,
    pub actor: String,
}

impl Clone for PublicationData {
    fn clone(&self) -> (r: Self)
        ensures
            r == *self,
    {
        PublicationData {
            project_id: self.project_id.clone(),
            root_revision_id: self.root_revision_id.clone(),
            label: self.label.clone(),
            published_at: self.published_at.clone(),
            notes: self.notes.clone(),
            actor: self.actor.clone(),
        }
    }
}


// ---------------------------------------------------------------- record

#[derive(Debug)]
pub enum RecordData {
    Project(ProjectData),
    Entity(EntityData),
    Revision(RevisionData),
    Capture(CaptureData),
    Candidate(CandidateData),
    Promotion(PromotionData),
    Artifact(ArtifactData),
    Observation(ObservationData),
    Goal(GoalData),
    Baseline(BaselineData),
    Assessment(AssessmentData),
    Link(LinkData),
    Embedding(EmbeddingData),
    HeadChange(HeadChangeData),
    Publication(PublicationData),
}

impl RecordData {
    pub open spec fn kind_of(&self) -> RecordKind {
        match self {
            RecordData::Project(_) => RecordKind::Project,
            RecordData::Entity(_) => RecordKind::Entity,
            RecordData::Revision(_) => RecordKind::Revision,
            RecordData::Capture(_) => RecordKind::Capture,
            RecordData::Candidate(_) => RecordKind::Candidate,
            RecordData::Promotion(_) => RecordKind::Promotion,
            RecordData::Artifact(_) => RecordKind::Artifact,
            RecordData::Observation(_) => RecordKind::Observation,
            RecordData::Goal(_) => RecordKind::Goal,
            RecordData::Baseline(_) => RecordKind::Baseline,
            RecordData::Assessment(_) => RecordKind::Assessment,
            RecordData::Link(_) => RecordKind::Link,
            RecordData::Embedding(_) => RecordKind::Embedding,
            RecordData::HeadChange(_) => RecordKind::HeadChange,
            RecordData::Publication(_) => RecordKind::Publication,
        }
    }

    pub fn kind(&self) -> (r: RecordKind)
        ensures
            r == self.kind_of(),
    {
        match self {
            RecordData::Project(_) => RecordKind::Project,
            RecordData::Entity(_) => RecordKind::Entity,
            RecordData::Revision(_) => RecordKind::Revision,
            RecordData::Capture(_) => RecordKind::Capture,
            RecordData::Candidate(_) => RecordKind::Candidate,
            RecordData::Promotion(_) => RecordKind::Promotion,
            RecordData::Artifact(_) => RecordKind::Artifact,
            RecordData::Observation(_) => RecordKind::Observation,
            RecordData::Goal(_) => RecordKind::Goal,
            RecordData::Baseline(_) => RecordKind::Baseline,
            RecordData::Assessment(_) => RecordKind::Assessment,
            RecordData::Link(_) => RecordKind::Link,
            RecordData::Embedding(_) => RecordKind::Embedding,
            RecordData::HeadChange(_) => RecordKind::HeadChange,
            RecordData::Publication(_) => RecordKind::Publication,
        }
    }

    /// Same kind and the same payload, field for field.
    pub open spec fn same_as(&self, o: &RecordData) -> bool {
        match (self, o) {
            (RecordData::Project(a), RecordData::Project(b)) => a == b,
            (RecordData::Entity(a), RecordData::Entity(b)) => a.same_as(b),
            (RecordData::Revision(a), RecordData::Revision(b)) => a.same_as(b),
            (RecordData::Capture(a), RecordData::Capture(b)) => a == b,
            (RecordData::Candidate(a), RecordData::Candidate(b)) => a == b,
            (RecordData::Promotion(a), RecordData::Promotion(b)) => a == b,
            (RecordData::Artifact(a), RecordData::Artifact(b)) => a == b,
            (RecordData::Observation(a), RecordData::Observation(b)) => a.same_as(b),
            (RecordData::Goal(a), RecordData::Goal(b)) => a.same_as(b),
            (RecordData::Baseline(a), RecordData::Baseline(b)) => a.same_as(b),
            (RecordData::Assessment(a), RecordData::Assessment(b)) => a.same_as(b),
            (RecordData::Link(a), RecordData::Link(b)) => a.same_as(b),
            (RecordData::Embedding(a), RecordData::Embedding(b)) => a.same_as(b),
            (RecordData::HeadChange(a), RecordData::HeadChange(b)) => a == b,
            (RecordData::Publication(a), RecordData::Publication(b)) => a == b,
            _ => false,
        }
    }
}

impl Clone for RecordData {
    fn clone(&self) -> (r: Self)
        ensures
            r.same_as(self),
            r.kind_of() == self.kind_of(),
    {
        match self {
            RecordData::Project(d) => RecordData::Project(d.clone()),
            RecordData::Entity(d) => RecordData::Entity(d.clone()),
            RecordData::Revision(d) => RecordData::Revision(d.clone()),
            RecordData::Capture(d) => RecordData::Capture(d.clone()),
            RecordData::Candidate(d) => RecordData::Candidate(d.clone()),
            RecordData::Promotion(d) => RecordData::Promotion(d.clone()),
            RecordData::Artifact(d) => RecordData::Artifact(d.clone()),
            RecordData::Observation(d) => RecordData::Observation(d.clone()),
            RecordData::Goal(d) => RecordData::Goal(d.clone()),
            RecordData::Baseline(d) => RecordData::Baseline(d.clone()),
            RecordData::Assessment(d) => RecordData::Assessment(d.clone()),
            RecordData::Link(d) => RecordData::Link(d.clone()),
            RecordData::Embedding(d) => RecordData::Embedding(d.clone()),
            RecordData::HeadChange(d) => RecordData::HeadChange(d.clone()),
            RecordData::Publication(d) => RecordData::Publication(d.clone()),
        }
    }
}

/// A record as stored: client-supplied identity and payload, server-supplied
/// `seq` and `recorded_at`.
#[derive(Debug)]
pub struct StoredRecord {
    pub id: String,
    pub seq: i64,
    pub recorded_at: String,
    pub data: RecordData,
}

impl Clone for StoredRecord {
    fn clone(&self) -> (r: Self)
        ensures
            r.same_as(self),
    {
        StoredRecord {
            id: self.id.clone(),
            seq: self.seq,
            recorded_at: self.recorded_at.clone(),
            data: self.data.clone(),
        }
    }
}

/// The ids of a list of strings, as character sequences.
pub open spec fn views(v: Seq<String>) -> Seq<Seq<char>> {
    v.map_values(|s: String| s@)
}

pub open spec fn opt_ref(o: Option<String>) -> Seq<Seq<char>> {
    match o {
        Some(v) => seq![v@],
        None => Seq::empty(),
    }
}

pub open spec fn anchor_ref(a: Option<SourceAnchor>) -> Seq<Seq<char>> {
    match a {
        Some(x) => seq![x.capture_id@],
        None => Seq::empty(),
    }
}

pub open spec fn slot_refs(slots: Seq<Slot>) -> Seq<Seq<char>> {
    slots.map_values(|s: Slot| s.revision_id@)
}

/// Evidence cited by progress estimates, result by result.
pub open spec fn estimate_refs(results: Seq<CriterionResult>) -> Seq<Seq<char>>
    decreases results.len(),
{
    if results.len() == 0 {
        Seq::empty()
    } else {
        estimate_refs(results.drop_last()) + match results.last().progress_estimate {
            Some(e) => views(e.evidence_record_ids@),
            None => Seq::empty(),
        }
    }
}

/// Every record id a payload points at, in the order the fields are listed.
pub open spec fn data_refs(d: RecordData) -> Seq<Seq<char>> {
    match d {
        RecordData::Project(_) => Seq::empty(),
        RecordData::Artifact(_) => Seq::empty(),
        RecordData::Entity(e) => seq![e.project_id@] + views(e.derived_from@),
        RecordData::Revision(r) => seq![r.entity_id@] + slot_refs(r.slots@) + opt_ref(
            r.correction_of,
        ) + opt_ref(r.previous_revision_id) + opt_ref(r.source.capture_id) + anchor_ref(
            r.source.source_anchor,
        ),
        RecordData::Capture(c) => opt_ref(c.project_id),
        RecordData::Candidate(c) => seq![c.project_id@] + opt_ref(c.capture_id) + anchor_ref(
            c.source_anchor,
        ),
        RecordData::Promotion(p) => seq![p.candidate_id@, p.entity_id@, p.revision_id@],
        RecordData::Observation(o) => seq![o.project_id@] + opt_ref(o.target_revision_id)
            + opt_ref(o.capture_id) + views(o.artifact_ids@),
        RecordData::Goal(g) => seq![
            g.project_id@,
            g.scope.root_revision_id@,
            g.scope.target_revision_id@,
        ],
        RecordData::Baseline(b) => seq![b.goal_id@] + opt_ref(b.supersedes),
        RecordData::Assessment(a) => seq![
            a.root_revision_id@,
            a.target_revision_id@,
            a.baseline_id@,
        ] + views(a.evidence_observation_ids@) + estimate_refs(a.criteria_results@),
        RecordData::Link(l) => seq![l.from_id@, l.to_id@] + match l.impact {
            Some(i) => views(i.observation_ids@),
            None => Seq::empty(),
        },
        RecordData::Embedding(e) => seq![e.revision_id@],
        RecordData::HeadChange(h) => seq![h.project_id@, h.after_revision_id@] + opt_ref(
            h.before_revision_id,
        ),
        RecordData::Publication(p) => seq![p.project_id@, p.root_revision_id@],
    }
}

fn push_id(out: &mut Vec<String>, id: &String)
    ensures
        views(final(out)@) == views(old(out)@) + seq![id@],
{
    out.push(id.clone());
    assert(views(out@) =~= views(old(out)@) + seq![id@]);
}

fn push_opt(out: &mut Vec<String>, o: &Option<String>)
    ensures
        views(final(out)@) == views(old(out)@) + opt_ref(*o),
{
    if let Some(v) = o {
        push_id(out, v);
    } else {
        assert(views(out@) =~= views(old(out)@) + opt_ref(*o));
    }
}

fn push_all(out: &mut Vec<String>, ids: &Vec<String>)
    ensures
        views(final(out)@) == views(old(out)@) + views(ids@),
{
    let ghost start = views(out@);
    let mut i: usize = 0;
    while i < ids.len()
        invariant
            0 <= i <= ids@.len(),
            views(out@) == start + views(ids@.take(i as int)),
        decreases ids@.len() - i,
    {
        push_id(out, &ids[i]);
        assert(views(ids@.take(i + 1)) =~= views(ids@.take(i as int)) + seq![ids@[i as int]@]);
        i += 1;
    }
    assert(ids@.take(ids@.len() as int) == ids@);
}

impl StoredRecord {
    pub open spec fn same_as(&self, o: &StoredRecord) -> bool {
        &&& self.id == o.id
        &&& self.seq == o.seq
        &&& self.recorded_at == o.recorded_at
        &&& self.data.same_as(&o.data)
    }

    pub open spec fn kind_of(&self) -> RecordKind {
        self.data.kind_of()
    }

    pub fn kind(&self) -> (r: RecordKind)
        ensures
            r == self.kind_of(),
    {
        self.data.kind()
    }

    pub fn as_revision(&self) -> (r: Option<&RevisionData>)
        ensures
            match self.data {
                RecordData::Revision(d) => r == Some(&d),
                _ => r is None,
            },
    {
        match &self.data {
            RecordData::Revision(r) => Some(r),
            _ => None,
        }
    }

    pub fn as_entity(&self) -> (r: Option<&EntityData>)
        ensures
            match self.data {
                RecordData::Entity(d) => r == Some(&d),
                _ => r is None,
            },
    {
        match &self.data {
            RecordData::Entity(e) => Some(e),
            _ => None,
        }
    }

    pub fn as_capture(&self) -> (r: Option<&CaptureData>)
        ensures
            match self.data {
                RecordData::Capture(d) => r == Some(&d),
                _ => r is None,
            },
    {
        match &self.data {
            RecordData::Capture(c) => Some(c),
            _ => None,
        }
    }

    pub fn as_goal(&self) -> (r: Option<&GoalData>)
        ensures
            match self.data {
                RecordData::Goal(d) => r == Some(&d),
                _ => r is None,
            },
    {
        match &self.data {
            RecordData::Goal(g) => Some(g),
            _ => None,
        }
    }

    pub fn as_baseline(&self) -> (r: Option<&BaselineData>)
        ensures
            match self.data {
                RecordData::Baseline(d) => r == Some(&d),
                _ => r is None,
            },
    {
        match &self.data {
            RecordData::Baseline(b) => Some(b),
            _ => None,
        }
    }

    pub fn as_assessment(&self) -> (r: Option<&AssessmentData>)
        ensures
            match self.data {
                RecordData::Assessment(d) => r == Some(&d),
                _ => r is None,
            },
    {
        match &self.data {
            RecordData::Assessment(a) => Some(a),
            _ => None,
        }
    }

    pub fn as_observation(&self) -> (r: Option<&ObservationData>)
        ensures
            match self.data {
                RecordData::Observation(d) => r == Some(&d),
                _ => r is None,
            },
    {
        match &self.data {
            RecordData::Observation(o) => Some(o),
            _ => None,
        }
    }

    pub fn as_embedding(&self) -> (r: Option<&EmbeddingData>)
        ensures
            match self.data {
                RecordData::Embedding(d) => r == Some(&d),
                _ => r is None,
            },
    {
        match &self.data {
            RecordData::Embedding(e) => Some(e),
            _ => None,
        }
    }

    pub fn as_link(&self) -> (r: Option<&LinkData>)
        ensures
            match self.data {
                RecordData::Link(d) => r == Some(&d),
                _ => r is None,
            },
    {
        match &self.data {
            RecordData::Link(l) => Some(l),
            _ => None,
        }
    }

    pub fn as_publication(&self) -> (r: Option<&PublicationData>)
        ensures
            match self.data {
                RecordData::Publication(d) => r == Some(&d),
                _ => r is None,
            },
    {
        match &self.data {
            RecordData::Publication(p) => Some(p),
            _ => None,
        }
    }

    pub fn as_head_change(&self) -> (r: Option<&HeadChangeData>)
        ensures
            match self.data {
                RecordData::HeadChange(d) => r == Some(&d),
                _ => r is None,
            },
    {
        match &self.data {
            RecordData::HeadChange(h) => Some(h),
            _ => None,
        }
    }

    /// Every record id this record points at. Drives the prefetch closure so
    /// validation sees the whole referenced subgraph.
    pub fn refs(&self) -> (r: Vec<String>)
        ensures
            views(r@) == data_refs(self.data),
    {
        let mut out: Vec<String> = Vec::new();
        match &self.data {
            RecordData::Project(_) | RecordData::Artifact(_) => {},
            RecordData::Entity(d) => {
                push_id(&mut out, &d.project_id);
                push_all(&mut out, &d.derived_from);
            },
            RecordData::Revision(d) => {
                push_id(&mut out, &d.entity_id);
                let ghost before = views(out@);
                let mut i: usize = 0;
                while i < d.slots.len()
                    invariant
                        0 <= i <= d.slots@.len(),
                        views(out@) == before + slot_refs(d.slots@.take(i as int)),
                    decreases d.slots@.len() - i,
                {
                    push_id(&mut out, &d.slots[i].revision_id);
                    assert(slot_refs(d.slots@.take(i + 1)) =~= slot_refs(d.slots@.take(i as int))
                        + seq![d.slots@[i as int].revision_id@]);
                    i += 1;
                }
                assert(d.slots@.take(d.slots@.len() as int) == d.slots@);
                push_opt(&mut out, &d.correction_of);
                push_opt(&mut out, &d.previous_revision_id);
                push_opt(&mut out, &d.source.capture_id);
                if let Some(a) = &d.source.source_anchor {
                    push_id(&mut out, &a.capture_id);
                }
            },
            RecordData::Capture(d) => push_opt(&mut out, &d.project_id),
            RecordData::Candidate(d) => {
                push_id(&mut out, &d.project_id);
                push_opt(&mut out, &d.capture_id);
                if let Some(a) = &d.source_anchor {
                    push_id(&mut out, &a.capture_id);
                }
            },
            RecordData::Promotion(d) => {
                push_id(&mut out, &d.candidate_id);
                push_id(&mut out, &d.entity_id);
                push_id(&mut out, &d.revision_id);
            },
            RecordData::Observation(d) => {
                push_id(&mut out, &d.project_id);
                push_opt(&mut out, &d.target_revision_id);
                push_opt(&mut out, &d.capture_id);
                push_all(&mut out, &d.artifact_ids);
            },
            RecordData::Goal(d) => {
                push_id(&mut out, &d.project_id);
                push_id(&mut out, &d.scope.root_revision_id);
                push_id(&mut out, &d.scope.target_revision_id);
            },
            RecordData::Baseline(d) => {
                push_id(&mut out, &d.goal_id);
                push_opt(&mut out, &d.supersedes);
            },
            RecordData::Assessment(d) => {
                push_id(&mut out, &d.root_revision_id);
                push_id(&mut out, &d.target_revision_id);
                push_id(&mut out, &d.baseline_id);
                push_all(&mut out, &d.evidence_observation_ids);
                let ghost before = views(out@);
                let mut i: usize = 0;
                while i < d.criteria_results.len()
                    invariant
                        0 <= i <= d.criteria_results@.len(),
                        views(out@) == before + estimate_refs(d.criteria_results@.take(i as int)),
                    decreases d.criteria_results@.len() - i,
                {
                    assert(d.criteria_results@.take(i + 1).drop_last() == d.criteria_results@.take(
                        i as int,
                    ));
                    if let Some(e) = &d.criteria_results[i].progress_estimate {
                        push_all(&mut out, &e.evidence_record_ids);
                    }
                    i += 1;
                }
                assert(d.criteria_results@.take(d.criteria_results@.len() as int)
                    == d.criteria_results@);
            },
            RecordData::Link(d) => {
                push_id(&mut out, &d.from_id);
                push_id(&mut out, &d.to_id);
                if let Some(i) = &d.impact {
                    push_all(&mut out, &i.observation_ids);
                }
            },
            RecordData::Embedding(d) => push_id(&mut out, &d.revision_id),
            RecordData::HeadChange(d) => {
                push_id(&mut out, &d.project_id);
                push_id(&mut out, &d.after_revision_id);
                push_opt(&mut out, &d.before_revision_id);
            },
            RecordData::Publication(d) => {
                push_id(&mut out, &d.project_id);
                push_id(&mut out, &d.root_revision_id);
            },
        }
        proof {
            assert(views(Seq::<String>::empty()) =~= Seq::<Seq<char>>::empty());
        }
        out
    }
}

/// A client-submitted record before the server assigns `seq` and
/// `recorded_at`. `data` holds the decoded payload, or the reason the payload
/// could not be decoded against the schema of `kind`.
#[derive(Debug)]
pub struct NewRecord {
    pub id: String,
    pub kind: RecordKind,
    pub data: Result<RecordData, String>,
}

impl NewRecord {
    pub open spec fn same_as(&self, o: &NewRecord) -> bool {
        &&& self.id == o.id
        &&& self.kind == o.kind
        &&& match (self.data, o.data) {
            (Ok(a), Ok(b)) => a.same_as(&b),
            (Err(a), Err(b)) => a == b,
            _ => false,
        }
    }
}

impl Clone for NewRecord {
    fn clone(&self) -> (r: Self)
        ensures
            r.same_as(self),
    {
        NewRecord {
            id: self.id.clone(),
            kind: self.kind,
            data: match &self.data {
                Ok(d) => Ok(d.clone()),
                Err(e) => Err(e.clone()),
            },
        }
    }
}

} // verus!
