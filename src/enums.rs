use vstd::prelude::*;

verus! {

/// The cognitive role of a memory record.
#[derive(Clone, Copy, Debug, PartialEq, Eq, Structural)]
pub enum MemoryLayer {
    Sensory,
    Working,
    Episodic,
    Semantic,
    Reflective,
}

/// The kind of content a memory holds.
#[derive(Clone, Copy, Debug, PartialEq, Eq, Structural)]
pub enum MemoryType {
    Text,
    Code,
    Image,
    Document,
    Conversation,
    Reflection,
    Entity,
    Relationship,
}

/// How retrieved context is rendered for a consumer.
#[derive(Clone, Copy, Debug, PartialEq, Eq, Structural)]
pub enum ContextFormat {
    Conversational,
    Structured,
    Minimal,
    Detailed,
}

/// The similarity convention a vector backend declares.
#[derive(Clone, Copy, Debug, PartialEq, Eq, Structural)]
pub enum DistanceMetric {
    Cosine,
    Euclid,
    Dot,
}

/// The kind of a derived reflection.
#[derive(Clone, Copy, Debug, PartialEq, Eq, Structural)]
pub enum ReflectionType {
    Consolidation,
    Pattern,
    Anomaly,
    Meta,
}

} // verus!
