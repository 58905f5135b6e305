use vstd::prelude::*;

verus! {

/// Errors that abort compiling a network.
#[derive(Debug, Clone, Copy, PartialEq, Eq, Structural)]
pub enum ConfigError {
    /// A type descriptor matches no grammar rule and no declared name.
    InvalidType,
    /// A decimal descriptor whose minimum is not below its maximum.
    InvalidRange,
    /// Attribute `attribute` of the struct declared at `decl` names a type that
    /// is declared nowhere.
    UndefinedType { decl: usize, attribute: usize },
    /// An implicit enum value would pass the largest 64-bit value.
    EnumValueOverflow,
    /// The declared types depend on one another in a cycle.
    CyclicType,
    /// A message payload would pass the largest bit offset.
    PayloadTooLarge,
    /// A message names no bus while more than one bus exists.
    AmbiguousBus,
    /// Two messages declare one identifier on the same bus.
    DuplicateId,
    /// No free identifier is left for a placeholder.
    IdSpaceExhausted,
    /// A message is given a second role.
    UsageConflict,
}

} // verus!
