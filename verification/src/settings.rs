//! Decisions that a run makes from its settings.

use vstd::prelude::*;
use vstd::arithmetic::div_mod::*;
use crate::topk::TOP_K;

verus! {

/// Sets the queries of a seed apart from its references.
pub const QUERY_SEED: u64 = 0xa076_1d64_78bd_642f;

/// The settings that are checked before a run.
#[derive(Clone, Copy, Debug, PartialEq, Eq, Structural)]
pub struct Settings {
    pub references: usize,
    pub queries: usize,
    pub iterations: usize,
    pub api_instances: usize,
    /// The memory limit in megabytes, as the encoding of a binary64 value.
    pub memory_limit_bits: u64,
}

/// Which setting cannot be run with.
#[derive(Clone, Copy, Debug, PartialEq, Eq, Structural)]
pub enum SettingsError {
    TooFewReferences,
    TooManyReferences,
    NoQueries,
    NoIterations,
    TooFewInstances,
    NoMemory,
}

/// Whether a binary64 encoding stands for a number that is zero or negative.
pub open spec fn at_most_zero(bits: u64) -> bool {
    bits == 0 || 0x8000_0000_0000_0000 <= bits <= 0xfff0_0000_0000_0000
}

/// The first setting that cannot be run with, if there is one.
pub open spec fn settings_error(s: Settings) -> Option<SettingsError> {
    if s.references < TOP_K {
        Some(SettingsError::TooFewReferences)
    } else if s.references > u32::MAX {
        Some(SettingsError::TooManyReferences)
    } else if s.queries == 0 {
        Some(SettingsError::NoQueries)
    } else if s.iterations == 0 {
        Some(SettingsError::NoIterations)
    } else if s.api_instances < 2 {
        Some(SettingsError::TooFewInstances)
    } else if at_most_zero(s.memory_limit_bits) {
        Some(SettingsError::NoMemory)
    } else {
        None
    }
}

/// Checks the settings of a run.
pub fn validate_args(settings: &Settings) -> (r: Result<(), SettingsError>)
    ensures
        match settings_error(*settings) {
            None => r == Ok::<(), SettingsError>(()),
            Some(error) => r == Err::<(), SettingsError>(error),
        },
{
    if settings.references < TOP_K {
        return Err(SettingsError::TooFewReferences);
    }
    if settings.references as u64 > u32::MAX as u64 {
        return Err(SettingsError::TooManyReferences);
    }
    if settings.queries == 0 {
        return Err(SettingsError::NoQueries);
    }
    if settings.iterations == 0 {
        return Err(SettingsError::NoIterations);
    }
    if settings.api_instances < 2 {
        return Err(SettingsError::TooFewInstances);
    }
    let bits: u64 = settings.memory_limit_bits;
    if bits == 0 || (0x8000_0000_0000_0000 <= bits && bits <= 0xfff0_0000_0000_0000) {
        return Err(SettingsError::NoMemory);
    }
    Ok(())
}

/// Where data comes from.
#[derive(Clone, Copy, Debug, PartialEq, Eq, Structural)]
pub enum Source {
    /// The named file.
    File,
    /// The defaults, or the generator.
    BuiltIn,
    /// Nowhere: the file is required and does not exist.
    Missing,
}

/// Where data comes from that a file may hold.
pub open spec fn source_of(force_generate: bool, present: bool, required: bool) -> Source {
    if !present && required {
        Source::Missing
    } else if present && !force_generate {
        Source::File
    } else {
        Source::BuiltIn
    }
}

/// Data is missing exactly where its file is required and does not exist, comes
/// from the file only where that exists, and then unless it is to be generated.
pub proof fn law_sources(force_generate: bool, present: bool, required: bool)
    ensures
        source_of(force_generate, present, required) == Source::Missing <==> required && !present,
        source_of(force_generate, present, required) == Source::File <==> present
            && !force_generate,
        source_of(force_generate, present, required) == Source::BuiltIn <==> (present
            && force_generate) || (!present && !required),
{
}

/// Where a resource comes from: its file where that exists, and the defaults
/// unless the file is required.
pub fn resource_source(present: bool, required: bool) -> (r: Source)
    ensures
        r == if present {
            Source::File
        } else if required {
            Source::Missing
        } else {
            Source::BuiltIn
        },
        r == source_of(false, present, required),
{
    if present {
        Source::File
    } else if required {
        Source::Missing
    } else {
        Source::BuiltIn
    }
}

/// Where the references come from: nowhere where their file is required and does
/// not exist; else the file, unless generated ones are forced.
pub fn reference_source(force_generate: bool, present: bool, required: bool) -> (r: Source)
    ensures
        r == if !present && required {
            Source::Missing
        } else if present && !force_generate {
            Source::File
        } else {
            Source::BuiltIn
        },
        r == source_of(force_generate, present, required),
{
    if !present && required {
        Source::Missing
    } else if present && !force_generate {
        Source::File
    } else {
        Source::BuiltIn
    }
}

/// How many queries are to be validated.
pub fn validation_count(skip_validate: bool, validate_queries: usize) -> (r: usize)
    ensures
        r == if skip_validate {
            0
        } else {
            validate_queries
        },
{
    if skip_validate {
        0
    } else {
        validate_queries
    }
}

/// The seed of the queries that go with the references of a seed.
pub open spec fn seed_of_queries(seed: u64) -> u64 {
    seed ^ QUERY_SEED
}

/// Queries are drawn from another seed than their references, and from different
/// ones for different references.
pub proof fn law_query_seeds(a: u64, b: u64)
    ensures
        seed_of_queries(0) == 0xa076_1d64_78bd_642f,
        seed_of_queries(a) != a,
        seed_of_queries(seed_of_queries(a)) == a,
        seed_of_queries(a) ^ seed_of_queries(b) == a ^ b,
{
    assert(0u64 ^ 0xa076_1d64_78bd_642fu64 == 0xa076_1d64_78bd_642fu64) by (bit_vector);
    assert(a ^ 0xa076_1d64_78bd_642fu64 != a) by (bit_vector);
    assert((a ^ 0xa076_1d64_78bd_642fu64) ^ 0xa076_1d64_78bd_642fu64 == a) by (bit_vector);
    assert((a ^ 0xa076_1d64_78bd_642fu64) ^ (b ^ 0xa076_1d64_78bd_642fu64) == a ^ b)
        by (bit_vector);
}

/// The seed of the queries that go with the references of a seed.
pub fn query_seed(seed: u64) -> (r: u64)
    ensures
        r == seed ^ QUERY_SEED,
        r == seed_of_queries(seed),
{
    seed ^ QUERY_SEED
}

/// Whose turn it is in iteration `i`, where `count` take turns.
pub open spec fn turn(i: int, count: int) -> int {
    i % count
}

/// The first iterations take one query each in order, and then they come round.
pub proof fn law_turns_come_round(i: int, count: int)
    requires
        0 <= i,
        0 < count,
    ensures
        i < count ==> turn(i, count) == i,
        turn(i + count, count) == turn(i, count),
        0 <= turn(i, count) < count,
{
    lemma_mod_bound(i, count);
    lemma_mod_add_multiples_vanish(i, count);
    if i < count {
        lemma_small_mod(i as nat, count as nat);
    }
}

/// The query of iteration `i`, where `count` queries take turns.
pub fn query_of_turn(i: usize, count: usize) -> (r: usize)
    requires
        count > 0,
    ensures
        r == i as int % count as int,
        r == turn(i as int, count as int),
        r < count,
{
    i % count
}

/// Settings can be run with exactly where five references or more, countable in 32
/// bits, a query, an iteration, two instances and a memory limit that is not zero
/// or negative are set; else the first of them that is not is named.
pub proof fn law_settings_are_checked(s: Settings)
    ensures
        ({
            let enough = 5 <= s.references;
            let countable = s.references <= 0xffff_ffff;
            let magnitude = s.memory_limit_bits as int % 0x8000_0000_0000_0000;
            let negative = s.memory_limit_bits as int >= 0x8000_0000_0000_0000;
            let no_number = magnitude > 0x7ff0_0000_0000_0000;
            let memory = no_number || magnitude != 0 && !negative;
            let error = settings_error(s);
            &&& error is None <==> enough && countable && 1 <= s.queries && 1 <= s.iterations && 2
                <= s.api_instances && memory
            &&& error == Some(SettingsError::TooFewReferences) <==> !enough
            &&& error == Some(SettingsError::TooManyReferences) <==> !countable
            &&& error == Some(SettingsError::NoQueries) ==> s.queries == 0
            &&& error == Some(SettingsError::NoIterations) ==> s.iterations == 0 && 1 <= s.queries
            &&& error == Some(SettingsError::TooFewInstances) ==> s.api_instances <= 1 && 1
                <= s.iterations
            &&& error == Some(SettingsError::NoMemory) ==> !memory && 2 <= s.api_instances
        }),
{
}

} // verus!
