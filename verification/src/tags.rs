//! Grammatical tags and morphology features, and their packing into integer
//! keys for the statistics tables.
//!
//! The adjacency table is keyed by an ordered pair of (tag, morphology)
//! values and the n-gram table by a sequence of up to four tags; both are
//! packed into a `u64` so the tables can be plain integer-keyed maps.

use vstd::prelude::*;

verus! {

#[derive(PartialEq, Eq, Structural, Copy, Clone, Debug)]
pub enum Gender {
    Fem,
    Masc,
}

#[derive(PartialEq, Eq, Structural, Copy, Clone, Debug)]
pub enum Number {
    Sing,
    Plur,
}

#[derive(PartialEq, Eq, Structural, Copy, Clone, Debug)]
pub enum Person {
    One,
    Two,
    Three,
}

/// Universal part-of-speech tags.
#[derive(PartialEq, Eq, Structural, Copy, Clone, Debug)]
pub enum PosTag {
    ADJ,
    ADP,
    PUNC,
    ADV,
    AUX,
    SYM,
    INTJ,
    CCONJ,
    X,
    NOUN,
    DET,
    PROPN,
    NUM,
    VERB,
    PART,
    PRON,
    SCONJ,
    PUNCT,
    SPACE,
}

/// Up to three independent optional morphology features.
#[derive(PartialEq, Eq, Structural, Copy, Clone, Debug)]
pub struct Morph {
    pub gender: Option<Gender>,
    pub number: Option<Number>,
    pub person: Option<Person>,
}

/// A part-of-speech tag together with one morphology reading.
#[derive(PartialEq, Eq, Structural, Copy, Clone, Debug)]
pub struct PosMorph {
    pub pos: PosTag,
    pub morph: Morph,
}

pub open spec fn spec_pos_tag_code(t: PosTag) -> u64 {
    match t {
        PosTag::ADJ => 0u64,
        PosTag::ADP => 1u64,
        PosTag::PUNC => 2u64,
        PosTag::ADV => 3u64,
        PosTag::AUX => 4u64,
        PosTag::SYM => 5u64,
        PosTag::INTJ => 6u64,
        PosTag::CCONJ => 7u64,
        PosTag::X => 8u64,
        PosTag::NOUN => 9u64,
        PosTag::DET => 10u64,
        PosTag::PROPN => 11u64,
        PosTag::NUM => 12u64,
        PosTag::VERB => 13u64,
        PosTag::PART => 14u64,
        PosTag::PRON => 15u64,
        PosTag::SCONJ => 16u64,
        PosTag::PUNCT => 17u64,
        PosTag::SPACE => 18u64,
    }
}

pub open spec fn spec_morph_code(m: Morph) -> u64 {
    let g: u64 = match m.gender {
        None => 0u64,
        Some(Gender::Fem) => 1u64,
        Some(Gender::Masc) => 2u64,
    };
    let n: u64 = match m.number {
        None => 0u64,
        Some(Number::Sing) => 1u64,
        Some(Number::Plur) => 2u64,
    };
    let p: u64 = match m.person {
        None => 0u64,
        Some(Person::One) => 1u64,
        Some(Person::Two) => 2u64,
        Some(Person::Three) => 3u64,
    };
    (g * 16 + n * 4 + p) as u64
}

/// Packs a (tag, morphology) value into one integer below 19 * 64.
pub open spec fn spec_pos_morph_code(pm: PosMorph) -> u64 {
    (spec_pos_tag_code(pm.pos) * 64 + spec_morph_code(pm.morph)) as u64
}

/// The adjacency-table key of an ordered pair of (tag, morphology) values.
pub open spec fn spec_pair_code(first: PosMorph, second: PosMorph) -> u64 {
    (spec_pos_morph_code(first) * 2048 + spec_pos_morph_code(second)) as u64
}

/// One slot of an n-gram key: 0 for an absent position, the tag code plus
/// one for a present one.
pub open spec fn spec_ngram_slot(t: Option<PosTag>) -> u64 {
    match t {
        None => 0u64,
        Some(tag) => (spec_pos_tag_code(tag) + 1) as u64,
    }
}

/// The n-gram-table key of a tag sequence of length four, absent trailing
/// positions allowed.
pub open spec fn spec_ngram_code(
    t0: Option<PosTag>,
    t1: Option<PosTag>,
    t2: Option<PosTag>,
    t3: Option<PosTag>,
) -> u64 {
    (spec_ngram_slot(t0) * 32768 + spec_ngram_slot(t1) * 1024 + spec_ngram_slot(t2) * 32
        + spec_ngram_slot(t3)) as u64
}

pub fn pos_tag_code(t: PosTag) -> (r: u64)
    ensures
        r == spec_pos_tag_code(t),
{
    match t {
        PosTag::ADJ => 0,
        PosTag::ADP => 1,
        PosTag::PUNC => 2,
        PosTag::ADV => 3,
        PosTag::AUX => 4,
        PosTag::SYM => 5,
        PosTag::INTJ => 6,
        PosTag::CCONJ => 7,
        PosTag::X => 8,
        PosTag::NOUN => 9,
        PosTag::DET => 10,
        PosTag::PROPN => 11,
        PosTag::NUM => 12,
        PosTag::VERB => 13,
        PosTag::PART => 14,
        PosTag::PRON => 15,
        PosTag::SCONJ => 16,
        PosTag::PUNCT => 17,
        PosTag::SPACE => 18,
    }
}

pub fn morph_code(m: Morph) -> (r: u64)
    ensures
        r == spec_morph_code(m),
{
    let g: u64 = match m.gender {
        None => 0,
        Some(Gender::Fem) => 1,
        Some(Gender::Masc) => 2,
    };
    let n: u64 = match m.number {
        None => 0,
        Some(Number::Sing) => 1,
        Some(Number::Plur) => 2,
    };
    let p: u64 = match m.person {
        None => 0,
        Some(Person::One) => 1,
        Some(Person::Two) => 2,
        Some(Person::Three) => 3,
    };
    g * 16 + n * 4 + p
}

pub fn pos_morph_code(pm: PosMorph) -> (r: u64)
    ensures
        r == spec_pos_morph_code(pm),
{
    pos_tag_code(pm.pos) * 64 + morph_code(pm.morph)
}

pub fn pair_code(first: PosMorph, second: PosMorph) -> (r: u64)
    ensures
        r == spec_pair_code(first, second),
{
    pos_morph_code(first) * 2048 + pos_morph_code(second)
}

pub fn ngram_slot(t: Option<PosTag>) -> (r: u64)
    ensures
        r == spec_ngram_slot(t),
{
    match t {
        None => 0,
        Some(tag) => pos_tag_code(tag) + 1,
    }
}

pub fn ngram_code(
    t0: Option<PosTag>,
    t1: Option<PosTag>,
    t2: Option<PosTag>,
    t3: Option<PosTag>,
) -> (r: u64)
    ensures
        r == spec_ngram_code(t0, t1, t2, t3),
{
    ngram_slot(t0) * 32768 + ngram_slot(t1) * 1024 + ngram_slot(t2) * 32 + ngram_slot(t3)
}

} // verus!
