//! The kinds of quadruples, their symmetry classes and pairings, and the
//! generators of equivalence that each kind is closed under.
use vstd::prelude::*;
use vstd::string::*;

verus! {

/// The four symmetry classes of quaternion sequences.
#[derive(Clone, Copy, Debug, PartialEq, Eq, Structural)]
pub enum Symmetry {
    I,
    II,
    III,
    IV,
}

/// Which component is grouped with `W` on one side of a join.
#[derive(Clone, Copy, Debug, PartialEq, Eq, Structural)]
pub enum RowsumPairing {
    WX,
    WY,
    WZ,
}

/// The kinds of quadruples that the search knows.
#[derive(Clone, Copy, Debug, PartialEq, Eq, Structural)]
pub enum SequenceType {
    Williamson,
    WilliamsonType,
    QuaternionType,
    ItoType,
    ExtraTypeI,
    ExtraTypeII,
    ExtraTypeIII,
    Hadamard,
}

/// The transformations that map a valid quadruple to another valid quadruple
/// of the same type.
#[derive(Clone, Copy, Debug, PartialEq, Eq, Structural)]
pub enum Generator {
    /// Negate one component, then exchange two components.
    NegateSwap,
    /// Exchange two components.
    Reorder,
    /// Exchange two pairs of components.
    DoubleReorder,
    /// For even lengths, shift one component cyclically by half its length.
    UniformHalfShift,
    /// Shift all components cyclically by the same amount.
    UniformShift,
    /// Reverse all components.
    Reverse,
    /// Negate one component.
    Negate,
    /// Negate two components.
    DoubleNegate,
    /// Negate every other entry of every component.
    AlternatedNegation,
    /// For even lengths, negate every other entry of every component.
    EvenAlternatedNegation,
    /// Reindex every component by `i -> i * k mod n` for a `k` coprime to `n`.
    Automorphism,
    /// Exchange components in two disjoint pairs.
    DisjointSwaps,
}

/// The generators that the type `t` is closed under, in catalogue order.
pub open spec fn generators_of(t: SequenceType) -> Seq<Generator> {
    match t {
        SequenceType::QuaternionType => seq![
            Generator::DoubleNegate,
            Generator::UniformShift,
            Generator::DoubleReorder,
            Generator::EvenAlternatedNegation,
            Generator::Automorphism,
            Generator::Reverse,
            Generator::NegateSwap,
        ],
        SequenceType::WilliamsonType => seq![
            Generator::Negate,
            Generator::UniformShift,
            Generator::Reorder,
            Generator::EvenAlternatedNegation,
            Generator::Automorphism,
            Generator::Reverse,
        ],
        SequenceType::Williamson => seq![
            Generator::Negate,
            Generator::UniformHalfShift,
            Generator::Reorder,
            Generator::EvenAlternatedNegation,
            Generator::Automorphism,
        ],
        SequenceType::Hadamard => seq![Generator::DoubleNegate, Generator::DisjointSwaps],
        _ => Seq::empty(),
    }
}

impl SequenceType {
    /// The generators of equivalence for this type.
    pub fn equivalences(&self) -> (r: Vec<Generator>)
        ensures
            r@ == generators_of(*self),
    {
        let r = match self {
            SequenceType::QuaternionType => vec![
                Generator::DoubleNegate,
                Generator::UniformShift,
                Generator::DoubleReorder,
                Generator::EvenAlternatedNegation,
                Generator::Automorphism,
                Generator::Reverse,
                Generator::NegateSwap,
            ],
            SequenceType::WilliamsonType => vec![
                Generator::Negate,
                Generator::UniformShift,
                Generator::Reorder,
                Generator::EvenAlternatedNegation,
                Generator::Automorphism,
                Generator::Reverse,
            ],
            SequenceType::Williamson => vec![
                Generator::Negate,
                Generator::UniformHalfShift,
                Generator::Reorder,
                Generator::EvenAlternatedNegation,
                Generator::Automorphism,
            ],
            SequenceType::Hadamard => vec![Generator::DoubleNegate, Generator::DisjointSwaps],
            _ => Vec::new(),
        };
        assert(r@ =~= generators_of(*self));
        r
    }

    /// The short name of the type.
    pub fn to_string(&self) -> (r: String)
        ensures
            r@ == short_name(*self),
    {
        match self {
            SequenceType::Williamson => String::from_str("ws"),
            SequenceType::WilliamsonType => String::from_str("wts"),
            SequenceType::QuaternionType => String::from_str("qts"),
            SequenceType::ItoType => String::from_str("its"),
            SequenceType::ExtraTypeI => String::from_str("et1"),
            SequenceType::ExtraTypeII => String::from_str("et2"),
            SequenceType::ExtraTypeIII => String::from_str("et3"),
            SequenceType::Hadamard => String::from_str("hm"),
        }
    }
}

/// The short name of a type.
pub open spec fn short_name(t: SequenceType) -> Seq<char> {
    match t {
        SequenceType::Williamson => "ws"@,
        SequenceType::WilliamsonType => "wts"@,
        SequenceType::QuaternionType => "qts"@,
        SequenceType::ItoType => "its"@,
        SequenceType::ExtraTypeI => "et1"@,
        SequenceType::ExtraTypeII => "et2"@,
        SequenceType::ExtraTypeIII => "et3"@,
        SequenceType::Hadamard => "hm"@,
    }
}

} // verus!
