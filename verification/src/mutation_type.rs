//! The closed taxonomy of mutation consequences.

use vstd::prelude::*;

verus! {

/// Consequence class of a point mutation or indel, with a stable numeric
/// code used by the possible-mutations artifact and a stable display name
/// used by the tabular artifacts.
#[derive(Clone, Copy, Debug, PartialEq, Eq, Structural, Hash)]
pub enum MutationType {
    Unknown,
    Synonymous,
    Missense,
    Nonsense,
    StartCodon,
    StopLoss,
    SpliceSite,
    Intronic,
    InFrameIndel,
    FrameshiftIndel,
}

impl MutationType {
    /// Numeric code of this class in the binary-efficient on-disk format.
    pub open spec fn spec_code(self) -> u8 {
        match self {
            MutationType::Unknown => 0,
            MutationType::Synonymous => 1,
            MutationType::Missense => 2,
            MutationType::Nonsense => 3,
            MutationType::StartCodon => 4,
            MutationType::StopLoss => 5,
            MutationType::SpliceSite => 6,
            MutationType::Intronic => 7,
            MutationType::InFrameIndel => 8,
            MutationType::FrameshiftIndel => 9,
        }
    }

    pub fn code(self) -> (r: u8)
        ensures
            r == self.spec_code(),
    {
        match self {
            MutationType::Unknown => 0,
            MutationType::Synonymous => 1,
            MutationType::Missense => 2,
            MutationType::Nonsense => 3,
            MutationType::StartCodon => 4,
            MutationType::StopLoss => 5,
            MutationType::SpliceSite => 6,
            MutationType::Intronic => 7,
            MutationType::InFrameIndel => 8,
            MutationType::FrameshiftIndel => 9,
        }
    }

    /// The class a numeric code denotes; codes outside the taxonomy fall
    /// back to `Unknown`.
    pub open spec fn spec_from_code(c: u8) -> MutationType {
        match c {
            1u8 => MutationType::Synonymous,
            2u8 => MutationType::Missense,
            3u8 => MutationType::Nonsense,
            4u8 => MutationType::StartCodon,
            5u8 => MutationType::StopLoss,
            6u8 => MutationType::SpliceSite,
            7u8 => MutationType::Intronic,
            8u8 => MutationType::InFrameIndel,
            9u8 => MutationType::FrameshiftIndel,
            _ => MutationType::Unknown,
        }
    }

    pub fn from_code(c: u8) -> (r: MutationType)
        ensures
            r == MutationType::spec_from_code(c),
    {
        match c {
            1u8 => MutationType::Synonymous,
            2u8 => MutationType::Missense,
            3u8 => MutationType::Nonsense,
            4u8 => MutationType::StartCodon,
            5u8 => MutationType::StopLoss,
            6u8 => MutationType::SpliceSite,
            7u8 => MutationType::Intronic,
            8u8 => MutationType::InFrameIndel,
            9u8 => MutationType::FrameshiftIndel,
            _ => MutationType::Unknown,
        }
    }

    /// Display name of this class, as the tabular artifacts spell it.
    pub open spec fn spec_name(self) -> Seq<u8> {
        match self {
            MutationType::Unknown => seq![('u' as u8), ('n' as u8), ('k' as u8), ('n' as u8), ('o' as u8), ('w' as u8), ('n' as u8)],
            MutationType::Synonymous => seq![
                ('s' as u8), ('y' as u8), ('n' as u8), ('o' as u8), ('n' as u8), ('y' as u8), ('m' as u8), ('o' as u8), ('u' as u8), ('s' as u8),
            ],
            MutationType::Missense => seq![('m' as u8), ('i' as u8), ('s' as u8), ('s' as u8), ('e' as u8), ('n' as u8), ('s' as u8), ('e' as u8)],
            MutationType::Nonsense => seq![('n' as u8), ('o' as u8), ('n' as u8), ('s' as u8), ('e' as u8), ('n' as u8), ('s' as u8), ('e' as u8)],
            MutationType::StartCodon => seq![
                ('s' as u8), ('t' as u8), ('a' as u8), ('r' as u8), ('t' as u8), ('_' as u8), ('c' as u8), ('o' as u8), ('d' as u8), ('o' as u8), ('n' as u8),
            ],
            MutationType::StopLoss => seq![('s' as u8), ('t' as u8), ('o' as u8), ('p' as u8), ('_' as u8), ('l' as u8), ('o' as u8), ('s' as u8), ('s' as u8)],
            MutationType::SpliceSite => seq![
                ('s' as u8), ('p' as u8), ('l' as u8), ('i' as u8), ('c' as u8), ('e' as u8), ('_' as u8), ('s' as u8), ('i' as u8), ('t' as u8), ('e' as u8),
            ],
            MutationType::Intronic => seq![('i' as u8), ('n' as u8), ('t' as u8), ('r' as u8), ('o' as u8), ('n' as u8), ('i' as u8), ('c' as u8)],
            MutationType::InFrameIndel => seq![
                ('i' as u8), ('n' as u8), ('f' as u8), ('r' as u8), ('a' as u8), ('m' as u8), ('e' as u8), ('_' as u8), ('i' as u8), ('n' as u8), ('d' as u8), ('e' as u8), ('l' as u8),
            ],
            MutationType::FrameshiftIndel => seq![
                ('f' as u8), ('r' as u8), ('a' as u8), ('m' as u8), ('e' as u8), ('s' as u8), ('h' as u8), ('i' as u8), ('f' as u8), ('t' as u8), ('_' as u8), ('i' as u8), ('n' as u8), ('d' as u8),
                ('e' as u8), ('l' as u8),
            ],
        }
    }

    pub fn name(self) -> (r: Vec<u8>)
        ensures
            r@ == self.spec_name(),
    {
        let mut r: Vec<u8> = Vec::new();
        match self {
            MutationType::Unknown => {
                r.push(('u' as u8));
                r.push(('n' as u8));
                r.push(('k' as u8));
                r.push(('n' as u8));
                r.push(('o' as u8));
                r.push(('w' as u8));
                r.push(('n' as u8));
            },
            MutationType::Synonymous => {
                r.push(('s' as u8));
                r.push(('y' as u8));
                r.push(('n' as u8));
                r.push(('o' as u8));
                r.push(('n' as u8));
                r.push(('y' as u8));
                r.push(('m' as u8));
                r.push(('o' as u8));
                r.push(('u' as u8));
                r.push(('s' as u8));
            },
            MutationType::Missense => {
                r.push(('m' as u8));
                r.push(('i' as u8));
                r.push(('s' as u8));
                r.push(('s' as u8));
                r.push(('e' as u8));
                r.push(('n' as u8));
                r.push(('s' as u8));
                r.push(('e' as u8));
            },
            MutationType::Nonsense => {
                r.push(('n' as u8));
                r.push(('o' as u8));
                r.push(('n' as u8));
                r.push(('s' as u8));
                r.push(('e' as u8));
                r.push(('n' as u8));
                r.push(('s' as u8));
                r.push(('e' as u8));
            },
            MutationType::StartCodon => {
                r.push(('s' as u8));
                r.push(('t' as u8));
                r.push(('a' as u8));
                r.push(('r' as u8));
                r.push(('t' as u8));
                r.push(('_' as u8));
                r.push(('c' as u8));
                r.push(('o' as u8));
                r.push(('d' as u8));
                r.push(('o' as u8));
                r.push(('n' as u8));
            },
            MutationType::StopLoss => {
                r.push(('s' as u8));
                r.push(('t' as u8));
                r.push(('o' as u8));
                r.push(('p' as u8));
                r.push(('_' as u8));
                r.push(('l' as u8));
                r.push(('o' as u8));
                r.push(('s' as u8));
                r.push(('s' as u8));
            },
            MutationType::SpliceSite => {
                r.push(('s' as u8));
                r.push(('p' as u8));
                r.push(('l' as u8));
                r.push(('i' as u8));
                r.push(('c' as u8));
                r.push(('e' as u8));
                r.push(('_' as u8));
                r.push(('s' as u8));
                r.push(('i' as u8));
                r.push(('t' as u8));
                r.push(('e' as u8));
            },
            MutationType::Intronic => {
                r.push(('i' as u8));
                r.push(('n' as u8));
                r.push(('t' as u8));
                r.push(('r' as u8));
                r.push(('o' as u8));
                r.push(('n' as u8));
                r.push(('i' as u8));
                r.push(('c' as u8));
            },
            MutationType::InFrameIndel => {
                r.push(('i' as u8));
                r.push(('n' as u8));
                r.push(('f' as u8));
                r.push(('r' as u8));
                r.push(('a' as u8));
                r.push(('m' as u8));
                r.push(('e' as u8));
                r.push(('_' as u8));
                r.push(('i' as u8));
                r.push(('n' as u8));
                r.push(('d' as u8));
                r.push(('e' as u8));
                r.push(('l' as u8));
            },
            MutationType::FrameshiftIndel => {
                r.push(('f' as u8));
                r.push(('r' as u8));
                r.push(('a' as u8));
                r.push(('m' as u8));
                r.push(('e' as u8));
                r.push(('s' as u8));
                r.push(('h' as u8));
                r.push(('i' as u8));
                r.push(('f' as u8));
                r.push(('t' as u8));
                r.push(('_' as u8));
                r.push(('i' as u8));
                r.push(('n' as u8));
                r.push(('d' as u8));
                r.push(('e' as u8));
                r.push(('l' as u8));
            },
        }
        proof {
            assert(r@ =~= self.spec_name());
        }
        r
    }

    /// Two classes with the same code are the same class.
    pub proof fn lemma_code_injective(a: MutationType, b: MutationType)
        requires
            a.spec_code() == b.spec_code(),
        ensures
            a == b,
    {
    }

    /// The canonical order of the taxonomy: every class once, by code.
    pub open spec fn spec_canonical_order() -> Seq<MutationType> {
        seq![
            MutationType::Unknown,
            MutationType::Synonymous,
            MutationType::Missense,
            MutationType::Nonsense,
            MutationType::StartCodon,
            MutationType::StopLoss,
            MutationType::SpliceSite,
            MutationType::Intronic,
            MutationType::InFrameIndel,
            MutationType::FrameshiftIndel,
        ]
    }

    pub fn iter() -> (r: Vec<MutationType>)
        ensures
            r@ == MutationType::spec_canonical_order(),
    {
        let mut r: Vec<MutationType> = Vec::new();
        r.push(MutationType::Unknown);
        r.push(MutationType::Synonymous);
        r.push(MutationType::Missense);
        r.push(MutationType::Nonsense);
        r.push(MutationType::StartCodon);
        r.push(MutationType::StopLoss);
        r.push(MutationType::SpliceSite);
        r.push(MutationType::Intronic);
        r.push(MutationType::InFrameIndel);
        r.push(MutationType::FrameshiftIndel);
        proof {
            assert(r@ =~= MutationType::spec_canonical_order());
        }
        r
    }
}

} // verus!
