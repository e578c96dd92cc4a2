use vstd::prelude::*;

verus! {

/// A grammatical category of the part-of-speech lexicon.
#[derive(Clone, Copy, Debug, PartialEq, Eq, Structural)]
pub enum PartOfSpeech {
    Noun,
    Plural,
    NounPhrase,
    VerbUsuParticiple,
    VerbTransitive,
    VerbIntransitive,
    Adjective,
    Adverb,
    Conjunction,
    Preposition,
    Interjection,
    Pronoun,
    DefiniteArticle,
    IndefiniteArticle,
    Nominative,
    E,
}

/// The part of speech that a code character of the lexicon stands for.
pub open spec fn code_of(c: char) -> Option<PartOfSpeech> {
    if c == 'N' {
        Some(PartOfSpeech::Noun)
    } else if c == 'p' {
        Some(PartOfSpeech::Plural)
    } else if c == 'h' {
        Some(PartOfSpeech::NounPhrase)
    } else if c == 'V' {
        Some(PartOfSpeech::VerbUsuParticiple)
    } else if c == 't' {
        Some(PartOfSpeech::VerbTransitive)
    } else if c == 'i' {
        Some(PartOfSpeech::VerbIntransitive)
    } else if c == 'A' {
        Some(PartOfSpeech::Adjective)
    } else if c == 'v' {
        Some(PartOfSpeech::Adverb)
    } else if c == 'C' {
        Some(PartOfSpeech::Conjunction)
    } else if c == 'P' {
        Some(PartOfSpeech::Preposition)
    } else if c == '!' {
        Some(PartOfSpeech::Interjection)
    } else if c == 'r' {
        Some(PartOfSpeech::Pronoun)
    } else if c == 'D' {
        Some(PartOfSpeech::DefiniteArticle)
    } else if c == 'I' {
        Some(PartOfSpeech::IndefiniteArticle)
    } else if c == 'o' {
        Some(PartOfSpeech::Nominative)
    } else if c == 'e' {
        Some(PartOfSpeech::E)
    } else {
        None
    }
}

impl PartOfSpeech {
    /// Decodes one code character; `None` for a character outside the code alphabet.
    pub fn from_code(c: char) -> (r: Option<PartOfSpeech>)
        ensures
            r == code_of(c),
    {
        match c {
            'N' => Some(PartOfSpeech::Noun),
            'p' => Some(PartOfSpeech::Plural),
            'h' => Some(PartOfSpeech::NounPhrase),
            'V' => Some(PartOfSpeech::VerbUsuParticiple),
            't' => Some(PartOfSpeech::VerbTransitive),
            'i' => Some(PartOfSpeech::VerbIntransitive),
            'A' => Some(PartOfSpeech::Adjective),
            'v' => Some(PartOfSpeech::Adverb),
            'C' => Some(PartOfSpeech::Conjunction),
            'P' => Some(PartOfSpeech::Preposition),
            '!' => Some(PartOfSpeech::Interjection),
            'r' => Some(PartOfSpeech::Pronoun),
            'D' => Some(PartOfSpeech::DefiniteArticle),
            'I' => Some(PartOfSpeech::IndefiniteArticle),
            'o' => Some(PartOfSpeech::Nominative),
            'e' => Some(PartOfSpeech::E),
            _ => None,
        }
    }
}

/// The parts of speech that a run of code characters stands for, or the first
/// character that stands for none.
pub open spec fn decode_spec(cs: Seq<char>) -> Result<Seq<PartOfSpeech>, char>
    decreases cs.len(),
{
    if cs.len() == 0 {
        Ok(seq![])
    } else {
        match decode_spec(cs.drop_last()) {
            Err(c) => Err(c),
            Ok(ps) => match code_of(cs.last()) {
                None => Err(cs.last()),
                Some(p) => Ok(ps.push(p)),
            },
        }
    }
}

/// The tags through which a word can stand in a pun: a transitive verb, or a
/// verb used mostly as a participle.
pub open spec fn is_qualifying(p: PartOfSpeech) -> bool {
    p == PartOfSpeech::VerbTransitive || p == PartOfSpeech::VerbUsuParticiple
}

/// Decodes each character of `cs`; on the first that is no code, that character.
pub fn decode_codes(cs: &Vec<char>) -> (r: Result<Vec<PartOfSpeech>, char>)
    ensures
        match r {
            Ok(ps) => decode_spec(cs@) == Ok::<Seq<PartOfSpeech>, char>(ps@),
            Err(c) => decode_spec(cs@) == Err::<Seq<PartOfSpeech>, char>(c),
        },
{
    let mut ps: Vec<PartOfSpeech> = Vec::new();
    let mut i: usize = 0;
    while i < cs.len()
        invariant
            i <= cs.len(),
            decode_spec(cs@.subrange(0, i as int)) == Ok::<Seq<PartOfSpeech>, char>(ps@),
        decreases cs.len() - i,
    {
        let c = cs[i];
        proof {
            assert(cs@.subrange(0, i + 1).drop_last() =~= cs@.subrange(0, i as int));
            assert(cs@.subrange(0, i + 1).last() == c);
        }
        match PartOfSpeech::from_code(c) {
            None => {
                proof {
                    lemma_decode_prefix_err(cs@, i + 1, c);
                }
                return Err(c);
            },
            Some(p) => {
                ps.push(p);
            },
        }
        i += 1;
    }
    assert(cs@.subrange(0, cs@.len() as int) =~= cs@);
    Ok(ps)
}

/// A failure in a prefix is the failure of the whole run.
proof fn lemma_decode_prefix_err(cs: Seq<char>, n: int, c: char)
    requires
        0 <= n <= cs.len(),
        decode_spec(cs.subrange(0, n)) == Err::<Seq<PartOfSpeech>, char>(c),
    ensures
        decode_spec(cs) == Err::<Seq<PartOfSpeech>, char>(c),
    decreases cs.len() - n,
{
    if n == cs.len() {
        assert(cs.subrange(0, n) =~= cs);
    } else {
        assert(cs.subrange(0, n + 1).drop_last() =~= cs.subrange(0, n));
        lemma_decode_prefix_err(cs, n + 1, c);
    }
}

} // verus!
