use vstd::prelude::*;
use crate::lexicon::{
    LexiconModel, ER_SOUND, LoadFault, appended, load_spec, sounds_by_word, words_by_sound, resolve_spec, candidates, candidates_from, first_qualifying,
    qualifies_spec, homophones, ends_with,
};
use crate::text::lower_of;

verus! {

/// Resolving a word twice against the same lexicon gives the same result.
pub proof fn law_resolve_deterministic(m: LexiconModel, w: Seq<char>, r1: Option<Seq<char>>, r2: Option<Seq<char>>)
    requires
        r1 == resolve_spec(m, lower_of(w)),
        r2 == resolve_spec(m, lower_of(w)),
    ensures
        r1 == r2,
{
}

/// Two spellings of a word that lowercase alike resolve alike.
pub proof fn law_case_insensitive(m: LexiconModel, a: Seq<char>, b: Seq<char>)
    requires
        lower_of(a) == lower_of(b),
    ensures
        resolve_spec(m, lower_of(a)) == resolve_spec(m, lower_of(b)),
{
}

/// A word without pronunciations has no pun.
pub proof fn law_unknown_word(m: LexiconModel, w: Seq<char>)
    requires
        !m.sounds.contains_key(w),
    ensures
        resolve_spec(m, w) is None,
{
}

proof fn lemma_no_suffix_no_candidates(m: LexiconModel, ps: Seq<Seq<char>>, suffix: char)
    requires
        forall|i: int| 0 <= i < ps.len() ==> !ends_with(#[trigger] ps[i], suffix),
    ensures
        candidates_from(m, ps, suffix) == Seq::<Seq<char>>::empty(),
    decreases ps.len(),
{
    if ps.len() > 0 {
        let init = ps.drop_last();
        assert forall|i: int| 0 <= i < init.len() implies !ends_with(#[trigger] init[i], suffix) by {
            assert(init[i] == ps[i]);
        }
        lemma_no_suffix_no_candidates(m, init, suffix);
        assert(!ends_with(ps[ps.len() - 1], suffix));
        assert(candidates_from(m, ps, suffix) =~= Seq::<Seq<char>>::empty());
    }
}

/// A word none of whose pronunciations ends in the "er" sound has no pun.
pub proof fn law_suffix_necessity(m: LexiconModel, w: Seq<char>)
    requires
        m.sounds.contains_key(w) ==> forall|i: int|
            0 <= i < m.sounds[w].len() ==> !ends_with(#[trigger] m.sounds[w][i], ER_SOUND),
    ensures
        resolve_spec(m, w) is None,
{
    if m.sounds.contains_key(w) {
        lemma_no_suffix_no_candidates(m, m.sounds[w], ER_SOUND);
    }
}

/// What `first_qualifying` returns: the earliest qualifying candidate, or
/// nothing when none qualifies.
pub proof fn law_first_qualifying(m: LexiconModel, cs: Seq<Seq<char>>)
    ensures
        match first_qualifying(m, cs) {
            Some(x) => exists|i: int|
                0 <= i < cs.len() && cs[i] == x && qualifies_spec(m, x) && forall|j: int|
                    0 <= j < i ==> !qualifies_spec(m, #[trigger] cs[j]),
            None => forall|i: int| 0 <= i < cs.len() ==> !qualifies_spec(m, #[trigger] cs[i]),
        },
    decreases cs.len(),
{
    if cs.len() > 0 {
        let rest = cs.drop_first();
        law_first_qualifying(m, rest);
        if !qualifies_spec(m, cs[0]) {
            match first_qualifying(m, rest) {
                Some(x) => {
                    let k = choose|k: int|
                        0 <= k < rest.len() && rest[k] == x && qualifies_spec(m, x) && forall|j: int|
                            0 <= j < k ==> !qualifies_spec(m, #[trigger] rest[j]);
                    assert(cs[k + 1] == x);
                    assert forall|j: int| 0 <= j < k + 1 implies !qualifies_spec(m, #[trigger] cs[j]) by {
                        if j > 0 {
                            assert(cs[j] == rest[j - 1]);
                        }
                    }
                },
                None => {
                    assert forall|i: int| 0 <= i < cs.len() implies !qualifies_spec(m, #[trigger] cs[i]) by {
                        if i > 0 {
                            assert(cs[i] == rest[i - 1]);
                        }
                    }
                },
            }
        } else {
            assert(cs[0] == cs[0]);
        }
    }
}

/// The pun for a word is a word with a transitive-verb or participle tag:
/// a homophone with other tags only is never returned.
pub proof fn law_grammatical_gating(m: LexiconModel, w: Seq<char>)
    ensures
        resolve_spec(m, w) matches Some(x) ==> qualifies_spec(m, x),
{
    law_first_qualifying(m, candidates(m, w, ER_SOUND));
}

/// The pun for a word is the first qualifying candidate in stored order, even
/// where later candidates qualify too; no pun when none qualifies.
pub proof fn law_first_match(m: LexiconModel, w: Seq<char>)
    ensures
        match resolve_spec(m, w) {
            Some(x) => exists|i: int|
                0 <= i < candidates(m, w, ER_SOUND).len() && candidates(m, w, ER_SOUND)[i] == x
                    && qualifies_spec(m, x) && forall|j: int|
                    0 <= j < i ==> !qualifies_spec(m, #[trigger] candidates(m, w, ER_SOUND)[j]),
            None => forall|i: int|
                0 <= i < candidates(m, w, ER_SOUND).len() ==> !qualifies_spec(
                    m,
                    #[trigger] candidates(m, w, ER_SOUND)[i],
                ),
        },
{
    law_first_qualifying(m, candidates(m, w, ER_SOUND));
}

/// The candidates of a run of pronunciations are those of its first part
/// followed by those of the rest: pronunciations are taken in stored order.
pub proof fn law_candidates_concatenate(m: LexiconModel, a: Seq<Seq<char>>, b: Seq<Seq<char>>, suffix: char)
    ensures
        candidates_from(m, a + b, suffix) == candidates_from(m, a, suffix) + candidates_from(m, b, suffix),
    decreases b.len(),
{
    if b.len() == 0 {
        assert(a + b =~= a);
        assert(candidates_from(m, a, suffix) + candidates_from(m, b, suffix) =~= candidates_from(m, a, suffix));
    } else {
        law_candidates_concatenate(m, a, b.drop_last(), suffix);
        assert((a + b).drop_last() =~= a + b.drop_last());
        assert((a + b).last() == b.last());
        let tail = if ends_with(b.last(), suffix) {
            homophones(m, b.last().drop_last())
        } else {
            seq![]
        };
        assert(candidates_from(m, a, suffix) + candidates_from(m, b.drop_last(), suffix) + tail
            =~= candidates_from(m, a, suffix) + (candidates_from(m, b.drop_last(), suffix) + tail));
    }
}

/// A pronunciation that does not end in the "er" sound does not stop the
/// search: with two pronunciations of which only the second ends in it, the
/// candidates are the homophones of the second without it.
pub proof fn law_multi_pronunciation(m: LexiconModel, w: Seq<char>, p1: Seq<char>, p2: Seq<char>)
    requires
        m.sounds.contains_key(w),
        m.sounds[w] == seq![p1, p2],
        !ends_with(p1, ER_SOUND),
        ends_with(p2, ER_SOUND),
    ensures
        candidates(m, w, ER_SOUND) == homophones(m, p2.drop_last()),
{
    let ps = seq![p1, p2];
    assert(ps.drop_last() == seq![p1]);
    assert(seq![p1][0] == p1);
    lemma_no_suffix_no_candidates(m, seq![p1], ER_SOUND);
    assert(candidates_from(m, ps, ER_SOUND) =~= homophones(m, p2.drop_last()));
}

/// Some entry of `es` pairs the lowercased `w` with `p`.
pub open spec fn pairs(es: Seq<(Seq<char>, Seq<char>)>, w: Seq<char>, p: Seq<char>) -> bool {
    exists|i: int| 0 <= i < es.len() && lower_of(#[trigger] es[i].0) == w && es[i].1 == p
}

proof fn lemma_pairs_last(es: Seq<(Seq<char>, Seq<char>)>, w: Seq<char>, p: Seq<char>)
    requires
        es.len() > 0,
    ensures
        pairs(es, w, p) <==> (pairs(es.drop_last(), w, p) || (lower_of(es.last().0) == w
            && es.last().1 == p)),
{
    let init = es.drop_last();
    if pairs(init, w, p) {
        let i = choose|i: int| 0 <= i < init.len() && lower_of(#[trigger] init[i].0) == w && init[i].1 == p;
        assert(es[i] == init[i]);
    }
    if lower_of(es.last().0) == w && es.last().1 == p {
        assert(lower_of(es[es.len() - 1].0) == w);
    }
    if pairs(es, w, p) {
        let i = choose|i: int| 0 <= i < es.len() && lower_of(#[trigger] es[i].0) == w && es[i].1 == p;
        if i < es.len() - 1 {
            assert(init[i] == es[i]);
        }
    }
}

proof fn lemma_appended_lists(m: Map<Seq<char>, Seq<Seq<char>>>, k: Seq<char>, v: Seq<char>, key: Seq<char>, x: Seq<char>)
    ensures
        (appended(m, k, v).contains_key(key) && appended(m, k, v)[key].contains(x)) <==> ((
        m.contains_key(key) && m[key].contains(x)) || (k == key && v == x)),
{
    if k == key {
        let old_list = if m.contains_key(k) { m[k] } else { seq![] };
        let l = old_list.push(v);
        assert(l[old_list.len() as int] == v);
        if l.contains(x) {
            let j = choose|j: int| 0 <= j < l.len() && l[j] == x;
            if j < old_list.len() {
                assert(old_list[j] == x);
            }
        }
        if m.contains_key(key) && m[key].contains(x) {
            let j = choose|j: int| 0 <= j < m[key].len() && m[key][j] == x;
            assert(l[j] == x);
        }
    }
}

proof fn lemma_sounds_by_word_lists(es: Seq<(Seq<char>, Seq<char>)>, w: Seq<char>, p: Seq<char>)
    ensures
        (sounds_by_word(es).contains_key(w) && sounds_by_word(es)[w].contains(p)) <==> pairs(es, w, p),
    decreases es.len(),
{
    if es.len() > 0 {
        lemma_sounds_by_word_lists(es.drop_last(), w, p);
        lemma_pairs_last(es, w, p);
        lemma_appended_lists(sounds_by_word(es.drop_last()), lower_of(es.last().0), es.last().1, w, p);
    }
}

proof fn lemma_words_by_sound_lists(es: Seq<(Seq<char>, Seq<char>)>, w: Seq<char>, p: Seq<char>)
    ensures
        (words_by_sound(es).contains_key(p) && words_by_sound(es)[p].contains(w)) <==> pairs(es, w, p),
    decreases es.len(),
{
    if es.len() > 0 {
        lemma_words_by_sound_lists(es.drop_last(), w, p);
        lemma_pairs_last(es, w, p);
        lemma_appended_lists(words_by_sound(es.drop_last()), es.last().1, lower_of(es.last().0), p, w);
    }
}

/// In a loaded lexicon the two pronunciation maps agree: word `w` lists
/// pronunciation `p` exactly when `p` lists `w`.
pub proof fn law_maps_consistent(a: Seq<char>, b: Seq<char>, m: LexiconModel, w: Seq<char>, p: Seq<char>)
    requires
        load_spec(a, b) == Ok::<LexiconModel, LoadFault>(m),
    ensures
        (m.sounds.contains_key(w) && m.sounds[w].contains(p)) <==> (m.words.contains_key(p)
            && m.words[p].contains(w)),
{
    let es = crate::lexicon::pron_entries(crate::text::lines_of(a))->Ok_0;
    lemma_sounds_by_word_lists(es, w, p);
    lemma_words_by_sound_lists(es, w, p);
}

} // verus!
