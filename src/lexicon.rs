use vstd::prelude::*;
use vstd::hash_map::StringHashMap;
use crate::part_of_speech::{PartOfSpeech, decode_spec, decode_codes, is_qualifying};
use crate::text::{
    lower_of, lowercase, chars_of, string_of, strip_last, lines_of, line_views, first_pos,
    split_lines, find_char, copy_range,
};

verus! {

/// Why a lexicon could not be loaded; lines are numbered from 1.
pub enum LoadFault {
    MissingTab(int),
    MissingSlashes(int),
    MissingDelimiter(int),
    UnknownCode(int, Seq<char>, char),
}

/// A malformed line of the lexical data; lines are numbered from 1.
#[derive(Debug)]
pub enum LoadError {
    /// A pronunciation line without a tab between word and pronunciation.
    MissingTab { line: usize },
    /// A pronunciation that is not wrapped in slashes.
    MissingSlashes { line: usize },
    /// A part-of-speech entry without the NUL between word and codes.
    MissingDelimiter { line: usize },
    /// A part-of-speech code that stands for no category.
    UnknownCode { line: usize, word: String, code: char },
}

impl View for LoadError {
    type V = LoadFault;

    open spec fn view(&self) -> LoadFault {
        match self {
            LoadError::MissingTab { line } => LoadFault::MissingTab(*line as int),
            LoadError::MissingSlashes { line } => LoadFault::MissingSlashes(*line as int),
            LoadError::MissingDelimiter { line } => LoadFault::MissingDelimiter(*line as int),
            LoadError::UnknownCode { line, word, code } => LoadFault::UnknownCode(
                *line as int,
                word@,
                *code,
            ),
        }
    }
}

/// A pronunciation line `word<TAB>/sound/` read as the word as written and
/// the sound without its slashes; `n` is the line's number.
pub open spec fn pron_entry(line: Seq<char>, n: int) -> Result<(Seq<char>, Seq<char>), LoadFault> {
    match first_pos(line, '\t') {
        None => Err(LoadFault::MissingTab(n)),
        Some(t) => {
            let f = line.subrange(t + 1, line.len() as int);
            if f.len() >= 2 && f[0] == '/' && f[f.len() - 1] == '/' {
                Ok((line.subrange(0, t), f.subrange(1, f.len() - 1)))
            } else {
                Err(LoadFault::MissingSlashes(n))
            }
        }
    }
}

/// The entries of all pronunciation lines, or the fault of the first bad one.
pub open spec fn pron_entries(lines: Seq<Seq<char>>) -> Result<Seq<(Seq<char>, Seq<char>)>, LoadFault>
    decreases lines.len(),
{
    if lines.len() == 0 {
        Ok(seq![])
    } else {
        match pron_entries(lines.drop_last()) {
            Err(e) => Err(e),
            Ok(es) => match pron_entry(lines.last(), lines.len() as int) {
                Err(e) => Err(e),
                Ok(x) => Ok(es.push(x)),
            },
        }
    }
}

/// A part-of-speech entry `word<NUL>codes` read as the word as written and
/// its tags; `n` is the entry's line number.
pub open spec fn tag_entry(line: Seq<char>, n: int) -> Result<(Seq<char>, Seq<PartOfSpeech>), LoadFault> {
    match first_pos(line, '\0') {
        None => Err(LoadFault::MissingDelimiter(n)),
        Some(t) => {
            let w = line.subrange(0, t);
            match decode_spec(line.subrange(t + 1, line.len() as int)) {
                Err(c) => Err(LoadFault::UnknownCode(n, w, c)),
                Ok(ps) => Ok((w, ps)),
            }
        }
    }
}

/// The entries of all part-of-speech lines, or the fault of the first bad one.
pub open spec fn tag_entries(lines: Seq<Seq<char>>) -> Result<Seq<(Seq<char>, Seq<PartOfSpeech>)>, LoadFault>
    decreases lines.len(),
{
    if lines.len() == 0 {
        Ok(seq![])
    } else {
        match tag_entries(lines.drop_last()) {
            Err(e) => Err(e),
            Ok(es) => match tag_entry(lines.last(), lines.len() as int) {
                Err(e) => Err(e),
                Ok(x) => Ok(es.push(x)),
            },
        }
    }
}

proof fn lemma_pron_prefix_err(lines: Seq<Seq<char>>, n: int, e: LoadFault)
    requires
        0 <= n <= lines.len(),
        pron_entries(lines.subrange(0, n)) == Err::<Seq<(Seq<char>, Seq<char>)>, LoadFault>(e),
    ensures
        pron_entries(lines) == Err::<Seq<(Seq<char>, Seq<char>)>, LoadFault>(e),
    decreases lines.len() - n,
{
    if n == lines.len() {
        assert(lines.subrange(0, n) =~= lines);
    } else {
        assert(lines.subrange(0, n + 1).drop_last() =~= lines.subrange(0, n));
        lemma_pron_prefix_err(lines, n + 1, e);
    }
}

proof fn lemma_tag_prefix_err(lines: Seq<Seq<char>>, n: int, e: LoadFault)
    requires
        0 <= n <= lines.len(),
        tag_entries(lines.subrange(0, n)) == Err::<Seq<(Seq<char>, Seq<PartOfSpeech>)>, LoadFault>(e),
    ensures
        tag_entries(lines) == Err::<Seq<(Seq<char>, Seq<PartOfSpeech>)>, LoadFault>(e),
    decreases lines.len() - n,
{
    if n == lines.len() {
        assert(lines.subrange(0, n) =~= lines);
    } else {
        assert(lines.subrange(0, n + 1).drop_last() =~= lines.subrange(0, n));
        lemma_tag_prefix_err(lines, n + 1, e);
    }
}

/// Reads one pronunciation line; `n` is its line number.
pub fn parse_pron_line(line: &Vec<char>, n: usize) -> (r: Result<(Vec<char>, Vec<char>), LoadError>)
    ensures
        match r {
            Ok((w, p)) => pron_entry(line@, n as int) == Ok::<(Seq<char>, Seq<char>), LoadFault>((w@, p@)),
            Err(e) => pron_entry(line@, n as int) == Err::<(Seq<char>, Seq<char>), LoadFault>(e@),
        },
{
    match find_char(line, '\t') {
        None => Err(LoadError::MissingTab { line: n }),
        Some(t) => {
            let len = line.len();
            if len - t >= 3 && line[t + 1] == '/' && line[len - 1] == '/' {
                let w = copy_range(line, 0, t);
                let p = copy_range(line, t + 2, len - 1);
                assert(p@ =~= line@.subrange(t + 1, len as int).subrange(1, len - t - 2));
                Ok((w, p))
            } else {
                Err(LoadError::MissingSlashes { line: n })
            }
        },
    }
}

/// Reads one part-of-speech entry; `n` is its line number.
pub fn parse_tag_line(line: &Vec<char>, n: usize) -> (r: Result<(Vec<char>, Vec<PartOfSpeech>), LoadError>)
    ensures
        match r {
            Ok((w, ps)) => tag_entry(line@, n as int) == Ok::<(Seq<char>, Seq<PartOfSpeech>), LoadFault>((w@, ps@)),
            Err(e) => tag_entry(line@, n as int) == Err::<(Seq<char>, Seq<PartOfSpeech>), LoadFault>(e@),
        },
{
    match find_char(line, '\0') {
        None => Err(LoadError::MissingDelimiter { line: n }),
        Some(t) => {
            let w = copy_range(line, 0, t);
            let codes = copy_range(line, t + 1, line.len());
            match decode_codes(&codes) {
                Err(c) => Err(LoadError::UnknownCode { line: n, word: string_of(&w), code: c }),
                Ok(ps) => Ok((w, ps)),
            }
        },
    }
}

/// The phonetic symbol of the final "er" sound.
pub const ER_SOUND: char = 'ɝ';

/// A list of strings, seen as character sequences.
pub open spec fn views_of(v: Seq<String>) -> Seq<Seq<char>> {
    v.map_values(|s: String| s@)
}

/// A map of string lists, seen as character sequences.
pub open spec fn strings_view(m: Map<Seq<char>, Vec<String>>) -> Map<Seq<char>, Seq<Seq<char>>> {
    m.map_values(|v: Vec<String>| views_of(v@))
}

/// `m` with `v` added at the end of the list under `k`.
pub open spec fn appended(m: Map<Seq<char>, Seq<Seq<char>>>, k: Seq<char>, v: Seq<char>) -> Map<
    Seq<char>,
    Seq<Seq<char>>,
> {
    m.insert(
        k,
        if m.contains_key(k) {
            m[k].push(v)
        } else {
            seq![v]
        },
    )
}

/// Each lowercased word to its pronunciations, in the order of the entries.
pub open spec fn sounds_by_word(es: Seq<(Seq<char>, Seq<char>)>) -> Map<Seq<char>, Seq<Seq<char>>>
    decreases es.len(),
{
    if es.len() == 0 {
        Map::empty()
    } else {
        appended(sounds_by_word(es.drop_last()), lower_of(es.last().0), es.last().1)
    }
}

/// Each pronunciation to the lowercased words that have it, in the order of the entries.
pub open spec fn words_by_sound(es: Seq<(Seq<char>, Seq<char>)>) -> Map<Seq<char>, Seq<Seq<char>>>
    decreases es.len(),
{
    if es.len() == 0 {
        Map::empty()
    } else {
        appended(words_by_sound(es.drop_last()), es.last().1, lower_of(es.last().0))
    }
}

/// Each lowercased word to its tags; a later entry for a word replaces an earlier one.
pub open spec fn tags_by_word(es: Seq<(Seq<char>, Seq<PartOfSpeech>)>) -> Map<Seq<char>, Seq<PartOfSpeech>>
    decreases es.len(),
{
    if es.len() == 0 {
        Map::empty()
    } else {
        tags_by_word(es.drop_last()).insert(lower_of(es.last().0), es.last().1)
    }
}

/// A map of tag lists, seen as sequences.
pub open spec fn tags_view(m: Map<Seq<char>, Vec<PartOfSpeech>>) -> Map<Seq<char>, Seq<PartOfSpeech>> {
    m.map_values(|v: Vec<PartOfSpeech>| v@)
}

/// The three lookup maps of a lexicon.
pub struct LexiconModel {
    pub sounds: Map<Seq<char>, Seq<Seq<char>>>,
    pub words: Map<Seq<char>, Seq<Seq<char>>>,
    pub tags: Map<Seq<char>, Seq<PartOfSpeech>>,
}

/// The lexicon that the pronunciation text `a` and the part-of-speech text `b`
/// describe, or the first fault in `a`, else in `b`.
pub open spec fn load_spec(a: Seq<char>, b: Seq<char>) -> Result<LexiconModel, LoadFault> {
    match pron_entries(lines_of(a)) {
        Err(e) => Err(e),
        Ok(es) => match tag_entries(lines_of(b)) {
            Err(e) => Err(e),
            Ok(ts) => Ok(
                LexiconModel {
                    sounds: sounds_by_word(es),
                    words: words_by_sound(es),
                    tags: tags_by_word(ts),
                },
            ),
        },
    }
}

/// The words that share the sound `sound`.
pub open spec fn homophones(m: LexiconModel, sound: Seq<char>) -> Seq<Seq<char>> {
    if m.words.contains_key(sound) {
        m.words[sound]
    } else {
        seq![]
    }
}

pub open spec fn ends_with(p: Seq<char>, c: char) -> bool {
    p.len() > 0 && p.last() == c
}

/// For each pronunciation in `prons` that ends in `suffix`, in order, the
/// homophones of what is left without it, one list after the other.
pub open spec fn candidates_from(m: LexiconModel, prons: Seq<Seq<char>>, suffix: char) -> Seq<Seq<char>>
    decreases prons.len(),
{
    if prons.len() == 0 {
        seq![]
    } else {
        candidates_from(m, prons.drop_last(), suffix) + if ends_with(prons.last(), suffix) {
            homophones(m, prons.last().drop_last())
        } else {
            seq![]
        }
    }
}

/// The candidates of the (normalized) word `w`: none when it has no pronunciation.
pub open spec fn candidates(m: LexiconModel, w: Seq<char>, suffix: char) -> Seq<Seq<char>> {
    if m.sounds.contains_key(w) {
        candidates_from(m, m.sounds[w], suffix)
    } else {
        seq![]
    }
}

/// `w` carries a transitive-verb or participle tag.
pub open spec fn qualifies_spec(m: LexiconModel, w: Seq<char>) -> bool {
    m.tags.contains_key(w) && exists|i: int| 0 <= i < m.tags[w].len() && is_qualifying(m.tags[w][i])
}

/// The first of `cs` that qualifies.
pub open spec fn first_qualifying(m: LexiconModel, cs: Seq<Seq<char>>) -> Option<Seq<char>>
    decreases cs.len(),
{
    if cs.len() == 0 {
        None
    } else if qualifies_spec(m, cs[0]) {
        Some(cs[0])
    } else {
        first_qualifying(m, cs.drop_first())
    }
}

/// The pun word for the normalized word `w`.
pub open spec fn resolve_spec(m: LexiconModel, w: Seq<char>) -> Option<Seq<char>> {
    first_qualifying(m, candidates(m, w, ER_SOUND))
}

/// The lookup maps built from the lexical data; read-only once loaded.
pub struct Lexicon {
    sounds: StringHashMap<Vec<String>>,
    words: StringHashMap<Vec<String>>,
    tags: StringHashMap<Vec<PartOfSpeech>>,
}

impl View for Lexicon {
    type V = LexiconModel;

    closed spec fn view(&self) -> LexiconModel {
        LexiconModel {
            sounds: strings_view(self.sounds@),
            words: strings_view(self.words@),
            tags: tags_view(self.tags@),
        }
    }
}

/// Adds `v` at the end of the list under `k`.
fn add_to(m: &mut StringHashMap<Vec<String>>, k: String, v: String)
    ensures
        strings_view(final(m)@) == appended(strings_view(old(m)@), k@, v@),
{
    let mut list: Vec<String> = Vec::new();
    match m.get(k.as_str()) {
        Some(l) => {
            let mut i: usize = 0;
            while i < l.len()
                invariant
                    i <= l.len(),
                    views_of(list@) == views_of(l@.subrange(0, i as int)),
                decreases l.len() - i,
            {
                let ghost before = views_of(list@);
                let item = l[i].clone();
                assert(item@ == l@[i as int]@);
                list.push(item);
                assert(views_of(list@) =~= before.push(item@));
                assert(l@.subrange(0, i + 1) =~= l@.subrange(0, i as int).push(l@[i as int]));
                i += 1;
                assert(views_of(list@) =~= views_of(l@.subrange(0, i as int)));
            }
            assert(l@.subrange(0, l@.len() as int) =~= l@);
            assert(views_of(list@) == strings_view(old(m)@)[k@]);
        },
        None => {
            assert(views_of(list@) =~= seq![]);
        },
    }
    let ghost before = views_of(list@);
    list.push(v);
    assert(views_of(list@) =~= before.push(v@));
    assert(!strings_view(old(m)@).contains_key(k@) ==> views_of(list@) =~= seq![v@]);
    m.insert(k, list);
    assert(strings_view(m@) =~= appended(strings_view(old(m)@), k@, v@));
}

impl Lexicon {
    /// Builds the lexicon from the pronunciation text (lines `word<TAB>/sound/`)
    /// and the part-of-speech text (lines `word<NUL>codes`); fails on the first
    /// malformed line of the first, else of the second.
    pub fn load(pronunciations: &str, parts_of_speech: &str) -> (r: Result<Lexicon, LoadError>)
        ensures
            match r {
                Ok(l) => load_spec(pronunciations@, parts_of_speech@) == Ok::<LexiconModel, LoadFault>(l@),
                Err(e) => load_spec(pronunciations@, parts_of_speech@) == Err::<LexiconModel, LoadFault>(e@),
            },
    {
        let a_chars = chars_of(pronunciations);
        let a = split_lines(&a_chars);
        let mut sounds: StringHashMap<Vec<String>> = StringHashMap::new();
        let mut words: StringHashMap<Vec<String>> = StringHashMap::new();
        let ghost mut es: Seq<(Seq<char>, Seq<char>)> = seq![];
        let mut i: usize = 0;
        while i < a.len()
            invariant
                i <= a.len(),
                line_views(a@) == lines_of(pronunciations@),
                pron_entries(line_views(a@).subrange(0, i as int)) == Ok::<Seq<(Seq<char>, Seq<char>)>, LoadFault>(es),
                strings_view(sounds@) == sounds_by_word(es),
                strings_view(words@) == words_by_sound(es),
            decreases a.len() - i,
        {
            proof {
                assert(line_views(a@).subrange(0, i + 1).drop_last() =~= line_views(a@).subrange(0, i as int));
            }
            match parse_pron_line(&a[i], i + 1) {
                Err(e) => {
                    proof {
                        lemma_pron_prefix_err(line_views(a@), i + 1, e@);
                    }
                    return Err(e);
                },
                Ok((w, p)) => {
                    let word = lowercase(string_of(&w).as_str());
                    let sound = string_of(&p);
                    proof {
                        let prev = es;
                        es = prev.push((w@, p@));
                        assert(es.drop_last() =~= prev);
                    }
                    add_to(&mut sounds, word.clone(), sound.clone());
                    add_to(&mut words, sound, word);
                },
            }
            i += 1;
        }
        assert(line_views(a@).subrange(0, a@.len() as int) =~= line_views(a@));
        let b_chars = chars_of(parts_of_speech);
        let b = split_lines(&b_chars);
        let mut tags: StringHashMap<Vec<PartOfSpeech>> = StringHashMap::new();
        let ghost mut ts: Seq<(Seq<char>, Seq<PartOfSpeech>)> = seq![];
        let mut j: usize = 0;
        while j < b.len()
            invariant
                j <= b.len(),
                line_views(b@) == lines_of(parts_of_speech@),
                pron_entries(lines_of(pronunciations@)) == Ok::<Seq<(Seq<char>, Seq<char>)>, LoadFault>(es),
                strings_view(sounds@) == sounds_by_word(es),
                strings_view(words@) == words_by_sound(es),
                tag_entries(line_views(b@).subrange(0, j as int)) == Ok::<Seq<(Seq<char>, Seq<PartOfSpeech>)>, LoadFault>(ts),
                tags_view(tags@) == tags_by_word(ts),
            decreases b.len() - j,
        {
            proof {
                assert(line_views(b@).subrange(0, j + 1).drop_last() =~= line_views(b@).subrange(0, j as int));
            }
            match parse_tag_line(&b[j], j + 1) {
                Err(e) => {
                    proof {
                        lemma_tag_prefix_err(line_views(b@), j + 1, e@);
                    }
                    return Err(e);
                },
                Ok((w, ps)) => {
                    let word = lowercase(string_of(&w).as_str());
                    proof {
                        let prev = ts;
                        ts = prev.push((w@, ps@));
                        assert(ts.drop_last() =~= prev);
                    }
                    tags.insert(word, ps);
                    assert(tags_view(tags@) =~= tags_by_word(ts));
                },
            }
            j += 1;
        }
        assert(line_views(b@).subrange(0, b@.len() as int) =~= line_views(b@));
        Ok(Lexicon { sounds, words, tags })
    }

    /// The homophones of each pronunciation of the normalized `word` that ends
    /// in `suffix`, once the suffix is taken off: pronunciations in stored
    /// order, each one's homophones in stored order, duplicates kept.
    pub fn homophones_after_stripping_suffix(&self, word: &str, suffix: char) -> (r: Vec<String>)
        ensures
            views_of(r@) == candidates(self@, word@, suffix),
    {
        let mut out: Vec<String> = Vec::new();
        match self.sounds.get(word) {
            None => {
                assert(views_of(out@) =~= seq![]);
                out
            },
            Some(prons) => {
                let ghost ps = views_of(prons@);
                let mut i: usize = 0;
                while i < prons.len()
                    invariant
                        i <= prons.len(),
                        ps == views_of(prons@),
                        views_of(out@) == candidates_from(self@, ps.subrange(0, i as int), suffix),
                    decreases prons.len() - i,
                {
                    proof {
                        assert(ps.subrange(0, i + 1).drop_last() =~= ps.subrange(0, i as int));
                    }
                    let ghost before = views_of(out@);
                    match strip_last(prons[i].as_str(), suffix) {
                        None => {
                            assert(before + seq![] =~= before);
                        },
                        Some(rest) => {
                            let ghost hs = homophones(self@, rest@);
                            match self.words.get(rest) {
                                None => {
                                    assert(before + hs =~= before);
                                },
                                Some(list) => {
                                    let mut k: usize = 0;
                                    while k < list.len()
                                        invariant
                                            k <= list.len(),
                                            hs == views_of(list@),
                                            views_of(out@) == before + hs.subrange(0, k as int),
                                        decreases list.len() - k,
                                    {
                                        let ghost prior = views_of(out@);
                                        let item = list[k].clone();
                                        out.push(item);
                                        assert(views_of(out@) =~= prior.push(item@));
                                        assert(hs.subrange(0, k + 1) =~= hs.subrange(0, k as int).push(hs[k as int]));
                                        k += 1;
                                    }
                                    assert(hs.subrange(0, list@.len() as int) =~= hs);
                                },
                            }
                        },
                    }
                    i += 1;
                }
                assert(ps.subrange(0, ps.len() as int) =~= ps);
                out
            },
        }
    }

    /// The homophones of `word`, lowercased, after stripping `suffix`.
    pub fn find_homophones_after_stripping_suffix(&self, word: &str, suffix: char) -> (r: Vec<String>)
        ensures
            views_of(r@) == candidates(self@, lower_of(word@), suffix),
    {
        let normalized = lowercase(word);
        self.homophones_after_stripping_suffix(normalized.as_str(), suffix)
    }

    /// Whether `word` carries a transitive-verb or participle tag; false for a
    /// word without tags.
    pub fn qualifies(&self, word: &str) -> (r: bool)
        ensures
            r == qualifies_spec(self@, word@),
    {
        match self.tags.get(word) {
            None => false,
            Some(ps) => {
                let mut i: usize = 0;
                while i < ps.len()
                    invariant
                        i <= ps.len(),
                        self@.tags.contains_key(word@),
                        ps@ == self@.tags[word@],
                        forall|j: int| 0 <= j < i ==> !is_qualifying(ps@[j]),
                    decreases ps.len() - i,
                {
                    let p = ps[i];
                    if p == PartOfSpeech::VerbTransitive || p == PartOfSpeech::VerbUsuParticiple {
                        assert(is_qualifying(self@.tags[word@][i as int]));
                        return true;
                    }
                    i += 1;
                }
                false
            },
        }
    }

    /// The pun word for the already normalized `word`: the first homophone,
    /// after the "er" sound is stripped, that qualifies.
    pub fn resolve_normalized(&self, word: &str) -> (r: Option<String>)
        ensures
            match r {
                Some(s) => resolve_spec(self@, word@) == Some(s@),
                None => resolve_spec(self@, word@) is None,
            },
    {
        let cs = self.homophones_after_stripping_suffix(word, ER_SOUND);
        let ghost all = views_of(cs@);
        assert(all.subrange(0, all.len() as int) =~= all);
        let mut i: usize = 0;
        while i < cs.len()
            invariant
                i <= cs.len(),
                all == views_of(cs@),
                all == candidates(self@, word@, ER_SOUND),
                first_qualifying(self@, all) == first_qualifying(self@, all.subrange(i as int, all.len() as int)),
            decreases cs.len() - i,
        {
            let ghost tail = all.subrange(i as int, all.len() as int);
            assert(tail.drop_first() =~= all.subrange(i + 1, all.len() as int));
            if self.qualifies(cs[i].as_str()) {
                return Some(cs[i].clone());
            }
            i += 1;
        }
        None
    }

    /// The pun word for `word`, which is lowercased first.
    pub fn resolve(&self, word: &str) -> (r: Option<String>)
        ensures
            match r {
                Some(s) => resolve_spec(self@, lower_of(word@)) == Some(s@),
                None => resolve_spec(self@, lower_of(word@)) is None,
            },
    {
        let normalized = lowercase(word);
        self.resolve_normalized(normalized.as_str())
    }
}

} // verus!
