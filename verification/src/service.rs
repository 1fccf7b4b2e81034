//! The service's immutable per-language records, built once at startup, and
//! the query functions answered against them. An unsupported language code is
//! reported as `None`, distinguishable from an empty result.

use vstd::prelude::*;

use crate::classifier::{consonants_of, rarer};
use crate::classifier::classify_letters;
use crate::curation::curated_lexicon_of;
use crate::curation::load_filtered_words;
use crate::distribution::{letters_count, max_nat, share_granted, shares_sum, total_text_chars};
use crate::distribution::{calculate_distribution_from_set, compute_tile_bag};
use crate::language::{spec_code, spec_name, spec_vowels, Language};
use crate::language::{language_code, language_name};
use crate::letters::folded;
use crate::letters::{clone_chars, fold_chars};
use crate::sampler::{bag_has_letters, letter_in_bag, matching_texts, no_constraints,
    placeholder_word, WordConstraints};
use crate::sampler::{select_random_from_bag, select_random_from_list,
    select_random_words_with_constraints};
use crate::tables::{has_key, spec_get, sum_values, table_sorted};
use crate::words::{has_text, sorted_words, wf_words, Word};
use crate::words::contains_word;

verus! {

/// Everything the service knows about one language, derived from its curated
/// lexicon at startup and immutable afterwards.
pub struct LanguageProfile {
    pub lexicon: Vec<Word>,
    pub tile_bag: Vec<(char, usize)>,
    pub vowels: Vec<char>,
    pub consonants: Vec<char>,
    pub rare_letters: Vec<char>,
}

impl LanguageProfile {
    /// The lexicon is a canonical word list and the tile bag a well-formed
    /// letter table.
    pub open spec fn wf(self) -> bool {
        &&& wf_words(self.lexicon@)
        &&& sorted_words(self.lexicon@)
        &&& table_sorted(self.tile_bag@)
    }
}

/// A frequency table derived from a lexicon: sorted, positive, and counting
/// exactly the lexicon's folded letters.
pub open spec fn is_freq_table(t: Seq<(char, usize)>, ws: Seq<Word>) -> bool {
    &&& table_sorted(t)
    &&& forall|c: char| #[trigger] spec_get(t, c) == letters_count(ws, c)
    &&& forall|i: int| 0 <= i < t.len() ==> (#[trigger] t[i]).1 >= 1
}

/// How a profile's derived parts relate to its lexicon's letter frequencies:
/// the vowels are the language's fixed table; the consonants are the observed
/// non-vowel letters in order; the rare letters are the (up to) two rarest;
/// and the tile bag allocates `total_tiles` tiles with two wildcards, at
/// least one tile per observed letter, and an exact total whenever the
/// letters fit in the pool.
pub open spec fn profile_parts(
    p: LanguageProfile,
    freq: Seq<(char, usize)>,
    lang: Language,
    total_tiles: nat,
) -> bool {
    &&& p.vowels@ == spec_vowels(lang)
    &&& p.consonants@ == consonants_of(freq, spec_vowels(lang))
    &&& p.rare_letters@.len() == (if freq.len() >= 2 {
        2int
    } else {
        freq.len() as int
    })
    &&& freq.len() >= 1 ==> has_key(freq, p.rare_letters@[0]) && (forall|x: char|
        #[trigger] has_key(freq, x) && x != p.rare_letters@[0] ==> rarer(
            freq,
            p.rare_letters@[0],
            x,
        ))
    &&& freq.len() >= 2 ==> has_key(freq, p.rare_letters@[1]) && p.rare_letters@[1]
        != p.rare_letters@[0] && (forall|x: char|
        #[trigger] has_key(freq, x) && x != p.rare_letters@[0] && x != p.rare_letters@[1]
            ==> rarer(freq, p.rare_letters@[1], x))
    &&& freq.len() == 0 ==> p.tile_bag@.len() == 0
    &&& freq.len() > 0 ==> spec_get(p.tile_bag@, '_') == 2
    &&& freq.len() > 0 ==> (forall|x: char|
        #[trigger] has_key(p.tile_bag@, x) <==> (has_key(freq, x) || x == '_'))
    &&& freq.len() > 0 ==> (forall|x: char|
        #[trigger] has_key(freq, x) ==> spec_get(p.tile_bag@, x) >= 1)
    &&& freq.len() > 0 ==> sum_values(p.tile_bag@) == max_nat(total_tiles, freq.len() + 2)
    &&& freq.len() > 0 && total_tiles >= 2 && shares_sum(freq, sum_values(freq), (total_tiles
        - 2) as nat) == (total_tiles - 2) as nat ==> (forall|k: int|
        0 <= k < freq.len() ==> spec_get(p.tile_bag@, (#[trigger] freq[k]).0) == share_granted(
            freq[k].1 as nat,
            sum_values(freq),
            (total_tiles - 2) as nat,
        ))
}

/// A profile built from `lexicon` for `lang` with a bag of `total_tiles`:
/// it keeps the lexicon, and its derived parts agree with the lexicon's
/// letter-frequency table.
pub open spec fn profile_of_lexicon(
    p: LanguageProfile,
    lexicon: Seq<Word>,
    lang: Language,
    total_tiles: nat,
) -> bool {
    &&& p.wf()
    &&& p.lexicon@ == lexicon
    &&& exists|freq: Seq<(char, usize)>|
        #[trigger] is_freq_table(freq, lexicon) && profile_parts(p, freq, lang, total_tiles)
}

/// Derive a language's profile from its curated lexicon: the letter
/// frequency table, the weighted tile bag, and the letter classes.
pub fn build_profile(lexicon: Vec<Word>, lang: Language, total_tiles: usize) -> (r:
    LanguageProfile)
    requires
        wf_words(lexicon@),
        sorted_words(lexicon@),
        total_text_chars(lexicon@) <= usize::MAX,
        total_tiles >= 2,
    ensures
        profile_of_lexicon(r, lexicon@, lang, total_tiles as nat),
{
    let freq = calculate_distribution_from_set(&lexicon);
    proof {
        assert(!has_key(freq@, '_')) by {
            if has_key(freq@, '_') {
                assert(!crate::letters::is_upper_letter('_'));
            }
        }
    }
    let tile_bag = compute_tile_bag(&freq, total_tiles);
    let (vowels, consonants, rare_letters) = classify_letters(&freq, lang);
    let r = LanguageProfile { lexicon, tile_bag, vowels, consonants, rare_letters };
    proof {
        assert(is_freq_table(freq@, r.lexicon@));
        assert(profile_parts(r, freq@, lang, total_tiles as nat));
    }
    r
}

/// One registered language: its code and its profile.
pub struct LanguageRecord {
    pub code: Language,
    pub profile: LanguageProfile,
}

/// The service's whole state: one immutable record per configured language.
pub struct AppState {
    pub languages: Vec<LanguageRecord>,
}

impl AppState {
    /// Every registered profile is well formed.
    pub open spec fn wf(self) -> bool {
        forall|i: int|
            0 <= i < self.languages@.len() ==> (#[trigger] self.languages@[i]).profile.wf()
    }
}

/// The position of the first record for `lang`, or a negative value when the
/// language is not registered.
pub open spec fn lang_index(entries: Seq<LanguageRecord>, lang: Language) -> int
    decreases entries.len(),
{
    if entries.len() == 0 {
        -1
    } else if entries[0].code == lang {
        0
    } else if lang_index(entries.drop_first(), lang) < 0 {
        -1
    } else {
        lang_index(entries.drop_first(), lang) + 1
    }
}

/// Whether the service supports `lang`.
pub open spec fn lang_supported(s: AppState, lang: Language) -> bool {
    lang_index(s.languages@, lang) >= 0
}

/// The profile serving `lang`.
pub open spec fn the_profile(s: AppState, lang: Language) -> LanguageProfile {
    s.languages@[lang_index(s.languages@, lang)].profile
}

proof fn lemma_lang_index_skip(entries: Seq<LanguageRecord>, lang: Language, i: int)
    requires
        0 <= i <= entries.len(),
        forall|j: int| 0 <= j < i ==> (#[trigger] entries[j]).code != lang,
    ensures
        i < entries.len() && entries[i].code == lang ==> lang_index(entries, lang) == i,
        i == entries.len() ==> lang_index(entries, lang) == -1,
    decreases i,
{
    if i == 0 {
    } else {
        let t = entries.drop_first();
        assert forall|j: int| 0 <= j < i - 1 implies (#[trigger] t[j]).code != lang by {
            assert(t[j] == entries[j + 1]);
        }
        lemma_lang_index_skip(t, lang, i - 1);
        if i < entries.len() {
            assert(t[i - 1] == entries[i]);
        }
    }
}

/// A registered language's index lies inside the record list.
proof fn lemma_lang_index_bound(entries: Seq<LanguageRecord>, lang: Language)
    ensures
        lang_index(entries, lang) < entries.len(),
    decreases entries.len(),
{
    if entries.len() > 0 && entries[0].code != lang {
        lemma_lang_index_bound(entries.drop_first(), lang);
    }
}

/// An empty service state.
pub fn app_state_new() -> (r: AppState)
    ensures
        r.wf(),
        r.languages@.len() == 0,
{
    AppState { languages: Vec::new() }
}

/// Register a language's profile.
pub fn add_language(state: &mut AppState, code: Language, profile: LanguageProfile)
    requires
        old(state).wf(),
        profile.wf(),
    ensures
        final(state).wf(),
        final(state).languages@ == old(state).languages@.push(
            LanguageRecord { code, profile },
        ),
{
    let rec = LanguageRecord { code, profile };
    state.languages.push(rec);
}

/// The profile serving `lang`, or nothing when the language is unsupported.
fn profile_for<'a>(state: &'a AppState, lang: Language) -> (r: Option<&'a LanguageProfile>)
    ensures
        r is Some <==> lang_supported(*state, lang),
        r is Some ==> *r->0 == the_profile(*state, lang),
{
    let mut i: usize = 0;
    while i < state.languages.len()
        invariant
            i <= state.languages@.len(),
            forall|j: int| 0 <= j < i ==> (#[trigger] state.languages@[j]).code != lang,
        decreases state.languages@.len() - i,
    {
        if state.languages[i].code == lang {
            proof {
                lemma_lang_index_skip(state.languages@, lang, i as int);
            }
            return Some(&state.languages[i].profile);
        }
        i = i + 1;
    }
    proof {
        lemma_lang_index_skip(state.languages@, lang, state.languages@.len() as int);
    }
    None
}

/// The configured languages, as name/code pairs for the client.
pub struct LangInfo {
    pub name: Vec<char>,
    pub code: Vec<char>,
}

/// List the configured languages with their display names.
pub fn get_langs(state: &AppState) -> (r: Vec<LangInfo>)
    ensures
        r@.len() == state.languages@.len(),
        forall|i: int|
            0 <= i < r@.len() ==> (#[trigger] r@[i]).code@ == spec_code(
                state.languages@[i].code,
            ) && r@[i].name@ == spec_name(state.languages@[i].code),
{
    let mut r: Vec<LangInfo> = Vec::new();
    let mut i: usize = 0;
    while i < state.languages.len()
        invariant
            i <= state.languages@.len(),
            r@.len() == i,
            forall|j: int|
                0 <= j < i ==> (#[trigger] r@[j]).code@ == spec_code(state.languages@[j].code)
                    && r@[j].name@ == spec_name(state.languages@[j].code),
        decreases state.languages@.len() - i,
    {
        let code = state.languages[i].code;
        r.push(LangInfo { name: language_name(code), code: language_code(code) });
        i = i + 1;
    }
    r
}

/// The per-language summary payload served to clients.
pub struct ConfigResponse {
    pub tiles: Vec<(char, usize)>,
    pub unicorns: Vec<(char, usize)>,
    pub vowels: Vec<char>,
    pub bag: Vec<(char, usize)>,
    pub word_count: usize,
}

/// Copy a letter table.
fn clone_table(t: &Vec<(char, usize)>) -> (r: Vec<(char, usize)>)
    ensures
        r@ == t@,
{
    let mut r: Vec<(char, usize)> = Vec::new();
    let mut i: usize = 0;
    while i < t.len()
        invariant
            i <= t@.len(),
            r@ == t@.take(i as int),
        decreases t@.len() - i,
    {
        r.push(t[i]);
        i = i + 1;
        proof {
            assert(r@ =~= t@.take(i as int));
        }
    }
    proof {
        assert(t@.take(t@.len() as int) =~= t@);
    }
    r
}

/// The language's summary: its tile bag (twice, as the legacy payload has
/// it), its rare letters at a nominal count of ten, its vowels, and the size
/// of its lexicon.
pub fn get_config(state: &AppState, lang: Language) -> (r: Option<ConfigResponse>)
    ensures
        r is Some <==> lang_supported(*state, lang),
        r is Some ==> {
            let p = the_profile(*state, lang);
            &&& r->0.tiles@ == p.tile_bag@
            &&& r->0.bag@ == p.tile_bag@
            &&& r->0.vowels@ == p.vowels@
            &&& r->0.word_count == p.lexicon@.len()
            &&& r->0.unicorns@.len() == p.rare_letters@.len()
            &&& forall|i: int|
                0 <= i < r->0.unicorns@.len() ==> (#[trigger] r->0.unicorns@[i]) == (
                p.rare_letters@[i],
                10usize,
            )
        },
{
    let p = match profile_for(state, lang) {
        Some(p) => p,
        None => {
            return None;
        },
    };
    let mut unicorns: Vec<(char, usize)> = Vec::new();
    let mut i: usize = 0;
    while i < p.rare_letters.len()
        invariant
            i <= p.rare_letters@.len(),
            unicorns@.len() == i,
            forall|j: int|
                0 <= j < i ==> (#[trigger] unicorns@[j]) == (p.rare_letters@[j], 10usize),
        decreases p.rare_letters@.len() - i,
    {
        unicorns.push((p.rare_letters[i], 10));
        i = i + 1;
    }
    Some(
        ConfigResponse {
            tiles: clone_table(&p.tile_bag),
            unicorns,
            vowels: clone_chars(&p.vowels),
            bag: clone_table(&p.tile_bag),
            word_count: p.lexicon.len(),
        },
    )
}

/// Draw `count` letters from the language's tile bag, weighted by tile count.
pub fn rand_letter(state: &AppState, lang: Language, count: usize) -> (r: Option<Vec<char>>)
    ensures
        r is Some <==> lang_supported(*state, lang),
        r is Some ==> {
            let bag = the_profile(*state, lang).tile_bag@;
            &&& r->0@.len() == count
            &&& bag_has_letters(bag) ==> (forall|i: int|
                0 <= i < count ==> letter_in_bag(bag, #[trigger] r->0@[i]))
            &&& !bag_has_letters(bag) ==> (forall|i: int| 0 <= i < count ==> r->0@[i] == 'A')
        },
{
    match profile_for(state, lang) {
        Some(p) => Some(select_random_from_bag(&p.tile_bag, count)),
        None => None,
    }
}

/// Draw `count` vowels of the language, uniformly.
pub fn rand_vowel(state: &AppState, lang: Language, count: usize) -> (r: Option<Vec<char>>)
    ensures
        r is Some <==> lang_supported(*state, lang),
        r is Some ==> {
            let vs = the_profile(*state, lang).vowels@;
            &&& r->0@.len() == count
            &&& vs.len() > 0 ==> (forall|i: int| 0 <= i < count ==> vs.contains(#[trigger] r->0@[i]))
            &&& vs.len() == 0 ==> (forall|i: int| 0 <= i < count ==> r->0@[i] == 'A')
        },
{
    match profile_for(state, lang) {
        Some(p) => Some(select_random_from_list(&p.vowels, count)),
        None => None,
    }
}

/// Draw `count` consonants of the language, uniformly.
pub fn rand_consonant(state: &AppState, lang: Language, count: usize) -> (r: Option<Vec<char>>)
    ensures
        r is Some <==> lang_supported(*state, lang),
        r is Some ==> {
            let cs = the_profile(*state, lang).consonants@;
            &&& r->0@.len() == count
            &&& cs.len() > 0 ==> (forall|i: int| 0 <= i < count ==> cs.contains(#[trigger] r->0@[i]))
            &&& cs.len() == 0 ==> (forall|i: int| 0 <= i < count ==> r->0@[i] == 'A')
        },
{
    match profile_for(state, lang) {
        Some(p) => Some(select_random_from_list(&p.consonants, count)),
        None => None,
    }
}

/// Draw `count` of the language's rare letters, uniformly.
pub fn rand_unicorn(state: &AppState, lang: Language, count: usize) -> (r: Option<Vec<char>>)
    ensures
        r is Some <==> lang_supported(*state, lang),
        r is Some ==> {
            let us = the_profile(*state, lang).rare_letters@;
            &&& r->0@.len() == count
            &&& us.len() > 0 ==> (forall|i: int| 0 <= i < count ==> us.contains(#[trigger] r->0@[i]))
            &&& us.len() == 0 ==> (forall|i: int| 0 <= i < count ==> r->0@[i] == 'A')
        },
{
    match profile_for(state, lang) {
        Some(p) => Some(select_random_from_list(&p.rare_letters, count)),
        None => None,
    }
}

/// A word query: how many words, and the optional constraints.
pub struct RandQuery {
    pub count: Option<usize>,
    pub letters: Option<Vec<char>>,
    pub min_vowels: Option<usize>,
    pub min_consonants: Option<usize>,
}

/// The rack text a query carries, if any.
pub open spec fn query_rack(q: RandQuery) -> Option<Seq<char>> {
    match q.letters {
        Some(l) => Some(l@),
        None => None,
    }
}

/// One word query is answered with one draw count: the requested count, or
/// one by default.
pub open spec fn query_count(q: RandQuery) -> nat {
    match q.count {
        Some(c) => c as nat,
        None => 1,
    }
}

/// Draw random words of the language, honoring the query's constraints; see
/// `select_random_words_with_constraints` for the sampling contract.
pub fn rand_word(state: &AppState, lang: Language, query: &RandQuery) -> (r: Option<
    Vec<Vec<char>>,
>)
    requires
        state.wf(),
    ensures
        r is Some <==> lang_supported(*state, lang),
        r is Some ==> {
            let p = the_profile(*state, lang);
            let cands = matching_texts(
                p.lexicon@,
                query_rack(*query),
                query.min_vowels,
                query.min_consonants,
                p.vowels@,
            );
            &&& no_constraints(query_rack(*query), query.min_vowels, query.min_consonants)
                ==> r->0@.len() == query_count(*query)
            &&& no_constraints(query_rack(*query), query.min_vowels, query.min_consonants)
                && p.lexicon@.len() > 0 ==> (forall|i: int|
                0 <= i < r->0@.len() ==> has_text(p.lexicon@, (#[trigger] r->0@[i])@))
            &&& no_constraints(query_rack(*query), query.min_vowels, query.min_consonants)
                && p.lexicon@.len() == 0 ==> (forall|i: int|
                0 <= i < r->0@.len() ==> (#[trigger] r->0@[i])@ == placeholder_word())
            &&& !no_constraints(query_rack(*query), query.min_vowels, query.min_consonants)
                ==> r->0@.len() == (if cands.len() == 0 {
                0int
            } else {
                query_count(*query) as int
            })
            &&& !no_constraints(query_rack(*query), query.min_vowels, query.min_consonants)
                ==> (forall|i: int|
                0 <= i < r->0@.len() ==> cands.contains((#[trigger] r->0@[i])@))
        },
{
    let p = match profile_for(state, lang) {
        Some(p) => p,
        None => {
            return None;
        },
    };
    proof {
        lemma_lang_index_bound(state.languages@, lang);
        assert(state.languages@[lang_index(state.languages@, lang)].profile.wf());
    }
    let count: usize = match query.count {
        Some(c) => c,
        None => 1,
    };
    let letters: Option<Vec<char>> = match &query.letters {
        Some(l) => Some(clone_chars(l)),
        None => None,
    };
    let constraints = WordConstraints {
        letters,
        min_vowels: query.min_vowels,
        min_consonants: query.min_consonants,
        vowels: clone_chars(&p.vowels),
    };
    Some(select_random_words_with_constraints(&p.lexicon, count, &constraints))
}

/// Whether the language's lexicon holds the word, compared case-folded.
pub fn check_word(state: &AppState, lang: Language, word: &Vec<char>) -> (r: Option<bool>)
    requires
        state.wf(),
    ensures
        r is Some <==> lang_supported(*state, lang),
        r is Some ==> r->0 == has_text(the_profile(*state, lang).lexicon@, folded(word@)),
{
    let p = match profile_for(state, lang) {
        Some(p) => p,
        None => {
            return None;
        },
    };
    proof {
        lemma_lang_index_bound(state.languages@, lang);
        assert(state.languages@[lang_index(state.languages@, lang)].profile.wf());
    }
    let w = fold_chars(word);
    Some(contains_word(&p.lexicon, &w))
}

/// Curate a language's lexicon from raw lines and build its whole profile in
/// one step, as startup does for each configured language.
pub fn build_language(
    base_lines: &Vec<Vec<char>>,
    insertion_lines: &Vec<Vec<char>>,
    deletion_lines: &Vec<Vec<char>>,
    lang: Language,
    max_len: usize,
    total_tiles: usize,
) -> (r: LanguageProfile)
    requires
        max_len + 100 <= usize::MAX,
        total_tiles >= 2,
    ensures
        curated_lexicon_of(
            r.lexicon@,
            base_lines@,
            insertion_lines@,
            deletion_lines@,
            max_len as nat,
        ),
        r.wf(),
        total_text_chars(r.lexicon@) <= usize::MAX ==> profile_of_lexicon(
            r,
            r.lexicon@,
            lang,
            total_tiles as nat,
        ),
{
    let lexicon = load_filtered_words(base_lines, insertion_lines, deletion_lines, max_len);
    let total = total_chars_of(&lexicon);
    match total {
        Some(_) => build_profile(lexicon, lang, total_tiles),
        None => {
            // A lexicon too large to count stays usable for lookups; its
            // letter statistics degrade to an empty table.
            let empty: Vec<Word> = Vec::new();
            let p = build_profile(empty, lang, total_tiles);
            LanguageProfile {
                lexicon,
                tile_bag: p.tile_bag,
                vowels: p.vowels,
                consonants: p.consonants,
                rare_letters: p.rare_letters,
            }
        },
    }
}

/// The total characters across the lexicon's texts, when they fit a machine
/// word.
fn total_chars_of(ws: &Vec<Word>) -> (r: Option<usize>)
    ensures
        r is Some ==> r->0 == total_text_chars(ws@),
        r is None ==> total_text_chars(ws@) > usize::MAX,
{
    let mut total: usize = 0;
    let mut i: usize = 0;
    while i < ws.len()
        invariant
            i <= ws@.len(),
            total == total_text_chars(ws@.take(i as int)),
        decreases ws@.len() - i,
    {
        proof {
            lemma_total_take_grow(ws@, i as int);
        }
        let len = ws[i].text.len();
        if usize::MAX - total < len {
            proof {
                lemma_total_take_ge(ws@, i as int + 1);
            }
            return None;
        }
        total = total + len;
        i = i + 1;
    }
    proof {
        assert(ws@.take(ws@.len() as int) =~= ws@);
    }
    Some(total)
}

proof fn lemma_total_take_grow(ws: Seq<Word>, i: int)
    requires
        0 <= i < ws.len(),
    ensures
        total_text_chars(ws.take(i + 1)) == total_text_chars(ws.take(i)) + ws[i].text@.len(),
{
    assert(ws.take(i + 1).drop_last() =~= ws.take(i));
    assert(ws.take(i + 1).last() == ws[i]);
}

proof fn lemma_total_take_ge(ws: Seq<Word>, i: int)
    requires
        0 <= i <= ws.len(),
    ensures
        total_text_chars(ws) >= total_text_chars(ws.take(i)),
    decreases ws.len() - i,
{
    if i == ws.len() {
        assert(ws.take(i) =~= ws);
    } else {
        lemma_total_take_grow(ws, i);
        lemma_total_take_ge(ws, i + 1);
    }
}

} // verus!
