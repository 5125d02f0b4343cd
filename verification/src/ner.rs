//! Named entity recognition: the span typer with keyword rules to fall back to.
//!
//! The typer's model and the rules' dictionaries are run by the caller. What is decided here is
//! when to run which, and what becomes of their findings.

use crate::cache;
use crate::confidence::Confidence;
use crate::entity;
use crate::entity::NerEntity;
use crate::entity::NerEntityType;
use crate::replay::ReplayTable;
use crate::rules;
use crate::rules::RuleEntity;
use crate::spans;
use crate::text;
use crate::typer;
use crate::typer::TypedSpan;
use crate::unicode;
use moka::sync::Cache;
use std::path::PathBuf;
use vstd::prelude::*;

verus! {

/// `std::path::PathBuf`. Paths are only carried.
#[verifier::external_type_specification]
#[verifier::external_body]
pub struct ExPathBuf(PathBuf);

/// `PathBuf::clone`: the same path.
pub assume_specification[ <PathBuf as Clone>::clone ](path: &PathBuf) -> (r: PathBuf)
    ensures
        r == *path,
;

/// The number of texts whose entities are cached.
pub const NER_CACHE_SIZE: u64 = 1000;

/// How long the entities of a text are cached, in seconds.
pub const NER_CACHE_AGE: u64 = 3600;

/// The sequence length of a configuration.
pub const MAX_LENGTH: usize = 128;

/// The model file in the model directory.
pub const MODEL_FILE: &'static str = "model.onnx";

/// The tokenizer file in the model directory.
pub const TOKENIZER_FILE: &'static str = "tokenizer.json";

/// Configuration of the recognition stage.
#[derive(Debug)]
pub struct NerConfig {
    /// The model path, which is kept for callers that read it.
    pub model_path: PathBuf,
    /// The tokenizer path, which is kept for callers that read it.
    pub tokenizer_path: PathBuf,
    /// The longest sequence, which is kept for callers that read it.
    pub max_length: usize,
    /// The least confidence of an entity that the rules find.
    pub confidence_threshold: Confidence,
}

impl Clone for NerConfig {
    fn clone(&self) -> (r: Self)
        ensures
            r == *self,
    {
        NerConfig {
            model_path: self.model_path.clone(),
            tokenizer_path: self.tokenizer_path.clone(),
            max_length: self.max_length,
            confidence_threshold: self.confidence_threshold,
        }
    }
}

impl NerConfig {
    /// The configuration from the settings of the environment, of which the confidence may be
    /// missing. The least confidence is then one half.
    pub fn from_settings(
        model_path: PathBuf,
        tokenizer_path: PathBuf,
        confidence: Option<Confidence>,
    ) -> (r: Self)
        ensures
            r.model_path == model_path,
            r.tokenizer_path == tokenizer_path,
            r.max_length == 128,
            r.confidence_threshold == match confidence {
                Some(c) => c,
                None => (Confidence { bits: 0x3f00_0000 }),
            },
    {
        NerConfig {
            model_path,
            tokenizer_path,
            max_length: MAX_LENGTH,
            confidence_threshold: match confidence {
                Some(c) => c,
                None => Confidence::half(),
            },
        }
    }
}

/// What to do about the typer's model before recognition starts.
#[derive(Debug, Clone, Copy, PartialEq, Eq, Structural)]
pub enum Provisioning {
    /// The model is there.
    Ready,
    /// The model is missing and may not be fetched: fall back to the rules.
    Degrade,
    /// The model is missing: fetch it and look again.
    Download,
}

/// Whether the setting forbids the network.
pub open spec fn is_offline(setting: Option<&str>) -> bool {
    match setting {
        Some(v) => v@ == "true"@ || v@ == "1"@,
        None => false,
    }
}

/// Decides what to do about the typer's model.
pub fn provisioning(available: bool, offline: Option<&str>) -> (r: Provisioning)
    ensures
        r == if available {
            Provisioning::Ready
        } else if is_offline(offline) {
            Provisioning::Degrade
        } else {
            Provisioning::Download
        },
{
    if available {
        return Provisioning::Ready;
    }
    match offline {
        Some(v) => {
            let value = text::chars_of(v);
            if text::same_chars(value.as_slice(), text::chars_of("true").as_slice())
                || text::same_chars(value.as_slice(), text::chars_of("1").as_slice()) {
                Provisioning::Degrade
            } else {
                Provisioning::Download
            }
        },
        None => Provisioning::Download,
    }
}

/// What becomes of a text whose entities are asked for.
#[derive(Debug)]
pub enum ExtractStep {
    /// These are its entities.
    Done(Vec<NerEntity>),
    /// The typer must find its spans.
    TypeSpans,
    /// The rules must find its entities.
    FindEntities,
}

/// What is found in a text that was not answered at once.
#[derive(Debug)]
pub enum Findings {
    /// The typer's spans.
    Spans(Vec<TypedSpan>),
    /// The rules' entities.
    Entities(Vec<RuleEntity>),
}

/// The entities that the findings in a text are.
pub open spec fn entities_in(s: Seq<char>, findings: Findings, floor: Confidence) -> Seq<
    NerEntity,
> {
    match findings {
        Findings::Spans(found) => spans::selection(typer::typed_entities(found@)),
        Findings::Entities(found) => spans::selection(
            rules::confident_entities(s, found@, floor),
        ),
    }
}

/// The recording that a table holds; without a table nothing is recorded.
pub open spec fn recording_of(table: Option<&ReplayTable>) -> Map<Seq<char>, Seq<NerEntity>> {
    match table {
        Some(table) => table@,
        None => Map::empty(),
    }
}

/// Whether a step is right for a text. A blank text is done and has no entities. A recorded text is
/// done with those of the recording. Any other text is done with what is stored under its key, or
/// else left to the rules or to the typer, whichever is in use.
pub open spec fn answers(
    step: ExtractStep,
    s: Seq<char>,
    recorded: Map<Seq<char>, Seq<NerEntity>>,
    stored: Map<u64, Seq<NerEntity>>,
    fallback: bool,
) -> bool {
    if text::is_blank(s) {
        step matches ExtractStep::Done(entities) && entities@.len() == 0
    } else if recorded.contains_key(s) {
        step matches ExtractStep::Done(entities) && entities@ == recorded[s]
    } else {
        match step {
            ExtractStep::Done(entities) => stored.contains_key(cache::key_of(s)) && entities@
                == stored[cache::key_of(s)],
            ExtractStep::FindEntities => fallback,
            ExtractStep::TypeSpans => !fallback,
        }
    }
}

/// Whether every stored list of entities is its own selection.
pub open spec fn all_selected(stored: Map<u64, Seq<NerEntity>>) -> bool {
    forall|key: u64| #[trigger]
        stored.contains_key(key) ==> spans::selection(stored[key]) == stored[key]
}

/// Decides by what the cache gave for a text: its entities if it had them, or else what to run.
pub fn after_lookup(cached: Option<Vec<NerEntity>>, use_fallback: bool) -> (r: ExtractStep)
    ensures
        r == match cached {
            Some(entities) => ExtractStep::Done(entities),
            None => if use_fallback {
                ExtractStep::FindEntities
            } else {
                ExtractStep::TypeSpans
            },
        },
{
    match cached {
        Some(entities) => ExtractStep::Done(entities),
        None => if use_fallback {
            ExtractStep::FindEntities
        } else {
            ExtractStep::TypeSpans
        },
    }
}

/// The statistics of a cache with that many texts in it: the number, and how many it holds at most.
pub fn stats_of(count: u64) -> (r: (u64, u64))
    ensures
        r == (count, 1000u64),
{
    (count, NER_CACHE_SIZE)
}

/// The recognition stage: which of the typer and the rules is in use, the least confidence of what
/// the rules find, and the cache.
pub struct NeuralNer {
    use_fallback: bool,
    fallback_confidence_threshold: Confidence,
    entity_cache: Cache<u64, Vec<NerEntity>>,
}

impl NeuralNer {
    /// Whether the rules are in use.
    pub closed spec fn fallback(self) -> bool {
        self.use_fallback
    }

    /// The least confidence of what the rules find.
    pub closed spec fn floor(self) -> Confidence {
        self.fallback_confidence_threshold
    }

    /// The entities that the cache may give, by key.
    pub closed spec fn stored(self) -> Map<u64, Seq<NerEntity>> {
        cache::cached(self.entity_cache)
    }

    /// The number of texts that the cache holds at most, and how long, in seconds.
    pub closed spec fn cache_bounds(self) -> (u64, u64) {
        cache::bounds(self.entity_cache)
    }

    /// The cache has the bounds that it should have, and every list in it is its own selection.
    pub closed spec fn wf(self) -> bool {
        &&& cache::bounds(self.entity_cache) == (NER_CACHE_SIZE, NER_CACHE_AGE)
        &&& all_selected(self.stored())
    }

    /// A stage that uses the typer if its model is there, and else the rules.
    pub fn new(config: NerConfig, model_available: bool) -> (r: Self)
        ensures
            r.wf(),
            r.fallback() == !model_available,
            r.floor() == config.confidence_threshold,
            r.stored() == cache::no_entries(),
            r.cache_bounds() == (1000u64, 3600u64),
    {
        NeuralNer {
            use_fallback: !model_available,
            fallback_confidence_threshold: config.confidence_threshold,
            entity_cache: cache::build_cache(NER_CACHE_SIZE, NER_CACHE_AGE),
        }
    }

    /// A stage that uses the rules.
    pub fn new_fallback(config: NerConfig) -> (r: Self)
        ensures
            r.wf(),
            r.fallback(),
            r.floor() == config.confidence_threshold,
            r.stored() == cache::no_entries(),
            r.cache_bounds() == (1000u64, 3600u64),
    {
        NeuralNer::new(config, false)
    }

    /// Whether the rules are in use.
    pub fn is_fallback_mode(&self) -> (r: bool)
        ensures
            r == self.fallback(),
    {
        self.use_fallback
    }

    /// Answers for the entities of a text, or says what must find them.
    ///
    /// A blank text has none. A recorded text has those of the recording. The entities of any other
    /// text come from the cache, and where the cache does not have them, from the typer or the
    /// rules.
    pub fn extract(&self, text: &str, recorded: Option<&ReplayTable>) -> (r: ExtractStep)
        ensures
            answers(r, text@, recording_of(recorded), self.stored(), self.fallback()),
    {
        if text::blank(text) {
            return ExtractStep::Done(Vec::new());
        }
        if let Some(table) = recorded {
            if let Some(entities) = table.lookup(text) {
                return ExtractStep::Done(entities);
            }
        }
        let cached = cache::get(&self.entity_cache, cache::cache_key(text));
        after_lookup(cached, self.use_fallback)
    }

    /// Turns what was found in a text into its entities, and keeps them for the next time.
    pub fn finish_extract(&mut self, text: &str, findings: Findings) -> (r: Vec<NerEntity>)
        ensures
            r@ == entities_in(text@, findings, old(self).floor()),
            final(self).stored() == old(self).stored().insert(cache::key_of(text@), r@),
            final(self).fallback() == old(self).fallback(),
            final(self).floor() == old(self).floor(),
            final(self).cache_bounds() == old(self).cache_bounds(),
            old(self).wf() ==> final(self).wf(),
    {
        let ghost given = findings;
        let entities = match findings {
            Findings::Spans(found) => typer::extract_gliner(found),
            Findings::Entities(found) => rules::extract_fallback(
                text,
                found,
                self.fallback_confidence_threshold,
            ),
        };
        proof {
            match given {
                Findings::Spans(found) => spans::law_selection_settles(
                    typer::typed_entities(found@),
                ),
                Findings::Entities(found) => spans::law_selection_settles(
                    rules::confident_entities(text@, found@, self.fallback_confidence_threshold),
                ),
            }
        }
        cache::insert(
            &mut self.entity_cache,
            cache::cache_key(text),
            entity::copy_entities(&entities),
        );
        entities
    }

    /// An estimate of the number of texts in the cache, and the number of texts that it holds at
    /// most. The cache counts with a delay, and nothing is said of the estimate.
    pub fn cache_stats(&self) -> (r: (u64, u64))
        ensures
            r.1 == 1000,
    {
        stats_of(cache::entry_count(&self.entity_cache))
    }

    /// Empties the cache.
    pub fn clear_cache(&mut self)
        ensures
            final(self).stored() == cache::no_entries(),
            final(self).fallback() == old(self).fallback(),
            final(self).floor() == old(self).floor(),
            final(self).cache_bounds() == old(self).cache_bounds(),
            old(self).wf() ==> final(self).wf(),
    {
        cache::invalidate_all(&mut self.entity_cache);
    }
}

/// Whatever the stage keeps for a text is free of overlaps and in order: it is its own selection.
pub proof fn law_stage_keeps_selections(ner: NeuralNer)
    requires
        ner.wf(),
    ensures
        all_selected(ner.stored()),
{
}

/// What was found in a text is read back: asked again for the same text, the stage answers with the
/// same entities or has them found again.
pub proof fn law_findings_are_read_back(
    step: ExtractStep,
    s: Seq<char>,
    recorded: Map<Seq<char>, Seq<NerEntity>>,
    stored: Map<u64, Seq<NerEntity>>,
    fallback: bool,
    entities: Seq<NerEntity>,
)
    requires
        !text::is_blank(s),
        !recorded.contains_key(s),
        answers(step, s, recorded, stored.insert(cache::key_of(s), entities), fallback),
    ensures
        step matches ExtractStep::Done(given) ==> given@ == entities,
        !(step is Done) ==> (step is FindEntities <==> fallback),
{
}

/// What is found in one text changes nothing for a text with another key.
pub proof fn law_other_texts_are_untouched(
    step: ExtractStep,
    s: Seq<char>,
    other: Seq<char>,
    recorded: Map<Seq<char>, Seq<NerEntity>>,
    stored: Map<u64, Seq<NerEntity>>,
    fallback: bool,
    entities: Seq<NerEntity>,
)
    requires
        cache::key_of(s) != cache::key_of(other),
    ensures
        answers(step, other, recorded, stored.insert(cache::key_of(s), entities), fallback)
            <==> answers(step, other, recorded, stored, fallback),
{
}

/// A cleared cache answers for no text: what is neither blank nor recorded must be found again.
pub proof fn law_cleared_cache_gives_nothing(
    step: ExtractStep,
    s: Seq<char>,
    recorded: Map<Seq<char>, Seq<NerEntity>>,
    fallback: bool,
)
    requires
        !text::is_blank(s),
        !recorded.contains_key(s),
        answers(step, s, recorded, cache::no_entries(), fallback),
    ensures
        fallback ==> step is FindEntities,
        !fallback ==> step is TypeSpans,
{
}

/// Blank and recorded texts are answered without the typer, the rules or the cache.
pub proof fn law_blank_and_recorded_texts_are_answered(
    step: ExtractStep,
    other: ExtractStep,
    s: Seq<char>,
    recorded: Map<Seq<char>, Seq<NerEntity>>,
    stored: Map<u64, Seq<NerEntity>>,
    other_stored: Map<u64, Seq<NerEntity>>,
    fallback: bool,
    other_fallback: bool,
)
    requires
        text::is_blank(s) || recorded.contains_key(s),
        answers(step, s, recorded, stored, fallback),
        answers(other, s, recorded, other_stored, other_fallback),
    ensures
        step is Done,
        other is Done,
        step->Done_0@ == other->Done_0@,
{
}

/// The entities of a text that is not recorded never overlap, and come in the order of their
/// starts.
pub proof fn law_answers_do_not_overlap(
    step: ExtractStep,
    s: Seq<char>,
    recorded: Map<Seq<char>, Seq<NerEntity>>,
    stored: Map<u64, Seq<NerEntity>>,
    fallback: bool,
)
    requires
        all_selected(stored),
        !recorded.contains_key(s),
        answers(step, s, recorded, stored, fallback),
        step is Done,
    ensures
        forall|i: int, j: int|
            0 <= i < j < step->Done_0@.len() ==> !spans::overlap(
                #[trigger] step->Done_0@[i],
                #[trigger] step->Done_0@[j],
            ) && step->Done_0@[i].start <= step->Done_0@[j].start,
{
    let given = step->Done_0@;
    if !text::is_blank(s) {
        assert(spans::selection(given) == given);
        spans::law_selection_is_disjoint(given);
        spans::law_selection_is_ordered(given);
    }
}

/// The network is forbidden by the letters `true` and by `1` alone.
pub proof fn law_offline_settings(setting: Option<&str>)
    ensures
        is_offline(setting) <==> (setting matches Some(v) && (v@ == seq!['t', 'r', 'u', 'e'] || v@
            == seq!['1'])),
{
    reveal_strlit("true");
    reveal_strlit("1");
    assert("true"@ =~= seq!['t', 'r', 'u', 'e']);
    assert("1"@ =~= seq!['1']);
}

/// A text without a character that is not white space is done, and has no entities, whatever is
/// recorded or stored.
pub proof fn law_blank_texts_are_done(
    step: ExtractStep,
    s: Seq<char>,
    recorded: Map<Seq<char>, Seq<NerEntity>>,
    stored: Map<u64, Seq<NerEntity>>,
    fallback: bool,
)
    requires
        forall|i: int| 0 <= i < s.len() ==> unicode::is_whitespace(#[trigger] s[i]),
        answers(step, s, recorded, stored, fallback),
    ensures
        step matches ExtractStep::Done(entities) && entities@.len() == 0,
{
    assert(text::is_blank(s));
}

/// A recorded text is done with what its table holds for it, whatever is stored; one that is neither
/// recorded nor stored goes to the rules where they are in use, and else to the typer.
pub proof fn law_recorded_and_unknown_texts(
    step: ExtractStep,
    s: Seq<char>,
    i: int,
    table: Option<&ReplayTable>,
    stored: Map<u64, Seq<NerEntity>>,
    fallback: bool,
)
    requires
        0 <= i < s.len(),
        !unicode::is_whitespace(s[i]),
        answers(step, s, recording_of(table), stored, fallback),
    ensures
        match table {
            Some(t) if t@.contains_key(s) => step is Done && step->Done_0@ == t@[s],
            _ => !stored.contains_key(cache::key_of(s)) ==> (step is FindEntities <==> fallback) && (
            step is TypeSpans <==> !fallback),
        },
{
    assert(!text::is_blank(s));
}

/// Whatever was found, the entities of a text lie apart and in order: one with something in its span
/// ends before the next such one starts.
pub proof fn law_entities_lie_apart(s: Seq<char>, findings: Findings, floor: Confidence)
    ensures
        forall|i: int, j: int|
            0 <= i < j < entities_in(s, findings, floor).len() ==> {
                let a = #[trigger] entities_in(s, findings, floor)[i];
                let b = #[trigger] entities_in(s, findings, floor)[j];
                &&& a.start < a.end && b.start < b.end ==> a.end <= b.start
                &&& a.start <= b.start
            },
{
    match findings {
        Findings::Spans(found) => spans::law_selected_spans_lie_apart(
            typer::typed_entities(found@),
        ),
        Findings::Entities(found) => spans::law_selected_spans_lie_apart(
            rules::confident_entities(s, found@, floor),
        ),
    }
}

/// Every span of the typer that is not blank and into which no other such span reaches becomes an
/// entity of the text, with all that the typer says of it.
pub proof fn law_typed_spans_are_recognized(
    s: Seq<char>,
    found: Vec<TypedSpan>,
    floor: Confidence,
    k: int,
)
    requires
        0 <= k < found@.len(),
        exists|i: int|
            0 <= i < found@[k].text@.len() && !unicode::is_whitespace(#[trigger] found@[k].text@[i]),
        forall|j: int|
            0 <= j < found@.len() && j != k && (exists|i: int|
                0 <= i < found@[j].text@.len() && !unicode::is_whitespace(
                    #[trigger] found@[j].text@[i],
                )) ==> found@[k].end <= (#[trigger] found@[j]).start || found@[j].end
                <= found@[k].start,
    ensures
        exists|m: int|
            0 <= m < entities_in(s, Findings::Spans(found), floor).len() && {
                let e = #[trigger] entities_in(s, Findings::Spans(found), floor)[m];
                &&& e.text == found@[k].text
                &&& e.entity_type == NerEntityType::of_class(found@[k].coarse)
                &&& e.confidence == found@[k].score
                &&& e.start == found@[k].start
                &&& e.end == found@[k].end
                &&& e.fine_label == Some(found@[k].fine_label)
            },
{
    typer::law_lone_spans_are_found(found@, k);
    let selected = spans::selection(typer::typed_entities(found@));
    let m = choose|m: int|
        0 <= m < selected.len() && {
            let e = #[trigger] selected[m];
            &&& e.text == found@[k].text
            &&& e.entity_type == NerEntityType::of_class(found@[k].coarse)
            &&& e.confidence == found@[k].score
            &&& e.start == found@[k].start
            &&& e.end == found@[k].end
            &&& e.fine_label == Some(found@[k].fine_label)
        };
    assert(entities_in(s, Findings::Spans(found), floor)[m] == selected[m]);
}

/// Every entity of a text comes from a span of the typer that is not blank, or from a finding of the
/// rules with enough confidence, and is as that says.
pub proof fn law_entities_have_a_source(
    s: Seq<char>,
    findings: Findings,
    floor: Confidence,
    m: int,
)
    requires
        0 <= m < entities_in(s, findings, floor).len(),
        s.len() <= usize::MAX,
    ensures
        match findings {
            Findings::Spans(found) => exists|k: int|
                0 <= k < found@.len() && {
                    let e = entities_in(s, findings, floor)[m];
                    let span = #[trigger] found@[k];
                    &&& !text::is_blank(span.text@)
                    &&& e.text == span.text
                    &&& e.entity_type == NerEntityType::of_class(span.coarse)
                    &&& e.confidence == span.score
                    &&& e.start == span.start
                    &&& e.end == span.end
                    &&& e.fine_label == Some(span.fine_label)
                },
            Findings::Entities(found) => exists|k: int|
                0 <= k < found@.len() && {
                    let e = entities_in(s, findings, floor)[m];
                    let one = #[trigger] found@[k];
                    &&& one.confidence.is_at_least(floor)
                    &&& e.text == one.name
                    &&& e.entity_type == NerEntityType::of_rule_class(one.label)
                    &&& e.confidence == one.confidence
                    &&& (e.start as nat, e.end as nat) == rules::surface_span(s, one.name@)
                    &&& e.fine_label is None
                },
        },
{
    let e = entities_in(s, findings, floor)[m];
    match findings {
        Findings::Spans(found) => {
            let all = typer::typed_entities(found@);
            spans::law_selection_is_disjoint(all);
            assert(all.contains(e));
            let i = choose|i: int| 0 <= i < all.len() && all[i] == e;
            let k = typer::lemma_typed_from(found@, i);
            assert(!text::is_blank(found@[k].text@));
        },
        Findings::Entities(found) => {
            let all = rules::confident_entities(s, found@, floor);
            spans::law_selection_is_disjoint(all);
            assert(all.contains(e));
            let i = choose|i: int| 0 <= i < all.len() && all[i] == e;
            let k = rules::lemma_confident_from(s, found@, floor, i);
            rules::law_span_covers_surface(s, found@[k].name@);
            assert(found@[k].confidence.is_at_least(floor));
        },
    }
}

/// Every finding of the rules with enough confidence becomes an entity of the text, if the place where
/// its name stands is reached by no other such finding's.
pub proof fn law_rule_findings_are_recognized(
    s: Seq<char>,
    found: Vec<RuleEntity>,
    floor: Confidence,
    k: int,
)
    requires
        s.len() <= usize::MAX,
        0 <= k < found@.len(),
        found@[k].confidence.is_at_least(floor),
        forall|j: int|
            0 <= j < found@.len() && j != k && (#[trigger] found@[j]).confidence.is_at_least(floor)
                ==> rules::surface_span(s, found@[k].name@).1 <= rules::surface_span(
                s,
                found@[j].name@,
            ).0 || rules::surface_span(s, found@[j].name@).1 <= rules::surface_span(
                s,
                found@[k].name@,
            ).0,
    ensures
        exists|m: int|
            0 <= m < entities_in(s, Findings::Entities(found), floor).len() && {
                let e = #[trigger] entities_in(s, Findings::Entities(found), floor)[m];
                &&& e.text == found@[k].name
                &&& e.entity_type == NerEntityType::of_rule_class(found@[k].label)
                &&& e.confidence == found@[k].confidence
                &&& (e.start as nat, e.end as nat) == rules::surface_span(s, found@[k].name@)
                &&& e.fine_label is None
            },
{
    let before = found@.take(k);
    let after = found@.skip(k + 1);
    let one = found@[k];
    assert(found@ =~= before + (seq![one] + after));
    rules::law_findings_become_entities(s, before, seq![one] + after, one, floor);
    rules::law_findings_become_entities(s, seq![one], after, one, floor);
    let all = rules::confident_entities(s, found@, floor);
    let head = rules::confident_entities(s, before, floor);
    let tail = rules::confident_entities(s, after, floor);
    let n = head.len() as int;
    assert(all =~= head + (rules::confident_entities(s, seq![one], floor) + tail));
    let e = all[n];
    assert(e == rules::confident_entities(s, seq![one], floor)[0]);
    assert forall|j: int| 0 <= j < all.len() && j != n implies all[n].end <= (
    #[trigger] all[j]).start || all[j].end <= all[n].start by {
        let from = if j < n {
            rules::lemma_confident_from(s, before, floor, j)
        } else {
            assert(all[j] == tail[j - n - 1]);
            rules::lemma_confident_from(s, after, floor, j - n - 1) + k + 1
        };
        rules::law_span_covers_surface(s, found@[from].name@);
        assert(all[j] == rules::entity_of_finding(s, found@[from]));
        assert(found@[from].confidence.is_at_least(floor));
    }
    spans::law_lone_entities_stay(all, n);
    let selected = spans::selection(all);
    let m = choose|m: int| 0 <= m < selected.len() && selected[m] == e;
    assert(entities_in(s, Findings::Entities(found), floor)[m] == e);
}

/// The cache of a stage holds a thousand texts for an hour.
pub proof fn law_cache_bounds(ner: NeuralNer)
    requires
        ner.wf(),
    ensures
        ner.cache_bounds() == (1000u64, 3600u64),
{
}

/// The files in the model directory.
pub proof fn law_model_files()
    ensures
        MODEL_FILE@ == "model.onnx"@,
        TOKENIZER_FILE@ == "tokenizer.json"@,
        MAX_LENGTH == 128,
{
}

/// Longer spans win: a span of the typer that is not blank is among the entities of its text, or an
/// entity that reaches into it is, which is longer, or as long and starts no later.
pub proof fn law_longer_spans_win(
    s: Seq<char>,
    found: Vec<TypedSpan>,
    floor: Confidence,
    k: int,
)
    requires
        0 <= k < found@.len(),
        found@[k].start <= found@[k].end,
        exists|i: int|
            0 <= i < found@[k].text@.len() && !unicode::is_whitespace(#[trigger] found@[k].text@[i]),
    ensures
        exists|m: int|
            0 <= m < entities_in(s, Findings::Spans(found), floor).len() && {
                let e = #[trigger] entities_in(s, Findings::Spans(found), floor)[m];
                let span = found@[k];
                ||| e.text == span.text && e.start == span.start && e.end == span.end && e.confidence
                    == span.score && e.fine_label == Some(span.fine_label)
                ||| e.start < span.end && span.start < e.end && e.end - e.start > span.end - span.start
                ||| e.start < span.end && span.start < e.end && e.end - e.start == span.end - span.start
                    && e.start <= span.start
            },
{
    let before = found@.take(k);
    let after = found@.skip(k + 1);
    let span = found@[k];
    assert(found@ =~= before + (seq![span] + after));
    typer::law_spans_become_entities(before, seq![span] + after, span);
    typer::law_spans_become_entities(seq![span], after, span);
    let all = typer::typed_entities(found@);
    let n = typer::typed_entities(before).len() as int;
    let e = typer::typed_entities(seq![span])[0];
    assert(all[n] == e);
    let selected = spans::selection(all);
    assert(selected == entities_in(s, Findings::Spans(found), floor));
    if selected.contains(e) {
        let m = choose|m: int| 0 <= m < selected.len() && selected[m] == e;
        assert(entities_in(s, Findings::Spans(found), floor)[m] == e);
    } else {
        spans::law_only_the_preferred_displace(all, e);
        let m = choose|m: int|
            0 <= m < selected.len() && {
                let kept = #[trigger] selected[m];
                &&& kept.start < e.end
                &&& e.start < kept.end
                &&& kept.end - kept.start > e.end - e.start || (kept.end - kept.start == e.end
                    - e.start && kept.start <= e.start)
            };
        assert(entities_in(s, Findings::Spans(found), floor)[m] == selected[m]);
    }
}

/// Longer names win: a finding of the rules with enough confidence is among the entities of its text, or
/// an entity that reaches into the place of its name is, which is longer, or as long and starts no later.
pub proof fn law_longer_names_win(
    s: Seq<char>,
    found: Vec<RuleEntity>,
    floor: Confidence,
    k: int,
)
    requires
        s.len() <= usize::MAX,
        0 <= k < found@.len(),
        found@[k].confidence.is_at_least(floor),
    ensures
        exists|m: int|
            0 <= m < entities_in(s, Findings::Entities(found), floor).len() && {
                let e = #[trigger] entities_in(s, Findings::Entities(found), floor)[m];
                let at = rules::surface_span(s, found@[k].name@);
                ||| e.text == found@[k].name && e.start == at.0 && e.end == at.1 && e.confidence
                    == found@[k].confidence && e.fine_label is None
                ||| e.start < at.1 && at.0 < e.end && e.end - e.start > at.1 - at.0
                ||| e.start < at.1 && at.0 < e.end && e.end - e.start == at.1 - at.0 && e.start <= at.0
            },
{
    let before = found@.take(k);
    let after = found@.skip(k + 1);
    let one = found@[k];
    assert(found@ =~= before + (seq![one] + after));
    rules::law_findings_become_entities(s, before, seq![one] + after, one, floor);
    rules::law_findings_become_entities(s, seq![one], after, one, floor);
    rules::law_span_covers_surface(s, one.name@);
    let all = rules::confident_entities(s, found@, floor);
    let n = rules::confident_entities(s, before, floor).len() as int;
    let e = rules::confident_entities(s, seq![one], floor)[0];
    assert(all[n] == e);
    let selected = spans::selection(all);
    assert(selected == entities_in(s, Findings::Entities(found), floor));
    if selected.contains(e) {
        let m = choose|m: int| 0 <= m < selected.len() && selected[m] == e;
        assert(entities_in(s, Findings::Entities(found), floor)[m] == e);
    } else {
        spans::law_only_the_preferred_displace(all, e);
        let m = choose|m: int|
            0 <= m < selected.len() && {
                let kept = #[trigger] selected[m];
                &&& kept.start < e.end
                &&& e.start < kept.end
                &&& kept.end - kept.start > e.end - e.start || (kept.end - kept.start == e.end
                    - e.start && kept.start <= e.start)
            };
        assert(entities_in(s, Findings::Entities(found), floor)[m] == selected[m]);
    }
}

} // verus!
