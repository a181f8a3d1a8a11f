use pi_natives::engine::shows;
use pi_natives::ngram::candidates::{Candidate, Pick, NO_ROW};
use pi_natives::ngram::lexicon::{Params, Threshold, NONE};
use pi_natives::ngram::max_tree::MaxTree;
use pi_natives::ngram::model::Model;
use pi_natives::ngram::pair_table::{pair_key, PairTable};
use pi_natives::ngram::query::QueryState;
use pi_natives::ngram::ranges::{prefix_nodes, update_nodes, Followers};
use pi_natives::ngram::ranking::{gather, pick_best, standing, Standing, Weighs};
use pi_natives::ngram::session::Session;
use pi_natives::ngram::snapshot::{decode, encode, payload_of, restore, seal};
use pi_natives::ngram::snapshot_format::SnapshotError;
use pi_natives::ngram::structures::IdTable;
use pi_natives::ngram::suffix::{local_suffix, plain_suffix, suffix};
use pi_natives::ngram::tail_table::TailTable;
use pi_natives::ngram::text::case_tail_chars;
use pi_natives::ngram::vocab::Vocab;
use pi_natives::ngram::web::{SortedWords, WebError, WebPrior, NO_SLOT};

// ---------------------------------------------------------------------------
// A small web prior
// ---------------------------------------------------------------------------
const WORDS: [(&str, f64, bool); 38] = [
    ("a", 9.08e9, true),
    ("an", 1.6e9, true),
    ("and", 1.2e9, true),
    ("build", 1.0e8, true),
    ("can", 2.0e9, true),
    ("check", 1.6e8, true),
    ("count", 0.9e8, true),
    ("fails", 1.0e7, true),
    ("figure", 0.8e8, true),
    ("give", 1.5e8, true),
    ("help", 6.0e8, true),
    ("i", 3.08e9, true),
    ("in", 2.4e9, true),
    ("iteration", 5.0e6, true),
    ("log", 1.6e8, true),
    ("me", 5.6e8, true),
    ("module", 0.5e8, true),
    ("need", 3.0e8, true),
    ("of", 2.3e9, true),
    ("open", 2.4e8, true),
    ("our", 6.0e8, true),
    ("out", 6.2e8, true),
    ("over", 3.8e8, true),
    ("page", 6.0e8, true),
    ("please", 4.0e8, true),
    ("qzxy", 1.0e3, false),
    ("teh", 4.0e5, false),
    ("the", 2.31e10, true),
    ("then", 5.4e8, true),
    ("there", 7.0e8, true),
    ("they", 8.8e8, true),
    ("this", 3.2e9, true),
    ("to", 1.2e10, true),
    ("value", 1.6e8, true),
    ("well", 3.5e8, true),
    ("went", 0.6e8, true),
    ("with", 3.1e9, true),
    ("you", 2.9e9, true),
];

const DICT_ONLY: [&str; 2] = ["parser", "refactor"];

fn web_id(word: &str) -> u32 {
    WORDS.iter().position(|w| w.0 == word).expect("a web word") as u32
}

/// Contexts with their followers; the empty context is the sentence start.
fn bigrams() -> Vec<(u32, Vec<(u32, f64)>)> {
    let rows = |list: &[(&str, f64)]| list.iter().map(|&(w, c)| (web_id(w), c)).collect::<Vec<_>>();
    vec![
        (web_id("me"), rows(&[("a", 6.0e7), ("and", 2.0e6), ("out", 5.0e6), ("the", 3.0e7)])),
        (web_id("you"), rows(&[("can", 9.0e7), ("need", 4.0e7)])),
        (WORDS.len() as u32, rows(&[("a", 4.0e6), ("i", 9.0e6), ("in", 1.0e6), ("the", 2.0e7), ("this", 3.0e6)])),
    ]
}

fn content() -> Vec<u8> {
    let contexts = bigrams();
    let rows: Vec<(u32, f64)> = contexts.iter().flat_map(|c| {
        let mut last = 0;
        c.1.iter().enumerate().map(move |(i, &(id, count))| {
            let delta = if i == 0 { id } else { id - last };
            last = id;
            (delta, count)
        }).collect::<Vec<_>>()
    }).collect();
    let mut raw = b"PIWP".to_vec();
    for n in [1, WORDS.len(), DICT_ONLY.len(), contexts.len(), rows.len()] {
        raw.extend_from_slice(&(n as u32).to_le_bytes());
    }
    raw.extend_from_slice(&6.0e7f64.to_le_bytes());
    for w in &WORDS {
        raw.extend_from_slice(&(w.1 as f32).to_le_bytes());
    }
    for byte in WORDS.chunks(8) {
        raw.push(byte.iter().enumerate().map(|(i, w)| (w.2 as u8) << i).sum());
    }
    for c in &contexts {
        raw.extend_from_slice(&c.0.to_le_bytes());
    }
    for c in &contexts {
        raw.extend_from_slice(&(c.1.len() as u32).to_le_bytes());
    }
    for r in &rows {
        raw.extend_from_slice(&r.0.to_le_bytes());
    }
    for r in &rows {
        raw.extend_from_slice(&(r.1 as f32).to_le_bytes());
    }
    for w in &WORDS {
        raw.extend_from_slice(w.0.as_bytes());
        raw.push(b'\n');
    }
    for w in &DICT_ONLY {
        raw.extend_from_slice(w.as_bytes());
        raw.push(b'\n');
    }
    raw
}

fn prior() -> WebPrior {
    let web = WebPrior::read(&content()).expect("whole");
    assert!(web.words.in_order() && web.dict_only.in_order());
    web
}

// ---------------------------------------------------------------------------
// The engine with its arithmetic
// ---------------------------------------------------------------------------
const PASTE_WEIGHT: f32 = 0.25;
const MU1: f64 = 10_000.0;
const D2: f64 = 0.9;
const MU2: f64 = 2.0;
const D3: f64 = 0.9;
const MU3: f64 = 2.0;
const CASE_PRIOR: f64 = 0.97;
const CASE_STRENGTH: f64 = 2.0;
const CACHE_WEIGHT: f64 = 0.5;
const CACHE_DECAY: f64 = 500.0;
const CACHE_BOOST: f64 = 4.0;
const SESSION_WEIGHT: f64 = 0.02;

fn threshold(t: Threshold) -> f32 {
    match t {
        Threshold::SingleLetter => 0.3,
        Threshold::AfterSingleLetter => 0.27,
        Threshold::Plain => 0.17,
    }
}

fn number(bits: u32) -> f64 {
    f64::from(f32::from_bits(bits))
}

fn added(bits: u32, weight: f32) -> u32 {
    (f32::from_bits(bits) + weight).to_bits()
}

fn added_wide(bits: u64, weight: f32) -> u64 {
    (f64::from_bits(bits) + f64::from(weight)).to_bits()
}

fn narrow_key(x: f32) -> u32 {
    let bits = x.to_bits();
    if bits >> 31 == 1 { !bits } else { bits | 1 << 31 }
}

fn wide_key(x: f64) -> u64 {
    let bits = x.to_bits();
    if bits >> 63 == 1 { !bits } else { bits | 1 << 63 }
}

struct Engine {
    web: WebPrior,
    p0: Vec<f32>,
    prob: Vec<f32>,
    covered: Vec<f64>,
    model: Model,
    state: QueryState,
}

struct Shares {
    cv: f64,
    tv: f64,
    cuv: f64,
    tuv: f64,
    web: bool,
    web_s: f64,
}

impl Engine {
    fn with(model: impl FnOnce(&WebPrior) -> Model) -> Engine {
        let web = prior();
        let total: f64 = web.count.iter().map(|&c| number(c)).sum();
        let p0 = web.count.iter().map(|&c| (number(c) / total) as f32).collect();
        let mut prob = vec![0.0; web.follower.len()];
        let mut covered = vec![0.0; web.start.len() - 1];
        for ctx in 0..=web.len() {
            let slot = web.slot(ctx);
            if slot == NO_SLOT {
                continue;
            }
            let whole = if ctx == web.len() {
                f64::from_bits(web.sentence_total) / 0.6
            } else {
                number(web.count[ctx])
            };
            let (from, to) = web.rows(slot);
            let mut mass = 0.0f64;
            for row in from..to {
                let p = number(web.row_count[row]) / whole;
                prob[row] = p as f32;
                mass += p;
            }
            covered[slot as usize] = f64::from(mass.min(1.0) as f32);
        }
        let model = model(&web);
        let mut engine =
            Engine { web, p0, prob, covered, model, state: QueryState::default() };
        engine.rescore();
        engine
    }

    fn new() -> Engine {
        Engine::with(|web| Model::new(Params::default(), web))
    }

    fn p0(&self, id: u32) -> f64 {
        match self.model.lexicon.web_id[id as usize] {
            NONE => 0.0,
            wid => f64::from(self.p0[wid as usize]),
        }
    }

    fn score(&self, id: u32) -> u32 {
        narrow_key((number(self.model.counts.count[id as usize]) + MU1 * self.p0(id)) as f32)
    }

    fn rescore(&mut self) {
        let base = self.model.lexicon.vocab.base_len() as u32;
        let keys = (0..base).map(|id| self.score(id)).collect();
        self.model.rebuild_ranges(keys, &self.web);
    }

    fn observe(&mut self, prompt: &str) {
        let learned = self.model.learn(prompt, PASTE_WEIGHT > 0.0, &self.web);
        let weight = if learned.typed { 1.0 } else { PASTE_WEIGHT };
        for e in &learned.events {
            let mut cells = self.model.read(e);
            cells.total = added_wide(cells.total, weight);
            cells.count = added(cells.count, weight);
            cells.tail = added(cells.tail, weight);
            cells.follower = added(cells.follower, weight);
            cells.follower_total = added_wide(cells.follower_total, weight);
            cells.trigram = added(cells.trigram, weight);
            cells.pair_total = added(cells.pair_total, weight);
            let key = narrow_key((number(cells.count) + MU1 * self.p0(e.w)) as f32);
            self.model.store(e, &cells, key, &self.web);
        }
        if self.model.settle(&self.web).is_some() {
            self.rescore();
        }
    }

    fn observe_times(&mut self, prompt: &str, times: usize) {
        for _ in 0..times {
            self.observe(prompt);
        }
    }

    fn interp(&self, s: &Shares, c1: f64, p0: f64, pw: f64, disc2: f64, disc3: f64) -> f64 {
        let p1 = (c1 + MU1 * p0) / (f64::from_bits(self.model.counts.total) + MU1);
        let q2 = if s.web { pw + (1.0 - s.web_s) * p1 } else { p1 };
        let p2 = if s.cv > 0.0 { (disc2 + (D2 * s.tv + MU2) * q2) / (s.cv + MU2) } else { q2 };
        if s.cuv > 0.0 { (disc3 + (D3 * s.tuv + MU3) * p2) / (s.cuv + MU3) } else { p2 }
    }

    fn pw(&self, row: u32) -> f64 {
        if row == NO_ROW { 0.0 } else { f64::from(self.prob[row as usize]) }
    }

    fn case_prob(&self, id: u32, tail: &str, plain: bool, prior: f64) -> f64 {
        let count = number(self.model.counts.count[id as usize]);
        let (mut other, mut compatible) = (0.0, 0.0);
        for (form, n) in self.model.counts.tails.list(id).into_iter().flatten() {
            other += number(*n);
            if form.starts_with(tail) {
                compatible += number(*n);
            }
        }
        if plain {
            compatible += count - other;
        }
        (compatible + CASE_STRENGTH * prior) / (count + CASE_STRENGTH)
    }

    fn rank(&self, key: &str, typed: &str, k: usize) -> Option<(Pick, f64)> {
        let m = &self.model;
        let g = gather(m, &self.web, &self.state, key, &Weighs { web: true, boost: true, session: true });
        let list = g.ctx.v.and_then(|v| m.followers_of(v));
        let shares = Shares {
            cv: list.map_or(0.0, |l| f64::from_bits(l.total)),
            tv: list.map_or(0.0, |l| l.ids.types() as f64),
            cuv: if g.ctx.pair == NONE { 0.0 } else { number(m.counts.pairs.pair_total[g.ctx.pair as usize]) },
            tuv: if g.ctx.pair == NONE { 0.0 } else { f64::from(m.counts.pairs.pair_types[g.ctx.pair as usize]) },
            web: g.ctx.web_slot != NO_SLOT,
            web_s: if g.ctx.web_slot == NO_SLOT { 0.0 } else { self.covered[g.ctx.web_slot as usize] },
        };
        let (mut disc2, mut sum_pw, mut disc3) = (0.0, 0.0, 0.0);
        for (step, &place) in g.steps.iter().zip(&g.places) {
            disc2 += (number(step.c2) - D2).max(0.0);
            sum_pw += self.pw(step.row);
            disc3 += (number(g.cands.list[place].c3) - D3).max(0.0);
        }
        let sum_c1: f64 = (g.lo as u32..g.hi as u32)
            .chain(g.overflow.iter().copied())
            .map(|id| number(m.counts.count[id as usize]))
            .sum();
        let sum_p0: f64 = self.p0[g.wlo..g.whi].iter().map(|&p| f64::from(p)).sum();
        let mass = self.interp(&shares, sum_c1, sum_p0, sum_pw, disc2, disc3);

        let mut cache = vec![0.0f64; g.cands.list.len()];
        let mut cache_mass = 0.0;
        for (hit, target) in g.hits.iter().zip(&g.targets) {
            let mut weight = (-(hit.distance as f64) / CACHE_DECAY).exp();
            if hit.same_context {
                weight *= 1.0 + CACHE_BOOST;
            }
            cache_mass += weight;
            if let Some(at) = target {
                cache[*at] += weight;
            }
        }
        let tail: String = case_tail_chars(&typed.chars().collect::<Vec<_>>()).into_iter().collect();
        let plain = tail == key;
        let prior = if plain { CASE_PRIOR } else { 1.0 - CASE_PRIOR };
        let mut case_mass = prior * mass;
        let mut scores = vec![0.0f64; g.cands.list.len()];
        for (i, c) in g.cands.list.iter().enumerate() {
            if c.id == NONE {
                continue;
            }
            let raw = self.interp(
                &shares,
                number(m.counts.count[c.id as usize]),
                self.p0(c.id),
                self.pw(c.row),
                (number(c.c2) - D2).max(0.0),
                (number(c.c3) - D3).max(0.0),
            );
            let case_p = self.case_prob(c.id, &tail, plain, prior);
            case_mass += raw * (case_p - prior);
            scores[i] = raw * case_p;
        }
        let case_mass = case_mass.max(scores.iter().sum());
        let norm = 1.0 + CACHE_WEIGHT * cache_mass + SESSION_WEIGHT * g.session_total as f64;
        let mut excluded = 0.0;
        let mut values = Vec::new();
        let mut standings = Vec::new();
        for (i, c) in g.cands.list.iter().enumerate() {
            let post = if case_mass > 0.0 { scores[i] / case_mass } else { 0.0 };
            let value = (post + CACHE_WEIGHT * cache[i] + SESSION_WEIGHT * f64::from(c.session)) / norm;
            let at = standing(m, &self.state, key, k, c, cache[i] != 0.0);
            if at == Standing::TypedPast {
                excluded += value;
            }
            values.push(value);
            standings.push(at);
        }
        let keys = values.iter().map(|&v| wide_key(v)).collect();
        let (best, pick) = pick_best(&g.cands.list, &standings, &keys)?;
        Some((pick, values[best] / (1.0f64 - excluded).max(0.05)))
    }

    fn ranked(&mut self, before: &str, prefix: &str) -> Option<(String, f32, f32)> {
        let p = self.model.params;
        let key = self.state.begin(self.model.version, before, prefix, p.cache_window, true)?;
        let typed: Vec<char> = prefix.chars().collect();
        while let Some(k) = self.state.next_replay(typed.len()) {
            let head: String = key[..k].iter().collect();
            let typed_head: String = typed[..k].iter().collect();
            let tau = f64::from(threshold(p.threshold_at(k, self.state.first_asked)));
            let shown = self
                .rank(&head, &typed_head, k)
                .filter(|&(_, confidence)| confidence >= tau)
                .map(|(pick, _)| match pick {
                    Pick::Word(id) => self.model.lexicon.vocab.word(id).to_owned(),
                    Pick::Local(a, b) => self.state.window[a as usize..b as usize].iter().collect(),
                });
            self.state.record(shown);
        }
        let text: String = key.iter().collect();
        let (pick, confidence) = self.rank(&text, prefix, typed.len())?;
        let rest = match pick {
            Pick::Word(id) => {
                let forms = self.model.counts.tails.list(id);
                let keys = forms.into_iter().flatten().map(|f| wide_key(number(f.1))).collect();
                let cased: f64 = forms.into_iter().flatten().map(|f| number(f.1)).sum();
                let plain = number(self.model.counts.count[id as usize]) - cased;
                suffix(self.model.lexicon.vocab.word(id), forms, &keys, wide_key(plain), prefix)
            }
            Pick::Local(a, b) => {
                let (a, b) = (a as usize, b as usize);
                let at = self.state.window_at;
                local_suffix(&self.state.before[at + a..at + b], &self.state.window[a..b], prefix, key.len())
            }
        };
        let tau = threshold(p.threshold_at(typed.len(), self.state.first_asked));
        (!rest.is_empty()).then_some((rest, confidence as f32, tau))
    }

    fn complete(&mut self, before: &str, prefix: &str) -> Option<(String, f32)> {
        let (rest, confidence, tau) = self.ranked(before, prefix)?;
        shows(confidence.to_bits(), None, tau.to_bits(), prefix).then_some((rest, confidence))
    }

    fn suffix(&mut self, before: &str, prefix: &str) -> Option<String> {
        self.complete(before, prefix).map(|hint| hint.0)
    }
}

// ---------------------------------------------------------------------------
// The engine
// ---------------------------------------------------------------------------
#[test]
fn finished_word_holds_its_own_mass() {
    let mut engine = Engine::new();
    assert_eq!(engine.suffix("", "th").as_deref(), Some("e"));
    // `the` is itself the likeliest word, so no longer word is shown.
    assert_eq!(engine.suffix("", "the"), None);
}

#[test]
fn typed_past_word_is_not_offered_again() {
    let mut engine = Engine::new();
    engine.observe_times("can you refactor the parser module", 20);
    engine.observe_times("the refactoring went well overall", 8);
    assert_eq!(engine.suffix("can you ", "re").as_deref(), Some("factor"));
    // Having typed past `refactor` at `re`, the user wants something else.
    assert_eq!(engine.suffix("can you ", "ref").as_deref(), Some("actoring"));
}

#[test]
fn one_off_typos_are_never_offered() {
    let mut engine = Engine::new();
    engine.observe("please check the iterastion count and the zqorbit value");
    let typo = "iterastion";
    for k in 2..typo.len() {
        assert_ne!(engine.suffix("check the ", &typo[..k]).as_deref(), Some(&typo[k..]));
    }
    assert_ne!(engine.suffix("the ", "zq").as_deref(), Some("orbit"));
    // Jargon the user keeps typing graduates.
    engine.observe_times("please check the zqorbit value", 2);
    assert_eq!(engine.suffix("the ", "zq").as_deref(), Some("orbit"));
}

#[test]
fn learned_casing_beats_the_allcaps_rule() {
    let mut engine = Engine::new();
    engine.observe_times("log in with OAuth and open the PRs page", 4);
    assert_eq!(engine.suffix("log in with ", "OA").as_deref(), Some("uth"));
    assert_eq!(engine.suffix("open the ", "PR").as_deref(), Some("s"));
    assert_eq!(engine.suffix("log in with ", "oa").as_deref(), Some("uth"));
}

#[test]
fn snapshot_round_trips_and_rejects_unknown_versions() {
    let queries = [
        ("can you ", "ref"),
        ("log in with ", "OA"),
        ("", "th"),
        ("please check the ", "zq"),
        ("the ", "par"),
    ];
    let mut engine = Engine::new();
    engine.observe_times("can you refactor the parser module", 5);
    engine.observe_times("log in with OAuth then check the zqorbit value", 3);
    let expected: Vec<_> =
        queries.iter().map(|&(before, prefix)| engine.complete(before, prefix)).collect();
    engine.model.prune_trigrams(&engine.web);
    let bytes = encode(&engine.model, &engine.web).expect("compressed");

    let mut restored = Engine::with(|web| {
        let mut model = decode(&bytes, Params::default(), web).expect("restored");
        let n = model.counts.count.len() as u32;
        for v in 0..n {
            let Some(total) = model.followers_of(v).map(|list| {
                list.counts.iter().map(|&c| number(c)).sum::<f64>()
            }) else {
                continue;
            };
            model.counts.followers.set_total(v, total.to_bits());
        }
        model
    });
    let actual: Vec<_> =
        queries.iter().map(|&(before, prefix)| restored.complete(before, prefix)).collect();
    assert_eq!(actual, expected);
    assert!(actual.iter().filter(|hint| hint.is_some()).count() >= 4);

    let web = &engine.web;
    let mut future = bytes.clone();
    future[8] = future[8].wrapping_add(1);
    assert_eq!(decode(&future, Params::default(), web).err(), Some(SnapshotError::Version(2)));
    assert!(decode(&bytes[..bytes.len() - 7], Params::default(), web).is_err());
}

#[test]
fn single_letters_complete_from_context_but_finished_words_stay_bare() {
    let mut engine = Engine::new();
    engine.observe_times("can you help me figure out why the build fails", 3);
    engine.observe_times("I need to figure out the release notes", 2);
    assert_eq!(engine.suffix("Can you help me figure ", "o").as_deref(), Some("ut"));
    // Typing on past the single-letter ghost rules `out` out.
    assert_ne!(engine.suffix("Can you help me figure ", "ou").as_deref(), Some("t"));
    // `a` is a word of its own: no ghost after the single letter.
    assert_eq!(engine.suffix("can you give me ", "a"), None);
    assert_eq!(engine.suffix("", "I"), None);
}

#[test]
fn words_of_this_prompt_are_offered_with_their_casing() {
    let mut engine = Engine::new();
    assert_eq!(engine.suffix("the Zylographer is late, ask the ", "zy").as_deref(), Some("lographer"));
    assert_eq!(engine.suffix("the ZyLoGrapher is late, ask the ", "Zy").as_deref(), Some("LoGrapher"));
    assert_eq!(engine.suffix("the zylo_2 is late, ask the ", "zy"), None);
}

#[test]
fn rare_misspellings_count_toward_the_real_word() {
    let mut engine = Engine::new();
    engine.observe("please check the iterastion count");
    let vocab = &engine.model.lexicon.vocab;
    let (real, typo) = (vocab.find("iteration").expect("web"), vocab.find("iterastion").expect("seen"));
    assert_eq!(number(engine.model.counts.count[real as usize]), 1.0);
    assert_eq!(number(engine.model.counts.count[typo as usize]), 0.0);
    assert!(engine.model.trusted(real) && !engine.model.trusted(typo));
    assert!(engine.model.eligible(real) && !engine.model.eligible(typo));
}

#[test]
fn odd_web_counts_draw_no_misspelling() {
    for odd in [f32::NAN, -f32::NAN, -1.0, 0.0, -0.0, f32::NEG_INFINITY] {
        let mut engine = Engine::new();
        engine.web.count[web_id("iteration") as usize] = odd.to_bits();
        engine.observe("please check the iterastion count");
        let vocab = &engine.model.lexicon.vocab;
        let typo = vocab.find("iterastion").expect("seen") as usize;
        assert_eq!(number(engine.model.counts.count[typo]), 1.0, "{odd}");
    }
    let mut engine = Engine::new();
    engine.web.count[web_id("iteration") as usize] = f32::INFINITY.to_bits();
    engine.observe("please check the iterastion count");
    let real = engine.model.lexicon.vocab.find("iteration").expect("web") as usize;
    assert_eq!(number(engine.model.counts.count[real]), 1.0);
}

#[test]
fn pastes_count_less() {
    let mut engine = Engine::new();
    let paste = format!("the value\n{}", "at frame 0x00 in module.so line 12\n".repeat(60));
    engine.observe(&paste);
    let the = engine.model.lexicon.vocab.find("the").expect("web") as usize;
    let counted = number(engine.model.counts.count[the]);
    assert!(counted == 0.0 || counted == 0.25, "{counted}");
    engine.observe("the value");
    assert_eq!(number(engine.model.counts.count[the]), counted + 1.0);
}

#[test]
fn the_session_forgets_old_prompts() {
    let mut engine = Engine::new();
    engine.observe("the glimmering value");
    engine.observe_times("please open the page", 20);
    assert_eq!(engine.model.session.prompts.len(), 20);
    assert!(engine.model.session.range("glim", &engine.model.lexicon.vocab).is_empty());
    let page = engine.model.session.range("pag", &engine.model.lexicon.vocab);
    assert_eq!(page.iter().map(|e| e.1).collect::<Vec<_>>(), vec![20]);
}

#[test]
fn compaction_keeps_what_was_learned() {
    let mut engine = Engine::new();
    let mut n = 0u32;
    let mut word = || {
        n += 1;
        let mut x = n;
        let mut text = String::from("x");
        for _ in 0..4 {
            text.push((b'a' + (x % 26) as u8) as char);
            x /= 26;
        }
        text
    };
    engine.observe_times("can you refactor the parser module", 5);
    let hint = engine.complete("can you ", "refa");
    while engine.model.lexicon.vocab.base_len() < 4096 {
        let prompt: Vec<String> = (0..60).map(|_| word()).collect();
        engine.observe(&prompt.join(" "));
    }
    assert!(engine.model.lexicon.vocab.overflow_len() < 4096);
    let id = engine.model.lexicon.vocab.find("refactor").expect("kept");
    assert_eq!(number(engine.model.counts.count[id as usize]), 5.0);
    assert_eq!(engine.suffix("can you ", "refa").as_deref(), hint.as_ref().map(|h| h.0.as_str()));
}

#[test]
fn settling_renumbers_the_session() {
    let mut engine = Engine::new();
    let text = |m: &Model| -> Vec<Vec<String>> {
        let word = |&id: &u32| m.lexicon.vocab.word(id).to_owned();
        m.session.prompts.iter().map(|p| p.iter().map(word).collect()).collect()
    };
    engine.observe("please open the zqorbit page");
    assert!(engine.model.settle(&engine.web).is_none());
    let before = text(&engine.model);
    let ids = engine.model.session.prompts.clone();
    let version = engine.model.version;
    let remap = engine.model.compact(&engine.web);
    assert_eq!(engine.model.version, version + 1);
    assert_eq!(text(&engine.model), before);
    for (old, new) in ids.iter().flatten().zip(engine.model.session.prompts.iter().flatten()) {
        assert_eq!(remap[*old as usize], *new);
    }
}

// ---------------------------------------------------------------------------
// The web prior
// ---------------------------------------------------------------------------
#[test]
fn sorted_words_are_searched_in_byte_order() {
    let words = SortedWords::parse(b"an\nband\nband\nbandit\nbat\n".to_vec(), 5).expect("whole");
    assert_eq!(words.range("ban"), (1, 4));
    assert_eq!(words.range("bas"), (4, 4));
    assert_eq!(words.range("a"), (0, 1));
    assert_eq!(words.range("z"), (5, 5));
    assert_eq!(words.range(""), (0, 5));
    assert_eq!(words.lower_bound("band"), 1);
    assert_eq!(words.lower_bound("bas"), 4);
    assert_eq!(words.find("band"), Some(1));
    assert_eq!(words.find("ban"), None);
}

#[test]
fn the_web_prior_reads_its_tables() {
    let web = prior();
    assert_eq!(web.len(), WORDS.len());
    assert_eq!(web.words.find("there"), Some(web_id("there") as usize));
    assert_eq!(web.words.find("thee"), None);
    assert_eq!(web.words.range("the"), (web_id("the") as usize, web_id("this") as usize));
    assert!(web.in_dict(web_id("the") as usize) && !web.in_dict(web_id("teh") as usize));
    // A frequent word is trusted, a rare one is not, a dictionary word is.
    assert!(web.trusted("teh", Some(web_id("teh") as usize)));
    assert!(!web.trusted("qzxy", Some(web_id("qzxy") as usize)));
    assert!(web.trusted("parser", None) && !web.trusted("parsed", None));
    let slot = web.slot(web_id("me") as usize);
    assert_eq!(slot, 0);
    assert_eq!(web.rows(slot), (0, 4));
    assert_eq!(web.row_of(slot, web_id("out")), Some(2));
    assert_eq!(web.row_of(slot, web_id("our")), None);
    assert_eq!(web.lower_row(slot, web_id("our")), 2);
    assert_eq!(web.slot(web_id("a") as usize), NO_SLOT);
    assert_eq!(web.slot(web.len()), 2);
}

#[test]
fn damaged_web_priors_name_their_damage() {
    let whole = content();
    let error = |raw: &[u8]| WebPrior::read(raw).err();
    assert_eq!(error(&whole), None);
    assert_eq!(error(&whole[..3]), Some(WebError::Truncated));
    assert_eq!(error(&whole[..40]), Some(WebError::Truncated));
    let with = |at: usize, value: u32| {
        let mut raw = whole.clone();
        raw[at..at + 4].copy_from_slice(&value.to_le_bytes());
        raw
    };
    assert_eq!(error(&with(0, 0)), Some(WebError::BadMagic));
    assert_eq!(error(&with(4, 2)), Some(WebError::Version(2)));
    let contexts_at = 32 + 4 * WORDS.len() + WORDS.len().div_ceil(8);
    assert_eq!(error(&with(contexts_at, 999)), Some(WebError::ContextOutOfRange));
    assert_eq!(error(&with(contexts_at + 20, 4)), Some(WebError::RowCount));
    assert_eq!(error(&with(contexts_at + 20, 6)), Some(WebError::RowsTruncated));
    assert_eq!(error(&with(contexts_at + 24, 999)), Some(WebError::FollowerOutOfRange));
    let mut short = whole.clone();
    short.truncate(whole.len() - 1);
    assert_eq!(error(&short), Some(WebError::WordListTruncated));
    let mut bent = whole.clone();
    let last = bent.len() - 2;
    bent[last] = 0xff;
    assert_eq!(error(&bent), Some(WebError::NotUtf8));
}

#[test]
fn compressed_web_priors_are_unpacked() {
    let packed = zstd::encode_all(content().as_slice(), 3).expect("packed");
    let web = WebPrior::decode(&packed).expect("whole");
    assert_eq!(web.words.get(0), "a");
    assert_eq!(web.len(), WORDS.len());
    assert_eq!(WebPrior::decode(&content()).err(), Some(WebError::Compression));
}

// ---------------------------------------------------------------------------
// Snapshots
// ---------------------------------------------------------------------------
#[test]
fn snapshots_are_framed_and_compressed() {
    let engine = Engine::new();
    let bytes = encode(&engine.model, &engine.web).expect("compressed");
    assert_eq!(&bytes[..12], b"PINGRAM\0\x01\0\0\0");
    assert_eq!(&bytes[12..16], [0x28, 0xb5, 0x2f, 0xfd]);
    assert_eq!(bytes[16] & 4, 4, "the frame carries a content checksum");
    let payload = zstd::decode_all(&bytes[12..]).expect("a frame");
    assert!(restore(&payload, Params::default(), &engine.web).is_ok());
    assert_eq!(payload, payload_of(&engine.model, &engine.web));
    assert_eq!(seal(None), None);
    assert_eq!(seal(Some(vec![7])).as_deref(), Some(&b"PINGRAM\0\x01\0\0\0\x07"[..]));
}

#[test]
fn payloads_read_back_without_compression() {
    let mut engine = Engine::new();
    engine.observe("can you refactor the parser module");
    engine.observe("can you Rename the parser");
    let payload = payload_of(&engine.model, &engine.web);
    assert_eq!(&payload[..8], engine.model.counts.total.to_le_bytes());
    let Ok(restored) = restore(&payload, Params::default(), &engine.web) else {
        panic!("the payload does not read back");
    };
    assert_eq!(restored.counts.total, engine.model.counts.total);
    assert_eq!(payload_of(&restored, &engine.web).len(), payload.len());
}

#[test]
fn restored_sessions_hold_the_same_prompts() {
    let mut engine = Engine::new();
    engine.observe("please open the Zqorbit page");
    engine.observe("give me the log");
    let text = |m: &Model| -> Vec<Vec<String>> {
        let word = |&id: &u32| m.lexicon.vocab.word(id).to_owned();
        m.session.prompts.iter().map(|p| p.iter().map(word).collect()).collect()
    };
    let all = text(&engine.model);
    assert_eq!(all.len(), 2);
    let payload = payload_of(&engine.model, &engine.web);
    let back = |session_prompts: usize| {
        let params = Params { session_prompts, ..Params::default() };
        text(&restore(&payload, params, &engine.web).ok().expect("restored"))
    };
    assert_eq!(back(20), all);
    assert_eq!(back(2), all);
    assert_eq!(back(1), all[1..]);
    assert!(back(0).is_empty());
}

#[test]
fn learned_counts_are_zero_or_above() {
    let mut engine = Engine::new();
    let sound = |m: &Model| {
        m.counts.count.iter().all(|&c| c == 0 || (number(c) > 0.0 && c >> 31 == 0))
    };
    assert!(sound(&engine.model));
    engine.observe("please open the Zqorbit page");
    engine.observe(&"at frame 0x00 in module.so line 12\n".repeat(60));
    assert!(sound(&engine.model));
    engine.model.compact(&engine.web);
    engine.model.prune_trigrams(&engine.web);
    assert!(sound(&engine.model));
    let payload = payload_of(&engine.model, &engine.web);
    let back = restore(&payload, Params::default(), &engine.web).ok().expect("restored");
    assert!(sound(&back));
    for word in ["please", "zqorbit", "page", "the", "module", "absent"] {
        let count = |m: &Model| {
            m.lexicon.vocab.find(word).map_or(0, |id| m.counts.count[id as usize])
        };
        assert_eq!(count(&back), count(&engine.model), "{word}");
    }
}

#[test]
fn stored_words_may_repeat() {
    let engine = Engine::new();
    let mut payload = 0.0f64.to_le_bytes().to_vec();
    payload.extend(3u32.to_le_bytes());
    for (word, count) in [("zq", 1.0f32), ("zr", 2.0), ("zq", 3.0)] {
        payload.extend((word.len() as u16).to_le_bytes());
        payload.extend(word.as_bytes());
        payload.extend(count.to_le_bytes());
        payload.extend(7u32.to_le_bytes());
    }
    payload.extend([0; 20]);
    let model = restore(&payload, Params::default(), &engine.web).ok().expect("restored");
    let count = |word: &str| {
        number(model.counts.count[model.lexicon.vocab.find(word).expect("stored") as usize])
    };
    assert_eq!((count("zq"), count("zr")), (3.0, 2.0));
    assert_eq!(model.lexicon.vocab.len(), WORDS.len() + 3);
}

#[test]
fn damaged_snapshots_name_their_damage() {
    let mut engine = Engine::new();
    engine.observe("can you refactor the parser module");
    let web = &engine.web;
    let bytes = encode(&engine.model, web).expect("compressed");
    let open = |bytes: &[u8]| decode(bytes, Params::default(), web).err();
    assert_eq!(open(&bytes), None);
    assert_eq!(open(b"PINGRAM"), Some(SnapshotError::NotSnapshot));
    assert_eq!(open(&[0; 40]), Some(SnapshotError::NotSnapshot));
    assert_eq!(open(&bytes[..bytes.len() - 1]), Some(SnapshotError::Corrupt));
    let payload = zstd::decode_all(&bytes[12..]).expect("a frame");
    let read = |payload: &[u8]| restore(payload, Params::default(), web).err();
    assert_eq!(read(&payload), None);
    assert_eq!(read(&[]), Some(SnapshotError::Truncated));
    let mut long = payload.clone();
    long.push(0);
    assert_eq!(read(&long), Some(SnapshotError::Trailing));
    let mut many = payload.clone();
    many[8..12].copy_from_slice(&u32::MAX.to_le_bytes());
    assert_eq!(read(&many), Some(SnapshotError::CountOutOfRange));
}

// ---------------------------------------------------------------------------
// Tables
// ---------------------------------------------------------------------------
#[test]
fn vocabularies_number_words_in_order() {
    let mut vocab = Vocab::from_sorted(vec!["ab".into(), "abc".into(), "b".into()]);
    assert_eq!(vocab.base_range("ab"), (0, 2));
    assert_eq!(vocab.intern("abc"), (1, false));
    assert_eq!(vocab.intern("aba"), (3, true));
    assert_eq!(vocab.intern("zz"), (4, true));
    assert_eq!(vocab.intern("aa"), (5, true));
    assert_eq!((vocab.len(), vocab.base_len(), vocab.overflow_len()), (6, 3, 3));
    assert_eq!(vocab.overflow_range("a"), &[5, 3]);
    let (sorted, remap) = vocab.compacted();
    assert_eq!(remap, vec![1, 3, 4, 2, 5, 0]);
    for id in 0..6 {
        assert_eq!(sorted.word(remap[id as usize]), vocab.word(id));
        assert_eq!(sorted.find(vocab.word(id)), Some(remap[id as usize]));
    }
    assert_eq!(sorted.find("nothing"), None);
}

#[test]
fn tables_find_what_they_hold() {
    let mut table: IdTable<u32> = IdTable::with_capacity(4);
    for key in 0..1000u64 {
        let (value, fresh) = table.entry(key * 7919);
        assert!(fresh);
        *value = key as u32;
    }
    assert_eq!(table.len(), 1000);
    assert_eq!(table.get(7919 * 500), Some(500));
    assert_eq!(table.get(1), None);
    assert!(!table.entry(7919).1);
    assert_eq!(table.iter().len(), 1000);
}

#[test]
fn the_greatest_of_a_range_come_first() {
    let mut tree = MaxTree::new(vec![5, 1, 9, 9, 3, 7]);
    let top = |tree: &MaxTree, lo, hi, k| {
        let (mut heap, mut out) = (Vec::new(), Vec::new());
        tree.top_k(lo, hi, k, &mut heap, &mut out);
        out
    };
    let best = top(&tree, 0, 6, 3);
    assert_eq!(best.len(), 3);
    assert!(best[..2].contains(&2) && best[..2].contains(&3) && best[2] == 5);
    assert_eq!(top(&tree, 4, 6, 9), vec![5, 4]);
    tree.set(1, 100);
    assert_eq!(top(&tree, 0, 6, 1), vec![1]);
    assert_eq!(top(&tree, 3, 3, 2), Vec::<u32>::new());
}

#[test]
fn prefix_sums_add_up() {
    let values = [3u32, 1, 4, 1, 5, 9, 2, 6];
    let mut sums = vec![0u32; values.len() + 1];
    for (i, v) in values.iter().enumerate() {
        for node in update_nodes(i, values.len()) {
            sums[node] += v;
        }
    }
    for end in 0..=values.len() {
        let total: u32 = prefix_nodes(end).into_iter().map(|node| sums[node]).sum();
        assert_eq!(total, values[..end].iter().sum::<u32>());
    }
}

#[test]
fn followers_stay_in_order() {
    let mut list = Followers::new();
    assert_eq!(list.add(7), (0, true));
    assert_eq!(list.add(3), (0, true));
    assert_eq!(list.add(7), (1, false));
    assert_eq!((list.types(), list.lower_bound(4), list.position(7), list.position(4)), (2, 1, Some(1), None));
}

#[test]
fn trigrams_are_pruned_below_one() {
    let one = 1.0f32.to_bits();
    let quarter = 0.25f32.to_bits();
    let mut table = PairTable::new();
    table.put(1, 2, 3, one, one);
    table.put(1, 2, 4, quarter, 1.25f32.to_bits());
    table.put(5, 6, 7, quarter, quarter);
    assert_eq!(table.context(1, 2), Some((1.25f32.to_bits(), 2)));
    table.prune();
    assert_eq!(table.get(1, 2, 3), Some(one));
    assert_eq!(table.get(1, 2, 4), None);
    // The context keeps its totals; the one without trigrams is gone.
    assert_eq!(table.context(1, 2), Some((1.25f32.to_bits(), 2)));
    assert_eq!(table.context(5, 6), None);
    assert_eq!(pair_key(1, 2), 1 << 32 | 2);
}

#[test]
fn casings_are_counted_apart() {
    let mut table = TailTable::new();
    table.put(4, "aPI", 1);
    table.put(4, "api's", 2);
    table.put(4, "aPI", 3);
    assert_eq!(table.get(4, "aPI"), Some(3));
    assert_eq!(table.get(4, "api"), None);
    assert_eq!(table.list(4).map(|forms| forms.len()), Some(2));
    assert!(table.list(3).is_none());
}

#[test]
fn sessions_count_the_newest_prompts() {
    let vocab = Vocab::from_sorted(vec!["ab".into(), "abc".into(), "b".into()]);
    let mut session = Session::new();
    session.push(vec![0, 1, 1], 2, &vocab);
    session.push(vec![1], 2, &vocab);
    assert_eq!(session.range("ab", &vocab), &[(0, 1), (1, 3)]);
    session.push(vec![2], 2, &vocab);
    assert_eq!(session.range("ab", &vocab), &[(1, 1)]);
    session.push(vec![2], 0, &vocab);
    assert_eq!(session.prompts.len(), 2);
}

// ---------------------------------------------------------------------------
// Queries and suffixes
// ---------------------------------------------------------------------------
#[test]
fn shorter_prefixes_are_replayed_from_the_first_asked() {
    let mut state = QueryState::default();
    assert_eq!(state.begin(1, "fix the ", "", 4000, true), None);
    assert_eq!(state.begin(1, "fix the ", "par", 4000, true), Some(vec!['p', 'a', 'r']));
    // The client never asked at one or two letters.
    assert_eq!(state.next_replay(3), None);
    assert_eq!(state.begin(1, "fix the ", "parse", 4000, true).map(|k| k.len()), Some(5));
    assert_eq!(state.next_replay(5), Some(3));
    state.record(Some("parser".into()));
    assert_eq!(state.next_replay(5), Some(4));
    state.record(None);
    assert_eq!(state.next_replay(5), None);
    assert!(state.excludes("parser", 5) && !state.excludes("parser", 3));
    // A prefix that the last one does not extend forgets what was shown.
    state.begin(1, "fix the ", "paste", 4000, true);
    assert!(!state.excludes("parser", 5));
    state.begin(2, "fix the ", "parse", 4000, true);
    assert_eq!(state.first_asked, 5);
}

#[test]
fn suffixes_follow_the_typed_case() {
    let forms = vec![("aPI".to_string(), 0), ("api".to_string(), 0)];
    let keys = vec![wide_key(3.0), wide_key(1.0)];
    assert_eq!(suffix("api", Some(&forms), &keys, wide_key(2.0), "AP"), "I");
    assert_eq!(suffix("api", Some(&forms), &keys, wide_key(2.0), "a"), "PI");
    assert_eq!(suffix("parser", None, &Vec::new(), wide_key(2.0), "PA"), "RSER");
    assert_eq!(suffix("parser", None, &Vec::new(), wide_key(2.0), "Pa"), "rser");
    assert_eq!(plain_suffix("ser", "PAR", 3), "SER");
    assert_eq!(plain_suffix("arser", "P", 1), "arser");
}

#[test]
fn the_first_of_equal_candidates_is_picked() {
    let c = |id| Candidate { id, start: 2, end: 5, c2: 0, row: NO_ROW, c3: 0, session: 0 };
    let list = vec![c(4), c(7), c(NONE), c(9)];
    let keys = vec![wide_key(0.5), wide_key(0.2), wide_key(0.2), wide_key(0.1)];
    let at = vec![Standing::TypedPast, Standing::Offered, Standing::Offered, Standing::Hidden];
    assert_eq!(pick_best(&list, &at, &keys), Some((1, Pick::Word(7))));
    let at = vec![Standing::TypedPast, Standing::Finished, Standing::Offered, Standing::Offered];
    assert_eq!(pick_best(&list, &at, &keys), Some((2, Pick::Local(2, 5))));
    assert_eq!(pick_best(&list, &vec![Standing::Hidden; 4], &keys), None);
}

#[test]
fn thresholds_follow_the_clients_first_query() {
    let p = Params::default();
    assert_eq!(p.threshold_at(1, 1), Threshold::SingleLetter);
    assert_eq!(p.threshold_at(3, 1), Threshold::AfterSingleLetter);
    assert_eq!(p.threshold_at(3, 2), Threshold::Plain);
}
