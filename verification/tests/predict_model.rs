use std::collections::HashMap;

use pi_natives::prose::is_word_char;
use pi_natives::smollm::byte_level::byte_chars;
use pi_natives::smollm::completion::Completion;
use pi_natives::smollm::context::{
    context_tail, context_window, heal, is_anchor, CONTEXT_SLACK, CONTEXT_UNITS,
};
use pi_natives::smollm::decoder::{
    choose_device, expect_shape, header_plausible, share, tensor_layout, widened, words, CacheError, CacheLen,
    ConfigError, Device, LlamaConfig, TensorError,
};
use pi_natives::smollm::kv_session::{KvSession, Step};
use pi_natives::smollm::memory::{
    Memory, Shown, MEMORY_MAX_UNITS, MEMORY_UNITS, STATE_VERSION,
};
use pi_natives::smollm::ranking::top_k;
use pi_natives::smollm::search::{plan, Search, SearchParams};
use pi_natives::smollm::token_index::TokenIndex;
use pi_natives::smollm::token_tables::{
    AddedToken, MergeRule, ModelSpec, PreTokenizerSpec, PreTokenizerStep, TokenizerSpec,
};
use pi_natives::smollm::tokenizer::{Tokenizer, TokenizerError};

fn utf16_len(text: &str) -> usize {
    text.encode_utf16().count()
}

// ---------------------------------------------------------------------------
// Context and memory
// ---------------------------------------------------------------------------
#[test]
fn context_tail_cuts_forward_to_a_whitespace() {
    assert_eq!(context_tail("short text", 400), "short text");
    assert_eq!(context_tail("abc defgh ijk", 8), "ijk", "the partial word 'efgh' is dropped");
    assert_eq!(context_tail("abcdefghijk", 4), "hijk", "no whitespace: keep the raw tail");
}

#[test]
fn context_window_start_is_stable_while_typing() {
    let words: Vec<String> = (0..400).map(|i| format!("word{}x", i * 7919 % 1000)).collect();
    let mut text = String::new();
    let (mut starts, mut changes, mut last) = (0, 0, None);
    for word in &words {
        text.push_str(word);
        text.push(' ');
        let window = context_window(&text);
        let start = text.len() - window.len();
        let units = utf16_len(window);
        if utf16_len(&text) > CONTEXT_UNITS + CONTEXT_SLACK {
            starts += 1;
            // The fallback may drop one partial word below 400 units.
            assert!(
                (CONTEXT_UNITS - 16..=CONTEXT_UNITS + CONTEXT_SLACK).contains(&units),
                "{units}"
            );
            assert!(start == 0 || text.as_bytes()[start - 1] == b' ', "starts at a word");
            changes += usize::from(last.is_some_and(|l| l != start));
        }
        last = Some(start);
    }
    assert!(
        changes * 4 < starts,
        "{changes} start moves over {starts} words: the KV prefix is reused"
    );
}

#[test]
fn memory_grows_by_appending_and_trims_to_the_newest() {
    let mut memory = Memory::default();
    memory.remember("/model set something");
    assert!(!memory.dirty, "slash commands are not typed prose");
    let prompt = |i: usize| format!("please refactor the parser module number {i} carefully");
    let mut trims = 0;
    let mut text = String::new();
    for i in 0..200 {
        memory.remember(&prompt(i));
        let next = memory.text();
        assert!(next.ends_with(&format!("{}\n\n", prompt(i))), "newest last");
        assert!(utf16_len(&next) <= MEMORY_MAX_UNITS);
        assert_eq!(utf16_len(&next), memory.units);
        if next.starts_with(&text) {
            // Append: the cached head stays a prefix of the new one.
        } else {
            trims += 1;
            assert!(utf16_len(&next) <= MEMORY_UNITS, "a trim goes back to the target size");
        }
        text = next;
    }
    assert!((1..20).contains(&trims), "{trims} trims over 200 prompts");
    let mut restored = Memory::default();
    for kept in &memory.recent {
        restored.remember(kept);
    }
    assert_eq!(restored.text(), text, "replaying the persisted window restores it exactly");
}

#[test]
fn persisted_memory_is_read_back() {
    let mut memory = Memory::default();
    memory.remember("please fix the parser");
    memory.remember("and then the lexer");
    let state = memory.state();
    let restored = Memory::restore(STATE_VERSION, &state).ok().unwrap();
    assert_eq!(restored.text(), memory.text());
    assert!(restored.dirty);
    assert_eq!(Memory::restore(STATE_VERSION + 1, &state).err(), Some(STATE_VERSION + 1));
}

#[test]
fn typed_past_resets_on_a_new_word() {
    let mut shown = Shown::default();
    shown.track("fix the ", "pa");
    shown.words.insert(Shown::key("pa", "rser"));
    shown.track("fix the ", "par");
    assert!(shown.words.contains("parser"), "same word, longer prefix keeps exclusions");
    shown.track("fix the ", "pa");
    assert!(
        !shown.words.contains("parser"),
        "a shorter prefix is a new word (backspace or retype)"
    );
    shown.words.insert(Shown::key("pa", "rser"));
    shown.track("fix the parser ", "pa");
    assert!(!shown.words.contains("parser"), "new before");
}

#[test]
fn offered_words_are_passed_over() {
    let mut shown = Shown::default();
    let words = vec!["rser".to_string(), "rsing".to_string()];
    assert_eq!(shown.pick("pa", &words, &vec![true, true]), Some(0));
    assert_eq!(shown.pick("pa", &words, &vec![true, true]), Some(1));
    assert_eq!(shown.pick("pa", &words, &vec![true, true]), None);
    let mut doubtful = Shown::default();
    assert_eq!(doubtful.pick("pa", &words, &vec![false, true]), Some(0));
    assert_eq!(doubtful.pick("pa", &words, &vec![false, true]), Some(0));
    assert_eq!(Shown::key("Pa", "RSER"), "parser");
}

// ---------------------------------------------------------------------------
// Tokenizer
// ---------------------------------------------------------------------------
/// Byte alphabet plus a few merges: enough to exercise pre-tokenization and merge
/// order without a real vocabulary.
fn tiny_spec() -> TokenizerSpec {
    let mut vocab: Vec<String> = vec!["<|endoftext|>".into()];
    vocab.extend(byte_chars().iter().map(|c| c.to_string()));
    let merges = [("Ġ", "d"), ("e", "p"), ("Ġd", "ep"), ("l", "o"), ("lo", "y")];
    for (left, right) in merges {
        vocab.push(format!("{left}{right}"));
    }
    let step = |kind: &str| PreTokenizerStep {
        kind: kind.to_string(),
        individual_digits: kind == "Digits",
        add_prefix_space: false,
        use_regex: true,
    };
    TokenizerSpec {
        normalizer: false,
        pre_tokenizer: Some(PreTokenizerSpec {
            kind: "Sequence".to_string(),
            pretokenizers: vec![step("Digits"), step("ByteLevel")],
        }),
        decoder: Some("ByteLevel".to_string()),
        model: ModelSpec {
            kind: "BPE".to_string(),
            dropout: false,
            continuing_subword_prefix: None,
            end_of_word_suffix: None,
            vocab: vocab.into_iter().enumerate().map(|(i, t)| (t, i as u32)).collect(),
            merges: merges
                .iter()
                .map(|(l, r)| MergeRule::Joined(format!("{l} {r}")))
                .collect(),
        },
        added_tokens: vec![AddedToken {
            id: 0,
            content: "<|endoftext|>".to_string(),
            special: true,
        }],
    }
}

fn tiny() -> Tokenizer {
    Tokenizer::from_json(&tiny_spec()).ok().expect("tiny tokenizer")
}

fn pieces(tok: &Tokenizer, text: &str) -> Vec<String> {
    let enc = tok.encode(text);
    enc.offsets.iter().map(|&(s, e)| text[s..e].to_owned()).collect()
}

#[test]
fn merges_follow_rank_and_offsets_cover_text() {
    let tok = tiny();
    assert_eq!(pieces(&tok, "a deploy"), ["a", " dep", "loy"]);
    let enc = tok.encode("a deploy");
    assert_eq!(tok.token_text(enc.ids[1]), Some(" dep"));
}

#[test]
fn whitespace_lookahead_and_digits() {
    let tok = tiny();
    let pre = |text: &str| -> Vec<String> {
        tok.pre_tokenize(text).into_iter().map(|(s, e)| text[s..e].to_owned()).collect()
    };
    // The last space of a run joins the next word; trailing runs stay whole.
    assert_eq!(pre("a  b  "), ["a", " ", " b", "  "]);
    assert_eq!(pre("a\n\nb"), ["a", "\n", "\n", "b"], "a newline never prefixes a word");
    // Every digit is its own pre-token.
    assert_eq!(pre("v12 x"), ["v", "1", "2", " x"]);
    assert_eq!(pre("it's"), ["it", "'s"]);
}

#[test]
fn special_tokens_are_plain_text_and_have_no_text() {
    let tok = tiny();
    assert!(!tok.encode("<|endoftext|>").ids.contains(&0));
    assert_eq!(tok.token_text(0), None);
}

#[test]
fn unsupported_descriptions_are_refused() {
    let fault = |change: &dyn Fn(&mut TokenizerSpec)| {
        let mut spec = tiny_spec();
        change(&mut spec);
        Tokenizer::from_json(&spec).err()
    };
    let normalizer = fault(&|spec| spec.normalizer = true);
    assert!(matches!(normalizer, Some(TokenizerError::Normalizer)));
    let absent = fault(&|spec| spec.pre_tokenizer = None);
    assert!(matches!(absent, Some(TokenizerError::NoPreTokenizer)));
    let other = fault(&|spec| spec.pre_tokenizer.as_mut().unwrap().kind = "Split".to_string());
    assert!(matches!(other, Some(TokenizerError::PreTokenizer)));
    let decoder = fault(&|spec| spec.decoder = None);
    assert!(matches!(decoder, Some(TokenizerError::Decoder)));
    let model = fault(&|spec| spec.model.kind = "Unigram".to_string());
    assert!(matches!(model, Some(TokenizerError::Model(kind)) if kind == "Unigram"));
    let dropout = fault(&|spec| spec.model.dropout = true);
    assert!(matches!(dropout, Some(TokenizerError::Options)));
    let bytes = fault(&|spec| spec.model.vocab.truncate(20));
    assert!(matches!(bytes, Some(TokenizerError::NotByteLevel)));
    let merge = fault(&|spec| spec.model.merges = vec![MergeRule::Joined("ab".to_string())]);
    assert!(matches!(merge, Some(TokenizerError::MalformedMerge)));
    let unknown = fault(&|spec| {
        spec.model.merges = vec![MergeRule::Pair("zz".to_string(), "a".to_string())]
    });
    assert!(matches!(unknown, Some(TokenizerError::UnknownMerge(l, r)) if l == "zz" && r == "a"));
}

#[test]
fn healing_cuts_at_the_token_holding_the_word_start() {
    let tokenizer = tiny();
    // " dep" is one token, so the context ends before the space and the search
    // re-spells " dep".
    let (ids, lead) = heal(&tokenizer, "a ", "dep");
    assert_eq!(lead, " ");
    assert_eq!(ids, tokenizer.encode("a").ids);
    // After a newline the word starts its own token: nothing to re-spell.
    let (ids, lead) = heal(&tokenizer, "a\n", "dep");
    assert_eq!(lead, "");
    assert_eq!(ids, tokenizer.encode("a\n").ids);
}

#[test]
fn requests_ask_only_for_what_changed() {
    let tokenizer = tiny();
    let mut memory = Memory::default();
    memory.remember("please deploy it");
    let mut completion = Completion::new(0, memory);
    let first = completion.prepare(&tokenizer, "Notes: ", "a ", "de").unwrap();
    let mut head = vec![0];
    head.extend(tokenizer.encode("Notes: please deploy it\n\n").ids);
    assert_eq!(first.head, Some(head));
    assert_eq!(first.context, Some(tokenizer.encode("a").ids));
    assert_eq!(first.target, " de");
    let second = completion.prepare(&tokenizer, "Notes: ", "a ", "dep").unwrap();
    assert_eq!((second.head, second.context, second.target.as_str()), (None, None, " dep"));
    assert!(completion.prepare(&tokenizer, "Notes: ", "a ", "").is_none());
    completion.observe("and now the lexer please");
    let third = completion.prepare(&tokenizer, "Notes: ", "a ", "dep").unwrap();
    assert!(third.head.is_some() && third.context.is_some());
}

// ---------------------------------------------------------------------------
// Search
// ---------------------------------------------------------------------------
/// A toy model over a handful of token texts: `table[path]` lists
/// `(token, probability)`; the rest of the mass is spread evenly.
struct Toy {
    vocab: usize,
    table: HashMap<Vec<u32>, Vec<(u32, f32)>>,
    calls: usize,
}

impl Toy {
    fn row(&mut self, path: &[u32]) -> Vec<f32> {
        self.calls += 1;
        let listed = self.table.get(path).cloned().unwrap_or_default();
        let rest = 1.0 - listed.iter().map(|(_, p)| p).sum::<f32>();
        let even = (rest.max(1e-9) / (self.vocab - listed.len()) as f32).ln();
        let mut row = vec![even; self.vocab];
        for (id, p) in listed {
            row[id as usize] = p.ln();
        }
        row
    }
}

/// The place of a number in the total order.
fn order_key(value: f64) -> u64 {
    let bits = value.to_bits();
    if bits >> 63 == 1 {
        !bits
    } else {
        bits | 1 << 63
    }
}

fn from_key(key: u64) -> f64 {
    f64::from_bits(if key >> 63 == 1 { key & !(1 << 63) } else { !key })
}

fn log_sum(row: &[f32], ids: &[u32]) -> f64 {
    let max = ids.iter().map(|&id| row[id as usize]).fold(f32::NEG_INFINITY, f32::max);
    if max == f32::NEG_INFINITY {
        return f64::NEG_INFINITY;
    }
    let sum: f64 = ids.iter().map(|&id| f64::from(row[id as usize] - max).exp()).sum();
    f64::from(max) + sum.ln()
}

fn complete_nbest(
    index: &TokenIndex,
    params: SearchParams,
    target: &str,
    n: usize,
    lm: &mut Toy,
) -> Vec<(String, f32)> {
    let mut search = Search::new(params, target, n, order_key(0.0));
    let mut mass = 1.0f64;
    while let Some(node) = search.next() {
        let cost = from_key(node.cost);
        let row = lm.row(&node.path);
        let bits: Vec<u32> = row.iter().map(|lp| lp.to_bits()).collect();
        let expansion = plan(index, params, &node, &bits);
        let node_mass = (-cost).exp();
        if expansion.spelling {
            if expansion.kept.is_empty() {
                mass -= node_mass;
            } else {
                mass = node_mass.mul_add(log_sum(&row, &expansion.kept).exp_m1(), mass);
            }
        }
        let stop = order_key(cost - log_sum(&row, &index.boundary_ids));
        let costs: Vec<u64> = expansion
            .children
            .iter()
            .map(|child| order_key(cost - f64::from(row[child.id as usize])))
            .collect();
        search.absorb(&node, expansion, stop, &costs);
    }
    let found = search.finish();
    if mass <= 0.0 {
        return Vec::new();
    }
    found
        .into_iter()
        .map(|(word, key)| {
            (word.into_iter().collect(), ((-from_key(key)).exp() / mass).min(1.0) as f32)
        })
        .collect()
}

const TEXTS: &[&str] =
    &[".", " ", " d", " dep", " de", "p", "loy", "end", "s", "th", "e", " the", "re", "ep"];

fn id(text: &str) -> u32 {
    TEXTS.iter().position(|t| *t == text).expect("token") as u32
}

fn index() -> TokenIndex {
    TokenIndex::new(TEXTS.iter().map(|t| Some(t.to_string())).collect())
}

/// A token path and its next-token probabilities.
type ToyEntry<'a> = (&'a [&'a str], &'a [(&'a str, f32)]);

fn toy(entries: &[ToyEntry<'_>]) -> Toy {
    let table = entries
        .iter()
        .map(|(path, next)| {
            (path.iter().map(|t| id(t)).collect(), next.iter().map(|&(t, p)| (id(t), p)).collect())
        })
        .collect();
    Toy { vocab: TEXTS.len(), table, calls: 0 }
}

#[test]
fn completions_spell_the_prefix_through_any_split() {
    // " dep" is spelled by " dep" or by " de"+"p"; "end" is only likely after the
    // split.
    let mut lm = toy(&[
        (&[], &[(" dep", 0.5), (" de", 0.3), (" d", 0.1)]),
        (&[" dep"], &[("loy", 0.6)]),
        (&[" de"], &[("p", 0.9)]),
        (&[" de", "p"], &[("end", 0.8)]),
        (&[" dep", "loy"], &[(".", 0.95)]),
        (&[" de", "p", "end"], &[(".", 0.95)]),
    ]);
    let alts = complete_nbest(&index(), SearchParams::default(), " dep", 3, &mut lm);
    assert_eq!(alts[0].0, "loy", "{alts:?}");
    let end = alts.iter().find(|(w, _)| w == "end").expect("split path found");
    // 0.3·0.9·0.8·P(boundary) over Z ≈ 0.88; the unsplit " dep"+"end" path is
    // < 0.01.
    assert!(end.1 > 0.15, "{alts:?}");
    for (word, conf) in &alts {
        assert!(word.chars().all(is_word_char), "suffix {word:?} is word chars only");
        assert!((0.0..=1.0).contains(conf));
    }
}

#[test]
fn a_likely_finished_word_gets_low_confidence() {
    // After " the" the model mostly ends the word (" " / ".") and rarely goes on
    // with "re".
    let there: (&[&str], &[(&str, f32)]) = (&[" the", "re"], &[(".", 0.95)]);
    let finished = toy(&[
        (&[], &[(" the", 0.9)]),
        (&[" the"], &[(" ", 0.6), (".", 0.3), ("re", 0.05)]),
        there,
    ]);
    let open = toy(&[(&[], &[(" the", 0.9)]), (&[" the"], &[("re", 0.9)]), there]);
    let conf = |mut lm: Toy| {
        let alts = complete_nbest(&index(), SearchParams::default(), " the", 1, &mut lm);
        assert_eq!(alts.first().map(|(w, _)| w.as_str()), Some("re"));
        alts[0].1
    };
    let (finished, open) = (conf(finished), conf(open));
    assert!(finished < 0.1, "finished-word mass stays in Z: {finished}");
    assert!(open > 0.8, "{open}");
}

#[test]
fn a_token_spelling_prefix_then_boundary_counts_as_finished() {
    // " the." would be one token in real vocabularies; here "the" + boundary inside
    // a covering token.
    let texts = [" the.", " the", "re", "."];
    let index = TokenIndex::new(texts.iter().map(|t| Some(t.to_string())).collect());
    let mut lm = Toy {
        vocab: texts.len(),
        table: HashMap::from([
            (vec![], vec![(0, 0.8), (1, 0.2)]),
            (vec![1], vec![(2, 0.9)]),
            (vec![1, 2], vec![(3, 0.9)]),
        ]),
        calls: 0,
    };
    let alts = complete_nbest(&index, SearchParams::default(), " the", 1, &mut lm);
    assert_eq!(alts[0].0, "re");
    assert!(alts[0].1 < 0.2, "the covering ' the.' token is finished-word mass: {alts:?}");
}

#[test]
fn inconsistent_prefix_yields_nothing() {
    let mut lm = toy(&[(&[], &[(" the", 0.9)])]);
    let alts = complete_nbest(&index(), SearchParams::default(), " zq", 3, &mut lm);
    assert!(alts.is_empty());
}

#[test]
fn expansions_respect_the_budget() {
    let mut lm = toy(&[(&[], &[(" dep", 0.9)])]);
    let params = SearchParams { max_expand: 3, ..SearchParams::default() };
    let _ = complete_nbest(&index(), params, " dep", 1, &mut lm);
    assert!(lm.calls <= 3, "{} forwards", lm.calls);
}

#[test]
fn the_best_tokens_come_first() {
    let row: Vec<u32> = [0.5f32, -1.0, 2.0, 0.5].iter().map(|lp| lp.to_bits()).collect();
    assert_eq!(top_k(&row, &vec![0, 1, 2, 3], 3), vec![2, 0, 3]);
    assert_eq!(top_k(&row, &vec![1, 3], 5), vec![3, 1]);
}

// ---------------------------------------------------------------------------
// The decoder's cache and session
// ---------------------------------------------------------------------------
#[test]
fn overlong_sequences_fail_and_empty_the_cache() {
    let mut cache = CacheLen { len: 0, layers: 2, width: 4, limit: 16, vocab: 12 };
    let limit = cache.limit;
    cache.extend(&vec![1; limit - 1], limit - 2).expect("fits");
    assert!(cache.extend(&[1, 2], 1).is_err());
    assert_eq!(cache.len, 0);
}

#[test]
fn caches_name_what_they_refuse() {
    let mut cache = CacheLen { len: 3, layers: 2, width: 4, limit: 16, vocab: 12 };
    assert_eq!(cache.extend(&[1], 1), Err(CacheError::NothingToScore));
    assert_eq!(cache.len, 3);
    assert_eq!(cache.last_span(), Ok((8, 12)));
    assert_eq!(cache.restore(4, 16), Err(CacheError::PastTheEnd));
    assert_eq!(cache.restore(usize::MAX, 16), Err(CacheError::PastTheEnd));
    assert_eq!(cache.restore(1, 15), Err(CacheError::OtherModel));
    assert_eq!(cache.restore(1, 16), Ok((4, 8)));
    assert_eq!(cache.len, 2);
    assert_eq!(cache.extend(&[1; 15], 0), Err(CacheError::TooLong));
    assert_eq!(cache.extend(&[1, 12], 0), Err(CacheError::Token(12)));
    assert_eq!(cache.last_span(), Err(CacheError::Empty));
    cache.extend(&[1, 2, 3], 0).expect("fits");
    cache.truncate(1);
    assert_eq!(cache.len, 1);
}

#[test]
fn work_is_shared_without_gaps() {
    for threads in 1..9 {
        let mut at = 0;
        for tid in 0..threads {
            let (from, to) = share(1000, tid, threads);
            assert_eq!(from, at);
            at = to;
        }
        assert_eq!(at, 1000);
    }
}

#[test]
fn tensors_are_read_from_their_bytes() {
    assert_eq!(widened(&[0x80, 0x3f]), vec![1.0f32.to_bits()]);
    assert_eq!(words(&1.5f32.to_le_bytes()), vec![1.5f32.to_bits()]);
    assert_eq!(tensor_layout("BF16", &vec![2, 3], 8, 20), Ok((2, 12)));
    assert_eq!(tensor_layout("F32", &vec![2, 3], 8, 20), Err(TensorError::Size));
    assert_eq!(tensor_layout("F16", &vec![2, 3], 8, 20), Err(TensorError::ElementType));
    let odd = tensor_layout("F16", &vec![usize::MAX, 3], 20, 8);
    assert_eq!(odd, Err(TensorError::ElementType));
    assert_eq!(expect_shape(&vec![2, 3], &vec![2, 3]), Ok(()));
    assert_eq!(expect_shape(&vec![3, 2], &vec![2, 3]), Err(TensorError::Shape));
    assert!(header_plausible(1000) && !header_plausible(u64::MAX));
}

#[test]
fn a_known_branch_is_scored_one_token_at_a_time() {
    let mut session = KvSession::new();
    session.set_head(vec![1, 2]);
    assert!(!session.set_context(&vec![3]));
    let mut walk = session.start(&[]);
    match session.step(&walk) {
        Step::ScoreHead { from, tokens, keep } => {
            assert_eq!((from, tokens, keep), (0, vec![1, 2], 1));
        }
        _ => panic!("the head comes first"),
    }
    assert_eq!(session.scored_head(&mut walk, 100), None);
    match session.step(&walk) {
        Step::Score { from, tokens, keep } => assert_eq!((from, tokens, keep), (2, vec![3], 0)),
        _ => panic!("then the context"),
    }
    assert_eq!(session.scored(&walk, &vec![101], 7), Some(101));
    assert_eq!(session.look(&[]), Some(101));
    let walk = session.start(&[9]);
    match session.step(&walk) {
        Step::Score { from, tokens, keep } => assert_eq!((from, tokens, keep), (3, vec![9], 0)),
        _ => panic!("one token"),
    }
    assert_eq!(session.scored(&walk, &vec![102], 8), Some(102));
    let walk = session.start(&[5]);
    assert_eq!(session.scored(&walk, &vec![103], 9), Some(103));
    let mut walk = session.start(&[9, 4]);
    match session.step(&walk) {
        Step::Restore { at, kv } => assert_eq!((at, kv), (3, 8)),
        _ => panic!("the branch is put back"),
    }
    session.restored(&mut walk);
    match session.step(&walk) {
        Step::Score { from, tokens, .. } => assert_eq!((from, tokens), (4, vec![4])),
        _ => panic!("and goes on"),
    }
    // A failure empties the cache and keeps what was scored.
    session.failed();
    assert_eq!(session.look(&[9]), Some(102));
    match session.step(&session.start(&[9, 4])) {
        Step::ScoreHead { from, tokens, .. } => assert_eq!((from, tokens), (0, vec![1, 2])),
        _ => panic!("nothing is cached"),
    }
    session.reset();
    assert_eq!(session.look(&[9]), None);
}

fn config() -> LlamaConfig {
    LlamaConfig {
        hidden_size: 64,
        intermediate_size: 128,
        num_hidden_layers: 2,
        num_attention_heads: 4,
        num_key_value_heads: 2,
        vocab_size: 64,
        max_position_embeddings: 128,
        bos_token_id: Some(0),
        tie_word_embeddings: true,
        model_type: "llama".to_string(),
        rope_scaling: false,
        rope_interleaved: false,
        attention_bias: false,
        mlp_bias: false,
    }
}

#[test]
fn configurations_are_checked() {
    assert_eq!(config().accept(), Ok(()));
    assert_eq!(config().head_dim(), 16);
    let refused = |change: &dyn Fn(&mut LlamaConfig)| {
        let mut changed = config();
        change(&mut changed);
        changed.accept().err()
    };
    assert_eq!(refused(&|c| c.model_type.push('2')), Some(ConfigError::ModelType));
    assert_eq!(refused(&|c| c.rope_scaling = true), Some(ConfigError::Rope));
    assert_eq!(refused(&|c| c.mlp_bias = true), Some(ConfigError::Biases));
    assert_eq!(refused(&|c| c.tie_word_embeddings = false), Some(ConfigError::UntiedHead));
    assert_eq!(refused(&|c| c.num_attention_heads = 0), Some(ConfigError::Attention));
    assert_eq!(refused(&|c| c.intermediate_size = 100), Some(ConfigError::Blocks));
}

#[test]
fn devices_are_chosen_by_name_or_by_what_there_is() {
    assert_eq!(choose_device(None, true, true), Device::Metal);
    assert_eq!(choose_device(None, true, false), Device::Cpu);
    assert_eq!(choose_device(Some("cpu"), true, true), Device::Cpu);
    assert_eq!(choose_device(Some("metal"), true, false), Device::MetalFailed);
    assert_eq!(choose_device(Some("metal"), false, false), Device::MetalMissing);
    assert_eq!(choose_device(Some("gpu"), false, false), Device::Cpu);
}

#[test]
fn one_word_in_sixteen_anchors() {
    let fnv = |word: &str| {
        word.bytes().fold(0x811c_9dc5u32, |h, b| (h ^ u32::from(b)).wrapping_mul(0x0100_0193))
    };
    let mut anchors = 0;
    for i in 0..1600 {
        let word = format!("word{i}");
        let found = is_anchor(&format!("{word} and more"));
        assert_eq!(found, fnv(&word) % 16 == 0);
        anchors += found as usize;
    }
    assert!((50..200).contains(&anchors), "{anchors}");
}

#[test]
fn tokens_say_the_text_they_were_made_of() {
    let tok = tiny();
    for text in ["a deploy", "", "déjà  vu 42\n<|endoftext|>", "loy lo dep"] {
        let enc = tok.encode(text);
        let said: Vec<u8> =
            enc.ids.iter().flat_map(|&id| tok.token_bytes[id as usize].clone()).collect();
        assert_eq!(said, text.as_bytes(), "{text:?}");
        assert!(!enc.ids.contains(&0));
    }
    let mut spec = tiny_spec();
    let letter = spec.model.vocab.iter().position(|(text, _)| text == "z").unwrap();
    spec.model.vocab.remove(letter);
    let tok = Tokenizer::from_json(&spec).ok().expect("a byte without a token");
    let enc = tok.encode("azaz");
    let said: Vec<u8> =
        enc.ids.iter().flat_map(|&id| tok.token_bytes[id as usize].clone()).collect();
    assert_eq!(said, b"aa");
}

#[test]
fn healing_loses_nothing_of_the_context() {
    let tok = tiny();
    for context in ["a ", "a\n", "", "déjà ", "x  ", "é"] {
        for prefix in ["dep", "lo", "é", ""] {
            let (ids, lead) = heal(&tok, context, prefix);
            let mut said: Vec<u8> =
                ids.iter().flat_map(|&id| tok.token_bytes[id as usize].clone()).collect();
            said.extend(lead.as_bytes());
            assert_eq!(said, context.as_bytes(), "{context:?} {prefix:?}");
        }
    }
}

#[test]
fn healing_passes_over_bytes_without_a_token() {
    let mut spec = tiny_spec();
    let chars = byte_chars();
    let lost = |byte: u8| chars[byte as usize].to_string();
    let gone = [lost(b'z'), lost(0xc3)];
    spec.model.vocab.retain(|(text, _)| !gone.contains(text));
    let tok = Tokenizer::from_json(&spec).ok().expect("bytes without a token");
    // No byte of the word has a token.
    assert_eq!(heal(&tok, "a ", "zz"), (tok.encode("a ").ids, String::new()));
    // The first byte with a token stands inside the character.
    assert_eq!(heal(&tok, "a ", "é"), (tok.encode("a ").ids, String::new()));
}
