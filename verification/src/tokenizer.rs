//! The segmentation engine: dictionary loading, the lattice-building scan,
//! least-cost path extraction, and the mode-driven rewrite of the path.

use vstd::prelude::*;

use crate::dic::grammar::grammar_region_ok;
use crate::dic::grammar::spec_cols;
use crate::dic::grammar::spec_grammar_size;
use crate::dic::grammar::spec_rows;
use crate::dic::grammar::Grammar;
use crate::dic::header::check_header;
use crate::dic::header::header_ok;
use crate::dic::header::HEADER_SIZE;
use crate::dic::lexicon::concat_surfaces;
use crate::dic::lexicon::entry_matches_at;
use crate::dic::lexicon::entry_valid;
use crate::dic::lexicon::ids_ok;
use crate::dic::lexicon::lex_valid;
use crate::dic::lexicon::lexicon_region_ok;
use crate::dic::lexicon::spec_lexicon;
use crate::dic::lexicon::EntryV;
use crate::dic::lexicon::Lexicon;
use crate::error::EngineError;
use crate::dic::lexicon::spec_lookup;
use crate::lattice::has_connected;
use crate::lattice::is_char_start;
use crate::lattice::lists_view;
use crate::lattice::reachable;
use crate::lattice::spec_backtrack;
use crate::lattice::spec_initial_lists;
use crate::lattice::spec_insert;
use crate::lattice::valid_word_path;
use crate::lattice::Lattice;
use crate::lattice::Node;
use crate::mode::Mode;
use crate::morpheme::morph_ids;
use crate::morpheme::Morpheme;
use vstd::string::StringSliceAdditionalSpecFns;

verus! {

/// Able to break text into morphemes.
pub trait Tokenize {
    /// The implementor is in a state fit to tokenize.
    spec fn ready(&self) -> bool;

    /// The implementor's connection cost table.
    spec fn grammar_model(&self) -> Grammar;

    /// The implementor's word list.
    spec fn lexicon_model(&self) -> Seq<EntryV>;

    /// Break `input` into morphemes at granularity `mode`. The result is a
    /// pure function of the dictionary tables, the input, and the mode; the
    /// debug flag selects diagnostics only and never changes it.
    fn tokenize(&self, input: &str, mode: Mode, enable_debug: bool) -> (r: Result<
        Vec<Morpheme>,
        EngineError,
    >)
        requires
            self.ready(),
            input.spec_bytes().len() + 2 <= usize::MAX,
        ensures
            ({
                let text = input.spec_bytes();
                let lex = self.lexicon_model();
                let g = self.grammar_model();
                &&& (r is Ok <==> spec_tokenize(g, lex, text, mode) is Some)
                &&& (r is Ok ==> morph_ids(r->Ok_0@) == spec_tokenize(g, lex, text, mode)->0)
                &&& (r is Err ==> r == Err::<Vec<Morpheme>, EngineError>(EngineError::Path))
            }),
    ;
}

/// Where the word list region starts in a dictionary buffer: right after
/// the fixed header and the connection cost table.
pub open spec fn spec_lexicon_off(b: Seq<u8>) -> int {
    HEADER_SIZE + spec_grammar_size(b, HEADER_SIZE as int)
}

/// A dictionary buffer the loader accepts: a valid header, a well-formed
/// cost table, a well-formed word list, and a word list that is consistent
/// with itself and the table.
pub open spec fn dict_ok(b: Seq<u8>) -> bool {
    &&& header_ok(b)
    &&& grammar_region_ok(b, HEADER_SIZE as int)
    &&& lexicon_region_ok(b, spec_lexicon_off(b))
    &&& lex_valid(
        spec_lexicon(b, spec_lexicon_off(b)),
        spec_rows(b, HEADER_SIZE as int),
        spec_cols(b, HEADER_SIZE as int),
    )
}

/// The word ids of a path, in order.
pub open spec fn path_ids(p: Seq<(int, int, int)>) -> Seq<int> {
    p.map_values(|t: (int, int, int)| t.0)
}

/// The ids an edge for word `w` contributes at granularity `mode`: the
/// word's own id where the selected split list is empty or a single id
/// (the word is indivisible at that granularity, and the coarsest mode
/// never splits), otherwise the split list's ids in order.
pub open spec fn rewrite_one(lex: Seq<EntryV>, mode: Mode, w: int) -> Seq<int> {
    let split = if mode is A {
        lex[w].a_split
    } else {
        lex[w].b_split
    };
    if mode is C || split.len() <= 1 {
        seq![w]
    } else {
        split
    }
}

/// The ids a whole path contributes at granularity `mode`, in order.
pub open spec fn rewrite_ids(lex: Seq<EntryV>, mode: Mode, ids: Seq<int>) -> Seq<int>
    decreases ids.len(),
{
    if ids.len() == 0 {
        Seq::empty()
    } else {
        rewrite_one(lex, mode, ids[0]) + rewrite_ids(lex, mode, ids.drop_first())
    }
}

/// Appending one id appends its contribution to the rewrite.
pub proof fn lemma_rewrite_snoc(lex: Seq<EntryV>, mode: Mode, ids: Seq<int>, x: int)
    ensures
        rewrite_ids(lex, mode, ids.push(x)) =~= rewrite_ids(lex, mode, ids) + rewrite_one(
            lex,
            mode,
            x,
        ),
    decreases ids.len(),
{
    if ids.len() == 0 {
        assert(ids.push(x).drop_first() =~= Seq::<int>::empty());
        assert(ids.push(x)[0] == x);
        assert(rewrite_ids(lex, mode, Seq::<int>::empty()) =~= Seq::<int>::empty());
        assert(rewrite_ids(lex, mode, ids.push(x)) =~= rewrite_one(lex, mode, x)
            + Seq::<int>::empty());
    } else {
        let rest = ids.drop_first();
        assert(ids.push(x).drop_first() =~= rest.push(x));
        assert(ids.push(x)[0] == ids[0]);
        lemma_rewrite_snoc(lex, mode, rest, x);
        assert(rewrite_ids(lex, mode, ids.push(x)) =~= rewrite_one(lex, mode, ids[0])
            + rewrite_ids(lex, mode, rest.push(x)));
        assert(rewrite_ids(lex, mode, ids.push(x)) =~= rewrite_ids(lex, mode, ids) + rewrite_one(
            lex,
            mode,
            x,
        ));
    }
}

/// Idempotent indivisibility: an edge whose selected split list is empty or
/// a single id contributes exactly its own word id at its position — never
/// an empty or substituted sequence. At the coarsest granularity this holds
/// of every edge.
pub proof fn lemma_indivisible_kept(lex: Seq<EntryV>, mode: Mode, w: int)
    requires
        mode is A ==> lex[w].a_split.len() <= 1,
        mode is B ==> lex[w].b_split.len() <= 1,
    ensures
        rewrite_one(lex, mode, w) == seq![w],
{
    assert(rewrite_one(lex, mode, w) =~= seq![w]);
}

/// The coarsest mode passes a chain's word ids through unchanged: with the
/// selected chain pinned by [`spec_result_path`], a dictionary whose
/// least-cost chain for some text is a single compound word yields exactly
/// that word's id in this mode.
pub proof fn lemma_mode_c_identity(lex: Seq<EntryV>, ids: Seq<int>)
    ensures
        rewrite_ids(lex, Mode::C, ids) =~= ids,
    decreases ids.len(),
{
    if ids.len() > 0 {
        lemma_mode_c_identity(lex, ids.drop_first());
        assert(rewrite_one(lex, Mode::C, ids[0]) =~= seq![ids[0]]);
        assert(rewrite_ids(lex, Mode::C, ids) =~= ids);
    }
}

/// Mode monotonicity: on one and the same path, the finest granularity
/// yields at least as many units as the medium one, the medium one at least
/// as many as the coarsest, and the coarsest exactly one unit per edge.
/// The first inequality holds under the premise that each word's finest
/// split is at least as fine as its medium split — dictionary authoring
/// guarantees this nesting, but the binary format does not enforce it, so
/// it is a premise here rather than a fact of every loadable dictionary.
pub proof fn lemma_mode_monotonic(lex: Seq<EntryV>, ids: Seq<int>)
    requires
        forall|k: int|
            0 <= k < ids.len() ==> rewrite_one(lex, Mode::A, #[trigger] ids[k]).len()
                >= rewrite_one(lex, Mode::B, ids[k]).len(),
    ensures
        rewrite_ids(lex, Mode::A, ids).len() >= rewrite_ids(lex, Mode::B, ids).len(),
        rewrite_ids(lex, Mode::B, ids).len() >= rewrite_ids(lex, Mode::C, ids).len(),
        rewrite_ids(lex, Mode::C, ids).len() == ids.len(),
    decreases ids.len(),
{
    if ids.len() > 0 {
        let rest = ids.drop_first();
        assert forall|k: int|
            0 <= k < rest.len() implies rewrite_one(lex, Mode::A, #[trigger] rest[k]).len()
            >= rewrite_one(lex, Mode::B, rest[k]).len() by {
            assert(rest[k] == ids[k + 1]);
        }
        lemma_mode_monotonic(lex, rest);
        assert(rewrite_one(lex, Mode::B, ids[0]).len() >= 1);
        assert(rewrite_one(lex, Mode::C, ids[0]).len() == 1);
    }
}

/// What each word needs so that rewriting it preserves the text it covers.
pub open spec fn word_splits_ok(lex: Seq<EntryV>, w: int) -> bool {
    &&& 0 <= w < lex.len()
    &&& (lex[w].a_split.len() >= 2 ==> concat_surfaces(lex, lex[w].a_split) == lex[w].surface)
    &&& (lex[w].b_split.len() >= 2 ==> concat_surfaces(lex, lex[w].b_split) == lex[w].surface)
}

/// Rewriting one edge preserves the surface it covers.
pub proof fn lemma_rewrite_one_surface(lex: Seq<EntryV>, mode: Mode, w: int)
    requires
        word_splits_ok(lex, w),
    ensures
        concat_surfaces(lex, rewrite_one(lex, mode, w)) =~= lex[w].surface,
{
    let split = if mode is A {
        lex[w].a_split
    } else {
        lex[w].b_split
    };
    let ids = rewrite_one(lex, mode, w);
    if mode is C || split.len() <= 1 {
        assert(ids =~= seq![w]);
        assert(ids.drop_first() =~= Seq::<int>::empty());
        assert(concat_surfaces(lex, Seq::<int>::empty()) =~= Seq::<u8>::empty());
        assert(concat_surfaces(lex, ids) =~= lex[w].surface + Seq::<u8>::empty());
    }
}

/// Rewriting a whole path preserves the concatenation of surfaces. This is
/// what makes the granularity rewrite safe: the finer units of a word
/// cover exactly the text the word itself covered.
pub proof fn lemma_rewrite_concat(lex: Seq<EntryV>, mode: Mode, ids: Seq<int>)
    requires
        forall|k: int| 0 <= k < ids.len() ==> word_splits_ok(lex, #[trigger] ids[k]),
    ensures
        concat_surfaces(lex, rewrite_ids(lex, mode, ids)) =~= concat_surfaces(lex, ids),
    decreases ids.len(),
{
    if ids.len() > 0 {
        let rest = ids.drop_first();
        assert forall|k: int| 0 <= k < rest.len() implies word_splits_ok(
            lex,
            #[trigger] rest[k],
        ) by {
            assert(rest[k] == ids[k + 1]);
        }
        lemma_rewrite_concat(lex, mode, rest);
        lemma_rewrite_one_surface(lex, mode, ids[0]);
        crate::dic::lexicon::lemma_concat_append(
            lex,
            rewrite_one(lex, mode, ids[0]),
            rewrite_ids(lex, mode, rest),
        );
        assert(concat_surfaces(lex, ids) =~= lex[ids[0]].surface + concat_surfaces(lex, rest));
        assert(concat_surfaces(lex, rewrite_ids(lex, mode, ids)) =~= concat_surfaces(lex, ids));
    }
}

/// The surfaces of a chain of word edges covering `[from, to)` reassemble
/// exactly that region of the text.
#[verifier::rlimit(50)]
pub proof fn lemma_chain_concat(
    lex: Seq<EntryV>,
    text: Seq<u8>,
    p: Seq<(int, int, int)>,
    from: int,
    to: int,
)
    requires
        crate::lattice::chain_ok(lex, text, p, from, to),
        0 <= from,
        to <= text.len(),
    ensures
        from <= to,
        concat_surfaces(lex, path_ids(p)) =~= text.subrange(from, to),
    decreases p.len(),
{
    if p.len() == 0 {
        assert(path_ids(p) =~= Seq::<int>::empty());
        assert(text.subrange(from, to) =~= Seq::<u8>::empty());
    } else {
        let t0 = p[0];
        let rest = p.drop_first();
        assert forall|i: int| 0 <= i < rest.len() - 1 implies (#[trigger] rest[i]).2 == rest[i
            + 1].1 by {
            assert(rest[i] == p[i + 1]);
            assert(rest[i + 1] == p[i + 2]);
            assert((p[i + 1]).2 == p[i + 2].1);
        }
        assert forall|i: int| 0 <= i < rest.len() implies ({
            let u = #[trigger] rest[i];
            &&& entry_matches_at(lex, text, u.0, u.1, u.2)
            &&& is_char_start(text, u.1)
            &&& u.1 < u.2
        }) by {
            assert(rest[i] == p[i + 1]);
        }
        if rest.len() > 0 {
            assert(rest[0] == p[1]);
            assert((p[0]).2 == p[1].1);
            assert(rest[rest.len() - 1] == p[p.len() - 1]);
        }
        assert(crate::lattice::chain_ok(lex, text, rest, t0.2, to));
        lemma_chain_concat(lex, text, rest, t0.2, to);
        assert(path_ids(p).drop_first() =~= path_ids(rest));
        assert(path_ids(p)[0] == t0.0);
        assert(lex[t0.0].surface == text.subrange(t0.1, t0.2));
        assert(concat_surfaces(lex, path_ids(p)) =~= lex[t0.0].surface + concat_surfaces(
            lex,
            path_ids(rest),
        ));
        assert(text.subrange(from, t0.2) + text.subrange(t0.2, to) =~= text.subrange(from, to));
    }
}

/// The end lists after inserting, in order, the first `k` lookup results
/// for offset `i`.
pub open spec fn spec_hits_inserted(
    g: Grammar,
    lex: Seq<EntryV>,
    lists: Seq<Seq<Node>>,
    i: int,
    hits: Seq<(int, int)>,
    k: int,
) -> Seq<Seq<Node>>
    decreases k,
{
    if k <= 0 {
        lists
    } else {
        let prev = spec_hits_inserted(g, lex, lists, i, hits, k - 1);
        let w = hits[k - 1].0;
        let end = hits[k - 1].1;
        spec_insert(
            g,
            prev,
            i,
            end,
            lex[w].left_id as u16,
            lex[w].right_id as u16,
            lex[w].cost as i32,
            Some(w as u32),
        )
    }
}

/// The end lists after scanning the first `i` byte offsets of the text: at
/// every character-start offset, one edge per dictionary word whose surface
/// stands there, in word-id order; continuation-byte offsets contribute
/// nothing.
pub open spec fn spec_scan(g: Grammar, lex: Seq<EntryV>, text: Seq<u8>, i: int) -> Seq<Seq<Node>>
    decreases i,
{
    if i <= 0 {
        spec_initial_lists(text.len() as int)
    } else {
        let prev = spec_scan(g, lex, text, i - 1);
        if is_char_start(text, i - 1) {
            let hits = spec_lookup(lex, text, i - 1, lex.len() as int);
            spec_hits_inserted(g, lex, prev, i - 1, hits, hits.len() as int)
        } else {
            prev
        }
    }
}

/// The end lists after the whole scan and the synthetic end edge.
pub open spec fn spec_final_lists(g: Grammar, lex: Seq<EntryV>, text: Seq<u8>) -> Seq<Seq<Node>> {
    let n = text.len() as int;
    spec_insert(g, spec_scan(g, lex, text, n), n, n + 1, 0, 0, 0, None)
}

/// The chain of word edges the engine selects for this text: the least-cost
/// chain under the dynamic program with earliest-edge tie-breaking, or
/// nothing when no chain of dictionary words covers the text. A pure
/// function of the cost table, the word list, and the text.
pub open spec fn spec_result_path(g: Grammar, lex: Seq<EntryV>, text: Seq<u8>) -> Option<
    Seq<(int, int, int)>,
> {
    let lists = spec_final_lists(g, lex, text);
    let n = text.len() as int;
    let eos = lists[n + 1].last();
    if eos.connected {
        Some(spec_backtrack(lists, n, eos.best_previous->0 as int))
    } else {
        None
    }
}

/// What tokenizing returns for given dictionary tables, input bytes, and
/// mode: the mode rewrite of the selected chain's word ids, or nothing when
/// the text cannot be segmented. A pure function of its arguments — two
/// calls on the same dictionary, text, and mode yield the same result.
pub open spec fn spec_tokenize(g: Grammar, lex: Seq<EntryV>, text: Seq<u8>, mode: Mode) -> Option<
    Seq<int>,
> {
    match spec_result_path(g, lex, text) {
        None => None,
        Some(p) => Some(rewrite_ids(lex, mode, path_ids(p))),
    }
}

/// Mode monotonicity across calls: the engine selects one and the same
/// chain for a given dictionary and input whatever the mode, and rewrites
/// it per mode, so the finest mode yields at least as many morphemes as the
/// medium one and the medium one at least as many as the coarsest — under
/// the premise that each word's finest split is at least as fine as its
/// medium one (dictionary authoring guarantees that nesting; the format
/// does not enforce it).
pub proof fn lemma_tokenize_mode_monotonic(g: Grammar, lex: Seq<EntryV>, text: Seq<u8>)
    requires
        spec_result_path(g, lex, text) is Some,
        valid_word_path(lex, text, spec_result_path(g, lex, text)->0),
        forall|w: int|
            0 <= w < lex.len() ==> (#[trigger] rewrite_one(lex, Mode::A, w)).len() >= rewrite_one(
                lex,
                Mode::B,
                w,
            ).len(),
    ensures
        spec_tokenize(g, lex, text, Mode::A)->0.len() >= spec_tokenize(g, lex, text, Mode::B)
            ->0.len(),
        spec_tokenize(g, lex, text, Mode::B)->0.len() >= spec_tokenize(g, lex, text, Mode::C)
            ->0.len(),
        spec_tokenize(g, lex, text, Mode::C)->0.len() == spec_result_path(g, lex, text)->0.len(),
{
    let p = spec_result_path(g, lex, text)->0;
    let ids = path_ids(p);
    assert forall|k: int|
        0 <= k < ids.len() implies rewrite_one(lex, Mode::A, #[trigger] ids[k]).len()
        >= rewrite_one(lex, Mode::B, ids[k]).len() by {
        assert(ids[k] == p[k].0);
        assert(entry_matches_at(lex, text, p[k].0, p[k].1, p[k].2));
    }
    lemma_mode_monotonic(lex, ids);
}

/// The tokenizer: the loaded dictionary's cost table and word list.
pub struct Tokenizer {
    pub grammar: Grammar,
    pub lexicon: Lexicon,
}

impl Tokenizer {
    /// The loaded dictionary is internally consistent.
    pub open spec fn wf(self) -> bool {
        &&& self.grammar.wf()
        &&& self.lexicon.wf()
        &&& lex_valid(self.lexicon@, self.grammar.rows as int, self.grammar.cols as int)
    }

    /// Create a `Tokenizer` from the raw bytes of a binary dictionary.
    ///
    /// Succeeds exactly on the buffers that [`dict_ok`] accepts; every
    /// refused buffer — truncated header, malformed region, or a word list
    /// inconsistent with the cost table — is a dictionary format error.
    pub fn from_dictionary_bytes(dictionary_bytes: &[u8]) -> (r: Result<Tokenizer, EngineError>)
        ensures
            r is Ok <==> dict_ok(dictionary_bytes@),
            r is Err ==> r == Err::<Tokenizer, EngineError>(EngineError::DictionaryFormat),
            r is Ok ==> ({
                let t = r->Ok_0;
                &&& t.wf()
                &&& t.lexicon@ == spec_lexicon(dictionary_bytes@, spec_lexicon_off(
                    dictionary_bytes@,
                ))
                &&& t.grammar.parsed_from(dictionary_bytes@, HEADER_SIZE as int)
            }),
    {
        if !check_header(dictionary_bytes) {
            return Err(EngineError::DictionaryFormat);
        }
        let _buffer_len = dictionary_bytes.len();
        let grammar = match Grammar::parse(dictionary_bytes, HEADER_SIZE) {
            Ok(g) => g,
            Err(_) => {
                return Err(EngineError::DictionaryFormat);
            },
        };
        let lex_off = HEADER_SIZE + grammar.storage_size;
        let lexicon = match Lexicon::parse(dictionary_bytes, lex_off) {
            Ok(l) => l,
            Err(_) => {
                return Err(EngineError::DictionaryFormat);
            },
        };
        if !lexicon.validate(grammar.rows, grammar.cols) {
            return Err(EngineError::DictionaryFormat);
        }
        Ok(Tokenizer { grammar, lexicon })
    }

    /// Append the contribution of one path edge at granularity `mode`: the
    /// edge's own word id where its selected split list is empty or a
    /// single id, the split list's ids otherwise.
    fn append_unit(&self, out: &mut Vec<usize>, w: usize, mode: Mode)
        requires
            self.wf(),
            w < self.lexicon@.len(),
        ensures
            final(out)@.map_values(|x: usize| x as int) == old(out)@.map_values(|x: usize| x as int)
                + rewrite_one(self.lexicon@, mode, w as int),
            ids_ok(self.lexicon@.len() as int, old(out)@.map_values(|x: usize| x as int))
                ==> ids_ok(
                self.lexicon@.len() as int,
                final(out)@.map_values(|x: usize| x as int),
            ),
    {
        let ghost lex = self.lexicon@;
        let ghost base = out@.map_values(|x: usize| x as int);
        proof {
            assert(entry_valid(lex, self.grammar.rows as int, self.grammar.cols as int, w as int));
        }
        match mode {
            Mode::C => {
                out.push(w);
                proof {
                    assert(out@.map_values(|x: usize| x as int) =~= base + seq![w as int]);
                }
            },
            Mode::A => {
                let e = self.lexicon.entry(w);
                let m = e.a_split.len();
                let ghost split = lex[w as int].a_split;
                if m <= 1 {
                    out.push(w);
                    proof {
                        assert(out@.map_values(|x: usize| x as int) =~= base + seq![w as int]);
                    }
                } else {
                    for t in 0..m
                        invariant
                            m == e.a_split@.len(),
                            split == e.a_split@.map_values(|x: u32| x as int),
                            ids_ok(lex.len() as int, split),
                            out@.map_values(|x: usize| x as int) =~= base + split.take(t as int),
                    {
                        let ghost prevv = out@;
                        out.push(e.a_split[t] as usize);
                        proof {
                            assert(split.take(t + 1) =~= split.take(t as int).push(
                                split[t as int],
                            ));
                            assert(out@.map_values(|x: usize| x as int) =~= prevv.map_values(
                                |x: usize| x as int,
                            ).push(split[t as int]));
                            assert(out@.map_values(|x: usize| x as int) =~= base + split.take(
                                t + 1,
                            ));
                        }
                    }
                    proof {
                        assert(split.take(m as int) =~= split);
                    }
                }
            },
            Mode::B => {
                let e = self.lexicon.entry(w);
                let m = e.b_split.len();
                let ghost split = lex[w as int].b_split;
                if m <= 1 {
                    out.push(w);
                    proof {
                        assert(out@.map_values(|x: usize| x as int) =~= base + seq![w as int]);
                    }
                } else {
                    for t in 0..m
                        invariant
                            m == e.b_split@.len(),
                            split == e.b_split@.map_values(|x: u32| x as int),
                            ids_ok(lex.len() as int, split),
                            out@.map_values(|x: usize| x as int) =~= base + split.take(t as int),
                    {
                        let ghost prevv = out@;
                        out.push(e.b_split[t] as usize);
                        proof {
                            assert(split.take(t + 1) =~= split.take(t as int).push(
                                split[t as int],
                            ));
                            assert(out@.map_values(|x: usize| x as int) =~= prevv.map_values(
                                |x: usize| x as int,
                            ).push(split[t as int]));
                            assert(out@.map_values(|x: usize| x as int) =~= base + split.take(
                                t + 1,
                            ));
                        }
                    }
                    proof {
                        assert(split.take(m as int) =~= split);
                    }
                }
            },
        }
        proof {
            let fin = out@.map_values(|x: usize| x as int);
            let one = rewrite_one(lex, mode, w as int);
            if ids_ok(lex.len() as int, base) {
                assert forall|k: int| 0 <= k < fin.len() implies 0 <= #[trigger] fin[k]
                    < lex.len() by {
                    if k < base.len() {
                        assert(fin[k] == base[k]);
                    } else {
                        assert(fin[k] == one[k - base.len()]);
                    }
                }
            }
        }
    }

    /// Break `input` into morphemes at granularity `mode`.
    ///
    /// The engine scans every character-start byte offset of the input,
    /// inserts an edge for every dictionary word found there, connects the
    /// synthetic end edge, extracts the least-cost chain, and rewrites it
    /// per `mode`. It succeeds exactly when some chain of dictionary words
    /// covers the whole input; the surfaces of the returned morphemes then
    /// reassemble the input exactly, with no gaps or overlaps.
    ///
    /// The optional diagnostic dump of the original interface is
    /// observability only and is omitted here; the flag is kept so callers
    /// do not change.
    #[verifier::rlimit(100)]
    pub fn tokenize(&self, input: &str, mode: Mode, _enable_debug: bool) -> (r: Result<
        Vec<Morpheme>,
        EngineError,
    >)
        requires
            self.wf(),
            input.spec_bytes().len() + 2 <= usize::MAX,
        ensures
            ({
                let text = input.spec_bytes();
                let lex = self.lexicon@;
                &&& (r is Ok <==> reachable(lex, text, text.len() as int))
                &&& (r is Err ==> r == Err::<Vec<Morpheme>, EngineError>(EngineError::Path))
                &&& (r is Ok <==> spec_tokenize(self.grammar, lex, text, mode) is Some)
                &&& (r is Ok ==> ({
                    let p = spec_result_path(self.grammar, lex, text)->0;
                    &&& valid_word_path(lex, text, p)
                    &&& morph_ids(r->Ok_0@) == rewrite_ids(lex, mode, path_ids(p))
                    &&& morph_ids(r->Ok_0@) == spec_tokenize(self.grammar, lex, text, mode)->0
                }))
                &&& (r is Ok ==> concat_surfaces(lex, morph_ids(r->Ok_0@)) == text)
                &&& (r is Ok ==> forall|i: int|
                    0 <= i < r->Ok_0@.len() ==> ({
                        let m = #[trigger] r->Ok_0@[i];
                        &&& m.word_id < lex.len()
                        &&& m.surface@ == lex[m.word_id as int].surface
                    }))
            }),
    {
        let input_bytes: &[u8] = input.as_bytes();
        let n = input_bytes.len();
        let ghost text = input.spec_bytes();
        let ghost lex = self.lexicon@;
        let ghost rows = self.grammar.rows as int;
        let ghost cols = self.grammar.cols as int;
        let mut lattice = Lattice::new(
            n,
            self.grammar.rows,
            self.grammar.cols,
            Ghost(text),
            Ghost(lex),
        );
        let mut i: usize = 0;
        while i < n
            invariant
                self.wf(),
                lex == self.lexicon@,
                n == text.len(),
                n + 2 <= usize::MAX,
                input_bytes@ == text,
                i <= n,
                lattice.wf(),
                !lattice.eos_done,
                lattice.text_len == n,
                lattice.text@ == text,
                lattice.lex@ == lex,
                lattice.rows == self.grammar.rows,
                lattice.cols == self.grammar.cols,
                lists_view(lattice.end_lists@) == spec_scan(self.grammar, lex, text, i as int),
                forall|en: int, a: int, w: int|
                    1 <= en <= n && 0 <= a < i && #[trigger] entry_matches_at(lex, text, w, a, en)
                        && is_char_start(text, a) && reachable(lex, text, a) ==> has_connected(
                        lattice.end_lists@[en]@,
                    ),
            decreases n - i,
        {
            let byte_i = input_bytes[i];
            if (byte_i & 0xC0) != 0x80 {
                let hits = self.lexicon.lookup(input_bytes, i);
                let m = hits.len();
                let mut h: usize = 0;
                while h < m
                    invariant
                        self.wf(),
                        lex == self.lexicon@,
                        n == text.len(),
                        n + 2 <= usize::MAX,
                        input_bytes@ == text,
                        i < n,
                        is_char_start(text, i as int),
                        h <= m,
                        m == hits@.len(),
                        hits@.map_values(|t: (u32, usize)| (t.0 as int, t.1 as int))
                            == crate::dic::lexicon::spec_lookup(lex, text, i as int, lex.len() as int),
                        lattice.wf(),
                        !lattice.eos_done,
                        lattice.text_len == n,
                        lattice.text@ == text,
                        lattice.lex@ == lex,
                        lattice.rows == self.grammar.rows,
                        lattice.cols == self.grammar.cols,
                        lists_view(lattice.end_lists@) == spec_hits_inserted(
                            self.grammar,
                            lex,
                            spec_scan(self.grammar, lex, text, i as int),
                            i as int,
                            spec_lookup(lex, text, i as int, lex.len() as int),
                            h as int,
                        ),
                        forall|en: int, a: int, w: int|
                            1 <= en <= n && 0 <= a < i && #[trigger] entry_matches_at(
                                lex,
                                text,
                                w,
                                a,
                                en,
                            ) && is_char_start(text, a) && reachable(lex, text, a)
                                ==> has_connected(lattice.end_lists@[en]@),
                        forall|idx: int|
                            0 <= idx < h ==> ({
                                let en = ((#[trigger] hits@[idx]).1) as int;
                                &&& 1 <= en <= n
                                &&& (reachable(lex, text, i as int) ==> has_connected(
                                    lattice.end_lists@[en]@,
                                ))
                            }),
                    decreases m - h,
                {
                    let pair = hits[h];
                    let word_id = pair.0;
                    let end = pair.1;
                    proof {
                        crate::dic::lexicon::lemma_lookup_sound(
                            lex,
                            text,
                            i as int,
                            lex.len() as int,
                            h as int,
                        );
                        assert(hits@.map_values(|t: (u32, usize)| (t.0 as int, t.1 as int))[
                            h as int] == (word_id as int, end as int));
                        assert(entry_matches_at(lex, text, word_id as int, i as int, end as int));
                        assert(entry_valid(
                            lex,
                            self.grammar.rows as int,
                            self.grammar.cols as int,
                            word_id as int,
                        ));
                        assert(lex[word_id as int].surface.len() >= 1);
                    }
                    let e = self.lexicon.entry(word_id as usize);
                    let ghost pre_lat = lattice;
                    lattice.insert(i, end, e.left_id, e.right_id, e.cost, word_id, &self.grammar);
                    proof {
                        assert forall|en2: int|
                            0 <= en2 < lattice.end_lists@.len() && has_connected(
                                pre_lat.end_lists@[en2]@,
                            ) implies has_connected(lattice.end_lists@[en2]@) by {
                            let j = choose|j: int|
                                0 <= j < pre_lat.end_lists@[en2]@.len() && #[trigger] pre_lat
                                    .end_lists@[en2]@[j].connected;
                            assert(lattice.end_lists@[en2]@[j].connected);
                        }
                        if reachable(lex, text, i as int) {
                            if i == 0 {
                                assert(pre_lat.end_lists@[0]@[0].connected);
                            } else {
                                let (a, w2): (int, int) = choose|a: int, w2: int|
                                    0 <= a < i && is_char_start(text, a)
                                        && #[trigger] entry_matches_at(lex, text, w2, a, i as int)
                                        && reachable(lex, text, a);
                                assert(has_connected(pre_lat.end_lists@[i as int]@));
                            }
                            assert(has_connected(pre_lat.end_lists@[i as int]@));
                            assert(lattice.end_lists@[end as int]@.last().connected);
                            assert(has_connected(lattice.end_lists@[end as int]@));
                        }
                        assert(e.left_id == lex[word_id as int].left_id as u16);
                        assert(e.right_id == lex[word_id as int].right_id as u16);
                        assert(e.cost == lex[word_id as int].cost as i32);
                        assert(word_id == (word_id as int) as u32);
                        assert(lists_view(lattice.end_lists@) == spec_hits_inserted(
                            self.grammar,
                            lex,
                            spec_scan(self.grammar, lex, text, i as int),
                            i as int,
                            spec_lookup(lex, text, i as int, lex.len() as int),
                            h as int + 1,
                        ));
                    }
                    h += 1;
                }
                proof {
                    assert forall|en: int, a: int, w: int|
                        1 <= en <= n && 0 <= a < i + 1 && #[trigger] entry_matches_at(
                            lex,
                            text,
                            w,
                            a,
                            en,
                        ) && is_char_start(text, a) && reachable(lex, text, a)
                            implies has_connected(lattice.end_lists@[en]@) by {
                        if a == i {
                            crate::dic::lexicon::lemma_lookup_complete(
                                lex,
                                text,
                                i as int,
                                lex.len() as int,
                                w,
                            );
                            let s = crate::dic::lexicon::spec_lookup(
                                lex,
                                text,
                                i as int,
                                lex.len() as int,
                            );
                            let idx = choose|idx: int|
                                0 <= idx < s.len() && s[idx] == (w, i + lex[w].surface.len());
                            assert(hits@.map_values(|t: (u32, usize)| (t.0 as int, t.1 as int))[
                                idx] == (w, en));
                            assert((hits@[idx].1) as int == en);
                        }
                    }
                    assert(m as int == spec_lookup(lex, text, i as int, lex.len() as int).len());
                    assert(lists_view(lattice.end_lists@) == spec_scan(
                        self.grammar,
                        lex,
                        text,
                        i as int + 1,
                    ));
                }
            } else {
                proof {
                    assert forall|en: int, a: int, w: int|
                        1 <= en <= n && 0 <= a < i + 1 && #[trigger] entry_matches_at(
                            lex,
                            text,
                            w,
                            a,
                            en,
                        ) && is_char_start(text, a) && reachable(lex, text, a)
                            implies has_connected(lattice.end_lists@[en]@) by {
                        assert(a != i);
                    }
                    assert(!is_char_start(text, i as int));
                    assert(lists_view(lattice.end_lists@) == spec_scan(
                        self.grammar,
                        lex,
                        text,
                        i as int + 1,
                    ));
                }
            }
            i += 1;
        }
        let ghost pre_eos = lattice;
        lattice.connect_eos(&self.grammar);
        proof {
            assert(reachable(lex, text, n as int) ==> lattice.eos_connected()) by {
                if reachable(lex, text, n as int) {
                    if n == 0 {
                        assert(pre_eos.end_lists@[0]@[0].connected);
                        assert(has_connected(pre_eos.end_lists@[0]@));
                    } else {
                        let (a, w2): (int, int) = choose|a: int, w2: int|
                            0 <= a < n && is_char_start(text, a) && #[trigger] entry_matches_at(
                                lex,
                                text,
                                w2,
                                a,
                                n as int,
                            ) && reachable(lex, text, a);
                        assert(has_connected(pre_eos.end_lists@[n as int]@));
                    }
                }
            }
        }
        proof {
            assert(lists_view(lattice.end_lists@) == spec_final_lists(self.grammar, lex, text));
            assert(lattice.end_lists@[n + 1]@ == spec_final_lists(self.grammar, lex, text)[
                n + 1]);
            assert(lattice.end_lists@[n + 1]@[0] == spec_final_lists(self.grammar, lex, text)[
                n + 1].last());
            assert(lattice.eos_connected() <==> spec_result_path(self.grammar, lex, text)
                is Some);
        }
        let node_list = match lattice.get_best_path() {
            Ok(p) => p,
            Err(err) => {
                proof {
                    assert(!reachable(lex, text, n as int));
                    assert(spec_tokenize(self.grammar, lex, text, mode) is None);
                }
                return Err(err);
            },
        };
        let ghost pathv = Lattice::path_view(node_list@);
        let ghost pids = path_ids(pathv);
        proof {
            assert(valid_word_path(lex, text, pathv));
            assert(pathv == spec_result_path(self.grammar, lex, text)->0);
        }
        let count = node_list.len();
        let mut out_ids: Vec<usize> = Vec::new();
        let mut k: usize = 0;
        while k < count
            invariant
                self.wf(),
                lex == self.lexicon@,
                k <= count,
                count == node_list@.len(),
                pathv == Lattice::path_view(node_list@),
                pids == path_ids(pathv),
                valid_word_path(lex, text, pathv),
                out_ids@.map_values(|x: usize| x as int) == rewrite_ids(
                    lex,
                    mode,
                    pids.take(k as int),
                ),
                ids_ok(lex.len() as int, out_ids@.map_values(|x: usize| x as int)),
            decreases count - k,
        {
            let t = node_list[k];
            proof {
                assert(pathv[k as int] == (t.0 as int, t.1 as int, t.2 as int));
                assert(entry_matches_at(lex, text, t.0 as int, t.1 as int, t.2 as int));
                lemma_rewrite_snoc(lex, mode, pids.take(k as int), pids[k as int]);
                assert(pids.take(k + 1) =~= pids.take(k as int).push(pids[k as int]));
                assert(pids[k as int] == t.0 as int);
            }
            self.append_unit(&mut out_ids, t.0 as usize, mode);
            proof {
                assert(out_ids@.map_values(|x: usize| x as int) =~= rewrite_ids(
                    lex,
                    mode,
                    pids.take(k + 1),
                ));
            }
            k += 1;
        }
        proof {
            assert(pids.take(count as int) =~= pids);
        }
        let total = out_ids.len();
        let mut morphemes: Vec<Morpheme> = Vec::new();
        let mut k2: usize = 0;
        while k2 < total
            invariant
                self.wf(),
                lex == self.lexicon@,
                k2 <= total,
                total == out_ids@.len(),
                ids_ok(lex.len() as int, out_ids@.map_values(|x: usize| x as int)),
                morph_ids(morphemes@) == out_ids@.map_values(|x: usize| x as int).take(k2 as int),
                morphemes@.len() == k2,
                forall|j: int|
                    0 <= j < k2 ==> ({
                        let m = #[trigger] morphemes@[j];
                        &&& m.word_id < lex.len()
                        &&& m.surface@ == lex[m.word_id as int].surface
                    }),
            decreases total - k2,
        {
            let w = out_ids[k2];
            proof {
                assert(out_ids@.map_values(|x: usize| x as int)[k2 as int] == w as int);
            }
            let e = self.lexicon.entry(w);
            let mut surf: Vec<u8> = Vec::new();
            surf.extend_from_slice(e.surface.as_slice());
            let ghost prevm = morphemes@;
            morphemes.push(Morpheme { word_id: w, surface: surf });
            proof {
                assert(morph_ids(morphemes@) =~= morph_ids(prevm).push(w as int));
                assert(out_ids@.map_values(|x: usize| x as int).take(k2 + 1) =~= out_ids@
                    .map_values(|x: usize| x as int).take(k2 as int).push(w as int));
            }
            k2 += 1;
        }
        proof {
            let idsv = out_ids@.map_values(|x: usize| x as int);
            assert(idsv.take(total as int) =~= idsv);
            assert(morph_ids(morphemes@) == rewrite_ids(lex, mode, pids));
            assert forall|kk: int| 0 <= kk < pids.len() implies word_splits_ok(
                lex,
                #[trigger] pids[kk],
            ) by {
                assert(pathv[kk] == (pathv[kk].0, pathv[kk].1, pathv[kk].2));
                assert(entry_matches_at(lex, text, pathv[kk].0, pathv[kk].1, pathv[kk].2));
                assert(entry_valid(lex, rows, cols, pids[kk]));
            }
            lemma_rewrite_concat(lex, mode, pids);
            lemma_chain_concat(lex, text, pathv, 0, n as int);
            assert(text.subrange(0, n as int) =~= text);
            assert(concat_surfaces(lex, morph_ids(morphemes@)) == text);
            assert(reachable(lex, text, n as int));
        }
        Ok(morphemes)
    }
}

impl Tokenize for Tokenizer {
    /// A loaded dictionary is fit to tokenize.
    open spec fn ready(&self) -> bool {
        self.wf()
    }

    open spec fn grammar_model(&self) -> Grammar {
        self.grammar
    }

    open spec fn lexicon_model(&self) -> Seq<EntryV> {
        self.lexicon@
    }

    fn tokenize(&self, input: &str, mode: Mode, enable_debug: bool) -> (r: Result<
        Vec<Morpheme>,
        EngineError,
    >) {
        Tokenizer::tokenize(self, input, mode, enable_debug)
    }
}

} // verus!
