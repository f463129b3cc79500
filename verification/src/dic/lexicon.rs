//! The word list: surface forms, connection parameters, and the two
//! precomputed finer decompositions of each word.

use vstd::prelude::*;

use crate::dic::bytes::le16;
use crate::dic::bytes::le32;
use crate::dic::bytes::read_cost;
use crate::dic::bytes::read_u16;
use crate::dic::bytes::read_u32;
use crate::error::EngineError;

verus! {

/// One dictionary word as the contracts see it.
#[verifier::ext_equal]
pub ghost struct EntryV {
    /// The exact bytes of text this word matches.
    pub surface: Seq<u8>,
    /// Connection id used when this word stands to the right of another.
    pub left_id: int,
    /// Connection id used when this word stands to the left of another.
    pub right_id: int,
    /// The word's own cost on a lattice path.
    pub cost: int,
    /// Finest decomposition of this word into other word ids.
    pub a_split: Seq<int>,
    /// Medium decomposition of this word into other word ids.
    pub b_split: Seq<int>,
}

/// One dictionary word.
pub struct WordEntry {
    pub surface: Vec<u8>,
    pub left_id: u16,
    pub right_id: u16,
    pub cost: i32,
    pub a_split: Vec<u32>,
    pub b_split: Vec<u32>,
}

impl View for WordEntry {
    type V = EntryV;

    open spec fn view(&self) -> EntryV {
        EntryV {
            surface: self.surface@,
            left_id: self.left_id as int,
            right_id: self.right_id as int,
            cost: self.cost as int,
            a_split: self.a_split@.map_values(|x: u32| x as int),
            b_split: self.b_split@.map_values(|x: u32| x as int),
        }
    }
}

// ---------------------------------------------------------------------------
// The encoded form of one entry: a two-byte surface length, the surface
// bytes, three two-byte connection parameters (the cost biased by 32768),
// then each split list as a one-byte count followed by four-byte word ids.
// ---------------------------------------------------------------------------
/// Byte length of the surface of the entry encoded at `p`.
pub open spec fn e_surface_len(b: Seq<u8>, p: int) -> int {
    le16(b, p)
}

/// Offset of the connection parameters of the entry encoded at `p`.
pub open spec fn e_params(b: Seq<u8>, p: int) -> int {
    p + 2 + e_surface_len(b, p)
}

/// Length of the finest split list of the entry encoded at `p`.
pub open spec fn e_a_len(b: Seq<u8>, p: int) -> int {
    b[e_params(b, p) + 6] as int
}

/// Offset of the finest split list of the entry encoded at `p`.
pub open spec fn e_a_off(b: Seq<u8>, p: int) -> int {
    e_params(b, p) + 7
}

/// Offset of the count byte of the medium split list.
pub open spec fn e_b_count_off(b: Seq<u8>, p: int) -> int {
    e_a_off(b, p) + 4 * e_a_len(b, p)
}

/// Length of the medium split list of the entry encoded at `p`.
pub open spec fn e_b_len(b: Seq<u8>, p: int) -> int {
    b[e_b_count_off(b, p)] as int
}

/// Offset of the medium split list of the entry encoded at `p`.
pub open spec fn e_b_off(b: Seq<u8>, p: int) -> int {
    e_b_count_off(b, p) + 1
}

/// Offset just past the entry encoded at `p`.
pub open spec fn e_end(b: Seq<u8>, p: int) -> int {
    e_b_off(b, p) + 4 * e_b_len(b, p)
}

/// The entry encoded at `p` lies entirely inside the buffer.
pub open spec fn entry_region_ok(b: Seq<u8>, p: int) -> bool {
    &&& 0 <= p
    &&& p + 2 <= b.len()
    &&& e_params(b, p) + 7 <= b.len()
    &&& e_b_count_off(b, p) + 1 <= b.len()
    &&& e_end(b, p) <= b.len()
}

/// The list of `n` four-byte word ids encoded at `p`.
pub open spec fn spec_ids(b: Seq<u8>, p: int, n: int) -> Seq<int> {
    Seq::new(n as nat, |k: int| le32(b, p + 4 * k))
}

/// The entry encoded at `p`.
pub open spec fn spec_entry(b: Seq<u8>, p: int) -> EntryV {
    EntryV {
        surface: b.subrange(p + 2, p + 2 + e_surface_len(b, p)),
        left_id: le16(b, e_params(b, p)),
        right_id: le16(b, e_params(b, p) + 2),
        cost: le16(b, e_params(b, p) + 4) - 32768,
        a_split: spec_ids(b, e_a_off(b, p), e_a_len(b, p)),
        b_split: spec_ids(b, e_b_off(b, p), e_b_len(b, p)),
    }
}

/// `n` consecutive entries starting at `p` all lie inside the buffer.
pub open spec fn entries_ok(b: Seq<u8>, p: int, n: nat) -> bool
    decreases n,
{
    n == 0 || (entry_region_ok(b, p) && entries_ok(b, e_end(b, p), (n - 1) as nat))
}

/// The `n` consecutive entries starting at `p`.
pub open spec fn spec_entries(b: Seq<u8>, p: int, n: nat) -> Seq<EntryV>
    decreases n,
{
    if n == 0 {
        Seq::empty()
    } else {
        seq![spec_entry(b, p)] + spec_entries(b, e_end(b, p), (n - 1) as nat)
    }
}

/// A well-formed encoded word list at `off`: a four-byte count followed by
/// that many entries. Bytes after the last entry are ignored.
pub open spec fn lexicon_region_ok(b: Seq<u8>, off: int) -> bool {
    &&& 0 <= off
    &&& off + 4 <= b.len()
    &&& entries_ok(b, off + 4, le32(b, off) as nat)
}

/// The word list encoded at `off`.
pub open spec fn spec_lexicon(b: Seq<u8>, off: int) -> Seq<EntryV> {
    spec_entries(b, off + 4, le32(b, off) as nat)
}

// ---------------------------------------------------------------------------
// Semantic validity: what loading checks beyond the byte layout.
// ---------------------------------------------------------------------------
/// Every id in `ids` names one of `n_words` words.
pub open spec fn ids_ok(n_words: int, ids: Seq<int>) -> bool {
    forall|k: int| 0 <= k < ids.len() ==> 0 <= #[trigger] ids[k] < n_words
}

/// The concatenation of the surfaces of the words `ids` name.
pub open spec fn concat_surfaces(lex: Seq<EntryV>, ids: Seq<int>) -> Seq<u8>
    decreases ids.len(),
{
    if ids.len() == 0 {
        Seq::empty()
    } else {
        lex[ids[0]].surface + concat_surfaces(lex, ids.drop_first())
    }
}

/// Appending one id appends that word's surface to the concatenation.
pub proof fn lemma_concat_snoc(lex: Seq<EntryV>, ids: Seq<int>, x: int)
    ensures
        concat_surfaces(lex, ids.push(x)) =~= concat_surfaces(lex, ids) + lex[x].surface,
    decreases ids.len(),
{
    let s = lex[x].surface;
    if ids.len() == 0 {
        assert(ids.push(x).drop_first() =~= Seq::<int>::empty());
        assert(ids.push(x)[0] == x);
        assert(concat_surfaces(lex, Seq::<int>::empty()) =~= Seq::<u8>::empty());
        assert(concat_surfaces(lex, ids.push(x)) =~= s + Seq::<u8>::empty());
        assert(concat_surfaces(lex, ids) =~= Seq::<u8>::empty());
    } else {
        let rest = ids.drop_first();
        assert(ids.push(x).drop_first() =~= rest.push(x));
        assert(ids.push(x)[0] == ids[0]);
        lemma_concat_snoc(lex, rest, x);
        assert(concat_surfaces(lex, ids.push(x)) =~= lex[ids[0]].surface + concat_surfaces(
            lex,
            rest.push(x),
        ));
        assert(concat_surfaces(lex, ids.push(x)) =~= concat_surfaces(lex, ids) + s);
    }
}

/// Concatenation distributes over appended id sequences.
pub proof fn lemma_concat_append(lex: Seq<EntryV>, s1: Seq<int>, s2: Seq<int>)
    ensures
        concat_surfaces(lex, s1 + s2) =~= concat_surfaces(lex, s1) + concat_surfaces(lex, s2),
    decreases s1.len(),
{
    if s1.len() == 0 {
        assert(s1 + s2 =~= s2);
        assert(concat_surfaces(lex, s1) =~= Seq::<u8>::empty());
    } else {
        assert((s1 + s2).drop_first() =~= s1.drop_first() + s2);
        assert((s1 + s2)[0] == s1[0]);
        lemma_concat_append(lex, s1.drop_first(), s2);
        assert(concat_surfaces(lex, s1 + s2) =~= lex[s1[0]].surface + concat_surfaces(
            lex,
            s1.drop_first() + s2,
        ));
        assert(concat_surfaces(lex, s1 + s2) =~= concat_surfaces(lex, s1) + concat_surfaces(
            lex,
            s2,
        ));
    }
}

/// One word is valid against the whole word list and the cost table sizes:
/// its surface is non-empty, its connection ids are covered by the table,
/// every split id names a word, and a split list of two or more words
/// reassembles exactly this word's surface.
pub open spec fn entry_valid(lex: Seq<EntryV>, rows: int, cols: int, w: int) -> bool {
    let e = lex[w];
    &&& e.surface.len() >= 1
    &&& 0 <= e.right_id < rows
    &&& 0 <= e.left_id < cols
    &&& ids_ok(lex.len() as int, e.a_split)
    &&& ids_ok(lex.len() as int, e.b_split)
    &&& (e.a_split.len() >= 2 ==> concat_surfaces(lex, e.a_split) == e.surface)
    &&& (e.b_split.len() >= 2 ==> concat_surfaces(lex, e.b_split) == e.surface)
}

/// Every word of the list is valid.
pub open spec fn lex_valid(lex: Seq<EntryV>, rows: int, cols: int) -> bool {
    forall|w: int| 0 <= w < lex.len() ==> entry_valid(lex, rows, cols, w)
}

// ---------------------------------------------------------------------------
// Lookup.
// ---------------------------------------------------------------------------
/// Word `w` occupies exactly `[begin, end)` of the text.
pub open spec fn entry_matches_at(
    lex: Seq<EntryV>,
    text: Seq<u8>,
    w: int,
    begin: int,
    end: int,
) -> bool {
    &&& 0 <= w < lex.len()
    &&& 0 <= begin <= end <= text.len()
    &&& lex[w].surface == text.subrange(begin, end)
}

/// All `(word id, end offset)` pairs, in word-id order, of the words among
/// the first `n` whose surface starts at `off` in the text.
pub open spec fn spec_lookup(lex: Seq<EntryV>, text: Seq<u8>, off: int, n: int) -> Seq<(int, int)>
    decreases n,
{
    if n <= 0 {
        Seq::empty()
    } else {
        spec_lookup(lex, text, off, n - 1) + (if entry_matches_at(
            lex,
            text,
            n - 1,
            off,
            off + lex[n - 1].surface.len(),
        ) {
            seq![(n - 1, off + lex[n - 1].surface.len())]
        } else {
            Seq::empty()
        })
    }
}

/// Every word that matches at `off` appears in the lookup result.
pub proof fn lemma_lookup_complete(lex: Seq<EntryV>, text: Seq<u8>, off: int, n: int, w: int)
    requires
        0 <= w < n <= lex.len(),
        entry_matches_at(lex, text, w, off, off + lex[w].surface.len()),
    ensures
        spec_lookup(lex, text, off, n).contains((w, off + lex[w].surface.len())),
    decreases n,
{
    if w == n - 1 {
        let s = spec_lookup(lex, text, off, n);
        let prefix = spec_lookup(lex, text, off, n - 1);
        assert(s[prefix.len() as int] == (w, off + lex[w].surface.len()));
    } else {
        lemma_lookup_complete(lex, text, off, n - 1, w);
        let prefix = spec_lookup(lex, text, off, n - 1);
        let i = choose|i: int|
            0 <= i < prefix.len() && prefix[i] == (w, off + lex[w].surface.len());
        assert(spec_lookup(lex, text, off, n)[i] == (w, off + lex[w].surface.len()));
    }
}

/// Everything in the lookup result is a word that matches at `off`.
pub proof fn lemma_lookup_sound(lex: Seq<EntryV>, text: Seq<u8>, off: int, n: int, k: int)
    requires
        n <= lex.len(),
        0 <= k < spec_lookup(lex, text, off, n).len(),
    ensures
        ({
            let t = spec_lookup(lex, text, off, n)[k];
            &&& entry_matches_at(lex, text, t.0, off, t.1)
            &&& t.1 == off + lex[t.0].surface.len()
        }),
    decreases n,
{
    if n > 0 {
        let prefix = spec_lookup(lex, text, off, n - 1);
        if k < prefix.len() {
            lemma_lookup_sound(lex, text, off, n - 1, k);
        }
    }
}

// ---------------------------------------------------------------------------
// Exec helpers.
// ---------------------------------------------------------------------------
/// Do the bytes of `needle` stand at `off` in `hay`?
pub fn region_matches(needle: &Vec<u8>, hay: &[u8], off: usize) -> (r: bool)
    requires
        off <= hay@.len(),
    ensures
        r == (off + needle@.len() <= hay@.len() && needle@ == hay@.subrange(
            off as int,
            off + needle@.len(),
        )),
{
    let nl = needle.len();
    let hlen = hay.len();
    if hlen - off < nl {
        return false;
    }
    let mut j: usize = 0;
    while j < nl
        invariant
            j <= nl,
            off + nl <= hlen,
            hlen == hay@.len(),
            nl == needle@.len(),
            forall|i: int| 0 <= i < j ==> needle@[i] == hay@[off + i],
        decreases nl - j,
    {
        if needle[j] != hay[off + j] {
            assert(needle@[j as int] != hay@.subrange(off as int, off + nl as int)[j as int]);
            return false;
        }
        j += 1;
    }
    proof {
        assert(needle@ =~= hay@.subrange(off as int, off + nl as int));
    }
    true
}

/// Are two byte vectors equal?
pub fn bytes_eq(a: &Vec<u8>, b: &Vec<u8>) -> (r: bool)
    ensures
        r == (a@ == b@),
{
    if a.len() != b.len() {
        return false;
    }
    let n = a.len();
    let mut j: usize = 0;
    while j < n
        invariant
            j <= n,
            n == a@.len() == b@.len(),
            forall|i: int| 0 <= i < j ==> a@[i] == b@[i],
        decreases n - j,
    {
        if a[j] != b[j] {
            return false;
        }
        j += 1;
    }
    proof {
        assert(a@ =~= b@);
    }
    true
}

/// Parse one encoded entry at offset `p`.
///
/// Returns the entry and the offset just past it; fails exactly when the
/// encoded entry does not fit inside the buffer.
fn parse_entry(b: &[u8], p: usize) -> (r: Result<(WordEntry, usize), EngineError>)
    requires
        p <= b@.len(),
    ensures
        r is Ok <==> entry_region_ok(b@, p as int),
        r is Err ==> r == Err::<(WordEntry, usize), EngineError>(EngineError::DictionaryFormat),
        r is Ok ==> ({
            let (e, end) = r->Ok_0;
            &&& e@ == spec_entry(b@, p as int)
            &&& end == e_end(b@, p as int)
            &&& p < end <= b@.len()
            &&& -32768 <= e.cost <= 32767
        }),
{
    let blen = b.len();
    if blen - p < 2 {
        return Err(EngineError::DictionaryFormat);
    }
    let slen = read_u16(b, p) as usize;
    if blen - (p + 2) < slen + 7 {
        return Err(EngineError::DictionaryFormat);
    }
    let mut surface: Vec<u8> = Vec::new();
    for j in 0..slen
        invariant
            p + 2 + slen + 7 <= blen,
            blen == b@.len(),
            surface@.len() == j,
            forall|i: int| 0 <= i < j ==> surface@[i] == b@[p + 2 + i],
    {
        surface.push(b[p + 2 + j]);
    }
    proof {
        assert(surface@ =~= b@.subrange(p as int + 2, p + 2 + slen as int));
    }
    let q = p + 2 + slen;
    let left_id = read_u16(b, q);
    let right_id = read_u16(b, q + 2);
    let cost = read_cost(b, q + 4);
    let alen = b[q + 6] as usize;
    if blen - (q + 7) < 4 * alen + 1 {
        return Err(EngineError::DictionaryFormat);
    }
    let aoff = q + 7;
    let mut a_split: Vec<u32> = Vec::new();
    for k in 0..alen
        invariant
            aoff + 4 * alen + 1 <= blen,
            blen == b@.len(),
            a_split@.len() == k,
            forall|i: int| 0 <= i < k ==> a_split@[i] == le32(b@, aoff + 4 * i),
    {
        a_split.push(read_u32(b, aoff + 4 * k));
    }
    let boff = aoff + 4 * alen;
    let bcount = b[boff] as usize;
    if blen - (boff + 1) < 4 * bcount {
        return Err(EngineError::DictionaryFormat);
    }
    let bidoff = boff + 1;
    let mut b_split: Vec<u32> = Vec::new();
    for k in 0..bcount
        invariant
            bidoff + 4 * bcount <= blen,
            blen == b@.len(),
            b_split@.len() == k,
            forall|i: int| 0 <= i < k ==> b_split@[i] == le32(b@, bidoff + 4 * i),
    {
        b_split.push(read_u32(b, bidoff + 4 * k));
    }
    let end = bidoff + 4 * bcount;
    let entry = WordEntry { surface, left_id, right_id, cost, a_split, b_split };
    proof {
        assert(entry@.a_split =~= spec_ids(b@, e_a_off(b@, p as int), e_a_len(b@, p as int)));
        assert(entry@.b_split =~= spec_ids(b@, e_b_off(b@, p as int), e_b_len(b@, p as int)));
        assert(entry@ =~= spec_entry(b@, p as int));
    }
    Ok((entry, end))
}

// ---------------------------------------------------------------------------
// The lexicon proper.
// ---------------------------------------------------------------------------
/// The parsed word list.
pub struct Lexicon {
    pub entries: Vec<WordEntry>,
}

/// The view of a sequence of parsed entries.
pub open spec fn lex_view(es: Seq<WordEntry>) -> Seq<EntryV> {
    es.map_values(|e: WordEntry| e@)
}

impl View for Lexicon {
    type V = Seq<EntryV>;

    open spec fn view(&self) -> Seq<EntryV> {
        lex_view(self.entries@)
    }
}

impl Lexicon {
    /// Structural well-formedness: ids fit the id type, costs fit the range
    /// the biased encoding can produce.
    pub open spec fn wf(self) -> bool {
        &&& self@.len() <= u32::MAX
        &&& forall|w: int| 0 <= w < self@.len() ==> -32768 <= (#[trigger] self@[w]).cost <= 32767
    }

    /// Number of words in the lexicon.
    pub fn len(&self) -> (n: usize)
        ensures
            n == self@.len(),
    {
        self.entries.len()
    }

    /// Borrow one word's record.
    pub fn entry(&self, word_id: usize) -> (e: &WordEntry)
        requires
            word_id < self@.len(),
        ensures
            e@ == self@[word_id as int],
    {
        &self.entries[word_id]
    }

    /// The connection parameters `(left id, right id, cost)` of a word.
    /// Fails exactly when the id names no word.
    pub fn get_word_param(&self, word_id: usize) -> (r: Result<(u16, u16, i32), EngineError>)
        ensures
            r is Ok <==> word_id < self@.len(),
            r is Err ==> r == Err::<(u16, u16, i32), EngineError>(EngineError::Lookup),
            r is Ok ==> ({
                let e = self@[word_id as int];
                r->Ok_0.0 == e.left_id && r->Ok_0.1 == e.right_id && r->Ok_0.2 == e.cost
            }),
    {
        if word_id < self.entries.len() {
            let e = &self.entries[word_id];
            Ok((e.left_id, e.right_id, e.cost))
        } else {
            Err(EngineError::Lookup)
        }
    }

    /// Borrow a word's record, failing exactly when the id names no word.
    pub fn get_word_info(&self, word_id: usize) -> (r: Result<&WordEntry, EngineError>)
        ensures
            r is Ok <==> word_id < self@.len(),
            r is Err ==> r == Err::<&WordEntry, EngineError>(EngineError::Lookup),
            r is Ok ==> r->Ok_0@ == self@[word_id as int],
    {
        if word_id < self.entries.len() {
            Ok(&self.entries[word_id])
        } else {
            Err(EngineError::Lookup)
        }
    }

    /// Parse the word list encoded at `off`: a four-byte count followed by
    /// that many entries. Returns `Ok` exactly when the encoded region is
    /// well formed.
    pub fn parse(b: &[u8], off: usize) -> (r: Result<Lexicon, EngineError>)
        ensures
            r is Ok <==> lexicon_region_ok(b@, off as int),
            r is Err ==> r == Err::<Lexicon, EngineError>(EngineError::DictionaryFormat),
            r is Ok ==> r->Ok_0.wf() && r->Ok_0@ == spec_lexicon(b@, off as int),
    {
        let blen = b.len();
        if blen < 4 || off > blen - 4 {
            return Err(EngineError::DictionaryFormat);
        }
        let count = read_u32(b, off);
        let total: usize = count as usize;
        let ghost n0: nat = le32(b@, off as int) as nat;
        let mut entries: Vec<WordEntry> = Vec::new();
        let mut pos: usize = off + 4;
        for i in 0..total
            invariant
                blen == b@.len(),
                off + 4 <= blen,
                n0 == le32(b@, off as int) as nat,
                total == n0,
                total <= u32::MAX,
                entries@.len() == i,
                pos <= blen,
                entries_ok(b@, off + 4, n0) <==> entries_ok(b@, pos as int, (n0 - i) as nat),
                entries_ok(b@, pos as int, (n0 - i) as nat) ==> lex_view(entries@) + spec_entries(
                    b@,
                    pos as int,
                    (n0 - i) as nat,
                ) =~= spec_entries(b@, off + 4, n0),
                forall|w: int|
                    0 <= w < i ==> -32768 <= (#[trigger] lex_view(entries@)[w]).cost <= 32767,
        {
            let ghost rem: nat = (n0 - i) as nat;
            match parse_entry(b, pos) {
                Err(_) => {
                    proof {
                        assert(!entries_ok(b@, pos as int, rem));
                    }
                    return Err(EngineError::DictionaryFormat);
                },
                Ok(pair) => {
                    let (e, newpos) = pair;
                    proof {
                        assert(entries_ok(b@, pos as int, rem) <==> entries_ok(
                            b@,
                            newpos as int,
                            (rem - 1) as nat,
                        ));
                        if entries_ok(b@, newpos as int, (rem - 1) as nat) {
                            assert(spec_entries(b@, pos as int, rem) =~= seq![
                                spec_entry(b@, pos as int),
                            ] + spec_entries(b@, newpos as int, (rem - 1) as nat));
                            assert(lex_view(entries@.push(e)) =~= lex_view(entries@) + seq![e@]);
                            assert(lex_view(entries@.push(e)) + spec_entries(
                                b@,
                                newpos as int,
                                (rem - 1) as nat,
                            ) =~= spec_entries(b@, off + 4, n0));
                        } else {
                            assert(lex_view(entries@.push(e)) =~= lex_view(entries@) + seq![e@]);
                        }
                    }
                    entries.push(e);
                    pos = newpos;
                },
            }
        }
        proof {
            assert(entries_ok(b@, pos as int, 0nat));
            assert(spec_entries(b@, pos as int, 0nat) =~= Seq::<EntryV>::empty());
            assert(lex_view(entries@) =~= spec_entries(b@, off + 4, n0));
        }
        Ok(Lexicon { entries })
    }

    /// Every id of `ids` names a word of this lexicon.
    fn ids_in_range(&self, ids: &Vec<u32>) -> (r: bool)
        ensures
            r == ids_ok(self@.len() as int, ids@.map_values(|x: u32| x as int)),
    {
        let n = self.entries.len();
        let m = ids.len();
        let ghost idsv = ids@.map_values(|x: u32| x as int);
        for k in 0..m
            invariant
                m == ids@.len(),
                n == self@.len(),
                idsv == ids@.map_values(|x: u32| x as int),
                forall|i: int| 0 <= i < k ==> 0 <= #[trigger] idsv[i] < n,
        {
            if ids[k] as usize >= n {
                proof {
                    assert(idsv[k as int] >= n);
                    assert(!ids_ok(self@.len() as int, idsv));
                }
                return false;
            }
        }
        true
    }

    /// The concatenation of the surfaces of the words `ids` name.
    fn concat_of(&self, ids: &Vec<u32>) -> (out: Vec<u8>)
        requires
            self.wf(),
            ids_ok(self@.len() as int, ids@.map_values(|x: u32| x as int)),
        ensures
            out@ == concat_surfaces(self@, ids@.map_values(|x: u32| x as int)),
    {
        let ghost idsv = ids@.map_values(|x: u32| x as int);
        let mut out: Vec<u8> = Vec::new();
        let m = ids.len();
        proof {
            assert(idsv.take(0) =~= Seq::<int>::empty());
            assert(concat_surfaces(self@, Seq::<int>::empty()) =~= Seq::<u8>::empty());
        }
        for k in 0..m
            invariant
                m == ids@.len(),
                idsv == ids@.map_values(|x: u32| x as int),
                ids_ok(self@.len() as int, idsv),
                out@ =~= concat_surfaces(self@, idsv.take(k as int)),
        {
            let id = ids[k] as usize;
            assert(0 <= idsv[k as int] < self@.len());
            let e = &self.entries[id];
            out.extend_from_slice(e.surface.as_slice());
            proof {
                lemma_concat_snoc(self@, idsv.take(k as int), idsv[k as int]);
                assert(idsv.take(k + 1) =~= idsv.take(k as int).push(idsv[k as int]));
                assert(out@ =~= concat_surfaces(self@, idsv.take(k + 1)));
            }
        }
        proof {
            assert(idsv.take(m as int) =~= idsv);
        }
        out
    }

    /// Check every word of the lexicon against the cost table sizes and the
    /// word list itself: non-empty surfaces, covered connection ids, split
    /// ids in range, and split lists of two or more words reassembling
    /// exactly their word's surface. The loader accepts a dictionary only
    /// when this holds.
    pub fn validate(&self, rows: u16, cols: u16) -> (r: bool)
        requires
            self.wf(),
        ensures
            r == lex_valid(self@, rows as int, cols as int),
    {
        let n = self.entries.len();
        for w in 0..n
            invariant
                n == self@.len(),
                self.wf(),
                forall|v: int| 0 <= v < w ==> entry_valid(self@, rows as int, cols as int, v),
        {
            let e = &self.entries[w];
            if e.surface.len() == 0 {
                assert(!entry_valid(self@, rows as int, cols as int, w as int));
                return false;
            }
            if e.right_id >= rows || e.left_id >= cols {
                assert(!entry_valid(self@, rows as int, cols as int, w as int));
                return false;
            }
            if !self.ids_in_range(&e.a_split) {
                assert(!entry_valid(self@, rows as int, cols as int, w as int));
                return false;
            }
            if !self.ids_in_range(&e.b_split) {
                assert(!entry_valid(self@, rows as int, cols as int, w as int));
                return false;
            }
            if e.a_split.len() >= 2 {
                let buf = self.concat_of(&e.a_split);
                if !bytes_eq(&buf, &e.surface) {
                    assert(!entry_valid(self@, rows as int, cols as int, w as int));
                    return false;
                }
            }
            if e.b_split.len() >= 2 {
                let buf = self.concat_of(&e.b_split);
                if !bytes_eq(&buf, &e.surface) {
                    assert(!entry_valid(self@, rows as int, cols as int, w as int));
                    return false;
                }
            }
            assert(entry_valid(self@, rows as int, cols as int, w as int));
        }
        true
    }

    /// All words whose surface starts at byte `off` of the text, as
    /// `(word id, end offset)` pairs in word-id order.
    pub fn lookup(&self, input: &[u8], off: usize) -> (r: Vec<(u32, usize)>)
        requires
            self.wf(),
            off <= input@.len(),
        ensures
            r@.map_values(|t: (u32, usize)| (t.0 as int, t.1 as int)) == spec_lookup(
                self@,
                input@,
                off as int,
                self@.len() as int,
            ),
    {
        let mut out: Vec<(u32, usize)> = Vec::new();
        let n = self.entries.len();
        let ilen = input.len();
        for w in 0..n
            invariant
                n == self@.len(),
                self.wf(),
                ilen == input@.len(),
                off <= input@.len(),
                out@.map_values(|t: (u32, usize)| (t.0 as int, t.1 as int)) =~= spec_lookup(
                    self@,
                    input@,
                    off as int,
                    w as int,
                ),
        {
            let ghost prev = out@.map_values(|t: (u32, usize)| (t.0 as int, t.1 as int));
            let e = &self.entries[w];
            if region_matches(&e.surface, input, off) {
                let end = off + e.surface.len();
                out.push((w as u32, end));
                proof {
                    assert(entry_matches_at(
                        self@,
                        input@,
                        w as int,
                        off as int,
                        off + self@[w as int].surface.len(),
                    ));
                    assert(out@.map_values(|t: (u32, usize)| (t.0 as int, t.1 as int)) =~= prev
                        + seq![(w as int, off + self@[w as int].surface.len())]);
                }
            } else {
                proof {
                    assert(!entry_matches_at(
                        self@,
                        input@,
                        w as int,
                        off as int,
                        off + self@[w as int].surface.len(),
                    ));
                }
            }
        }
        out
    }
}

} // verus!
